//! Objects, packs and the index of a repository.

use vstd::prelude::*;

use crate::bytes;
use crate::fs;
use crate::fs::memory;
use crate::fs::path;
use crate::fs::{Fault, FileSystem, Refusal};
use crate::index;
use crate::index::Index;
use crate::id_set;
use crate::object;
use crate::object::{Object, ObjectId, ObjectKind};
use crate::order;
use crate::pack;
use crate::pack::{PackBundle, PackIndex, PackOptions, PackSource};
use crate::repository;
use crate::repository::Repository;
use crate::{Error, Result};

verus! {

// ---------------------------------------------------------------------------
// Names of the repository's own files

pub open spec fn pack_directory() -> Seq<u8> {
    bytes::utf8("objects/pack"@)
}

/// Where a file of the pack directory stands.
pub open spec fn pack_file(name: Seq<u8>) -> Seq<u8> {
    bytes::utf8("objects/pack/"@) + name
}

pub proof fn lemma_pack_directory()
    ensures
        path::plain(pack_directory()),
        pack_directory().len() == 12,
        bytes::utf8("objects/pack/"@) == pack_directory().push(47),
{
    reveal_strlit("objects/pack");
    reveal_strlit("objects/pack/");
    bytes::lemma_ascii("objects/pack"@);
    bytes::lemma_ascii("objects/pack/"@);
    let p = pack_directory();
    let a = p.take(7);
    let b = p.skip(8);
    assert(a[0] == 111);
    assert(b[0] == 112);
    path::lemma_plain_name(a);
    path::lemma_plain_name(b);
    path::lemma_plain_concat(a, b);
    assert(p =~= a.push(47) + b);
    assert(bytes::utf8("objects/pack/"@) =~= p.push(47));
}

/// A file of the pack directory has a plain path.
pub proof fn lemma_pack_file(name: Seq<u8>)
    requires
        path::plain(name),
        name.len() > 0,
    ensures
        path::plain(pack_file(name)),
        pack_file(name).len() > 0,
{
    lemma_pack_directory();
    path::lemma_plain_concat(pack_directory(), name);
}

/// A loose object has a plain path.
pub proof fn lemma_loose_path(id: Seq<u8>)
    requires
        id.len() == 20,
    ensures
        path::plain(object::loose_path(id)),
        object::loose_path(id).len() > 0,
{
    reveal_strlit("objects/");
    bytes::lemma_ascii("objects/"@);
    let p = object::loose_path(id);
    let hex = object::hex_of(id);
    assert(hex.len() == 40);
    assert forall|i: int| 0 <= i < 40 implies hex[i] != 47 && hex[i] != 46 by {
        let b = id[i / 2] as int;
        assert(0 <= b / 16 < 16 && 0 <= b % 16 < 16);
    }
    let a = bytes::utf8("objects/"@).take(7);
    let b = hex.take(2);
    let c = hex.skip(2);
    assert(a[0] == 111);
    path::lemma_plain_name(a);
    assert(b[0] != 46 && b[0] == hex[0]);
    path::lemma_plain_name(b);
    assert(c[0] != 46 && c[0] == hex[2]);
    path::lemma_plain_name(c);
    path::lemma_plain_concat(a, b);
    path::lemma_plain_concat(a.push(47) + b, c);
    assert(p =~= (a.push(47) + b).push(47) + c);
}

// ---------------------------------------------------------------------------
// Directories

/// The names in a directory, in ascending order.
pub open spec fn children(tree: memory::Tree, directory: Seq<u8>) -> Seq<Seq<u8>> {
    choose|names: Seq<Seq<u8>>| memory::lists_children(tree, directory, names)
}

/// There is one ascending list of the names in a directory.
pub proof fn lemma_children(tree: memory::Tree, directory: Seq<u8>, names: Seq<Seq<u8>>)
    requires
        memory::lists_children(tree, directory, names),
    ensures
        children(tree, directory) == names,
{
    let other = children(tree, directory);
    assert forall|x: Seq<u8>| names.contains(x) <==> other.contains(x) by {
        if names.contains(x) {
            let i = names.index_of(x);
            assert(memory::has_child(tree, directory, names[i]));
            let p = choose|p: Seq<u8>| #[trigger]
                memory::is_child(tree, directory, p) && memory::name_of(p) == x;
            assert(other.contains(memory::name_of(p)));
        }
        if other.contains(x) {
            let i = other.index_of(x);
            assert(memory::has_child(tree, directory, other[i]));
            let p = choose|p: Seq<u8>| #[trigger]
                memory::is_child(tree, directory, p) && memory::name_of(p) == x;
            assert(names.contains(memory::name_of(p)));
        }
    }
    order::lemma_ascending_same(names, other);
}

/// A directory of finitely many files has an ascending list of names.
pub proof fn lemma_children_exist(tree: memory::Tree, directory: Seq<u8>)
    requires
        tree.dom().finite(),
    ensures
        memory::lists_children(tree, directory, children(tree, directory)),
{
    let inside = tree.dom().filter(|p: Seq<u8>| memory::is_child(tree, directory, p));
    let set = inside.map(|p: Seq<u8>| memory::name_of(p));
    inside.lemma_map_finite(|p: Seq<u8>| memory::name_of(p));
    id_set::lemma_sorted_exists(set);
    let names = id_set::sorted(set);
    assert forall|p: Seq<u8>| #[trigger] memory::is_child(tree, directory, p) implies names.contains(
        memory::name_of(p),
    ) by {
        assert(inside.contains(p));
        assert(set.contains(memory::name_of(p)));
        assert(names.to_set().contains(memory::name_of(p)));
    }
    assert forall|i: int| 0 <= i < names.len() implies memory::has_child(
        tree,
        directory,
        #[trigger] names[i],
    ) by {
        assert(names.to_set().contains(names[i]));
        let p = choose|p: Seq<u8>| inside.contains(p) && #[trigger] memory::name_of(p) == names[i];
        assert(memory::is_child(tree, directory, p));
    }
    assert(memory::lists_children(tree, directory, names));
}

/// What listing a directory gives.
pub open spec fn listed(tree: memory::Tree, directory: Seq<u8>) -> core::result::Result<
    Seq<Seq<u8>>,
    Refusal,
> {
    if !tree.contains_key(directory) {
        Err(Refusal::At(Fault::NotFound, directory))
    } else if !(tree[directory] is Directory) {
        Err(Refusal::At(Fault::NotDirectory, directory))
    } else {
        Ok(children(tree, directory))
    }
}

/// What reading a file gives.
pub open spec fn read_at(tree: memory::Tree, p: Seq<u8>) -> core::result::Result<Seq<u8>, Refusal> {
    match memory::contents(tree, p) {
        Ok(data) => Ok(data),
        Err(fault) => Err(Refusal::At(fault, p)),
    }
}

impl Repository {
    /// The names in one of the repository's own directories.
    pub fn list_directory(&self, relative: &[u8]) -> (r: Result<Vec<Vec<u8>>>)
        requires
            path::plain(relative@),
            relative@.len() > 0,
        ensures
            match listed(self.tree(), repository::joined(self.git(), relative@)) {
                Ok(names) => r is Ok && bytes::deep(r->Ok_0@) == names,
                Err(refusal) => fs::declined(r, refusal),
            },
    {
        let at = self.git_path(relative);
        let names = self.filesystem().read_dir(at.as_slice())?;
        proof {
            lemma_children(self.tree(), at@, bytes::deep(names@));
        }
        Ok(names)
    }
}

// ---------------------------------------------------------------------------
// Objects

/// Where a loose object stands.
pub open spec fn loose_at(git: Seq<u8>, id: Seq<u8>) -> Seq<u8> {
    repository::joined(git, object::loose_path(id))
}

/// The path that a missing object is reported under.
pub open spec fn object_label(id: Seq<u8>) -> Seq<u8> {
    bytes::utf8("objects/"@) + object::hex_of(id)
}

/// Whether a name has an extension.
pub open spec fn has_extension(name: Seq<u8>, extension: Seq<u8>) -> bool {
    bytes::has_suffix(name, seq![46u8] + extension) && name.len() > extension.len() + 1
}

/// What reading a path gives, once the path is in its plain form.
pub open spec fn fetched(tree: memory::Tree, p: Seq<u8>) -> core::result::Result<Seq<u8>, Refusal> {
    match path::normalized(p) {
        None => Err(Refusal::At(Fault::InvalidPath, p)),
        Some(plain) => read_at(tree, plain),
    }
}

/// What a pack gives for an object that its index names.
pub open spec fn object_in_pack(
    pack: Seq<u8>,
    list: Seq<pack::PackRecord>,
    checksum: Seq<u8>,
    id: Seq<u8>,
    limit: nat,
) -> core::result::Result<(ObjectKind, Seq<u8>), Refusal> {
    match pack::pack_fault(pack, list.len() as int, checksum) {
        Some(error) => Err(Refusal::Said(error)),
        None => match pack::resolved(pack, list, id, limit, 0) {
            Err(error) => Err(Refusal::Said(error)),
            Ok((kind, data)) => if object::object_id(kind, data) != id {
                Err(
                    Refusal::Said(
                        Error::InvalidObject("invalid pack: resolved packed object hash mismatch"),
                    ),
                )
            } else {
                Ok((kind, data))
            },
        },
    }
}

/// What the packs from a position on give for an object.
pub open spec fn search_packs(
    tree: memory::Tree,
    git: Seq<u8>,
    id: Seq<u8>,
    limit: nat,
    names: Seq<Seq<u8>>,
    i: int,
) -> core::result::Result<(ObjectKind, Seq<u8>), Refusal>
    decreases names.len() - i,
{
    if i < 0 || i >= names.len() {
        Err(Refusal::At(Fault::NotFound, repository::joined(git, object_label(id))))
    } else {
        let name = names[i];
        if !has_extension(name, bytes::utf8("idx"@)) {
            search_packs(tree, git, id, limit, names, i + 1)
        } else {
            match fetched(tree, repository::joined(git, pack_file(name))) {
                Err(refusal) => Err(refusal),
                Ok(index) => match pack::index_from(index) {
                    Err(error) => Err(Refusal::Said(error)),
                    Ok((list, checksum)) => if !pack::names(list, id) {
                        search_packs(tree, git, id, limit, names, i + 1)
                    } else {
                        match fetched(
                            tree,
                            repository::joined(git, pack_file(pack_name_of(name))),
                        ) {
                            Err(refusal) => Err(refusal),
                            Ok(data) => object_in_pack(data, list, checksum, id, limit),
                        }
                    },
                },
            }
        }
    }
}

/// The pack that belongs to an index.
pub open spec fn pack_name_of(name: Seq<u8>) -> Seq<u8> {
    name.take(name.len() - 3) + bytes::utf8("pack"@)
}

/// What the packs of a repository give for an object.
pub open spec fn packed_object(
    tree: memory::Tree,
    git: Seq<u8>,
    id: Seq<u8>,
    limit: nat,
) -> core::result::Result<(ObjectKind, Seq<u8>), Refusal> {
    match listed(tree, repository::joined(git, pack_directory())) {
        Err(Refusal::At(Fault::NotFound, _)) => Err(
            Refusal::At(Fault::NotFound, repository::joined(git, object_label(id))),
        ),
        Err(refusal) => Err(refusal),
        Ok(names) => search_packs(tree, git, id, limit, names, 0),
    }
}

/// What a repository gives for an object: the loose one, or a packed one.
pub open spec fn stored_object(
    tree: memory::Tree,
    git: Seq<u8>,
    id: Seq<u8>,
    limit: nat,
) -> core::result::Result<(ObjectKind, Seq<u8>), Refusal> {
    match memory::contents(tree, loose_at(git, id)) {
        Ok(stream) => match object::loose_object(id, stream, limit) {
            Ok(object) => Ok(object),
            Err(error) => Err(Refusal::Said(error)),
        },
        Err(Fault::NotFound) => packed_object(tree, git, id, limit),
        Err(fault) => Err(Refusal::At(fault, loose_at(git, id))),
    }
}

/// What writing an object makes of a tree, and why it is refused.
pub open spec fn put_object(
    tree: memory::Tree,
    git: Seq<u8>,
    kind: ObjectKind,
    data: Seq<u8>,
) -> (memory::Tree, Option<Refusal>) {
    let p = loose_at(git, object::object_id(kind, data));
    if tree.contains_key(p) {
        (tree, None)
    } else {
        repository::replaced(tree, p, crate::zlib::deflated(object::framed(kind, data), 6))
    }
}

/// Writing an object a second time changes nothing.
pub proof fn lemma_second_write_changes_nothing(
    tree: memory::Tree,
    git: Seq<u8>,
    kind: ObjectKind,
    data: Seq<u8>,
)
    requires
        put_object(tree, git, kind, data).1 is None,
    ensures
        put_object(put_object(tree, git, kind, data).0, git, kind, data) == (
            put_object(tree, git, kind, data).0,
            None::<Refusal>,
        ),
{
}

/// Whether a result is what a model says.
pub open spec fn gives(
    r: Result<Object>,
    model: core::result::Result<(ObjectKind, Seq<u8>), Refusal>,
) -> bool {
    match model {
        Ok(object) => r is Ok && r->Ok_0@ == object,
        Err(refusal) => fs::declined(r, refusal),
    }
}

pub fn ends_in(name: &[u8], extension: &[u8]) -> (r: bool)
    ensures
        r == has_extension(name@, extension@),
{
    if name.len() <= extension.len() || name.len() - extension.len() < 2 {
        return false;
    }
    let at: usize = name.len() - extension.len();
    let r = name[at - 1] == 46 && bytes::bytes_eq(&name[at..name.len()], extension);
    proof {
        let suffix = seq![46u8] + extension@;
        let tail = name@.skip(name@.len() - suffix.len());
        if r {
            assert(tail =~= suffix);
        } else if tail == suffix {
            assert(tail[0] == name@[at - 1]);
            assert(name@.subrange(at as int, name@.len() as int) =~= tail.skip(1));
            assert(suffix.skip(1) =~= extension@);
        }
    }
    r
}

impl Repository {
    pub fn pack_path(&self, name: &[u8]) -> (r: Vec<u8>)
        ensures
            r@ == repository::joined(self.git(), pack_file(name@)),
    {
        let mut relative = bytes::to_vec("objects/pack/".as_bytes());
        bytes::append(&mut relative, name);
        self.git_path(relative.as_slice())
    }

    fn missing<T>(&self, id: ObjectId) -> (r: Result<T>)
        ensures
            fs::refused(
                r,
                Fault::NotFound,
                repository::joined(self.git(), object_label(id@)),
            ),
    {
        let mut label = bytes::to_vec("objects/".as_bytes());
        let hex = id.to_hex();
        bytes::append(&mut label, hex.as_slice());
        assert(label@ =~= object_label(id@));
        Err(Error::NotFound(self.git_path(label.as_slice())))
    }

    /// Reads an object from the packs.
    pub fn read_packed_object(&self, id: ObjectId, max_size: usize) -> (r: Result<Object>)
        ensures
            gives(r, packed_object(self.tree(), self.git(), id@, max_size as nat)),
    {
        proof {
            lemma_pack_directory();
        }
        let names = match self.list_directory("objects/pack".as_bytes()) {
            Ok(names) => names,
            Err(Error::NotFound(_)) => return self.missing(id),
            Err(error) => return Err(error),
        };
        let ghost all = bytes::deep(names@);
        let mut i: usize = 0;
        while i < names.len()
            invariant
                i <= names@.len(),
                all == bytes::deep(names@),
                packed_object(self.tree(), self.git(), id@, max_size as nat) == search_packs(
                    self.tree(),
                    self.git(),
                    id@,
                    max_size as nat,
                    all,
                    i as int,
                ),
            decreases names@.len() - i,
        {
            let name = names[i].as_slice();
            assert(all[i as int] == name@);
            i += 1;
            if !ends_in(name, "idx".as_bytes()) {
                continue;
            }
            let index_path = self.pack_path(name);
            let index_data = self.filesystem().read(index_path.as_slice())?;
            let index = PackIndex::parse(index_data.as_slice())?;
            let ghost list = index.list();
            if index.find(id).is_none() {
                continue;
            }
            assert(pack::names(list, id@));
            proof {
                reveal_strlit("idx");
                bytes::lemma_ascii("idx"@);
            }
            let mut pack_name = bytes::copy_range(name, 0, name.len() - 3);
            bytes::append(&mut pack_name, "pack".as_bytes());
            assert(pack_name@ =~= pack_name_of(name@));
            let pack_path = self.pack_path(pack_name.as_slice());
            let data = self.filesystem().read(pack_path.as_slice())?;
            pack::validate_pack(data.as_slice(), &index)?;
            let (kind, contents) = pack::resolve(data.as_slice(), &index, id, max_size, 0)?;
            if !ObjectId::compute(kind, contents.as_slice()).same(&id) {
                return Err(
                    Error::InvalidObject("invalid pack: resolved packed object hash mismatch"),
                );
            }
            return Ok(Object::from_parts(kind, contents));
        }
        self.missing(id)
    }

    /// Read an object by its actual ID without consulting replace refs.
    pub fn read_object_raw(&self, id: ObjectId, max_size: usize) -> (r: Result<Object>)
        ensures
            gives(r, stored_object(self.tree(), self.git(), id@, max_size as nat)),
    {
        let relative = object::object_path(id);
        proof {
            ObjectId::lemma_view(id, id);
            lemma_loose_path(id@);
        }
        let stream = match self.read_git_file(relative.as_slice()) {
            Ok(stream) => stream,
            Err(Error::NotFound(_)) => return self.read_packed_object(id, max_size),
            Err(error) => return Err(error),
        };
        object::decode_loose(id, stream.as_slice(), max_size)
    }

    /// Read and verify an object, following the replacement that an enabled
    /// replace ref names for it, where one does.
    pub fn read_object(&self, id: ObjectId, replacement: Option<ObjectId>, max_size: usize) -> (r: Result<
        Object,
    >)
        ensures
            gives(
                r,
                stored_object(
                    self.tree(),
                    self.git(),
                    match replacement {
                        Some(other) => other@,
                        None => id@,
                    },
                    max_size as nat,
                ),
            ),
    {
        match replacement {
            Some(other) => self.read_object_raw(other, max_size),
            None => self.read_object_raw(id, max_size),
        }
    }

    /// Test whether a loose object file exists.
    pub fn contains_loose_object(&self, id: ObjectId) -> (r: Result<bool>)
        ensures
            r == Ok::<bool, Error>(self.tree().contains_key(loose_at(self.git(), id@))),
    {
        let relative = object::object_path(id);
        proof {
            ObjectId::lemma_view(id, id);
            lemma_loose_path(id@);
        }
        let at = self.git_path(relative.as_slice());
        self.filesystem().is_present(at.as_slice())
    }

    /// Write an immutable loose object and return its content-derived ID.
    ///
    /// Existing objects are left untouched. The object is framed, hashed with
    /// SHA-1, zlib-compressed, and stored in Git's fanout object directory.
    /// Reading a newly written object gives its kind and data back.
    pub fn write_object(&mut self, kind: ObjectKind, data: &[u8]) -> (r: Result<ObjectId>)
        ensures
            ({
                let id = object::object_id(kind, data@);
                let p = loose_at(old(self).git(), id);
                let (tree, refusal) = put_object(old(self).tree(), old(self).git(), kind, data@);
                &&& final(self).git() == old(self).git()
                &&& final(self).work() == old(self).work()
                &&& final(self).tree() == tree
                &&& match refusal {
                    Some(refusal) => fs::declined(r, refusal),
                    None => r is Ok && r->Ok_0@ == id && final(self).tree().contains_key(p),
                }
                &&& !old(self).tree().contains_key(p) && refusal is None ==> forall|limit: nat|
                    data@.len() <= limit <= usize::MAX && data@.len() + object::framing()
                        <= usize::MAX ==> #[trigger] stored_object(
                        final(self).tree(),
                        final(self).git(),
                        id,
                        limit,
                    ) == Ok::<(ObjectKind, Seq<u8>), Refusal>((kind, data@))
            }),
    {
        let (id, stream) = object::encode_loose(kind, data);
        let relative = object::object_path(id);
        proof {
            ObjectId::lemma_view(id, id);
            lemma_loose_path(id@);
        }
        let at = self.git_path(relative.as_slice());
        if self.filesystem().is_present(at.as_slice())? {
            return Ok(id);
        }
        self.write_atomic(relative.as_slice(), stream.as_slice())?;
        Ok(id)
    }

    /// Read `.git/index`; an absent file yields an empty v2 index.
    pub fn read_index(&self) -> (r: Result<Index>)
        ensures
            match memory::contents(self.tree(), repository::joined(self.git(), bytes::utf8("index"@))) {
                Ok(data) => match index::index_from(data) {
                    Ok(model) => r is Ok && r->Ok_0@ == model,
                    Err(error) => r is Err && r->Err_0 == error,
                },
                Err(Fault::NotFound) => r is Ok && r->Ok_0@ == index::empty_index(),
                Err(fault) => fs::refused(
                    r,
                    fault,
                    repository::joined(self.git(), bytes::utf8("index"@)),
                ),
            },
    {
        proof {
            lemma_index_name();
        }
        match self.read_git_file("index".as_bytes()) {
            Ok(data) => Index::parse(data.as_slice()),
            Err(Error::NotFound(_)) => Ok(Index::default()),
            Err(error) => Err(error),
        }
    }
}

pub proof fn lemma_index_name()
    ensures
        path::plain(bytes::utf8("index"@)),
        bytes::utf8("index"@).len() > 0,
{
    reveal_strlit("index");
    bytes::lemma_ascii("index"@);
    assert(bytes::utf8("index"@)[0] == 105);
    path::lemma_plain_name(bytes::utf8("index"@));
}

/// The bytes of an index, or why it cannot be written.
pub open spec fn index_file(model: index::IndexModel) -> core::result::Result<Seq<u8>, Error> {
    if model.entries.len() > u32::MAX {
        Err(Error::InvalidRepository("too many index entries"))
    } else if index::too_large(model) {
        Err(Error::InvalidRepository("index extension is too large"))
    } else {
        Ok(index::index_bytes(model))
    }
}

impl Repository {
    /// Atomically replace `.git/index` with a checksum-protected index.
    pub fn write_index(&mut self, index: &Index) -> (r: Result<()>)
        ensures
            final(self).git() == old(self).git(),
            final(self).work() == old(self).work(),
            match index_file(index@) {
                Err(error) => r is Err && r->Err_0 == error && final(self).tree() == old(self).tree(),
                Ok(data) => {
                    let p = repository::joined(old(self).git(), bytes::utf8("index"@));
                    let (tree, refusal) = repository::replaced(old(self).tree(), p, data);
                    &&& final(self).tree() == tree
                    &&& match refusal {
                        Some(refusal) => fs::declined(r, refusal),
                        None => r is Ok,
                    }
                },
            },
    {
        proof {
            lemma_index_name();
        }
        let data = index.encode()?;
        self.write_atomic("index".as_bytes(), data.as_slice())
    }
}

// ---------------------------------------------------------------------------
// Packs

/// The objects that the first `n` identifiers name, each once.
pub open spec fn gathered(
    tree: memory::Tree,
    git: Seq<u8>,
    ids: Seq<Seq<u8>>,
    limit: nat,
    n: int,
) -> core::result::Result<Seq<pack::SourceModel>, Refusal>
    decreases n,
{
    if n <= 0 {
        Ok(Seq::empty())
    } else {
        match gathered(tree, git, ids, limit, n - 1) {
            Err(refusal) => Err(refusal),
            Ok(before) => if ids.take(n - 1).contains(ids[n - 1]) {
                Ok(before)
            } else {
                match stored_object(tree, git, ids[n - 1], limit) {
                    Err(refusal) => Err(refusal),
                    Ok((kind, data)) => Ok(
                        before.push(pack::SourceModel { id: ids[n - 1], kind, data }),
                    ),
                }
            },
        }
    }
}

/// The identifiers of a list.
pub open spec fn id_views(ids: Seq<ObjectId>) -> Seq<Seq<u8>> {
    Seq::new(ids.len(), |i: int| ids[i]@)
}

proof fn lemma_gathered_persists(
    tree: memory::Tree,
    git: Seq<u8>,
    ids: Seq<Seq<u8>>,
    limit: nat,
    n: int,
    m: int,
)
    requires
        0 <= n <= m,
    ensures
        gathered(tree, git, ids, limit, n) is Err ==> gathered(tree, git, ids, limit, m)
            == gathered(tree, git, ids, limit, n),
    decreases m,
{
    if n < m {
        lemma_gathered_persists(tree, git, ids, limit, n, m - 1);
    }
}

/// Whether a list of identifiers holds one before a position.
fn seen_before(ids: &[ObjectId], n: usize) -> (r: bool)
    requires
        n < ids@.len(),
    ensures
        r == id_views(ids@).take(n as int).contains(ids@[n as int]@),
{
    let ghost front = id_views(ids@).take(n as int);
    let mut i: usize = 0;
    while i < n
        invariant
            i <= n < ids@.len(),
            front == id_views(ids@).take(n as int),
            forall|j: int| 0 <= j < i ==> #[trigger] front[j] != ids@[n as int]@,
        decreases n - i,
    {
        assert(front[i as int] == ids@[i as int]@);
        if ids[i].same(&ids[n]) {
            return true;
        }
        i += 1;
    }
    false
}

/// What publishing a file makes of a tree, and why it is refused.
pub open spec fn published(tree: memory::Tree, p: Seq<u8>, data: Seq<u8>) -> (
    memory::Tree,
    Option<Refusal>,
) {
    if tree.contains_key(p) {
        match read_at(tree, p) {
            Err(refusal) => (tree, Some(refusal)),
            Ok(present) => if present == data {
                (tree, None)
            } else {
                (
                    tree,
                    Some(
                        Refusal::Said(
                            Error::InvalidObject(
                                "invalid pack: content-addressed pack path contains different bytes",
                            ),
                        ),
                    ),
                )
            },
        }
    } else {
        match memory::parent_fault(tree, p) {
            Some(fault) => (tree, Some(Refusal::At(fault, memory::parent_of(p)))),
            None => if tree.contains_key(repository::lock_of(p)) {
                (tree, Some(Refusal::At(Fault::AlreadyExists, repository::lock_of(p))))
            } else {
                (tree.insert(p, memory::file(data, false)), None)
            },
        }
    }
}

impl Repository {
    /// Build a deterministic pack containing the requested objects.
    ///
    /// Duplicate IDs are emitted once. Source objects may be loose or packed.
    pub fn build_pack(&self, ids: &[ObjectId], options: &PackOptions) -> (r: Result<PackBundle>)
        ensures
            match gathered(
                self.tree(),
                self.git(),
                id_views(ids@),
                options.max_object_size as nat,
                ids@.len() as int,
            ) {
                Err(refusal) => fs::declined(r, refusal),
                Ok(all) => pack::bundles(r, all, options.use_deltas),
            },
    {
        let ghost all = id_views(ids@);
        let ghost limit = options.max_object_size as nat;
        let mut objects: Vec<PackSource> = Vec::new();
        let mut n: usize = 0;
        assert(pack::sources(objects@) =~= Seq::empty());
        while n < ids.len()
            invariant
                n <= ids@.len(),
                all == id_views(ids@),
                limit == options.max_object_size as nat,
                gathered(self.tree(), self.git(), all, limit, n as int) == Ok::<
                    Seq<pack::SourceModel>,
                    Refusal,
                >(pack::sources(objects@)),
            decreases ids@.len() - n,
        {
            proof {
                lemma_gathered_persists(
                    self.tree(),
                    self.git(),
                    all,
                    limit,
                    n + 1,
                    ids@.len() as int,
                );
            }
            if !seen_before(ids, n) {
                let id = ids[n];
                let object = self.read_object_raw(id, options.max_object_size)?;
                let ghost before = pack::sources(objects@);
                let kind = object.kind();
                let data = object.into_data();
                let ghost model = pack::SourceModel { id: id@, kind, data: data@ };
                objects.push(PackSource { id, kind, data });
                assert(pack::sources(objects@) =~= before.push(model));
            }
            n += 1;
        }
        pack::build_pack(objects.as_slice(), options)
    }

    /// Puts a file of a pack in its place. One that stands there already is
    /// accepted only when its bytes match exactly.
    pub(crate) fn publish_pack_file(&mut self, relative: &[u8], expected: &[u8]) -> (r: Result<()>)
        requires
            path::plain(relative@),
            relative@.len() > 0,
        ensures
            ({
                let p = repository::joined(old(self).git(), relative@);
                let (tree, refusal) = published(old(self).tree(), p, expected@);
                &&& final(self).tree() == tree
                &&& final(self).git() == old(self).git()
                &&& final(self).work() == old(self).work()
                &&& match refusal {
                    Some(refusal) => fs::declined(r, refusal),
                    None => r is Ok,
                }
            }),
    {
        let target = self.git_path(relative);
        if self.filesystem().is_present(target.as_slice())? {
            let present = self.filesystem().read(target.as_slice())?;
            if bytes::bytes_eq(present.as_slice(), expected) {
                return Ok(());
            }
            return Err(
                Error::InvalidObject(
                    "invalid pack: content-addressed pack path contains different bytes",
                ),
            );
        }
        let mut files = self.swap_files(memory::MemoryFileSystem::new());
        let ghost tree = files@;
        proof {
            repository::lemma_lock(target@);
        }
        let mut lock = bytes::to_vec(target.as_slice());
        bytes::append(&mut lock, ".lock".as_bytes());
        let mut r = files.write_new(lock.as_slice(), expected);
        if r.is_ok() {
            r = files.rename(lock.as_slice(), target.as_slice());
            assert(files@ =~= tree.insert(
                target@,
                memory::file(expected@, false),
            ));
        }
        self.swap_files(files);
        r
    }
}

/// The files of a pack have plain names.
pub proof fn lemma_stem_plain(checksum: Seq<u8>, extension: Seq<u8>)
    requires
        checksum.len() == 20,
        forall|i: int| 0 <= i < extension.len() ==> #[trigger] extension[i] != 47,
    ensures
        path::plain(pack::stem_of(checksum) + extension),
        path::plain(pack_file(pack::stem_of(checksum) + extension)),
        pack_file(pack::stem_of(checksum) + extension).len() > 0,
{
    reveal_strlit("pack-");
    bytes::lemma_ascii("pack-"@);
    let stem = pack::stem_of(checksum);
    let hex = object::hex_of(checksum);
    assert forall|i: int| 0 <= i < stem.len() implies stem[i] != 47 by {
        if i >= 5 {
            assert(stem[i] == hex[i - 5]);
            let b = checksum[(i - 5) / 2] as int;
            assert(0 <= b / 16 < 16 && 0 <= b % 16 < 16);
        }
    }
    let name = stem + extension;
    assert(name[0] == 112);
    assert forall|i: int| 0 <= i < name.len() implies name[i] != 47 by {
        if i < stem.len() {
            assert(name[i] == stem[i]);
        } else {
            assert(name[i] == extension[i - stem.len()]);
        }
    }
    path::lemma_plain_name(name);
    lemma_pack_file(name);
}

/// Where the files of a bundle go.
pub open spec fn bundle_path(git: Seq<u8>, checksum: Seq<u8>, extension: Seq<u8>) -> Seq<u8> {
    repository::joined(git, pack_file(pack::stem_of(checksum) + extension))
}

/// What publishing a bundle makes of a tree, and why it is refused: the pack
/// comes before its index.
pub open spec fn bundle_published(tree: memory::Tree, git: Seq<u8>, bundle: pack::BundleModel) -> (
    memory::Tree,
    Option<Refusal>,
) {
    let (packed, refusal) = published(
        tree,
        bundle_path(git, bundle.checksum, bytes::utf8(".pack"@)),
        bundle.pack,
    );
    match refusal {
        Some(refusal) => (packed, Some(refusal)),
        None => published(
            packed,
            bundle_path(git, bundle.checksum, bytes::utf8(".idx"@)),
            bundle.index,
        ),
    }
}

impl Repository {
    /// Publishes a bundle under `objects/pack`.
    pub fn publish_bundle(&mut self, bundle: &PackBundle) -> (r: Result<pack::WrittenPack>)
        ensures
            final(self).git() == old(self).git(),
            final(self).work() == old(self).work(),
            final(self).tree() == bundle_published(old(self).tree(), old(self).git(), bundle@).0,
            match bundle_published(old(self).tree(), old(self).git(), bundle@).1 {
                Some(refusal) => fs::declined(r, refusal),
                None => {
                    &&& r is Ok
                    &&& r->Ok_0.pack_path@ == bundle_path(
                        old(self).git(),
                        bundle@.checksum,
                        bytes::utf8(".pack"@),
                    )
                    &&& r->Ok_0.index_path@ == bundle_path(
                        old(self).git(),
                        bundle@.checksum,
                        bytes::utf8(".idx"@),
                    )
                    &&& r->Ok_0.checksum@ == bundle@.checksum
                    &&& r->Ok_0.object_count == bundle@.object_count
                },
            },
    {
        let sum = bundle.checksum();
        assert(sum@ == bundle@.checksum && sum@.len() == 20);
        let stem = bundle.stem();
        proof {
            reveal_strlit(".pack");
            reveal_strlit(".idx");
            bytes::lemma_ascii(".pack"@);
            bytes::lemma_ascii(".idx"@);
            lemma_stem_plain(bundle@.checksum, bytes::utf8(".pack"@));
            lemma_stem_plain(bundle@.checksum, bytes::utf8(".idx"@));
        }
        let mut pack_relative = bytes::to_vec("objects/pack/".as_bytes());
        bytes::append(&mut pack_relative, stem.as_slice());
        bytes::append(&mut pack_relative, ".pack".as_bytes());
        assert(pack_relative@ =~= pack_file(stem@ + bytes::utf8(".pack"@)));
        let mut index_relative = bytes::to_vec("objects/pack/".as_bytes());
        bytes::append(&mut index_relative, stem.as_slice());
        bytes::append(&mut index_relative, ".idx".as_bytes());
        assert(index_relative@ =~= pack_file(stem@ + bytes::utf8(".idx"@)));
        self.publish_pack_file(pack_relative.as_slice(), bundle.pack())?;
        self.publish_pack_file(index_relative.as_slice(), bundle.index())?;
        Ok(
            pack::WrittenPack {
                pack_path: self.git_path(pack_relative.as_slice()),
                index_path: self.git_path(index_relative.as_slice()),
                checksum: *bundle.checksum(),
                object_count: bundle.object_count(),
            },
        )
    }

    /// Build and publish a pack under `objects/pack`.
    ///
    /// The pack is published before its index, so concurrent readers never
    /// discover an index naming an incomplete pack. Content-addressed existing
    /// files are accepted only when their bytes match exactly.
    pub fn write_pack(&mut self, ids: &[ObjectId], options: &PackOptions) -> (r: Result<
        pack::WrittenPack,
    >)
        ensures
            final(self).git() == old(self).git(),
            final(self).work() == old(self).work(),
            match gathered(
                old(self).tree(),
                old(self).git(),
                id_views(ids@),
                options.max_object_size as nat,
                ids@.len() as int,
            ) {
                Err(refusal) => fs::declined(r, refusal) && final(self).tree() == old(self).tree(),
                Ok(all) => match pack::bundle_of(all, options.use_deltas) {
                    Err(error) => r is Err && r->Err_0 == error && final(self).tree() == old(self).tree(),
                    Ok(bundle) => {
                        let git = old(self).git();
                        let (tree, refusal) = bundle_published(old(self).tree(), git, bundle);
                        &&& final(self).tree() == tree
                        &&& pack::reads_back(bundle, all, options.use_deltas)
                        &&& match refusal {
                            Some(refusal) => fs::declined(r, refusal),
                            None => {
                                &&& r is Ok
                                &&& r->Ok_0.pack_path@ == bundle_path(
                                    git,
                                    bundle.checksum,
                                    bytes::utf8(".pack"@),
                                )
                                &&& r->Ok_0.index_path@ == bundle_path(
                                    git,
                                    bundle.checksum,
                                    bytes::utf8(".idx"@),
                                )
                                &&& r->Ok_0.checksum@ == bundle.checksum
                                &&& r->Ok_0.object_count == bundle.object_count
                            },
                        }
                    },
                },
            },
    {
        let bundle = self.build_pack(ids, options)?;
        self.publish_bundle(&bundle)
    }
}

// ---------------------------------------------------------------------------
// Laws

/// An index that was written is the index that is read.
pub proof fn lemma_index_reads_back(tree: memory::Tree, git: Seq<u8>, model: index::IndexModel)
    requires
        index::readable(model),
        repository::replaced(
            tree,
            repository::joined(git, bytes::utf8("index"@)),
            index::index_bytes(model),
        ).1 is None,
    ensures
        ({
            let p = repository::joined(git, bytes::utf8("index"@));
            let after = repository::replaced(tree, p, index::index_bytes(model)).0;
            &&& memory::contents(after, p) == Ok::<Seq<u8>, Fault>(index::index_bytes(model))
            &&& index::index_from(index::index_bytes(model)) == Ok::<index::IndexModel, Error>(model)
        }),
{
    index::lemma_index_round_trip(model);
}

/// Whether a file of the pack directory is no reason not to look further for
/// an object: it is no index, or a sound one that does not name the object.
pub open spec fn passed_over(tree: memory::Tree, git: Seq<u8>, name: Seq<u8>, id: Seq<u8>) -> bool {
    has_extension(name, bytes::utf8("idx"@)) ==> match fetched(
        tree,
        repository::joined(git, pack_file(name)),
    ) {
        Err(_) => false,
        Ok(index) => match pack::index_from(index) {
            Err(_) => false,
            Ok((list, _)) => !pack::names(list, id),
        },
    }
}

/// An object of a published pack is looked up in that pack, unless an index
/// that comes earlier in the directory names the object too or is not sound.
#[verifier::spinoff_prover]
#[verifier::rlimit(60)]
pub proof fn lemma_published_pack_is_read(
    tree: memory::Tree,
    git: Seq<u8>,
    bundle: pack::BundleModel,
    list: Seq<pack::PackRecord>,
    id: Seq<u8>,
    limit: nat,
    names: Seq<Seq<u8>>,
    at: int,
)
    requires
        path::plain(git),
        bundle.checksum.len() == 20,
        bundle_published(tree, git, bundle).1 is None,
        pack::index_from(bundle.index) == Ok::<(Seq<pack::PackRecord>, Seq<u8>), Error>(
            (list, bundle.checksum),
        ),
        pack::names(list, id),
        listed(
            bundle_published(tree, git, bundle).0,
            repository::joined(git, pack_directory()),
        ) == Ok::<Seq<Seq<u8>>, Refusal>(names),
        0 <= at < names.len(),
        names[at] == pack::stem_of(bundle.checksum) + bytes::utf8(".idx"@),
        forall|i: int|
            0 <= i < at ==> passed_over(
                bundle_published(tree, git, bundle).0,
                git,
                #[trigger] names[i],
                id,
            ),
    ensures
        packed_object(bundle_published(tree, git, bundle).0, git, id, limit) == object_in_pack(
            bundle.pack,
            list,
            bundle.checksum,
            id,
            limit,
        ),
{
    let after = bundle_published(tree, git, bundle).0;
    lemma_bundle_files(tree, git, bundle);
    reveal_strlit("pack-");
    bytes::lemma_ascii("pack-"@);
    lemma_index_names_pack(pack::stem_of(bundle.checksum));
    lemma_search_reaches(after, git, id, limit, names, 0, at);
}

/// The name of an index leads to the name of its pack.
proof fn lemma_index_names_pack(stem: Seq<u8>)
    requires
        stem.len() > 0,
    ensures
        has_extension(stem + bytes::utf8(".idx"@), bytes::utf8("idx"@)),
        pack_name_of(stem + bytes::utf8(".idx"@)) == stem + bytes::utf8(".pack"@),
{
    reveal_strlit(".pack");
    reveal_strlit(".idx");
    reveal_strlit("idx");
    reveal_strlit("pack");
    bytes::lemma_ascii(".pack"@);
    bytes::lemma_ascii(".idx"@);
    bytes::lemma_ascii("idx"@);
    bytes::lemma_ascii("pack"@);
    let name = stem + bytes::utf8(".idx"@);
    assert(pack_name_of(name) =~= stem + bytes::utf8(".pack"@));
    assert(name.skip(name.len() - 4) =~= seq![46u8] + bytes::utf8("idx"@));
}

/// The files of a bundle that was published are read as they were written.
proof fn lemma_bundle_files(tree: memory::Tree, git: Seq<u8>, bundle: pack::BundleModel)
    requires
        path::plain(git),
        bundle.checksum.len() == 20,
        bundle_published(tree, git, bundle).1 is None,
    ensures
        ({
            let after = bundle_published(tree, git, bundle).0;
            let stem = pack::stem_of(bundle.checksum);
            &&& fetched(
                after,
                repository::joined(git, pack_file(stem + bytes::utf8(".pack"@))),
            ) == Ok::<Seq<u8>, Refusal>(bundle.pack)
            &&& fetched(
                after,
                repository::joined(git, pack_file(stem + bytes::utf8(".idx"@))),
            ) == Ok::<Seq<u8>, Refusal>(bundle.index)
        }),
{
    let stem = pack::stem_of(bundle.checksum);
    reveal_strlit(".pack");
    reveal_strlit(".idx");
    bytes::lemma_ascii(".pack"@);
    bytes::lemma_ascii(".idx"@);
    lemma_stem_plain(bundle.checksum, bytes::utf8(".pack"@));
    lemma_stem_plain(bundle.checksum, bytes::utf8(".idx"@));
    repository::lemma_joined_plain(git, pack_file(stem + bytes::utf8(".pack"@)));
    repository::lemma_joined_plain(git, pack_file(stem + bytes::utf8(".idx"@)));
    let p = bundle_path(git, bundle.checksum, bytes::utf8(".pack"@));
    let q = bundle_path(git, bundle.checksum, bytes::utf8(".idx"@));
    assert(p.last() == 107 && q.last() == 120);
}

proof fn lemma_search_reaches(
    tree: memory::Tree,
    git: Seq<u8>,
    id: Seq<u8>,
    limit: nat,
    names: Seq<Seq<u8>>,
    from: int,
    at: int,
)
    requires
        0 <= from <= at < names.len(),
        forall|i: int| from <= i < at ==> passed_over(tree, git, #[trigger] names[i], id),
    ensures
        search_packs(tree, git, id, limit, names, from) == search_packs(
            tree,
            git,
            id,
            limit,
            names,
            at,
        ),
    decreases at - from,
{
    if from < at {
        assert(passed_over(tree, git, names[from], id));
        lemma_search_reaches(tree, git, id, limit, names, from + 1, at);
    }
}

// ---------------------------------------------------------------------------
// The objects of a built pack

proof fn lemma_gathered_ids(
    tree: memory::Tree,
    git: Seq<u8>,
    ids: Seq<Seq<u8>>,
    limit: nat,
    n: int,
)
    requires
        0 <= n <= ids.len(),
        gathered(tree, git, ids, limit, n) is Ok,
    ensures
        ({
            let all = gathered(tree, git, ids, limit, n)->Ok_0;
            let found = Seq::new(all.len(), |k: int| all[k].id);
            &&& forall|id: Seq<u8>| #[trigger] found.contains(id) <==> ids.take(n).contains(id)
            &&& found.no_duplicates()
        }),
    decreases n,
{
    let all = gathered(tree, git, ids, limit, n)->Ok_0;
    let found = Seq::new(all.len(), |k: int| all[k].id);
    if n > 0 {
        lemma_gathered_ids(tree, git, ids, limit, n - 1);
        let before = gathered(tree, git, ids, limit, n - 1)->Ok_0;
        let was = Seq::new(before.len(), |k: int| before[k].id);
        let id = ids[n - 1];
        assert(ids.take(n) =~= ids.take(n - 1).push(id));
        assert(ids.take(n).last() == id);
        if ids.take(n - 1).contains(id) {
            assert(found =~= was);
        } else {
            assert(found =~= was.push(id));
            assert(!was.contains(id));
            assert(found.last() == id);
        }
        assert forall|x: Seq<u8>| #[trigger] found.contains(x) <==> ids.take(n).contains(x) by {
            assert(was.contains(x) <==> ids.take(n - 1).contains(x));
            if ids.take(n - 1).contains(x) {
                let k = ids.take(n - 1).index_of(x);
                assert(ids.take(n)[k] == x);
            }
            if was.contains(x) {
                let k = was.index_of(x);
                assert(found[k] == x);
            }
            if found.contains(x) {
                let k = found.index_of(x);
                if k < was.len() {
                    assert(was[k] == x);
                }
            }
            if ids.take(n).contains(x) {
                let k = ids.take(n).index_of(x);
                if k < n - 1 {
                    assert(ids.take(n - 1)[k] == x);
                }
            }
        }
    } else {
        assert(found =~= Seq::empty());
        assert(ids.take(0) =~= Seq::empty());
    }
}

/// The index of a pack that is built of some objects parses, and names exactly
/// these objects, each once; it and the pack carry the checksum of the pack.
pub proof fn lemma_built_pack_names_its_objects(
    tree: memory::Tree,
    git: Seq<u8>,
    ids: Seq<Seq<u8>>,
    limit: nat,
    use_deltas: bool,
)
    requires
        forall|i: int| 0 <= i < ids.len() ==> (#[trigger] ids[i]).len() == 20,
        gathered(tree, git, ids, limit, ids.len() as int) is Ok,
        ({
            let all = gathered(tree, git, ids, limit, ids.len() as int)->Ok_0;
            &&& pack::bundle_of(all, use_deltas) is Ok
            &&& pack::large_offsets(
                pack::arranged(pack::pack_records(all, pack::entries_of(all, use_deltas))),
            ).len() <= 0x8000_0000
            &&& (pack::bundle_of(all, use_deltas)->Ok_0).index.len() <= usize::MAX
        }),
    ensures
        ({
            let all = gathered(tree, git, ids, limit, ids.len() as int)->Ok_0;
            let bundle = pack::bundle_of(all, use_deltas)->Ok_0;
            &&& bundle.object_count == ids.to_set().len()
            &&& pack::index_from(bundle.index) matches Ok((list, checksum)) && {
                &&& checksum == bundle.checksum
                &&& list.len() == bundle.object_count
                &&& forall|id: Seq<u8>| #[trigger] pack::names(list, id) <==> ids.contains(id)
            }
            &&& bundle.pack.skip(bundle.pack.len() - 20) == bundle.checksum
            &&& crate::sha1::sha1(bundle.pack.take(bundle.pack.len() - 20)) == bundle.checksum
        }),
{
    let n = ids.len() as int;
    let all = gathered(tree, git, ids, limit, n)->Ok_0;
    let found = Seq::new(all.len(), |k: int| all[k].id);
    lemma_gathered_ids(tree, git, ids, limit, n);
    assert(ids.take(n) =~= ids);
    assert forall|k: int| 0 <= k < all.len() implies (#[trigger] all[k]).id.len() == 20 by {
        assert(found[k] == all[k].id);
        assert(found.contains(found[k]));
        let i = ids.index_of(found[k]);
        assert(ids[i].len() == 20);
    }
    pack::lemma_built_index_parses(all, use_deltas);
    let list = (pack::index_from((pack::bundle_of(all, use_deltas)->Ok_0).index)->Ok_0).0;
    assert forall|id: Seq<u8>| #[trigger] pack::names(list, id) <==> ids.contains(id) by {
        assert(found.contains(id) <==> ids.take(n).contains(id));
        if pack::names(list, id) {
            let k = choose|k: int| 0 <= k < all.len() && (#[trigger] all[k]).id == id;
            assert(found[k] == id);
        }
        if ids.contains(id) {
            let k = found.index_of(id);
            assert(all[k].id == id);
        }
    }
    found.unique_seq_to_set();
    assert forall|id: Seq<u8>| found.to_set().contains(id) <==> ids.to_set().contains(id) by {
        assert(found.contains(id) <==> ids.take(n).contains(id));
    }
    assert(found.to_set() =~= ids.to_set());
}

} // verus!
