//! Packs that come from elsewhere: checked, then published with their index.

use vstd::prelude::*;

use crate::bytes;
use crate::commit;
use crate::fs;
use crate::fs::memory;
use crate::fs::Refusal;
use crate::fsck;
use crate::fsck::Link;
use crate::object;
use crate::object::{ObjectId, ObjectKind};
use crate::pack;
use crate::pack::{PackIndex, WrittenPack};
use crate::repository;
use crate::repository::Repository;
use crate::storage;
use crate::{Error, Result};

verus! {

/// Limits on a pack that comes from elsewhere.
pub struct IncomingPackOptions {
    pub max_object_size: usize,
}

impl Default for IncomingPackOptions {
    fn default() -> (r: Self)
        ensures
            r.max_object_size == 67_108_864,
    {
        IncomingPackOptions { max_object_size: 67_108_864 }
    }
}

/// How far a pack is checked, and what is published beside it.
pub struct IndexPackOptions {
    pub incoming: IncomingPackOptions,
    /// Parse structured objects and verify all direct links before publication.
    pub strict: bool,
    /// Check without publishing any files.
    pub dry_run: bool,
    /// Create `pack-*.keep` before the index. A newline is appended when absent.
    pub keep_message: Option<Vec<u8>>,
    /// Create `pack-*.promisor` before the index with these byte-preserving
    /// contents.
    pub promisor_message: Option<Vec<u8>>,
}

impl Default for IndexPackOptions {
    fn default() -> (r: Self)
        ensures
            !r.strict && !r.dry_run,
            r.keep_message is None && r.promisor_message is None,
            r.incoming.max_object_size == 67_108_864,
    {
        IndexPackOptions {
            incoming: IncomingPackOptions::default(),
            strict: false,
            dry_run: false,
            keep_message: None,
            promisor_message: None,
        }
    }
}

/// What was found in a pack, and where it went.
pub struct IndexPackReport {
    pub checksum: [u8; 20],
    pub objects: Vec<ObjectId>,
    pub pack_size: usize,
    pub index_size: usize,
    pub written: Option<WrittenPack>,
}

// ---------------------------------------------------------------------------
// Checks

/// The records of a pack and its checksum, once all its objects are sound.
pub open spec fn incoming(pack: Seq<u8>, index: Seq<u8>, limit: nat) -> core::result::Result<
    (Seq<pack::PackRecord>, Seq<u8>),
    Refusal,
> {
    match pack::index_from(index) {
        Err(error) => Err(Refusal::Said(error)),
        Ok((list, checksum)) => match pack::pack_fault(pack, list.len() as int, checksum) {
            Some(error) => Err(Refusal::Said(error)),
            None => match fsck::record_fault(pack, list, checksum, limit, list.len() as int) {
                Some(refusal) => Err(refusal),
                None => Ok((list, checksum)),
            },
        },
    }
}

/// The kind of an object that a pack or the repository holds.
pub open spec fn kind_of(
    files: memory::Tree,
    git: Seq<u8>,
    pack: Seq<u8>,
    list: Seq<pack::PackRecord>,
    id: Seq<u8>,
    limit: nat,
) -> core::result::Result<ObjectKind, Refusal> {
    if pack::names(list, id) {
        match pack::resolved(pack, list, id, limit, 0) {
            Err(error) => Err(Refusal::Said(error)),
            Ok((kind, _)) => Ok(kind),
        }
    } else {
        match storage::stored_object(files, git, id, limit) {
            Err(refusal) => Err(refusal),
            Ok((kind, _)) => Ok(kind),
        }
    }
}

/// Why one of the first `n` links of an object is refused.
pub open spec fn links_fault(
    files: memory::Tree,
    git: Seq<u8>,
    pack: Seq<u8>,
    list: Seq<pack::PackRecord>,
    links: Seq<fsck::LinkModel>,
    limit: nat,
    n: int,
) -> Option<Refusal>
    decreases n,
{
    if n <= 0 {
        None
    } else {
        match links_fault(files, git, pack, list, links, limit, n - 1) {
            Some(refusal) => Some(refusal),
            None => match kind_of(files, git, pack, list, links[n - 1].id, limit) {
                Err(refusal) => Some(refusal),
                Ok(kind) => if kind != links[n - 1].expected {
                    Some(Refusal::Said(Error::InvalidObject("wrong object type in link")))
                } else {
                    None
                },
            },
        }
    }
}

/// Why one of the first `n` objects of a pack is refused, by what it says or
/// by what it names.
pub open spec fn strict_fault(
    files: memory::Tree,
    git: Seq<u8>,
    pack: Seq<u8>,
    list: Seq<pack::PackRecord>,
    limit: nat,
    n: int,
) -> Option<Refusal>
    decreases n,
{
    if n <= 0 {
        None
    } else {
        match strict_fault(files, git, pack, list, limit, n - 1) {
            Some(refusal) => Some(refusal),
            None => match pack::resolved(pack, list, list[n - 1].id, limit, 0) {
                Err(error) => Some(Refusal::Said(error)),
                Ok((kind, data)) => match fsck::links_of(kind, data, false) {
                    Err(error) => Some(Refusal::Said(error)),
                    Ok(links) => links_fault(
                        files,
                        git,
                        pack,
                        list,
                        links,
                        limit,
                        links.len() as int,
                    ),
                },
            },
        }
    }
}

proof fn lemma_links_persist(
    files: memory::Tree,
    git: Seq<u8>,
    pack: Seq<u8>,
    list: Seq<pack::PackRecord>,
    links: Seq<fsck::LinkModel>,
    limit: nat,
    n: int,
    m: int,
)
    requires
        0 <= n <= m,
        links_fault(files, git, pack, list, links, limit, n) is Some,
    ensures
        links_fault(files, git, pack, list, links, limit, m) == links_fault(
            files,
            git,
            pack,
            list,
            links,
            limit,
            n,
        ),
    decreases m - n,
{
    if n < m {
        lemma_links_persist(files, git, pack, list, links, limit, n, m - 1);
    }
}

proof fn lemma_strict_persists(
    files: memory::Tree,
    git: Seq<u8>,
    pack: Seq<u8>,
    list: Seq<pack::PackRecord>,
    limit: nat,
    n: int,
    m: int,
)
    requires
        0 <= n <= m,
        strict_fault(files, git, pack, list, limit, n) is Some,
    ensures
        strict_fault(files, git, pack, list, limit, m) == strict_fault(
            files,
            git,
            pack,
            list,
            limit,
            n,
        ),
    decreases m - n,
{
    if n < m {
        lemma_strict_persists(files, git, pack, list, limit, n, m - 1);
    }
}

impl Repository {
    fn incoming_kind(&self, pack: &[u8], index: &PackIndex, id: ObjectId, max_size: usize) -> (r:
        Result<ObjectKind>)
        requires
            pack@.len() >= 20,
        ensures
            match kind_of(self.tree(), self.git(), pack@, index.list(), id@, max_size as nat) {
                Ok(kind) => r is Ok && r->Ok_0 == kind,
                Err(refusal) => fs::declined(r, refusal),
            },
    {
        if let Some(entry) = index.find(id) {
            proof {
                let k = index.list().index_of(entry@);
                assert(index.list()[k].id == id@);
            }
            let (kind, _) = pack::resolve(pack, index, id, max_size, 0)?;
            Ok(kind)
        } else {
            Ok(self.read_object_raw(id, max_size)?.kind())
        }
    }

    fn check_incoming_links(
        &self,
        pack: &[u8],
        index: &PackIndex,
        links: &Vec<Link>,
        max_size: usize,
    ) -> (r: Result<()>)
        requires
            pack@.len() >= 20,
        ensures
            match links_fault(
                self.tree(),
                self.git(),
                pack@,
                index.list(),
                fsck::link_view(links@),
                max_size as nat,
                links@.len() as int,
            ) {
                Some(refusal) => fs::declined(r, refusal),
                None => r is Ok,
            },
    {
        let ghost files = self.tree();
        let ghost git = self.git();
        let ghost list = index.list();
        let ghost all = fsck::link_view(links@);
        let ghost limit = max_size as nat;
        let mut i: usize = 0;
        while i < links.len()
            invariant
                i <= links@.len(),
                pack@.len() >= 20,
                files == self.tree(),
                git == self.git(),
                list == index.list(),
                all == fsck::link_view(links@),
                limit == max_size as nat,
                links_fault(files, git, pack@, list, all, limit, i as int) is None,
            decreases links@.len() - i,
        {
            let link = links[i];
            assert(all[i as int] == (fsck::LinkModel { id: link.id@, expected: link.expected }));
            proof {
                if links_fault(files, git, pack@, list, all, limit, i + 1) is Some {
                    lemma_links_persist(
                        files,
                        git,
                        pack@,
                        list,
                        all,
                        limit,
                        i + 1,
                        links@.len() as int,
                    );
                }
            }
            let kind = self.incoming_kind(pack, index, link.id, max_size)?;
            if kind != link.expected {
                return Err(Error::InvalidObject("wrong object type in link"));
            }
            i += 1;
        }
        Ok(())
    }

    /// Checks what the objects of a pack say and what they name.
    fn check_incoming_objects(&self, pack: &[u8], index: &PackIndex, max_size: usize) -> (r: Result<
        (),
    >)
        requires
            pack@.len() >= 20,
        ensures
            match strict_fault(
                self.tree(),
                self.git(),
                pack@,
                index.list(),
                max_size as nat,
                index.list().len() as int,
            ) {
                Some(refusal) => fs::declined(r, refusal),
                None => r is Ok,
            },
    {
        let ghost files = self.tree();
        let ghost git = self.git();
        let ghost list = index.list();
        let ghost limit = max_size as nat;
        let entries = index.entries();
        let mut i: usize = 0;
        while i < entries.len()
            invariant
                i <= entries@.len(),
                pack@.len() >= 20,
                files == self.tree(),
                git == self.git(),
                list == index.list(),
                list == pack::records(entries@),
                limit == max_size as nat,
                strict_fault(files, git, pack@, list, limit, i as int) is None,
            decreases entries@.len() - i,
        {
            let id = entries[i].id;
            assert(list[i as int].id == id@);
            proof {
                if strict_fault(files, git, pack@, list, limit, i + 1) is Some {
                    lemma_strict_persists(
                        files,
                        git,
                        pack@,
                        list,
                        limit,
                        i + 1,
                        list.len() as int,
                    );
                }
            }
            let (kind, data) = pack::resolve(pack, index, id, max_size, 0)?;
            let links = fsck::find_links(kind, data.as_slice(), false)?;
            self.check_incoming_links(pack, index, &links, max_size)?;
            i += 1;
        }
        Ok(())
    }
}

// ---------------------------------------------------------------------------
// Publication

/// What a marker holds: a message ends its line.
pub open spec fn marker(message: Seq<u8>) -> Seq<u8> {
    if message.len() > 0 && message.last() != 10 {
        message.push(10)
    } else {
        message
    }
}

fn marker_with_newline(contents: &[u8]) -> (r: Vec<u8>)
    ensures
        r@ == marker(contents@),
{
    let mut out = bytes::to_vec(contents);
    if contents.len() > 0 && contents[contents.len() - 1] != 10 {
        out.push(10);
    }
    out
}

/// What a keep marker holds.
pub open spec fn keep_contents(message: Option<Vec<u8>>) -> Option<Seq<u8>> {
    match message {
        None => None,
        Some(message) => Some(marker(message@)),
    }
}

/// What a promisor marker holds: the message as it is.
pub open spec fn promisor_contents(message: Option<Vec<u8>>) -> Option<Seq<u8>> {
    match message {
        None => None,
        Some(message) => Some(message@),
    }
}

/// What publishing a marker makes of a tree, and why it is refused.
pub open spec fn marked(tree: memory::Tree, p: Seq<u8>, contents: Option<Seq<u8>>) -> (
    memory::Tree,
    Option<Refusal>,
) {
    match contents {
        None => (tree, None),
        Some(contents) => storage::published(tree, p, contents),
    }
}

/// What publishing a pack makes of a tree, and why it is refused. The index
/// comes last: it makes the pack visible.
pub open spec fn pack_published(
    tree: memory::Tree,
    git: Seq<u8>,
    pack: Seq<u8>,
    index: Seq<u8>,
    checksum: Seq<u8>,
    options: IndexPackOptions,
) -> (memory::Tree, Option<Refusal>) {
    let (first, refusal) = storage::published(
        tree,
        storage::bundle_path(git, checksum, bytes::utf8(".pack"@)),
        pack,
    );
    if refusal is Some {
        (first, refusal)
    } else {
        let (second, refusal) = marked(
            first,
            storage::bundle_path(git, checksum, bytes::utf8(".keep"@)),
            keep_contents(options.keep_message),
        );
        if refusal is Some {
            (second, refusal)
        } else {
            let (third, refusal) = marked(
                second,
                storage::bundle_path(git, checksum, bytes::utf8(".promisor"@)),
                promisor_contents(options.promisor_message),
            );
            if refusal is Some {
                (third, refusal)
            } else {
                storage::published(
                    third,
                    storage::bundle_path(git, checksum, bytes::utf8(".idx"@)),
                    index,
                )
            }
        }
    }
}

proof fn lemma_names(checksum: Seq<u8>)
    requires
        checksum.len() == 20,
    ensures
        crate::fs::path::plain(
            storage::pack_file(pack::stem_of(checksum) + bytes::utf8(".pack"@)),
        ),
        crate::fs::path::plain(
            storage::pack_file(pack::stem_of(checksum) + bytes::utf8(".keep"@)),
        ),
        crate::fs::path::plain(
            storage::pack_file(pack::stem_of(checksum) + bytes::utf8(".promisor"@)),
        ),
        crate::fs::path::plain(
            storage::pack_file(pack::stem_of(checksum) + bytes::utf8(".idx"@)),
        ),
        storage::pack_file(Seq::empty()).len() > 0,
{
    reveal_strlit(".pack");
    reveal_strlit(".keep");
    reveal_strlit(".promisor");
    reveal_strlit(".idx");
    bytes::lemma_ascii(".pack"@);
    bytes::lemma_ascii(".keep"@);
    bytes::lemma_ascii(".promisor"@);
    bytes::lemma_ascii(".idx"@);
    storage::lemma_stem_plain(checksum, bytes::utf8(".pack"@));
    storage::lemma_stem_plain(checksum, bytes::utf8(".keep"@));
    storage::lemma_stem_plain(checksum, bytes::utf8(".promisor"@));
    storage::lemma_stem_plain(checksum, bytes::utf8(".idx"@));
    storage::lemma_pack_directory();
}

/// A file of the pack with a checksum, below the repository's directory.
fn relative_name(checksum: &[u8; 20], extension: &[u8]) -> (r: Vec<u8>)
    ensures
        r@ == storage::pack_file(pack::stem_of(checksum@) + extension@),
{
    let mut out = bytes::to_vec("objects/pack/pack-".as_bytes());
    let hex = object::hex_hash(checksum.as_slice());
    bytes::append(&mut out, hex.as_slice());
    bytes::append(&mut out, extension);
    proof {
        reveal_strlit("objects/pack/pack-");
        reveal_strlit("objects/pack/");
        reveal_strlit("pack-");
        bytes::lemma_ascii("objects/pack/pack-"@);
        bytes::lemma_ascii("objects/pack/"@);
        bytes::lemma_ascii("pack-"@);
        assert(bytes::utf8("objects/pack/pack-"@) =~= bytes::utf8("objects/pack/"@) + bytes::utf8(
            "pack-"@,
        ));
        assert(out@ =~= storage::pack_file(pack::stem_of(checksum@) + extension@));
    }
    out
}

impl Repository {
    fn publish_marker(&mut self, relative: &[u8], contents: Option<&[u8]>) -> (r: Result<()>)
        requires
            crate::fs::path::plain(relative@),
            relative@.len() > 0,
        ensures
            final(self).git() == old(self).git(),
            final(self).work() == old(self).work(),
            ({
                let p = repository::joined(old(self).git(), relative@);
                let (tree, refusal) = marked(
                    old(self).tree(),
                    p,
                    match contents {
                        None => None,
                        Some(contents) => Some(contents@),
                    },
                );
                &&& final(self).tree() == tree
                &&& match refusal {
                    Some(refusal) => fs::declined(r, refusal),
                    None => r is Ok,
                }
            }),
    {
        match contents {
            None => Ok(()),
            Some(contents) => self.publish_pack_file(relative, contents),
        }
    }

    /// Publishes a pack, its markers and, last, its index.
    fn publish_incoming(
        &mut self,
        pack: &[u8],
        index: &[u8],
        parsed: &PackIndex,
        options: &IndexPackOptions,
    ) -> (r: Result<WrittenPack>)
        requires
            parsed.checksum().len() == 20,
        ensures
            final(self).git() == old(self).git(),
            final(self).work() == old(self).work(),
            ({
                let git = old(self).git();
                let checksum = parsed.checksum();
                let (tree, refusal) = pack_published(
                    old(self).tree(),
                    git,
                    pack@,
                    index@,
                    checksum,
                    *options,
                );
                &&& final(self).tree() == tree
                &&& match refusal {
                    Some(refusal) => fs::declined(r, refusal),
                    None => r is Ok && describes(r->Ok_0, git, checksum, parsed.list().len()),
                }
            }),
    {
        let checksum: [u8; 20] = *parsed.pack_checksum();
        proof {
            lemma_names(checksum@);
        }
        let pack_name = relative_name(&checksum, ".pack".as_bytes());
        let index_name = relative_name(&checksum, ".idx".as_bytes());
        let keep_name = relative_name(&checksum, ".keep".as_bytes());
        let promisor_name = relative_name(&checksum, ".promisor".as_bytes());
        self.publish_pack_file(pack_name.as_slice(), pack)?;
        if let Some(message) = &options.keep_message {
            let contents = marker_with_newline(message.as_slice());
            self.publish_marker(keep_name.as_slice(), Some(contents.as_slice()))?;
        }
        if let Some(message) = &options.promisor_message {
            self.publish_marker(promisor_name.as_slice(), Some(message.as_slice()))?;
        }
        self.publish_pack_file(index_name.as_slice(), index)?;
        Ok(
            WrittenPack {
                pack_path: self.git_path(pack_name.as_slice()),
                index_path: self.git_path(index_name.as_slice()),
                checksum,
                object_count: parsed.entries().len(),
            },
        )
    }
}

/// Whether a record says where the files of a pack are.
pub open spec fn describes(
    written: WrittenPack,
    git: Seq<u8>,
    checksum: Seq<u8>,
    count: nat,
) -> bool {
    &&& written.pack_path@ == storage::bundle_path(git, checksum, bytes::utf8(".pack"@))
    &&& written.index_path@ == storage::bundle_path(git, checksum, bytes::utf8(".idx"@))
    &&& written.checksum@ == checksum
    &&& written.object_count == count
}

/// The objects that records name.
pub open spec fn record_ids(list: Seq<pack::PackRecord>) -> Seq<Seq<u8>> {
    Seq::new(list.len(), |i: int| list[i].id)
}

fn listed_ids(index: &PackIndex) -> (r: Vec<ObjectId>)
    ensures
        commit::raw_ids(r@) == record_ids(index.list()),
{
    let entries = index.entries();
    let mut out: Vec<ObjectId> = Vec::new();
    let mut i: usize = 0;
    while i < entries.len()
        invariant
            i == out@.len(),
            i <= entries@.len(),
            forall|k: int| 0 <= k < i ==> (#[trigger] out@[k]) == entries@[k].id,
        decreases entries@.len() - i,
    {
        out.push(entries[i].id);
        i += 1;
    }
    assert(commit::raw_ids(out@) =~= record_ids(pack::records(entries@)));
    out
}

/// Why a pack is refused before anything is published, or what it holds.
pub open spec fn accepted(
    files: memory::Tree,
    git: Seq<u8>,
    pack: Seq<u8>,
    index: Seq<u8>,
    options: IndexPackOptions,
) -> core::result::Result<(Seq<pack::PackRecord>, Seq<u8>), Refusal> {
    let limit = options.incoming.max_object_size as nat;
    match incoming(pack, index, limit) {
        Err(refusal) => Err(refusal),
        Ok((list, checksum)) => if options.strict {
            match strict_fault(files, git, pack, list, limit, list.len() as int) {
                Some(refusal) => Err(refusal),
                None => Ok((list, checksum)),
            }
        } else {
            Ok((list, checksum))
        },
    }
}

impl Repository {
    /// Validate an incoming pack against its index and, unless it is a dry
    /// run, publish both in the object database.
    ///
    /// Every object is resolved and its name is checked. With `strict` every
    /// structured object is parsed, and each object that it names must be in
    /// the pack or in the repository and have the right kind. Nothing is
    /// published before all checks have passed.
    pub fn index_pack(&mut self, pack: &[u8], index: &[u8], options: &IndexPackOptions) -> (r:
        Result<IndexPackReport>)
        ensures
            final(self).git() == old(self).git(),
            final(self).work() == old(self).work(),
            match accepted(old(self).tree(), old(self).git(), pack@, index@, *options) {
                Err(refusal) => fs::declined(r, refusal) && final(self).tree() == old(self).tree(),
                Ok((list, checksum)) => {
                    let git = old(self).git();
                    let (tree, refusal) = if options.dry_run {
                        (old(self).tree(), None)
                    } else {
                        pack_published(old(self).tree(), git, pack@, index@, checksum, *options)
                    };
                    &&& final(self).tree() == tree
                    &&& match refusal {
                        Some(refusal) => fs::declined(r, refusal),
                        None => {
                            &&& r is Ok
                            &&& r->Ok_0.checksum@ == checksum
                            &&& commit::raw_ids(r->Ok_0.objects@) == record_ids(list)
                            &&& r->Ok_0.pack_size == pack@.len()
                            &&& r->Ok_0.index_size == index@.len()
                            &&& match r->Ok_0.written {
                                None => options.dry_run,
                                Some(written) => !options.dry_run && describes(
                                    written,
                                    git,
                                    checksum,
                                    list.len(),
                                ),
                            }
                        },
                    }
                },
            },
    {
        let max_size: usize = options.incoming.max_object_size;
        let parsed = PackIndex::parse(index)?;
        pack::validate_pack(pack, &parsed)?;
        fsck::check_records(pack, &parsed, max_size)?;
        if options.strict {
            self.check_incoming_objects(pack, &parsed, max_size)?;
        }
        let objects = listed_ids(&parsed);
        let checksum: [u8; 20] = *parsed.pack_checksum();
        let written = if options.dry_run {
            None
        } else {
            Some(self.publish_incoming(pack, index, &parsed, options)?)
        };
        Ok(
            IndexPackReport {
                checksum,
                objects,
                pack_size: pack.len(),
                index_size: index.len(),
                written,
            },
        )
    }
}

// ---------------------------------------------------------------------------
// Laws

/// Where a pack or one of its markers cannot be published, no index is
/// written: readers never see a pack that is not complete.
pub proof fn lemma_index_comes_last(
    tree: memory::Tree,
    git: Seq<u8>,
    pack: Seq<u8>,
    index: Seq<u8>,
    checksum: Seq<u8>,
    options: IndexPackOptions,
)
    requires
        !tree.contains_key(storage::bundle_path(git, checksum, bytes::utf8(".idx"@))),
        pack_published(tree, git, pack, index, checksum, options).0.contains_key(
            storage::bundle_path(git, checksum, bytes::utf8(".idx"@)),
        ),
    ensures
        ({
            let after = pack_published(tree, git, pack, index, checksum, options).0;
            let p = storage::bundle_path(git, checksum, bytes::utf8(".pack"@));
            &&& after.contains_key(p)
            &&& options.keep_message is Some ==> after.contains_key(
                storage::bundle_path(git, checksum, bytes::utf8(".keep"@)),
            )
            &&& options.promisor_message is Some ==> after.contains_key(
                storage::bundle_path(git, checksum, bytes::utf8(".promisor"@)),
            )
        }),
{
    reveal_strlit(".pack");
    reveal_strlit(".keep");
    reveal_strlit(".promisor");
    reveal_strlit(".idx");
    bytes::lemma_ascii(".pack"@);
    bytes::lemma_ascii(".keep"@);
    bytes::lemma_ascii(".promisor"@);
    bytes::lemma_ascii(".idx"@);
    lemma_paths_differ(git, checksum, bytes::utf8(".pack"@), bytes::utf8(".idx"@));
    lemma_paths_differ(git, checksum, bytes::utf8(".keep"@), bytes::utf8(".idx"@));
    lemma_paths_differ(git, checksum, bytes::utf8(".promisor"@), bytes::utf8(".idx"@));
}

proof fn lemma_paths_differ(git: Seq<u8>, checksum: Seq<u8>, a: Seq<u8>, b: Seq<u8>)
    requires
        a.last() != b.last(),
        a.len() > 0,
        b.len() > 0,
    ensures
        storage::bundle_path(git, checksum, a) != storage::bundle_path(git, checksum, b),
{
    let one = storage::bundle_path(git, checksum, a);
    let two = storage::bundle_path(git, checksum, b);
    assert(one.last() == a.last());
    assert(two.last() == b.last());
}

/// Whether a pack, or else the repository, holds an object of a kind.
pub open spec fn is_held(
    files: memory::Tree,
    git: Seq<u8>,
    pack: Seq<u8>,
    list: Seq<pack::PackRecord>,
    id: Seq<u8>,
    kind: ObjectKind,
    limit: nat,
) -> bool {
    if exists|i: int| 0 <= i < list.len() && (#[trigger] list[i]).id == id {
        pack::resolved(pack, list, id, limit, 0) matches Ok((found, _)) && found == kind
    } else {
        storage::stored_object(files, git, id, limit) matches Ok((found, _)) && found == kind
    }
}

proof fn lemma_links_are_held(
    files: memory::Tree,
    git: Seq<u8>,
    pack: Seq<u8>,
    list: Seq<pack::PackRecord>,
    links: Seq<fsck::LinkModel>,
    limit: nat,
    n: int,
)
    requires
        0 <= n <= links.len(),
    ensures
        links_fault(files, git, pack, list, links, limit, n) is None <==> forall|k: int|
            0 <= k < n ==> is_held(
                files,
                git,
                pack,
                list,
                (#[trigger] links[k]).id,
                links[k].expected,
                limit,
            ),
    decreases n,
{
    if n > 0 {
        lemma_links_are_held(files, git, pack, list, links, limit, n - 1);
        let link = links[n - 1];
        assert(links_fault(files, git, pack, list, links, limit, n) is None <==> links_fault(
            files,
            git,
            pack,
            list,
            links,
            limit,
            n - 1,
        ) is None && is_held(files, git, pack, list, link.id, link.expected, limit));
    }
}

/// Whether everything that an object of a pack names is held, as what it is
/// named as.
pub open spec fn is_complete(
    files: memory::Tree,
    git: Seq<u8>,
    pack: Seq<u8>,
    list: Seq<pack::PackRecord>,
    id: Seq<u8>,
    limit: nat,
) -> bool {
    pack::resolved(pack, list, id, limit, 0) matches Ok((kind, data)) && (fsck::links_of(
        kind,
        data,
        false,
    ) matches Ok(links) && forall|k: int|
        0 <= k < links.len() ==> is_held(
            files,
            git,
            pack,
            list,
            (#[trigger] links[k]).id,
            links[k].expected,
            limit,
        ))
}

/// A strict check accepts a pack just where each of its objects can be read
/// and everything that it names is in the pack or in the repository, as what
/// it is named as.
pub proof fn lemma_strict_packs_are_complete(
    files: memory::Tree,
    git: Seq<u8>,
    pack: Seq<u8>,
    list: Seq<pack::PackRecord>,
    limit: nat,
    n: int,
)
    requires
        0 <= n <= list.len(),
    ensures
        strict_fault(files, git, pack, list, limit, n) is None <==> forall|i: int|
            0 <= i < n ==> is_complete(files, git, pack, list, (#[trigger] list[i]).id, limit),
    decreases n,
{
    if n > 0 {
        lemma_strict_packs_are_complete(files, git, pack, list, limit, n - 1);
        let id = list[n - 1].id;
        if let Ok((kind, data)) = pack::resolved(pack, list, id, limit, 0) {
            if let Ok(links) = fsck::links_of(kind, data, false) {
                lemma_links_are_held(files, git, pack, list, links, limit, links.len() as int);
            }
        }
        assert(strict_fault(files, git, pack, list, limit, n) is None <==> strict_fault(
            files,
            git,
            pack,
            list,
            limit,
            n - 1,
        ) is None && is_complete(files, git, pack, list, id, limit));
    }
}

} // verus!
