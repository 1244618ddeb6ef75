//! A writable layer over a backing file system.

use vstd::prelude::*;

use crate::bytemap;
use crate::bytemap::ByteMap;
use crate::bytes;
use crate::fs::memory;
use crate::fs::memory::{parent, MemoryFileSystem};
use crate::fs::path;
use crate::fs::path::validate;
use crate::fs::{Fault, FileSystem, Metadata};
use crate::{Error, Result};

verus! {

/// An in-memory layer that takes every change, over files that stay as they
/// are.
///
/// Files of the lower layer remain visible where the upper layer has nothing.
pub struct OverlayFileSystem {
    upper: MemoryFileSystem,
    lower: MemoryFileSystem,
}

/// The directories on the way to a plain path.
pub open spec fn directories(tree: memory::Tree, p: Seq<u8>) -> (memory::Tree, Option<Seq<u8>>) {
    if p.len() == 0 {
        (tree, None)
    } else {
        memory::with_directories(tree, p, 0)
    }
}

pub open spec fn is_directory(tree: memory::Tree, p: Seq<u8>) -> bool {
    tree.contains_key(p) && tree[p] is Directory
}

/// The upper layer once it has the parent of a plain path, or the fault.
pub open spec fn prepared(upper: memory::Tree, lower: memory::Tree, p: Seq<u8>) -> (
    memory::Tree,
    Option<Seq<u8>>,
) {
    let up = memory::parent_of(p);
    if !is_directory(lower, up) && !is_directory(upper, up) {
        (upper, Some(up))
    } else {
        directories(upper, up)
    }
}

impl OverlayFileSystem {
    /// The layer that changes.
    pub closed spec fn upper(&self) -> memory::Tree {
        self.upper@
    }

    /// The layer that stays.
    pub closed spec fn lower(&self) -> memory::Tree {
        self.lower@
    }

    pub fn new(lower: MemoryFileSystem) -> (r: Self)
        ensures
            r.lower() == lower@,
            r.upper() == Map::<Seq<u8>, memory::Node>::empty().insert(
                Seq::empty(),
                memory::directory(),
            ),
    {
        OverlayFileSystem { upper: MemoryFileSystem::new(), lower }
    }

    /// The backing file system.
    pub fn backing(&self) -> (r: &MemoryFileSystem)
        ensures
            r@ == self.lower(),
    {
        &self.lower
    }

    /// Makes the parent of a plain path in the upper layer.
    fn prepare_parent(&mut self, p: &[u8]) -> (r: Result<()>)
        requires
            path::plain(p@),
        ensures
            final(self).lower() == old(self).lower(),
            final(self).upper() == prepared(old(self).upper(), old(self).lower(), p@).0,
            match prepared(old(self).upper(), old(self).lower(), p@).1 {
                Some(at) => crate::fs::refused(r, Fault::NotDirectory, at),
                None => r is Ok,
            },
    {
        let up = parent(p);
        proof {
            if p@.len() > 0 {
                memory::lemma_parent_plain(p@);
            } else {
                path::lemma_join_plain(Seq::<Seq<u8>>::empty());
                assert(memory::parent_of(p@) =~= Seq::<u8>::empty());
            }
        }
        let in_lower = match self.lower.metadata(up.as_slice()) {
            Ok(metadata) => metadata.is_dir(),
            Err(_) => false,
        };
        let in_upper = match self.upper.metadata(up.as_slice()) {
            Ok(metadata) => metadata.is_dir(),
            Err(_) => false,
        };
        if !in_lower && !in_upper {
            return Err(Error::NotDirectory(up));
        }
        self.upper.create_dir_all(up.as_slice())
    }
}

impl View for OverlayFileSystem {
    type V = memory::Tree;

    /// What both layers show together.
    open spec fn view(&self) -> memory::Tree {
        self.lower().union_prefer_right(self.upper())
    }
}

/// The first path on the way to `p` that a tree shows as something else than a
/// directory.
pub open spec fn obstacle(tree: memory::Tree, p: Seq<u8>, from: int) -> Option<Seq<u8>>
    decreases p.len() - from,
    via obstacle_decreases
{
    let at = bytes::index_from(p, 47, from);
    let here = p.take(at);
    if tree.contains_key(here) && !(tree[here] is Directory) {
        Some(here)
    } else if from < 0 || at >= p.len() {
        None
    } else {
        obstacle(tree, p, at + 1)
    }
}

#[via_fn]
proof fn obstacle_decreases(tree: memory::Tree, p: Seq<u8>, from: int) {
    if 0 <= from <= p.len() {
        bytes::lemma_index_from(p, 47, from);
    }
}

proof fn lemma_prefix_plain(p: Seq<u8>, at: int)
    requires
        path::plain(p),
        0 < at <= p.len(),
        at < p.len() ==> p[at] == 47,
    ensures
        path::plain(p.take(at)),
    decreases p.len(),
{
    if at == p.len() {
        assert(p.take(at) =~= p);
    } else {
        memory::lemma_parent_plain(p);
        memory::lemma_last_slash(p);
        let up = memory::parent_of(p);
        assert(at <= memory::last_slash(p));
        assert(up =~= p.take(memory::last_slash(p)));
        assert(p.take(at) =~= up.take(at));
        lemma_prefix_plain(up, at);
    }
}

impl FileSystem for OverlayFileSystem {
    fn create_dir_all(&mut self, path: &[u8]) -> (r: Result<()>)
        ensures
            final(self).lower() == old(self).lower(),
            match path::normalized(path@) {
                None => crate::fs::refused(r, Fault::InvalidPath, path@) && final(self).upper()
                    == old(self).upper(),
                Some(p) => if p.len() == 0 {
                    r is Ok && final(self).upper() == old(self).upper()
                } else {
                    match obstacle(old(self)@, p, 0) {
                        Some(at) => crate::fs::refused(r, Fault::NotDirectory, at) && final(self).upper() == old(self).upper(),
                        None => final(self).upper() == directories(old(self).upper(), p).0 && (
                        match directories(old(self).upper(), p).1 {
                            Some(at) => crate::fs::refused(r, Fault::NotDirectory, at),
                            None => r is Ok,
                        }),
                    }
                },
            },
    {
        let plain = validate(path)?;
        proof {
            path::lemma_normalized_plain(path@);
            path::lemma_normalized_first(path@);
        }
        let p = plain.as_slice();
        if p.len() == 0 {
            return Ok(());
        }
        let mut from: usize = 0;
        loop
            invariant_except_break
                from <= p@.len(),
                obstacle(self@, p@, 0) == obstacle(self@, p@, from as int),
                from == 0 ==> p@[0] != 47,
            invariant
                path::normalized(path@) == Some(p@),
                path::plain(p@),
                p@.len() > 0,
                self == old(self),
            ensures
                obstacle(self@, p@, 0) is None,
            decreases p@.len() + 1 - from,
        {
            let at: usize = bytes::find_byte(p, 47, from);
            let here = bytes::copy_range(p, 0, at);
            assert(here@ =~= p@.take(at as int));
            proof {
                lemma_prefix_plain(p@, at as int);
            }
            match self.metadata(here.as_slice()) {
                Ok(metadata) => {
                    if !metadata.is_dir() {
                        return Err(Error::NotDirectory(here));
                    }
                },
                Err(_) => {},
            }
            if at == p.len() {
                break ;
            }
            from = at + 1;
        }
        self.upper.create_dir_all(p)
    }

    fn read(&self, path: &[u8]) -> (r: Result<Vec<u8>>)
        ensures
            match path::normalized(path@) {
                None => crate::fs::refused(r, Fault::InvalidPath, path@),
                Some(p) => match memory::contents(self@, p) {
                    Ok(data) => r is Ok && r->Ok_0@ == data,
                    Err(fault) => crate::fs::refused(r, fault, p),
                },
            },
    {
        let p = validate(path)?;
        proof {
            path::lemma_normalized_plain(path@);
        }
        match self.upper.read(p.as_slice()) {
            Err(Error::NotFound(_)) => self.lower.read(p.as_slice()),
            result => result,
        }
    }

    fn write(&mut self, path: &[u8], data: &[u8]) -> (r: Result<()>)
        ensures
            final(self).lower() == old(self).lower(),
            match path::normalized(path@) {
                None => crate::fs::refused(r, Fault::InvalidPath, path@) && final(self).upper()
                    == old(self).upper(),
                Some(p) => {
                    let (tree, fault) = prepared(old(self).upper(), old(self).lower(), p);
                    if fault is Some {
                        crate::fs::refused(r, Fault::NotDirectory, fault->0) && final(self).upper()
                            == tree
                    } else if memory::parent_fault(tree, p) is Some {
                        crate::fs::refused(
                            r,
                            memory::parent_fault(tree, p)->0,
                            memory::parent_of(p),
                        ) && final(self).upper() == tree
                    } else if is_directory(tree, p) {
                        crate::fs::refused(r, Fault::IsDirectory, p) && final(self).upper() == tree
                    } else {
                        r is Ok && final(self).upper() == tree.insert(
                            p,
                            memory::file(data@, memory::kept_bit(tree, p)),
                        )
                    }
                },
            },
    {
        let p = validate(path)?;
        proof {
            path::lemma_normalized_plain(path@);
        }
        self.prepare_parent(p.as_slice())?;
        self.upper.write(p.as_slice(), data)
    }

    fn write_new(&mut self, path: &[u8], data: &[u8]) -> (r: Result<()>)
        ensures
            final(self).lower() == old(self).lower(),
            match path::normalized(path@) {
                None => crate::fs::refused(r, Fault::InvalidPath, path@) && final(self).upper()
                    == old(self).upper(),
                Some(p) => {
                    let (tree, fault) = prepared(old(self).upper(), old(self).lower(), p);
                    if old(self)@.contains_key(p) {
                        crate::fs::refused(r, Fault::AlreadyExists, p) && final(self).upper()
                            == old(self).upper()
                    } else if fault is Some {
                        crate::fs::refused(r, Fault::NotDirectory, fault->0) && final(self).upper()
                            == tree
                    } else if memory::parent_fault(tree, p) is Some {
                        crate::fs::refused(
                            r,
                            memory::parent_fault(tree, p)->0,
                            memory::parent_of(p),
                        ) && final(self).upper() == tree
                    } else if tree.contains_key(p) {
                        crate::fs::refused(r, Fault::AlreadyExists, p) && final(self).upper()
                            == tree
                    } else {
                        r is Ok && final(self).upper() == tree.insert(
                            p,
                            memory::file(data@, false),
                        )
                    }
                },
            },
    {
        let p = validate(path)?;
        proof {
            path::lemma_normalized_plain(path@);
        }
        if self.is_present(p.as_slice())? {
            return Err(Error::AlreadyExists(p));
        }
        self.prepare_parent(p.as_slice())?;
        self.upper.write_new(p.as_slice(), data)
    }

    fn read_link(&self, path: &[u8]) -> (r: Result<Vec<u8>>)
        ensures
            match path::normalized(path@) {
                None => crate::fs::refused(r, Fault::InvalidPath, path@),
                Some(p) => if !self@.contains_key(p) {
                    crate::fs::refused(r, Fault::NotFound, p)
                } else {
                    match self@[p] {
                        memory::Node::Symlink { target, .. } => r is Ok && r->Ok_0@ == target,
                        _ => crate::fs::refused(r, Fault::InvalidPath, p),
                    }
                },
            },
    {
        let p = validate(path)?;
        proof {
            path::lemma_normalized_plain(path@);
        }
        match self.upper.read_link(p.as_slice()) {
            Err(Error::NotFound(_)) => self.lower.read_link(p.as_slice()),
            result => result,
        }
    }

    fn create_symlink(&mut self, path: &[u8], target: &[u8]) -> (r: Result<()>)
        ensures
            final(self).lower() == old(self).lower(),
            match path::normalized(path@) {
                None => crate::fs::refused(r, Fault::InvalidPath, path@) && final(self).upper()
                    == old(self).upper(),
                Some(p) => {
                    let (tree, fault) = prepared(old(self).upper(), old(self).lower(), p);
                    if fault is Some {
                        crate::fs::refused(r, Fault::NotDirectory, fault->0) && final(self).upper()
                            == tree
                    } else if memory::parent_fault(tree, p) is Some {
                        crate::fs::refused(r, Fault::NotDirectory, memory::parent_of(p)) && final(self).upper() == tree
                    } else if is_directory(tree, p) {
                        crate::fs::refused(r, Fault::IsDirectory, p) && final(self).upper() == tree
                    } else {
                        r is Ok && final(self).upper() == tree.insert(
                            p,
                            memory::symlink(target@),
                        )
                    }
                },
            },
    {
        let p = validate(path)?;
        proof {
            path::lemma_normalized_plain(path@);
        }
        self.prepare_parent(p.as_slice())?;
        self.upper.create_symlink(p.as_slice(), target)
    }

    fn set_executable(&mut self, path: &[u8], executable: bool) -> (r: Result<()>)
        ensures
            final(self).lower() == old(self).lower(),
            match path::normalized(path@) {
                None => crate::fs::refused(r, Fault::InvalidPath, path@) && final(self).upper()
                    == old(self).upper(),
                Some(p) => if old(self).upper().contains_key(p) {
                    match old(self).upper()[p] {
                        memory::Node::File { data, stat, .. } => r is Ok && final(self).upper() == old(self).upper().insert(p, memory::Node::File { data, executable, stat }),
                        _ => crate::fs::refused(r, Fault::InvalidPath, p) && final(self).upper()
                            == old(self).upper(),
                    }
                } else {
                    match memory::contents(old(self).lower(), p) {
                        Err(fault) => crate::fs::refused(r, fault, p) && final(self).upper() == old(self).upper(),
                        Ok(data) => {
                            let (tree, fault) = prepared(old(self).upper(), old(self).lower(), p);
                            if fault is Some {
                                crate::fs::refused(r, Fault::NotDirectory, fault->0) && final(self).upper() == tree
                            } else if memory::parent_fault(tree, p) is Some {
                                crate::fs::refused(
                                    r,
                                    memory::parent_fault(tree, p)->0,
                                    memory::parent_of(p),
                                ) && final(self).upper() == tree
                            } else if is_directory(tree, p) {
                                crate::fs::refused(r, Fault::IsDirectory, p) && final(self).upper()
                                    == tree
                            } else {
                                r is Ok && final(self).upper() == tree.insert(
                                    p,
                                    memory::file(data, executable),
                                )
                            }
                        },
                    }
                },
            },
    {
        let p = validate(path)?;
        proof {
            path::lemma_normalized_plain(path@);
        }
        if !self.upper.is_present(p.as_slice())? {
            let data = self.lower.read(p.as_slice())?;
            self.prepare_parent(p.as_slice())?;
            self.upper.write(p.as_slice(), data.as_slice())?;
        }
        let ghost before = self.upper@;
        let r = self.upper.set_executable(p.as_slice(), executable);
        proof {
            if r is Ok {
                let data = before[p@]->data;
                let (tree, _) = prepared(old(self).upper(), old(self).lower(), p@);
                if !old(self).upper().contains_key(p@) {
                    assert(self.upper@ =~= tree.insert(
                        p@,
                        memory::file(data, executable),
                    ));
                }
            }
        }
        r
    }

    fn rename(&mut self, from: &[u8], to: &[u8]) -> (r: Result<()>)
        ensures
            final(self).lower() == old(self).lower(),
            match (path::normalized(from@), path::normalized(to@)) {
                (None, _) => crate::fs::refused(r, Fault::InvalidPath, from@) && final(self).upper()
                    == old(self).upper(),
                (Some(_), None) => crate::fs::refused(r, Fault::InvalidPath, to@) && final(self).upper() == old(self).upper(),
                (Some(f), Some(t)) => {
                    let (tree, fault) = prepared(old(self).upper(), old(self).lower(), t);
                    if !old(self).upper().contains_key(f) {
                        crate::fs::refused(r, Fault::NotFound, f) && final(self).upper() == old(self).upper()
                    } else if fault is Some {
                        crate::fs::refused(r, Fault::NotDirectory, fault->0) && final(self).upper()
                            == tree
                    } else {
                        match memory::renamed(tree, f, t) {
                            Err((fault, at)) => crate::fs::refused(r, fault, at) && final(self).upper()
                                == tree,
                            Ok(next) => r is Ok && final(self).upper() == next,
                        }
                    }
                },
            },
    {
        let f = validate(from)?;
        let t = validate(to)?;
        proof {
            path::lemma_normalized_plain(from@);
            path::lemma_normalized_plain(to@);
        }
        if !self.upper.is_present(f.as_slice())? {
            return Err(Error::NotFound(f));
        }
        self.prepare_parent(t.as_slice())?;
        self.upper.rename(f.as_slice(), t.as_slice())
    }

    fn remove_file(&mut self, path: &[u8]) -> (r: Result<()>)
        ensures
            final(self).lower() == old(self).lower(),
            match path::normalized(path@) {
                None => crate::fs::refused(r, Fault::InvalidPath, path@) && final(self).upper()
                    == old(self).upper(),
                Some(p) => if !old(self).upper().contains_key(p) {
                    crate::fs::refused(r, Fault::NotFound, p) && final(self).upper() == old(self).upper()
                } else if old(self).upper()[p] is Directory {
                    crate::fs::refused(r, Fault::IsDirectory, p) && final(self).upper() == old(self).upper()
                } else {
                    r is Ok && final(self).upper() == old(self).upper().remove(p)
                },
            },
    {
        let p = validate(path)?;
        proof {
            path::lemma_normalized_plain(path@);
        }
        self.upper.remove_file(p.as_slice())
    }

    fn remove_dir(&mut self, path: &[u8]) -> (r: Result<()>)
        ensures
            final(self).lower() == old(self).lower(),
            match path::normalized(path@) {
                None => crate::fs::refused(r, Fault::InvalidPath, path@) && final(self).upper()
                    == old(self).upper(),
                Some(p) => if !old(self).upper().contains_key(p) {
                    crate::fs::refused(r, Fault::NotFound, p) && final(self).upper() == old(self).upper()
                } else if !(old(self).upper()[p] is Directory) {
                    crate::fs::refused(r, Fault::NotDirectory, p) && final(self).upper() == old(self).upper()
                } else if exists|q: Seq<u8>| memory::is_child(old(self).upper(), p, q) {
                    crate::fs::refused(r, Fault::DirectoryNotEmpty, p) && final(self).upper()
                        == old(self).upper()
                } else {
                    r is Ok && final(self).upper() == old(self).upper().remove(p)
                },
            },
    {
        let p = validate(path)?;
        proof {
            path::lemma_normalized_plain(path@);
        }
        self.upper.remove_dir(p.as_slice())
    }

    fn metadata(&self, path: &[u8]) -> (r: Result<Metadata>)
        ensures
            match path::normalized(path@) {
                None => crate::fs::refused(r, Fault::InvalidPath, path@),
                Some(p) => if !self@.contains_key(p) {
                    crate::fs::refused(r, Fault::NotFound, p)
                } else {
                    r == Ok::<Metadata, Error>(memory::metadata_of(self@[p]))
                },
            },
    {
        let p = validate(path)?;
        proof {
            path::lemma_normalized_plain(path@);
        }
        match self.upper.metadata(p.as_slice()) {
            Err(Error::NotFound(_)) => self.lower.metadata(p.as_slice()),
            result => result,
        }
    }

    fn read_dir(&self, path: &[u8]) -> (r: Result<Vec<Vec<u8>>>)
        ensures
            match path::normalized(path@) {
                None => crate::fs::refused(r, Fault::InvalidPath, path@),
                Some(p) => if !self@.contains_key(p) {
                    crate::fs::refused(r, Fault::NotFound, p)
                } else if !is_directory(self@, p) || (self.lower().contains_key(p)
                    && !is_directory(self.lower(), p)) {
                    crate::fs::refused(r, Fault::NotDirectory, p)
                } else {
                    &&& r is Ok
                    &&& bytemap::ascending(bytes::deep(r->Ok_0@))
                    &&& forall|name: Seq<u8>| #[trigger]
                        bytes::deep(r->Ok_0@).contains(name) <==> shows_child(
                            self.upper(),
                            self.lower(),
                            p,
                            name,
                        )
                },
            },
    {
        let p = validate(path)?;
        proof {
            path::lemma_normalized_plain(path@);
        }
        let metadata = self.metadata(p.as_slice())?;
        if !metadata.is_dir() {
            return Err(Error::NotDirectory(p));
        }
        let mut names: ByteMap<()> = ByteMap::new();
        match self.lower.read_dir(p.as_slice()) {
            Ok(children) => {
                add_all(&mut names, &children);
                proof {
                    lemma_listed(self.lower(), p@, bytes::deep(children@));
                }
            },
            Err(Error::NotFound(_)) => {},
            Err(error) => return Err(error),
        }
        match self.upper.read_dir(p.as_slice()) {
            Ok(children) => {
                add_all(&mut names, &children);
                proof {
                    lemma_listed(self.upper(), p@, bytes::deep(children@));
                }
            },
            Err(Error::NotFound(_)) => {},
            Err(error) => return Err(error),
        }
        let mut out: Vec<Vec<u8>> = Vec::new();
        let n: usize = names.len();
        let mut i: usize = 0;
        while i < n
            invariant
                i <= n,
                n == names.keys().len(),
                bytes::deep(out@) == names.keys().take(i as int),
            decreases n - i,
        {
            let ghost before = bytes::deep(out@);
            out.push(bytes::to_vec(names.key_at(i).as_slice()));
            i += 1;
            assert(bytes::deep(out@) =~= before.push(names.keys()[i - 1]));
            assert(names.keys().take(i as int) =~= before.push(names.keys()[i - 1]));
        }
        assert(names.keys().take(i as int) =~= names.keys());
        assert forall|name: Seq<u8>| #[trigger] bytes::deep(out@).contains(name) <==> shows_child(
            self.upper(),
            self.lower(),
            p@,
            name,
        ) by {
            assert(names@.contains_key(name) == names.keys().contains(name));
        }
        Ok(out)
    }

    fn is_present(&self, path: &[u8]) -> (r: Result<bool>)
        ensures
            match path::normalized(path@) {
                None => crate::fs::refused(r, Fault::InvalidPath, path@),
                Some(p) => r == Ok::<bool, Error>(self@.contains_key(p)),
            },
    {
        match self.metadata(path) {
            Ok(_) => Ok(true),
            Err(Error::NotFound(_)) => Ok(false),
            Err(error) => Err(error),
        }
    }
}

/// Whether a directory shows a child of a name in either layer.
pub open spec fn shows_child(
    upper: memory::Tree,
    lower: memory::Tree,
    p: Seq<u8>,
    name: Seq<u8>,
) -> bool {
    (lower.contains_key(p) && memory::has_child(lower, p, name)) || (upper.contains_key(p)
        && memory::has_child(upper, p, name))
}

proof fn lemma_listed(tree: memory::Tree, p: Seq<u8>, names: Seq<Seq<u8>>)
    requires
        memory::lists_children(tree, p, names),
    ensures
        forall|name: Seq<u8>| #[trigger]
            names.contains(name) <==> memory::has_child(tree, p, name),
{
    assert forall|name: Seq<u8>| #[trigger] names.contains(name) <==> memory::has_child(
        tree,
        p,
        name,
    ) by {
        if names.contains(name) {
            let i = names.index_of(name);
            assert(memory::has_child(tree, p, names[i]));
        }
    }
}

fn add_all(names: &mut ByteMap<()>, list: &Vec<Vec<u8>>)
    ensures
        forall|name: Seq<u8>| #[trigger]
            final(names)@.contains_key(name) <==> old(names)@.contains_key(name) || bytes::deep(
                list@,
            ).contains(name),
{
    let mut i: usize = 0;
    while i < list.len()
        invariant
            i <= list@.len(),
            forall|name: Seq<u8>| #[trigger]
                names@.contains_key(name) <==> old(names)@.contains_key(name) || bytes::deep(
                    list@,
                ).take(i as int).contains(name),
        decreases list@.len() - i,
    {
        let ghost before = names@;
        names.insert(bytes::to_vec(list[i].as_slice()), ());
        i += 1;
        proof {
            let all = bytes::deep(list@);
            assert(all.take(i as int) =~= all.take(i - 1).push(all[i - 1]));
            assert forall|name: Seq<u8>| #[trigger] names@.contains_key(name) <==> old(names)@.contains_key(name) || all.take(i as int).contains(name) by {
                assert(before.contains_key(name) <==> old(names)@.contains_key(name) || all.take(
                    i - 1,
                ).contains(name));
                if all.take(i - 1).contains(name) {
                    let k = all.take(i - 1).index_of(name);
                    assert(all.take(i as int)[k] == name);
                }
                if name == all[i - 1] {
                    assert(all.take(i as int)[i - 1] == name);
                }
                if all.take(i as int).contains(name) && name != all[i - 1] {
                    let k = all.take(i as int).index_of(name);
                    assert(all.take(i - 1)[k] == name);
                }
            }
        }
    }
    assert(bytes::deep(list@).take(i as int) =~= bytes::deep(list@));
}

} // verus!
