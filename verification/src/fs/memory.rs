//! A file system held in memory.

use vstd::prelude::*;

use crate::bytemap;
use crate::bytemap::ByteMap;
use crate::bytes;
use crate::fs::path;
use crate::fs::path::validate;
use crate::fs::{Fault, FileStat, FileSystem, Metadata};
use crate::{Error, Result};

verus! {

/// What a path of a file system leads to.
#[verifier::ext_equal]
pub enum Node {
    File { data: Seq<u8>, executable: bool, stat: FileStat },
    Directory { stat: FileStat },
    Symlink { target: Seq<u8>, stat: FileStat },
}

/// A file as writing it makes it.
pub open spec fn file(data: Seq<u8>, executable: bool) -> Node {
    Node::File { data, executable, stat: crate::fs::empty_stat() }
}

/// A directory as making it leaves it.
pub open spec fn directory() -> Node {
    Node::Directory { stat: crate::fs::empty_stat() }
}

/// A symbolic link as creating it makes it.
pub open spec fn symlink(target: Seq<u8>) -> Node {
    Node::Symlink { target, stat: crate::fs::empty_stat() }
}

/// A node with other stat fields.
pub open spec fn with_stat(node: Node, stat: FileStat) -> Node {
    match node {
        Node::File { data, executable, .. } => Node::File { data, executable, stat },
        Node::Directory { .. } => Node::Directory { stat },
        Node::Symlink { target, .. } => Node::Symlink { target, stat },
    }
}

enum Entry {
    File { data: Vec<u8>, executable: bool, stat: FileStat },
    Directory { stat: FileStat },
    Symlink { target: Vec<u8>, stat: FileStat },
}

impl Entry {
    spec fn node(self) -> Node {
        match self {
            Entry::File { data, executable, stat } => Node::File { data: data@, executable, stat },
            Entry::Directory { stat } => Node::Directory { stat },
            Entry::Symlink { target, stat } => Node::Symlink { target: target@, stat },
        }
    }
}

/// The contents of a file system: a node for every plain path.
pub type Tree = Map<Seq<u8>, Node>;

/// A file system whose files live in memory.
pub struct MemoryFileSystem {
    entries: ByteMap<Entry>,
}

impl View for MemoryFileSystem {
    type V = Map<Seq<u8>, Node>;

    closed spec fn view(&self) -> Map<Seq<u8>, Node> {
        self.entries@.map_values(|e: Entry| e.node())
    }
}

/// The place of the last slash, or -1.
pub open spec fn last_slash(p: Seq<u8>) -> int
    decreases p.len(),
{
    if p.len() == 0 {
        -1
    } else if p.last() == 47 {
        p.len() - 1
    } else {
        last_slash(p.drop_last())
    }
}

/// The directory that a path stands in; the root is the empty path.
pub open spec fn parent_of(p: Seq<u8>) -> Seq<u8> {
    let at = last_slash(p);
    if at < 0 {
        Seq::empty()
    } else if at == 0 {
        seq![47u8]
    } else {
        p.take(at)
    }
}

/// The last component of a path.
pub open spec fn name_of(p: Seq<u8>) -> Seq<u8> {
    p.skip(last_slash(p) + 1)
}

pub proof fn lemma_last_slash(p: Seq<u8>)
    ensures
        -1 <= last_slash(p) < p.len(),
        last_slash(p) >= 0 ==> p[last_slash(p)] == 47,
        forall|i: int| last_slash(p) < i < p.len() ==> p[i] != 47,
    decreases p.len(),
{
    if p.len() > 0 && p.last() != 47 {
        let front = p.drop_last();
        lemma_last_slash(front);
        assert forall|i: int| last_slash(p) < i < p.len() implies p[i] != 47 by {
            if i < front.len() {
                assert(p[i] == front[i]);
            }
        }
    }
}

fn find_last_slash(p: &[u8]) -> (r: Option<usize>)
    ensures
        match r {
            Some(at) => at == last_slash(p@) && at < p@.len(),
            None => last_slash(p@) == -1,
        },
{
    let mut n: usize = p.len();
    assert(p@.take(n as int) =~= p@);
    while n > 0
        invariant
            n <= p@.len(),
            last_slash(p@) == last_slash(p@.take(n as int)),
        decreases n,
    {
        assert(p@.take(n as int).drop_last() =~= p@.take(n - 1));
        if p[n - 1] == 47 {
            return Some(n - 1);
        }
        n -= 1;
    }
    None
}

/// The directory that a path stands in.
pub fn parent(p: &[u8]) -> (r: Vec<u8>)
    ensures
        r@ == parent_of(p@),
{
    match find_last_slash(p) {
        None => {
            let r: Vec<u8> = Vec::new();
            assert(r@ =~= parent_of(p@));
            r
        },
        Some(at) => {
            if at == 0 {
                let mut r: Vec<u8> = Vec::new();
                r.push(47);
                assert(r@ =~= parent_of(p@));
                r
            } else {
                let r = bytes::copy_range(p, 0, at);
                assert(r@ =~= p@.take(at as int));
                r
            }
        },
    }
}

/// The last component of a path.
pub fn file_name(p: &[u8]) -> (r: Vec<u8>)
    ensures
        r@ == name_of(p@),
{
    match find_last_slash(p) {
        None => {
            let r = bytes::to_vec(p);
            assert(r@ =~= p@.skip(0));
            r
        },
        Some(at) => {
            assert(p.len() <= usize::MAX);
            let r = bytes::copy_range(p, at + 1, p.len());
            assert(r@ =~= p@.skip(at + 1));
            r
        },
    }
}

/// The tree after the directories on the way to `p` were made, and the first
/// path on the way that is no directory.
pub open spec fn with_directories(tree: Tree, p: Seq<u8>, from: int) -> (Tree, Option<Seq<u8>>)
    decreases p.len() - from,
    via with_directories_decreases
{
    let at = bytes::index_from(p, 47, from);
    let here = p.take(at);
    if tree.contains_key(here) && !(tree[here] is Directory) {
        (tree, Some(here))
    } else {
        let next = if tree.contains_key(here) {
            tree
        } else {
            tree.insert(here, directory())
        };
        if from < 0 || at >= p.len() {
            (next, None)
        } else {
            with_directories(next, p, at + 1)
        }
    }
}

#[via_fn]
proof fn with_directories_decreases(tree: Tree, p: Seq<u8>, from: int) {
    if 0 <= from <= p.len() {
        bytes::lemma_index_from(p, 47, from);
    }
}

/// Whether a tree can take a new entry at a plain path.
pub open spec fn parent_fault(tree: Tree, p: Seq<u8>) -> Option<Fault> {
    let up = parent_of(p);
    if !tree.contains_key(up) {
        Some(Fault::NotFound)
    } else if !(tree[up] is Directory) {
        Some(Fault::NotDirectory)
    } else {
        None
    }
}

/// A child of a directory.
pub open spec fn is_child(tree: Tree, directory: Seq<u8>, p: Seq<u8>) -> bool {
    tree.contains_key(p) && p.len() > 0 && parent_of(p) == directory
}

/// A path that stands below another.
pub open spec fn below(p: Seq<u8>, directory: Seq<u8>) -> bool {
    bytes::has_prefix(p, directory.push(47))
}

/// Where a path lands when the tree at `from` is moved to `to`: what stands at
/// or below `from` goes along, and gives way at and below `to`.
pub open spec fn landed(p: Seq<u8>, from: Seq<u8>, to: Seq<u8>) -> Option<Seq<u8>> {
    if p == from || below(p, from) {
        Some(to + p.skip(from.len() as int))
    } else if p == to || below(p, to) {
        None
    } else {
        Some(p)
    }
}

/// The tree after everything at and below `from` was moved to `to`.
pub open spec fn moved(tree: Tree, from: Seq<u8>, to: Seq<u8>) -> Tree {
    Map::new(
        |q: Seq<u8>|
            exists|p: Seq<u8>| #[trigger] tree.contains_key(p) && landed(p, from, to) == Some(q),
        |q: Seq<u8>|
            tree[choose|p: Seq<u8>| #[trigger]
                tree.contains_key(p) && landed(p, from, to) == Some(q)],
    )
}

/// The tree after a plain path was renamed to another, or why it cannot be.
pub open spec fn renamed(tree: Tree, from: Seq<u8>, to: Seq<u8>) -> core::result::Result<
    Tree,
    (Fault, Seq<u8>),
> {
    if !tree.contains_key(from) {
        Err((Fault::NotFound, from))
    } else if tree[from] is Directory {
        if tree.contains_key(to) {
            Err((Fault::AlreadyExists, to))
        } else if below(to, from) || from.len() == 0 {
            Err((Fault::InvalidPath, to))
        } else if parent_fault(tree, to) is Some {
            Err((Fault::NotDirectory, parent_of(to)))
        } else {
            Ok(moved(tree, from, to))
        }
    } else if parent_fault(tree.remove(from), to) is Some {
        Err((Fault::NotDirectory, parent_of(to)))
    } else {
        Ok(tree.remove(from).insert(to, tree[from]))
    }
}

/// Whether a path stands in the tree whose top is another path; everything
/// stands in the tree of the root.
pub open spec fn stands_in(p: Seq<u8>, top: Seq<u8>) -> bool {
    top.len() == 0 || p == top || below(p, top)
}

/// The tree after everything at and below a plain path was removed.
pub open spec fn without(tree: Tree, top: Seq<u8>) -> Tree {
    Map::new(
        |q: Seq<u8>| tree.contains_key(q) && !stands_in(q, top),
        |q: Seq<u8>| tree[q],
    )
}

/// No two paths land on the same path.
proof fn lemma_landed(a: Seq<u8>, b: Seq<u8>, from: Seq<u8>, to: Seq<u8>)
    requires
        landed(a, from, to) is Some,
        landed(a, from, to) == landed(b, from, to),
    ensures
        a == b,
{
    let n = from.len() as int;
    let along_a = a == from || below(a, from);
    let along_b = b == from || below(b, from);
    let q = landed(a, from, to)->0;
    assert forall|p: Seq<u8>| (p == from || below(p, from)) implies #[trigger] (to + p.skip(n))
        == to || below(to + p.skip(n), to) by {
        if p == from {
            assert(to + p.skip(n) =~= to);
        } else {
            assert(p.take(n + 1)[n] == 47);
            assert((to + p.skip(n)).take(to.len() as int + 1) =~= to.push(47));
        }
    }
    assert forall|p: Seq<u8>| (p == from || below(p, from)) implies #[trigger] p.take(n)
        == from by {
        if p == from {
            assert(p.take(n) =~= from);
        } else {
            assert(p.take(n) =~= p.take(n + 1).take(n));
            assert(from.push(47).take(n) =~= from);
        }
    }
    if along_a && along_b {
        assert(a.skip(n) =~= q.skip(to.len() as int));
        assert(b.skip(n) =~= q.skip(to.len() as int));
        assert(a.take(n) == from && b.take(n) == from);
        assert(a =~= a.take(n) + a.skip(n));
        assert(b =~= b.take(n) + b.skip(n));
    } else if along_a {
        assert((to + a.skip(n)) == q);
    } else if along_b {
        assert((to + b.skip(n)) == q);
    }
}

impl Default for MemoryFileSystem {
    fn default() -> (r: Self)
        ensures
            r@ == Map::<Seq<u8>, Node>::empty().insert(Seq::empty(), directory()),
    {
        let mut entries: ByteMap<Entry> = ByteMap::new();
        entries.insert(Vec::new(), Entry::Directory { stat: FileStat::default() });
        let r = MemoryFileSystem { entries };
        assert(r@ =~= Map::<Seq<u8>, Node>::empty().insert(Seq::empty(), directory()));
        r
    }
}

impl MemoryFileSystem {
    pub fn new() -> (r: Self)
        ensures
            r@ == Map::<Seq<u8>, Node>::empty().insert(Seq::empty(), directory()),
    {
        MemoryFileSystem::default()
    }

    /// Refuses a path whose parent is no directory.
    fn check_parent(&self, p: &[u8]) -> (r: Result<()>)
        ensures
            match parent_fault(self@, p@) {
                Some(fault) => crate::fs::refused(r, fault, parent_of(p@)),
                None => r is Ok,
            },
    {
        let up = parent(p);
        match self.entries.get(up.as_slice()) {
            None => Err(Error::NotFound(up)),
            Some(Entry::Directory { .. }) => Ok(()),
            Some(_) => Err(Error::NotDirectory(up)),
        }
    }

    /// Puts an entry at a plain path.
    fn put(&mut self, p: Vec<u8>, entry: Entry)
        ensures
            final(self)@ == old(self)@.insert(p@, entry.node()),
    {
        self.entries.insert(p, entry);
        assert(self@ =~= old(self)@.insert(p@, entry.node()));
    }

    /// Takes out what stands at a plain path.
    fn take(&mut self, p: &[u8]) -> (r: Option<Entry>)
        ensures
            final(self)@ == old(self)@.remove(p@),
            match r {
                Some(entry) => old(self)@.contains_key(p@) && old(self)@[p@] == entry.node(),
                None => !old(self)@.contains_key(p@),
            },
    {
        let r = self.entries.remove(p);
        assert(self@ =~= old(self)@.remove(p@));
        r
    }
}

/// What reading a plain path gives.
pub open spec fn contents(tree: Tree, p: Seq<u8>) -> core::result::Result<Seq<u8>, Fault> {
    if !tree.contains_key(p) {
        Err(Fault::NotFound)
    } else {
        match tree[p] {
            Node::File { data, .. } => Ok(data),
            Node::Directory { .. } => Err(Fault::IsDirectory),
            Node::Symlink { .. } => Err(Fault::InvalidPath),
        }
    }
}

/// What a plain path leads to.
pub open spec fn metadata_of(node: Node) -> Metadata {
    match node {
        Node::File { data, executable, stat } => Metadata {
            kind: crate::fs::FileType::File,
            len: data.len() as u64,
            executable,
            stat,
        },
        Node::Directory { stat } => Metadata {
            kind: crate::fs::FileType::Directory,
            len: 0,
            executable: false,
            stat,
        },
        Node::Symlink { target, stat } => Metadata {
            kind: crate::fs::FileType::Symlink,
            len: target.len() as u64,
            executable: false,
            stat,
        },
    }
}

/// The executable bit that a rewritten file keeps.
pub open spec fn kept_bit(tree: Tree, p: Seq<u8>) -> bool {
    tree.contains_key(p) && (tree[p] matches Node::File { executable, .. } && executable)
}

/// Whether a directory has a child of a name.
pub open spec fn has_child(tree: Tree, directory: Seq<u8>, name: Seq<u8>) -> bool {
    exists|p: Seq<u8>| #[trigger] is_child(tree, directory, p) && name_of(p) == name
}

/// The names of a directory's children, in ascending order.
pub open spec fn lists_children(tree: Tree, directory: Seq<u8>, names: Seq<Seq<u8>>) -> bool {
    &&& bytemap::ascending(names)
    &&& forall|p: Seq<u8>| #[trigger]
        is_child(tree, directory, p) ==> names.contains(name_of(p))
    &&& forall|i: int|
        0 <= i < names.len() ==> has_child(tree, directory, #[trigger] names[i])
}

proof fn lemma_lex_prefix(x: Seq<u8>, a: Seq<u8>, b: Seq<u8>)
    ensures
        bytes::lex_lt(x + a, x + b) == bytes::lex_lt(a, b),
    decreases x.len(),
{
    if x.len() == 0 {
        assert(x + a =~= a);
        assert(x + b =~= b);
    } else {
        lemma_lex_prefix(x.skip(1), a, b);
        assert((x + a).skip(1) =~= x.skip(1) + a);
        assert((x + b).skip(1) =~= x.skip(1) + b);
    }
}

/// A path is its parent, a slash and its name; at the root only its name.
pub proof fn lemma_parent_name(p: Seq<u8>)
    ensures
        last_slash(p) < 0 ==> p == name_of(p) && parent_of(p) == Seq::<u8>::empty(),
        last_slash(p) > 0 ==> p == parent_of(p).push(47) + name_of(p) && parent_of(p).len() > 0,
        last_slash(p) == 0 ==> p == seq![47u8] + name_of(p) && parent_of(p) == seq![47u8],
{
    lemma_last_slash(p);
    let at = last_slash(p);
    if at < 0 {
        assert(p =~= name_of(p));
    } else if at > 0 {
        assert(p =~= parent_of(p).push(47) + name_of(p));
    } else {
        assert(p =~= seq![47u8] + name_of(p));
    }
}

/// The directory that a plain path stands in is a plain path.
pub proof fn lemma_parent_plain(p: Seq<u8>)
    requires
        path::plain(p),
        p.len() > 0,
    ensures
        path::plain(parent_of(p)),
        parent_of(p).len() < p.len(),
{
    let parts = path::normal_parts(p);
    path::lemma_normal_parts(p);
    let init = parts.drop_last();
    assert(path::plain_parts(init)) by {
        assert forall|i: int| 0 <= i < init.len() implies {
            &&& path::names_something(#[trigger] init[i])
            &&& init[i] != seq![46u8, 46u8]
            &&& forall|j: int| 0 <= j < init[i].len() ==> init[i][j] != 47
        } by {
            assert(init[i] == parts[i]);
        }
    }
    path::lemma_join_plain(init);
    lemma_last_slash(p);
    let last = parts.last();
    if parts.len() == 1 {
        assert(p == parts[0]);
        if last_slash(p) >= 0 {
            assert(parts[0][last_slash(p)] != 47);
        }
        assert(parent_of(p) =~= bytes::join(init, 47));
    } else {
        let head = bytes::join(init, 47);
        let at = head.len() as int;
        assert(p == head.push(47) + last);
        assert(p[at] == 47);
        assert forall|i: int| at < i < p.len() implies p[i] != 47 by {
            assert(p[i] == last[i - at - 1]);
            assert(parts[parts.len() - 1] == last);
        }
        assert(last_slash(p) == at);
        path::lemma_normalized_first(p);
        assert(at > 0);
        assert(p.take(at) =~= head);
    }
}

/// The last component of a plain path is a plain path.
pub proof fn lemma_name_plain(p: Seq<u8>)
    requires
        path::plain(p),
        p.len() > 0,
    ensures
        path::plain(name_of(p)),
        name_of(p).len() > 0,
{
    let parts = path::normal_parts(p);
    path::lemma_normal_parts(p);
    lemma_last_slash(p);
    let last = parts.last();
    let k = parts.len() - 1;
    assert(path::names_something(parts[k]) && parts[k] != seq![46u8, 46u8]);
    assert(forall|j: int| 0 <= j < parts[k].len() ==> parts[k][j] != 47);
    path::lemma_plain_name(last);
    if parts.len() == 1 {
        if last_slash(p) >= 0 {
            assert(parts[0][last_slash(p)] != 47);
        }
        assert(name_of(p) =~= last);
    } else {
        let head = bytes::join(parts.drop_last(), 47);
        let at = head.len() as int;
        assert(p == head.push(47) + last);
        assert(p[at] == 47);
        assert forall|i: int| at < i < p.len() implies p[i] != 47 by {
            assert(p[i] == last[i - at - 1]);
        }
        assert(name_of(p) =~= last);
    }
}

impl Entry {
    fn copy(&self) -> (r: Entry)
        ensures
            r.node() == self.node(),
    {
        match self {
            Entry::File { data, executable, stat } => Entry::File {
                data: bytes::to_vec(data.as_slice()),
                executable: *executable,
                stat: *stat,
            },
            Entry::Directory { stat } => Entry::Directory { stat: *stat },
            Entry::Symlink { target, stat } => Entry::Symlink {
                target: bytes::to_vec(target.as_slice()),
                stat: *stat,
            },
        }
    }
}

pub fn at_or_below(p: &[u8], directory: &[u8]) -> (r: bool)
    ensures
        r == (p@ == directory@ || below(p@, directory@)),
{
    if bytes::bytes_eq(p, directory) {
        return true;
    }
    let mut stem = bytes::to_vec(directory);
    stem.push(47);
    bytes::starts_with(p, stem.as_slice())
}

impl MemoryFileSystem {
    fn has_children(&self, p: &[u8]) -> (r: bool)
        ensures
            r == exists|q: Seq<u8>| is_child(self@, p@, q),
    {
        let mut i: usize = 0;
        let n: usize = self.entries.len();
        while i < n
            invariant
                i <= n,
                n == self.entries.keys().len(),
                forall|j: int|
                    0 <= j < i ==> !is_child(self@, p@, #[trigger] self.entries.keys()[j]),
            decreases n - i,
        {
            let key = self.entries.key_at(i);
            if key.len() > 0 && bytes::bytes_eq(parent(key.as_slice()).as_slice(), p) {
                assert(is_child(self@, p@, key@));
                return true;
            }
            i += 1;
        }
        proof {
            assert forall|q: Seq<u8>| !is_child(self@, p@, q) by {
                if is_child(self@, p@, q) {
                    assert(self.entries@.contains_key(q));
                    let j = self.entries.keys().index_of(q);
                    assert(self.entries.keys()[j] == q);
                }
            }
        }
        false
    }

    fn children(&self, p: &[u8]) -> (r: Vec<Vec<u8>>)
        requires
            p@ != seq![47u8],
        ensures
            lists_children(self@, p@, bytes::deep(r@)),
    {
        let mut out: Vec<Vec<u8>> = Vec::new();
        let ghost mut from: Seq<int> = Seq::empty();
        let ghost keys = self.entries.keys();
        let mut i: usize = 0;
        let n: usize = self.entries.len();
        while i < n
            invariant
                i <= n,
                n == keys.len(),
                keys == self.entries.keys(),
                self.entries.wf(),
                p@ != seq![47u8],
                from.len() == out@.len(),
                forall|k: int|
                    0 <= k < from.len() ==> 0 <= #[trigger] from[k] < i && is_child(
                        self@,
                        p@,
                        keys[from[k]],
                    ) && name_of(keys[from[k]]) == out@[k]@,
                forall|k: int, l: int|
                    0 <= k < l < from.len() ==> #[trigger] from[k] < #[trigger] from[l],
                forall|j: int|
                    0 <= j < i && is_child(self@, p@, #[trigger] keys[j]) ==> bytes::deep(
                        out@,
                    ).contains(name_of(keys[j])),
            decreases n - i,
        {
            let key = self.entries.key_at(i);
            let ghost before = out@;
            if key.len() > 0 && bytes::bytes_eq(parent(key.as_slice()).as_slice(), p) {
                assert(is_child(self@, p@, key@));
                let name = file_name(key.as_slice());
                out.push(name);
                proof {
                    from = from.push(i as int);
                    assert(bytes::deep(out@)[before.len() as int] == name@);
                    assert forall|j: int|
                        0 <= j < i && is_child(self@, p@, #[trigger] keys[j]) implies bytes::deep(
                        out@,
                    ).contains(name_of(keys[j])) by {
                        let k = bytes::deep(before).index_of(name_of(keys[j]));
                        assert(bytes::deep(out@)[k] == bytes::deep(before)[k]);
                    }
                }
            }
            i += 1;
        }
        proof {
            let names = bytes::deep(out@);
            assert forall|k: int, l: int| 0 <= k < l < names.len() implies #[trigger] bytes::lex_lt(
                names[k],
                names[l],
            ) by {
                let a = keys[from[k]];
                let b = keys[from[l]];
                assert(from[k] < from[l]);
                assert(bytes::lex_lt(a, b));
                lemma_parent_name(a);
                lemma_parent_name(b);
                lemma_last_slash(a);
                lemma_last_slash(b);
                if last_slash(a) > 0 {
                    lemma_lex_prefix(parent_of(a).push(47), name_of(a), name_of(b));
                }
            }
            assert forall|q: Seq<u8>| #[trigger] is_child(self@, p@, q) implies names.contains(
                name_of(q),
            ) by {
                assert(self.entries@.contains_key(q));
                let j = keys.index_of(q);
                assert(keys[j] == q);
            }
            assert forall|k: int| 0 <= k < names.len() implies has_child(
                self@,
                p@,
                #[trigger] names[k],
            ) by {
                assert(is_child(self@, p@, keys[from[k]]));
            }
        }
        out
    }

    fn rename_directory(&mut self, f: &[u8], t: Vec<u8>) -> (r: Result<()>)
        ensures
            if old(self)@.contains_key(t@) {
                crate::fs::refused(r, Fault::AlreadyExists, t@) && final(self)@ == old(self)@
            } else if below(t@, f@) || f@.len() == 0 {
                crate::fs::refused(r, Fault::InvalidPath, t@) && final(self)@ == old(self)@
            } else if parent_fault(old(self)@, t@) is Some {
                crate::fs::refused(r, Fault::NotDirectory, parent_of(t@)) && final(self)@ == old(self)@
            } else {
                r is Ok && final(self)@ == moved(old(self)@, f@, t@)
            },
    {
        if self.entries.contains(t.as_slice()) {
            return Err(Error::AlreadyExists(t));
        }
        if f.len() == 0 || (at_or_below(t.as_slice(), f) && !bytes::bytes_eq(t.as_slice(), f)) {
            return Err(Error::InvalidPath(t));
        }
        let up = parent(t.as_slice());
        match self.check_parent(t.as_slice()) {
            Err(_) => return Err(Error::NotDirectory(up)),
            Ok(()) => {},
        }
        let mut entries: ByteMap<Entry> = ByteMap::new();
        let ghost tree = self@;
        let ghost keys = self.entries.keys();
        let n: usize = self.entries.len();
        let mut i: usize = 0;
        while i < n
            invariant
                i <= n,
                n == keys.len(),
                keys == self.entries.keys(),
                self.entries.wf(),
                tree == self@,
                forall|j: int|
                    0 <= j < i && landed(#[trigger] keys[j], f@, t@) is Some
                        ==> entries@.contains_key(landed(keys[j], f@, t@)->0) && entries@[landed(
                        keys[j],
                        f@,
                        t@,
                    )->0].node() == tree[keys[j]],
                forall|q: Seq<u8>| #[trigger]
                    entries@.contains_key(q) ==> exists|j: int|
                        0 <= j < i && landed(#[trigger] keys[j], f@, t@) == Some(q),
            decreases n - i,
        {
            let key = self.entries.key_at(i);
            let entry = self.entries.value_at(i);
            let ghost before = entries@;
            assert(tree.contains_key(keys[i as int]));
            assert(entry.node() == tree[keys[i as int]]);
            if at_or_below(key.as_slice(), f) {
                let mut target = bytes::to_vec(t.as_slice());
                assert(key@.len() >= f@.len());
                bytes::append(&mut target, &key.as_slice()[f.len()..key.len()]);
                assert(target@ =~= t@ + key@.skip(f@.len() as int));
                entries.insert(target, entry.copy());
            } else if !at_or_below(key.as_slice(), t.as_slice()) {
                entries.insert(bytes::to_vec(key.as_slice()), entry.copy());
            }
            proof {
                assert forall|j: int|
                    0 <= j < i + 1 && landed(
                        #[trigger] keys[j],
                        f@,
                        t@,
                    ) is Some implies entries@.contains_key(landed(keys[j], f@, t@)->0)
                    && entries@[landed(keys[j], f@, t@)->0].node() == tree[keys[j]] by {
                    if j < i && landed(keys[i as int], f@, t@) is Some {
                        if landed(keys[j], f@, t@) == landed(keys[i as int], f@, t@) {
                            lemma_landed(keys[j], keys[i as int], f@, t@);
                            bytes::lemma_lex_irreflexive(keys[j]);
                            assert(bytes::lex_lt(keys[j], keys[i as int]));
                        }
                    }
                }
                assert forall|q: Seq<u8>| #[trigger] entries@.contains_key(q) implies exists|j: int|
                    0 <= j < i + 1 && landed(#[trigger] keys[j], f@, t@) == Some(q) by {
                    if before.contains_key(q) {
                    } else {
                        assert(landed(keys[i as int], f@, t@) == Some(q));
                    }
                }
            }
            i += 1;
        }
        self.entries = entries;
        proof {
            let goal = moved(tree, f@, t@);
            assert forall|q: Seq<u8>|
                #![trigger self@.dom().contains(q)]
                #![trigger goal.dom().contains(q)]
                self@.dom().contains(q) == goal.dom().contains(q) && (self@.dom().contains(q)
                    ==> self@[q] == goal[q]) by {
                if self@.dom().contains(q) {
                    let j = choose|j: int|
                        0 <= j < n && landed(#[trigger] keys[j], f@, t@) == Some(q);
                    assert(tree.contains_key(keys[j]));
                    let p = choose|p: Seq<u8>| #[trigger]
                        tree.contains_key(p) && landed(p, f@, t@) == Some(q);
                    lemma_landed(p, keys[j], f@, t@);
                }
                if goal.dom().contains(q) {
                    let p = choose|p: Seq<u8>| #[trigger]
                        tree.contains_key(p) && landed(p, f@, t@) == Some(q);
                    let j = keys.index_of(p);
                    assert(keys[j] == p);
                }
            }
            assert(self@ =~= goal);
        }
        Ok(())
    }
}

/// Whether a path in its plain form stands below a directory.
pub open spec fn plain_below(p: Seq<u8>, directory: Seq<u8>) -> bool {
    below(p, directory) && path::normalized(p) == Some(p)
}

/// The paths below a directory in ascending order.
pub open spec fn paths_below(tree: Tree, directory: Seq<u8>) -> Seq<Seq<u8>> {
    crate::id_set::sorted(Set::new(|p: Seq<u8>| tree.contains_key(p) && plain_below(p, directory)))
}

/// Making directories leaves what stands.
pub proof fn lemma_directories_keep(tree: Tree, p: Seq<u8>, from: int)
    ensures
        forall|q: Seq<u8>| #[trigger]
            tree.contains_key(q) ==> with_directories(tree, p, from).0.contains_key(q)
                && with_directories(tree, p, from).0[q] == tree[q],
    decreases p.len() - from,
{
    let at = bytes::index_from(p, 47, from);
    let here = p.take(at);
    if !(tree.contains_key(here) && !(tree[here] is Directory)) && from >= 0 && at < p.len() {
        if from <= p.len() {
            bytes::lemma_index_from(p, 47, from);
        }
        let next = if tree.contains_key(here) {
            tree
        } else {
            tree.insert(here, directory())
        };
        lemma_directories_keep(next, p, at + 1);
        assert forall|q: Seq<u8>| #[trigger] tree.contains_key(q) implies with_directories(
            tree,
            p,
            from,
        ).0.contains_key(q) && with_directories(tree, p, from).0[q] == tree[q] by {
            assert(next.contains_key(q));
        }
    }
}

/// What making directories adds are directories.
pub proof fn lemma_directories_new(tree: Tree, p: Seq<u8>, from: int)
    ensures
        forall|q: Seq<u8>| #[trigger]
            with_directories(tree, p, from).0.contains_key(q) && !tree.contains_key(q)
                ==> with_directories(tree, p, from).0[q] is Directory,
    decreases p.len() - from,
{
    let at = bytes::index_from(p, 47, from);
    let here = p.take(at);
    if !(tree.contains_key(here) && !(tree[here] is Directory)) && from >= 0 && at < p.len() {
        if from <= p.len() {
            bytes::lemma_index_from(p, 47, from);
        }
        let next = if tree.contains_key(here) {
            tree
        } else {
            tree.insert(here, directory())
        };
        lemma_directories_new(next, p, at + 1);
        lemma_directories_keep(next, p, at + 1);
        assert forall|q: Seq<u8>| #[trigger]
            with_directories(tree, p, from).0.contains_key(q) && !tree.contains_key(
                q,
            ) implies with_directories(tree, p, from).0[q] is Directory by {
            if next.contains_key(q) {
                assert(q == here);
            }
        }
    }
}

/// Whether whatever stands in a tree stands in a directory of it.
pub open spec fn rooted(tree: Tree) -> bool {
    forall|p: Seq<u8>| #[trigger] tree.contains_key(p) && p.len() > 0 ==> tree.contains_key(
        parent_of(p),
    )
}

/// Making directories adds finitely many.
pub proof fn lemma_directories_finite(tree: Tree, p: Seq<u8>, from: int)
    requires
        tree.dom().finite(),
    ensures
        with_directories(tree, p, from).0.dom().finite(),
    decreases p.len() - from,
{
    let at = bytes::index_from(p, 47, from);
    let here = p.take(at);
    if !(tree.contains_key(here) && !(tree[here] is Directory)) && from >= 0 && at < p.len() {
        if from <= p.len() {
            bytes::lemma_index_from(p, 47, from);
        }
        let next = if tree.contains_key(here) {
            tree
        } else {
            tree.insert(here, directory())
        };
        lemma_directories_finite(next, p, at + 1);
    }
}

/// Once the directories of a path are made, it is a directory.
pub proof fn lemma_directories_made(tree: Tree, p: Seq<u8>, from: int)
    requires
        0 <= from <= p.len(),
        with_directories(tree, p, from).1 is None,
    ensures
        with_directories(tree, p, from).0.contains_key(p),
        with_directories(tree, p, from).0[p] is Directory,
    decreases p.len() - from,
{
    let at = bytes::index_from(p, 47, from);
    let here = p.take(at);
    bytes::lemma_index_from(p, 47, from);
    if at < p.len() {
        let next = if tree.contains_key(here) {
            tree
        } else {
            tree.insert(here, directory())
        };
        lemma_directories_made(next, p, at + 1);
    } else {
        assert(here =~= p);
    }
}

/// Making the directories of a path makes those above it.
pub proof fn lemma_directories_above(tree: Tree, p: Seq<u8>, from: int, at: int)
    requires
        0 <= from <= at < p.len(),
        p[at] == 47,
        with_directories(tree, p, from).1 is None,
    ensures
        with_directories(tree, p, from).0.contains_key(p.take(at)),
    decreases p.len() - from,
{
    let first = bytes::index_from(p, 47, from);
    let here = p.take(first);
    bytes::lemma_index_from(p, 47, from);
    let next = if tree.contains_key(here) {
        tree
    } else {
        tree.insert(here, directory())
    };
    assert(first <= at);
    if first < at {
        lemma_directories_above(next, p, first + 1, at);
    } else {
        lemma_directories_keep(next, p, first + 1);
        assert(next.contains_key(p.take(at)));
    }
}

impl MemoryFileSystem {
    /// Gives what stands at a path other stat fields.
    pub fn set_stat(&mut self, path: &[u8], stat: FileStat) -> (r: Result<()>)
        ensures
            match path::normalized(path@) {
                None => crate::fs::refused(r, Fault::InvalidPath, path@) && final(self)@ == old(self)@,
                Some(p) => if !old(self)@.contains_key(p) {
                    crate::fs::refused(r, Fault::NotFound, p) && final(self)@ == old(self)@
                } else {
                    r is Ok && final(self)@ == old(self)@.insert(p, with_stat(old(self)@[p], stat))
                },
            },
    {
        let p = validate(path)?;
        let entry = match self.take(p.as_slice()) {
            None => {
                assert(self@ =~= old(self)@);
                return Err(Error::NotFound(p));
            },
            Some(Entry::File { data, executable, .. }) => Entry::File { data, executable, stat },
            Some(Entry::Directory { .. }) => Entry::Directory { stat },
            Some(Entry::Symlink { target, .. }) => Entry::Symlink { target, stat },
        };
        self.put(p, entry);
        assert(self@ =~= old(self)@.insert(p@, with_stat(old(self)@[p@], stat)));
        Ok(())
    }

    /// Lists the paths below a directory.
    pub fn list_below(&self, directory: &[u8]) -> (r: Vec<Vec<u8>>)
        ensures
            bytes::deep(r@) == paths_below(self@, directory@),
            bytemap::ascending(bytes::deep(r@)),
            forall|i: int|
                0 <= i < r@.len() ==> self@.contains_key((#[trigger] r@[i])@) && plain_below(
                    r@[i]@,
                    directory@,
                ),
    {
        let mut prefix = bytes::to_vec(directory);
        prefix.push(47);
        let ghost keys = self.entries.keys();
        let n: usize = self.entries.len();
        let mut out: Vec<Vec<u8>> = Vec::new();
        assert(bytes::deep(out@) =~= Seq::empty());
        let mut i: usize = 0;
        while i < n
            invariant
                i <= n,
                n == keys.len(),
                keys == self.entries.keys(),
                self.entries.wf(),
                prefix@ == directory@.push(47),
                forall|k: int|
                    0 <= k < out@.len() ==> self@.contains_key((#[trigger] out@[k])@) && plain_below(
                        out@[k]@,
                        directory@,
                    ),
                forall|k: int|
                    0 <= k < i && plain_below(#[trigger] keys[k], directory@) ==> bytes::deep(
                        out@,
                    ).contains(keys[k]),
                forall|k: int|
                    0 <= k < out@.len() ==> exists|j: int|
                        0 <= j < i && #[trigger] keys[j] == (#[trigger] out@[k])@,
                bytemap::ascending(bytes::deep(out@)),
            decreases n - i,
        {
            let key = self.entries.key_at(i);
            let plain = match validate(key.as_slice()) {
                Ok(p) => bytes::bytes_eq(p.as_slice(), key.as_slice()),
                Err(_) => false,
            };
            assert(plain == (path::normalized(key@) == Some(key@)));
            if bytes::starts_with(key.as_slice(), prefix.as_slice()) && plain {
                let ghost before = out@;
                let one = bytes::to_vec(key.as_slice());
                out.push(one);
                proof {
                    assert(bytes::deep(out@) =~= bytes::deep(before).push(keys[i as int]));
                    assert(self@.contains_key(keys[i as int]));
                    assert forall|k: int| 0 <= k < i + 1 && plain_below(
                        #[trigger] keys[k],
                        directory@,
                    ) implies bytes::deep(out@).contains(keys[k]) by {
                        if k < i {
                            let j = bytes::deep(before).index_of(keys[k]);
                            assert(bytes::deep(out@)[j] == keys[k]);
                        } else {
                            assert(bytes::deep(out@).last() == keys[k]);
                        }
                    }
                    assert forall|a: int, b: int|
                        0 <= a < b < bytes::deep(out@).len() implies #[trigger] bytes::lex_lt(
                        bytes::deep(out@)[a],
                        bytes::deep(out@)[b],
                    ) by {
                        assert(bytes::deep(out@)[a] == before[a]@);
                        if b < before.len() {
                            assert(bytes::lex_lt(bytes::deep(before)[a], bytes::deep(before)[b]));
                        } else {
                            let j = choose|j: int|
                                0 <= j < i && #[trigger] keys[j] == (#[trigger] before[a])@;
                            assert(bytes::lex_lt(keys[j], keys[i as int]));
                        }
                    }
                }
            }
            i += 1;
        }
        proof {
            let list = bytes::deep(out@);
            let set = Set::new(
                |p: Seq<u8>| self@.contains_key(p) && plain_below(p, directory@),
            );
            crate::id_set::lemma_sorted(list);
            assert forall|p: Seq<u8>| list.to_set().contains(p) <==> set.contains(p) by {
                if list.contains(p) {
                    let k = list.index_of(p);
                    assert(out@[k]@ == p);
                }
                if set.contains(p) {
                    assert(keys.contains(p));
                    let k = keys.index_of(p);
                    assert(plain_below(keys[k], directory@));
                }
            }
            assert(list.to_set() =~= set);
        }
        out
    }

    /// Removes a file, a symbolic link or a complete directory tree.
    pub fn remove_tree(&mut self, path: &[u8]) -> (r: Result<()>)
        ensures
            match path::normalized(path@) {
                None => crate::fs::refused(r, Fault::InvalidPath, path@) && final(self)@ == old(self)@,
                Some(p) => if !old(self)@.contains_key(p) {
                    crate::fs::refused(r, Fault::NotFound, p) && final(self)@ == old(self)@
                } else {
                    r is Ok && final(self)@ == without(old(self)@, p)
                },
            },
    {
        let top = validate(path)?;
        if !self.entries.contains(top.as_slice()) {
            return Err(Error::NotFound(top));
        }
        let mut entries: ByteMap<Entry> = ByteMap::new();
        let ghost tree = self@;
        let ghost keys = self.entries.keys();
        let n: usize = self.entries.len();
        let mut i: usize = 0;
        while i < n
            invariant
                i <= n,
                n == keys.len(),
                keys == self.entries.keys(),
                self.entries.wf(),
                tree == self@,
                forall|j: int|
                    0 <= j < i && !stands_in(#[trigger] keys[j], top@) ==> entries@.contains_key(
                        keys[j],
                    ),
                forall|q: Seq<u8>| #[trigger]
                    entries@.contains_key(q) ==> tree.contains_key(q) && !stands_in(q, top@)
                        && entries@[q].node() == tree[q],
            decreases n - i,
        {
            let key = self.entries.key_at(i);
            let entry = self.entries.value_at(i);
            assert(tree.contains_key(keys[i as int]));
            assert(entry.node() == tree[keys[i as int]]);
            if top.len() > 0 && !at_or_below(key.as_slice(), top.as_slice()) {
                entries.insert(bytes::to_vec(key.as_slice()), entry.copy());
            }
            i += 1;
        }
        self.entries = entries;
        proof {
            let goal = without(tree, top@);
            assert forall|q: Seq<u8>|
                #![trigger self@.dom().contains(q)]
                #![trigger goal.dom().contains(q)]
                self@.dom().contains(q) == goal.dom().contains(q) && (self@.dom().contains(q)
                    ==> self@[q] == goal[q]) by {
                if goal.dom().contains(q) {
                    let j = keys.index_of(q);
                    assert(keys[j] == q);
                }
            }
            assert(self@ =~= goal);
        }
        Ok(())
    }
}

impl FileSystem for MemoryFileSystem {
    fn create_dir_all(&mut self, path: &[u8]) -> (r: Result<()>)
        ensures
            match path::normalized(path@) {
                None => crate::fs::refused(r, Fault::InvalidPath, path@) && final(self)@ == old(self)@,
                Some(p) => if p.len() == 0 {
                    r is Ok && final(self)@ == old(self)@
                } else {
                    &&& final(self)@ == with_directories(old(self)@, p, 0).0
                    &&& match with_directories(old(self)@, p, 0).1 {
                        Some(at) => crate::fs::refused(r, Fault::NotDirectory, at),
                        None => r is Ok,
                    }
                },
            },
    {
        let plain = validate(path)?;
        let p = plain.as_slice();
        if p.len() == 0 {
            return Ok(());
        }
        let mut from: usize = 0;
        loop
            invariant
                path::normalized(path@) == Some(p@),
                p@.len() > 0,
                from <= p@.len(),
                with_directories(old(self)@, p@, 0) == with_directories(self@, p@, from as int),
            decreases p@.len() + 1 - from,
        {
            let at: usize = bytes::find_byte(p, 47, from);
            let here = bytes::copy_range(p, 0, at);
            assert(here@ =~= p@.take(at as int));
            match self.entries.get(here.as_slice()) {
                Some(Entry::Directory { .. }) => {},
                Some(_) => {
                    return Err(Error::NotDirectory(here));
                },
                None => {
                    self.put(here, Entry::Directory { stat: FileStat::default() });
                },
            }
            if at == p.len() {
                return Ok(());
            }
            from = at + 1;
        }
    }

    fn read(&self, path: &[u8]) -> (r: Result<Vec<u8>>)
        ensures
            match path::normalized(path@) {
                None => crate::fs::refused(r, Fault::InvalidPath, path@),
                Some(p) => match contents(self@, p) {
                    Ok(data) => r is Ok && r->Ok_0@ == data,
                    Err(fault) => crate::fs::refused(r, fault, p),
                },
            },
    {
        let p = validate(path)?;
        match self.entries.get(p.as_slice()) {
            Some(Entry::File { data, .. }) => Ok(bytes::to_vec(data.as_slice())),
            Some(Entry::Directory { .. }) => Err(Error::IsDirectory(p)),
            Some(Entry::Symlink { .. }) => Err(Error::InvalidPath(p)),
            None => Err(Error::NotFound(p)),
        }
    }

    fn write(&mut self, path: &[u8], data: &[u8]) -> (r: Result<()>)
        ensures
            match path::normalized(path@) {
                None => crate::fs::refused(r, Fault::InvalidPath, path@) && final(self)@ == old(self)@,
                Some(p) => match parent_fault(old(self)@, p) {
                    Some(fault) => crate::fs::refused(r, fault, parent_of(p)) && final(self)@
                        == old(self)@,
                    None => if old(self)@.contains_key(p) && old(self)@[p] is Directory {
                        crate::fs::refused(r, Fault::IsDirectory, p) && final(self)@ == old(self)@
                    } else {
                        r is Ok && final(self)@ == old(self)@.insert(
                            p,
                            file(data@, kept_bit(old(self)@, p)),
                        )
                    },
                },
            },
    {
        let p = validate(path)?;
        self.check_parent(p.as_slice())?;
        let executable = match self.entries.get(p.as_slice()) {
            Some(Entry::Directory { .. }) => return Err(Error::IsDirectory(p)),
            Some(Entry::File { executable, .. }) => *executable,
            _ => false,
        };
        self.put(
            p,
            Entry::File { data: bytes::to_vec(data), executable, stat: FileStat::default() },
        );
        Ok(())
    }

    fn write_new(&mut self, path: &[u8], data: &[u8]) -> (r: Result<()>)
        ensures
            match path::normalized(path@) {
                None => crate::fs::refused(r, Fault::InvalidPath, path@) && final(self)@ == old(self)@,
                Some(p) => match parent_fault(old(self)@, p) {
                    Some(fault) => crate::fs::refused(r, fault, parent_of(p)) && final(self)@
                        == old(self)@,
                    None => if old(self)@.contains_key(p) {
                        crate::fs::refused(r, Fault::AlreadyExists, p) && final(self)@ == old(self)@
                    } else {
                        r is Ok && final(self)@ == old(self)@.insert(
                            p,
                            file(data@, false),
                        )
                    },
                },
            },
    {
        let p = validate(path)?;
        self.check_parent(p.as_slice())?;
        if self.entries.contains(p.as_slice()) {
            return Err(Error::AlreadyExists(p));
        }
        self.put(
            p,
            Entry::File { data: bytes::to_vec(data), executable: false, stat: FileStat::default() },
        );
        Ok(())
    }

    fn read_link(&self, path: &[u8]) -> (r: Result<Vec<u8>>)
        ensures
            match path::normalized(path@) {
                None => crate::fs::refused(r, Fault::InvalidPath, path@),
                Some(p) => if !self@.contains_key(p) {
                    crate::fs::refused(r, Fault::NotFound, p)
                } else {
                    match self@[p] {
                        Node::Symlink { target, .. } => r is Ok && r->Ok_0@ == target,
                        _ => crate::fs::refused(r, Fault::InvalidPath, p),
                    }
                },
            },
    {
        let p = validate(path)?;
        match self.entries.get(p.as_slice()) {
            Some(Entry::Symlink { target, .. }) => Ok(bytes::to_vec(target.as_slice())),
            Some(_) => Err(Error::InvalidPath(p)),
            None => Err(Error::NotFound(p)),
        }
    }

    fn create_symlink(&mut self, path: &[u8], target: &[u8]) -> (r: Result<()>)
        ensures
            match path::normalized(path@) {
                None => crate::fs::refused(r, Fault::InvalidPath, path@) && final(self)@ == old(self)@,
                Some(p) => if parent_fault(old(self)@, p) is Some {
                    crate::fs::refused(r, Fault::NotDirectory, parent_of(p)) && final(self)@ == old(self)@
                } else if old(self)@.contains_key(p) && old(self)@[p] is Directory {
                    crate::fs::refused(r, Fault::IsDirectory, p) && final(self)@ == old(self)@
                } else {
                    r is Ok && final(self)@ == old(self)@.insert(p, symlink(target@))
                },
            },
    {
        let p = validate(path)?;
        let up = parent(p.as_slice());
        match self.check_parent(p.as_slice()) {
            Err(_) => return Err(Error::NotDirectory(up)),
            Ok(()) => {},
        }
        match self.entries.get(p.as_slice()) {
            Some(Entry::Directory { .. }) => return Err(Error::IsDirectory(p)),
            _ => {},
        }
        self.put(p, Entry::Symlink { target: bytes::to_vec(target), stat: FileStat::default() });
        Ok(())
    }

    fn set_executable(&mut self, path: &[u8], executable: bool) -> (r: Result<()>)
        ensures
            match path::normalized(path@) {
                None => crate::fs::refused(r, Fault::InvalidPath, path@) && final(self)@ == old(self)@,
                Some(p) => if !old(self)@.contains_key(p) {
                    crate::fs::refused(r, Fault::NotFound, p) && final(self)@ == old(self)@
                } else {
                    match old(self)@[p] {
                        Node::File { data, stat, .. } => r is Ok && final(self)@ == old(self)@.insert(
                            p,
                            Node::File { data, executable, stat },
                        ),
                        _ => crate::fs::refused(r, Fault::InvalidPath, p) && final(self)@ == old(self)@,
                    }
                },
            },
    {
        let p = validate(path)?;
        let (data, stat) = match self.entries.get(p.as_slice()) {
            Some(Entry::File { data, stat, .. }) => (bytes::to_vec(data.as_slice()), *stat),
            Some(_) => return Err(Error::InvalidPath(p)),
            None => return Err(Error::NotFound(p)),
        };
        self.put(p, Entry::File { data, executable, stat });
        Ok(())
    }

    fn rename(&mut self, from: &[u8], to: &[u8]) -> (r: Result<()>)
        ensures
            match (path::normalized(from@), path::normalized(to@)) {
                (None, _) => crate::fs::refused(r, Fault::InvalidPath, from@) && final(self)@ == old(self)@,
                (Some(_), None) => crate::fs::refused(r, Fault::InvalidPath, to@) && final(self)@
                    == old(self)@,
                (Some(f), Some(t)) => match renamed(old(self)@, f, t) {
                    Err((fault, at)) => crate::fs::refused(r, fault, at) && final(self)@ == old(self)@,
                    Ok(tree) => r is Ok && final(self)@ == tree,
                },
            },
    {
        let f = validate(from)?;
        let t = validate(to)?;
        let up = parent(t.as_slice());
        let is_directory = match self.entries.get(f.as_slice()) {
            None => return Err(Error::NotFound(f)),
            Some(Entry::Directory { .. }) => true,
            Some(_) => false,
        };
        if is_directory {
            return self.rename_directory(f.as_slice(), t);
        }
        match self.take(f.as_slice()) {
            None => Err(Error::NotFound(f)),
            Some(entry) => match self.check_parent(t.as_slice()) {
                Err(_) => {
                    self.put(f, entry);
                    assert(self@ =~= old(self)@);
                    Err(Error::NotDirectory(up))
                },
                Ok(()) => {
                    self.put(t, entry);
                    Ok(())
                },
            },
        }
    }

    fn remove_file(&mut self, path: &[u8]) -> (r: Result<()>)
        ensures
            match path::normalized(path@) {
                None => crate::fs::refused(r, Fault::InvalidPath, path@) && final(self)@ == old(self)@,
                Some(p) => if !old(self)@.contains_key(p) {
                    crate::fs::refused(r, Fault::NotFound, p) && final(self)@ == old(self)@
                } else if old(self)@[p] is Directory {
                    crate::fs::refused(r, Fault::IsDirectory, p) && final(self)@ == old(self)@
                } else {
                    r is Ok && final(self)@ == old(self)@.remove(p)
                },
            },
    {
        let p = validate(path)?;
        match self.entries.get(p.as_slice()) {
            None => return Err(Error::NotFound(p)),
            Some(Entry::Directory { .. }) => return Err(Error::IsDirectory(p)),
            Some(_) => {},
        }
        self.take(p.as_slice());
        Ok(())
    }

    fn remove_dir(&mut self, path: &[u8]) -> (r: Result<()>)
        ensures
            match path::normalized(path@) {
                None => crate::fs::refused(r, Fault::InvalidPath, path@) && final(self)@ == old(self)@,
                Some(p) => if !old(self)@.contains_key(p) {
                    crate::fs::refused(r, Fault::NotFound, p) && final(self)@ == old(self)@
                } else if !(old(self)@[p] is Directory) {
                    crate::fs::refused(r, Fault::NotDirectory, p) && final(self)@ == old(self)@
                } else if exists|q: Seq<u8>| is_child(old(self)@, p, q) {
                    crate::fs::refused(r, Fault::DirectoryNotEmpty, p) && final(self)@ == old(self)@
                } else {
                    r is Ok && final(self)@ == old(self)@.remove(p)
                },
            },
    {
        let p = validate(path)?;
        match self.entries.get(p.as_slice()) {
            None => return Err(Error::NotFound(p)),
            Some(Entry::Directory { .. }) => {},
            Some(_) => return Err(Error::NotDirectory(p)),
        }
        if self.has_children(p.as_slice()) {
            return Err(Error::DirectoryNotEmpty(p));
        }
        self.take(p.as_slice());
        Ok(())
    }

    fn metadata(&self, path: &[u8]) -> (r: Result<Metadata>)
        ensures
            match path::normalized(path@) {
                None => crate::fs::refused(r, Fault::InvalidPath, path@),
                Some(p) => if !self@.contains_key(p) {
                    crate::fs::refused(r, Fault::NotFound, p)
                } else {
                    r == Ok::<Metadata, Error>(metadata_of(self@[p]))
                },
            },
    {
        let p = validate(path)?;
        match self.entries.get(p.as_slice()) {
            Some(Entry::File { data, executable, stat }) => Ok(
                Metadata::file(data.len() as u64).with_executable(*executable).with_stat(*stat),
            ),
            Some(Entry::Directory { stat }) => Ok(Metadata::directory().with_stat(*stat)),
            Some(Entry::Symlink { target, stat }) => Ok(
                Metadata::symlink(target.len() as u64).with_stat(*stat),
            ),
            None => Err(Error::NotFound(p)),
        }
    }

    fn read_dir(&self, path: &[u8]) -> (r: Result<Vec<Vec<u8>>>)
        ensures
            match path::normalized(path@) {
                None => crate::fs::refused(r, Fault::InvalidPath, path@),
                Some(p) => if !self@.contains_key(p) {
                    crate::fs::refused(r, Fault::NotFound, p)
                } else if !(self@[p] is Directory) {
                    crate::fs::refused(r, Fault::NotDirectory, p)
                } else {
                    r is Ok && lists_children(self@, p, bytes::deep(r->Ok_0@))
                },
            },
    {
        let p = validate(path)?;
        match self.entries.get(p.as_slice()) {
            None => return Err(Error::NotFound(p)),
            Some(Entry::Directory { .. }) => {},
            Some(_) => return Err(Error::NotDirectory(p)),
        }
        proof {
            path::lemma_normalized_first(path@);
        }
        Ok(self.children(p.as_slice()))
    }

    fn is_present(&self, path: &[u8]) -> (r: Result<bool>)
        ensures
            match path::normalized(path@) {
                None => crate::fs::refused(r, Fault::InvalidPath, path@),
                Some(p) => r == Ok::<bool, Error>(self@.contains_key(p)),
            },
    {
        match self.metadata(path) {
            Ok(_) => Ok(true),
            Err(Error::NotFound(_)) => Ok(false),
            Err(error) => Err(error),
        }
    }
}

} // verus!
