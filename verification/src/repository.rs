//! A repository: where its files stand and how they are replaced.

use vstd::prelude::*;

use crate::bytes;
use crate::fs;
use crate::fs::memory;
use crate::fs::memory::MemoryFileSystem;
use crate::fs::path;
use crate::fs::{Fault, FileSystem, Refusal};
use crate::Result;

verus! {

/// A repository whose files stand in a file system.
pub struct Repository {
    files: MemoryFileSystem,
    git_dir: Vec<u8>,
    work_tree: Option<Vec<u8>>,
}

/// A path below a directory; the root is the empty path.
pub open spec fn joined(base: Seq<u8>, relative: Seq<u8>) -> Seq<u8> {
    if base.len() == 0 {
        relative
    } else {
        base.push(47) + relative
    }
}

/// A plain path below a plain directory is plain.
pub proof fn lemma_joined_plain(base: Seq<u8>, relative: Seq<u8>)
    requires
        path::plain(base),
        path::plain(relative),
        relative.len() > 0,
    ensures
        path::plain(joined(base, relative)),
        joined(base, relative).len() > 0,
{
    if base.len() > 0 {
        path::lemma_plain_concat(base, relative);
    }
}

/// Joins a path below a directory.
pub fn join_path(base: &[u8], relative: &[u8]) -> (r: Vec<u8>)
    ensures
        r@ == joined(base@, relative@),
{
    let mut out = bytes::to_vec(base);
    if base.len() > 0 {
        out.push(47);
    }
    bytes::append(&mut out, relative);
    assert(out@ =~= joined(base@, relative@));
    out
}

/// The name of the file that guards the replacement of another.
pub open spec fn lock_of(p: Seq<u8>) -> Seq<u8> {
    p + bytes::utf8(".lock"@)
}

/// What replacing a file makes of a tree, and why it is refused: the
/// directories on the way are made, and a lock that stands is respected.
pub open spec fn replaced(tree: memory::Tree, p: Seq<u8>, data: Seq<u8>) -> (
    memory::Tree,
    Option<Refusal>,
) {
    let up = memory::parent_of(p);
    let (ready, bad) = if up.len() == 0 {
        (tree, None)
    } else {
        memory::with_directories(tree, up, 0)
    };
    match bad {
        Some(at) => (ready, Some(Refusal::At(Fault::NotDirectory, at))),
        None => match memory::parent_fault(ready, p) {
            Some(fault) => (ready, Some(Refusal::At(fault, up))),
            None => if ready.contains_key(lock_of(p)) {
                (ready, Some(Refusal::At(Fault::AlreadyExists, lock_of(p))))
            } else {
                (ready.insert(p, memory::file(data, false)), None)
            },
        },
    }
}

/// The lock of a file stands beside it.
pub proof fn lemma_lock(p: Seq<u8>)
    requires
        path::plain(p),
        p.len() > 0,
    ensures
        path::plain(lock_of(p)),
        memory::parent_of(lock_of(p)) == memory::parent_of(p),
        lock_of(p) != p,
        lock_of(p).len() == p.len() + 5,
{
    let suffix = bytes::utf8(".lock"@);
    reveal_strlit(".lock");
    bytes::lemma_ascii(".lock"@);
    path::lemma_plain_longer(p, suffix);
    memory::lemma_last_slash(p);
    memory::lemma_last_slash(lock_of(p));
    let a = memory::last_slash(p);
    let b = memory::last_slash(lock_of(p));
    if b >= p.len() {
        assert(lock_of(p)[b] == suffix[b - p.len()]);
    }
    if a < b {
        assert(lock_of(p)[b] == p[b]);
    }
    if b < a {
        assert(lock_of(p)[a] == p[a]);
    }
    assert(memory::parent_of(lock_of(p)) =~= memory::parent_of(p));
}

impl Repository {
    /// The tree that the repository's files form.
    pub closed spec fn tree(self) -> memory::Tree {
        self.files@
    }

    /// The directory of the repository's own files.
    pub closed spec fn git(self) -> Seq<u8> {
        self.git_dir@
    }

    /// The directory of the working files; a bare repository has none.
    pub closed spec fn work(self) -> Option<Seq<u8>> {
        match self.work_tree {
            Some(directory) => Some(directory@),
            None => None,
        }
    }

    #[verifier::type_invariant]
    spec fn inv(self) -> bool {
        &&& path::plain(self.git_dir@)
        &&& self.work_tree is Some ==> path::plain(self.work_tree->0@)
    }

    /// The repository whose own files stand in one directory of a file system
    /// and whose working files stand in another.
    pub fn open(files: MemoryFileSystem, git_dir: &[u8], work_tree: Option<&[u8]>) -> (r: Result<
        Self,
    >)
        ensures
            match path::normalized(git_dir@) {
                None => fs::refused(r, Fault::InvalidPath, git_dir@),
                Some(git) => match work_tree {
                    None => r is Ok && r->Ok_0.tree() == files@ && r->Ok_0.git() == git
                        && r->Ok_0.work() is None,
                    Some(directory) => match path::normalized(directory@) {
                        None => fs::refused(r, Fault::InvalidPath, directory@),
                        Some(work) => r is Ok && r->Ok_0.tree() == files@ && r->Ok_0.git() == git
                            && r->Ok_0.work() == Some(work),
                    },
                },
            },
    {
        let git = path::validate(git_dir)?;
        proof {
            path::lemma_normalized_plain(git_dir@);
        }
        match work_tree {
            None => Ok(Repository { files, git_dir: git, work_tree: None }),
            Some(directory) => {
                let work = path::validate(directory)?;
                proof {
                    path::lemma_normalized_plain(directory@);
                }
                Ok(Repository { files, git_dir: git, work_tree: Some(work) })
            },
        }
    }

    pub fn filesystem(&self) -> (r: &MemoryFileSystem)
        ensures
            r@ == self.tree(),
    {
        &self.files
    }

    /// Gives the file system back.
    pub fn into_filesystem(self) -> (r: MemoryFileSystem)
        ensures
            r@ == self.tree(),
    {
        self.files
    }

    pub fn git_dir(&self) -> (r: &[u8])
        ensures
            r@ == self.git(),
            path::plain(self.git()),
    {
        proof {
            use_type_invariant(self);
        }
        self.git_dir.as_slice()
    }

    pub fn work_tree(&self) -> (r: Option<&[u8]>)
        ensures
            match r {
                Some(directory) => self.work() == Some(directory@) && path::plain(directory@),
                None => self.work() is None,
            },
    {
        proof {
            use_type_invariant(self);
        }
        match &self.work_tree {
            Some(directory) => Some(directory.as_slice()),
            None => None,
        }
    }

    /// Where one of the repository's own files stands.
    pub fn git_path(&self, relative: &[u8]) -> (r: Vec<u8>)
        ensures
            r@ == joined(self.git(), relative@),
            path::plain(relative@) && relative@.len() > 0 ==> path::plain(r@) && r@.len() > 0,
    {
        proof {
            use_type_invariant(self);
            if path::plain(relative@) && relative@.len() > 0 {
                lemma_joined_plain(self.git(), relative@);
            }
        }
        join_path(self.git_dir.as_slice(), relative)
    }

    /// Reads one of the repository's own files.
    pub fn read_git_file(&self, relative: &[u8]) -> (r: Result<Vec<u8>>)
        requires
            path::plain(relative@),
            relative@.len() > 0,
        ensures
            match memory::contents(self.tree(), joined(self.git(), relative@)) {
                Ok(data) => r is Ok && r->Ok_0@ == data,
                Err(fault) => fs::refused(r, fault, joined(self.git(), relative@)),
            },
    {
        let at = self.git_path(relative);
        self.files.read(at.as_slice())
    }

    /// Replaces one of the repository's own files as a whole.
    pub fn write_atomic(&mut self, relative: &[u8], data: &[u8]) -> (r: Result<()>)
        requires
            path::plain(relative@),
            relative@.len() > 0,
        ensures
            ({
                let p = joined(old(self).git(), relative@);
                let (tree, refusal) = replaced(old(self).tree(), p, data@);
                &&& final(self).tree() == tree
                &&& final(self).git() == old(self).git()
                &&& final(self).work() == old(self).work()
                &&& match refusal {
                    Some(refusal) => fs::declined(r, refusal),
                    None => r is Ok,
                }
            }),
    {
        let target = self.git_path(relative);
        proof {
            use_type_invariant(&*self);
        }
        let mut files = MemoryFileSystem::new();
        std::mem::swap(&mut files, &mut self.files);
        let r = replace_file(&mut files, target.as_slice(), data);
        self.files = files;
        r
    }

    /// Hands the files to a change and takes them back.
    pub fn swap_files(&mut self, files: MemoryFileSystem) -> (r: MemoryFileSystem)
        ensures
            r@ == old(self).tree(),
            final(self).tree() == files@,
            final(self).git() == old(self).git(),
            final(self).work() == old(self).work(),
    {
        proof {
            use_type_invariant(&*self);
        }
        let mut files = files;
        std::mem::swap(&mut files, &mut self.files);
        files
    }
}

/// Replaces a file as a whole, guarded by a lock file.
pub fn replace_file(files: &mut MemoryFileSystem, target: &[u8], data: &[u8]) -> (r: Result<()>)
    requires
        path::plain(target@),
        target@.len() > 0,
    ensures
        ({
            let (tree, refusal) = replaced(old(files)@, target@, data@);
            &&& final(files)@ == tree
            &&& match refusal {
                Some(refusal) => fs::declined(r, refusal),
                None => r is Ok,
            }
        }),
{
    let up = memory::parent(target);
    proof {
        memory::lemma_parent_plain(target@);
        lemma_lock(target@);
    }
    if up.len() > 0 {
        files.create_dir_all(up.as_slice())?;
    }
    let ghost ready = files@;
    let mut lock = bytes::to_vec(target);
    bytes::append(&mut lock, ".lock".as_bytes());
    files.write_new(lock.as_slice(), data)?;
    let ghost locked = files@;
    assert(locked == ready.insert(
        lock@,
        memory::file(data@, false),
    ));
    match files.rename(lock.as_slice(), target) {
        Ok(()) => {
            assert(files@ =~= ready.insert(
                target@,
                memory::file(data@, false),
            ));
            Ok(())
        },
        Err(error) => {
            let _ = files.remove_file(lock.as_slice());
            Err(error)
        },
    }
}

} // verus!
