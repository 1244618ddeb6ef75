//! Computing the identifiers of objects, and storing them where asked.

use vstd::prelude::*;

use crate::bytes;
use crate::commit;
use crate::commit::{AnnotatedTag, Commit};
use crate::fs;
use crate::fs::memory;
use crate::fs::path;
use crate::fs::{Fault, FileSystem, Refusal};
use crate::ls_files;
use crate::object;
use crate::object::{ObjectId, ObjectKind};
use crate::repository;
use crate::repository::Repository;
use crate::storage;
use crate::tree;
use crate::tree::Tree;
use crate::{Error, Result};

verus! {

/// How objects are hashed, checked and stored.
#[derive(Clone, Debug)]
pub struct HashObjectOptions {
    pub kind: ObjectKind,
    /// Store the object.
    pub write: bool,
    /// Take contents that are not well formed.
    pub literally: bool,
    pub max_input_size: usize,
}

impl Default for HashObjectOptions {
    fn default() -> (r: Self)
        ensures
            r.kind is Blob,
            !r.write && !r.literally,
            r.max_input_size == 512 * 1024 * 1024,
    {
        HashObjectOptions {
            kind: ObjectKind::Blob,
            write: false,
            literally: false,
            max_input_size: 512 * 1024 * 1024,
        }
    }
}

/// Why contents are not those of an object of a kind.
pub open spec fn contents_fault(kind: ObjectKind, data: Seq<u8>) -> Option<Error> {
    match kind {
        ObjectKind::Blob => None,
        ObjectKind::Tree => match tree::items_from(data, 0) {
            Ok(_) => None,
            Err(error) => Some(error),
        },
        ObjectKind::Commit => match commit::commit_from(data) {
            Ok(_) => None,
            Err(error) => Some(error),
        },
        ObjectKind::Tag => match commit::tag_from(data) {
            Ok(_) => None,
            Err(error) => Some(error),
        },
    }
}

/// Why contents are refused.
pub open spec fn input_fault(data: Seq<u8>, options: HashObjectOptions) -> Option<Error> {
    if data.len() > options.max_input_size {
        Some(
            Error::ObjectTooLarge { declared: data.len() as u64, limit: options.max_input_size },
        )
    } else if options.literally {
        None
    } else {
        contents_fault(options.kind, data)
    }
}

/// What hashing makes of the files, and the identifier.
pub open spec fn hashed(
    files: memory::Tree,
    git: Seq<u8>,
    data: Seq<u8>,
    options: HashObjectOptions,
) -> (memory::Tree, core::result::Result<Seq<u8>, Refusal>) {
    let id = object::object_id(options.kind, data);
    match input_fault(data, options) {
        Some(error) => (files, Err(Refusal::Said(error))),
        None => if options.write {
            let (after, refusal) = storage::put_object(files, git, options.kind, data);
            match refusal {
                Some(refusal) => (after, Err(refusal)),
                None => (after, Ok(id)),
            }
        } else {
            (files, Ok(id))
        },
    }
}

/// What hashing a file of the working tree makes of the files, and the
/// identifier.
pub open spec fn path_hashed(
    files: memory::Tree,
    git: Seq<u8>,
    work: Option<Seq<u8>>,
    relative: Seq<u8>,
    options: HashObjectOptions,
) -> (memory::Tree, core::result::Result<Seq<u8>, Refusal>) {
    match path::normalized(relative) {
        None => (files, Err(Refusal::At(Fault::InvalidPath, relative))),
        Some(plain) => match work {
            None => (
                files,
                Err(
                    Refusal::Said(
                        Error::InvalidRepository("hashing paths requires a working tree"),
                    ),
                ),
            ),
            Some(root) => {
                let at = repository::joined(root, plain);
                match ls_files::node_at(files, at) {
                    Err(refusal) => (files, Err(refusal)),
                    Ok(node) => {
                        let declared = memory::metadata_of(node).len;
                        if declared > options.max_input_size {
                            (
                                files,
                                Err(
                                    Refusal::Said(
                                        Error::ObjectTooLarge {
                                            declared,
                                            limit: options.max_input_size,
                                        },
                                    ),
                                ),
                            )
                        } else {
                            match storage::read_at(files, path::normalized(at)->0) {
                                Err(refusal) => (files, Err(refusal)),
                                Ok(data) => hashed(files, git, data, options),
                            }
                        }
                    },
                }
            },
        },
    }
}

/// What hashing the first `n` files makes of the files, and the identifiers.
pub open spec fn paths_hashed(
    files: memory::Tree,
    git: Seq<u8>,
    work: Option<Seq<u8>>,
    paths: Seq<Seq<u8>>,
    options: HashObjectOptions,
    max_paths: nat,
    n: int,
) -> (memory::Tree, core::result::Result<Seq<Seq<u8>>, Refusal>)
    decreases n,
{
    if n <= 0 {
        (files, Ok(Seq::empty()))
    } else {
        let (before, outcome) = paths_hashed(
            files,
            git,
            work,
            paths,
            options,
            max_paths,
            n - 1,
        );
        match outcome {
            Err(refusal) => (before, Err(refusal)),
            Ok(ids) => if ids.len() == max_paths {
                (
                    before,
                    Err(
                        Refusal::Said(Error::Protocol("hash-object path count exceeds limit")),
                    ),
                )
            } else {
                let (after, one) = path_hashed(before, git, work, paths[n - 1], options);
                match one {
                    Err(refusal) => (after, Err(refusal)),
                    Ok(id) => (after, Ok(ids.push(id))),
                }
            },
        }
    }
}

proof fn lemma_paths_persist(
    files: memory::Tree,
    git: Seq<u8>,
    work: Option<Seq<u8>>,
    paths: Seq<Seq<u8>>,
    options: HashObjectOptions,
    max_paths: nat,
    n: int,
    m: int,
)
    requires
        0 <= n <= m,
        paths_hashed(files, git, work, paths, options, max_paths, n).1 is Err,
    ensures
        paths_hashed(files, git, work, paths, options, max_paths, m) == paths_hashed(
            files,
            git,
            work,
            paths,
            options,
            max_paths,
            n,
        ),
    decreases m - n,
{
    if n < m {
        lemma_paths_persist(files, git, work, paths, options, max_paths, n, m - 1);
    }
}

fn validate_contents(kind: ObjectKind, contents: &[u8]) -> (r: Result<()>)
    ensures
        match contents_fault(kind, contents@) {
            None => r is Ok,
            Some(error) => r is Err && r->Err_0 == error,
        },
{
    match kind {
        ObjectKind::Blob => {},
        ObjectKind::Tree => {
            Tree::parse(contents)?;
        },
        ObjectKind::Commit => {
            Commit::parse(contents)?;
        },
        ObjectKind::Tag => {
            AnnotatedTag::parse(contents)?;
        },
    }
    Ok(())
}

impl Repository {
    /// Hash bytes as an object of a kind, and store it where asked.
    pub fn hash_object(&mut self, contents: &[u8], options: &HashObjectOptions) -> (r: Result<
        ObjectId,
    >)
        ensures
            final(self).git() == old(self).git(),
            final(self).work() == old(self).work(),
            ({
                let (after, outcome) = hashed(
                    old(self).tree(),
                    old(self).git(),
                    contents@,
                    *options,
                );
                &&& final(self).tree() == after
                &&& match outcome {
                    Ok(id) => r is Ok && r->Ok_0@ == id,
                    Err(refusal) => fs::declined(r, refusal),
                }
            }),
    {
        if contents.len() > options.max_input_size {
            return Err(
                Error::ObjectTooLarge {
                    declared: contents.len() as u64,
                    limit: options.max_input_size,
                },
            );
        }
        if !options.literally {
            validate_contents(options.kind, contents)?;
        }
        if options.write {
            self.write_object(options.kind, contents)
        } else {
            Ok(ObjectId::compute(options.kind, contents))
        }
    }

    /// Read and hash a file of the working tree.
    pub fn hash_object_path(&mut self, relative: &[u8], options: &HashObjectOptions) -> (r: Result<
        ObjectId,
    >)
        ensures
            final(self).git() == old(self).git(),
            final(self).work() == old(self).work(),
            ({
                let (after, outcome) = path_hashed(
                    old(self).tree(),
                    old(self).git(),
                    old(self).work(),
                    relative@,
                    *options,
                );
                &&& final(self).tree() == after
                &&& match outcome {
                    Ok(id) => r is Ok && r->Ok_0@ == id,
                    Err(refusal) => fs::declined(r, refusal),
                }
            }),
    {
        let plain = path::validate(relative)?;
        let at = match self.work_tree() {
            Some(root) => repository::join_path(root, plain.as_slice()),
            None => {
                return Err(Error::InvalidRepository("hashing paths requires a working tree"));
            },
        };
        let declared: u64 = self.filesystem().metadata(at.as_slice())?.len();
        if declared > options.max_input_size as u64 {
            return Err(Error::ObjectTooLarge { declared, limit: options.max_input_size });
        }
        let contents = self.filesystem().read(at.as_slice())?;
        self.hash_object(contents.as_slice(), options)
    }

    /// Hash files of the working tree in their order, not more than a limit.
    pub fn hash_object_paths(
        &mut self,
        paths: &[Vec<u8>],
        options: &HashObjectOptions,
        max_paths: usize,
    ) -> (r: Result<Vec<ObjectId>>)
        ensures
            final(self).git() == old(self).git(),
            final(self).work() == old(self).work(),
            ({
                let (after, outcome) = paths_hashed(
                    old(self).tree(),
                    old(self).git(),
                    old(self).work(),
                    bytes::deep(paths@),
                    *options,
                    max_paths as nat,
                    paths@.len() as int,
                );
                &&& final(self).tree() == after
                &&& match outcome {
                    Ok(ids) => r is Ok && commit::raw_ids(r->Ok_0@) == ids,
                    Err(refusal) => fs::declined(r, refusal),
                }
            }),
    {
        let ghost all = bytes::deep(paths@);
        let ghost files = self.tree();
        let ghost git = self.git();
        let ghost work = self.work();
        let mut ids: Vec<ObjectId> = Vec::new();
        assert(commit::raw_ids(ids@) =~= Seq::empty());
        let mut i: usize = 0;
        while i < paths.len()
            invariant
                i <= paths@.len(),
                all == bytes::deep(paths@),
                files == old(self).tree(),
                git == old(self).git(),
                work == old(self).work(),
                self.git() == git,
                self.work() == work,
                paths_hashed(files, git, work, all, *options, max_paths as nat, i as int).0
                    == self.tree(),
                paths_hashed(files, git, work, all, *options, max_paths as nat, i as int).1
                    == Ok::<Seq<Seq<u8>>, Refusal>(commit::raw_ids(ids@)),
            decreases paths@.len() - i,
        {
            proof {
                assert(all[i as int] == paths@[i as int]@);
                assert(commit::raw_ids(ids@).len() == ids@.len());
                if paths_hashed(
                    files,
                    git,
                    work,
                    all,
                    *options,
                    max_paths as nat,
                    i + 1,
                ).1 is Err {
                    lemma_paths_persist(
                        files,
                        git,
                        work,
                        all,
                        *options,
                        max_paths as nat,
                        i + 1,
                        paths@.len() as int,
                    );
                }
            }
            if ids.len() == max_paths {
                return Err(Error::Protocol("hash-object path count exceeds limit"));
            }
            let id = self.hash_object_path(paths[i].as_slice(), options)?;
            let ghost before = ids@;
            ids.push(id);
            assert(commit::raw_ids(ids@) =~= commit::raw_ids(before).push(id@));
            i += 1;
        }
        Ok(ids)
    }
}

/// The identifier of an object does not depend on whether it is stored.
pub proof fn lemma_writing_keeps_id(
    files: memory::Tree,
    git: Seq<u8>,
    data: Seq<u8>,
    options: HashObjectOptions,
    other: HashObjectOptions,
)
    requires
        options.kind == other.kind,
        hashed(files, git, data, options).1 is Ok,
        hashed(files, git, data, other).1 is Ok,
    ensures
        hashed(files, git, data, options).1 == hashed(files, git, data, other).1,
{
}

} // verus!
