//! Merging one file or blob in three versions.

use vstd::prelude::*;

use crate::bytes;
use crate::fs;
use crate::fs::memory;
use crate::fs::Refusal;
use crate::grep;
use crate::object;
use crate::object::{ObjectId, ObjectKind};
use crate::repository::Repository;
use crate::storage;
use crate::{Error, Result};

verus! {

/// How conflicts are shown.
#[derive(Clone, Copy, Debug, PartialEq, Eq, Structural)]
pub enum MergeFileStyle {
    Merge,
    Diff3,
    ZDiff3,
}

impl Default for MergeFileStyle {
    fn default() -> (r: Self)
        ensures
            r is Merge,
    {
        MergeFileStyle::Merge
    }
}

/// Which side a conflict is decided for.
#[derive(Clone, Copy, Debug, PartialEq, Eq, Structural)]
pub enum MergeFileFavor {
    Normal,
    Ours,
    Theirs,
    Union,
}

impl Default for MergeFileFavor {
    fn default() -> (r: Self)
        ensures
            r is Normal,
    {
        MergeFileFavor::Normal
    }
}

/// Labels, presentation and limits of a merge.
#[derive(Debug, PartialEq, Eq)]
pub struct MergeFileOptions {
    pub current_label: Vec<u8>,
    pub base_label: Vec<u8>,
    pub other_label: Vec<u8>,
    pub style: MergeFileStyle,
    pub favor: MergeFileFavor,
    pub marker_size: usize,
    pub max_input_size: usize,
    pub max_output_size: usize,
    pub max_lines: usize,
    pub max_trace_cells: usize,
    /// Store what a merge of blobs gives.
    pub write_object: bool,
}

impl Default for MergeFileOptions {
    fn default() -> (r: Self)
        ensures
            r.current_label@ == bytes::utf8("current"@),
            r.base_label@ == bytes::utf8("base"@),
            r.other_label@ == bytes::utf8("other"@),
            r.style is Merge,
            r.favor is Normal,
            r.marker_size == 7,
            r.max_input_size == 1024 * 1024 * 1024,
            r.max_output_size == (if usize::MAX < 4 * 1024 * 1024 * 1024 {
                usize::MAX as int
            } else {
                4 * 1024 * 1024 * 1024int
            }),
            r.max_lines == 10_000_000,
            r.max_trace_cells == 100_000_000,
            !r.write_object,
    {
        let size: u64 = 4 * 1024 * 1024 * 1024;
        let max_output_size: usize = if size > usize::MAX as u64 {
            usize::MAX
        } else {
            size as usize
        };
        MergeFileOptions {
            current_label: bytes::to_vec("current".as_bytes()),
            base_label: bytes::to_vec("base".as_bytes()),
            other_label: bytes::to_vec("other".as_bytes()),
            style: MergeFileStyle::Merge,
            favor: MergeFileFavor::Normal,
            marker_size: 7,
            max_input_size: 1024 * 1024 * 1024,
            max_output_size,
            max_lines: 10_000_000,
            max_trace_cells: 100_000_000,
            write_object: false,
        }
    }
}

/// Merged bytes, the number of conflicts, and the blob where it was stored.
#[derive(Debug, PartialEq, Eq)]
pub struct MergeFileResult {
    data: Vec<u8>,
    conflicts: usize,
    object_id: Option<ObjectId>,
}

/// What a result says.
#[verifier::ext_equal]
pub struct MergedFile {
    pub data: Seq<u8>,
    pub conflicts: nat,
    pub object_id: Option<Seq<u8>>,
}

impl View for MergeFileResult {
    type V = MergedFile;

    closed spec fn view(&self) -> MergedFile {
        MergedFile {
            data: self.data@,
            conflicts: self.conflicts as nat,
            object_id: match self.object_id {
                Some(id) => Some(id@),
                None => None,
            },
        }
    }
}

impl MergeFileResult {
    pub fn data(&self) -> (r: &[u8])
        ensures
            r@ == self@.data,
    {
        self.data.as_slice()
    }

    pub fn conflicts(&self) -> (r: usize)
        ensures
            r == self@.conflicts,
    {
        self.conflicts
    }

    pub fn has_conflicts(&self) -> (r: bool)
        ensures
            r == (self@.conflicts != 0),
    {
        self.conflicts != 0
    }

    pub fn object_id(&self) -> (r: Option<ObjectId>)
        ensures
            match self@.object_id {
                Some(id) => r is Some && r->0@ == id,
                None => r is None,
            },
    {
        self.object_id
    }
}

/// Why inputs cannot be merged.
pub open spec fn inputs_fault(
    current: Seq<u8>,
    base: Seq<u8>,
    other: Seq<u8>,
    options: MergeFileOptions,
) -> Option<Error> {
    let limit = options.max_output_size;
    let size = options.max_input_size;
    if options.marker_size == 0 {
        Some(Error::InvalidRepository("merge-file marker size is zero"))
    } else if options.marker_size > limit || options.current_label@.len() > limit
        || options.base_label@.len() > limit || options.other_label@.len() > limit {
        Some(Error::InvalidRepository("merge-file marker or label exceeds output limit"))
    } else if current.len() > size || base.len() > size || other.len() > size {
        Some(Error::InvalidRepository("merge-file input exceeds size limit"))
    } else if grep::is_binary(current) || grep::is_binary(base) || grep::is_binary(other) {
        Some(Error::InvalidRepository("cannot merge binary files"))
    } else {
        None
    }
}

/// Refuses inputs that cannot be merged.
pub fn validate_inputs(current: &[u8], base: &[u8], other: &[u8], options: &MergeFileOptions) -> (r:
    Result<()>)
    ensures
        match inputs_fault(current@, base@, other@, *options) {
            None => r is Ok,
            Some(error) => r is Err && r->Err_0 == error,
        },
{
    let limit: usize = options.max_output_size;
    let size: usize = options.max_input_size;
    if options.marker_size == 0 {
        return Err(Error::InvalidRepository("merge-file marker size is zero"));
    }
    if options.marker_size > limit || options.current_label.len() > limit
        || options.base_label.len() > limit || options.other_label.len() > limit {
        return Err(Error::InvalidRepository("merge-file marker or label exceeds output limit"));
    }
    if current.len() > size || base.len() > size || other.len() > size {
        return Err(Error::InvalidRepository("merge-file input exceeds size limit"));
    }
    if grep::looks_binary(current) || grep::looks_binary(base) || grep::looks_binary(other) {
        return Err(Error::InvalidRepository("cannot merge binary files"));
    }
    Ok(())
}

/// Checks the inputs of a merge and frames what merging their lines gave:
/// the bytes, and the number of conflicts that they show.
pub fn merge_file(
    current: &[u8],
    base: &[u8],
    other: &[u8],
    merged: Vec<u8>,
    conflicts: usize,
    options: &MergeFileOptions,
) -> (r: Result<MergeFileResult>)
    ensures
        match inputs_fault(current@, base@, other@, *options) {
            None => if merged@.len() > options.max_output_size {
                r is Err && r->Err_0 == Error::InvalidRepository("merge-file output exceeds limit")
            } else {
                r is Ok && r->Ok_0@ == (MergedFile {
                    data: merged@,
                    conflicts: conflicts as nat,
                    object_id: None,
                })
            },
            Some(error) => r is Err && r->Err_0 == error,
        },
{
    validate_inputs(current, base, other, options)?;
    if merged.len() > options.max_output_size {
        return Err(Error::InvalidRepository("merge-file output exceeds limit"));
    }
    Ok(MergeFileResult { data: merged, conflicts, object_id: None })
}

/// The bytes of a blob to merge.
pub open spec fn blob_at(files: memory::Tree, git: Seq<u8>, id: Seq<u8>, limit: nat) -> core::result::Result<
    Seq<u8>,
    Refusal,
> {
    match storage::stored_object(files, git, id, limit) {
        Err(refusal) => Err(refusal),
        Ok((kind, data)) => if kind is Blob {
            Ok(data)
        } else {
            Err(Refusal::Said(Error::InvalidObject("merge-file object is not a blob")))
        },
    }
}

/// The bytes of three blobs that can be merged.
pub open spec fn three_blobs(
    files: memory::Tree,
    git: Seq<u8>,
    current: Seq<u8>,
    base: Seq<u8>,
    other: Seq<u8>,
    options: MergeFileOptions,
) -> core::result::Result<(Seq<u8>, Seq<u8>, Seq<u8>), Refusal> {
    let limit = options.max_input_size as nat;
    match blob_at(files, git, current, limit) {
        Err(refusal) => Err(refusal),
        Ok(a) => match blob_at(files, git, base, limit) {
            Err(refusal) => Err(refusal),
            Ok(b) => match blob_at(files, git, other, limit) {
                Err(refusal) => Err(refusal),
                Ok(c) => match inputs_fault(a, b, c, options) {
                    Some(error) => Err(Refusal::Said(error)),
                    None => Ok((a, b, c)),
                },
            },
        },
    }
}

impl Repository {
    fn read_merge_blob(&self, id: ObjectId, max_size: usize) -> (r: Result<Vec<u8>>)
        ensures
            match blob_at(self.tree(), self.git(), id@, max_size as nat) {
                Ok(data) => r is Ok && r->Ok_0@ == data,
                Err(refusal) => fs::declined(r, refusal),
            },
    {
        let object = self.read_object_raw(id, max_size)?;
        match object.kind() {
            ObjectKind::Blob => Ok(object.into_data()),
            _ => Err(Error::InvalidObject("merge-file object is not a blob")),
        }
    }

    /// Read the three blobs of a merge.
    pub fn read_merge_blobs(
        &self,
        current: ObjectId,
        base: ObjectId,
        other: ObjectId,
        options: &MergeFileOptions,
    ) -> (r: Result<(Vec<u8>, Vec<u8>, Vec<u8>)>)
        ensures
            match three_blobs(
                self.tree(),
                self.git(),
                current@,
                base@,
                other@,
                *options,
            ) {
                Ok((a, b, c)) => r is Ok && r->Ok_0.0@ == a && r->Ok_0.1@ == b && r->Ok_0.2@ == c,
                Err(refusal) => fs::declined(r, refusal),
            },
    {
        let a = self.read_merge_blob(current, options.max_input_size)?;
        let b = self.read_merge_blob(base, options.max_input_size)?;
        let c = self.read_merge_blob(other, options.max_input_size)?;
        validate_inputs(a.as_slice(), b.as_slice(), c.as_slice(), options)?;
        Ok((a, b, c))
    }

    /// Finish a merge of blobs: what merging the lines of `read_merge_blobs`
    /// gave is stored where asked.
    pub fn merge_blobs(&mut self, merged: MergeFileResult, options: &MergeFileOptions) -> (r: Result<
        MergeFileResult,
    >)
        ensures
            final(self).git() == old(self).git(),
            final(self).work() == old(self).work(),
            ({
                let (after, refusal) = storage::put_object(
                    old(self).tree(),
                    old(self).git(),
                    ObjectKind::Blob,
                    merged@.data,
                );
                if options.write_object {
                    &&& final(self).tree() == after
                    &&& match refusal {
                        Some(refusal) => fs::declined(r, refusal),
                        None => r is Ok && r->Ok_0@ == (MergedFile {
                            object_id: Some(
                                object::object_id(ObjectKind::Blob, merged@.data),
                            ),
                            ..merged@
                        }),
                    }
                } else {
                    final(self).tree() == old(self).tree() && r is Ok && r->Ok_0 == merged
                }
            }),
    {
        if !options.write_object {
            return Ok(merged);
        }
        let id = self.write_object(ObjectKind::Blob, merged.data.as_slice())?;
        Ok(
            MergeFileResult {
                data: merged.data,
                conflicts: merged.conflicts,
                object_id: Some(id),
            },
        )
    }
}

} // verus!
