//! A git repository engine whose formats and decisions are proved correct.

mod bytemap;
mod bytes;
mod calendar;
pub mod commit;
pub mod delta;
mod error;
pub mod fetch;
pub mod fetch_laws;
pub mod flat_tree;
pub mod for_each_ref;
pub mod format_patch;
pub mod fs;
pub mod fsck;
pub mod fsck_laws;
pub mod gc;
pub mod grep;
pub mod hash_object;
pub mod history_laws;
mod id_set;
pub mod ignore;
pub mod index;
pub mod index_pack;
pub mod linked_worktree;
pub mod listing_laws;
pub mod log;
pub mod ls_files;
pub mod ls_remote;
pub mod ls_tree;
mod mail;
pub mod mailmap;
pub mod maintenance;
pub mod merge;
pub mod merge_file;
pub mod merge_laws;
pub mod mktree;
pub mod multi_pack_index;
pub mod multi_pack_write;
pub mod name_rev;
pub mod name_rev_laws;
pub mod notes;
pub mod notes_laws;
pub mod object;
pub mod operations;
mod order;
pub mod pack;
pub mod pack_refs;
pub mod packed_refs;
pub mod protocol;
mod refname;
pub mod repository;
pub mod sha1;
pub mod staging;
pub mod storage;
pub mod tree;
pub mod tree_laws;
pub mod tree_merge_laws;
pub mod worktree_laws;
mod worktree_path;
pub mod write_tree;
mod zlib;

pub use commit::{AnnotatedTag, Commit, Signature};
pub use error::{Error, Result};
pub use fetch::{
    CloneOptions, ClonePlan, FetchOptions, FetchPlan, FetchResult, PreviousValue, RefSpec,
    ReferenceEdit, RemoteAdvertisement, RemoteRef, UploadPackTransport,
};
pub use for_each_ref::{
    Ancestry, ForEachRefEntry, ForEachRefOptions, RefSortField, RefSortKey, ResolvedReference,
};
pub use format_patch::{FormatPatch, FormatPatchNumbering, FormatPatchOptions, PatchSource};
pub use fs::memory::MemoryFileSystem;
pub use fs::overlay::OverlayFileSystem;
pub use fs::{FileStat, FileSystem, FileType, Metadata};
pub use fsck::{FsckOptions, FsckReport, Retention};
pub use gc::{GcOptions, GcReport, GcStage};
pub use grep::{GrepBinaryMode, GrepMatch, GrepOptions, GrepTarget};
pub use hash_object::HashObjectOptions;
pub use ignore::{IgnoreMatcher, IgnoreRule};
pub use index::{Index, IndexEntry, IndexExtension, IndexVersion, StatData};
pub use index_pack::{IncomingPackOptions, IndexPackOptions, IndexPackReport};
pub use linked_worktree::{
    AddWorktreeOptions, AddedWorktree, LinkedWorktreeInfo, MoveWorktreeOptions, MovedWorktree,
    RemoveWorktreeOptions, WorktreeFormat, WorktreePruneEntry, WorktreePruneOptions,
    WorktreePruneReason, WorktreeRepair, WorktreeTarget,
};
pub use log::{DiffChange, LogEntry, LogOptions, LogParentDiff, LogSource, ParentChanges};
pub use ls_files::{LsFilesEntry, LsFilesKind, LsFilesOptions};
pub use ls_remote::{LsRemoteEntry, LsRemoteOptions, LsRemoteResult, LsRemoteSelection};
pub use ls_tree::{LsTreeEntry, LsTreeOptions};
pub use mailmap::{BlobRevision, Mailmap, MailmapOptions};
pub use maintenance::{
    MaintenanceOptions, MaintenanceOutcome, MaintenanceReport, MaintenanceTask,
};
pub use merge::{
    AbortPlan, FastForwardMode, MergeFacts, MergeOptions, MergeResult, MergeStep,
    MergeTreeConflict, MergeTreeOptions, MergeTreeResult, MergeTreeStage, ReplayKind,
    ReplayOptions, ReplayPlan, ReplayResult, TextQuestion,
};
pub use merge_file::{MergeFileFavor, MergeFileOptions, MergeFileResult, MergeFileStyle};
pub use mktree::MkTreeOptions;
pub use multi_pack_index::{MultiPackIndex, MultiPackIndexEntry};
pub use multi_pack_write::{MultiPackIndexOptions, MultiPackIndexReport};
pub use name_rev::{NameRevEntry, NameRevOptions};
pub use notes::{Note, NotesEdit, NotesOptions, DEFAULT_NOTES_REF};
pub use object::{Object, ObjectId, ObjectKind};
pub use operations::{
    Head, HeadLog, HeadMove, ResetMode, ResetOptions, ResetPlan, SwitchOptions, SwitchPlan,
};
pub use pack::{PackBundle, PackIndex, PackIndexEntry, PackOptions, WrittenPack};
pub use pack_refs::{PackRefsOptions, PackRefsResult};
pub use protocol::{Capability, PktLine, PktLineDecoder, Sideband};
pub use repository::Repository;
pub use tree::{EntryMode, Tree, TreeEntry};
