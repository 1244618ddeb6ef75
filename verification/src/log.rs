//! Bounded logs of the full history.

use vstd::prelude::*;

use crate::bytes;
use crate::commit::{Commit, CommitModel};
use crate::fs;
use crate::fs::Fault;
use crate::ls_tree;
use crate::object::ObjectId;
use crate::repository::Repository;
use crate::{Error, Result};

verus! {

/// What a log selects and shows.
pub struct LogOptions {
    /// How many commits a log shows at most.
    pub max_count: Option<usize>,
    /// Literal prefixes of files or directories; none selects every commit.
    pub paths: Vec<Vec<u8>>,
    pub show_patch: bool,
    /// Shows the patch of a merge against every parent.
    pub diff_merges: bool,
    pub max_patch_bytes: usize,
}

impl Default for LogOptions {
    fn default() -> (r: Self)
        ensures
            r.max_count is None,
            r.paths@.len() == 0,
            !r.show_patch && !r.diff_merges,
            r.max_patch_bytes == 1024 * 1024 * 1024,
    {
        LogOptions {
            max_count: None,
            paths: Vec::new(),
            show_patch: false,
            diff_merges: false,
            max_patch_bytes: 1024 * 1024 * 1024,
        }
    }
}

/// A change of a file and its patch.
#[derive(Debug, PartialEq, Eq)]
pub struct DiffChange {
    pub old_path: Option<Vec<u8>>,
    pub new_path: Option<Vec<u8>>,
    pub patch: Vec<u8>,
}

/// What a change says.
#[verifier::ext_equal]
pub struct ChangeModel {
    pub old_path: Option<Seq<u8>>,
    pub new_path: Option<Seq<u8>>,
    pub patch: Seq<u8>,
}

pub open spec fn optional(text: Option<Vec<u8>>) -> Option<Seq<u8>> {
    match text {
        Some(text) => Some(text@),
        None => None,
    }
}

impl View for DiffChange {
    type V = ChangeModel;

    open spec fn view(&self) -> ChangeModel {
        ChangeModel {
            old_path: optional(self.old_path),
            new_path: optional(self.new_path),
            patch: self.patch@,
        }
    }
}

pub open spec fn change_models(list: Seq<DiffChange>) -> Seq<ChangeModel> {
    Seq::new(list.len(), |i: int| list[i]@)
}

/// The changes of a commit from one parent, or from the empty tree.
pub struct ParentChanges {
    pub parent: Option<ObjectId>,
    pub changes: Vec<DiffChange>,
}

/// A walked commit and its changes from each parent.
pub struct LogSource {
    pub id: ObjectId,
    pub commit: Commit,
    pub diffs: Vec<ParentChanges>,
}

/// The selected changes from one parent to a logged commit.
#[derive(Debug, PartialEq, Eq)]
pub struct LogParentDiff {
    parent: Option<ObjectId>,
    changes: Vec<DiffChange>,
    patch: Vec<u8>,
}

/// What the changes from one parent say.
#[verifier::ext_equal]
pub struct ParentModel {
    pub parent: Option<ObjectId>,
    pub changes: Seq<ChangeModel>,
    pub patch: Seq<u8>,
}

impl View for LogParentDiff {
    type V = ParentModel;

    closed spec fn view(&self) -> ParentModel {
        ParentModel {
            parent: self.parent,
            changes: change_models(self.changes@),
            patch: self.patch@,
        }
    }
}

pub open spec fn parent_models(list: Seq<LogParentDiff>) -> Seq<ParentModel> {
    Seq::new(list.len(), |i: int| list[i]@)
}

impl LogParentDiff {
    pub fn parent(&self) -> (r: Option<ObjectId>)
        ensures
            r == self@.parent,
    {
        self.parent
    }

    pub fn changes(&self) -> (r: &[DiffChange])
        ensures
            change_models(r@) == self@.changes,
    {
        self.changes.as_slice()
    }

    pub fn patch(&self) -> (r: &[u8])
        ensures
            r@ == self@.patch,
    {
        self.patch.as_slice()
    }
}

/// One commit of a log.
#[derive(Debug, PartialEq, Eq)]
pub struct LogEntry {
    id: ObjectId,
    commit: Commit,
    parent_diffs: Vec<LogParentDiff>,
}

/// What a commit of a log says.
#[verifier::ext_equal]
pub struct EntryModel {
    pub id: Seq<u8>,
    pub commit: CommitModel,
    pub parent_diffs: Seq<ParentModel>,
}

impl View for LogEntry {
    type V = EntryModel;

    closed spec fn view(&self) -> EntryModel {
        EntryModel {
            id: self.id@,
            commit: self.commit@,
            parent_diffs: parent_models(self.parent_diffs@),
        }
    }
}

pub open spec fn models(list: Seq<LogEntry>) -> Seq<EntryModel> {
    Seq::new(list.len(), |i: int| list[i]@)
}

impl LogEntry {
    pub fn id(&self) -> (r: ObjectId)
        ensures
            r@ == self@.id,
    {
        self.id
    }

    pub fn commit(&self) -> (r: &Commit)
        ensures
            r@ == self@.commit,
    {
        &self.commit
    }

    pub fn parent_diffs(&self) -> (r: &[LogParentDiff])
        ensures
            parent_models(r@) == self@.parent_diffs,
    {
        self.parent_diffs.as_slice()
    }
}

// ---------------------------------------------------------------------------
// Selection

/// Whether a path of a change is selected.
pub open spec fn touches(change: ChangeModel, paths: Seq<Seq<u8>>) -> bool {
    ||| paths.len() == 0
    ||| change.old_path is Some && ls_tree::selected(change.old_path->0, paths)
    ||| change.new_path is Some && ls_tree::selected(change.new_path->0, paths)
}

/// The selected ones of the first `n` changes.
pub open spec fn touching(list: Seq<ChangeModel>, paths: Seq<Seq<u8>>, n: int) -> Seq<ChangeModel>
    decreases n,
{
    if n <= 0 {
        Seq::empty()
    } else if touches(list[n - 1], paths) {
        touching(list, paths, n - 1).push(list[n - 1])
    } else {
        touching(list, paths, n - 1)
    }
}

/// The selected changes from a parent.
pub open spec fn changes_of(diff: ParentChanges, paths: Seq<Seq<u8>>) -> Seq<ChangeModel> {
    let list = change_models(diff.changes@);
    touching(list, paths, list.len() as int)
}

/// Whether a commit is shown: a selected path differs from some parent.
pub open spec fn is_shown(source: LogSource, paths: Seq<Seq<u8>>) -> bool {
    paths.len() == 0 || exists|i: int|
        0 <= i < source.diffs@.len() && changes_of(#[trigger] source.diffs@[i], paths).len() > 0
}

/// The first `n` patches of some changes, one behind the other, and how many
/// bytes of patches there are then.
pub open spec fn patched(list: Seq<ChangeModel>, size: nat, max: usize, n: int) -> core::result::Result<
    (Seq<u8>, nat),
    Error,
>
    decreases n,
{
    if n <= 0 {
        Ok((Seq::empty(), size))
    } else {
        match patched(list, size, max, n - 1) {
            Err(error) => Err(error),
            Ok((text, before)) => {
                let total = before + list[n - 1].patch.len();
                if total > usize::MAX {
                    Err(Error::InvalidRepository("log patch size overflow"))
                } else if total > max {
                    Err(Error::InvalidRepository("log patches exceed their limit"))
                } else {
                    Ok((text + list[n - 1].patch, total))
                }
            },
        }
    }
}

/// What the first `n` parents of a commit show.
pub open spec fn parents_shown(source: LogSource, options: LogOptions, size: nat, n: int) -> core::result::Result<
    (Seq<ParentModel>, nat),
    Error,
>
    decreases n,
{
    if n <= 0 {
        Ok((Seq::empty(), size))
    } else {
        match parents_shown(source, options, size, n - 1) {
            Err(error) => Err(error),
            Ok((list, before)) => {
                let diff = source.diffs@[n - 1];
                let changes = changes_of(diff, bytes::deep(options.paths@));
                let rendered = options.show_patch && (source.commit@.parents.len() <= 1
                    || options.diff_merges);
                match (if rendered {
                    patched(changes, before, options.max_patch_bytes, changes.len() as int)
                } else {
                    Ok((Seq::empty(), before))
                }) {
                    Err(error) => Err(error),
                    Ok((patch, total)) => Ok(
                        (list.push(ParentModel { parent: diff.parent, changes, patch }), total),
                    ),
                }
            },
        }
    }
}

/// Whether a log looks at changes.
pub open spec fn needs_diffs(options: LogOptions) -> bool {
    options.paths@.len() > 0 || options.show_patch
}

/// The log of the first `n` commits and the bytes of its patches.
pub open spec fn logged(list: Seq<LogSource>, options: LogOptions, n: int) -> core::result::Result<
    (Seq<EntryModel>, nat),
    Error,
>
    decreases n,
{
    if n <= 0 {
        Ok((Seq::empty(), 0))
    } else {
        match logged(list, options, n - 1) {
            Err(error) => Err(error),
            Ok((entries, size)) => {
                let source = list[n - 1];
                if options.max_count is Some && entries.len() >= options.max_count->0 {
                    Ok((entries, size))
                } else if !is_shown(source, bytes::deep(options.paths@)) {
                    Ok((entries, size))
                } else if !needs_diffs(options) {
                    Ok(
                        (
                            entries.push(
                                EntryModel {
                                    id: source.id@,
                                    commit: source.commit@,
                                    parent_diffs: Seq::empty(),
                                },
                            ),
                            size,
                        ),
                    )
                } else {
                    match parents_shown(source, options, size, source.diffs@.len() as int) {
                        Err(error) => Err(error),
                        Ok((parent_diffs, total)) => Ok(
                            (
                                entries.push(
                                    EntryModel {
                                        id: source.id@,
                                        commit: source.commit@,
                                        parent_diffs,
                                    },
                                ),
                                total,
                            ),
                        ),
                    }
                }
            },
        }
    }
}

fn change_touches(change: &DiffChange, paths: &[Vec<u8>]) -> (r: bool)
    ensures
        r == touches(change@, bytes::deep(paths@)),
{
    if paths.len() == 0 {
        return true;
    }
    match &change.old_path {
        Some(path) => {
            if ls_tree::path_selected(path.as_slice(), paths) {
                return true;
            }
        },
        None => {},
    }
    match &change.new_path {
        Some(path) => ls_tree::path_selected(path.as_slice(), paths),
        None => false,
    }
}

fn copy_text(text: &Option<Vec<u8>>) -> (r: Option<Vec<u8>>)
    ensures
        optional(r) == optional(*text),
{
    match text {
        Some(text) => Some(bytes::to_vec(text.as_slice())),
        None => None,
    }
}

fn selected_changes(diff: &ParentChanges, paths: &[Vec<u8>]) -> (r: Vec<DiffChange>)
    ensures
        change_models(r@) == changes_of(*diff, bytes::deep(paths@)),
{
    let ghost list = change_models(diff.changes@);
    let ghost wanted = bytes::deep(paths@);
    let mut out: Vec<DiffChange> = Vec::new();
    let mut i: usize = 0;
    assert(change_models(out@) =~= Seq::empty());
    while i < diff.changes.len()
        invariant
            i <= diff.changes@.len(),
            list == change_models(diff.changes@),
            wanted == bytes::deep(paths@),
            change_models(out@) == touching(list, wanted, i as int),
        decreases diff.changes@.len() - i,
    {
        let change = &diff.changes[i];
        assert(list[i as int] == change@);
        if change_touches(change, paths) {
            let ghost before = out@;
            out.push(
                DiffChange {
                    old_path: copy_text(&change.old_path),
                    new_path: copy_text(&change.new_path),
                    patch: bytes::to_vec(change.patch.as_slice()),
                },
            );
            assert(change_models(out@) =~= change_models(before).push(change@));
        }
        i += 1;
    }
    out
}

fn source_shown(source: &LogSource, paths: &[Vec<u8>]) -> (r: bool)
    ensures
        r == is_shown(*source, bytes::deep(paths@)),
{
    if paths.len() == 0 {
        return true;
    }
    let mut i: usize = 0;
    while i < source.diffs.len()
        invariant
            i <= source.diffs@.len(),
            bytes::deep(paths@).len() > 0,
            forall|j: int|
                0 <= j < i ==> changes_of(
                    #[trigger] source.diffs@[j],
                    bytes::deep(paths@),
                ).len() == 0,
        decreases source.diffs@.len() - i,
    {
        let found = selected_changes(&source.diffs[i], paths);
        assert(change_models(found@).len() == found@.len());
        if found.len() > 0 {
            return true;
        }
        i += 1;
    }
    false
}

proof fn lemma_patched_persists(list: Seq<ChangeModel>, size: nat, max: usize, n: int, m: int)
    requires
        0 <= n <= m,
        patched(list, size, max, n) is Err,
    ensures
        patched(list, size, max, m) == patched(list, size, max, n),
    decreases m - n,
{
    if n < m {
        lemma_patched_persists(list, size, max, n, m - 1);
    }
}

fn join_patches(changes: &Vec<DiffChange>, size: usize, max: usize) -> (r: Result<(Vec<u8>, usize)>)
    ensures
        match patched(
            change_models(changes@),
            size as nat,
            max,
            changes@.len() as int,
        ) {
            Ok((text, total)) => r is Ok && r->Ok_0.0@ == text && r->Ok_0.1 == total,
            Err(error) => r is Err && r->Err_0 == error,
        },
{
    let ghost list = change_models(changes@);
    let mut out: Vec<u8> = Vec::new();
    let mut total: usize = size;
    let mut i: usize = 0;
    assert(out@ =~= Seq::empty());
    while i < changes.len()
        invariant
            i <= changes@.len(),
            list == change_models(changes@),
            patched(list, size as nat, max, i as int) == Ok::<(Seq<u8>, nat), Error>(
                (out@, total as nat),
            ),
        decreases changes@.len() - i,
    {
        proof {
            if patched(list, size as nat, max, i + 1) is Err {
                lemma_patched_persists(list, size as nat, max, i + 1, list.len() as int);
            }
        }
        let patch = changes[i].patch.as_slice();
        assert(list[i as int].patch == patch@);
        match total.checked_add(patch.len()) {
            None => return Err(Error::InvalidRepository("log patch size overflow")),
            Some(next) => {
                if next > max {
                    return Err(Error::InvalidRepository("log patches exceed their limit"));
                }
                total = next;
            },
        }
        bytes::append(&mut out, patch);
        i += 1;
    }
    Ok((out, total))
}

proof fn lemma_parents_persist(source: LogSource, options: LogOptions, size: nat, n: int, m: int)
    requires
        0 <= n <= m,
        parents_shown(source, options, size, n) is Err,
    ensures
        parents_shown(source, options, size, m) == parents_shown(source, options, size, n),
    decreases m - n,
{
    if n < m {
        lemma_parents_persist(source, options, size, n, m - 1);
    }
}

fn show_parents(source: &LogSource, options: &LogOptions, size: usize) -> (r: Result<
    (Vec<LogParentDiff>, usize),
>)
    ensures
        match parents_shown(*source, *options, size as nat, source.diffs@.len() as int) {
            Ok((list, total)) => r is Ok && parent_models(r->Ok_0.0@) == list && r->Ok_0.1
                == total,
            Err(error) => r is Err && r->Err_0 == error,
        },
{
    let mut out: Vec<LogParentDiff> = Vec::new();
    let mut total: usize = size;
    let parents = source.commit.parents();
    assert(crate::commit::raw_ids(parents@).len() == parents@.len());
    let rendered = options.show_patch && (parents.len() <= 1 || options.diff_merges);
    let mut i: usize = 0;
    assert(parent_models(out@) =~= Seq::empty());
    while i < source.diffs.len()
        invariant
            i <= source.diffs@.len(),
            rendered == (options.show_patch && (source.commit@.parents.len() <= 1
                || options.diff_merges)),
            parents_shown(*source, *options, size as nat, i as int) == Ok::<
                (Seq<ParentModel>, nat),
                Error,
            >((parent_models(out@), total as nat)),
        decreases source.diffs@.len() - i,
    {
        proof {
            if parents_shown(*source, *options, size as nat, i + 1) is Err {
                lemma_parents_persist(
                    *source,
                    *options,
                    size as nat,
                    i + 1,
                    source.diffs@.len() as int,
                );
            }
        }
        let diff = &source.diffs[i];
        let changes = selected_changes(diff, options.paths.as_slice());
        assert(change_models(changes@).len() == changes@.len());
        let mut patch: Vec<u8> = Vec::new();
        assert(patch@ =~= Seq::empty());
        if rendered {
            let (text, next) = join_patches(&changes, total, options.max_patch_bytes)?;
            patch = text;
            total = next;
        }
        let ghost before = out@;
        out.push(LogParentDiff { parent: diff.parent, changes, patch });
        assert(parent_models(out@) =~= parent_models(before).push(out@.last()@));
        i += 1;
    }
    Ok((out, total))
}

proof fn lemma_logged_persists(list: Seq<LogSource>, options: LogOptions, n: int, m: int)
    requires
        0 <= n <= m,
        logged(list, options, n) is Err,
    ensures
        logged(list, options, m) == logged(list, options, n),
    decreases m - n,
{
    if n < m {
        lemma_logged_persists(list, options, n, m - 1);
    }
}

impl Repository {
    /// Makes the log of walked commits. With paths a commit is kept when it
    /// differs from a parent in a selected path.
    pub fn log(&self, revisions: &[LogSource], options: &LogOptions) -> (r: Result<Vec<LogEntry>>)
        ensures
            match ls_tree::first_bad(bytes::deep(options.paths@), options.paths@.len() as int) {
                Some(path) => fs::refused(r, Fault::InvalidPath, path),
                None => match logged(revisions@, *options, revisions@.len() as int) {
                    Ok((entries, _)) => r is Ok && models(r->Ok_0@) == entries,
                    Err(error) => r is Err && r->Err_0 == error,
                },
            },
    {
        ls_tree::validate_paths(options.paths.as_slice())?;
        let ghost list = revisions@;
        let mut out: Vec<LogEntry> = Vec::new();
        let mut total: usize = 0;
        let mut i: usize = 0;
        assert(models(out@) =~= Seq::empty());
        while i < revisions.len()
            invariant
                i <= revisions@.len(),
                list == revisions@,
                ls_tree::first_bad(bytes::deep(options.paths@), options.paths@.len() as int)
                    is None,
                logged(list, *options, i as int) == Ok::<(Seq<EntryModel>, nat), Error>(
                    (models(out@), total as nat),
                ),
            decreases revisions@.len() - i,
        {
            proof {
                if logged(list, *options, i + 1) is Err {
                    lemma_logged_persists(list, *options, i + 1, list.len() as int);
                }
            }
            let source = &revisions[i];
            let full = match options.max_count {
                Some(limit) => out.len() >= limit,
                None => false,
            };
            assert(models(out@).len() == out@.len());
            if !full && source_shown(source, options.paths.as_slice()) {
                let mut parent_diffs: Vec<LogParentDiff> = Vec::new();
                assert(parent_models(parent_diffs@) =~= Seq::empty());
                if options.paths.len() > 0 || options.show_patch {
                    let (diffs, next) = show_parents(source, options, total)?;
                    parent_diffs = diffs;
                    total = next;
                }
                let ghost before = out@;
                out.push(LogEntry { id: source.id, commit: source.commit.copy(), parent_diffs });
                assert(models(out@) =~= models(before).push(out@.last()@));
            }
            i += 1;
        }
        Ok(out)
    }
}

// ---------------------------------------------------------------------------
// Laws

/// Whether a path is another or stands below it.
pub open spec fn is_under(path: Seq<u8>, top: Seq<u8>) -> bool {
    path == top || (path.len() > top.len() && path.take(top.len() as int) == top && path[top.len() as int]
        == 47)
}

/// Whether a change touches one of some paths, before or after it.
pub open spec fn is_wanted(change: ChangeModel, paths: Seq<Seq<u8>>) -> bool {
    paths.len() == 0 || exists|s: int|
        0 <= s < paths.len() && ((change.old_path matches Some(path) && is_under(
            path,
            #[trigger] paths[s],
        )) || (change.new_path matches Some(path) && is_under(path, paths[s])))
}

/// Whether a commit changed one of some paths, as seen from one of its
/// parents; without paths every commit counts.
pub open spec fn counts(source: LogSource, paths: Seq<Seq<u8>>) -> bool {
    paths.len() == 0 || exists|d: int, c: int|
        0 <= d < source.diffs@.len() && 0 <= c < source.diffs@[d].changes@.len() && is_wanted(
            #[trigger] source.diffs@[d].changes@[c]@,
            paths,
        )
}

proof fn lemma_touches(change: ChangeModel, paths: Seq<Seq<u8>>)
    ensures
        touches(change, paths) <==> is_wanted(change, paths),
{
    if paths.len() > 0 {
        assert forall|path: Seq<u8>, s: int| 0 <= s < paths.len() implies ls_tree::wanted(
            path,
            #[trigger] paths[s],
        ) == #[trigger] is_under(path, paths[s]) by {}
        if touches(change, paths) {
            if change.old_path is Some && ls_tree::selected(change.old_path->0, paths) {
                let s = choose|s: int|
                    0 <= s < paths.len() && #[trigger] ls_tree::wanted(
                        change.old_path->0,
                        paths[s],
                    );
                assert(is_under(change.old_path->0, paths[s]));
            } else {
                let s = choose|s: int|
                    0 <= s < paths.len() && #[trigger] ls_tree::wanted(
                        change.new_path->0,
                        paths[s],
                    );
                assert(is_under(change.new_path->0, paths[s]));
            }
        }
        if is_wanted(change, paths) {
            let s = choose|s: int|
                0 <= s < paths.len() && ((change.old_path matches Some(path) && is_under(
                    path,
                    #[trigger] paths[s],
                )) || (change.new_path matches Some(path) && is_under(path, paths[s])));
            if change.old_path is Some && is_under(change.old_path->0, paths[s]) {
                assert(ls_tree::wanted(change.old_path->0, paths[s]));
            } else {
                assert(ls_tree::wanted(change.new_path->0, paths[s]));
            }
        }
    }
}

/// The changes that are shown are those that touch the paths, and no others.
pub proof fn lemma_shown_changes(list: Seq<ChangeModel>, paths: Seq<Seq<u8>>, n: int, x: ChangeModel)
    requires
        0 <= n <= list.len(),
    ensures
        touching(list, paths, n).contains(x) <==> list.take(n).contains(x) && is_wanted(x, paths),
    decreases n,
{
    if n > 0 {
        lemma_shown_changes(list, paths, n - 1, x);
        lemma_touches(list[n - 1], paths);
        lemma_touches(x, paths);
        let less = touching(list, paths, n - 1);
        let more = touching(list, paths, n);
        if less.contains(x) {
            let k = less.index_of(x);
            assert(more[k] == x);
        }
        if more.contains(x) {
            let k = more.index_of(x);
            if k < less.len() {
                assert(less[k] == x);
            }
        }
        if list.take(n).contains(x) {
            let k = list.take(n).index_of(x);
            if k < n - 1 {
                assert(list.take(n - 1)[k] == x);
            } else if is_wanted(x, paths) {
                assert(more[less.len() as int] == x);
            }
        }
        if list.take(n - 1).contains(x) {
            let k = list.take(n - 1).index_of(x);
            assert(list.take(n)[k] == x);
        }
        assert(list.take(n)[n - 1] == list[n - 1]);
    } else {
        assert(!list.take(n).contains(x));
    }
}

proof fn lemma_counts(source: LogSource, paths: Seq<Seq<u8>>)
    ensures
        is_shown(source, paths) <==> counts(source, paths),
{
    if paths.len() > 0 {
        if is_shown(source, paths) {
            let d = choose|d: int|
                0 <= d < source.diffs@.len() && changes_of(#[trigger] source.diffs@[d], paths).len()
                    > 0;
            let list = change_models(source.diffs@[d].changes@);
            let x = changes_of(source.diffs@[d], paths)[0];
            assert(changes_of(source.diffs@[d], paths).contains(x));
            lemma_shown_changes(list, paths, list.len() as int, x);
            let c = list.take(list.len() as int).index_of(x);
            assert(list[c] == x);
            assert(is_wanted(source.diffs@[d].changes@[c]@, paths));
        }
        if counts(source, paths) {
            let (d, c) = choose|d: int, c: int|
                0 <= d < source.diffs@.len() && 0 <= c < source.diffs@[d].changes@.len()
                    && is_wanted(#[trigger] source.diffs@[d].changes@[c]@, paths);
            let list = change_models(source.diffs@[d].changes@);
            let x = list[c];
            assert(list.take(list.len() as int)[c] == x);
            lemma_shown_changes(list, paths, list.len() as int, x);
            assert(changes_of(source.diffs@[d], paths).len() > 0);
        }
    }
}

/// A log shows the walked commits that count, in their order, up to its
/// limit: the places of the commits that it shows ascend, and every commit
/// that counts is shown unless the limit was reached before it.
#[verifier::spinoff_prover]
#[verifier::rlimit(60)]
pub proof fn lemma_log_shows(list: Seq<LogSource>, options: LogOptions, n: int) -> (places: Seq<int>)
    requires
        0 <= n <= list.len(),
        logged(list, options, n) is Ok,
    ensures
        ({
            let entries = (logged(list, options, n)->Ok_0).0;
            let paths = bytes::deep(options.paths@);
            let limit = options.max_count;
            &&& places.len() == entries.len()
            &&& limit matches Some(limit) ==> entries.len() <= limit
            &&& forall|k: int|
                0 <= k < places.len() ==> 0 <= #[trigger] places[k] < n && entries[k].id
                    == list[places[k]].id@ && entries[k].commit == list[places[k]].commit@
                    && counts(list[places[k]], paths)
            &&& forall|k: int, l: int|
                0 <= k < l < places.len() ==> #[trigger] places[k] < #[trigger] places[l]
            &&& forall|i: int|
                0 <= i < n && counts(#[trigger] list[i], paths) ==> places.contains(i) || (
                limit matches Some(limit) && entries.len() == limit && forall|k: int|
                    0 <= k < places.len() ==> #[trigger] places[k] < i)
        }),
    decreases n,
{
    let paths = bytes::deep(options.paths@);
    if n <= 0 {
        Seq::empty()
    } else {
        let before = lemma_log_shows(list, options, n - 1);
        let less = (logged(list, options, n - 1)->Ok_0).0;
        let entries = (logged(list, options, n)->Ok_0).0;
        lemma_counts(list[n - 1], paths);
        if entries.len() > less.len() {
            let after = before.push(n - 1);
            assert forall|i: int|
                0 <= i < n && counts(#[trigger] list[i], paths) implies after.contains(i) || (
            options.max_count matches Some(limit) && entries.len() == limit && forall|k: int|
                0 <= k < after.len() ==> #[trigger] after[k] < i) by {
                if i < n - 1 {
                    assert(before.contains(i));
                    let k = before.index_of(i);
                    assert(after[k] == i);
                } else {
                    assert(after[before.len() as int] == i);
                }
            }
            after
        } else {
            before
        }
    }
}

/// What is shown of a commit are its parents in their order, each with the
/// changes that touch the paths. Patches stand beside them where they are
/// asked for, those of a merge only where they are asked for too.
pub proof fn lemma_parents_are_shown(source: LogSource, options: LogOptions, size: nat, n: int)
    requires
        0 <= n <= source.diffs@.len(),
        parents_shown(source, options, size, n) is Ok,
    ensures
        ({
            let (shown, total) = parents_shown(source, options, size, n)->Ok_0;
            let paths = bytes::deep(options.paths@);
            &&& shown.len() == n
            &&& forall|d: int|
                0 <= d < n ==> {
                    &&& (#[trigger] shown[d]).parent == source.diffs@[d].parent
                    &&& shown[d].changes == changes_of(source.diffs@[d], paths)
                    &&& !options.show_patch || (source.commit@.parents.len() > 1
                        && !options.diff_merges) ==> shown[d].patch.len() == 0
                    &&& options.show_patch && (source.commit@.parents.len() <= 1
                        || options.diff_merges) ==> shown[d].patch == one_behind_another(
                        shown[d].changes,
                        shown[d].changes.len() as int,
                    )
                }
        }),
    decreases n,
{
    if n > 0 {
        lemma_parents_are_shown(source, options, size, n - 1);
        let (less, before) = parents_shown(source, options, size, n - 1)->Ok_0;
        let (shown, _) = parents_shown(source, options, size, n)->Ok_0;
        let changes = changes_of(source.diffs@[n - 1], bytes::deep(options.paths@));
        lemma_patched(changes, before, options.max_patch_bytes, changes.len() as int);
        assert forall|d: int| 0 <= d < n - 1 implies shown[d] == less[d] by {}
    }
}

/// The patches of changes, one behind another.
pub open spec fn one_behind_another(list: Seq<ChangeModel>, n: int) -> Seq<u8>
    decreases n,
{
    if n <= 0 {
        Seq::empty()
    } else {
        one_behind_another(list, n - 1) + list[n - 1].patch
    }
}

proof fn lemma_patched(list: Seq<ChangeModel>, size: nat, max: usize, n: int)
    ensures
        patched(list, size, max, n) matches Ok((text, _)) ==> text == one_behind_another(list, n),
    decreases n,
{
    if n > 0 {
        lemma_patched(list, size, max, n - 1);
    }
}

} // verus!
