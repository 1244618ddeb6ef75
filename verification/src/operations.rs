//! Moving the head together with the index and the working tree.
//!
//! What is decided here is carried out in two steps: a plan says which tree to
//! check out and how references change, and the head is written once that is
//! done.

use vstd::prelude::*;

use crate::bytes;
use crate::commit::CommitModel;
use crate::fetch::{EditModel, PreviousValue, ReferenceEdit};
use crate::fs;
use crate::fs::memory;
use crate::fs::path;
use crate::fs::{Fault, Refusal};
use crate::index;
use crate::index::{Index, IndexEntry, StatData};
use crate::ls_tree;
use crate::merge;
use crate::object;
use crate::object::ObjectId;
use crate::refname;
use crate::repository;
use crate::repository::Repository;
use crate::storage;
use crate::tree;
use crate::{Error, Result};

verus! {

/// What a reset changes: the reference alone, the index too, or the working
/// tree as well.
#[derive(Clone, Copy, Debug, PartialEq, Eq, Structural)]
pub enum ResetMode {
    Soft,
    Mixed,
    Hard,
}

pub struct ResetOptions {
    pub mode: ResetMode,
    pub max_object_size: usize,
}

impl Default for ResetOptions {
    fn default() -> (r: Self)
        ensures
            r.mode is Mixed,
            r.max_object_size == 1024 * 1024 * 1024,
    {
        ResetOptions { mode: ResetMode::Mixed, max_object_size: 1024 * 1024 * 1024 }
    }
}

#[derive(Clone, Debug)]
pub struct SwitchOptions {
    pub force: bool,
    pub max_object_size: usize,
}

impl Default for SwitchOptions {
    fn default() -> (r: Self)
        ensures
            !r.force,
            r.max_object_size == 1024 * 1024 * 1024,
    {
        SwitchOptions { force: false, max_object_size: 1024 * 1024 * 1024 }
    }
}

/// Where the head stands: the branch that it names, unless it is detached, and
/// the commit, where there is one.
#[derive(Debug, PartialEq, Eq)]
pub struct Head {
    pub branch: Option<Vec<u8>>,
    pub id: Option<ObjectId>,
}

/// A line for the log of the head.
#[derive(Debug, PartialEq, Eq)]
pub struct HeadLog {
    pub before: ObjectId,
    pub after: ObjectId,
    pub message: Vec<u8>,
}

/// What a line for the log of the head says.
#[verifier::ext_equal]
pub struct HeadLogModel {
    pub before: Seq<u8>,
    pub after: Seq<u8>,
    pub message: Seq<u8>,
}

impl View for HeadLog {
    type V = HeadLogModel;

    open spec fn view(&self) -> HeadLogModel {
        HeadLogModel { before: self.before@, after: self.after@, message: self.message@ }
    }
}

/// How the head moves: the change of the branch that it names, or the new text
/// of a detached head, and the line to log.
#[derive(Debug, PartialEq, Eq)]
pub struct HeadMove {
    pub edit: Option<ReferenceEdit>,
    pub head: Option<Vec<u8>>,
    pub log: HeadLog,
}

/// What a reset leads to: the tree, whether to check it out by force, the
/// change of the branch unless the head is detached, the text of a detached
/// head that is to be written after the checkout, and the line to log.
pub struct ResetPlan {
    pub tree: ObjectId,
    pub checkout: bool,
    pub edit: Option<ReferenceEdit>,
    pub head: Option<Vec<u8>>,
    pub log: HeadLog,
}

/// What a switch leads to: the tree to check out, the new text of the head,
/// and the line to log.
pub struct SwitchPlan {
    pub tree: ObjectId,
    pub force: bool,
    pub head: Vec<u8>,
    pub log: HeadLog,
}

/// The commit of a head, or the null object.
pub open spec fn commit_of(head: Head) -> Seq<u8> {
    match head.id {
        Some(id) => id@,
        None => Seq::new(20, |i: int| 0u8),
    }
}

/// How a head is called: its branch without prefix, or its commit.
pub open spec fn label_of(head: Head) -> Seq<u8> {
    match head.branch {
        Some(name) => {
            let prefix = bytes::utf8("refs/heads/"@);
            if bytes::has_prefix(name@, prefix) {
                name@.skip(prefix.len() as int)
            } else {
                name@
            }
        },
        None => object::hex_of(commit_of(head)),
    }
}

fn commit_id_of(head: &Head) -> (r: ObjectId)
    ensures
        r@ == commit_of(*head),
{
    match head.id {
        Some(id) => id,
        None => {
            let id = ObjectId::null();
            assert(id@ =~= Seq::new(20, |i: int| 0u8));
            id
        },
    }
}

fn head_label(head: &Head) -> (r: Vec<u8>)
    ensures
        r@ == label_of(*head),
{
    match &head.branch {
        Some(name) => {
            let prefix = "refs/heads/".as_bytes();
            if bytes::starts_with(name.as_slice(), prefix) {
                let r = bytes::copy_range(name.as_slice(), prefix.len(), name.len());
                assert(r@ =~= name@.skip(prefix@.len() as int));
                r
            } else {
                bytes::to_vec(name.as_slice())
            }
        },
        None => {
            let hex = commit_id_of(head).to_hex();
            bytes::to_vec(&hex)
        },
    }
}

// ---------------------------------------------------------------------------
// Reset

/// The index entries of the first `n` files.
pub open spec fn entries_of(list: Seq<ls_tree::Listed>, n: int) -> core::result::Result<
    Seq<index::EntryModel>,
    Error,
>
    decreases n,
{
    if n <= 0 {
        Ok(Seq::empty())
    } else {
        match entries_of(list, n - 1) {
            Err(error) => Err(error),
            Ok(before) => match index::staged(
                list[n - 1].path,
                tree::mode_value(list[n - 1].mode),
                list[n - 1].id,
                index::no_stat(),
                0,
            ) {
                Err(error) => Err(error),
                Ok(entry) => Ok(before.push(entry)),
            },
        }
    }
}

proof fn lemma_entries_persist(list: Seq<ls_tree::Listed>, n: int, m: int)
    requires
        0 <= n <= m,
        entries_of(list, n) is Err,
    ensures
        entries_of(list, m) == entries_of(list, n),
    decreases m - n,
{
    if n < m {
        lemma_entries_persist(list, n, m - 1);
    }
}

/// The index that stands, or why it cannot be read.
pub open spec fn index_at(files: memory::Tree, git: Seq<u8>) -> core::result::Result<
    index::IndexModel,
    Refusal,
> {
    let p = repository::joined(git, bytes::utf8("index"@));
    match memory::contents(files, p) {
        Ok(data) => match index::index_from(data) {
            Ok(model) => Ok(model),
            Err(error) => Err(Refusal::Said(error)),
        },
        Err(Fault::NotFound) => Ok(index::empty_index()),
        Err(fault) => Err(Refusal::At(fault, p)),
    }
}

/// Some entries with the version of an index that is to hold them, or why it
/// cannot.
pub open spec fn accepted(version: index::IndexVersion, entries: Seq<index::EntryModel>) -> core::result::Result<
    (index::IndexVersion, Seq<index::EntryModel>),
    Refusal,
> {
    if index::has_duplicate(entries) {
        Err(Refusal::Said(Error::InvalidRepository("duplicate index path and stage")))
    } else if index::wide_in_v2(version, entries) {
        Err(Refusal::Said(Error::InvalidRepository("index v2 cannot store extended entry flags")))
    } else {
        Ok((version, entries))
    }
}

/// The entries that a mixed reset puts in the index, with its version.
pub open spec fn reset_entries(
    files: memory::Tree,
    git: Seq<u8>,
    top: Seq<u8>,
    size: usize,
) -> core::result::Result<(index::IndexVersion, Seq<index::EntryModel>), Refusal> {
    match index_at(files, git) {
        Err(refusal) => Err(refusal),
        Ok(current) => match ls_tree::tree_listing(files, git, top, ls_tree::all_files(size)) {
            Err(refusal) => Err(refusal),
            Ok(list) => match entries_of(list, list.len() as int) {
                Err(error) => Err(Refusal::Said(error)),
                Ok(entries) => accepted(current.version, entries),
            },
        },
    }
}

/// Whether the files are what writing some entries as the index makes of
/// others, and a result is what that gives.
pub open spec fn index_replaced(
    before: memory::Tree,
    after: memory::Tree,
    git: Seq<u8>,
    model: index::IndexModel,
    refusal: Option<Refusal>,
) -> bool {
    match storage::index_file(model) {
        Err(error) => after == before && refusal == Some(Refusal::Said(error)),
        Ok(data) => (after, refusal) == repository::replaced(
            before,
            repository::joined(git, bytes::utf8("index"@)),
            data,
        ),
    }
}

/// Whether an index holds some entries in order.
pub open spec fn holds_entries(
    model: index::IndexModel,
    version: index::IndexVersion,
    entries: Seq<index::EntryModel>,
) -> bool {
    model.version == version && index::is_sorting(model.entries, entries) && model.extensions
        == Seq::<(Seq<u8>, Seq<u8>)>::empty()
}

/// Whether the index was replaced by one of some entries, or refused.
pub open spec fn index_becomes(
    before: memory::Tree,
    after: memory::Tree,
    git: Seq<u8>,
    goal: core::result::Result<(index::IndexVersion, Seq<index::EntryModel>), Refusal>,
    refusal: Option<Refusal>,
) -> bool {
    match goal {
        Err(bad) => after == before && refusal == Some(bad),
        Ok((version, entries)) => exists|model: index::IndexModel| #[trigger]
            holds_entries(model, version, entries) && index_replaced(
                before,
                after,
                git,
                model,
                refusal,
            ),
    }
}

/// Whether a mixed reset of the index went as it must.
pub open spec fn index_reset(
    before: memory::Tree,
    after: memory::Tree,
    git: Seq<u8>,
    top: Seq<u8>,
    size: usize,
    refusal: Option<Refusal>,
) -> bool {
    index_becomes(before, after, git, reset_entries(before, git, top, size), refusal)
}

/// The plan of a reset to a commit.
pub open spec fn plans_reset(
    plan: ResetPlan,
    model: CommitModel,
    target: Seq<u8>,
    head: Head,
    mode: ResetMode,
) -> bool {
    &&& plan.tree@ == model.tree
    &&& plan.checkout == (mode is Hard)
    &&& plan.log.before@ == commit_of(head)
    &&& plan.log.after@ == target
    &&& plan.log.message@ == bytes::utf8("reset: moving to "@) + object::hex_of(target)
    &&& match plan.head {
        None => head.branch is Some || !(mode is Hard),
        Some(text) => head.branch is None && mode is Hard && text@ == detached_text(target),
    }
    &&& match head.branch {
        None => plan.edit is None,
        Some(name) => plan.edit is Some && plan.edit->0@ == (EditModel {
            name: name@,
            id: target,
            previous: match head.id {
                Some(id) => Some(id@),
                None => None,
            },
        }),
    }
}

/// What moving a head without a checkout makes of the files: one that names a branch stays, a
/// detached one names the commit.
pub open spec fn head_moved(files: memory::Tree, git: Seq<u8>, head: Head, target: Seq<u8>) -> (
    memory::Tree,
    Option<Refusal>,
) {
    if head.branch is Some {
        (files, None)
    } else {
        repository::replaced(
            files,
            repository::joined(git, bytes::utf8("HEAD"@)),
            detached_text(target),
        )
    }
}

/// Whether a reset ended as it must once the index was dealt with.
pub open spec fn reset_ends(
    before: memory::Tree,
    after: memory::Tree,
    git: Seq<u8>,
    model: CommitModel,
    target: Seq<u8>,
    head: Head,
    mode: ResetMode,
    r: Result<ResetPlan>,
) -> bool {
    let (moved, refusal) = if mode is Hard {
        (before, None)
    } else {
        head_moved(before, git, head, target)
    };
    &&& after == moved
    &&& match refusal {
        Some(refusal) => fs::declined(r, refusal),
        None => r is Ok && plans_reset(r->Ok_0, model, target, head, mode),
    }
}

fn make_entries(list: &Vec<ls_tree::LsTreeEntry>) -> (r: Result<Vec<IndexEntry>>)
    ensures
        match entries_of(ls_tree::models(list@), list@.len() as int) {
            Ok(entries) => r is Ok && index::models(r->Ok_0@) == entries,
            Err(error) => r is Err && r->Err_0 == error,
        },
{
    let ghost all = ls_tree::models(list@);
    let mut out: Vec<IndexEntry> = Vec::new();
    assert(index::models(out@) =~= Seq::empty());
    let mut i: usize = 0;
    while i < list.len()
        invariant
            i <= list@.len(),
            all == ls_tree::models(list@),
            entries_of(all, i as int) == Ok::<Seq<index::EntryModel>, Error>(
                index::models(out@),
            ),
        decreases list@.len() - i,
    {
        proof {
            assert(all[i as int] == list@[i as int]@);
            if entries_of(all, i + 1) is Err {
                lemma_entries_persist(all, i + 1, list@.len() as int);
            }
        }
        let entry = IndexEntry::new(
            bytes::to_vec(list[i].path()),
            list[i].mode().number(),
            list[i].id(),
            StatData::default(),
        )?;
        let ghost before = out@;
        let ghost model = entry@;
        out.push(entry);
        assert(index::models(out@) =~= index::models(before).push(model));
        i += 1;
    }
    Ok(out)
}

impl Repository {
    fn reset_index(&mut self, top: ObjectId, size: usize) -> (r: Result<()>)
        ensures
            final(self).git() == old(self).git(),
            final(self).work() == old(self).work(),
            exists|refusal: Option<Refusal>| #[trigger]
                index_reset(
                    old(self).tree(),
                    final(self).tree(),
                    old(self).git(),
                    top@,
                    size,
                    refusal,
                ) && (match refusal {
                    Some(refusal) => fs::declined(r, refusal),
                    None => r is Ok,
                }),
    {
        let ghost files = self.tree();
        let ghost git = self.git();
        let ghost goal = reset_entries(files, git, top@, size);
        let current = match self.read_index() {
            Ok(current) => current,
            Err(error) => {
                assert(index_reset(files, files, git, top@, size, Some(goal->Err_0)));
                return Err(error);
            },
        };
        let list = match self.list_tree(top, &ls_tree::whole_tree(size)) {
            Ok(list) => list,
            Err(error) => {
                assert(index_reset(files, files, git, top@, size, Some(goal->Err_0)));
                return Err(error);
            },
        };
        assert(ls_tree::models(list@).len() == list@.len());
        let entries = match make_entries(&list) {
            Ok(entries) => entries,
            Err(error) => {
                assert(index_reset(files, files, git, top@, size, Some(goal->Err_0)));
                return Err(error);
            },
        };
        let made = match Index::new(current.version(), entries) {
            Ok(made) => made,
            Err(error) => {
                assert(index_reset(files, files, git, top@, size, Some(goal->Err_0)));
                return Err(error);
            },
        };
        let ghost model = made@;
        let r = self.write_index(&made);
        proof {
            let version = goal->Ok_0.0;
            let entries = goal->Ok_0.1;
            assert(holds_entries(model, version, entries));
            let refusal = match storage::index_file(model) {
                Err(error) => Some(Refusal::Said(error)),
                Ok(data) => repository::replaced(
                    files,
                    repository::joined(git, bytes::utf8("index"@)),
                    data,
                ).1,
            };
            assert(index_replaced(files, self.tree(), git, model, refusal));
            assert(index_reset(files, self.tree(), git, top@, size, refusal));
        }
        r
    }

    /// Replaces the text of the head.
    pub fn write_head(&mut self, text: &[u8]) -> (r: Result<()>)
        ensures
            final(self).git() == old(self).git(),
            final(self).work() == old(self).work(),
            ({
                let (after, refusal) = repository::replaced(
                    old(self).tree(),
                    repository::joined(old(self).git(), bytes::utf8("HEAD"@)),
                    text@,
                );
                &&& final(self).tree() == after
                &&& match refusal {
                    Some(refusal) => fs::declined(r, refusal),
                    None => r is Ok,
                }
            }),
    {
        proof {
            reveal_strlit("HEAD");
            bytes::lemma_ascii("HEAD"@);
            path::lemma_plain_name(bytes::utf8("HEAD"@));
        }
        self.write_atomic("HEAD".as_bytes(), text)
    }

    /// Resets the head to a commit. A mixed reset replaces the index by the
    /// files of the commit. A detached head then names the commit, unless the
    /// reset is hard and the checkout comes first; the plan says what else is
    /// to be done.
    pub fn reset(&mut self, target: ObjectId, head: &Head, options: &ResetOptions) -> (r: Result<
        ResetPlan,
    >)
        ensures
            final(self).git() == old(self).git(),
            final(self).work() == old(self).work(),
            match merge::stored_commit(
                old(self).tree(),
                old(self).git(),
                target@,
                options.max_object_size as nat,
            ) {
                Err(refusal) => fs::declined(r, refusal) && final(self).tree() == old(self).tree(),
                Ok(model) => if options.mode is Mixed {
                    exists|middle: memory::Tree, refusal: Option<Refusal>| #[trigger]
                        index_reset(
                            old(self).tree(),
                            middle,
                            old(self).git(),
                            model.tree,
                            options.max_object_size,
                            refusal,
                        ) && (match refusal {
                            Some(refusal) => fs::declined(r, refusal) && final(self).tree() == middle,
                            None => reset_ends(
                                middle,
                                final(self).tree(),
                                old(self).git(),
                                model,
                                target@,
                                *head,
                                options.mode,
                                r,
                            ),
                        })
                } else {
                    reset_ends(
                        old(self).tree(),
                        final(self).tree(),
                        old(self).git(),
                        model,
                        target@,
                        *head,
                        options.mode,
                        r,
                    )
                },
            },
    {
        let commit = self.read_commit(target, options.max_object_size)?;
        let top = commit.tree();
        match options.mode {
            ResetMode::Mixed => self.reset_index(top, options.max_object_size)?,
            _ => {},
        }
        let hex = target.to_hex();
        let checkout = matches!(options.mode, ResetMode::Hard);
        let mut later: Option<Vec<u8>> = None;
        if head.branch.is_none() {
            let text = detached_line(target);
            if checkout {
                later = Some(text);
            } else {
                self.write_head(text.as_slice())?;
            }
        }
        let mut message = bytes::to_vec("reset: moving to ".as_bytes());
        bytes::append(&mut message, &hex);
        let edit = match &head.branch {
            Some(name) => Some(
                ReferenceEdit::update(
                    bytes::to_vec(name.as_slice()),
                    target,
                    match head.id {
                        Some(id) => PreviousValue::MustExist(id),
                        None => PreviousValue::MustNotExist,
                    },
                ),
            ),
            None => None,
        };
        Ok(
            ResetPlan {
                tree: top,
                checkout,
                edit,
                head: later,
                log: HeadLog { before: commit_id_of(head), after: target, message },
            },
        )
    }
}

// ---------------------------------------------------------------------------
// Switching

/// The text of a head that names a branch.
pub open spec fn branch_text(name: Seq<u8>) -> Seq<u8> {
    bytes::utf8("ref: refs/heads/"@) + name + seq![10u8]
}

/// The text of a detached head.
pub open spec fn detached_text(id: Seq<u8>) -> Seq<u8> {
    object::hex_of(id) + seq![10u8]
}

/// The plan of a switch.
pub open spec fn plans_switch(
    plan: SwitchPlan,
    top: Seq<u8>,
    target: Seq<u8>,
    text: Seq<u8>,
    label: Seq<u8>,
    head: Head,
    force: bool,
) -> bool {
    &&& plan.tree@ == top
    &&& plan.force == force
    &&& plan.head@ == text
    &&& plan.log.before@ == commit_of(head)
    &&& plan.log.after@ == target
    &&& plan.log.message@ == bytes::utf8("checkout: moving from "@) + label_of(head)
        + bytes::utf8(" to "@) + label
}

fn detached_line(target: ObjectId) -> (r: Vec<u8>)
    ensures
        r@ == detached_text(target@),
{
    let mut text = bytes::to_vec(&target.to_hex());
    text.push(10);
    assert(text@ =~= detached_text(target@));
    text
}

/// Whether a move of the head is that of a logged line: the branch goes from
/// the one commit to the other, or a detached head names the other.
pub open spec fn moves_head(r: HeadMove, branch: Option<Seq<u8>>, log: HeadLogModel) -> bool {
    &&& r.log@ == log
    &&& match branch {
        Some(name) => r.head is None && r.edit is Some && r.edit->0@ == (EditModel {
            name,
            id: log.after,
            previous: Some(log.before),
        }),
        None => r.edit is None && r.head is Some && (r.head->0)@ == detached_text(log.after),
    }
}

/// Says how the head moves along a logged line. `branch` is the reference that
/// it names, unless it is detached.
pub fn move_along(branch: Option<&[u8]>, log: HeadLog) -> (r: HeadMove)
    ensures
        moves_head(
            r,
            match branch {
                Some(name) => Some(name@),
                None => None,
            },
            log@,
        ),
{
    match branch {
        Some(name) => HeadMove {
            edit: Some(
                ReferenceEdit::update(
                    bytes::to_vec(name),
                    log.after,
                    PreviousValue::MustExist(log.before),
                ),
            ),
            head: None,
            log,
        },
        None => HeadMove { edit: None, head: Some(detached_line(log.after)), log },
    }
}

/// What writing the text of a head, where there is one to write, makes of the
/// files.
pub open spec fn head_concluded(files: memory::Tree, git: Seq<u8>, text: Option<Seq<u8>>) -> (
    memory::Tree,
    Option<Refusal>,
) {
    match text {
        None => (files, None),
        Some(text) => repository::replaced(
            files,
            repository::joined(git, bytes::utf8("HEAD"@)),
            text,
        ),
    }
}

impl Repository {
    /// Writes the text of the head where a reset or a move of the head asks
    /// for it: after the checkout.
    pub fn conclude_head(&mut self, text: &Option<Vec<u8>>) -> (r: Result<()>)
        ensures
            final(self).git() == old(self).git(),
            final(self).work() == old(self).work(),
            ({
                let (after, refusal) = head_concluded(
                    old(self).tree(),
                    old(self).git(),
                    match text {
                        Some(text) => Some(text@),
                        None => None,
                    },
                );
                &&& final(self).tree() == after
                &&& match refusal {
                    Some(refusal) => fs::declined(r, refusal),
                    None => r is Ok,
                }
            }),
    {
        match text {
            None => Ok(()),
            Some(text) => self.write_head(text.as_slice()),
        }
    }
}

fn switch_message(head: &Head, label: &[u8]) -> (r: Vec<u8>)
    ensures
        r@ == bytes::utf8("checkout: moving from "@) + label_of(*head) + bytes::utf8(" to "@)
            + label@,
{
    let mut out = bytes::to_vec("checkout: moving from ".as_bytes());
    let from = head_label(head);
    bytes::append(&mut out, from.as_slice());
    bytes::append(&mut out, " to ".as_bytes());
    bytes::append(&mut out, label);
    out
}

impl Repository {
    /// Plan a switch to a branch; `target` is the commit that it leads to.
    pub fn switch_branch(
        &self,
        branch_name: &[u8],
        target: ObjectId,
        head: &Head,
        options: &SwitchOptions,
    ) -> (r: Result<SwitchPlan>)
        ensures
            ({
                let full = bytes::utf8("refs/heads/"@) + branch_name@;
                match refname::name_fault(full) {
                    Some(refusal) => fs::declined(r, refusal),
                    None => match merge::stored_commit(
                        self.tree(),
                        self.git(),
                        target@,
                        options.max_object_size as nat,
                    ) {
                        Err(refusal) => fs::declined(r, refusal),
                        Ok(model) => r is Ok && plans_switch(
                            r->Ok_0,
                            model.tree,
                            target@,
                            branch_text(branch_name@),
                            branch_name@,
                            *head,
                            options.force,
                        ),
                    },
                }
            }),
    {
        let mut full = bytes::to_vec("refs/heads/".as_bytes());
        bytes::append(&mut full, branch_name);
        refname::validate(full.as_slice())?;
        let commit = self.read_commit(target, options.max_object_size)?;
        let mut text = bytes::to_vec("ref: refs/heads/".as_bytes());
        bytes::append(&mut text, branch_name);
        text.push(10);
        assert(text@ =~= branch_text(branch_name@));
        Ok(
            SwitchPlan {
                tree: commit.tree(),
                force: options.force,
                head: text,
                log: HeadLog {
                    before: commit_id_of(head),
                    after: target,
                    message: switch_message(head, branch_name),
                },
            },
        )
    }

    /// Plan to detach the head at a commit.
    pub fn switch_detached(&self, target: ObjectId, head: &Head, options: &SwitchOptions) -> (r: Result<
        SwitchPlan,
    >)
        ensures
            match merge::stored_commit(
                self.tree(),
                self.git(),
                target@,
                options.max_object_size as nat,
            ) {
                Err(refusal) => fs::declined(r, refusal),
                Ok(model) => r is Ok && plans_switch(
                    r->Ok_0,
                    model.tree,
                    target@,
                    detached_text(target@),
                    object::hex_of(target@),
                    *head,
                    options.force,
                ),
            },
    {
        let commit = self.read_commit(target, options.max_object_size)?;
        let hex = target.to_hex();
        let text = detached_line(target);
        Ok(
            SwitchPlan {
                tree: commit.tree(),
                force: options.force,
                head: text,
                log: HeadLog {
                    before: commit_id_of(head),
                    after: target,
                    message: switch_message(head, &hex),
                },
            },
        )
    }

    /// Write the head once the tree of a plan is checked out.
    pub fn conclude_switch(&mut self, plan: &SwitchPlan) -> (r: Result<()>)
        ensures
            final(self).git() == old(self).git(),
            final(self).work() == old(self).work(),
            ({
                let p = repository::joined(old(self).git(), bytes::utf8("HEAD"@));
                let (after, refusal) = repository::replaced(old(self).tree(), p, plan.head@);
                &&& final(self).tree() == after
                &&& match refusal {
                    Some(refusal) => fs::declined(r, refusal),
                    None => r is Ok,
                }
            }),
    {
        self.write_head(plan.head.as_slice())
    }
}

} // verus!
