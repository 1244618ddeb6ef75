//! Notes on objects, kept in the tree of a commit: a path that spells an
//! object leads to the blob with its note.

use vstd::prelude::*;

use crate::bytemap::ByteMap;
use crate::bytes;
use crate::commit;
use crate::commit::{Commit, CommitModel, Signature, SignatureModel};
use crate::fetch::{EditModel, PreviousValue, ReferenceEdit};
use crate::fs;
use crate::fs::memory;
use crate::fs::{Fault, Refusal};
use crate::id_set;
use crate::merge;
use crate::object;
use crate::object::{ObjectId, ObjectKind};
use crate::refname;
use crate::repository::Repository;
use crate::storage;
use crate::tree;
use crate::tree::{EntryMode, Tree, TreeEntry, TreeItem};
use crate::worktree_path;
use crate::{Error, Result};

verus! {

/// The reference that notes are kept under unless another is named.
pub const DEFAULT_NOTES_REF: &'static str = "refs/notes/commits";

/// Where notes are kept, and the limits.
#[derive(Debug, PartialEq, Eq)]
pub struct NotesOptions {
    pub reference: Vec<u8>,
    pub max_object_size: usize,
    pub max_entries: usize,
    pub max_depth: usize,
}

impl Default for NotesOptions {
    fn default() -> (r: Self)
        ensures
            r.reference@ == bytes::utf8("refs/notes/commits"@),
            r.max_object_size == 64 * 1024 * 1024,
            r.max_entries == 1_000_000,
            r.max_depth == 64,
    {
        NotesOptions {
            reference: bytes::to_vec("refs/notes/commits".as_bytes()),
            max_object_size: 64 * 1024 * 1024,
            max_entries: 1_000_000,
            max_depth: 64,
        }
    }
}

/// A note on an object.
#[derive(Debug, PartialEq, Eq)]
pub struct Note {
    target: ObjectId,
    blob: ObjectId,
    message: Vec<u8>,
}

/// What a note says.
#[verifier::ext_equal]
pub struct NoteModel {
    pub target: Seq<u8>,
    pub blob: Seq<u8>,
    pub message: Seq<u8>,
}

impl View for Note {
    type V = NoteModel;

    closed spec fn view(&self) -> NoteModel {
        NoteModel { target: self.target@, blob: self.blob@, message: self.message@ }
    }
}

pub open spec fn models(list: Seq<Note>) -> Seq<NoteModel> {
    Seq::new(list.len(), |i: int| list[i]@)
}

impl Note {
    pub fn target(&self) -> (r: ObjectId)
        ensures
            r@ == self@.target,
    {
        self.target
    }

    pub fn blob(&self) -> (r: ObjectId)
        ensures
            r@ == self@.blob,
    {
        self.blob
    }

    pub fn message(&self) -> (r: &[u8])
        ensures
            r@ == self@.message,
    {
        self.message.as_slice()
    }
}

// ---------------------------------------------------------------------------
// The files of a notes tree

struct StoredEntry {
    path: Vec<Vec<u8>>,
    mode: EntryMode,
    id: ObjectId,
}

/// A file of a notes tree.
#[verifier::ext_equal]
pub struct Stored {
    pub path: Seq<Seq<u8>>,
    pub mode: EntryMode,
    pub id: Seq<u8>,
}

impl StoredEntry {
    spec fn model(self) -> Stored {
        Stored { path: bytes::deep(self.path@), mode: self.mode, id: self.id@ }
    }
}

spec fn stored_models(list: Seq<StoredEntry>) -> Seq<Stored> {
    Seq::new(list.len(), |i: int| list[i].model())
}

/// What the files of a tree add to a list.
pub open spec fn collect_tree(
    files: memory::Tree,
    git: Seq<u8>,
    id: Seq<u8>,
    prefix: Seq<Seq<u8>>,
    depth: int,
    options: NotesOptions,
    out: Seq<Stored>,
) -> core::result::Result<Seq<Stored>, Refusal>
    decreases options.max_depth + 1 - depth, 1int, 0int,
{
    if depth > options.max_depth {
        Err(Refusal::Said(Error::InvalidTree("notes tree exceeds depth limit")))
    } else {
        match tree::stored_tree(files, git, id, options.max_object_size as nat) {
            Err(refusal) => Err(refusal),
            Ok(list) => collect_items(files, git, list, 0, prefix, depth, options, out),
        }
    }
}

/// What the entries of a tree from a place on add to a list.
pub open spec fn collect_items(
    files: memory::Tree,
    git: Seq<u8>,
    list: Seq<TreeItem>,
    i: int,
    prefix: Seq<Seq<u8>>,
    depth: int,
    options: NotesOptions,
    out: Seq<Stored>,
) -> core::result::Result<Seq<Stored>, Refusal>
    decreases options.max_depth + 1 - depth, 0int, list.len() - i,
{
    if i < 0 || i >= list.len() || depth > options.max_depth {
        Ok(out)
    } else if out.len() >= options.max_entries {
        Err(Refusal::Said(Error::InvalidTree("notes tree exceeds entry limit")))
    } else {
        let item = list[i];
        let path = prefix.push(item.name);
        if item.mode is Tree {
            match collect_tree(files, git, item.id, path, depth + 1, options, out) {
                Err(refusal) => Err(refusal),
                Ok(next) => collect_items(
                    files,
                    git,
                    list,
                    i + 1,
                    prefix,
                    depth,
                    options,
                    next,
                ),
            }
        } else {
            collect_items(
                files,
                git,
                list,
                i + 1,
                prefix,
                depth,
                options,
                out.push(Stored { path, mode: item.mode, id: item.id }),
            )
        }
    }
}

fn copy_parts(parts: &Vec<Vec<u8>>) -> (r: Vec<Vec<u8>>)
    ensures
        bytes::deep(r@) == bytes::deep(parts@),
{
    let mut out: Vec<Vec<u8>> = Vec::new();
    let mut i: usize = 0;
    while i < parts.len()
        invariant
            i <= parts@.len(),
            out@.len() == i,
            forall|k: int| 0 <= k < i ==> (#[trigger] out@[k])@ == parts@[k]@,
        decreases parts@.len() - i,
    {
        out.push(bytes::to_vec(parts[i].as_slice()));
        i += 1;
    }
    assert(bytes::deep(out@) =~= bytes::deep(parts@));
    out
}

impl Repository {
    fn collect_stored_entries(
        &self,
        tree_id: ObjectId,
        prefix: &Vec<Vec<u8>>,
        depth: usize,
        options: &NotesOptions,
        output: &mut Vec<StoredEntry>,
    ) -> (r: Result<()>)
        ensures
            match collect_tree(
                self.tree(),
                self.git(),
                tree_id@,
                bytes::deep(prefix@),
                depth as int,
                *options,
                stored_models(old(output)@),
            ) {
                Ok(list) => r is Ok && stored_models(final(output)@) == list,
                Err(refusal) => fs::declined(r, refusal),
            },
        decreases options.max_depth + 1 - depth,
    {
        if depth > options.max_depth {
            return Err(Error::InvalidTree("notes tree exceeds depth limit"));
        }
        let ghost files = self.tree();
        let ghost git = self.git();
        let ghost parts = bytes::deep(prefix@);
        let tree = self.read_tree(tree_id, options.max_object_size)?;
        let entries = tree.entries();
        let ghost list = tree@;
        let ghost start = stored_models(output@);
        let mut i: usize = 0;
        while i < entries.len()
            invariant
                i <= entries@.len(),
                depth <= options.max_depth,
                files == self.tree(),
                git == self.git(),
                parts == bytes::deep(prefix@),
                list == tree::items(entries@),
                start == stored_models(old(output)@),
                collect_tree(
                    files,
                    git,
                    tree_id@,
                    parts,
                    depth as int,
                    *options,
                    start,
                ) == collect_items(
                    files,
                    git,
                    list,
                    i as int,
                    parts,
                    depth as int,
                    *options,
                    stored_models(output@),
                ),
            decreases entries@.len() - i,
        {
            assert(list[i as int] == entries@[i as int]@);
            assert(stored_models(output@).len() == output@.len());
            if output.len() >= options.max_entries {
                return Err(Error::InvalidTree("notes tree exceeds entry limit"));
            }
            let entry = &entries[i];
            let mut path = copy_parts(prefix);
            let ghost before = path@;
            path.push(bytes::to_vec(entry.name()));
            assert(bytes::deep(path@) =~= parts.push(entry@.name)) by {
                assert(bytes::deep(before) == parts);
            }
            match entry.mode() {
                EntryMode::Tree => {
                    if depth >= options.max_depth {
                        assert(collect_tree(
                            files,
                            git,
                            entry@.id,
                            parts.push(entry@.name),
                            depth + 1,
                            *options,
                            stored_models(output@),
                        ) is Err);
                        return Err(Error::InvalidTree("notes tree exceeds depth limit"));
                    }
                    self.collect_stored_entries(entry.id(), &path, depth + 1, options, output)?;
                },
                _ => {
                    let ghost earlier = output@;
                    let one = StoredEntry { path, mode: entry.mode(), id: entry.id() };
                    let ghost model = one.model();
                    output.push(one);
                    assert(stored_models(output@) =~= stored_models(earlier).push(model));
                },
            }
            i += 1;
        }
        Ok(())
    }
}

/// Whether a reference may keep notes.
pub open spec fn notes_fault(name: Seq<u8>) -> Option<Refusal> {
    if refname::valid(name) && bytes::has_prefix(name, bytes::utf8("refs/notes/"@)) {
        None
    } else {
        Some(Refusal::At(Fault::InvalidName, name))
    }
}

fn validate_notes_ref(name: &[u8]) -> (r: Result<()>)
    ensures
        match notes_fault(name@) {
            None => r is Ok,
            Some(refusal) => fs::declined(r, refusal),
        },
{
    if refname::is_valid(name) && bytes::starts_with(name, "refs/notes/".as_bytes()) {
        Ok(())
    } else {
        Err(Error::InvalidReferenceName(bytes::to_vec(name)))
    }
}

/// The files of the notes that a commit keeps; without a commit there are
/// none.
pub open spec fn loaded(
    files: memory::Tree,
    git: Seq<u8>,
    head: Option<Seq<u8>>,
    options: NotesOptions,
) -> core::result::Result<Seq<Stored>, Refusal> {
    match notes_fault(options.reference@) {
        Some(refusal) => Err(refusal),
        None => match head {
            None => Ok(Seq::empty()),
            Some(id) => match merge::stored_commit(
                files,
                git,
                id,
                options.max_object_size as nat,
            ) {
                Err(refusal) => Err(refusal),
                Ok(model) => collect_tree(
                    files,
                    git,
                    model.tree,
                    Seq::empty(),
                    0,
                    options,
                    Seq::empty(),
                ),
            },
        },
    }
}

pub open spec fn raw(id: Option<ObjectId>) -> Option<Seq<u8>> {
    match id {
        Some(id) => Some(id@),
        None => None,
    }
}

impl Repository {
    fn load_notes(&self, head: Option<ObjectId>, options: &NotesOptions) -> (r: Result<
        Vec<StoredEntry>,
    >)
        ensures
            match loaded(self.tree(), self.git(), raw(head), *options) {
                Ok(list) => r is Ok && stored_models(r->Ok_0@) == list,
                Err(refusal) => fs::declined(r, refusal),
            },
    {
        validate_notes_ref(options.reference.as_slice())?;
        let mut entries: Vec<StoredEntry> = Vec::new();
        assert(stored_models(entries@) =~= Seq::empty());
        if let Some(id) = head {
            let commit = self.read_commit(id, options.max_object_size)?;
            let top: Vec<Vec<u8>> = Vec::new();
            assert(bytes::deep(top@) =~= Seq::empty());
            self.collect_stored_entries(commit.tree(), &top, 0, options, &mut entries)?;
        }
        Ok(entries)
    }
}

// ---------------------------------------------------------------------------
// Which files are notes

/// The components of a path put together.
pub open spec fn flat(path: Seq<Seq<u8>>, n: int) -> Seq<u8>
    decreases n,
{
    if n <= 0 {
        Seq::empty()
    } else {
        flat(path, n - 1) + path[n - 1]
    }
}

/// The object that a path spells.
pub open spec fn target_of(path: Seq<Seq<u8>>) -> Option<Seq<u8>> {
    object::id_of_hex(flat(path, path.len() as int))
}

fn note_target(path: &Vec<Vec<u8>>) -> (r: Option<ObjectId>)
    ensures
        match target_of(bytes::deep(path@)) {
            Some(id) => r is Some && r->0@ == id,
            None => r is None,
        },
{
    let ghost all = bytes::deep(path@);
    let mut text: Vec<u8> = Vec::new();
    let mut i: usize = 0;
    while i < path.len()
        invariant
            i <= path@.len(),
            all == bytes::deep(path@),
            text@ == flat(all, i as int),
        decreases path@.len() - i,
    {
        assert(all[i as int] == path@[i as int]@);
        bytes::append(&mut text, path[i].as_slice());
        i += 1;
    }
    match ObjectId::from_hex(text.as_slice()) {
        Ok(id) => Some(id),
        Err(_) => None,
    }
}

fn is_note_on(path: &Vec<Vec<u8>>, target: ObjectId) -> (r: bool)
    ensures
        r == (target_of(bytes::deep(path@)) == Some(target@)),
{
    match note_target(path) {
        Some(id) => id.same(&target),
        None => false,
    }
}

/// The note in a file.
pub open spec fn note_in(
    files: memory::Tree,
    git: Seq<u8>,
    entry: Stored,
    target: Seq<u8>,
    limit: nat,
) -> core::result::Result<NoteModel, Refusal> {
    if !(entry.mode is Blob) {
        Err(Refusal::Said(Error::InvalidTree("note is not a blob")))
    } else {
        match storage::stored_object(files, git, entry.id, limit) {
            Err(refusal) => Err(refusal),
            Ok((kind, data)) => if !(kind is Blob) {
                Err(Refusal::Said(Error::InvalidObject("note does not name a blob")))
            } else {
                Ok(NoteModel { target, blob: entry.id, message: data })
            },
        }
    }
}

/// The place of a note: before the first on a greater object.
pub open spec fn note_place(list: Seq<NoteModel>, target: Seq<u8>, from: int) -> int
    decreases list.len() - from,
{
    if from < 0 || from >= list.len() {
        list.len() as int
    } else if bytes::lex_lt(target, list[from].target) {
        from
    } else {
        note_place(list, target, from + 1)
    }
}

/// The notes among the first `n` files, in ascending order of objects.
pub open spec fn notes_among(
    files: memory::Tree,
    git: Seq<u8>,
    entries: Seq<Stored>,
    limit: nat,
    n: int,
) -> core::result::Result<Seq<NoteModel>, Refusal>
    decreases n,
{
    if n <= 0 {
        Ok(Seq::empty())
    } else {
        match notes_among(files, git, entries, limit, n - 1) {
            Err(refusal) => Err(refusal),
            Ok(before) => match target_of(entries[n - 1].path) {
                None => Ok(before),
                Some(target) => match note_in(files, git, entries[n - 1], target, limit) {
                    Err(refusal) => Err(refusal),
                    Ok(note) => Ok(before.insert(note_place(before, target, 0), note)),
                },
            },
        }
    }
}

/// Whether two notes are on one object.
pub open spec fn has_twins(list: Seq<NoteModel>) -> bool {
    exists|i: int, j: int|
        0 <= i < j < list.len() && (#[trigger] list[i]).target == (#[trigger] list[j]).target
}

/// The notes that a commit keeps, or why they are refused.
pub open spec fn notes_of(
    files: memory::Tree,
    git: Seq<u8>,
    head: Option<Seq<u8>>,
    options: NotesOptions,
) -> core::result::Result<Seq<NoteModel>, Refusal> {
    match loaded(files, git, head, options) {
        Err(refusal) => Err(refusal),
        Ok(entries) => match notes_among(
            files,
            git,
            entries,
            options.max_object_size as nat,
            entries.len() as int,
        ) {
            Err(refusal) => Err(refusal),
            Ok(list) => if has_twins(list) {
                Err(Refusal::Said(Error::InvalidTree("duplicate note")))
            } else {
                Ok(list)
            },
        },
    }
}

proof fn lemma_notes_persist(
    files: memory::Tree,
    git: Seq<u8>,
    entries: Seq<Stored>,
    limit: nat,
    n: int,
    m: int,
)
    requires
        0 <= n <= m,
        notes_among(files, git, entries, limit, n) is Err,
    ensures
        notes_among(files, git, entries, limit, m) == notes_among(files, git, entries, limit, n),
    decreases m - n,
{
    if n < m {
        lemma_notes_persist(files, git, entries, limit, n, m - 1);
    }
}

fn insert_note(list: &mut Vec<Note>, note: Note)
    ensures
        models(final(list)@) == models(old(list)@).insert(
            note_place(models(old(list)@), note@.target, 0),
            note@,
        ),
{
    let ghost before = list@;
    let ghost all = models(list@);
    let ghost model = note@;
    let mut i: usize = 0;
    while i < list.len()
        invariant_except_break
            i <= list@.len(),
            list@ == before,
            all == models(before),
            model == note@,
            note_place(all, model.target, 0) == note_place(all, model.target, i as int),
        ensures
            i <= list@.len(),
            list@ == before,
            note_place(all, model.target, 0) == i,
        decreases list@.len() - i,
    {
        assert(all[i as int] == list@[i as int]@);
        if note.target.before(&list[i].target) {
            break ;
        }
        i += 1;
    }
    list.insert(i, note);
    assert(models(list@) =~= all.insert(i as int, model));
}

fn twins(list: &Vec<Note>) -> (r: bool)
    ensures
        r == has_twins(models(list@)),
{
    let ghost all = models(list@);
    let mut i: usize = 0;
    while i < list.len()
        invariant
            i <= list@.len(),
            all == models(list@),
            forall|a: int, b: int|
                0 <= a < b < all.len() && a < i ==> (#[trigger] all[a]).target != (
                #[trigger] all[b]).target,
        decreases list@.len() - i,
    {
        let mut j: usize = i + 1;
        while j < list.len()
            invariant
                i < j <= list@.len(),
                all == models(list@),
                forall|b: int|
                    i < b < j ==> all[i as int].target != (#[trigger] all[b]).target,
            decreases list@.len() - j,
        {
            assert(all[i as int] == list@[i as int]@ && all[j as int] == list@[j as int]@);
            if list[i].target.same(&list[j].target) {
                return true;
            }
            j += 1;
        }
        i += 1;
    }
    false
}

impl Repository {
    fn read_note(&self, entry: &StoredEntry, target: ObjectId, limit: usize) -> (r: Result<Note>)
        ensures
            match note_in(self.tree(), self.git(), entry.model(), target@, limit as nat) {
                Ok(note) => r is Ok && r->Ok_0@ == note,
                Err(refusal) => fs::declined(r, refusal),
            },
    {
        match entry.mode {
            EntryMode::Blob => {},
            _ => return Err(Error::InvalidTree("note is not a blob")),
        }
        let object = self.read_object_raw(entry.id, limit)?;
        match object.kind() {
            ObjectKind::Blob => {},
            _ => return Err(Error::InvalidObject("note does not name a blob")),
        }
        Ok(Note { target, blob: entry.id, message: bytes::to_vec(object.data()) })
    }

    /// List notes in ascending order of objects. `head` is the commit that the
    /// notes reference leads to; the paths of notes may be split into
    /// directories in any way.
    pub fn list_notes(&self, head: Option<ObjectId>, options: &NotesOptions) -> (r: Result<
        Vec<Note>,
    >)
        ensures
            match notes_of(self.tree(), self.git(), raw(head), *options) {
                Ok(list) => r is Ok && models(r->Ok_0@) == list,
                Err(refusal) => fs::declined(r, refusal),
            },
    {
        let entries = self.load_notes(head, options)?;
        let ghost files = self.tree();
        let ghost git = self.git();
        let ghost all = stored_models(entries@);
        let limit: usize = options.max_object_size;
        let mut notes: Vec<Note> = Vec::new();
        assert(models(notes@) =~= Seq::empty());
        let mut i: usize = 0;
        while i < entries.len()
            invariant
                i <= entries@.len(),
                files == self.tree(),
                git == self.git(),
                limit == options.max_object_size,
                all == stored_models(entries@),
                loaded(files, git, raw(head), *options) == Ok::<Seq<Stored>, Refusal>(all),
                notes_among(files, git, all, limit as nat, i as int) == Ok::<
                    Seq<NoteModel>,
                    Refusal,
                >(models(notes@)),
            decreases entries@.len() - i,
        {
            proof {
                assert(all[i as int] == entries@[i as int].model());
                if notes_among(files, git, all, limit as nat, i + 1) is Err {
                    lemma_notes_persist(
                        files,
                        git,
                        all,
                        limit as nat,
                        i + 1,
                        entries@.len() as int,
                    );
                }
            }
            if let Some(target) = note_target(&entries[i].path) {
                let note = self.read_note(&entries[i], target, limit)?;
                insert_note(&mut notes, note);
            }
            i += 1;
        }
        if twins(&notes) {
            return Err(Error::InvalidTree("duplicate note"));
        }
        Ok(notes)
    }
}

/// The first note on an object.
pub open spec fn note_on(list: Seq<NoteModel>, target: Seq<u8>, from: int) -> Option<NoteModel>
    decreases list.len() - from,
{
    if from < 0 || from >= list.len() {
        None
    } else if list[from].target == target {
        Some(list[from])
    } else {
        note_on(list, target, from + 1)
    }
}

impl Repository {
    /// Read the note on an object, or `None` where it has none.
    pub fn note(&self, head: Option<ObjectId>, target: ObjectId, options: &NotesOptions) -> (r:
        Result<Option<Note>>)
        ensures
            match notes_of(self.tree(), self.git(), raw(head), *options) {
                Ok(list) => r is Ok && (match note_on(list, target@, 0) {
                    Some(note) => r->Ok_0 is Some && (r->Ok_0->0)@ == note,
                    None => r->Ok_0 is None,
                }),
                Err(refusal) => fs::declined(r, refusal),
            },
    {
        let notes = self.list_notes(head, options)?;
        let ghost all = models(notes@);
        let mut i: usize = 0;
        while i < notes.len()
            invariant
                i <= notes@.len(),
                all == models(notes@),
                notes_of(self.tree(), self.git(), raw(head), *options) == Ok::<
                    Seq<NoteModel>,
                    Refusal,
                >(all),
                note_on(all, target@, 0) == note_on(all, target@, i as int),
            decreases notes@.len() - i,
        {
            assert(all[i as int] == notes@[i as int]@);
            if notes[i].target.same(&target) {
                let found = Note {
                    target,
                    blob: notes[i].blob,
                    message: bytes::to_vec(notes[i].message.as_slice()),
                };
                return Ok(Some(found));
            }
            i += 1;
        }
        Ok(None)
    }
}

// ---------------------------------------------------------------------------
// Trees for files

/// The trees to write for some files: the top one, and all in the order of
/// writing.
#[verifier::ext_equal]
pub struct Plan {
    pub id: Seq<u8>,
    pub trees: Seq<Seq<u8>>,
}

/// The entries of a tree that is planned, and the trees below it.
#[verifier::ext_equal]
pub struct Part {
    pub items: Seq<TreeItem>,
    pub trees: Seq<Seq<u8>>,
}

pub open spec fn has_first(list: Seq<Stored>, name: Seq<u8>) -> bool {
    exists|i: int|
        0 <= i < list.len() && (#[trigger] list[i]).path.len() > 0 && list[i].path[0] == name
}

/// The names at the top of some files, in ascending order.
pub open spec fn tops(list: Seq<Stored>) -> Seq<Seq<u8>> {
    id_set::sorted(Set::new(|name: Seq<u8>| has_first(list, name)))
}

/// Those of the first `n` files that stand at or below a name, without it.
pub open spec fn under(list: Seq<Stored>, name: Seq<u8>, n: int) -> Seq<Stored>
    decreases n,
{
    if n <= 0 {
        Seq::empty()
    } else {
        let before = under(list, name, n - 1);
        let entry = list[n - 1];
        if entry.path.len() > 0 && entry.path[0] == name {
            before.push(Stored { path: entry.path.skip(1), mode: entry.mode, id: entry.id })
        } else {
            before
        }
    }
}

pub open spec fn has_nameless(list: Seq<Stored>) -> bool {
    exists|i: int| 0 <= i < list.len() && (#[trigger] list[i]).path.len() == 0
}

/// The trees for some files, not deeper than a limit.
pub open spec fn planned(list: Seq<Stored>, left: nat) -> core::result::Result<Plan, Error>
    decreases left, 1int, 0int,
{
    if left == 0 {
        Err(Error::InvalidTree("notes tree exceeds depth limit"))
    } else if has_nameless(list) {
        Err(Error::InvalidTree("empty notes path"))
    } else {
        let names = tops(list);
        match planned_part(list, names, (left - 1) as nat, names.len() as int) {
            Err(error) => Err(error),
            Ok(part) => {
                let data = tree::tree_bytes(part.items);
                Ok(
                    Plan {
                        id: object::object_id(ObjectKind::Tree, data),
                        trees: part.trees.push(data),
                    },
                )
            },
        }
    }
}

/// The entries for the first `n` names, and the trees below them.
pub open spec fn planned_part(
    list: Seq<Stored>,
    names: Seq<Seq<u8>>,
    left: nat,
    n: int,
) -> core::result::Result<Part, Error>
    decreases left + 1, 0int, n,
{
    if n <= 0 {
        Ok(Part { items: Seq::empty(), trees: Seq::empty() })
    } else {
        match planned_part(list, names, left, n - 1) {
            Err(error) => Err(error),
            Ok(part) => {
                let name = names[n - 1];
                let below = under(list, name, list.len() as int);
                if !tree::entry_name(name) {
                    Err(Error::InvalidTree("invalid tree entry name"))
                } else if has_nameless(below) {
                    if below.len() != 1 {
                        Err(Error::InvalidTree("notes tree path collision"))
                    } else {
                        let item = TreeItem { mode: below[0].mode, name, id: below[0].id };
                        Ok(Part { items: tree::with_item(part.items, item), trees: part.trees })
                    }
                } else {
                    match planned(below, left) {
                        Err(error) => Err(error),
                        Ok(plan) => {
                            let item = TreeItem { mode: EntryMode::Tree, name, id: plan.id };
                            Ok(
                                Part {
                                    items: tree::with_item(part.items, item),
                                    trees: part.trees + plan.trees,
                                },
                            )
                        },
                    }
                }
            },
        }
    }
}

proof fn lemma_part_persist(list: Seq<Stored>, names: Seq<Seq<u8>>, left: nat, n: int, m: int)
    requires
        0 <= n <= m,
        planned_part(list, names, left, n) is Err,
    ensures
        planned_part(list, names, left, m) == planned_part(list, names, left, n),
    decreases m - n,
{
    if n < m {
        lemma_part_persist(list, names, left, n, m - 1);
    }
}

fn nameless(list: &Vec<StoredEntry>) -> (r: bool)
    ensures
        r == has_nameless(stored_models(list@)),
{
    let ghost all = stored_models(list@);
    let mut i: usize = 0;
    while i < list.len()
        invariant
            i <= list@.len(),
            all == stored_models(list@),
            forall|k: int| 0 <= k < i ==> (#[trigger] all[k]).path.len() != 0,
        decreases list@.len() - i,
    {
        assert(all[i as int].path.len() == list@[i as int].path@.len());
        if list[i].path.len() == 0 {
            return true;
        }
        i += 1;
    }
    false
}

fn top_names(list: &Vec<StoredEntry>) -> (r: ByteMap<bool>)
    ensures
        r.keys() == tops(stored_models(list@)),
{
    let ghost all = stored_models(list@);
    let mut names: ByteMap<bool> = ByteMap::new();
    let mut i: usize = 0;
    while i < list.len()
        invariant
            i <= list@.len(),
            all == stored_models(list@),
            forall|name: Seq<u8>| #[trigger]
                names@.contains_key(name) <==> has_first(all.take(i as int), name),
        decreases list@.len() - i,
    {
        let ghost before = names@;
        let ghost entry = all[i as int];
        assert(entry.path.len() == list@[i as int].path@.len());
        if list[i].path.len() > 0 {
            assert(entry.path[0] == list@[i as int].path@[0]@);
            names.insert(bytes::to_vec(list[i].path[0].as_slice()), true);
        }
        proof {
            assert forall|name: Seq<u8>| #[trigger] names@.contains_key(name) <==> has_first(
                all.take(i + 1),
                name,
            ) by {
                if has_first(all.take(i + 1), name) {
                    let k = choose|k: int|
                        0 <= k < all.take(i + 1).len() && (#[trigger] all.take(i + 1)[k]).path.len()
                            > 0 && all.take(i + 1)[k].path[0] == name;
                    if k < i {
                        assert(all.take(i as int)[k] == all.take(i + 1)[k]);
                        assert(has_first(all.take(i as int), name));
                        assert(before.contains_key(name));
                    }
                }
                if names@.contains_key(name) {
                    if before.contains_key(name) {
                        let k = choose|k: int|
                            0 <= k < all.take(i as int).len() && (#[trigger] all.take(
                                i as int,
                            )[k]).path.len() > 0 && all.take(i as int)[k].path[0] == name;
                        assert(all.take(i + 1)[k] == all.take(i as int)[k]);
                    } else {
                        assert(all.take(i + 1)[i as int] == entry);
                    }
                }
            }
        }
        i += 1;
    }
    let count: usize = names.len();
    proof {
        assert(all.take(i as int) =~= all);
        let set = Set::new(|name: Seq<u8>| has_first(all, name));
        assert(names@.dom() =~= set);
        id_set::lemma_sorted(names.keys());
    }
    names
}

fn entries_under(list: &Vec<StoredEntry>, name: &[u8]) -> (r: Vec<StoredEntry>)
    ensures
        stored_models(r@) == under(stored_models(list@), name@, list@.len() as int),
{
    let ghost all = stored_models(list@);
    let mut out: Vec<StoredEntry> = Vec::new();
    assert(stored_models(out@) =~= Seq::empty());
    let mut i: usize = 0;
    while i < list.len()
        invariant
            i <= list@.len(),
            all == stored_models(list@),
            stored_models(out@) == under(all, name@, i as int),
        decreases list@.len() - i,
    {
        let entry = &list[i];
        assert(all[i as int] == entry.model());
        assert(entry.path@.len() == all[i as int].path.len());
        if entry.path.len() > 0 && bytes::bytes_eq(entry.path[0].as_slice(), name) {
            let rest = skip_first(&entry.path);
            let ghost before = out@;
            let one = StoredEntry { path: rest, mode: entry.mode, id: entry.id };
            let ghost model = one.model();
            out.push(one);
            assert(stored_models(out@) =~= stored_models(before).push(model));
        }
        i += 1;
    }
    out
}

fn skip_first(parts: &Vec<Vec<u8>>) -> (r: Vec<Vec<u8>>)
    requires
        parts@.len() > 0,
    ensures
        bytes::deep(r@) == bytes::deep(parts@).skip(1),
{
    let mut out: Vec<Vec<u8>> = Vec::new();
    let mut i: usize = 1;
    while i < parts.len()
        invariant
            1 <= i <= parts@.len(),
            out@.len() == i - 1,
            forall|k: int| 0 <= k < i - 1 ==> (#[trigger] out@[k])@ == parts@[k + 1]@,
        decreases parts@.len() - i,
    {
        out.push(bytes::to_vec(parts[i].as_slice()));
        i += 1;
    }
    assert(bytes::deep(out@) =~= bytes::deep(parts@).skip(1));
    out
}

/// Plans the trees for some files and adds them to a list.
fn plan_tree(list: &Vec<StoredEntry>, left: usize, trees: &mut Vec<Vec<u8>>) -> (r: Result<ObjectId>)
    ensures
        match planned(stored_models(list@), left as nat) {
            Ok(plan) => r is Ok && r->Ok_0@ == plan.id && bytes::deep(final(trees)@)
                == bytes::deep(old(trees)@) + plan.trees,
            Err(error) => r is Err && r->Err_0 == error,
        },
    decreases left,
{
    if left == 0 {
        return Err(Error::InvalidTree("notes tree exceeds depth limit"));
    }
    if nameless(list) {
        return Err(Error::InvalidTree("empty notes path"));
    }
    let ghost all = stored_models(list@);
    let ghost start = bytes::deep(trees@);
    let keys = top_names(list);
    let ghost names = keys.keys();
    let count: usize = keys.len();
    let ghost deep = (left - 1) as nat;
    let mut entries: Vec<TreeEntry> = Vec::new();
    assert(tree::items(entries@) =~= Seq::empty());
    assert(start + Seq::<Seq<u8>>::empty() =~= start);
    let mut i: usize = 0;
    while i < count
        invariant
            i <= count,
            count == names.len(),
            names == keys.keys(),
            names == tops(all),
            all == stored_models(list@),
            left > 0,
            deep == left - 1,
            !has_nameless(all),
            start == bytes::deep(old(trees)@),
            planned_part(all, names, deep, i as int) is Ok,
            tree::items(entries@) == planned_part(all, names, deep, i as int)->Ok_0.items,
            bytes::deep(trees@) == start + planned_part(all, names, deep, i as int)->Ok_0.trees,
        decreases count - i,
    {
        let name = keys.key_at(i);
        let below = entries_under(list, name.as_slice());
        let ghost part = planned_part(all, names, deep, i as int)->Ok_0;
        let ghost subs = stored_models(below@);
        proof {
            assert(names[i as int] == name@);
            assert(subs == under(all, name@, all.len() as int));
            if planned_part(all, names, deep, i + 1) is Err {
                lemma_part_persist(all, names, deep, i + 1, names.len() as int);
            }
        }
        if nameless(&below) {
            assert(subs.len() == below@.len());
            if below.len() != 1 {
                if tree_name(name.as_slice()) {
                    return Err(Error::InvalidTree("notes tree path collision"));
                }
                return Err(Error::InvalidTree("invalid tree entry name"));
            }
            assert(subs[0] == below@[0].model());
            let entry = TreeEntry::new(
                below[0].mode,
                bytes::to_vec(name.as_slice()),
                below[0].id,
            )?;
            tree::insert_entry(&mut entries, entry);
        } else {
            if !tree_name(name.as_slice()) {
                return Err(Error::InvalidTree("invalid tree entry name"));
            }
            let ghost before = bytes::deep(trees@);
            let id = plan_tree(&below, left - 1, trees)?;
            let entry = TreeEntry::new(EntryMode::Tree, bytes::to_vec(name.as_slice()), id)?;
            tree::insert_entry(&mut entries, entry);
            proof {
                let plan = planned(subs, deep)->Ok_0;
                assert(before + plan.trees =~= start + (part.trees + plan.trees));
            }
        }
        i += 1;
    }
    let data = Tree::from_entries(entries).encode();
    let id = ObjectId::compute(ObjectKind::Tree, data.as_slice());
    let ghost before = trees@;
    let ghost bytes_of = data@;
    trees.push(data);
    proof {
        let part = planned_part(all, names, deep, names.len() as int)->Ok_0;
        assert(bytes::deep(trees@) =~= start + part.trees.push(bytes_of)) by {
            assert(bytes::deep(trees@) =~= bytes::deep(before).push(bytes_of));
        }
    }
    Ok(id)
}

fn tree_name(name: &[u8]) -> (r: bool)
    ensures
        r == tree::entry_name(name@),
{
    !(name.len() == 0 || bytes::contains_byte(name, 47) || bytes::contains_byte(name, 0))
}

// ---------------------------------------------------------------------------
// Changing notes

/// How many of the first `n` files are notes on an object.
pub open spec fn count_on(list: Seq<Stored>, target: Seq<u8>, n: int) -> nat
    decreases n,
{
    if n <= 0 {
        0
    } else {
        count_on(list, target, n - 1) + (if target_of(list[n - 1].path) == Some(target) {
            1nat
        } else {
            0
        })
    }
}

/// The first file from a place on that is a note on an object.
pub open spec fn first_on(list: Seq<Stored>, target: Seq<u8>, from: int) -> Option<Stored>
    decreases list.len() - from,
{
    if from < 0 || from >= list.len() {
        None
    } else if target_of(list[from].path) == Some(target) {
        Some(list[from])
    } else {
        first_on(list, target, from + 1)
    }
}

/// Those of the first `n` files that are no notes on an object.
pub open spec fn others(list: Seq<Stored>, target: Seq<u8>, n: int) -> Seq<Stored>
    decreases n,
{
    if n <= 0 {
        Seq::empty()
    } else {
        let before = others(list, target, n - 1);
        if target_of(list[n - 1].path) == Some(target) {
            before
        } else {
            before.push(list[n - 1])
        }
    }
}

/// The first file from a place on that is a note.
pub open spec fn first_note(list: Seq<Stored>, from: int) -> Option<Stored>
    decreases list.len() - from,
{
    if from < 0 || from >= list.len() {
        None
    } else if target_of(list[from].path) is Some {
        Some(list[from])
    } else {
        first_note(list, from + 1)
    }
}

/// A text cut into parts as long as the first `n` of a path.
pub open spec fn cut_like(text: Seq<u8>, path: Seq<Seq<u8>>, n: int) -> Seq<Seq<u8>>
    decreases n,
{
    if n <= 0 {
        Seq::empty()
    } else {
        let at = flat(path, n - 1).len() as int;
        cut_like(text, path, n - 1).push(text.subrange(at, at + path[n - 1].len()))
    }
}

/// Where a new note stands: split as the first note is.
pub open spec fn fanout(target: Seq<u8>, list: Seq<Stored>) -> Seq<Seq<u8>> {
    let hex = object::hex_of(target);
    match first_note(list, 0) {
        None => seq![hex],
        Some(entry) => cut_like(hex, entry.path, entry.path.len() as int),
    }
}

/// The files once the note on an object is replaced or removed.
pub open spec fn changed(
    list: Seq<Stored>,
    target: Seq<u8>,
    replacement: Option<Seq<u8>>,
    force: bool,
) -> core::result::Result<Seq<Stored>, Refusal> {
    let count = count_on(list, target, list.len() as int);
    let rest = others(list, target, list.len() as int);
    let hex = object::hex_of(target);
    if count > 1 {
        Err(Refusal::Said(Error::InvalidTree("duplicate note")))
    } else if replacement is Some && count > 0 && !force {
        Err(Refusal::At(Fault::AlreadyExists, hex))
    } else if replacement is None && count == 0 {
        Err(Refusal::At(Fault::NotFound, hex))
    } else {
        match replacement {
            None => Ok(rest),
            Some(id) => {
                let path = match first_on(list, target, 0) {
                    Some(entry) => entry.path,
                    None => fanout(target, rest),
                };
                Ok(rest.push(Stored { path, mode: EntryMode::Blob, id }))
            },
        }
    }
}

fn count_notes(list: &Vec<StoredEntry>, target: ObjectId) -> (r: usize)
    ensures
        r == count_on(stored_models(list@), target@, list@.len() as int),
{
    let ghost all = stored_models(list@);
    let mut count: usize = 0;
    let mut i: usize = 0;
    while i < list.len()
        invariant
            i <= list@.len(),
            count <= i,
            all == stored_models(list@),
            count == count_on(all, target@, i as int),
        decreases list@.len() - i,
    {
        assert(all[i as int] == list@[i as int].model());
        if is_note_on(&list[i].path, target) {
            count += 1;
        }
        i += 1;
    }
    count
}

fn find_on(list: &Vec<StoredEntry>, target: ObjectId) -> (r: Option<Vec<Vec<u8>>>)
    ensures
        match first_on(stored_models(list@), target@, 0) {
            Some(entry) => r is Some && bytes::deep(r->0@) == entry.path,
            None => r is None,
        },
{
    let ghost all = stored_models(list@);
    let mut i: usize = 0;
    while i < list.len()
        invariant
            i <= list@.len(),
            all == stored_models(list@),
            first_on(all, target@, 0) == first_on(all, target@, i as int),
        decreases list@.len() - i,
    {
        assert(all[i as int] == list@[i as int].model());
        if is_note_on(&list[i].path, target) {
            return Some(copy_parts(&list[i].path));
        }
        i += 1;
    }
    None
}

fn keep_others(list: &Vec<StoredEntry>, target: ObjectId) -> (r: Vec<StoredEntry>)
    ensures
        stored_models(r@) == others(stored_models(list@), target@, list@.len() as int),
{
    let ghost all = stored_models(list@);
    let mut out: Vec<StoredEntry> = Vec::new();
    assert(stored_models(out@) =~= Seq::empty());
    let mut i: usize = 0;
    while i < list.len()
        invariant
            i <= list@.len(),
            all == stored_models(list@),
            stored_models(out@) == others(all, target@, i as int),
        decreases list@.len() - i,
    {
        let entry = &list[i];
        assert(all[i as int] == entry.model());
        if !is_note_on(&entry.path, target) {
            let ghost before = out@;
            let one = StoredEntry { path: copy_parts(&entry.path), mode: entry.mode, id: entry.id };
            let ghost model = one.model();
            assert(model =~= all[i as int]);
            out.push(one);
            assert(stored_models(out@) =~= stored_models(before).push(model));
        }
        i += 1;
    }
    out
}

proof fn lemma_flat_grows(path: Seq<Seq<u8>>, n: int, m: int)
    requires
        0 <= n <= m <= path.len(),
    ensures
        flat(path, n).len() <= flat(path, m).len(),
    decreases m - n,
{
    if n < m {
        lemma_flat_grows(path, n, m - 1);
    }
}

fn cut_as(text: &[u8], path: &Vec<Vec<u8>>) -> (r: Vec<Vec<u8>>)
    requires
        flat(bytes::deep(path@), path@.len() as int).len() == text@.len(),
    ensures
        bytes::deep(r@) == cut_like(text@, bytes::deep(path@), path@.len() as int),
{
    let ghost all = bytes::deep(path@);
    let mut out: Vec<Vec<u8>> = Vec::new();
    assert(bytes::deep(out@) =~= Seq::empty());
    let mut at: usize = 0;
    let size: usize = text.len();
    let mut i: usize = 0;
    while i < path.len()
        invariant
            i <= path@.len(),
            size == text@.len(),
            all == bytes::deep(path@),
            flat(all, path@.len() as int).len() == text@.len(),
            at == flat(all, i as int).len(),
            at <= size,
            bytes::deep(out@) == cut_like(text@, all, i as int),
        decreases path@.len() - i,
    {
        proof {
            assert(all[i as int] == path@[i as int]@);
            lemma_flat_grows(all, i + 1, path@.len() as int);
        }
        let end: usize = at + path[i].len();
        let part = bytes::copy_range(text, at, end);
        let ghost before = out@;
        let ghost model = part@;
        out.push(part);
        assert(bytes::deep(out@) =~= bytes::deep(before).push(model));
        at = end;
        i += 1;
    }
    out
}

fn fanout_path(target: ObjectId, list: &Vec<StoredEntry>) -> (r: Vec<Vec<u8>>)
    ensures
        bytes::deep(r@) == fanout(target@, stored_models(list@)),
{
    let ghost all = stored_models(list@);
    let hex = target.to_hex();
    proof {
        ObjectId::lemma_view(target, target);
    }
    let mut i: usize = 0;
    while i < list.len()
        invariant
            i <= list@.len(),
            all == stored_models(list@),
            hex@ == object::hex_of(target@),
            target@.len() == 20,
            first_note(all, 0) == first_note(all, i as int),
        decreases list@.len() - i,
    {
        assert(all[i as int] == list@[i as int].model());
        if note_target(&list[i].path).is_some() {
            return cut_as(hex.as_slice(), &list[i].path);
        }
        i += 1;
    }
    let mut out: Vec<Vec<u8>> = Vec::new();
    out.push(bytes::to_vec(hex.as_slice()));
    assert(bytes::deep(out@) =~= seq![object::hex_of(target@)]);
    out
}

fn change_entries(
    list: &Vec<StoredEntry>,
    target: ObjectId,
    replacement: Option<ObjectId>,
    force: bool,
) -> (r: Result<Vec<StoredEntry>>)
    ensures
        match changed(stored_models(list@), target@, raw(replacement), force) {
            Ok(next) => r is Ok && stored_models(r->Ok_0@) == next,
            Err(refusal) => fs::declined(r, refusal),
        },
{
    let count: usize = count_notes(list, target);
    let hex = target.to_hex();
    if count > 1 {
        return Err(Error::InvalidTree("duplicate note"));
    }
    if replacement.is_some() && count > 0 && !force {
        return Err(Error::AlreadyExists(bytes::to_vec(hex.as_slice())));
    }
    if replacement.is_none() && count == 0 {
        return Err(Error::NotFound(bytes::to_vec(hex.as_slice())));
    }
    let mut rest = keep_others(list, target);
    assert(stored_models(list@).len() == list@.len());
    if let Some(id) = replacement {
        let path = match find_on(list, target) {
            Some(path) => path,
            None => fanout_path(target, &rest),
        };
        let ghost before = rest@;
        let one = StoredEntry { path, mode: EntryMode::Blob, id };
        let ghost model = one.model();
        rest.push(one);
        assert(stored_models(rest@) =~= stored_models(before).push(model));
    }
    Ok(rest)
}

/// What writing the first `n` trees makes of the files, and why it is refused.
pub open spec fn trees_put(files: memory::Tree, git: Seq<u8>, trees: Seq<Seq<u8>>, n: int) -> (
    memory::Tree,
    Option<Refusal>,
)
    decreases n,
{
    if n <= 0 {
        (files, None)
    } else {
        let (before, refusal) = trees_put(files, git, trees, n - 1);
        if refusal is Some {
            (before, refusal)
        } else {
            storage::put_object(before, git, ObjectKind::Tree, trees[n - 1])
        }
    }
}

/// The commit that keeps changed notes.
pub open spec fn notes_commit(
    top: Seq<u8>,
    head: Option<Seq<u8>>,
    author: SignatureModel,
    committer: SignatureModel,
    message: Seq<u8>,
) -> CommitModel {
    CommitModel {
        tree: top,
        parents: match head {
            Some(id) => seq![id],
            None => Seq::empty(),
        },
        author,
        committer,
        message,
    }
}

/// How deep the trees of notes may be.
pub open spec fn plan_depth(options: NotesOptions) -> nat {
    if options.max_depth >= usize::MAX - 1 {
        usize::MAX as nat
    } else {
        (options.max_depth + 2) as nat
    }
}

/// A change of the notes reference, and the message for its log.
#[derive(Debug, PartialEq, Eq)]
pub struct NotesEdit {
    pub edit: ReferenceEdit,
    pub message: Vec<u8>,
}

/// What a change of the notes reference says.
#[verifier::ext_equal]
pub struct NotesEditModel {
    pub edit: EditModel,
    pub message: Seq<u8>,
}

impl View for NotesEdit {
    type V = NotesEditModel;

    open spec fn view(&self) -> NotesEditModel {
        NotesEditModel { edit: self.edit@, message: self.message@ }
    }
}

/// What changing a note makes of the files, and the change of the notes
/// reference, or why it is refused.
pub open spec fn note_change(
    files: memory::Tree,
    git: Seq<u8>,
    head: Option<Seq<u8>>,
    target: Seq<u8>,
    replacement: Option<Seq<u8>>,
    force: bool,
    author: SignatureModel,
    committer: SignatureModel,
    message: Seq<u8>,
    options: NotesOptions,
) -> (memory::Tree, core::result::Result<NotesEditModel, Refusal>) {
    match loaded(files, git, head, options) {
        Err(refusal) => (files, Err(refusal)),
        Ok(list) => match changed(list, target, replacement, force) {
            Err(refusal) => (files, Err(refusal)),
            Ok(next) => match planned(next, plan_depth(options)) {
                Err(error) => (files, Err(Refusal::Said(error))),
                Ok(plan) => {
                    let (written, bad) = trees_put(
                        files,
                        git,
                        plan.trees,
                        plan.trees.len() as int,
                    );
                    let model = notes_commit(plan.id, head, author, committer, message);
                    let (after, refusal) = storage::put_object(
                        written,
                        git,
                        ObjectKind::Commit,
                        commit::commit_text(model),
                    );
                    if bad is Some {
                        (written, Err(bad->0))
                    } else if refusal is Some {
                        (after, Err(refusal->0))
                    } else {
                        (
                            after,
                            Ok(
                                NotesEditModel {
                                    edit: EditModel {
                                        name: options.reference@,
                                        id: merge::commit_id(model),
                                        previous: head,
                                    },
                                    message: worktree_path::line_of(message),
                                },
                            ),
                        )
                    }
                },
            },
        },
    }
}

proof fn lemma_trees_persist(files: memory::Tree, git: Seq<u8>, trees: Seq<Seq<u8>>, n: int, m: int)
    requires
        0 <= n <= m,
        trees_put(files, git, trees, n).1 is Some,
    ensures
        trees_put(files, git, trees, m) == trees_put(files, git, trees, n),
    decreases m - n,
{
    if n < m {
        lemma_trees_persist(files, git, trees, n, m - 1);
    }
}

impl Repository {
    fn write_trees(&mut self, trees: &Vec<Vec<u8>>) -> (r: Result<()>)
        ensures
            final(self).git() == old(self).git(),
            final(self).work() == old(self).work(),
            ({
                let (after, refusal) = trees_put(
                    old(self).tree(),
                    old(self).git(),
                    bytes::deep(trees@),
                    trees@.len() as int,
                );
                &&& final(self).tree() == after
                &&& match refusal {
                    Some(refusal) => fs::declined(r, refusal),
                    None => r is Ok,
                }
            }),
    {
        let ghost all = bytes::deep(trees@);
        let ghost files = self.tree();
        let ghost git = self.git();
        let mut i: usize = 0;
        while i < trees.len()
            invariant
                i <= trees@.len(),
                all == bytes::deep(trees@),
                files == old(self).tree(),
                git == old(self).git(),
                self.git() == git,
                self.work() == old(self).work(),
                trees_put(files, git, all, i as int) == (self.tree(), None::<Refusal>),
            decreases trees@.len() - i,
        {
            proof {
                assert(all[i as int] == trees@[i as int]@);
                if trees_put(files, git, all, i + 1).1 is Some {
                    lemma_trees_persist(files, git, all, i + 1, trees@.len() as int);
                }
            }
            self.write_object(ObjectKind::Tree, trees[i].as_slice())?;
            i += 1;
        }
        Ok(())
    }

    fn change_note(
        &mut self,
        head: Option<ObjectId>,
        target: ObjectId,
        replacement: Option<ObjectId>,
        force: bool,
        author: &Signature,
        committer: &Signature,
        message: &[u8],
        options: &NotesOptions,
    ) -> (r: Result<NotesEdit>)
        ensures
            final(self).git() == old(self).git(),
            final(self).work() == old(self).work(),
            ({
                let (after, outcome) = note_change(
                    old(self).tree(),
                    old(self).git(),
                    raw(head),
                    target@,
                    raw(replacement),
                    force,
                    author@,
                    committer@,
                    message@,
                    *options,
                );
                &&& final(self).tree() == after
                &&& match outcome {
                    Ok(edit) => r is Ok && r->Ok_0@ == edit,
                    Err(refusal) => fs::declined(r, refusal),
                }
            }),
    {
        let list = self.load_notes(head, options)?;
        let next = change_entries(&list, target, replacement, force)?;
        let depth: usize = if options.max_depth >= usize::MAX - 1 {
            usize::MAX
        } else {
            options.max_depth + 2
        };
        let mut trees: Vec<Vec<u8>> = Vec::new();
        assert(bytes::deep(trees@) =~= Seq::empty());
        let top = plan_tree(&next, depth, &mut trees)?;
        proof {
            let plan = planned(stored_models(next@), depth as nat)->Ok_0;
            assert(Seq::<Seq<u8>>::empty() + plan.trees =~= plan.trees);
            assert(bytes::deep(trees@).len() == trees@.len());
        }
        self.write_trees(&trees)?;
        let mut parents: Vec<ObjectId> = Vec::new();
        let previous = match head {
            Some(id) => {
                parents.push(id);
                PreviousValue::MustExist(id)
            },
            None => PreviousValue::MustNotExist,
        };
        assert(commit::raw_ids(parents@) =~= (match raw(head) {
            Some(id) => seq![id],
            None => Seq::empty(),
        }));
        let made = Commit::new(
            top,
            parents,
            author.copy(),
            committer.copy(),
            bytes::to_vec(message),
        );
        let id = self.write_commit(&made)?;
        let line = worktree_path::cut_newline(message);
        Ok(
            NotesEdit {
                edit: ReferenceEdit::update(
                    bytes::to_vec(options.reference.as_slice()),
                    id,
                    previous,
                ),
                message: bytes::to_vec(line),
            },
        )
    }
}

/// What adding a note makes of the files: the blob is written first.
pub open spec fn note_added(
    files: memory::Tree,
    git: Seq<u8>,
    head: Option<Seq<u8>>,
    target: Seq<u8>,
    message: Seq<u8>,
    force: bool,
    author: SignatureModel,
    committer: SignatureModel,
    options: NotesOptions,
) -> (memory::Tree, core::result::Result<NotesEditModel, Refusal>) {
    match storage::stored_object(files, git, target, options.max_object_size as nat) {
        Err(refusal) => (files, Err(refusal)),
        Ok(_) => {
            let (written, bad) = storage::put_object(files, git, ObjectKind::Blob, message);
            match bad {
                Some(refusal) => (written, Err(refusal)),
                None => note_change(
                    written,
                    git,
                    head,
                    target,
                    Some(object::object_id(ObjectKind::Blob, message)),
                    force,
                    author,
                    committer,
                    bytes::utf8("Notes added by git-rs\n"@),
                    options,
                ),
            }
        },
    }
}

/// What copying a note makes of the files.
pub open spec fn note_copied(
    files: memory::Tree,
    git: Seq<u8>,
    head: Option<Seq<u8>>,
    source: Seq<u8>,
    target: Seq<u8>,
    force: bool,
    author: SignatureModel,
    committer: SignatureModel,
    options: NotesOptions,
) -> (memory::Tree, core::result::Result<(NotesEditModel, NoteModel), Refusal>) {
    match storage::stored_object(files, git, target, options.max_object_size as nat) {
        Err(refusal) => (files, Err(refusal)),
        Ok(_) => match notes_of(files, git, head, options) {
            Err(refusal) => (files, Err(refusal)),
            Ok(list) => match note_on(list, source, 0) {
                None => (
                    files,
                    Err(Refusal::Said(Error::InvalidObject("no note found for object"))),
                ),
                Some(note) => {
                    let (after, outcome) = note_change(
                        files,
                        git,
                        head,
                        target,
                        Some(note.blob),
                        force,
                        author,
                        committer,
                        bytes::utf8("Notes copied by git-rs\n"@),
                        options,
                    );
                    (
                        after,
                        match outcome {
                            Err(refusal) => Err(refusal),
                            Ok(edit) => Ok((edit, NoteModel { target, ..note })),
                        },
                    )
                },
            },
        },
    }
}

impl Repository {
    /// Add or replace a note. The change of the notes reference that keeps it
    /// is given back with the note.
    pub fn add_note(
        &mut self,
        head: Option<ObjectId>,
        target: ObjectId,
        message: &[u8],
        force: bool,
        author: &Signature,
        committer: &Signature,
        options: &NotesOptions,
    ) -> (r: Result<(NotesEdit, Note)>)
        ensures
            final(self).git() == old(self).git(),
            final(self).work() == old(self).work(),
            ({
                let (after, outcome) = note_added(
                    old(self).tree(),
                    old(self).git(),
                    raw(head),
                    target@,
                    message@,
                    force,
                    author@,
                    committer@,
                    *options,
                );
                &&& final(self).tree() == after
                &&& match outcome {
                    Ok(edit) => r is Ok && r->Ok_0.0@ == edit && r->Ok_0.1@ == (NoteModel {
                        target: target@,
                        blob: object::object_id(ObjectKind::Blob, message@),
                        message: message@,
                    }),
                    Err(refusal) => fs::declined(r, refusal),
                }
            }),
    {
        self.read_object_raw(target, options.max_object_size)?;
        let blob = self.write_object(ObjectKind::Blob, message)?;
        let edit = self.change_note(
            head,
            target,
            Some(blob),
            force,
            author,
            committer,
            "Notes added by git-rs\n".as_bytes(),
            options,
        )?;
        Ok((edit, Note { target, blob, message: bytes::to_vec(message) }))
    }

    /// Copy the note on one object to another.
    pub fn copy_note(
        &mut self,
        head: Option<ObjectId>,
        source: ObjectId,
        target: ObjectId,
        force: bool,
        author: &Signature,
        committer: &Signature,
        options: &NotesOptions,
    ) -> (r: Result<(NotesEdit, Note)>)
        ensures
            final(self).git() == old(self).git(),
            final(self).work() == old(self).work(),
            ({
                let (after, outcome) = note_copied(
                    old(self).tree(),
                    old(self).git(),
                    raw(head),
                    source@,
                    target@,
                    force,
                    author@,
                    committer@,
                    *options,
                );
                &&& final(self).tree() == after
                &&& match outcome {
                    Ok((edit, note)) => r is Ok && r->Ok_0.0@ == edit && r->Ok_0.1@ == note,
                    Err(refusal) => fs::declined(r, refusal),
                }
            }),
    {
        self.read_object_raw(target, options.max_object_size)?;
        let note = match self.note(head, source, options)? {
            Some(note) => note,
            None => return Err(Error::InvalidObject("no note found for object")),
        };
        let edit = self.change_note(
            head,
            target,
            Some(note.blob),
            force,
            author,
            committer,
            "Notes copied by git-rs\n".as_bytes(),
            options,
        )?;
        Ok((edit, Note { target, blob: note.blob, message: note.message }))
    }

    /// Remove the note on an object.
    pub fn remove_note(
        &mut self,
        head: Option<ObjectId>,
        target: ObjectId,
        author: &Signature,
        committer: &Signature,
        options: &NotesOptions,
    ) -> (r: Result<NotesEdit>)
        ensures
            final(self).git() == old(self).git(),
            final(self).work() == old(self).work(),
            ({
                let (after, outcome) = note_change(
                    old(self).tree(),
                    old(self).git(),
                    raw(head),
                    target@,
                    None,
                    false,
                    author@,
                    committer@,
                    bytes::utf8("Notes removed by git-rs\n"@),
                    *options,
                );
                &&& final(self).tree() == after
                &&& match outcome {
                    Ok(edit) => r is Ok && r->Ok_0@ == edit,
                    Err(refusal) => fs::declined(r, refusal),
                }
            }),
    {
        self.change_note(
            head,
            target,
            None,
            false,
            author,
            committer,
            "Notes removed by git-rs\n".as_bytes(),
            options,
        )
    }
}

// ---------------------------------------------------------------------------
// Laws

proof fn lemma_cut_flat(text: Seq<u8>, path: Seq<Seq<u8>>, n: int)
    requires
        0 <= n <= path.len(),
        flat(path, path.len() as int).len() == text.len(),
    ensures
        cut_like(text, path, n).len() == n,
        flat(cut_like(text, path, n), n) == text.take(flat(path, n).len() as int),
    decreases n,
{
    lemma_flat_grows(path, n, path.len() as int);
    if n > 0 {
        lemma_cut_flat(text, path, n - 1);
        let before = cut_like(text, path, n - 1);
        let parts = cut_like(text, path, n);
        let at = flat(path, n - 1).len() as int;
        lemma_flat_same(before, parts, n - 1);
        assert(parts[n - 1] == text.subrange(at, at + path[n - 1].len()));
        assert(text.take(at) + parts[n - 1] =~= text.take(at + path[n - 1].len()));
    } else {
        assert(text.take(0) =~= Seq::empty());
    }
}

proof fn lemma_flat_same(a: Seq<Seq<u8>>, b: Seq<Seq<u8>>, n: int)
    requires
        0 <= n <= a.len(),
        n <= b.len(),
        forall|i: int| 0 <= i < n ==> a[i] == b[i],
    ensures
        flat(a, n) == flat(b, n),
    decreases n,
{
    if n > 0 {
        lemma_flat_same(a, b, n - 1);
    }
}

proof fn lemma_fanout_spells(target: Seq<u8>, list: Seq<Stored>)
    requires
        target.len() == 20,
    ensures
        target_of(fanout(target, list)) == Some(target),
{
    let hex = object::hex_of(target);
    object::lemma_unhex_of_hex(target);
    match first_note(list, 0) {
        None => {
            reveal_with_fuel(flat, 2);
            assert(flat(seq![hex], 1) =~= hex);
        },
        Some(entry) => {
            lemma_first_note(list, 0);
            let n = entry.path.len() as int;
            lemma_cut_flat(hex, entry.path, n);
            assert(hex.take(hex.len() as int) =~= hex);
        },
    }
}

proof fn lemma_first_note(list: Seq<Stored>, from: int)
    ensures
        first_note(list, from) matches Some(entry) ==> target_of(entry.path) is Some,
    decreases list.len() - from,
{
    if 0 <= from < list.len() && target_of(list[from].path) is None {
        lemma_first_note(list, from + 1);
    }
}

proof fn lemma_first_on(list: Seq<Stored>, target: Seq<u8>, from: int)
    ensures
        first_on(list, target, from) matches Some(entry) ==> target_of(entry.path) == Some(target),
    decreases list.len() - from,
{
    if 0 <= from < list.len() && target_of(list[from].path) != Some(target) {
        lemma_first_on(list, target, from + 1);
    }
}

proof fn lemma_others_none(list: Seq<Stored>, target: Seq<u8>, n: int)
    requires
        0 <= n <= list.len(),
    ensures
        forall|i: int|
            0 <= i < others(list, target, n).len() ==> target_of(
                (#[trigger] others(list, target, n)[i]).path,
            ) != Some(target),
    decreases n,
{
    if n > 0 {
        lemma_others_none(list, target, n - 1);
    }
}

/// Once a note is added or replaced, it is the last file and the only note on
/// its object, and it leads to the new blob; the other files stay as they
/// were.
pub proof fn lemma_added_reads_back(
    list: Seq<Stored>,
    target: Seq<u8>,
    blob: Seq<u8>,
    force: bool,
)
    requires
        target.len() == 20,
        changed(list, target, Some(blob), force) is Ok,
    ensures
        ({
            let next = changed(list, target, Some(blob), force)->Ok_0;
            let kept = others(list, target, list.len() as int);
            &&& next.drop_last() == kept
            &&& target_of(next.last().path) == Some(target)
            &&& next.last().id == blob
            &&& next.last().mode is Blob
            &&& forall|i: int|
                0 <= i < kept.len() ==> target_of((#[trigger] kept[i]).path) != Some(target)
        }),
{
    let kept = others(list, target, list.len() as int);
    let next = changed(list, target, Some(blob), force)->Ok_0;
    lemma_others_none(list, target, list.len() as int);
    lemma_first_on(list, target, 0);
    lemma_fanout_spells(target, kept);
    assert(next.drop_last() =~= kept);
}

/// Once a note is removed, no file is a note on its object, and removing it
/// again is refused.
pub proof fn lemma_removed_is_gone(list: Seq<Stored>, target: Seq<u8>)
    requires
        changed(list, target, None, false) is Ok,
    ensures
        ({
            let next = changed(list, target, None, false)->Ok_0;
            &&& forall|i: int|
                0 <= i < next.len() ==> target_of((#[trigger] next[i]).path) != Some(target)
            &&& changed(next, target, None, false) == Err::<Seq<Stored>, Refusal>(
                Refusal::At(Fault::NotFound, object::hex_of(target)),
            )
        }),
{
    lemma_others_none(list, target, list.len() as int);
    let next = changed(list, target, None, false)->Ok_0;
    lemma_count_none(next, target, next.len() as int);
}

proof fn lemma_count_none(list: Seq<Stored>, target: Seq<u8>, n: int)
    requires
        0 <= n <= list.len(),
        forall|i: int|
            0 <= i < list.len() ==> target_of((#[trigger] list[i]).path) != Some(target),
    ensures
        count_on(list, target, n) == 0,
    decreases n,
{
    if n > 0 {
        lemma_count_none(list, target, n - 1);
        assert(target_of(list[n - 1].path) != Some(target));
    }
}

/// Whether a file is a note that a listing shows.
pub open spec fn is_shown(
    files: memory::Tree,
    git: Seq<u8>,
    entry: Stored,
    limit: nat,
    note: NoteModel,
) -> bool {
    target_of(entry.path) == Some(note.target) && note_in(files, git, entry, note.target, limit)
        == Ok::<NoteModel, Refusal>(note)
}

proof fn lemma_inserted<A>(list: Seq<A>, at: int, value: A)
    requires
        0 <= at <= list.len(),
    ensures
        forall|x: A| #[trigger] list.insert(at, value).contains(x) <==> list.contains(x) || x == value,
{
    let next = list.insert(at, value);
    assert forall|x: A| #[trigger] next.contains(x) <==> list.contains(x) || x == value by {
        if next.contains(x) {
            let i = next.index_of(x);
            if i < at {
                assert(list[i] == x);
            } else if i > at {
                assert(list[i - 1] == x);
            }
        }
        if list.contains(x) {
            let i = list.index_of(x);
            if i < at {
                assert(next[i] == x);
            } else {
                assert(next[i + 1] == x);
            }
        }
        if x == value {
            assert(next[at] == value);
        }
    }
}

proof fn lemma_place_bounds(list: Seq<NoteModel>, target: Seq<u8>, from: int)
    requires
        0 <= from <= list.len(),
    ensures
        0 <= note_place(list, target, from) <= list.len(),
    decreases list.len() - from,
{
    if from < list.len() && !bytes::lex_lt(target, list[from].target) {
        lemma_place_bounds(list, target, from + 1);
    }
}

/// A listing shows the notes among the files, and nothing else.
pub proof fn lemma_shown(
    files: memory::Tree,
    git: Seq<u8>,
    entries: Seq<Stored>,
    limit: nat,
    n: int,
)
    requires
        0 <= n <= entries.len(),
        notes_among(files, git, entries, limit, n) is Ok,
    ensures
        forall|note: NoteModel| #[trigger]
            (notes_among(files, git, entries, limit, n)->Ok_0).contains(note) <==> exists|i: int|
                0 <= i < n && #[trigger] is_shown(files, git, entries[i], limit, note),
    decreases n,
{
    if n > 0 {
        lemma_shown(files, git, entries, limit, n - 1);
        let before = notes_among(files, git, entries, limit, n - 1)->Ok_0;
        let after = notes_among(files, git, entries, limit, n)->Ok_0;
        let entry = entries[n - 1];
        if target_of(entry.path) is Some {
            let target = target_of(entry.path)->0;
            let added = note_in(files, git, entry, target, limit)->Ok_0;
            lemma_place_bounds(before, target, 0);
            lemma_inserted(before, note_place(before, target, 0), added);
            assert(is_shown(files, git, entry, limit, added));
            assert forall|note: NoteModel| #[trigger] after.contains(note) <==> exists|i: int|
                0 <= i < n && #[trigger] is_shown(files, git, entries[i], limit, note) by {
                assert(after.contains(note) <==> before.contains(note) || note == added);
                if after.contains(note) && before.contains(note) {
                    let i = choose|i: int|
                        0 <= i < n - 1 && #[trigger] is_shown(files, git, entries[i], limit, note);
                    assert(0 <= i < n && is_shown(files, git, entries[i], limit, note));
                } else if after.contains(note) {
                    assert(is_shown(files, git, entries[n - 1], limit, note));
                }
            }
        } else {
            assert forall|note: NoteModel| #[trigger] after.contains(note) <==> exists|i: int|
                0 <= i < n && #[trigger] is_shown(files, git, entries[i], limit, note) by {
                if after.contains(note) {
                    let i = choose|i: int|
                        0 <= i < n - 1 && #[trigger] is_shown(files, git, entries[i], limit, note);
                    assert(0 <= i < n && is_shown(files, git, entries[i], limit, note));
                }
            }
        }
    }
}

/// The other files are those that are no note on the object.
pub proof fn lemma_others_are(list: Seq<Stored>, target: Seq<u8>, n: int)
    requires
        0 <= n <= list.len(),
    ensures
        forall|x: Stored| #[trigger]
            others(list, target, n).contains(x) <==> list.take(n).contains(x) && target_of(x.path)
                != Some(target),
    decreases n,
{
    if n > 0 {
        lemma_others_are(list, target, n - 1);
        let before = others(list, target, n - 1);
        let after = others(list, target, n);
        let last = list[n - 1];
        assert forall|x: Stored| #[trigger] after.contains(x) <==> list.take(n).contains(x)
            && target_of(x.path) != Some(target) by {
            assert(list.take(n) =~= list.take(n - 1).push(last));
            lemma_inserted(list.take(n - 1), n - 1, last);
            assert(list.take(n - 1).insert(n - 1, last) =~= list.take(n - 1).push(last));
            lemma_inserted(before, before.len() as int, last);
            assert(before.insert(before.len() as int, last) =~= before.push(last));
            assert(before.contains(x) <==> list.take(n - 1).contains(x) && target_of(x.path)
                != Some(target));
        }
    } else {
        assert(list.take(n) =~= Seq::empty());
    }
}

/// Where files change by the note on an object alone, a listing shows the same
/// notes on all other objects as before.
pub proof fn lemma_others_shown(
    files: memory::Tree,
    git: Seq<u8>,
    list: Seq<Stored>,
    next: Seq<Stored>,
    target: Seq<u8>,
    limit: nat,
)
    requires
        notes_among(files, git, list, limit, list.len() as int) is Ok,
        notes_among(files, git, next, limit, next.len() as int) is Ok,
        forall|x: Stored|
            target_of(x.path) != Some(target) ==> (#[trigger] next.contains(x) <==> list.contains(
                x,
            )),
    ensures
        ({
            let before = notes_among(files, git, list, limit, list.len() as int)->Ok_0;
            let after = notes_among(files, git, next, limit, next.len() as int)->Ok_0;
            forall|note: NoteModel|
                note.target != target ==> (#[trigger] after.contains(note) <==> before.contains(
                    note,
                ))
        }),
{
    let before = notes_among(files, git, list, limit, list.len() as int)->Ok_0;
    let after = notes_among(files, git, next, limit, next.len() as int)->Ok_0;
    lemma_shown(files, git, list, limit, list.len() as int);
    lemma_shown(files, git, next, limit, next.len() as int);
    assert forall|note: NoteModel| note.target != target implies (#[trigger] after.contains(note)
        <==> before.contains(note)) by {
        if after.contains(note) {
            let i = choose|i: int|
                0 <= i < next.len() && #[trigger] is_shown(files, git, next[i], limit, note);
            assert(next.contains(next[i]));
            let k = list.index_of(next[i]);
            assert(is_shown(files, git, list[k], limit, note));
        }
        if before.contains(note) {
            let i = choose|i: int|
                0 <= i < list.len() && #[trigger] is_shown(files, git, list[i], limit, note);
            assert(list.contains(list[i]));
            assert(next.contains(list[i]));
            let k = next.index_of(list[i]);
            assert(is_shown(files, git, next[k], limit, note));
        }
    }
}

/// Once a note is added or replaced among the files, they show it as the one
/// note on its object, and the same notes on all other objects as before.
pub proof fn lemma_listing_after_adding(
    files: memory::Tree,
    git: Seq<u8>,
    list: Seq<Stored>,
    target: Seq<u8>,
    blob: Seq<u8>,
    force: bool,
    limit: nat,
)
    requires
        target.len() == 20,
        changed(list, target, Some(blob), force) is Ok,
        notes_among(files, git, list, limit, list.len() as int) is Ok,
        ({
            let next = changed(list, target, Some(blob), force)->Ok_0;
            notes_among(files, git, next, limit, next.len() as int) is Ok
        }),
    ensures
        ({
            let next = changed(list, target, Some(blob), force)->Ok_0;
            let before = notes_among(files, git, list, limit, list.len() as int)->Ok_0;
            let after = notes_among(files, git, next, limit, next.len() as int)->Ok_0;
            &&& forall|note: NoteModel|
                note.target != target ==> (#[trigger] after.contains(note) <==> before.contains(
                    note,
                ))
            &&& forall|note: NoteModel| #[trigger]
                after.contains(note) && note.target == target ==> note.blob == blob
            &&& exists|note: NoteModel| #[trigger]
                after.contains(note) && note.target == target && note.blob == blob
        }),
{
    let next = changed(list, target, Some(blob), force)->Ok_0;
    let n = list.len() as int;
    let m = next.len() as int;
    let kept = others(list, target, n);
    let after = notes_among(files, git, next, limit, m)->Ok_0;
    lemma_added_reads_back(list, target, blob, force);
    lemma_others_are(list, target, n);
    assert(list.take(n) =~= list);
    assert(next =~= kept.push(next.last()));
    assert forall|x: Stored| target_of(x.path) != Some(target) implies (#[trigger] next.contains(x)
        <==> list.contains(x)) by {
        lemma_inserted(kept, kept.len() as int, next.last());
        assert(kept.insert(kept.len() as int, next.last()) =~= next);
    }
    lemma_others_shown(files, git, list, next, target, limit);
    lemma_shown(files, git, next, limit, m);
    assert forall|note: NoteModel| #[trigger]
        after.contains(note) && note.target == target implies note.blob == blob by {
        let i = choose|i: int|
            0 <= i < m && #[trigger] is_shown(files, git, next[i], limit, note);
        if i < m - 1 {
            assert(next[i] == kept[i]);
        }
    }
    let added = note_in(files, git, next.last(), target, limit);
    assert(notes_among(files, git, next, limit, m) is Ok);
    assert(added is Ok);
    assert(is_shown(files, git, next[m - 1], limit, added->Ok_0));
    assert(after.contains(added->Ok_0));
}

/// Once a note is removed from the files, they show no note on its object, and
/// the same notes on all other objects as before.
pub proof fn lemma_listing_after_removing(
    files: memory::Tree,
    git: Seq<u8>,
    list: Seq<Stored>,
    target: Seq<u8>,
    limit: nat,
)
    requires
        changed(list, target, None, false) is Ok,
        notes_among(files, git, list, limit, list.len() as int) is Ok,
        ({
            let next = changed(list, target, None, false)->Ok_0;
            notes_among(files, git, next, limit, next.len() as int) is Ok
        }),
    ensures
        ({
            let next = changed(list, target, None, false)->Ok_0;
            let before = notes_among(files, git, list, limit, list.len() as int)->Ok_0;
            let after = notes_among(files, git, next, limit, next.len() as int)->Ok_0;
            forall|note: NoteModel| #[trigger]
                after.contains(note) <==> before.contains(note) && note.target != target
        }),
{
    let next = changed(list, target, None, false)->Ok_0;
    let n = list.len() as int;
    let m = next.len() as int;
    let before = notes_among(files, git, list, limit, n)->Ok_0;
    let after = notes_among(files, git, next, limit, m)->Ok_0;
    lemma_others_are(list, target, n);
    assert(list.take(n) =~= list);
    assert forall|x: Stored| target_of(x.path) != Some(target) implies (#[trigger] next.contains(x)
        <==> list.contains(x)) by {}
    lemma_others_shown(files, git, list, next, target, limit);
    lemma_removed_is_gone(list, target);
    lemma_shown(files, git, next, limit, m);
    assert forall|note: NoteModel| #[trigger] after.contains(note) implies note.target != target by {
        let i = choose|i: int|
            0 <= i < m && #[trigger] is_shown(files, git, next[i], limit, note);
        assert(target_of(next[i].path) != Some(target));
    }
    assert forall|note: NoteModel| #[trigger] after.contains(note) <==> before.contains(note)
        && note.target != target by {
        if note.target != target {
            assert(after.contains(note) <==> before.contains(note));
        }
    }
}

} // verus!
