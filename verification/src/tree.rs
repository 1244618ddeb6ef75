//! Tree objects: the names, modes and identifiers of a directory.

use vstd::prelude::*;

use crate::bytes;
use crate::fs;
use crate::fs::Refusal;
use crate::object::{ObjectId, ObjectKind};
use crate::repository::Repository;
use crate::storage;
use crate::{Error, Result};

verus! {

/// What an entry of a tree is.
#[derive(Clone, Copy, Debug, PartialEq, Eq, Structural)]
pub enum EntryMode {
    Blob,
    BlobExecutable,
    Link,
    Tree,
    Gitlink,
}

/// The number that stands for a mode.
pub open spec fn mode_value(mode: EntryMode) -> u32 {
    match mode {
        EntryMode::Blob => 0o100_644,
        EntryMode::BlobExecutable => 0o100_755,
        EntryMode::Link => 0o120_000,
        EntryMode::Tree => 0o040_000,
        EntryMode::Gitlink => 0o160_000,
    }
}

/// The kind of object that an entry of a mode names.
pub open spec fn kind_of_mode(mode: EntryMode) -> ObjectKind {
    match mode {
        EntryMode::Tree => ObjectKind::Tree,
        EntryMode::Gitlink => ObjectKind::Commit,
        _ => ObjectKind::Blob,
    }
}

/// The mode that a number stands for: its type bits decide, and the
/// executable bits of a regular file.
pub open spec fn mode_of(raw: u32) -> Option<EntryMode> {
    let kind = raw / 4096 % 16;
    if kind == 8 {
        if raw / 64 % 2 == 0 && raw / 8 % 2 == 0 && raw % 2 == 0 {
            Some(EntryMode::Blob)
        } else {
            Some(EntryMode::BlobExecutable)
        }
    } else if kind == 10 {
        Some(EntryMode::Link)
    } else if kind == 4 {
        Some(EntryMode::Tree)
    } else if kind == 14 {
        Some(EntryMode::Gitlink)
    } else {
        None
    }
}

pub fn mode_from(raw: u32) -> (r: Option<EntryMode>)
    ensures
        r == mode_of(raw),
{
    let kind: u32 = raw / 4096 % 16;
    if kind == 8 {
        if raw / 64 % 2 == 0 && raw / 8 % 2 == 0 && raw % 2 == 0 {
            Some(EntryMode::Blob)
        } else {
            Some(EntryMode::BlobExecutable)
        }
    } else if kind == 10 {
        Some(EntryMode::Link)
    } else if kind == 4 {
        Some(EntryMode::Tree)
    } else if kind == 14 {
        Some(EntryMode::Gitlink)
    } else {
        None
    }
}

impl EntryMode {
    pub fn number(self) -> (r: u32)
        ensures
            r == mode_value(self),
    {
        match self {
            EntryMode::Blob => 0o100_644,
            EntryMode::BlobExecutable => 0o100_755,
            EntryMode::Link => 0o120_000,
            EntryMode::Tree => 0o040_000,
            EntryMode::Gitlink => 0o160_000,
        }
    }

    pub fn object_kind(self) -> (r: ObjectKind)
        ensures
            r == kind_of_mode(self),
    {
        match self {
            EntryMode::Tree => ObjectKind::Tree,
            EntryMode::Gitlink => ObjectKind::Commit,
            _ => ObjectKind::Blob,
        }
    }
}

/// Every mode is the one that its number stands for.
pub proof fn lemma_mode_round_trip(mode: EntryMode)
    ensures
        mode_of(mode_value(mode)) == Some(mode),
{
}

// ---------------------------------------------------------------------------
// Octal numbers

/// The octal digits of a number.
pub open spec fn octal(n: nat) -> Seq<u8>
    decreases n,
{
    if n < 8 {
        seq![(48 + n) as u8]
    } else {
        octal(n / 8).push((48 + n % 8) as u8)
    }
}

/// The number that octal digits denote, where all are octal digits.
pub open spec fn octal_number(text: Seq<u8>) -> Option<nat>
    decreases text.len(),
{
    if text.len() == 0 {
        Some(0)
    } else {
        match octal_number(text.drop_last()) {
            None => None,
            Some(front) => if 48 <= text.last() <= 55 {
                Some((front * 8 + (text.last() - 48)) as nat)
            } else {
                None
            },
        }
    }
}

/// The number that a text denotes in octal, after an optional plus sign, where
/// it fits in 32 bits.
pub open spec fn octal_value(text: Seq<u8>) -> Option<u32> {
    let digits = if text.len() > 0 && text[0] == 43 {
        text.skip(1)
    } else {
        text
    };
    match octal_number(digits) {
        Some(n) => if digits.len() > 0 && n <= u32::MAX {
            Some(n as u32)
        } else {
            None
        },
        None => None,
    }
}

proof fn lemma_octal_prefix(text: Seq<u8>, n: int)
    requires
        0 <= n <= text.len(),
    ensures
        octal_number(text.take(n)) is None ==> octal_number(text) is None,
        octal_number(text.take(n)) is Some && octal_number(text) is Some ==> octal_number(
            text.take(n),
        )->0 <= octal_number(text)->0,
    decreases text.len(),
{
    if n == text.len() {
        assert(text.take(n) =~= text);
    } else {
        lemma_octal_prefix(text.drop_last(), n);
        assert(text.drop_last().take(n) =~= text.take(n));
    }
}

/// Reads an octal number.
pub fn parse_octal(text: &[u8]) -> (r: Option<u32>)
    ensures
        r == octal_value(text@),
{
    let start: usize = if text.len() > 0 && text[0] == 43 {
        1
    } else {
        0
    };
    let digits = &text[start..text.len()];
    assert(digits@ =~= if text@.len() > 0 && text@[0] == 43 {
        text@.skip(1)
    } else {
        text@
    });
    if digits.len() == 0 {
        return None;
    }
    let mut value: u32 = 0;
    let mut i: usize = 0;
    while i < digits.len()
        invariant
            i <= digits@.len(),
            octal_number(digits@.take(i as int)) == Some(value as nat),
            digits@.len() > 0,
            digits@ == if text@.len() > 0 && text@[0] == 43 {
                text@.skip(1)
            } else {
                text@
            },
        decreases digits@.len() - i,
    {
        let byte: u8 = digits[i];
        assert(digits@.take(i + 1).drop_last() =~= digits@.take(i as int));
        proof {
            lemma_octal_prefix(digits@, i + 1);
        }
        if byte < 48 || byte > 55 {
            return None;
        }
        let next: u64 = value as u64 * 8 + (byte - 48) as u64;
        if next > u32::MAX as u64 {
            return None;
        }
        value = next as u32;
        i += 1;
    }
    assert(digits@.take(i as int) =~= digits@);
    Some(value)
}

/// Writes a number in octal.
pub fn push_octal(out: &mut Vec<u8>, value: u32)
    ensures
        final(out)@ == old(out)@ + octal(value as nat),
    decreases value,
{
    if value >= 8 {
        push_octal(out, value / 8);
    }
    out.push((48 + value % 8) as u8);
    assert(out@ =~= old(out)@ + octal(value as nat));
}

// ---------------------------------------------------------------------------
// Entries

/// One entry of a tree.
#[derive(Debug, PartialEq, Eq)]
pub struct TreeEntry {
    mode: EntryMode,
    name: Vec<u8>,
    id: ObjectId,
}

/// What an entry of a tree says.
#[verifier::ext_equal]
pub struct TreeItem {
    pub mode: EntryMode,
    pub name: Seq<u8>,
    pub id: Seq<u8>,
}

impl View for TreeEntry {
    type V = TreeItem;

    closed spec fn view(&self) -> TreeItem {
        TreeItem { mode: self.mode, name: self.name@, id: self.id@ }
    }
}

/// What a list of entries says.
pub open spec fn items(list: Seq<TreeEntry>) -> Seq<TreeItem> {
    Seq::new(list.len(), |i: int| list[i]@)
}

/// A name that an entry can have.
pub open spec fn entry_name(name: Seq<u8>) -> bool {
    name.len() > 0 && !name.contains(47) && !name.contains(0)
}

impl TreeEntry {
    pub fn new(mode: EntryMode, name: Vec<u8>, id: ObjectId) -> (r: Result<Self>)
        ensures
            if entry_name(name@) {
                r is Ok && r->Ok_0@ == (TreeItem { mode, name: name@, id: id@ })
            } else {
                r is Err && r->Err_0 == Error::InvalidTree("invalid tree entry name")
            },
    {
        if name.len() == 0 || bytes::contains_byte(name.as_slice(), 47) || bytes::contains_byte(
            name.as_slice(),
            0,
        ) {
            return Err(Error::InvalidTree("invalid tree entry name"));
        }
        Ok(TreeEntry { mode, name, id })
    }

    pub fn mode(&self) -> (r: EntryMode)
        ensures
            r == self@.mode,
    {
        self.mode
    }

    pub fn name(&self) -> (r: &[u8])
        ensures
            r@ == self@.name,
    {
        self.name.as_slice()
    }

    pub fn id(&self) -> (r: ObjectId)
        ensures
            r@ == self@.id,
    {
        self.id
    }
}

impl Clone for TreeEntry {
    fn clone(&self) -> (r: Self)
        ensures
            r@ == self@,
    {
        TreeEntry { mode: self.mode, name: bytes::to_vec(self.name.as_slice()), id: self.id }
    }
}

/// The entries from `at` on, or why they are refused.
pub open spec fn items_from(data: Seq<u8>, at: int) -> core::result::Result<Seq<TreeItem>, Error>
    decreases data.len() - at,
    via items_from_decreases
{
    if at < 0 || at >= data.len() {
        Ok(Seq::empty())
    } else {
        let space = bytes::index_from(data, 32, at);
        let end = bytes::index_from(data, 0, space);
        if space >= data.len() || end >= data.len() || end + 21 > data.len() {
            Err(Error::InvalidTree("truncated tree entry"))
        } else {
            let name = data.subrange(space + 1, end);
            match octal_value(data.subrange(at, space)) {
                None => Err(Error::InvalidTree("invalid tree entry mode")),
                Some(raw) => match mode_of(raw) {
                    None => Err(Error::InvalidTree("invalid tree entry mode")),
                    Some(mode) => if !entry_name(name) {
                        Err(Error::InvalidTree("invalid tree entry name"))
                    } else {
                        crate::index::prepend(
                            seq![TreeItem { mode, name, id: data.subrange(end + 1, end + 21) }],
                            items_from(data, end + 21),
                        )
                    },
                },
            }
        }
    }
}

#[via_fn]
proof fn items_from_decreases(data: Seq<u8>, at: int) {
    if 0 <= at < data.len() {
        bytes::lemma_index_from(data, 32, at);
        bytes::lemma_index_from(data, 0, bytes::index_from(data, 32, at));
    }
}

/// A directory of the object database.
#[derive(Debug, PartialEq, Eq)]
pub struct Tree {
    entries: Vec<TreeEntry>,
}

impl View for Tree {
    type V = Seq<TreeItem>;

    closed spec fn view(&self) -> Seq<TreeItem> {
        items(self.entries@)
    }
}

impl Tree {
    pub fn from_entries(entries: Vec<TreeEntry>) -> (r: Self)
        ensures
            r@ == items(entries@),
    {
        Tree { entries }
    }

    pub fn entries(&self) -> (r: &[TreeEntry])
        ensures
            items(r@) == self@,
    {
        self.entries.as_slice()
    }

    /// Reads the contents of a tree object.
    pub fn parse(data: &[u8]) -> (r: Result<Self>)
        ensures
            match items_from(data@, 0) {
                Ok(list) => r is Ok && r->Ok_0@ == list,
                Err(error) => r is Err && r->Err_0 == error,
            },
    {
        let mut entries: Vec<TreeEntry> = Vec::new();
        let mut at: usize = 0;
        let ghost whole = items_from(data@, 0);
        assert(match whole {
            Ok(list) => items(entries@) + list =~= list,
            Err(_) => true,
        });
        while at < data.len()
            invariant
                at <= data@.len(),
                whole == items_from(data@, 0),
                whole == crate::index::prepend(items(entries@), items_from(data@, at as int)),
            decreases data@.len() - at,
        {
            let space: usize = bytes::find_byte(data, 32, at);
            if space >= data.len() {
                proof {
                    bytes::lemma_index_from(data@, 0, space as int);
                }
                return Err(Error::InvalidTree("truncated tree entry"));
            }
            let end: usize = bytes::find_byte(data, 0, space);
            if end >= data.len() || data.len() - end < 21 {
                return Err(Error::InvalidTree("truncated tree entry"));
            }
            let raw: u32 = match parse_octal(&data[at..space]) {
                Some(raw) => raw,
                None => return Err(Error::InvalidTree("invalid tree entry mode")),
            };
            let mode = match mode_from(raw) {
                Some(mode) => mode,
                None => return Err(Error::InvalidTree("invalid tree entry mode")),
            };
            let name = bytes::copy_range(data, space + 1, end);
            let id = ObjectId::read(data, end + 1);
            let ghost before = items(entries@);
            let entry = TreeEntry::new(mode, name, id)?;
            let ghost item = entry@;
            entries.push(entry);
            proof {
                assert(items(entries@) =~= before + seq![item]);
                match items_from(data@, end + 21) {
                    Ok(list) => {
                        assert(before + (seq![item] + list) =~= items(entries@) + list);
                    },
                    Err(_) => {},
                }
            }
            at = end + 21;
        }
        assert(items(entries@) + Seq::empty() =~= items(entries@));
        Ok(Tree { entries })
    }

    /// The contents of a tree object.
    pub fn encode(&self) -> (r: Vec<u8>)
        ensures
            r@ == tree_bytes(self@),
    {
        let ghost list = self@;
        let mut out: Vec<u8> = Vec::new();
        let mut i: usize = 0;
        assert(out@ =~= tree_bytes(list.take(0)));
        while i < self.entries.len()
            invariant
                i <= self.entries@.len(),
                list == items(self.entries@),
                out@ == tree_bytes(list.take(i as int)),
            decreases self.entries@.len() - i,
        {
            let entry = &self.entries[i];
            let ghost before = out@;
            push_octal(&mut out, entry.mode.number());
            out.push(32);
            bytes::append(&mut out, entry.name.as_slice());
            out.push(0);
            bytes::append(&mut out, entry.id.as_bytes().as_slice());
            assert(list.take(i + 1).drop_last() =~= list.take(i as int));
            assert(list.take(i + 1).last() == entry@);
            assert(out@ =~= before + item_bytes(entry@));
            i += 1;
        }
        assert(list.take(i as int) =~= list);
        out
    }
}

/// What an entry is sorted by: a directory as if its name ended in a slash.
pub open spec fn item_key(item: TreeItem) -> Seq<u8> {
    item.name.push(
        if item.mode is Tree {
            47u8
        } else {
            0u8
        },
    )
}

/// The place of an entry: before the first with a greater key.
pub open spec fn item_place(list: Seq<TreeItem>, key: Seq<u8>, from: int) -> int
    decreases list.len() - from,
{
    if from < 0 || from >= list.len() {
        list.len() as int
    } else if bytes::lex_lt(key, item_key(list[from])) {
        from
    } else {
        item_place(list, key, from + 1)
    }
}

/// A list of entries with one more at its place.
pub open spec fn with_item(list: Seq<TreeItem>, item: TreeItem) -> Seq<TreeItem> {
    list.insert(item_place(list, item_key(item), 0), item)
}

fn key_of(entry: &TreeEntry) -> (r: Vec<u8>)
    ensures
        r@ == item_key(entry@),
{
    let mut key = bytes::to_vec(entry.name.as_slice());
    key.push(
        match entry.mode {
            EntryMode::Tree => 47,
            _ => 0,
        },
    );
    key
}

/// Puts an entry in its place.
pub fn insert_entry(list: &mut Vec<TreeEntry>, entry: TreeEntry)
    ensures
        items(final(list)@) == with_item(items(old(list)@), entry@),
{
    let ghost before = list@;
    let ghost all = items(list@);
    let ghost model = entry@;
    let key = key_of(&entry);
    let mut i: usize = 0;
    while i < list.len()
        invariant_except_break
            i <= list@.len(),
            list@ == before,
            all == items(before),
            key@ == item_key(model),
            item_place(all, key@, 0) == item_place(all, key@, i as int),
        ensures
            i <= list@.len(),
            list@ == before,
            item_place(all, key@, 0) == i,
        decreases list@.len() - i,
    {
        assert(all[i as int] == list@[i as int]@);
        let other = key_of(&list[i]);
        if bytes::bytes_lt(key.as_slice(), other.as_slice()) {
            break ;
        }
        i += 1;
    }
    list.insert(i, entry);
    assert(items(list@) =~= all.insert(i as int, model));
}

/// One entry in the contents of a tree object.
pub open spec fn item_bytes(item: TreeItem) -> Seq<u8> {
    octal(mode_value(item.mode) as nat) + seq![32u8] + item.name + seq![0u8] + item.id
}

/// The contents of a tree object.
pub open spec fn tree_bytes(list: Seq<TreeItem>) -> Seq<u8>
    decreases list.len(),
{
    if list.len() == 0 {
        Seq::empty()
    } else {
        tree_bytes(list.drop_last()) + item_bytes(list.last())
    }
}

/// The tree that a repository holds under an identifier, or why it is refused.
#[verifier::opaque]
pub open spec fn stored_tree(
    files: fs::memory::Tree,
    git: Seq<u8>,
    id: Seq<u8>,
    limit: nat,
) -> core::result::Result<Seq<TreeItem>, Refusal> {
    match storage::stored_object(files, git, id, limit) {
        Err(refusal) => Err(refusal),
        Ok((kind, data)) => if kind != ObjectKind::Tree {
            Err(Refusal::Said(Error::InvalidTree("object is not a tree")))
        } else {
            match items_from(data, 0) {
                Ok(list) => Ok(list),
                Err(error) => Err(Refusal::Said(error)),
            }
        },
    }
}

proof fn lemma_item_names(data: Seq<u8>, at: int)
    ensures
        items_from(data, at) matches Ok(list) ==> forall|i: int|
            0 <= i < list.len() ==> entry_name((#[trigger] list[i]).name),
    decreases data.len() - at,
{
    if 0 <= at < data.len() {
        let space = bytes::index_from(data, 32, at);
        bytes::lemma_index_from(data, 32, at);
        let end = bytes::index_from(data, 0, space);
        if space < data.len() {
            bytes::lemma_index_from(data, 0, space);
            if end + 21 <= data.len() {
                lemma_item_names(data, end + 21);
            }
        }
    }
}

/// The names of a stored tree are neither empty nor hold a slash.
pub proof fn lemma_stored_names(files: fs::memory::Tree, git: Seq<u8>, id: Seq<u8>, limit: nat)
    ensures
        stored_tree(files, git, id, limit) matches Ok(list) ==> forall|i: int|
            0 <= i < list.len() ==> (#[trigger] list[i]).name.len() > 0 && !list[i].name.contains(
                47,
            ),
{
    reveal(stored_tree);
    match storage::stored_object(files, git, id, limit) {
        Err(_) => {},
        Ok((_, data)) => {
            lemma_item_names(data, 0);
            if stored_tree(files, git, id, limit) is Ok {
                let list = stored_tree(files, git, id, limit)->Ok_0;
                assert forall|i: int| 0 <= i < list.len() implies (#[trigger] list[i]).name.len()
                    > 0 && !list[i].name.contains(47) by {
                    assert(entry_name(list[i].name));
                }
            }
        },
    }
}

impl Repository {
    /// Reads a tree object.
    pub fn read_tree(&self, id: ObjectId, max_size: usize) -> (r: Result<Tree>)
        ensures
            match stored_tree(self.tree(), self.git(), id@, max_size as nat) {
                Ok(list) => r is Ok && r->Ok_0@ == list,
                Err(refusal) => fs::declined(r, refusal),
            },
    {
        reveal(stored_tree);
        let object = self.read_object_raw(id, max_size)?;
        if object.kind() != ObjectKind::Tree {
            return Err(Error::InvalidTree("object is not a tree"));
        }
        Tree::parse(object.data())
    }
}

// ---------------------------------------------------------------------------
// Laws

/// Whether an entry can stand in a tree.
pub open spec fn sound_item(item: TreeItem) -> bool {
    entry_name(item.name) && item.id.len() == 20
}

/// Reading the contents that were written for a tree gives its entries back.
pub proof fn lemma_tree_round_trip(list: Seq<TreeItem>)
    requires
        forall|i: int| 0 <= i < list.len() ==> sound_item(#[trigger] list[i]),
    ensures
        items_from(tree_bytes(list), 0) == Ok::<Seq<TreeItem>, Error>(list),
{
    assert(tree_bytes(list).skip(0) =~= tree_bytes(list));
    lemma_items_at(tree_bytes(list), 0, list);
}

proof fn lemma_octal(n: nat)
    ensures
        octal(n).len() > 0,
        octal_number(octal(n)) == Some(n),
        forall|i: int| 0 <= i < octal(n).len() ==> 48 <= #[trigger] octal(n)[i] <= 55,
    decreases n,
{
    if n >= 8 {
        lemma_octal(n / 8);
        let front = octal(n / 8);
        assert(octal(n).drop_last() =~= front);
        assert(octal(n).last() == (48 + n % 8) as u8);
    } else {
        assert(octal(n).drop_last() =~= Seq::empty());
        assert(octal_number(Seq::<u8>::empty()) == Some(0nat));
        assert(octal(n).last() == (48 + n) as u8);
    }
}

/// The first entry stands at the start.
proof fn lemma_tree_bytes_front(list: Seq<TreeItem>)
    requires
        list.len() > 0,
    ensures
        tree_bytes(list) == item_bytes(list[0]) + tree_bytes(list.skip(1)),
    decreases list.len(),
{
    if list.len() == 1 {
        assert(list.drop_last() =~= Seq::empty());
        assert(list.skip(1) =~= Seq::empty());
        assert(tree_bytes(list) =~= item_bytes(list[0]) + tree_bytes(list.skip(1)));
    } else {
        lemma_tree_bytes_front(list.drop_last());
        assert(list.drop_last().skip(1) =~= list.skip(1).drop_last());
        assert(tree_bytes(list) =~= item_bytes(list[0]) + tree_bytes(list.skip(1)));
    }
}

#[verifier::spinoff_prover]
#[verifier::rlimit(60)]
proof fn lemma_items_at(data: Seq<u8>, at: int, list: Seq<TreeItem>)
    requires
        0 <= at <= data.len(),
        data.skip(at) == tree_bytes(list),
        forall|i: int| 0 <= i < list.len() ==> sound_item(#[trigger] list[i]),
    ensures
        items_from(data, at) == Ok::<Seq<TreeItem>, Error>(list),
    decreases list.len(),
{
    if list.len() == 0 {
        assert(list =~= Seq::empty());
    } else {
        let item = list[0];
        let digits = octal(mode_value(item.mode) as nat);
        let rest = data.skip(at);
        lemma_tree_bytes_front(list);
        lemma_octal(mode_value(item.mode) as nat);
        lemma_mode_round_trip(item.mode);
        assert(sound_item(list[0]));
        let space = at + digits.len();
        let end = space + 1 + item.name.len();
        let first = item_bytes(item);
        let tail = tree_bytes(list.skip(1));
        assert(rest == first + tail);
        assert(first.len() == digits.len() + item.name.len() + 22);
        assert(rest.len() == data.len() - at);
        assert(end + 21 <= data.len());
        assert forall|i: int| 0 <= i < first.len() implies data[at + i] == first[i] by {
            assert(rest[i] == data[at + i]);
        }
        assert forall|i: int| at <= i < space implies data[i] != 32 by {
            assert(data[at + (i - at)] == first[i - at]);
            assert(first[i - at] == digits[i - at]);
        }
        assert(data[at + digits.len()] == first[digits.len() as int]);
        assert(data[space] == 32);
        bytes::lemma_index_from_is(data, 32, at, space);
        assert forall|i: int| space <= i < end implies data[i] != 0 by {
            if i > space {
                assert(data[at + (i - at)] == first[i - at]);
                assert(first[i - at] == item.name[i - space - 1]);
            }
        }
        assert(data[at + (end - at)] == first[end - at]);
        assert(data[end] == 0);
        bytes::lemma_index_from_is(data, 0, space, end);
        assert(data.subrange(at, end + 21) =~= first);
        assert(data.subrange(at, space) =~= first.take(digits.len() as int));
        assert(first.take(digits.len() as int) =~= digits);
        assert(data.subrange(space + 1, end) =~= first.subrange(space + 1 - at, end - at));
        assert(first.subrange(space + 1 - at, end - at) =~= item.name);
        assert(data.subrange(end + 1, end + 21) =~= first.skip(end + 1 - at));
        assert(first.skip(end + 1 - at) =~= item.id);
        assert(data.skip(end + 21) =~= rest.skip(end + 21 - at));
        assert(rest.skip(end + 21 - at) =~= tail);
        assert forall|i: int| 0 <= i < list.skip(1).len() implies sound_item(
            #[trigger] list.skip(1)[i],
        ) by {
            assert(sound_item(list[i + 1]));
        }
        lemma_items_at(data, end + 21, list.skip(1));
        assert(seq![item] + list.skip(1) =~= list);
        assert(digits[0] != 43);
        assert(octal_value(digits) == Some(mode_value(item.mode)));
    }
}

} // verus!
