//! Trees from the records of a tree listing.

use vstd::prelude::*;

use crate::bytemap;
use crate::bytemap::ByteMap;
use crate::bytes;
use crate::fs;
use crate::fs::memory;
use crate::fs::Refusal;
use crate::id_set;
use crate::object;
use crate::object::{ObjectId, ObjectKind};
use crate::order;
use crate::repository::Repository;
use crate::storage;
use crate::tree;
use crate::tree::EntryMode;
use crate::{Error, Result};

verus! {

#[derive(Clone, Debug, PartialEq, Eq)]
pub struct MkTreeOptions {
    /// Records are NUL terminated and names are used literally.
    pub nul_terminated: bool,
    /// Permit missing objects. Existing objects must still have the right type.
    pub missing: bool,
    /// Empty records delimit multiple trees.
    pub batch: bool,
    pub max_input_bytes: usize,
    pub max_entries_per_tree: usize,
    pub max_object_size: usize,
}

impl Default for MkTreeOptions {
    fn default() -> (r: Self)
        ensures
            !r.nul_terminated,
            !r.missing,
            !r.batch,
            r.max_input_bytes == 1024 * 1024 * 1024,
            r.max_entries_per_tree == 10_000_000,
            r.max_object_size == 1024 * 1024 * 1024,
    {
        MkTreeOptions {
            nul_terminated: false,
            missing: false,
            batch: false,
            max_input_bytes: 1024 * 1024 * 1024,
            max_entries_per_tree: 10_000_000,
            max_object_size: 1024 * 1024 * 1024,
        }
    }
}

struct MkEntry {
    raw_mode: u32,
    mode: EntryMode,
    name: Vec<u8>,
    id: ObjectId,
}

/// What a record says.
#[verifier::ext_equal]
pub struct MkItem {
    pub raw_mode: u32,
    pub mode: EntryMode,
    pub name: Seq<u8>,
    pub id: Seq<u8>,
}

impl View for MkEntry {
    type V = MkItem;

    closed spec fn view(&self) -> MkItem {
        MkItem { raw_mode: self.raw_mode, mode: self.mode, name: self.name@, id: self.id@ }
    }
}

spec fn models(list: Seq<MkEntry>) -> Seq<MkItem> {
    Seq::new(list.len(), |i: int| list[i]@)
}

pub open spec fn broken() -> Error {
    Error::InvalidTree("invalid mktree record")
}

// ---------------------------------------------------------------------------
// Quoted names

/// What one byte stands for after a backslash.
pub open spec fn escape_of(byte: u8) -> Option<u8> {
    if byte == 97 {
        Some(7u8)
    } else if byte == 98 {
        Some(8u8)
    } else if byte == 116 {
        Some(9u8)
    } else if byte == 110 {
        Some(10u8)
    } else if byte == 118 {
        Some(11u8)
    } else if byte == 102 {
        Some(12u8)
    } else if byte == 114 {
        Some(13u8)
    } else if byte == 34 || byte == 92 {
        Some(byte)
    } else {
        None
    }
}

/// The name between quotes from `at` on, after what is done.
pub open spec fn unquoted_from(value: Seq<u8>, at: int, done: Seq<u8>) -> core::result::Result<
    Seq<u8>,
    Error,
>
    decreases value.len() - at,
{
    if at < 0 || at >= value.len() {
        Err(Error::InvalidTree("unterminated quoted mktree name"))
    } else if value[at] == 34 {
        Ok(done)
    } else if value[at] != 92 {
        unquoted_from(value, at + 1, done.push(value[at]))
    } else if at + 1 >= value.len() {
        Err(Error::InvalidTree("truncated quoted mktree name"))
    } else {
        let byte = value[at + 1];
        match escape_of(byte) {
            Some(plain) => unquoted_from(value, at + 2, done.push(plain)),
            None => if !(48 <= byte <= 51) {
                Err(Error::InvalidTree("invalid quoted mktree escape"))
            } else if at + 2 >= value.len() {
                Err(Error::InvalidTree("truncated octal escape"))
            } else if !(48 <= value[at + 2] <= 55) {
                Err(Error::InvalidTree("invalid quoted mktree octal escape"))
            } else if at + 3 >= value.len() {
                Err(Error::InvalidTree("truncated octal escape"))
            } else if !(48 <= value[at + 3] <= 55) {
                Err(Error::InvalidTree("invalid quoted mktree octal escape"))
            } else {
                let octal = (byte - 48) * 64 + (value[at + 2] - 48) * 8 + (value[at + 3] - 48);
                unquoted_from(value, at + 4, done.push(octal as u8))
            },
        }
    }
}

fn unescape(byte: u8) -> (r: Option<u8>)
    ensures
        r == escape_of(byte),
{
    if byte == 97 {
        Some(7)
    } else if byte == 98 {
        Some(8)
    } else if byte == 116 {
        Some(9)
    } else if byte == 110 {
        Some(10)
    } else if byte == 118 {
        Some(11)
    } else if byte == 102 {
        Some(12)
    } else if byte == 114 {
        Some(13)
    } else if byte == 34 || byte == 92 {
        Some(byte)
    } else {
        None
    }
}

/// Reads a name in quotes.
pub fn unquote_name(value: &[u8]) -> (r: Result<Vec<u8>>)
    ensures
        if value@.len() == 0 || value@[0] != 34 {
            r is Err && r->Err_0 == Error::InvalidTree("invalid quoted mktree name")
        } else {
            match unquoted_from(value@, 1, Seq::empty()) {
                Ok(name) => r is Ok && r->Ok_0@ == name,
                Err(error) => r is Err && r->Err_0 == error,
            }
        },
{
    if value.len() == 0 || value[0] != 34 {
        return Err(Error::InvalidTree("invalid quoted mktree name"));
    }
    let mut output: Vec<u8> = Vec::new();
    let mut cursor: usize = 1;
    assert(output@ =~= Seq::empty());
    while cursor < value.len()
        invariant
            1 <= cursor <= value@.len(),
            value@[0] == 34,
            unquoted_from(value@, 1, Seq::empty()) == unquoted_from(
                value@,
                cursor as int,
                output@,
            ),
        decreases value@.len() - cursor,
    {
        let byte: u8 = value[cursor];
        if byte == 34 {
            return Ok(output);
        }
        if byte != 92 {
            output.push(byte);
            cursor += 1;
            continue;
        }
        if value.len() - cursor < 2 {
            return Err(Error::InvalidTree("truncated quoted mktree name"));
        }
        let escaped: u8 = value[cursor + 1];
        match unescape(escaped) {
            Some(plain) => {
                output.push(plain);
                cursor = cursor + 2;
            },
            None => {
                if escaped < 48 || escaped > 51 {
                    return Err(Error::InvalidTree("invalid quoted mktree escape"));
                }
                if value.len() - cursor < 3 {
                    return Err(Error::InvalidTree("truncated octal escape"));
                }
                let second: u8 = value[cursor + 2];
                if second < 48 || second > 55 {
                    return Err(Error::InvalidTree("invalid quoted mktree octal escape"));
                }
                if value.len() - cursor < 4 {
                    return Err(Error::InvalidTree("truncated octal escape"));
                }
                let third: u8 = value[cursor + 3];
                if third < 48 || third > 55 {
                    return Err(Error::InvalidTree("invalid quoted mktree octal escape"));
                }
                output.push((escaped - 48) * 64 + (second - 48) * 8 + (third - 48));
                cursor = cursor + 4;
            },
        }
    }
    Err(Error::InvalidTree("unterminated quoted mktree name"))
}

// ---------------------------------------------------------------------------
// Records

/// The kind that a record declares.
pub open spec fn declared_kind(text: Seq<u8>) -> Option<ObjectKind> {
    if text == bytes::utf8("blob"@) {
        Some(ObjectKind::Blob)
    } else if text == bytes::utf8("tree"@) {
        Some(ObjectKind::Tree)
    } else if text == bytes::utf8("commit"@) {
        Some(ObjectKind::Commit)
    } else {
        None
    }
}

/// The name of a record.
pub open spec fn record_name(text: Seq<u8>, nul_terminated: bool) -> core::result::Result<
    Seq<u8>,
    Error,
> {
    if !nul_terminated && text.len() > 0 && text[0] == 34 {
        unquoted_from(text, 1, Seq::empty())
    } else {
        Ok(text)
    }
}

/// What a record says once its mode is known, or why it is refused.
pub open spec fn record_rest(
    record: Seq<u8>,
    nul_terminated: bool,
    raw_mode: u32,
    mode: EntryMode,
    space: int,
) -> core::result::Result<MkItem, Error> {
    let second = bytes::index_from(record, 32, space + 1);
    let tab = bytes::index_from(record, 9, second + 1);
    if second >= record.len() {
        Err(broken())
    } else {
        match declared_kind(record.subrange(space + 1, second)) {
            None => Err(Error::InvalidTree("invalid mktree object type")),
            Some(kind) => if kind != tree::kind_of_mode(mode) {
                Err(Error::InvalidTree("declared object type does not match mode"))
            } else if tab >= record.len() {
                Err(broken())
            } else {
                match object::id_of_hex(record.subrange(second + 1, tab)) {
                    None => Err(broken()),
                    Some(id) => match record_name(record.skip(tab + 1), nul_terminated) {
                        Err(error) => Err(error),
                        Ok(name) => if !tree::entry_name(name) {
                            Err(
                                Error::InvalidTree(
                                    "mktree filename is empty or contains `/` or NUL",
                                ),
                            )
                        } else {
                            Ok(MkItem { raw_mode, mode, name, id })
                        },
                    },
                }
            },
        }
    }
}

/// What a record says, or why it is refused.
#[verifier::opaque]
pub open spec fn record_item(record: Seq<u8>, nul_terminated: bool) -> core::result::Result<
    MkItem,
    Error,
> {
    let space = bytes::index_from(record, 32, 0);
    if space >= record.len() {
        Err(broken())
    } else {
        match tree::octal_value(record.take(space)) {
            None => Err(broken()),
            Some(raw_mode) => match tree::mode_of(raw_mode) {
                None => Err(Error::InvalidTree("unsupported mktree mode")),
                Some(mode) => record_rest(record, nul_terminated, raw_mode, mode, space),
            },
        }
    }
}

fn parse_kind(value: &[u8]) -> (r: Option<ObjectKind>)
    ensures
        r == declared_kind(value@),
{
    if bytes::bytes_eq(value, "blob".as_bytes()) {
        Some(ObjectKind::Blob)
    } else if bytes::bytes_eq(value, "tree".as_bytes()) {
        Some(ObjectKind::Tree)
    } else if bytes::bytes_eq(value, "commit".as_bytes()) {
        Some(ObjectKind::Commit)
    } else {
        None
    }
}

fn parse_record(record: &[u8], nul_terminated: bool) -> (r: Result<MkEntry>)
    ensures
        match record_item(record@, nul_terminated) {
            Ok(item) => r is Ok && r->Ok_0@ == item,
            Err(error) => r is Err && r->Err_0 == error,
        },
{
    reveal(record_item);
    assert(record.len() <= usize::MAX);
    let space: usize = bytes::find_byte(record, 32, 0);
    if space >= record.len() {
        return Err(Error::InvalidTree("invalid mktree record"));
    }
    assert(record@.subrange(0, space as int) =~= record@.take(space as int));
    let raw_mode: u32 = match tree::parse_octal(&record[0..space]) {
        Some(raw_mode) => raw_mode,
        None => return Err(Error::InvalidTree("invalid mktree record")),
    };
    let mode = match tree::mode_from(raw_mode) {
        Some(mode) => mode,
        None => return Err(Error::InvalidTree("unsupported mktree mode")),
    };
    let second: usize = bytes::find_byte(record, 32, space + 1);
    if second >= record.len() {
        return Err(Error::InvalidTree("invalid mktree record"));
    }
    let kind = match parse_kind(&record[space + 1..second]) {
        Some(kind) => kind,
        None => return Err(Error::InvalidTree("invalid mktree object type")),
    };
    if kind != mode.object_kind() {
        return Err(Error::InvalidTree("declared object type does not match mode"));
    }
    let tab: usize = bytes::find_byte(record, 9, second + 1);
    if tab >= record.len() {
        return Err(Error::InvalidTree("invalid mktree record"));
    }
    let id = match ObjectId::from_hex(&record[second + 1..tab]) {
        Ok(id) => id,
        Err(_) => return Err(Error::InvalidTree("invalid mktree record")),
    };
    let text = &record[tab + 1..record.len()];
    assert(text@ =~= record@.skip(tab + 1));
    let name: Vec<u8> = if !nul_terminated && text.len() > 0 && text[0] == 34 {
        unquote_name(text)?
    } else {
        bytes::to_vec(text)
    };
    if name.len() == 0 || bytes::contains_byte(name.as_slice(), 47) || bytes::contains_byte(
        name.as_slice(),
        0,
    ) {
        return Err(Error::InvalidTree("mktree filename is empty or contains `/` or NUL"));
    }
    Ok(MkEntry { raw_mode, mode, name, id })
}

// ---------------------------------------------------------------------------
// Writing

/// What an entry is sorted by: a directory as if its name ended in a slash.
pub open spec fn sort_key(item: MkItem) -> Seq<u8> {
    item.name.push(
        if item.mode is Tree {
            47u8
        } else {
            0u8
        },
    )
}

pub open spec fn same_name(a: MkItem, b: MkItem) -> bool {
    a.name == b.name
}

/// Whether a name stands twice.
pub open spec fn repeats(list: Seq<MkItem>) -> bool {
    exists|i: int, j: int| 0 <= i < j < list.len() && #[trigger] same_name(list[i], list[j])
}

/// One entry in the contents of a tree object.
pub open spec fn entry_bytes(item: MkItem) -> Seq<u8> {
    tree::octal(item.raw_mode as nat) + seq![32u8] + item.name + seq![0u8] + item.id
}

/// The entries one after the other.
pub open spec fn body_of(list: Seq<MkItem>) -> Seq<u8>
    decreases list.len(),
{
    if list.len() == 0 {
        Seq::empty()
    } else {
        body_of(list.drop_last()) + entry_bytes(list.last())
    }
}

/// The contents of the tree of some entries.
pub open spec fn tree_body(list: Seq<MkItem>) -> Seq<u8> {
    body_of(order::arranged_by(list, |item: MkItem| sort_key(item)))
}

/// What writing the tree of some entries makes of the files: the identifier,
/// or why it is refused.
#[verifier::opaque]
pub open spec fn tree_written(files: memory::Tree, git: Seq<u8>, list: Seq<MkItem>) -> (
    memory::Tree,
    core::result::Result<Seq<u8>, Refusal>,
) {
    if repeats(list) {
        (files, Err(Refusal::Said(Error::InvalidTree("duplicate mktree filename"))))
    } else {
        let (after, refusal) = storage::put_object(files, git, ObjectKind::Tree, tree_body(list));
        match refusal {
            Some(refusal) => (after, Err(refusal)),
            None => (after, Ok(object::object_id(ObjectKind::Tree, tree_body(list)))),
        }
    }
}

/// Why the object of an entry is refused.
#[verifier::opaque]
pub open spec fn object_fault(
    files: memory::Tree,
    git: Seq<u8>,
    item: MkItem,
    limit: nat,
    missing: bool,
) -> Option<Refusal> {
    match storage::stored_object(files, git, item.id, limit) {
        Ok((kind, _)) => if kind == tree::kind_of_mode(item.mode) {
            None
        } else {
            Some(Refusal::Said(Error::InvalidTree("entry object has the wrong type")))
        },
        Err(refusal) => if is_missing(refusal) {
            if missing || item.mode is Gitlink {
                None
            } else {
                Some(Refusal::Said(Error::InvalidTree("entry object is unavailable")))
            }
        } else {
            Some(refusal)
        },
    }
}

/// Whether a refusal says that something is not there.
pub open spec fn is_missing(refusal: Refusal) -> bool {
    match refusal {
        Refusal::At(fault, _) => fault is NotFound,
        Refusal::Said(error) => error is NotFound,
    }
}

/// What the input from `start` on makes of the files, after some entries of
/// the current tree and some trees: the identifiers of all trees, or why the
/// input is refused.
pub open spec fn made(
    files: memory::Tree,
    git: Seq<u8>,
    input: Seq<u8>,
    options: MkTreeOptions,
    start: int,
    entries: Seq<MkItem>,
    done: Seq<Seq<u8>>,
) -> (memory::Tree, core::result::Result<Seq<Seq<u8>>, Refusal>)
    decreases input.len() - start,
{
    if start < 0 || start >= input.len() {
        if options.batch && entries.len() == 0 {
            (files, Ok(done))
        } else {
            let (after, id) = tree_written(files, git, entries);
            match id {
                Err(refusal) => (after, Err(refusal)),
                Ok(id) => (after, Ok(done.push(id))),
            }
        }
    } else {
        let terminator = if options.nul_terminated {
            0u8
        } else {
            10u8
        };
        let end = bytes::index_from(input, terminator, start);
        let record = input.subrange(start, end);
        let next = if end < input.len() {
            end + 1
        } else {
            end
        };
        proof {
            bytes::lemma_index_from(input, terminator, start);
        }
        if record.len() == 0 {
            if !options.batch {
                (
                    files,
                    Err(
                        Refusal::Said(
                            Error::InvalidTree("blank record is only valid in batch mode"),
                        ),
                    ),
                )
            } else {
                let (after, id) = tree_written(files, git, entries);
                match id {
                    Err(refusal) => (after, Err(refusal)),
                    Ok(id) => made(
                        after,
                        git,
                        input,
                        options,
                        next,
                        Seq::empty(),
                        done.push(id),
                    ),
                }
            }
        } else if entries.len() >= options.max_entries_per_tree {
            (files, Err(Refusal::Said(Error::InvalidTree("mktree entry count exceeds limit"))))
        } else {
            match record_item(record, options.nul_terminated) {
                Err(error) => (files, Err(Refusal::Said(error))),
                Ok(item) => match object_fault(
                    files,
                    git,
                    item,
                    options.max_object_size as nat,
                    options.missing,
                ) {
                    Some(refusal) => (files, Err(refusal)),
                    None => made(files, git, input, options, next, entries.push(item), done),
                },
            }
        }
    }
}

fn names_repeat(entries: &Vec<MkEntry>) -> (r: bool)
    ensures
        r == repeats(models(entries@)),
{
    let ghost list = models(entries@);
    let mut names: ByteMap<()> = ByteMap::new();
    let mut n: usize = 0;
    while n < entries.len()
        invariant
            n <= entries@.len(),
            list == models(entries@),
            forall|name: Seq<u8>| #[trigger]
                names@.contains_key(name) <==> exists|i: int|
                    0 <= i < n && (#[trigger] list[i]).name == name,
            forall|i: int, j: int|
                0 <= i < j < n ==> !#[trigger] same_name(list[i], list[j]),
        decreases entries@.len() - n,
    {
        assert(list[n as int] == entries@[n as int]@);
        let name = bytes::to_vec(entries[n].name.as_slice());
        if names.contains(name.as_slice()) {
            proof {
                assert(names@.contains_key(name@));
                let i = choose|i: int| 0 <= i < n && (#[trigger] list[i]).name == name@;
                assert(same_name(list[i], list[n as int]));
            }
            return true;
        }
        let ghost before = names@;
        names.insert(name, ());
        proof {
            assert forall|i: int, j: int| 0 <= i < j < n + 1 implies !#[trigger] same_name(
                list[i],
                list[j],
            ) by {
                if j == n && same_name(list[i], list[j]) {
                    assert(list[i].name == name@);
                    assert(before.contains_key(name@));
                }
            }
            assert forall|x: Seq<u8>| #[trigger] names@.contains_key(x) <==> exists|i: int|
                0 <= i < n + 1 && (#[trigger] list[i]).name == x by {
                if names@.contains_key(x) {
                    if x == name@ {
                        assert(list[n as int].name == x);
                    } else {
                        assert(before.contains_key(x));
                        let i = choose|i: int| 0 <= i < n && (#[trigger] list[i]).name == x;
                        assert(list[i].name == x);
                    }
                }
                if exists|i: int| 0 <= i < n + 1 && (#[trigger] list[i]).name == x {
                    let i = choose|i: int| 0 <= i < n + 1 && (#[trigger] list[i]).name == x;
                    if i < n {
                        assert(list[i].name == x);
                        assert(before.contains_key(x));
                    }
                }
            }
        }
        n += 1;
    }
    false
}

/// The place of an entry's name among others.
spec fn placed(map: Map<Seq<u8>, MkEntry>, list: Seq<MkItem>, n: int) -> bool {
    &&& forall|i: int|
        0 <= i < n ==> map.contains_key(sort_key(#[trigger] list[i])) && map[sort_key(list[i])]@
            == list[i]
    &&& forall|k: Seq<u8>| #[trigger]
        map.contains_key(k) ==> exists|i: int| 0 <= i < n && sort_key(#[trigger] list[i]) == k
}

proof fn lemma_sort_key(a: MkItem, b: MkItem)
    requires
        sort_key(a) == sort_key(b),
    ensures
        same_name(a, b),
{
    assert(sort_key(a).drop_last() =~= a.name);
    assert(sort_key(b).drop_last() =~= b.name);
}

/// Puts entries in the order of a tree.
fn sort_entries(entries: Vec<MkEntry>) -> (r: Vec<MkEntry>)
    requires
        !repeats(models(entries@)),
    ensures
        models(r@) == order::arranged_by(models(entries@), |item: MkItem| sort_key(item)),
{
    let ghost list = models(entries@);
    let ghost key = |item: MkItem| sort_key(item);
    let mut slots: ByteMap<MkEntry> = ByteMap::new();
    let mut left = entries;
    assert(left@ =~= entries@.take(left@.len() as int));
    let ghost mut taken: Seq<MkItem> = Seq::empty();
    while left.len() > 0
        invariant
            list == models(entries@),
            left@.len() + taken.len() == list.len(),
            left@ == entries@.take(left@.len() as int),
            forall|i: int| 0 <= i < taken.len() ==> #[trigger] taken[i] == list[list.len() - 1 - i],
            placed(slots@, taken, taken.len() as int),
            !repeats(list),
        decreases left@.len(),
    {
        let ghost n = left@.len() - 1;
        let ghost before = slots@;
        let entry = left.pop().unwrap();
        assert(entry@ == list[n]);
        let mut name = bytes::to_vec(entry.name.as_slice());
        let ending: u8 = if entry.mode == EntryMode::Tree {
            47
        } else {
            0
        };
        name.push(ending);
        assert(name@ =~= sort_key(entry@));
        let ghost more = taken.push(entry@);
        let ghost item = entry@;
        slots.insert(name, entry);
        proof {
            assert forall|i: int| 0 <= i < more.len() implies slots@.contains_key(
                sort_key(#[trigger] more[i]),
            ) && slots@[sort_key(more[i])]@ == more[i] by {
                if i < taken.len() {
                    assert(more[i] == taken[i]);
                    if sort_key(taken[i]) == sort_key(item) {
                        lemma_sort_key(taken[i], item);
                        assert(same_name(list[n], list[list.len() - 1 - i]));
                    }
                }
            }
            assert forall|k: Seq<u8>| #[trigger] slots@.contains_key(k) implies exists|i: int|
                0 <= i < more.len() && sort_key(#[trigger] more[i]) == k by {
                if k == sort_key(item) {
                    assert(more[taken.len() as int] == item);
                } else {
                    assert(before.contains_key(k));
                    let i = choose|i: int|
                        0 <= i < taken.len() && sort_key(#[trigger] taken[i]) == k;
                    assert(more[i] == taken[i]);
                }
            }
            taken = more;
            assert(left@ =~= entries@.take(left@.len() as int));
        }
    }
    let mut out: Vec<MkEntry> = Vec::new();
    let count: usize = slots.len();
    let ghost keys = slots.keys();
    let mut i: usize = 0;
    while i < count
        invariant
            i <= count,
            count == keys.len(),
            keys == slots.keys(),
            slots.wf(),
            out@.len() == i,
            forall|k: int| 0 <= k < i ==> (#[trigger] out@[k])@ == slots@[keys[k]]@,
        decreases count - i,
    {
        let entry = slots.value_at(i);
        let copy = MkEntry {
            raw_mode: entry.raw_mode,
            mode: entry.mode,
            name: bytes::to_vec(entry.name.as_slice()),
            id: entry.id,
        };
        out.push(copy);
        i += 1;
    }
    proof {
        let sorted = models(out@);
        assert forall|k: int| 0 <= k < sorted.len() implies #[trigger] order::keys_of(sorted, key)[k]
            == keys[k] && taken.contains(sorted[k]) by {
            bytemap::lemma_assoc(keys, slots.values(), k);
            assert(slots@.contains_key(keys[k]));
            let j = choose|j: int| 0 <= j < taken.len() && sort_key(#[trigger] taken[j]) == keys[k];
            assert(slots@[sort_key(taken[j])]@ == taken[j]);
            assert(sorted[k] == taken[j]);
        }
        assert(order::keys_of(sorted, key) =~= keys);
        assert forall|x: MkItem| #[trigger] sorted.contains(x) <==> list.contains(x) by {
            if sorted.contains(x) {
                let k = sorted.index_of(x);
                assert(order::keys_of(sorted, key)[k] == keys[k]);
                let j = taken.index_of(x);
                assert(list[list.len() - 1 - j] == taken[j]);
            }
            if list.contains(x) {
                let j = list.len() - 1 - list.index_of(x);
                assert(taken[j] == x);
                assert(slots@.contains_key(sort_key(taken[j])));
                let k = keys.index_of(sort_key(x));
                assert(keys[k] == sort_key(x));
                assert(sorted[k] == x);
            }
        }
        order::lemma_arranged_by(sorted, list, key);
    }
    out
}

fn push_entry(out: &mut Vec<u8>, entry: &MkEntry)
    ensures
        final(out)@ == old(out)@ + entry_bytes(entry@),
{
    let ghost start = out@;
    tree::push_octal(out, entry.raw_mode);
    out.push(32);
    bytes::append(out, entry.name.as_slice());
    out.push(0);
    bytes::append(out, entry.id.as_bytes().as_slice());
    assert(out@ =~= start + entry_bytes(entry@));
}

impl Repository {
    fn write_mktree_entries(&mut self, entries: Vec<MkEntry>) -> (r: Result<ObjectId>)
        ensures
            ({
                let (files, id) = tree_written(
                    old(self).tree(),
                    old(self).git(),
                    models(entries@),
                );
                &&& final(self).tree() == files
                &&& final(self).git() == old(self).git()
                &&& final(self).work() == old(self).work()
                &&& match id {
                    Ok(id) => r is Ok && r->Ok_0@ == id,
                    Err(refusal) => fs::declined(r, refusal),
                }
            }),
    {
        reveal(tree_written);
        if names_repeat(&entries) {
            return Err(Error::InvalidTree("duplicate mktree filename"));
        }
        let sorted = sort_entries(entries);
        let ghost list = models(sorted@);
        let mut body: Vec<u8> = Vec::new();
        let mut i: usize = 0;
        assert(body@ =~= body_of(list.take(0)));
        while i < sorted.len()
            invariant
                i <= sorted@.len(),
                list == models(sorted@),
                body@ == body_of(list.take(i as int)),
            decreases sorted@.len() - i,
        {
            push_entry(&mut body, &sorted[i]);
            assert(list.take(i + 1).drop_last() =~= list.take(i as int));
            assert(list.take(i + 1).last() == sorted@[i as int]@);
            i += 1;
        }
        assert(list.take(i as int) =~= list);
        self.write_object(ObjectKind::Tree, body.as_slice())
    }

    fn validate_mktree_object(&self, entry: &MkEntry, options: &MkTreeOptions) -> (r: Result<()>)
        ensures
            match object_fault(
                self.tree(),
                self.git(),
                entry@,
                options.max_object_size as nat,
                options.missing,
            ) {
                Some(refusal) => fs::declined(r, refusal),
                None => r is Ok,
            },
    {
        reveal(object_fault);
        match self.read_object_raw(entry.id, options.max_object_size) {
            Ok(object) => {
                if object.kind() == entry.mode.object_kind() {
                    Ok(())
                } else {
                    Err(Error::InvalidTree("entry object has the wrong type"))
                }
            },
            Err(Error::NotFound(path)) => {
                if options.missing || entry.mode == EntryMode::Gitlink {
                    Ok(())
                } else {
                    Err(Error::InvalidTree("entry object is unavailable"))
                }
            },
            Err(error) => Err(error),
        }
    }

    /// Parse non-recursive `ls-tree` records and write one or more tree objects.
    ///
    /// Non-batch mode returns exactly one ID, including the canonical empty
    /// tree for empty input. Batch mode returns one ID per delimited tree and
    /// does not synthesize a final empty tree at end-of-input.
    pub fn mk_tree(&mut self, input: &[u8], options: &MkTreeOptions) -> (r: Result<Vec<ObjectId>>)
        ensures
            final(self).git() == old(self).git(),
            final(self).work() == old(self).work(),
            if input@.len() > options.max_input_bytes {
                &&& r is Err
                &&& r->Err_0 == Error::InvalidTree("mktree input exceeds byte limit")
                &&& final(self).tree() == old(self).tree()
            } else {
                let (files, ids) = made(
                    old(self).tree(),
                    old(self).git(),
                    input@,
                    *options,
                    0,
                    Seq::empty(),
                    Seq::empty(),
                );
                &&& final(self).tree() == files
                &&& match ids {
                    Ok(ids) => r is Ok && storage::id_views(r->Ok_0@) == ids,
                    Err(refusal) => fs::declined(r, refusal),
                }
            },
    {
        if input.len() > options.max_input_bytes {
            return Err(Error::InvalidTree("mktree input exceeds byte limit"));
        }
        let terminator: u8 = if options.nul_terminated {
            0
        } else {
            10
        };
        let mut trees: Vec<ObjectId> = Vec::new();
        let mut entries: Vec<MkEntry> = Vec::new();
        let mut start: usize = 0;
        let ghost goal = made(
            self.tree(),
            self.git(),
            input@,
            *options,
            0,
            Seq::empty(),
            Seq::empty(),
        );
        let ghost git = self.git();
        let ghost work = self.work();
        assert(models(entries@) =~= Seq::empty());
        assert(storage::id_views(trees@) =~= Seq::empty());
        while start < input.len()
            invariant
                start <= input@.len(),
                input@.len() <= options.max_input_bytes,
                terminator == if options.nul_terminated {
                    0u8
                } else {
                    10u8
                },
                self.git() == git,
                self.work() == work,
                old(self).git() == git,
                old(self).work() == work,
                goal == made(
                    old(self).tree(),
                    old(self).git(),
                    input@,
                    *options,
                    0,
                    Seq::empty(),
                    Seq::empty(),
                ),
                goal == made(
                    self.tree(),
                    git,
                    input@,
                    *options,
                    start as int,
                    models(entries@),
                    storage::id_views(trees@),
                ),
            decreases input@.len() - start,
        {
            let end: usize = bytes::find_byte(input, terminator, start);
            let record = &input[start..end];
            let next: usize = if end < input.len() {
                end + 1
            } else {
                end
            };
            let ghost done = storage::id_views(trees@);
            let ghost list = models(entries@);
            if record.len() == 0 {
                if !options.batch {
                    return Err(Error::InvalidTree("blank record is only valid in batch mode"));
                }
                let mut finished: Vec<MkEntry> = Vec::new();
                std::mem::swap(&mut finished, &mut entries);
                let id = self.write_mktree_entries(finished)?;
                trees.push(id);
                proof {
                    assert(models(entries@) =~= Seq::empty());
                    assert(storage::id_views(trees@) =~= done.push(id@));
                }
                start = next;
                continue;
            }
            if entries.len() >= options.max_entries_per_tree {
                return Err(Error::InvalidTree("mktree entry count exceeds limit"));
            }
            let entry = parse_record(record, options.nul_terminated)?;
            self.validate_mktree_object(&entry, options)?;
            let ghost item = entry@;
            entries.push(entry);
            proof {
                assert(models(entries@) =~= list.push(item));
            }
            start = next;
        }
        if !options.batch || entries.len() > 0 {
            let ghost done = storage::id_views(trees@);
            let id = self.write_mktree_entries(entries)?;
            trees.push(id);
            assert(storage::id_views(trees@) =~= done.push(id@));
        }
        Ok(trees)
    }
}

/// The tree of some entries does not depend on the order in which they are
/// given.
pub proof fn lemma_order_does_not_matter(a: Seq<MkItem>, b: Seq<MkItem>)
    requires
        !repeats(a),
        forall|x: MkItem| #[trigger] a.contains(x) <==> b.contains(x),
    ensures
        tree_body(a) == tree_body(b),
{
    let key = |item: MkItem| sort_key(item);
    let sorted = lemma_arrangement_exists(a);
    order::lemma_arranged_by(sorted, a, key);
    assert forall|x: MkItem| #[trigger] sorted.contains(x) <==> b.contains(x) by {
        assert(sorted.contains(x) <==> a.contains(x));
        assert(a.contains(x) <==> b.contains(x));
    }
    order::lemma_arranged_by(sorted, b, key);
}

proof fn lemma_arrangement_exists(list: Seq<MkItem>) -> (sorted: Seq<MkItem>)
    requires
        !repeats(list),
    ensures
        order::arranges(sorted, list, |item: MkItem| sort_key(item)),
{
    let key = |item: MkItem| sort_key(item);
    let keys = order::keys_of(list, key);
    let set = keys.to_set();
    id_set::lemma_sorted_exists(set);
    let ascending = id_set::sorted(set);
    let sorted = Seq::new(
        ascending.len(),
        |i: int| list[choose|k: int| 0 <= k < list.len() && sort_key(#[trigger] list[k]) == ascending[i]],
    );
    assert forall|i: int| 0 <= i < sorted.len() implies list.contains(#[trigger] sorted[i])
        && sort_key(sorted[i]) == ascending[i] by {
        assert(ascending.contains(ascending[i]));
        assert(set.contains(ascending[i]));
        let k = keys.index_of(ascending[i]);
        assert(sort_key(list[k]) == ascending[i]);
        let c = choose|k: int| 0 <= k < list.len() && sort_key(#[trigger] list[k]) == ascending[i];
        assert(list.contains(list[c]));
    }
    assert(order::keys_of(sorted, key) =~= ascending);
    assert forall|x: MkItem| #[trigger] sorted.contains(x) <==> list.contains(x) by {
        if sorted.contains(x) {
            let i = sorted.index_of(x);
            assert(list.contains(sorted[i]));
        }
        if list.contains(x) {
            let k = list.index_of(x);
            assert(keys[k] == sort_key(x));
            assert(keys.contains(sort_key(x)));
            assert(set.contains(sort_key(x)));
            assert(ascending.contains(sort_key(x)));
            let i = ascending.index_of(sort_key(x));
            let y = sorted[i];
            let m = list.index_of(y);
            assert(sort_key(y) == sort_key(x));
            assert(y.name =~= sort_key(y).drop_last());
            assert(x.name =~= sort_key(x).drop_last());
            assert(same_name(list[m], list[k]));
            assert(same_name(list[k], list[m]));
        }
    }
    sorted
}

/// The entries that records from `start` on name, after some others.
pub open spec fn items_from(
    input: Seq<u8>,
    nul_terminated: bool,
    start: int,
    before: Seq<MkItem>,
) -> core::result::Result<Seq<MkItem>, Error>
    decreases input.len() - start,
{
    if start < 0 || start >= input.len() {
        Ok(before)
    } else {
        let terminator = if nul_terminated {
            0u8
        } else {
            10u8
        };
        let end = bytes::index_from(input, terminator, start);
        proof {
            bytes::lemma_index_from(input, terminator, start);
        }
        match record_item(input.subrange(start, end), nul_terminated) {
            Err(error) => Err(error),
            Ok(item) => items_from(
                input,
                nul_terminated,
                if end < input.len() {
                    end + 1
                } else {
                    end
                },
                before.push(item),
            ),
        }
    }
}

/// Whether all objects of some entries are as they must be.
pub open spec fn objects_stand(
    files: memory::Tree,
    git: Seq<u8>,
    list: Seq<MkItem>,
    options: MkTreeOptions,
) -> bool {
    forall|i: int|
        0 <= i < list.len() ==> object_fault(
            files,
            git,
            #[trigger] list[i],
            options.max_object_size as nat,
            options.missing,
        ) is None
}

proof fn lemma_items_prefix(input: Seq<u8>, nul_terminated: bool, start: int, before: Seq<MkItem>)
    requires
        0 <= start,
        items_from(input, nul_terminated, start, before) is Ok,
    ensures
        ({
            let items = items_from(input, nul_terminated, start, before)->Ok_0;
            before.len() <= items.len() && items.take(before.len() as int) == before && (start
                < input.len() ==> before.len() < items.len())
        }),
    decreases input.len() - start,
{
    if start < input.len() {
        let terminator = if nul_terminated {
            0u8
        } else {
            10u8
        };
        let end = bytes::index_from(input, terminator, start);
        bytes::lemma_index_from(input, terminator, start);
        let next = if end < input.len() {
            end + 1
        } else {
            end
        };
        let item = record_item(input.subrange(start, end), nul_terminated)->Ok_0;
        let more = before.push(item);
        lemma_items_prefix(input, nul_terminated, next, more);
        let items = items_from(input, nul_terminated, start, before)->Ok_0;
        assert(items.take(before.len() as int) =~= items.take(more.len() as int).take(
            before.len() as int,
        ));
        assert(more.take(before.len() as int) =~= before);
    } else {
        assert(before.take(before.len() as int) =~= before);
    }
}

/// What writing the tree of some entries gives for a whole input.
pub open spec fn only_tree(files: memory::Tree, git: Seq<u8>, items: Seq<MkItem>) -> (
    memory::Tree,
    core::result::Result<Seq<Seq<u8>>, Refusal>,
) {
    let (after, id) = tree_written(files, git, items);
    match id {
        Err(refusal) => (after, Err(refusal)),
        Ok(id) => (after, Ok(Seq::<Seq<u8>>::empty().push(id))),
    }
}

proof fn lemma_made_of_items(
    files: memory::Tree,
    git: Seq<u8>,
    input: Seq<u8>,
    options: MkTreeOptions,
    start: int,
    before: Seq<MkItem>,
)
    requires
        !options.batch,
        0 <= start,
        objects_stand(files, git, before, options),
        before.len() <= options.max_entries_per_tree,
        made(files, git, input, options, start, before, Seq::empty()).1 is Ok,
    ensures
        ({
            let items = items_from(input, options.nul_terminated, start, before);
            &&& items is Ok
            &&& objects_stand(files, git, items->Ok_0, options)
            &&& (items->Ok_0).len() <= options.max_entries_per_tree
            &&& made(files, git, input, options, start, before, Seq::empty()) == only_tree(
                files,
                git,
                items->Ok_0,
            )
        }),
    decreases input.len() - start,
{
    if start < input.len() {
        let terminator = if options.nul_terminated {
            0u8
        } else {
            10u8
        };
        let end = bytes::index_from(input, terminator, start);
        bytes::lemma_index_from(input, terminator, start);
        let record = input.subrange(start, end);
        let next = if end < input.len() {
            end + 1
        } else {
            end
        };
        let item = record_item(record, options.nul_terminated)->Ok_0;
        let more = before.push(item);
        assert forall|i: int| 0 <= i < more.len() implies object_fault(
            files,
            git,
            #[trigger] more[i],
            options.max_object_size as nat,
            options.missing,
        ) is None by {
            if i < before.len() {
                assert(more[i] == before[i]);
            }
        }
        lemma_made_of_items(files, git, input, options, next, more);
    }
}

proof fn lemma_items_make(
    files: memory::Tree,
    git: Seq<u8>,
    input: Seq<u8>,
    options: MkTreeOptions,
    start: int,
    before: Seq<MkItem>,
)
    requires
        !options.batch,
        0 <= start <= input.len(),
        start == 0 || start == input.len() || input[start - 1] == (if options.nul_terminated {
            0u8
        } else {
            10u8
        }),
        no_blank(input, options.nul_terminated),
        items_from(input, options.nul_terminated, start, before) is Ok,
        objects_stand(
            files,
            git,
            items_from(input, options.nul_terminated, start, before)->Ok_0,
            options,
        ),
        (items_from(input, options.nul_terminated, start, before)->Ok_0).len()
            <= options.max_entries_per_tree,
    ensures
        made(files, git, input, options, start, before, Seq::empty()) == only_tree(
            files,
            git,
            items_from(input, options.nul_terminated, start, before)->Ok_0,
        ),
    decreases input.len() - start,
{
    if start < input.len() {
        let terminator = if options.nul_terminated {
            0u8
        } else {
            10u8
        };
        let end = bytes::index_from(input, terminator, start);
        bytes::lemma_index_from(input, terminator, start);
        let record = input.subrange(start, end);
        let next = if end < input.len() {
            end + 1
        } else {
            end
        };
        assert(input[start] != terminator);
        assert(record.len() > 0);
        let item = record_item(record, options.nul_terminated)->Ok_0;
        let more = before.push(item);
        let items = items_from(input, options.nul_terminated, start, before)->Ok_0;
        lemma_items_prefix(input, options.nul_terminated, next, more);
        let k = before.len() as int;
        assert(items.take(more.len() as int)[k] == more[k]);
        assert(items[k] == item);
        lemma_items_make(files, git, input, options, next, more);
    }
}

/// Whether no record of an input is blank.
pub open spec fn no_blank(input: Seq<u8>, nul_terminated: bool) -> bool {
    let terminator = if nul_terminated {
        0u8
    } else {
        10u8
    };
    forall|i: int|
        0 <= i < input.len() && #[trigger] input[i] == terminator ==> i > 0 && input[i - 1]
            != terminator
}

proof fn lemma_distinct_items(list: Seq<MkItem>)
    requires
        !repeats(list),
    ensures
        list.no_duplicates(),
{
    assert forall|i: int, j: int| 0 <= i < list.len() && 0 <= j < list.len() && i != j implies list[i]
        != list[j] by {
        if i < j {
            assert(!same_name(list[i], list[j]));
        } else {
            assert(!same_name(list[j], list[i]));
        }
    }
}

/// The records of one tree can come in any order: two inputs that name the
/// same entries, each once, make the same of the files and give the same tree.
pub proof fn lemma_record_order_does_not_matter(
    files: memory::Tree,
    git: Seq<u8>,
    one: Seq<u8>,
    two: Seq<u8>,
    options: MkTreeOptions,
)
    requires
        !options.batch,
        made(files, git, one, options, 0, Seq::empty(), Seq::empty()).1 is Ok,
        no_blank(two, options.nul_terminated),
        items_from(two, options.nul_terminated, 0, Seq::empty()) is Ok,
        !repeats(items_from(two, options.nul_terminated, 0, Seq::empty())->Ok_0),
        forall|x: MkItem|
            (items_from(one, options.nul_terminated, 0, Seq::empty())->Ok_0).contains(x) <==> (
            #[trigger] items_from(two, options.nul_terminated, 0, Seq::empty())->Ok_0.contains(x)),
    ensures
        made(files, git, two, options, 0, Seq::empty(), Seq::empty()) == made(
            files,
            git,
            one,
            options,
            0,
            Seq::empty(),
            Seq::empty(),
        ),
{
    lemma_made_of_items(files, git, one, options, 0, Seq::empty());
    let a = items_from(one, options.nul_terminated, 0, Seq::empty())->Ok_0;
    let b = items_from(two, options.nul_terminated, 0, Seq::empty())->Ok_0;
    reveal(tree_written);
    assert(!repeats(a));
    lemma_distinct_items(a);
    lemma_distinct_items(b);
    a.unique_seq_to_set();
    b.unique_seq_to_set();
    assert forall|x: MkItem| a.to_set().contains(x) <==> b.to_set().contains(x) by {
        assert(a.contains(x) <==> b.contains(x));
    }
    assert(a.to_set() =~= b.to_set());
    assert forall|i: int| 0 <= i < b.len() implies object_fault(
        files,
        git,
        #[trigger] b[i],
        options.max_object_size as nat,
        options.missing,
    ) is None by {
        assert(b.contains(b[i]));
        assert(a.contains(b[i]));
        let k = a.index_of(b[i]);
        assert(a[k] == b[i]);
    }
    lemma_items_make(files, git, two, options, 0, Seq::empty());
    assert forall|x: MkItem| #[trigger] a.contains(x) <==> b.contains(x) by {}
    lemma_order_does_not_matter(a, b);
}

/// The byte that ends a record.
pub open spec fn record_end(nul_terminated: bool) -> u8 {
    if nul_terminated {
        0u8
    } else {
        10u8
    }
}

/// An input made of records, each with the byte that ends it.
pub open spec fn written_out(records: Seq<Seq<u8>>, end: u8) -> Seq<u8>
    decreases records.len(),
{
    if records.len() == 0 {
        Seq::empty()
    } else {
        records[0].push(end) + written_out(records.drop_first(), end)
    }
}

/// The entries of some records after others, or why the first bad one is
/// refused.
spec fn entries_of(records: Seq<Seq<u8>>, nul_terminated: bool, before: Seq<MkItem>) -> core::result::Result<
    Seq<MkItem>,
    Error,
>
    decreases records.len(),
{
    if records.len() == 0 {
        Ok(before)
    } else {
        match record_item(records[0], nul_terminated) {
            Err(error) => Err(error),
            Ok(item) => entries_of(records.drop_first(), nul_terminated, before.push(item)),
        }
    }
}

/// Whether records are neither blank nor hold the byte that ends one.
pub open spec fn are_records(records: Seq<Seq<u8>>, end: u8) -> bool {
    forall|i: int|
        0 <= i < records.len() ==> (#[trigger] records[i]).len() > 0 && !records[i].contains(end)
}

proof fn lemma_items_of_records(
    input: Seq<u8>,
    start: int,
    records: Seq<Seq<u8>>,
    nul_terminated: bool,
    before: Seq<MkItem>,
)
    requires
        0 <= start <= input.len(),
        input.skip(start) == written_out(records, record_end(nul_terminated)),
        are_records(records, record_end(nul_terminated)),
    ensures
        items_from(input, nul_terminated, start, before) == entries_of(
            records,
            nul_terminated,
            before,
        ),
    decreases records.len(),
{
    let end = record_end(nul_terminated);
    let rest = input.skip(start);
    if records.len() > 0 {
        let record = records[0];
        let more = records.drop_first();
        let at = start + record.len();
        assert(rest == record.push(end) + written_out(more, end));
        assert(rest.len() == input.len() - start);
        assert forall|k: int| start <= k < at implies input[k] != end by {
            assert(input[k] == rest[k - start]);
            assert(rest[k - start] == record[k - start]);
            assert(record.contains(record[k - start]));
        }
        assert(input[at] == rest[record.len() as int]);
        bytes::lemma_index_from_is(input, end, start, at);
        assert(input.subrange(start, at) =~= record);
        assert(input.skip(at + 1) =~= rest.skip(record.len() as int + 1));
        assert(input.skip(at + 1) =~= written_out(more, end));
        assert(are_records(more, end)) by {
            assert forall|i: int| 0 <= i < more.len() implies (#[trigger] more[i]).len() > 0
                && !more[i].contains(end) by {
                assert(more[i] == records[i + 1]);
            }
        }
        match record_item(record, nul_terminated) {
            Err(_) => {},
            Ok(item) => {
                lemma_items_of_records(input, at + 1, more, nul_terminated, before.push(item));
            },
        }
    } else {
        assert(rest.len() == 0);
        assert(start == input.len());
    }
}

proof fn lemma_entries_of(records: Seq<Seq<u8>>, nul_terminated: bool, before: Seq<MkItem>)
    ensures
        entries_of(records, nul_terminated, before) is Ok <==> forall|i: int|
            0 <= i < records.len() ==> record_item(#[trigger] records[i], nul_terminated) is Ok,
        entries_of(records, nul_terminated, before) matches Ok(list) ==> {
            &&& list.len() == before.len() + records.len()
            &&& list.take(before.len() as int) == before
            &&& forall|i: int|
                0 <= i < records.len() ==> record_item(#[trigger] records[i], nul_terminated)
                    == Ok::<MkItem, Error>(list[before.len() + i])
        },
    decreases records.len(),
{
    if records.len() == 0 {
        assert(before.take(before.len() as int) =~= before);
    } else {
        let more = records.drop_first();
        match record_item(records[0], nul_terminated) {
            Err(_) => {
                assert(record_item(records[0], nul_terminated) is Err);
            },
            Ok(item) => {
                let next = before.push(item);
                lemma_entries_of(more, nul_terminated, next);
                assert forall|i: int| 0 <= i < more.len() implies #[trigger] more[i] == records[i
                    + 1] by {}
                assert(forall|i: int| 0 < i < records.len() ==> #[trigger] records[i] == more[i - 1]);
                if entries_of(records, nul_terminated, before) is Ok {
                    let list = entries_of(records, nul_terminated, before)->Ok_0;
                    assert(list.take(before.len() as int) =~= list.take(next.len() as int).take(
                        before.len() as int,
                    ));
                    assert(next.take(before.len() as int) =~= before);
                    assert(list[before.len() as int] == list.take(next.len() as int)[before.len() as int]);
                }
            },
        }
    }
}

proof fn lemma_written_has_no_blank(records: Seq<Seq<u8>>, nul_terminated: bool)
    requires
        are_records(records, record_end(nul_terminated)),
    ensures
        no_blank(written_out(records, record_end(nul_terminated)), nul_terminated),
        records.len() > 0 ==> written_out(records, record_end(nul_terminated))[0] != record_end(
            nul_terminated,
        ),
    decreases records.len(),
{
    let end = record_end(nul_terminated);
    let input = written_out(records, end);
    if records.len() > 0 {
        let record = records[0];
        let more = records.drop_first();
        assert(are_records(more, end)) by {
            assert forall|i: int| 0 <= i < more.len() implies (#[trigger] more[i]).len() > 0
                && !more[i].contains(end) by {
                assert(more[i] == records[i + 1]);
            }
        }
        lemma_written_has_no_blank(more, nul_terminated);
        let tail = written_out(more, end);
        let n = record.len() as int;
        assert(record.contains(record[0]));
        assert(input[0] == record[0]);
        assert forall|i: int| 0 <= i < input.len() && #[trigger] input[i] == end implies i > 0
            && input[i - 1] != end by {
            if i < n {
                assert(input[i] == record[i]);
                assert(record.contains(record[i]));
            } else if i == n {
                assert(input[i - 1] == record[i - 1]);
                assert(record.contains(record[i - 1]));
            } else {
                assert(input[i] == tail[i - n - 1]);
                if i - n - 1 > 0 {
                    assert(input[i - 1] == tail[i - n - 2]);
                }
            }
        }
    }
}

/// The records of a tree can come in any order: every arrangement of them
/// makes the same of the files and gives the same one tree.
pub proof fn lemma_records_in_any_order(
    files: memory::Tree,
    git: Seq<u8>,
    one: Seq<Seq<u8>>,
    two: Seq<Seq<u8>>,
    options: MkTreeOptions,
)
    requires
        !options.batch,
        are_records(one, record_end(options.nul_terminated)),
        one.to_multiset() =~= two.to_multiset(),
        made(
            files,
            git,
            written_out(one, record_end(options.nul_terminated)),
            options,
            0,
            Seq::empty(),
            Seq::empty(),
        ).1 is Ok,
    ensures
        ({
            let end = record_end(options.nul_terminated);
            let first = made(
                files,
                git,
                written_out(one, end),
                options,
                0,
                Seq::empty(),
                Seq::empty(),
            );
            &&& first == made(
                files,
                git,
                written_out(two, end),
                options,
                0,
                Seq::empty(),
                Seq::empty(),
            )
            &&& (first.1->Ok_0).len() == 1
        }),
{
    let nul = options.nul_terminated;
    let end = record_end(nul);
    let a = written_out(one, end);
    let b = written_out(two, end);
    let none = Seq::<MkItem>::empty();
    broadcast use vstd::seq_lib::group_to_multiset_ensures;

    assert forall|x: Seq<u8>| #[trigger] one.contains(x) <==> two.contains(x) by {
        assert(one.to_multiset().count(x) == two.to_multiset().count(x));
    }
    assert(are_records(two, end)) by {
        assert forall|i: int| 0 <= i < two.len() implies (#[trigger] two[i]).len() > 0
            && !two[i].contains(end) by {
            assert(two.contains(two[i]));
            assert(one.contains(two[i]));
            let k = one.index_of(two[i]);
            assert(one[k] == two[i]);
        }
    }
    assert(a.skip(0) =~= a && b.skip(0) =~= b);
    lemma_made_of_items(files, git, a, options, 0, none);
    lemma_items_of_records(a, 0, one, nul, none);
    lemma_items_of_records(b, 0, two, nul, none);
    lemma_entries_of(one, nul, none);
    lemma_entries_of(two, nul, none);
    lemma_written_has_no_blank(two, nul);
    let p = entries_of(one, nul, none)->Ok_0;
    assert(entries_of(two, nul, none) is Ok) by {
        assert forall|i: int| 0 <= i < two.len() implies record_item(
            #[trigger] two[i],
            nul,
        ) is Ok by {
            assert(two.contains(two[i]));
            assert(one.contains(two[i]));
            let k = one.index_of(two[i]);
            assert(record_item(one[k], nul) is Ok);
        }
    }
    let q = entries_of(two, nul, none)->Ok_0;
    reveal(tree_written);
    assert(!repeats(p));
    assert(one.no_duplicates()) by {
        assert forall|i: int, j: int| 0 <= i < j < one.len() implies one[i] != one[j] by {
            assert(record_item(one[i], nul) == Ok::<MkItem, Error>(p[i]));
            assert(record_item(one[j], nul) == Ok::<MkItem, Error>(p[j]));
            assert(!same_name(p[i], p[j]));
        }
    }
    one.lemma_multiset_has_no_duplicates();
    two.lemma_multiset_has_no_duplicates_conv();
    assert(!repeats(q)) by {
        assert forall|i: int, j: int| 0 <= i < j < q.len() implies !#[trigger] same_name(
            q[i],
            q[j],
        ) by {
            assert(two.contains(two[i]) && two.contains(two[j]));
            assert(one.contains(two[i]) && one.contains(two[j]));
            let k = one.index_of(two[i]);
            let l = one.index_of(two[j]);
            assert(record_item(one[k], nul) == Ok::<MkItem, Error>(p[k]));
            assert(record_item(one[l], nul) == Ok::<MkItem, Error>(p[l]));
            assert(record_item(two[i], nul) == Ok::<MkItem, Error>(q[i]));
            assert(record_item(two[j], nul) == Ok::<MkItem, Error>(q[j]));
            assert(k != l);
            if k < l {
                assert(!same_name(p[k], p[l]));
            } else {
                assert(!same_name(p[l], p[k]));
            }
        }
    }
    assert forall|x: MkItem| p.contains(x) <==> #[trigger] q.contains(x) by {
        if p.contains(x) {
            let i = p.index_of(x);
            assert(one.contains(one[i]));
            assert(two.contains(one[i]));
            let k = two.index_of(one[i]);
            assert(record_item(two[k], nul) == Ok::<MkItem, Error>(q[k]));
            assert(record_item(one[i], nul) == Ok::<MkItem, Error>(p[i]));
            assert(q[k] == x);
        }
        if q.contains(x) {
            let i = q.index_of(x);
            assert(two.contains(two[i]));
            assert(one.contains(two[i]));
            let k = one.index_of(two[i]);
            assert(record_item(one[k], nul) == Ok::<MkItem, Error>(p[k]));
            assert(record_item(two[i], nul) == Ok::<MkItem, Error>(q[i]));
            assert(p[k] == x);
        }
    }
    lemma_record_order_does_not_matter(files, git, a, b, options);
}

} // verus!
