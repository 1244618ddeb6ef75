//! Pack indexes and the objects that packs hold.

use vstd::prelude::*;

use crate::bytes;
use crate::delta;
use crate::object;
use crate::object::{ObjectId, ObjectKind};
use crate::sha1;
use crate::zlib;
use crate::{Error, Result};

verus! {

// ---------------------------------------------------------------------------
// Checksums of packed entries

pub open spec fn crc_step(value: u32) -> u32 {
    if value & 1 == 0 {
        value >> 1
    } else {
        (value >> 1) ^ 0xedb8_8320
    }
}

/// The state of the checksum after some steps.
pub open spec fn crc_steps(value: u32, count: nat) -> u32
    decreases count,
{
    if count == 0 {
        value
    } else {
        crc_step(crc_steps(value, (count - 1) as nat))
    }
}

/// The state of the checksum after some bytes.
pub open spec fn crc_state(data: Seq<u8>) -> u32
    decreases data.len(),
{
    if data.len() == 0 {
        0xffff_ffff
    } else {
        crc_steps(crc_state(data.drop_last()) ^ data.last() as u32, 8)
    }
}

/// The CRC-32 checksum of some bytes.
pub open spec fn crc(data: Seq<u8>) -> u32 {
    !crc_state(data)
}

/// Computes a CRC-32 checksum.
pub fn crc32(data: &[u8]) -> (r: u32)
    ensures
        r == crc(data@),
{
    let mut state: u32 = 0xffff_ffff;
    let mut i: usize = 0;
    while i < data.len()
        invariant
            i <= data@.len(),
            state == crc_state(data@.take(i as int)),
        decreases data@.len() - i,
    {
        let start: u32 = state ^ data[i] as u32;
        let mut value: u32 = start;
        let mut bit: u32 = 0;
        while bit < 8
            invariant
                bit <= 8,
                value == crc_steps(start, bit as nat),
            decreases 8 - bit,
        {
            value = if value & 1 == 0 {
                value >> 1
            } else {
                (value >> 1) ^ 0xedb8_8320
            };
            bit += 1;
        }
        assert(data@.take(i + 1).drop_last() =~= data@.take(i as int));
        state = value;
        i += 1;
    }
    assert(data@.take(i as int) =~= data@);
    !state
}

// ---------------------------------------------------------------------------
// Pack indexes

/// An object location and integrity checksum from a pack index.
#[derive(Clone, Copy, Debug, PartialEq, Eq)]
pub struct PackIndexEntry {
    pub id: ObjectId,
    pub crc32: u32,
    pub offset: u64,
}

/// What an entry of a pack index says.
pub struct PackRecord {
    pub id: Seq<u8>,
    pub crc32: u32,
    pub offset: u64,
}

impl View for PackIndexEntry {
    type V = PackRecord;

    open spec fn view(&self) -> PackRecord {
        PackRecord { id: self.id@, crc32: self.crc32, offset: self.offset }
    }
}

/// What a list of entries says.
pub open spec fn records(list: Seq<PackIndexEntry>) -> Seq<PackRecord> {
    Seq::new(list.len(), |i: int| list[i]@)
}

/// Whether identifiers ascend strictly.
pub open spec fn ascends(list: Seq<PackRecord>) -> bool {
    forall|i: int, j: int| 0 <= i < j < list.len() ==> #[trigger] id_before(list[i], list[j])
}

pub open spec fn id_before(a: PackRecord, b: PackRecord) -> bool {
    bytes::lex_lt(a.id, b.id)
}

/// Every identifier has twenty bytes.
pub open spec fn full_ids(list: Seq<PackRecord>) -> bool {
    forall|i: int| 0 <= i < list.len() ==> (#[trigger] list[i]).id.len() == 20
}

/// How many of the first `n` records have an identifier whose first byte is
/// at most `bucket`.
pub open spec fn rank(list: Seq<PackRecord>, n: int, bucket: int) -> int
    decreases n,
{
    if n <= 0 {
        0
    } else {
        rank(list, n - 1, bucket) + if list[n - 1].id[0] <= bucket {
            1int
        } else {
            0
        }
    }
}

/// The bytes that a version-2 index begins with.
pub open spec fn index_magic() -> Seq<u8> {
    seq![0xffu8, 116u8, 79u8, 99u8]
}

/// A number in four bytes.
pub open spec fn word_at(data: Seq<u8>, at: int) -> int {
    bytes::be(data.subrange(at, at + 4)) as int
}

/// How many objects a fanout table counts up to a first byte.
pub open spec fn fan(data: Seq<u8>, bucket: int) -> int {
    word_at(data, 8 + 4 * bucket)
}

pub open spec fn fan_steps_up(data: Seq<u8>, bucket: int) -> bool {
    fan(data, bucket - 1) <= fan(data, bucket)
}

pub open spec fn large_start(count: int) -> int {
    1032 + 28 * count
}

/// How many large offsets an index has room for.
pub open spec fn large_count(data: Seq<u8>, count: int) -> int {
    (data.len() - 40 - large_start(count)) / 8
}

pub open spec fn id_at(data: Seq<u8>, k: int) -> Seq<u8> {
    data.subrange(1032 + 20 * k, 1052 + 20 * k)
}

pub open spec fn offset_word(data: Seq<u8>, count: int, k: int) -> int {
    word_at(data, 1032 + 24 * count + 4 * k)
}

/// The record that an index holds at a position.
pub open spec fn record_at(data: Seq<u8>, count: int, k: int) -> PackRecord {
    let word = offset_word(data, count, k);
    let large = large_start(count) + 8 * (word - 0x8000_0000);
    PackRecord {
        id: id_at(data, k),
        crc32: word_at(data, 1032 + 20 * count + 4 * k) as u32,
        offset: if word < 0x8000_0000 {
            word as u64
        } else {
            bytes::be(data.subrange(large, large + 8)) as u64
        },
    }
}

/// What is wrong with the entry at a position.
pub open spec fn fault_at(data: Seq<u8>, count: int, k: int) -> Option<Error> {
    if k > 0 && !bytes::lex_lt(id_at(data, k - 1), id_at(data, k)) {
        Some(Error::InvalidObject("invalid pack: object IDs are not strictly sorted"))
    } else if offset_word(data, count, k) >= 0x8000_0000 && offset_word(data, count, k)
        - 0x8000_0000 >= large_count(data, count) {
        Some(Error::InvalidObject("invalid pack: large-offset index is out of range"))
    } else {
        None
    }
}

/// What is wrong with the first faulty entry among the first `n`.
pub open spec fn first_fault(data: Seq<u8>, count: int, n: int) -> Option<Error>
    decreases n,
{
    if n <= 0 {
        None
    } else {
        match first_fault(data, count, n - 1) {
            Some(error) => Some(error),
            None => fault_at(data, count, n - 1),
        }
    }
}

/// The records of an index.
pub open spec fn records_of(data: Seq<u8>, count: int) -> Seq<PackRecord> {
    Seq::new(count as nat, |k: int| record_at(data, count, k))
}

pub open spec fn fan_matches(data: Seq<u8>, list: Seq<PackRecord>, bucket: int) -> bool {
    fan(data, bucket) == rank(list, list.len() as int, bucket)
}

/// What is wrong with the frame of an index.
#[verifier::opaque]
pub open spec fn frame_fault(data: Seq<u8>) -> Option<Error> {
    if data.len() < 1072 || data.take(4) != index_magic() {
        Some(Error::InvalidObject("invalid pack: missing version-2 index header"))
    } else if word_at(data, 4) != 2 {
        Some(Error::InvalidObject("invalid pack: unsupported pack index version"))
    } else if sha1::sha1(data.take(data.len() - 20)) != data.skip(data.len() - 20) {
        Some(Error::InvalidObject("invalid pack: pack index checksum mismatch"))
    } else {
        None
    }
}

/// What is wrong with the tables of an index.
#[verifier::opaque]
pub open spec fn tables_fault(data: Seq<u8>) -> Option<Error> {
    let count = fan(data, 255);
    if exists|bucket: int| 0 < bucket < 256 && !#[trigger] fan_steps_up(data, bucket) {
        Some(Error::InvalidObject("invalid pack: non-monotonic pack index fanout"))
    } else if large_start(count) > usize::MAX {
        Some(Error::InvalidObject("invalid pack: size overflow"))
    } else if large_start(count) > data.len() - 40 {
        Some(Error::InvalidObject("invalid pack: truncated pack index tables"))
    } else if (data.len() - 40 - large_start(count)) % 8 != 0 {
        Some(Error::InvalidObject("invalid pack: misaligned large-offset table"))
    } else {
        None
    }
}

/// The records and the pack checksum of an index, or why it is refused.
#[verifier::opaque]
pub open spec fn index_from(data: Seq<u8>) -> core::result::Result<
    (Seq<PackRecord>, Seq<u8>),
    Error,
> {
    let count = fan(data, 255);
    let list = records_of(data, count);
    match frame_fault(data) {
        Some(error) => Err(error),
        None => match tables_fault(data) {
            Some(error) => Err(error),
            None => match first_fault(data, count, count) {
                Some(error) => Err(error),
                None => if exists|bucket: int|
                    0 <= bucket < 256 && !#[trigger] fan_matches(data, list, bucket) {
                    Err(Error::InvalidObject("invalid pack: fanout does not match object IDs"))
                } else {
                    Ok((list, data.subrange(data.len() - 40, data.len() - 20)))
                },
            },
        },
    }
}

/// A fully validated version-2 Git pack index.
#[derive(Debug, PartialEq, Eq)]
pub struct PackIndex {
    entries: Vec<PackIndexEntry>,
    pack_checksum: [u8; 20],
}

/// A position past the records whose first byte is at most `bucket`, where
/// the records ascend, is how many these are.
proof fn lemma_rank(list: Seq<PackRecord>, n: int, bucket: int)
    requires
        ascends(list),
        full_ids(list),
        0 <= n <= list.len(),
        n > 0 ==> list[n - 1].id[0] <= bucket,
        n < list.len() ==> list[n].id[0] > bucket,
    ensures
        rank(list, list.len() as int, bucket) == n,
{
    lemma_rank_low(list, n, bucket);
    lemma_rank_high(list, n, list.len() as int, bucket);
}

proof fn lemma_first_byte(a: PackRecord, b: PackRecord)
    requires
        id_before(a, b),
        a.id.len() == 20,
        b.id.len() == 20,
    ensures
        a.id[0] <= b.id[0],
{
}

proof fn lemma_rank_low(list: Seq<PackRecord>, n: int, bucket: int)
    requires
        ascends(list),
        full_ids(list),
        0 <= n <= list.len(),
        n > 0 ==> list[n - 1].id[0] <= bucket,
    ensures
        rank(list, n, bucket) == n,
    decreases n,
{
    if n > 1 {
        assert(id_before(list[n - 2], list[n - 1]));
        lemma_first_byte(list[n - 2], list[n - 1]);
    }
    if n > 0 {
        lemma_rank_low(list, n - 1, bucket);
    }
}

proof fn lemma_rank_high(list: Seq<PackRecord>, n: int, m: int, bucket: int)
    requires
        ascends(list),
        full_ids(list),
        0 <= n <= m <= list.len(),
        n < list.len() ==> list[n].id[0] > bucket,
    ensures
        rank(list, m, bucket) == rank(list, n, bucket),
    decreases m,
{
    if m > n {
        lemma_rank_high(list, n, m - 1, bucket);
        if m - 1 > n {
            assert(id_before(list[n], list[m - 1]));
            lemma_first_byte(list[n], list[m - 1]);
        }
    }
}

proof fn lemma_fault_persists(data: Seq<u8>, count: int, n: int, m: int)
    requires
        0 <= n <= m,
    ensures
        first_fault(data, count, n) is Some ==> first_fault(data, count, m) == first_fault(
            data,
            count,
            n,
        ),
    decreases m,
{
    if n < m {
        lemma_fault_persists(data, count, n, m - 1);
    }
}

proof fn lemma_no_fault(data: Seq<u8>, count: int, n: int, k: int)
    requires
        first_fault(data, count, n) is None,
        0 <= k < n,
    ensures
        fault_at(data, count, k) is None,
    decreases n,
{
    if k < n - 1 {
        lemma_no_fault(data, count, n - 1, k);
    }
}

/// Records that have no fault ascend.
proof fn lemma_sound_ascends(data: Seq<u8>, count: int)
    requires
        0 <= count,
        large_start(count) <= data.len() - 40,
        first_fault(data, count, count) is None,
    ensures
        ascends(records_of(data, count)),
        full_ids(records_of(data, count)),
{
    let list = records_of(data, count);
    assert forall|i: int, j: int| 0 <= i < j < list.len() implies #[trigger] id_before(
        list[i],
        list[j],
    ) by {
        lemma_sound_pair(data, count, i, j);
    }
}

proof fn lemma_sound_pair(data: Seq<u8>, count: int, i: int, j: int)
    requires
        first_fault(data, count, count) is None,
        0 <= i < j < count,
    ensures
        bytes::lex_lt(id_at(data, i), id_at(data, j)),
    decreases j,
{
    lemma_no_fault(data, count, count, j);
    if i < j - 1 {
        lemma_sound_pair(data, count, i, j - 1);
        bytes::lemma_lex_transitive(id_at(data, i), id_at(data, j - 1), id_at(data, j));
    }
}

impl PackIndex {
    /// The records of the index, in the order of their identifiers.
    pub closed spec fn list(self) -> Seq<PackRecord> {
        records(self.entries@)
    }

    /// The checksum of the pack that the index belongs to.
    pub closed spec fn checksum(self) -> Seq<u8> {
        self.pack_checksum@
    }

    #[verifier::type_invariant]
    spec fn inv(self) -> bool {
        ascends(records(self.entries@))
    }

    /// Parse an index, validating its checksum, fanout, ordering, and offsets.
    pub fn parse(data: &[u8]) -> (r: Result<Self>)
        ensures
            match index_from(data@) {
                Ok((list, checksum)) => r is Ok && r->Ok_0.list() == list && r->Ok_0.checksum()
                    == checksum,
                Err(error) => r is Err && r->Err_0 == error,
            },
    {
        reveal(index_from);
        check_frame(data)?;
        let count: usize = check_tables(data)?;
        let entries = read_entries(data, count)?;
        proof {
            lemma_sound_ascends(data@, count as int);
        }
        assert(entries@.len() == records(entries@).len());
        if !fan_agrees(data, &entries) {
            return Err(Error::InvalidObject("invalid pack: fanout does not match object IDs"));
        }
        let checksum = ObjectId::read(data, data.len() - 40);
        Ok(PackIndex { entries, pack_checksum: *checksum.as_bytes() })
    }

    pub fn entries(&self) -> (r: &[PackIndexEntry])
        ensures
            records(r@) == self.list(),
            ascends(records(r@)),
    {
        proof {
            use_type_invariant(self);
        }
        self.entries.as_slice()
    }

    pub fn pack_checksum(&self) -> (r: &[u8; 20])
        ensures
            r@ == self.checksum(),
    {
        &self.pack_checksum
    }

    /// Looks an object up.
    pub fn find(&self, id: ObjectId) -> (r: Option<PackIndexEntry>)
        ensures
            match r {
                Some(entry) => entry.id == id && self.list().contains(entry@),
                None => forall|k: int|
                    0 <= k < self.list().len() ==> (#[trigger] self.list()[k]).id != id@,
            },
    {
        proof {
            use_type_invariant(self);
        }
        let ghost list = self.list();
        let mut low: usize = 0;
        let mut high: usize = self.entries.len();
        while low < high
            invariant
                low <= high <= self.entries@.len(),
                list == records(self.entries@),
                list == self.list(),
                ascends(list),
                forall|k: int| 0 <= k < low ==> bytes::lex_lt(#[trigger] list[k].id, id@),
                forall|k: int| high <= k < list.len() ==> bytes::lex_lt(id@, #[trigger] list[k].id),
            decreases high - low,
        {
            let middle: usize = low + (high - low) / 2;
            let entry = self.entries[middle];
            assert(list[middle as int] == entry@);
            if entry.id.same(&id) {
                return Some(entry);
            }
            if entry.id.before(&id) {
                proof {
                    assert forall|k: int| 0 <= k < middle + 1 implies bytes::lex_lt(
                        #[trigger] list[k].id,
                        id@,
                    ) by {
                        if k < middle {
                            assert(id_before(list[k], list[middle as int]));
                            bytes::lemma_lex_transitive(list[k].id, list[middle as int].id, id@);
                        }
                    }
                }
                low = middle + 1;
            } else {
                proof {
                    bytes::lemma_lex_total(entry.id@, id@);
                    assert forall|k: int| middle <= k < list.len() implies bytes::lex_lt(
                        id@,
                        #[trigger] list[k].id,
                    ) by {
                        if k > middle {
                            assert(id_before(list[middle as int], list[k]));
                            bytes::lemma_lex_transitive(id@, list[middle as int].id, list[k].id);
                        }
                    }
                }
                high = middle;
            }
        }
        proof {
            assert forall|k: int| 0 <= k < list.len() implies (#[trigger] list[k]).id != id@ by {
                bytes::lemma_lex_irreflexive(id@);
            }
        }
        None
    }
}

impl Clone for PackIndex {
    fn clone(&self) -> (r: Self)
        ensures
            r.list() == self.list(),
            r.checksum() == self.checksum(),
    {
        proof {
            use_type_invariant(self);
        }
        let mut entries: Vec<PackIndexEntry> = Vec::new();
        let mut i: usize = 0;
        while i < self.entries.len()
            invariant
                i <= self.entries@.len(),
                entries@ == self.entries@.take(i as int),
            decreases self.entries@.len() - i,
        {
            entries.push(self.entries[i]);
            i += 1;
            assert(entries@ =~= self.entries@.take(i as int));
        }
        assert(entries@ =~= self.entries@);
        PackIndex { entries, pack_checksum: self.pack_checksum }
    }
}

fn check_frame(data: &[u8]) -> (r: Result<()>)
    ensures
        match frame_fault(data@) {
            Some(error) => r is Err && r->Err_0 == error,
            None => r is Ok && data@.len() >= 1072,
        },
{
    reveal(frame_fault);
    if data.len() < 1072 || data[0] != 0xff || data[1] != 116 || data[2] != 79 || data[3] != 99 {
        proof {
            if data@.len() >= 1072 && data@.take(4) == index_magic() {
                assert(data@.take(4)[0] == data@[0] && data@.take(4)[1] == data@[1]
                    && data@.take(4)[2] == data@[2] && data@.take(4)[3] == data@[3]);
            }
        }
        return Err(Error::InvalidObject("invalid pack: missing version-2 index header"));
    }
    assert(data@.take(4) =~= index_magic());
    if bytes::read_be32(data, 4) != 2 {
        return Err(Error::InvalidObject("invalid pack: unsupported pack index version"));
    }
    if !ends_with_sum(data) {
        return Err(Error::InvalidObject("invalid pack: pack index checksum mismatch"));
    }
    Ok(())
}

/// Whether the last twenty bytes are the SHA-1 of those before.
pub fn ends_with_sum(data: &[u8]) -> (r: bool)
    requires
        data@.len() >= 20,
    ensures
        r == (sha1::sha1(data@.take(data@.len() - 20)) == data@.skip(data@.len() - 20)),
{
    let end: usize = data.len() - 20;
    let sum = sha1::digest(&data[0..end]);
    assert(data@.subrange(0, end as int) =~= data@.take(end as int));
    assert(data@.subrange(end as int, data@.len() as int) =~= data@.skip(end as int));
    bytes::bytes_eq(sum.as_slice(), &data[end..data.len()])
}

fn check_tables(data: &[u8]) -> (r: Result<usize>)
    requires
        data@.len() >= 1072,
    ensures
        match tables_fault(data@) {
            Some(error) => r is Err && r->Err_0 == error,
            None => r is Ok && r->Ok_0 == fan(data@, 255) && r->Ok_0 <= u32::MAX && large_start(
                r->Ok_0 as int,
            ) <= data@.len() - 40,
        },
{
    reveal(tables_fault);
    if !fan_ascends(data) {
        return Err(Error::InvalidObject("invalid pack: non-monotonic pack index fanout"));
    }
    let count: u32 = bytes::read_be32(data, 8 + 4 * 255);
    if 1032 + 28 * (count as u64) > usize::MAX as u64 {
        return Err(Error::InvalidObject("invalid pack: size overflow"));
    }
    let large: usize = 1032 + 28 * (count as usize);
    if large > data.len() - 40 {
        return Err(Error::InvalidObject("invalid pack: truncated pack index tables"));
    }
    if (data.len() - 40 - large) % 8 != 0 {
        return Err(Error::InvalidObject("invalid pack: misaligned large-offset table"));
    }
    Ok(count as usize)
}

fn fan_ascends(data: &[u8]) -> (r: bool)
    requires
        data@.len() >= 1072,
    ensures
        r == !(exists|bucket: int| 0 < bucket < 256 && !#[trigger] fan_steps_up(data@, bucket)),
{
    let mut bucket: usize = 1;
    let mut previous: u32 = bytes::read_be32(data, 8);
    while bucket < 256
        invariant
            1 <= bucket <= 256,
            data@.len() >= 1072,
            previous == fan(data@, bucket - 1),
            forall|b: int| 0 < b < bucket ==> #[trigger] fan_steps_up(data@, b),
        decreases 256 - bucket,
    {
        let count: u32 = bytes::read_be32(data, 8 + 4 * bucket);
        if count < previous {
            assert(!fan_steps_up(data@, bucket as int));
            return false;
        }
        previous = count;
        bucket += 1;
    }
    true
}

fn read_entry(data: &[u8], count: usize, k: usize) -> (r: PackIndexEntry)
    requires
        k < count <= u32::MAX,
        large_start(count as int) <= data@.len() - 40,
        fault_at(data@, count as int, k as int) is None,
    ensures
        r@ == record_at(data@, count as int, k as int),
{
    assert(data.len() <= usize::MAX);
    let id = ObjectId::read(data, 1032 + 20 * k);
    let word: u32 = bytes::read_be32(data, 1032 + 24 * count + 4 * k);
    let crc32: u32 = bytes::read_be32(data, 1032 + 20 * count + 4 * k);
    let offset: u64 = if word < 0x8000_0000 {
        word as u64
    } else {
        bytes::read_be64(data, 1032 + 28 * count + 8 * ((word - 0x8000_0000) as usize))
    };
    PackIndexEntry { id, crc32, offset }
}

fn read_entries(data: &[u8], count: usize) -> (r: Result<Vec<PackIndexEntry>>)
    requires
        count <= u32::MAX,
        large_start(count as int) <= data@.len() - 40,
    ensures
        match first_fault(data@, count as int, count as int) {
            Some(error) => r is Err && r->Err_0 == error,
            None => r is Ok && records(r->Ok_0@) == records_of(data@, count as int),
        },
{
    let mut entries: Vec<PackIndexEntry> = Vec::new();
    let mut k: usize = 0;
    while k < count
        invariant
            k <= count <= u32::MAX,
            large_start(count as int) <= data@.len() - 40,
            first_fault(data@, count as int, k as int) is None,
            entries@.len() == k,
            forall|i: int|
                0 <= i < k ==> (#[trigger] entries@[i])@ == record_at(data@, count as int, i),
        decreases count - k,
    {
        proof {
            lemma_fault_persists(data@, count as int, k + 1, count as int);
        }
        assert(data.len() <= usize::MAX);
        if k > 0 {
            let last = ObjectId::read(data, 1032 + 20 * (k - 1));
            let id = ObjectId::read(data, 1032 + 20 * k);
            if !last.before(&id) {
                return Err(
                    Error::InvalidObject("invalid pack: object IDs are not strictly sorted"),
                );
            }
        }
        let word: u32 = bytes::read_be32(data, 1032 + 24 * count + 4 * k);
        let room: usize = (data.len() - 40 - (1032 + 28 * count)) / 8;
        if word >= 0x8000_0000 && (word - 0x8000_0000) as usize >= room {
            return Err(
                Error::InvalidObject("invalid pack: large-offset index is out of range"),
            );
        }
        let entry = read_entry(data, count, k);
        entries.push(entry);
        k += 1;
    }
    assert(records(entries@) =~= records_of(data@, count as int));
    Ok(entries)
}

fn fan_agrees(data: &[u8], entries: &Vec<PackIndexEntry>) -> (r: bool)
    requires
        data@.len() >= 1072,
        ascends(records(entries@)),
        full_ids(records(entries@)),
        entries@.len() <= u32::MAX,
    ensures
        r == !(exists|bucket: int|
            0 <= bucket < 256 && !#[trigger] fan_matches(data@, records(entries@), bucket)),
{
    let ghost list = records(entries@);
    let mut bucket: usize = 0;
    let mut position: usize = 0;
    while bucket < 256
        invariant
            bucket <= 256,
            data@.len() >= 1072,
            position <= entries@.len() <= u32::MAX,
            list == records(entries@),
            ascends(list),
            full_ids(list),
            position > 0 ==> list[position - 1].id[0] <= bucket,
            forall|b: int| 0 <= b < bucket ==> #[trigger] fan_matches(data@, list, b),
        decreases 256 - bucket,
    {
        while position < entries.len() && entries[position].id.as_bytes()[0] as usize <= bucket
            invariant
                position <= entries@.len(),
                list == records(entries@),
                position > 0 ==> list[position - 1].id[0] <= bucket,
            decreases entries@.len() - position,
        {
            assert(list[position as int] == entries@[position as int]@);
            position += 1;
        }
        proof {
            if position < list.len() {
                assert(list[position as int] == entries@[position as int]@);
            }
            lemma_rank(list, position as int, bucket as int);
        }
        if bytes::read_be32(data, 8 + 4 * bucket) != position as u32 {
            assert(!fan_matches(data@, list, bucket as int));
            return false;
        }
        bucket += 1;
    }
    true
}

// ---------------------------------------------------------------------------
// Writing a pack index

/// A record put in its place among records that ascend.
pub open spec fn placed(list: Seq<PackRecord>, record: PackRecord) -> Seq<PackRecord>
    decreases list.len(),
{
    if list.len() == 0 || id_before(list.last(), record) {
        list.push(record)
    } else {
        placed(list.drop_last(), record).push(list.last())
    }
}

/// Records in the order of their identifiers.
pub open spec fn arranged(list: Seq<PackRecord>) -> Seq<PackRecord>
    decreases list.len(),
{
    if list.len() == 0 {
        list
    } else {
        placed(arranged(list.drop_last()), list.last())
    }
}

/// Whether an identifier stands twice.
pub open spec fn repeats(list: Seq<PackRecord>) -> bool {
    exists|i: int, j: int| 0 <= i < j < list.len() && #[trigger] same_id(list[i], list[j])
}

pub open spec fn same_id(a: PackRecord, b: PackRecord) -> bool {
    a.id == b.id
}

/// Where a record goes, the records split in those before and those after.
proof fn lemma_placed(list: Seq<PackRecord>, record: PackRecord, at: int)
    requires
        ascends(list),
        0 <= at <= list.len(),
        at > 0 ==> id_before(list[at - 1], record),
        at < list.len() ==> id_before(record, list[at]),
    ensures
        placed(list, record) == list.take(at).push(record) + list.skip(at),
        ascends(placed(list, record)),
    decreases list.len(),
{
    let whole = list.take(at).push(record) + list.skip(at);
    if at == list.len() {
        assert(whole =~= list.push(record));
    } else {
        let front = list.drop_last();
        if at < list.len() - 1 {
            assert(id_before(list[at], list.last()));
            bytes::lemma_lex_transitive(record.id, list[at].id, list.last().id);
        }
        bytes::lemma_lex_asymmetric(record.id, list.last().id);
        if at < front.len() {
            assert(front[at] == list[at]);
        }
        lemma_placed(front, record, at);
        assert(whole =~= (front.take(at).push(record) + front.skip(at)).push(list.last()));
    }
    assert forall|i: int, j: int| 0 <= i < j < whole.len() implies #[trigger] id_before(
        whole[i],
        whole[j],
    ) by {
        if j < at {
            assert(id_before(list[i], list[j]));
        } else if j == at {
            if i < at - 1 {
                assert(id_before(list[i], list[at - 1]));
                bytes::lemma_lex_transitive(list[i].id, list[at - 1].id, record.id);
            }
        } else if i == at {
            if j - 1 > at {
                assert(id_before(list[at], list[j - 1]));
                bytes::lemma_lex_transitive(record.id, list[at].id, list[j - 1].id);
            }
        } else if i > at {
            assert(id_before(list[i - 1], list[j - 1]));
        } else {
            assert(id_before(list[i], list[j - 1]));
        }
    }
    assert(placed(list, record) =~= whole);
}

/// A record that is placed is there, and so is every other one.
pub proof fn lemma_placed_holds(list: Seq<PackRecord>, record: PackRecord)
    ensures
        placed(list, record).len() == list.len() + 1,
        forall|x: PackRecord|
            #![trigger placed(list, record).contains(x)]
            placed(list, record).contains(x) <==> list.contains(x) || x == record,
    decreases list.len(),
{
    let out = placed(list, record);
    if list.len() == 0 || id_before(list.last(), record) {
        assert(out[list.len() as int] == record);
        assert forall|x: PackRecord| #[trigger] out.contains(x) <==> list.contains(x) || x
            == record by {
            if list.contains(x) {
                assert(out[list.index_of(x)] == x);
            }
            if out.contains(x) && x != record {
                assert(list[out.index_of(x)] == x);
            }
        }
    } else {
        let front = list.drop_last();
        let inner = placed(front, record);
        lemma_placed_holds(front, record);
        assert forall|x: PackRecord| #[trigger] out.contains(x) <==> list.contains(x) || x
            == record by {
            if out.contains(x) {
                let i = out.index_of(x);
                if i < inner.len() {
                    assert(inner[i] == x);
                    assert(inner.contains(x));
                    if front.contains(x) {
                        assert(list[front.index_of(x)] == x);
                    }
                } else {
                    assert(list[list.len() - 1] == x);
                }
            }
            if list.contains(x) {
                let i = list.index_of(x);
                if i < front.len() {
                    assert(front[i] == x);
                    assert(inner.contains(x));
                    assert(out[inner.index_of(x)] == x);
                } else {
                    assert(out[inner.len() as int] == x);
                }
            }
            if x == record {
                assert(inner.contains(x));
                assert(out[inner.index_of(x)] == x);
            }
        }
    }
}

/// Putting records in order drops none and adds none.
pub proof fn lemma_arranged(list: Seq<PackRecord>)
    ensures
        arranged(list).len() == list.len(),
        forall|x: PackRecord|
            #![trigger arranged(list).contains(x)]
            arranged(list).contains(x) <==> list.contains(x),
    decreases list.len(),
{
    if list.len() > 0 {
        let front = list.drop_last();
        lemma_arranged(front);
        lemma_placed_holds(arranged(front), list.last());
        assert forall|x: PackRecord| #[trigger] arranged(list).contains(x) <==> list.contains(
            x,
        ) by {
            assert(placed(arranged(front), list.last()).contains(x) <==> arranged(front).contains(x)
                || x == list.last());
            assert(arranged(front).contains(x) <==> front.contains(x));
            if front.contains(x) {
                assert(list[front.index_of(x)] == x);
            }
            if list.contains(x) && x != list.last() {
                assert(front[list.index_of(x)] == x);
            }
            if x == list.last() {
                assert(list[list.len() - 1] == x);
            }
        }
    }
}

/// Records that do not repeat ascend once they are put in order.
pub proof fn lemma_arranged_ascends(list: Seq<PackRecord>)
    requires
        !repeats(list),
    ensures
        ascends(arranged(list)),
    decreases list.len(),
{
    if list.len() > 0 {
        let front = list.drop_last();
        let sorted = arranged(front);
        let record = list.last();
        assert forall|i: int, j: int| 0 <= i < j < front.len() implies !#[trigger] same_id(
            front[i],
            front[j],
        ) by {
            assert(!same_id(list[i], list[j]));
        }
        lemma_arranged_ascends(front);
        lemma_arranged(front);
        assert forall|k: int| 0 <= k < sorted.len() implies (#[trigger] sorted[k]).id
            != record.id by {
            assert(sorted.contains(sorted[k]));
            assert(front.contains(sorted[k]));
            let i = front.index_of(sorted[k]);
            assert(list[i] == sorted[k]);
            assert(!same_id(list[i], list[list.len() - 1]));
        }
        let at = lemma_place(sorted, record, sorted.len() as int);
        lemma_placed(sorted, record, at);
    }
}

proof fn lemma_place(sorted: Seq<PackRecord>, record: PackRecord, from: int) -> (at: int)
    requires
        ascends(sorted),
        0 <= from <= sorted.len(),
        from < sorted.len() ==> id_before(record, sorted[from]),
        forall|k: int| 0 <= k < sorted.len() ==> (#[trigger] sorted[k]).id != record.id,
    ensures
        0 <= at <= sorted.len(),
        at > 0 ==> id_before(sorted[at - 1], record),
        at < sorted.len() ==> id_before(record, sorted[at]),
    decreases from,
{
    if from > 0 && !id_before(sorted[from - 1], record) {
        bytes::lemma_lex_total(sorted[from - 1].id, record.id);
        lemma_place(sorted, record, from - 1)
    } else {
        from
    }
}

fn arrange(entries: &[PackIndexEntry]) -> (r: Option<Vec<PackIndexEntry>>)
    ensures
        match r {
            Some(sorted) => {
                &&& !repeats(records(entries@))
                &&& records(sorted@) == arranged(records(entries@))
                &&& ascends(records(sorted@))
            },
            None => repeats(records(entries@)),
        },
{
    let ghost all = records(entries@);
    let mut sorted: Vec<PackIndexEntry> = Vec::new();
    let mut n: usize = 0;
    assert(records(sorted@) =~= arranged(all.take(0)));
    while n < entries.len()
        invariant
            n <= entries@.len(),
            all == records(entries@),
            records(sorted@) == arranged(all.take(n as int)),
            ascends(records(sorted@)),
            !repeats(all.take(n as int)),
        decreases entries@.len() - n,
    {
        let entry = entries[n];
        let ghost list = records(sorted@);
        let ghost front = all.take(n as int);
        let ghost next = all.take(n + 1);
        assert(entry@ == all[n as int]);
        let mut at: usize = sorted.len();
        proof {
            lemma_arranged(front);
            assert(next.drop_last() =~= front);
        }
        while at > 0 && !sorted[at - 1].id.before(&entry.id)
            invariant
                at <= sorted@.len(),
                list == records(sorted@),
                at < sorted@.len() ==> id_before(entry@, list[at as int]),
                entry@ == all[n as int],
                n < all.len(),
                all == records(entries@),
                list == arranged(front),
                front == all.take(n as int),
                forall|x: PackRecord|
                    #![trigger arranged(front).contains(x)]
                    arranged(front).contains(x) <==> front.contains(x),
            decreases at,
        {
            assert(list[at - 1] == sorted@[at - 1]@);
            if sorted[at - 1].id.same(&entry.id) {
                proof {
                    let x = list[at - 1];
                    assert(arranged(front).contains(x));
                    let k = front.index_of(x);
                    assert(front[k] == all[k]);
                    assert(same_id(all[k], all[n as int]));
                }
                return None;
            }
            proof {
                bytes::lemma_lex_total(sorted@[at - 1].id@, entry.id@);
            }
            at -= 1;
        }
        proof {
            if at > 0 {
                assert(list[at - 1] == sorted@[at - 1]@);
            }
            lemma_placed(list, entry@, at as int);
            assert forall|i: int, j: int| 0 <= i < j < next.len() implies !#[trigger] same_id(
                next[i],
                next[j],
            ) by {
                if j < n {
                    assert(front[i] == next[i] && front[j] == next[j]);
                    assert(!same_id(front[i], front[j]));
                } else if same_id(next[i], next[j]) {
                    let x = front[i];
                    assert(front.contains(x));
                    assert(arranged(front).contains(x));
                    let k = list.index_of(x);
                    bytes::lemma_lex_irreflexive(x.id);
                    if k < at {
                        if k < at - 1 {
                            assert(id_before(list[k], list[at - 1]));
                            bytes::lemma_lex_transitive(list[k].id, list[at - 1].id, entry.id@);
                        }
                    } else {
                        if k > at {
                            assert(id_before(list[at as int], list[k]));
                            bytes::lemma_lex_transitive(entry.id@, list[at as int].id, list[k].id);
                        }
                    }
                }
            }
        }
        let ghost before = sorted@;
        sorted.insert(at, entry);
        assert(records(sorted@) =~= list.take(at as int).push(entry@) + list.skip(at as int));
        n += 1;
    }
    assert(all.take(n as int) =~= all);
    Some(sorted)
}

/// The offsets that do not fit in 31 bits.
pub open spec fn large_offsets(list: Seq<PackRecord>) -> Seq<u64>
    decreases list.len(),
{
    if list.len() == 0 {
        Seq::empty()
    } else {
        let front = large_offsets(list.drop_last());
        if list.last().offset < 0x8000_0000 {
            front
        } else {
            front.push(list.last().offset)
        }
    }
}

/// The entry of the offset table for a record: the offset itself, or where it
/// stands among the large ones.
pub open spec fn offset_entry(list: Seq<PackRecord>, k: int) -> nat {
    if list[k].offset < 0x8000_0000 {
        list[k].offset as nat
    } else {
        0x8000_0000 + large_offsets(list.take(k)).len() % 0x8000_0000
    }
}

pub open spec fn fan_table(list: Seq<PackRecord>) -> Seq<Seq<u8>> {
    Seq::new(256, |b: int| bytes::be_bytes(rank(list, list.len() as int, b) as nat, 4))
}

pub open spec fn id_table(list: Seq<PackRecord>) -> Seq<Seq<u8>> {
    Seq::new(list.len(), |k: int| list[k].id)
}

pub open spec fn crc_table(list: Seq<PackRecord>) -> Seq<Seq<u8>> {
    Seq::new(list.len(), |k: int| bytes::be_bytes(list[k].crc32 as nat, 4))
}

pub open spec fn offset_table(list: Seq<PackRecord>) -> Seq<Seq<u8>> {
    Seq::new(list.len(), |k: int| bytes::be_bytes(offset_entry(list, k), 4))
}

pub open spec fn large_table(list: Seq<PackRecord>) -> Seq<Seq<u8>> {
    Seq::new(
        large_offsets(list).len(),
        |k: int| bytes::be_bytes(large_offsets(list)[k] as nat, 8),
    )
}

/// An index without its own checksum.
#[verifier::opaque]
pub open spec fn index_body(list: Seq<PackRecord>, checksum: Seq<u8>) -> Seq<u8> {
    index_magic() + bytes::be_bytes(2, 4) + bytes::flat(fan_table(list)) + bytes::flat(
        id_table(list),
    ) + bytes::flat(crc_table(list)) + bytes::flat(offset_table(list)) + bytes::flat(
        large_table(list),
    ) + checksum
}

/// The index of records that ascend.
pub open spec fn index_bytes(list: Seq<PackRecord>, checksum: Seq<u8>) -> Seq<u8> {
    index_body(list, checksum) + sha1::sha1(index_body(list, checksum))
}

fn push_fan(out: &mut Vec<u8>, sorted: &Vec<PackIndexEntry>)
    requires
        ascends(records(sorted@)),
        sorted@.len() <= u32::MAX,
    ensures
        final(out)@ == old(out)@ + bytes::flat(fan_table(records(sorted@))),
{
    let ghost list = records(sorted@);
    let ghost table = fan_table(list);
    let ghost start = out@;
    let mut bucket: usize = 0;
    let mut position: usize = 0;
    assert(table.take(0) =~= Seq::empty());
    assert(out@ =~= start + bytes::flat(table.take(0)));
    while bucket < 256
        invariant
            bucket <= 256,
            position <= sorted@.len() <= u32::MAX,
            list == records(sorted@),
            table == fan_table(list),
            ascends(list),
            position > 0 ==> list[position - 1].id[0] <= bucket,
            out@ == start + bytes::flat(table.take(bucket as int)),
        decreases 256 - bucket,
    {
        while position < sorted.len() && sorted[position].id.as_bytes()[0] as usize <= bucket
            invariant
                position <= sorted@.len(),
                list == records(sorted@),
                position > 0 ==> list[position - 1].id[0] <= bucket,
            decreases sorted@.len() - position,
        {
            assert(list[position as int] == sorted@[position as int]@);
            position += 1;
        }
        proof {
            if position < list.len() {
                assert(list[position as int] == sorted@[position as int]@);
            }
            lemma_full_ids(sorted@);
            lemma_rank(list, position as int, bucket as int);
            assert(table.take(bucket + 1).drop_last() =~= table.take(bucket as int));
        }
        bytes::push_be32(out, position as u32);
        assert(out@ =~= start + bytes::flat(table.take(bucket + 1)));
        bucket += 1;
    }
    assert(table.take(256) =~= table);
}

pub proof fn lemma_full_ids(list: Seq<PackIndexEntry>)
    ensures
        full_ids(records(list)),
{
    assert forall|i: int| 0 <= i < records(list).len() implies (#[trigger] records(
        list,
    )[i]).id.len() == 20 by {
        ObjectId::lemma_view(list[i].id, list[i].id);
    }
}

fn push_ids(out: &mut Vec<u8>, sorted: &Vec<PackIndexEntry>)
    ensures
        final(out)@ == old(out)@ + bytes::flat(id_table(records(sorted@))),
{
    let ghost table = id_table(records(sorted@));
    let ghost start = out@;
    let mut k: usize = 0;
    assert(out@ =~= start + bytes::flat(table.take(0)));
    while k < sorted.len()
        invariant
            k <= sorted@.len(),
            table == id_table(records(sorted@)),
            out@ == start + bytes::flat(table.take(k as int)),
        decreases sorted@.len() - k,
    {
        bytes::append(out, sorted[k].id.as_bytes().as_slice());
        assert(table.take(k + 1).drop_last() =~= table.take(k as int));
        assert(out@ =~= start + bytes::flat(table.take(k + 1)));
        k += 1;
    }
    assert(table.take(k as int) =~= table);
}

fn push_crcs(out: &mut Vec<u8>, sorted: &Vec<PackIndexEntry>)
    ensures
        final(out)@ == old(out)@ + bytes::flat(crc_table(records(sorted@))),
{
    let ghost table = crc_table(records(sorted@));
    let ghost start = out@;
    let mut k: usize = 0;
    assert(out@ =~= start + bytes::flat(table.take(0)));
    while k < sorted.len()
        invariant
            k <= sorted@.len(),
            table == crc_table(records(sorted@)),
            out@ == start + bytes::flat(table.take(k as int)),
        decreases sorted@.len() - k,
    {
        bytes::push_be32(out, sorted[k].crc32);
        assert(table.take(k + 1).drop_last() =~= table.take(k as int));
        assert(out@ =~= start + bytes::flat(table.take(k + 1)));
        k += 1;
    }
    assert(table.take(k as int) =~= table);
}

fn push_offsets(out: &mut Vec<u8>, sorted: &Vec<PackIndexEntry>) -> (r: Vec<u64>)
    requires
        sorted@.len() <= u32::MAX,
    ensures
        final(out)@ == old(out)@ + bytes::flat(offset_table(records(sorted@))),
        r@ == large_offsets(records(sorted@)),
{
    let ghost list = records(sorted@);
    let ghost table = offset_table(list);
    let ghost start = out@;
    let mut large: Vec<u64> = Vec::new();
    let mut k: usize = 0;
    assert(out@ =~= start + bytes::flat(table.take(0)));
    assert(large@ =~= large_offsets(list.take(0)));
    while k < sorted.len()
        invariant
            k <= sorted@.len() <= u32::MAX,
            list == records(sorted@),
            table == offset_table(list),
            out@ == start + bytes::flat(table.take(k as int)),
            large@ == large_offsets(list.take(k as int)),
            large@.len() <= k,
        decreases sorted@.len() - k,
    {
        let offset: u64 = sorted[k].offset;
        assert(list[k as int] == sorted@[k as int]@);
        assert(list.take(k + 1).drop_last() =~= list.take(k as int));
        if offset < 0x8000_0000 {
            bytes::push_be32(out, offset as u32);
        } else {
            let position: u32 = large.len() as u32;
            bytes::push_be32(out, 0x8000_0000 + position % 0x8000_0000);
            large.push(offset);
        }
        assert(table.take(k + 1).drop_last() =~= table.take(k as int));
        assert(out@ =~= start + bytes::flat(table.take(k + 1)));
        k += 1;
    }
    assert(table.take(k as int) =~= table);
    assert(list.take(k as int) =~= list);
    large
}

fn push_large(out: &mut Vec<u8>, large: &Vec<u64>, Ghost(list): Ghost<Seq<PackRecord>>)
    requires
        large@ == large_offsets(list),
    ensures
        final(out)@ == old(out)@ + bytes::flat(large_table(list)),
{
    let ghost table = large_table(list);
    let ghost start = out@;
    let mut k: usize = 0;
    assert(out@ =~= start + bytes::flat(table.take(0)));
    while k < large.len()
        invariant
            k <= large@.len(),
            large@ == large_offsets(list),
            table == large_table(list),
            out@ == start + bytes::flat(table.take(k as int)),
        decreases large@.len() - k,
    {
        bytes::push_be64(out, large[k]);
        assert(table.take(k + 1).drop_last() =~= table.take(k as int));
        assert(out@ =~= start + bytes::flat(table.take(k + 1)));
        k += 1;
    }
    assert(table.take(k as int) =~= table);
}

/// Writes the index of a pack.
pub fn encode_index(entries: &[PackIndexEntry], pack_checksum: [u8; 20]) -> (r: Result<Vec<u8>>)
    ensures
        if repeats(records(entries@)) {
            r is Err && r->Err_0 == Error::InvalidObject(
                "invalid pack: duplicate object ID while writing index",
            )
        } else if entries@.len() > u32::MAX {
            r is Err && r->Err_0 == Error::InvalidObject(
                "invalid pack: index object count overflow",
            )
        } else {
            r is Ok && r->Ok_0@ == index_bytes(arranged(records(entries@)), pack_checksum@)
        },
{
    let sorted = match arrange(entries) {
        Some(sorted) => sorted,
        None => return Err(
            Error::InvalidObject("invalid pack: duplicate object ID while writing index"),
        ),
    };
    let ghost list = records(sorted@);
    proof {
        lemma_arranged(records(entries@));
    }
    if sorted.len() as u64 > u32::MAX as u64 {
        return Err(Error::InvalidObject("invalid pack: index object count overflow"));
    }
    let mut index: Vec<u8> = Vec::new();
    index.push(0xff);
    index.push(116);
    index.push(79);
    index.push(99);
    assert(index@ =~= index_magic());
    bytes::push_be32(&mut index, 2);
    push_fan(&mut index, &sorted);
    push_ids(&mut index, &sorted);
    push_crcs(&mut index, &sorted);
    let large = push_offsets(&mut index, &sorted);
    push_large(&mut index, &large, Ghost(list));
    bytes::append(&mut index, pack_checksum.as_slice());
    proof {
        reveal(index_body);
    }
    let sum = sha1::digest(index.as_slice());
    bytes::append(&mut index, sum.as_slice());
    Ok(index)
}

// ---------------------------------------------------------------------------
// What is written is what is read

pub proof fn lemma_rank_bounds(list: Seq<PackRecord>, n: int, bucket: int)
    requires
        0 <= n <= list.len(),
    ensures
        0 <= rank(list, n, bucket) <= n,
        rank(list, n, bucket - 1) <= rank(list, n, bucket),
        bucket >= 255 ==> rank(list, n, bucket) == n,
    decreases n,
{
    if n > 0 {
        lemma_rank_bounds(list, n - 1, bucket);
    }
}

pub proof fn lemma_large_offsets(list: Seq<PackRecord>, k: int)
    requires
        0 <= k < list.len(),
        list[k].offset >= 0x8000_0000,
    ensures
        large_offsets(list.take(k)).len() < large_offsets(list).len(),
        large_offsets(list)[large_offsets(list.take(k)).len() as int] == list[k].offset,
    decreases list.len(),
{
    let front = list.drop_last();
    if k < list.len() - 1 {
        lemma_large_offsets(front, k);
        assert(front.take(k) =~= list.take(k));
    } else {
        assert(list.take(k) =~= front);
    }
}

/// Where the parts of an index stand.
proof fn lemma_index_parts(list: Seq<PackRecord>, checksum: Seq<u8>)
    requires
        full_ids(list),
        checksum.len() == 20,
    ensures
        ({
            let data = index_bytes(list, checksum);
            let n = list.len() as int;
            let large = large_offsets(list).len() as int;
            &&& data.len() == large_start(n) + 8 * large + 40
            &&& data.take(4) == index_magic()
            &&& data.subrange(4, 8) == bytes::be_bytes(2, 4)
            &&& bytes::flat(fan_table(list)).len() == 1024
            &&& data.subrange(8, 1032) == bytes::flat(fan_table(list))
            &&& bytes::flat(id_table(list)).len() == 20 * n
            &&& data.subrange(1032, 1032 + 20 * n) == bytes::flat(id_table(list))
            &&& bytes::flat(crc_table(list)).len() == 4 * n
            &&& data.subrange(1032 + 20 * n, 1032 + 24 * n) == bytes::flat(crc_table(list))
            &&& bytes::flat(offset_table(list)).len() == 4 * n
            &&& data.subrange(1032 + 24 * n, 1032 + 28 * n) == bytes::flat(offset_table(list))
            &&& bytes::flat(large_table(list)).len() == 8 * large
            &&& data.subrange(large_start(n), large_start(n) + 8 * large) == bytes::flat(
                large_table(list),
            )
            &&& data.subrange(data.len() - 40, data.len() - 20) == checksum
            &&& data.skip(data.len() - 20) == sha1::sha1(data.take(data.len() - 20))
        }),
{
    let body = index_body(list, checksum);
    let data = index_bytes(list, checksum);
    let n = list.len() as int;
    let large = large_offsets(list).len() as int;
    sha1::lemma_sha1_len(body);
    lemma_table_widths(list);
    bytes::lemma_flat_fixed(fan_table(list), 4);
    bytes::lemma_flat_fixed(id_table(list), 20);
    bytes::lemma_flat_fixed(crc_table(list), 4);
    bytes::lemma_flat_fixed(offset_table(list), 4);
    bytes::lemma_flat_fixed(large_table(list), 8);
    bytes::lemma_be_bytes_len(2, 4);
    let p1 = index_magic();
    let p2 = p1 + bytes::be_bytes(2, 4);
    let p3 = p2 + bytes::flat(fan_table(list));
    let p4 = p3 + bytes::flat(id_table(list));
    let p5 = p4 + bytes::flat(crc_table(list));
    let p6 = p5 + bytes::flat(offset_table(list));
    let p7 = p6 + bytes::flat(large_table(list));
    assert(body == p7 + checksum) by {
        reveal(index_body);
    }
    assert(data.subrange(0, data.len() as int) =~= data);
    bytes::lemma_parts(data, 0, body, sha1::sha1(body));
    bytes::lemma_parts(data, 0, p7, checksum);
    bytes::lemma_parts(data, 0, p6, bytes::flat(large_table(list)));
    bytes::lemma_parts(data, 0, p5, bytes::flat(offset_table(list)));
    bytes::lemma_parts(data, 0, p4, bytes::flat(crc_table(list)));
    bytes::lemma_parts(data, 0, p3, bytes::flat(id_table(list)));
    bytes::lemma_parts(data, 0, p2, bytes::flat(fan_table(list)));
    bytes::lemma_parts(data, 0, p1, bytes::be_bytes(2, 4));
    assert(data.take(4) =~= data.subrange(0, 4));
    assert(data.take(data.len() - 20) =~= body);
    assert(data.skip(data.len() - 20) =~= sha1::sha1(body));
}

/// How wide the rows of the tables are.
pub proof fn lemma_table_widths(list: Seq<PackRecord>)
    requires
        full_ids(list),
    ensures
        forall|i: int| 0 <= i < 256 ==> #[trigger] fan_table(list)[i].len() == 4,
        forall|i: int| 0 <= i < list.len() ==> #[trigger] id_table(list)[i].len() == 20,
        forall|i: int| 0 <= i < list.len() ==> #[trigger] crc_table(list)[i].len() == 4,
        forall|i: int| 0 <= i < list.len() ==> #[trigger] offset_table(list)[i].len() == 4,
        forall|i: int|
            0 <= i < large_offsets(list).len() ==> #[trigger] large_table(list)[i].len() == 8,
{
    assert forall|i: int| 0 <= i < 256 implies #[trigger] fan_table(list)[i].len() == 4 by {
        bytes::lemma_be_bytes_len(rank(list, list.len() as int, i) as nat, 4);
    }
    assert forall|i: int| 0 <= i < list.len() implies #[trigger] crc_table(list)[i].len() == 4 by {
        bytes::lemma_be_bytes_len(list[i].crc32 as nat, 4);
    }
    assert forall|i: int| 0 <= i < list.len() implies #[trigger] offset_table(list)[i].len()
        == 4 by {
        bytes::lemma_be_bytes_len(offset_entry(list, i), 4);
    }
    assert forall|i: int| 0 <= i < large_offsets(list).len() implies #[trigger] large_table(
        list,
    )[i].len() == 8 by {
        bytes::lemma_be_bytes_len(large_offsets(list)[i] as nat, 8);
    }
}

proof fn lemma_fan_read(list: Seq<PackRecord>, checksum: Seq<u8>, bucket: int)
    requires
        full_ids(list),
        checksum.len() == 20,
        list.len() <= u32::MAX,
        0 <= bucket < 256,
    ensures
        fan(index_bytes(list, checksum), bucket) == rank(list, list.len() as int, bucket),
{
    let data = index_bytes(list, checksum);
    lemma_index_parts(list, checksum);
    lemma_table_widths(list);
    lemma_rank_bounds(list, list.len() as int, bucket);
    bytes::lemma_row(data, 8, fan_table(list), 4, bucket);
    bytes::lemma_power256();
    bytes::lemma_be_of_bytes(rank(list, list.len() as int, bucket) as nat, 4);
}

pub proof fn lemma_word_read(data: Seq<u8>, at: int, table: Seq<Seq<u8>>, k: int, value: nat)
    requires
        0 <= at,
        at + bytes::flat(table).len() <= data.len(),
        data.subrange(at, at + bytes::flat(table).len()) == bytes::flat(table),
        forall|i: int| 0 <= i < table.len() ==> #[trigger] table[i].len() == 4,
        0 <= k < table.len(),
        table[k] == bytes::be_bytes(value, 4),
        value <= u32::MAX,
    ensures
        word_at(data, at + 4 * k) == value,
{
    bytes::lemma_row(data, at, table, 4, k);
    bytes::lemma_power256();
    bytes::lemma_be_of_bytes(value, 4);
}

proof fn lemma_words_read(list: Seq<PackRecord>, checksum: Seq<u8>, k: int)
    requires
        full_ids(list),
        checksum.len() == 20,
        list.len() <= u32::MAX,
        0 <= k < list.len(),
    ensures
        word_at(index_bytes(list, checksum), 1032 + 20 * list.len() + 4 * k) == list[k].crc32,
        offset_word(index_bytes(list, checksum), list.len() as int, k) == offset_entry(list, k),
        id_at(index_bytes(list, checksum), k) == list[k].id,
{
    let data = index_bytes(list, checksum);
    let n = list.len() as int;
    lemma_index_parts(list, checksum);
    lemma_table_widths(list);
    bytes::lemma_row(data, 1032, id_table(list), 20, k);
    lemma_word_read(data, 1032 + 20 * n, crc_table(list), k, list[k].crc32 as nat);
    lemma_word_read(data, 1032 + 24 * n, offset_table(list), k, offset_entry(list, k));
}

proof fn lemma_large_read(list: Seq<PackRecord>, checksum: Seq<u8>, p: int)
    requires
        full_ids(list),
        checksum.len() == 20,
        0 <= p < large_offsets(list).len(),
    ensures
        ({
            let at = large_start(list.len() as int) + 8 * p;
            bytes::be(index_bytes(list, checksum).subrange(at, at + 8)) == large_offsets(list)[p]
        }),
{
    let data = index_bytes(list, checksum);
    lemma_index_parts(list, checksum);
    lemma_table_widths(list);
    bytes::lemma_row(data, large_start(list.len() as int), large_table(list), 8, p);
    bytes::lemma_power256();
    bytes::lemma_be_of_bytes(large_offsets(list)[p] as nat, 8);
}

proof fn lemma_record_read(list: Seq<PackRecord>, checksum: Seq<u8>, k: int)
    requires
        full_ids(list),
        checksum.len() == 20,
        list.len() <= u32::MAX,
        large_offsets(list).len() <= 0x8000_0000,
        0 <= k < list.len(),
    ensures
        record_at(index_bytes(list, checksum), list.len() as int, k) == list[k],
{
    lemma_words_read(list, checksum, k);
    if list[k].offset >= 0x8000_0000 {
        lemma_large_offsets(list, k);
        let p = large_offsets(list.take(k)).len() as int;
        assert(offset_entry(list, k) == 0x8000_0000 + p);
        lemma_large_read(list, checksum, p);
    }
}

proof fn lemma_entry_sound(list: Seq<PackRecord>, checksum: Seq<u8>, k: int)
    requires
        ascends(list),
        full_ids(list),
        checksum.len() == 20,
        list.len() <= u32::MAX,
        0 <= k < list.len(),
    ensures
        fault_at(index_bytes(list, checksum), list.len() as int, k) is None,
{
    assert(index_bytes(list, checksum).len() == large_start(list.len() as int) + 8
        * large_offsets(list).len() + 40) by {
        lemma_index_parts(list, checksum);
    }
    lemma_words_read(list, checksum, k);
    if k > 0 {
        lemma_words_read(list, checksum, k - 1);
        assert(id_before(list[k - 1], list[k]));
    }
    if list[k].offset >= 0x8000_0000 {
        lemma_large_offsets(list, k);
    }
}

proof fn lemma_no_first_fault(list: Seq<PackRecord>, checksum: Seq<u8>, k: int)
    requires
        ascends(list),
        full_ids(list),
        checksum.len() == 20,
        list.len() <= u32::MAX,
        0 <= k <= list.len(),
    ensures
        first_fault(index_bytes(list, checksum), list.len() as int, k) is None,
    decreases k,
{
    if k > 0 {
        lemma_no_first_fault(list, checksum, k - 1);
        lemma_entry_sound(list, checksum, k - 1);
    }
}

proof fn lemma_frame_sound(list: Seq<PackRecord>, checksum: Seq<u8>)
    requires
        full_ids(list),
        checksum.len() == 20,
    ensures
        frame_fault(index_bytes(list, checksum)) is None,
{
    reveal(frame_fault);
    lemma_index_parts(list, checksum);
    bytes::lemma_power256();
    bytes::lemma_be_of_bytes(2, 4);
}

proof fn lemma_tables_accepted(data: Seq<u8>, count: int, large: int)
    requires
        fan(data, 255) == count,
        forall|bucket: int| 0 < bucket < 256 ==> #[trigger] fan_steps_up(data, bucket),
        data.len() == large_start(count) + 8 * large + 40,
        0 <= large,
        data.len() <= usize::MAX,
    ensures
        tables_fault(data) is None,
{
    reveal(tables_fault);
}

proof fn lemma_tables_sound(list: Seq<PackRecord>, checksum: Seq<u8>)
    requires
        full_ids(list),
        checksum.len() == 20,
        list.len() <= u32::MAX,
        index_bytes(list, checksum).len() <= usize::MAX,
    ensures
        tables_fault(index_bytes(list, checksum)) is None,
        fan(index_bytes(list, checksum), 255) == list.len(),
{
    let data = index_bytes(list, checksum);
    let n = list.len() as int;
    assert(fan(data, 255) == n) by {
        lemma_fan_read(list, checksum, 255);
        lemma_rank_bounds(list, n, 255);
    }
    assert forall|bucket: int| 0 < bucket < 256 implies #[trigger] fan_steps_up(data, bucket) by {
        lemma_fan_read(list, checksum, bucket);
        lemma_fan_read(list, checksum, bucket - 1);
        lemma_rank_bounds(list, n, bucket);
    }
    assert(data.len() == large_start(n) + 8 * large_offsets(list).len() + 40) by {
        lemma_index_parts(list, checksum);
    }
    lemma_tables_accepted(data, n, large_offsets(list).len() as int);
}

proof fn lemma_rank_by_ids(a: Seq<PackRecord>, b: Seq<PackRecord>, n: int, bucket: int)
    requires
        forall|k: int| 0 <= k < n ==> (#[trigger] a[k]).id == b[k].id,
    ensures
        rank(a, n, bucket) == rank(b, n, bucket),
    decreases n,
{
    if n > 0 {
        lemma_rank_by_ids(a, b, n - 1, bucket);
        assert(a[n - 1].id == b[n - 1].id);
    }
}

proof fn lemma_fan_sound(list: Seq<PackRecord>, checksum: Seq<u8>, bucket: int)
    requires
        full_ids(list),
        checksum.len() == 20,
        list.len() <= u32::MAX,
        0 <= bucket < 256,
    ensures
        fan_matches(
            index_bytes(list, checksum),
            records_of(index_bytes(list, checksum), list.len() as int),
            bucket,
        ),
{
    let read = records_of(index_bytes(list, checksum), list.len() as int);
    assert forall|k: int| 0 <= k < list.len() implies (#[trigger] read[k]).id == list[k].id by {
        lemma_words_read(list, checksum, k);
    }
    lemma_rank_by_ids(read, list, list.len() as int, bucket);
    lemma_fan_read(list, checksum, bucket);
}

/// An index that was written is accepted, with as many records as went into
/// it and with its checksum.
proof fn lemma_index_accepted(list: Seq<PackRecord>, checksum: Seq<u8>)
    requires
        ascends(list),
        full_ids(list),
        checksum.len() == 20,
        list.len() <= u32::MAX,
        index_bytes(list, checksum).len() <= usize::MAX,
    ensures
        index_from(index_bytes(list, checksum)) == Ok::<(Seq<PackRecord>, Seq<u8>), Error>(
            (records_of(index_bytes(list, checksum), list.len() as int), checksum),
        ),
{
    let data = index_bytes(list, checksum);
    let n = list.len() as int;
    lemma_frame_sound(list, checksum);
    lemma_tables_sound(list, checksum);
    lemma_no_first_fault(list, checksum, n);
    assert forall|bucket: int| 0 <= bucket < 256 implies #[trigger] fan_matches(
        data,
        records_of(data, n),
        bucket,
    ) by {
        lemma_fan_sound(list, checksum, bucket);
    }
    assert(data.subrange(data.len() - 40, data.len() - 20) == checksum) by {
        lemma_index_parts(list, checksum);
    }
    reveal(index_from);
}

/// Parsing an index that was written gives the records and the checksum that
/// went into it.
pub proof fn lemma_index_round_trip(list: Seq<PackRecord>, checksum: Seq<u8>)
    requires
        ascends(list),
        full_ids(list),
        checksum.len() == 20,
        list.len() <= u32::MAX,
        large_offsets(list).len() <= 0x8000_0000,
        index_bytes(list, checksum).len() <= usize::MAX,
    ensures
        index_from(index_bytes(list, checksum)) == Ok::<(Seq<PackRecord>, Seq<u8>), Error>(
            (list, checksum),
        ),
{
    let data = index_bytes(list, checksum);
    let n = list.len() as int;
    lemma_index_accepted(list, checksum);
    assert forall|k: int| 0 <= k < n implies records_of(data, n)[k] == list[k] by {
        lemma_record_read(list, checksum, k);
    }
    assert(records_of(data, n) =~= list);
}

/// An index that is accepted names at most as many objects as four bytes can
/// count, each once and by a full identifier, in ascending order; its fanout
/// table counts them, and it carries the checksum of a pack.
pub proof fn lemma_parsed_index(data: Seq<u8>)
    requires
        index_from(data) is Ok,
    ensures
        ({
            let (list, checksum) = index_from(data)->Ok_0;
            &&& ascends(list)
            &&& full_ids(list)
            &&& list.len() == fan(data, 255) <= u32::MAX
            &&& checksum.len() == 20
            &&& forall|bucket: int|
                0 <= bucket < 256 ==> #[trigger] fan(data, bucket) == rank(
                    list,
                    list.len() as int,
                    bucket,
                )
            &&& forall|i: int, j: int|
                0 <= i < list.len() && 0 <= j < list.len() && i != j ==> (#[trigger] list[i]).id != (
                #[trigger] list[j]).id
        }),
{
    reveal(index_from);
    reveal(frame_fault);
    reveal(tables_fault);
    let count = fan(data, 255);
    let (list, checksum) = index_from(data)->Ok_0;
    bytes::lemma_be_4(data.subrange(1028, 1032));
    lemma_sound_ascends(data, count);
    assert forall|bucket: int| 0 <= bucket < 256 implies #[trigger] fan(data, bucket) == rank(
        list,
        list.len() as int,
        bucket,
    ) by {
        assert(fan_matches(data, list, bucket));
    }
    assert forall|i: int, j: int|
        0 <= i < list.len() && 0 <= j < list.len() && i != j implies (#[trigger] list[i]).id != (
    #[trigger] list[j]).id by {
        bytes::lemma_lex_irreflexive(list[i].id);
        if i < j {
            assert(id_before(list[i], list[j]));
        } else {
            assert(id_before(list[j], list[i]));
        }
    }
}

// ---------------------------------------------------------------------------
// Reading packed objects

pub open spec fn pack_magic() -> Seq<u8> {
    seq![80u8, 65u8, 67u8, 75u8]
}

/// What is wrong with a pack that an index describes.
#[verifier::opaque]
pub open spec fn pack_fault(pack: Seq<u8>, count: int, checksum: Seq<u8>) -> Option<Error> {
    if pack.len() < 32 || pack.take(4) != pack_magic() {
        Some(Error::InvalidObject("invalid pack: invalid pack header"))
    } else if !(2 <= word_at(pack, 4) <= 3) {
        Some(Error::InvalidObject("invalid pack: unsupported pack version"))
    } else if word_at(pack, 8) != count {
        Some(Error::InvalidObject("invalid pack: pack and index object counts differ"))
    } else if sha1::sha1(pack.take(pack.len() - 20)) != pack.skip(pack.len() - 20) || pack.skip(
        pack.len() - 20,
    ) != checksum {
        Some(Error::InvalidObject("invalid pack: pack checksum mismatch"))
    } else {
        None
    }
}

/// Checks that a pack is whole and is the one that an index describes.
pub fn validate_pack(pack: &[u8], index: &PackIndex) -> (r: Result<()>)
    ensures
        match pack_fault(pack@, index.list().len() as int, index.checksum()) {
            Some(error) => r is Err && r->Err_0 == error,
            None => r is Ok && pack@.len() >= 32,
        },
{
    reveal(pack_fault);
    if pack.len() < 32 || pack[0] != 80 || pack[1] != 65 || pack[2] != 67 || pack[3] != 75 {
        proof {
            if pack@.len() >= 32 && pack@.take(4) == pack_magic() {
                assert(pack@.take(4)[0] == pack@[0] && pack@.take(4)[1] == pack@[1]
                    && pack@.take(4)[2] == pack@[2] && pack@.take(4)[3] == pack@[3]);
            }
        }
        return Err(Error::InvalidObject("invalid pack: invalid pack header"));
    }
    assert(pack@.take(4) =~= pack_magic());
    let version: u32 = bytes::read_be32(pack, 4);
    if version < 2 || version > 3 {
        return Err(Error::InvalidObject("invalid pack: unsupported pack version"));
    }
    if bytes::read_be32(pack, 8) as u64 != index.entries.len() as u64 {
        return Err(Error::InvalidObject("invalid pack: pack and index object counts differ"));
    }
    let end: usize = pack.len() - 20;
    assert(pack@.subrange(end as int, pack@.len() as int) =~= pack@.skip(end as int));
    if !ends_with_sum(pack) || !bytes::bytes_eq(
        &pack[end..pack.len()],
        index.pack_checksum.as_slice(),
    ) {
        return Err(Error::InvalidObject("invalid pack: pack checksum mismatch"));
    }
    Ok(())
}

/// Whether records name an object.
pub open spec fn names(list: Seq<PackRecord>, id: Seq<u8>) -> bool {
    exists|k: int| 0 <= k < list.len() && (#[trigger] list[k]).id == id
}

/// The record that names an object.
pub open spec fn record_of(list: Seq<PackRecord>, id: Seq<u8>) -> PackRecord {
    list[choose|k: int| 0 <= k < list.len() && (#[trigger] list[k]).id == id]
}

/// Among records that ascend, one alone names an object.
pub proof fn lemma_record_of(list: Seq<PackRecord>, k: int)
    requires
        ascends(list),
        0 <= k < list.len(),
    ensures
        names(list, list[k].id),
        record_of(list, list[k].id) == list[k],
{
    let id = list[k].id;
    let c = choose|c: int| 0 <= c < list.len() && (#[trigger] list[c]).id == id;
    bytes::lemma_lex_irreflexive(id);
    if c < k {
        assert(id_before(list[c], list[k]));
    } else if c > k {
        assert(id_before(list[k], list[c]));
    }
}

/// The least offset after `start` among the first `n` records.
pub open spec fn next_offset(list: Seq<PackRecord>, start: int, n: int) -> Option<int>
    decreases n,
{
    if n <= 0 {
        None
    } else {
        let rest = next_offset(list, start, n - 1);
        let offset = list[n - 1].offset as int;
        if offset <= start || offset > usize::MAX {
            rest
        } else {
            match rest {
                Some(other) => if other <= offset {
                    Some(other)
                } else {
                    Some(offset)
                },
                None => Some(offset),
            }
        }
    }
}

/// Where the packed entry that begins at `start` ends.
pub open spec fn entry_end(pack: Seq<u8>, list: Seq<PackRecord>, start: int) -> int {
    match next_offset(list, start, list.len() as int) {
        Some(end) => end,
        None => pack.len() - 20,
    }
}

/// The first record from `k` on with an offset.
pub open spec fn first_at(list: Seq<PackRecord>, offset: int, k: int) -> Option<PackRecord>
    decreases list.len() - k,
{
    if k < 0 || k >= list.len() {
        None
    } else if list[k].offset == offset {
        Some(list[k])
    } else {
        first_at(list, offset, k + 1)
    }
}

pub open spec fn kind_of_type(value: int) -> ObjectKind {
    if value == 1 {
        ObjectKind::Commit
    } else if value == 2 {
        ObjectKind::Tree
    } else if value == 3 {
        ObjectKind::Blob
    } else {
        ObjectKind::Tag
    }
}

pub open spec fn type_of_kind(kind: ObjectKind) -> nat {
    match kind {
        ObjectKind::Commit => 1,
        ObjectKind::Tree => 2,
        ObjectKind::Blob => 3,
        ObjectKind::Tag => 4,
    }
}

/// How long the instructions of a delta may be.
pub open spec fn delta_limit(limit: nat) -> nat {
    if 2 * limit < 32 {
        32
    } else if 2 * limit > usize::MAX {
        usize::MAX as nat
    } else {
        2 * limit
    }
}

/// What a whole entry holds, or why it is refused.
pub open spec fn whole_object(
    kind: ObjectKind,
    declared: int,
    stream: Seq<u8>,
    limit: nat,
) -> core::result::Result<(ObjectKind, Seq<u8>), Error> {
    if declared > limit {
        Err(Error::ObjectTooLarge { declared: declared as u64, limit: limit as usize })
    } else {
        match zlib::inflated(stream, limit) {
            None => Err(Error::Compression("invalid zlib stream")),
            Some(data) => if data.len() != declared {
                Err(Error::InvalidObject("invalid pack: packed object size mismatch"))
            } else {
                Ok((kind, data))
            },
        }
    }
}

/// What a delta entry makes of its base, or why it is refused.
pub open spec fn delta_object(
    base: core::result::Result<(ObjectKind, Seq<u8>), Error>,
    declared: int,
    stream: Seq<u8>,
    limit: nat,
) -> core::result::Result<(ObjectKind, Seq<u8>), Error> {
    match base {
        Err(error) => Err(error),
        Ok((kind, data)) => match zlib::inflated(stream, delta_limit(limit)) {
            None => Err(Error::Compression("invalid zlib stream")),
            Some(instructions) => if instructions.len() != declared {
                Err(
                    Error::InvalidObject(
                        "invalid pack: delta instruction size differs from packed header",
                    ),
                )
            } else {
                match delta::applied(data, instructions, limit) {
                    Ok(result) => Ok((kind, result)),
                    Err(error) => Err(error),
                }
            },
        },
    }
}

/// The object that a pack holds under an identifier, or why it is refused.
pub open spec fn resolved(
    pack: Seq<u8>,
    list: Seq<PackRecord>,
    id: Seq<u8>,
    limit: nat,
    depth: int,
) -> core::result::Result<(ObjectKind, Seq<u8>), Error>
    decreases 64 - depth,
{
    if depth >= 64 {
        Err(Error::InvalidObject("invalid pack: delta chain is too deep"))
    } else if !names(list, id) {
        Err(Error::InvalidObject("invalid pack: object absent from index"))
    } else {
        let record = record_of(list, id);
        let start = record.offset as int;
        let end = entry_end(pack, list, start);
        let encoded = pack.subrange(start, end);
        if start > usize::MAX {
            Err(Error::InvalidObject("invalid pack: offset overflow"))
        } else if start < 12 || start >= end || end > pack.len() - 20 {
            Err(Error::InvalidObject("invalid pack: object offset is outside pack"))
        } else if crc(encoded) != record.crc32 {
            Err(Error::InvalidObject("invalid pack: packed object CRC mismatch"))
        } else {
            match delta::header_from(encoded) {
                Err(error) => Err(error),
                Ok((object_type, declared, cursor)) => if 1 <= object_type <= 4 {
                    whole_object(
                        kind_of_type(object_type),
                        declared,
                        encoded.skip(cursor),
                        limit,
                    )
                } else if object_type == 6 {
                    match delta::distance_from(encoded, cursor) {
                        Err(error) => Err(error),
                        Ok((distance, at)) => if distance > start {
                            Err(Error::InvalidObject("invalid pack: invalid OFS_DELTA base"))
                        } else {
                            match first_at(list, start - distance, 0) {
                                None => Err(
                                    Error::InvalidObject("invalid pack: OFS_DELTA base is absent"),
                                ),
                                Some(base) => delta_object(
                                    resolved(pack, list, base.id, limit, depth + 1),
                                    declared,
                                    encoded.skip(at),
                                    limit,
                                ),
                            }
                        },
                    }
                } else if object_type == 7 {
                    if cursor + 20 > encoded.len() {
                        Err(Error::InvalidObject("invalid pack: truncated REF_DELTA"))
                    } else {
                        delta_object(
                            resolved(
                                pack,
                                list,
                                encoded.subrange(cursor, cursor + 20),
                                limit,
                                depth + 1,
                            ),
                            declared,
                            encoded.skip(cursor + 20),
                            limit,
                        )
                    }
                } else {
                    Err(Error::InvalidObject("invalid pack: reserved packed object type"))
                },
            }
        }
    }
}

/// Whether a result is the one that a model tells.
pub open spec fn tells(
    r: Result<(ObjectKind, Vec<u8>)>,
    model: core::result::Result<(ObjectKind, Seq<u8>), Error>,
) -> bool {
    match model {
        Ok((kind, data)) => r is Ok && r->Ok_0.0 == kind && r->Ok_0.1@ == data,
        Err(error) => r is Err && r->Err_0 == error,
    }
}

fn kind_from_type(value: u8) -> (r: ObjectKind)
    ensures
        r == kind_of_type(value as int),
{
    if value == 1 {
        ObjectKind::Commit
    } else if value == 2 {
        ObjectKind::Tree
    } else if value == 3 {
        ObjectKind::Blob
    } else {
        ObjectKind::Tag
    }
}

fn find_end(pack: &[u8], index: &PackIndex, start: usize) -> (r: usize)
    requires
        pack@.len() >= 20,
    ensures
        r == entry_end(pack@, index.list(), start as int),
{
    let ghost list = index.list();
    let mut best: Option<usize> = None;
    let mut n: usize = 0;
    while n < index.entries.len()
        invariant
            n <= index.entries@.len(),
            list == records(index.entries@),
            list == index.list(),
            match best {
                Some(end) => next_offset(list, start as int, n as int) == Some(end as int),
                None => next_offset(list, start as int, n as int) is None,
            },
        decreases index.entries@.len() - n,
    {
        let offset: u64 = index.entries[n].offset;
        assert(list[n as int] == index.entries@[n as int]@);
        if offset > start as u64 && offset <= usize::MAX as u64 {
            let closer: bool = match best {
                Some(end) => offset < end as u64,
                None => true,
            };
            if closer {
                best = Some(offset as usize);
            }
        }
        n += 1;
    }
    match best {
        Some(end) => end,
        None => pack.len() - 20,
    }
}

fn find_base(index: &PackIndex, offset: u64) -> (r: Option<ObjectId>)
    ensures
        match r {
            Some(id) => first_at(index.list(), offset as int, 0) is Some && first_at(
                index.list(),
                offset as int,
                0,
            )->0.id == id@,
            None => first_at(index.list(), offset as int, 0) is None,
        },
{
    let ghost list = index.list();
    let mut k: usize = 0;
    while k < index.entries.len()
        invariant
            k <= index.entries@.len(),
            list == records(index.entries@),
            list == index.list(),
            first_at(list, offset as int, 0) == first_at(list, offset as int, k as int),
        decreases index.entries@.len() - k,
    {
        assert(list[k as int] == index.entries@[k as int]@);
        if index.entries[k].offset == offset {
            return Some(index.entries[k].id);
        }
        k += 1;
    }
    None
}

fn finish_delta(
    base: Result<(ObjectKind, Vec<u8>)>,
    declared: u64,
    stream: &[u8],
    max_size: usize,
    Ghost(model): Ghost<core::result::Result<(ObjectKind, Seq<u8>), Error>>,
) -> (r: Result<(ObjectKind, Vec<u8>)>)
    requires
        tells(base, model),
    ensures
        tells(r, delta_object(model, declared as int, stream@, max_size as nat)),
{
    let (kind, data) = base?;
    let limit: usize = if max_size < 16 {
        32
    } else if max_size > usize::MAX / 2 {
        usize::MAX
    } else {
        max_size * 2
    };
    assert(limit == delta_limit(max_size as nat));
    let instructions = zlib::inflate(stream, limit)?;
    if instructions.len() as u64 != declared {
        return Err(
            Error::InvalidObject("invalid pack: delta instruction size differs from packed header"),
        );
    }
    let result = delta::apply_delta(data.as_slice(), instructions.as_slice(), max_size)?;
    Ok((kind, result))
}

fn read_whole(kind: ObjectKind, declared: u64, stream: &[u8], max_size: usize) -> (r: Result<
    (ObjectKind, Vec<u8>),
>)
    ensures
        tells(r, whole_object(kind, declared as int, stream@, max_size as nat)),
{
    if declared > max_size as u64 {
        return Err(Error::ObjectTooLarge { declared, limit: max_size });
    }
    let data = zlib::inflate(stream, max_size)?;
    if data.len() as u64 != declared {
        return Err(Error::InvalidObject("invalid pack: packed object size mismatch"));
    }
    Ok((kind, data))
}

/// Reads an object from a pack, following the deltas that it is made of.
pub fn resolve(pack: &[u8], index: &PackIndex, id: ObjectId, max_size: usize, depth: usize) -> (r:
    Result<(ObjectKind, Vec<u8>)>)
    requires
        pack@.len() >= 20,
        depth <= 64,
    ensures
        tells(r, resolved(pack@, index.list(), id@, max_size as nat, depth as int)),
    decreases 64 - depth,
{
    proof {
        use_type_invariant(index);
    }
    let ghost list = index.list();
    if depth >= 64 {
        return Err(Error::InvalidObject("invalid pack: delta chain is too deep"));
    }
    let entry = match index.find(id) {
        Some(entry) => entry,
        None => return Err(Error::InvalidObject("invalid pack: object absent from index")),
    };
    proof {
        let k = list.index_of(entry@);
        assert(list[k] == entry@);
        lemma_record_of(list, k);
    }
    if entry.offset > usize::MAX as u64 {
        return Err(Error::InvalidObject("invalid pack: offset overflow"));
    }
    let start: usize = entry.offset as usize;
    let end: usize = find_end(pack, index, start);
    if start < 12 || start >= end || end > pack.len() - 20 {
        return Err(Error::InvalidObject("invalid pack: object offset is outside pack"));
    }
    let encoded = &pack[start..end];
    if crc32(encoded) != entry.crc32 {
        return Err(Error::InvalidObject("invalid pack: packed object CRC mismatch"));
    }
    let (object_type, declared, cursor) = delta::parse_object_header(encoded)?;
    if 1 <= object_type && object_type <= 4 {
        assert(encoded@.subrange(cursor as int, encoded@.len() as int) =~= encoded@.skip(
            cursor as int,
        ));
        return read_whole(
            kind_from_type(object_type),
            declared,
            &encoded[cursor..encoded.len()],
            max_size,
        );
    }
    if object_type == 6 {
        let (distance, at) = delta::parse_ofs_distance(encoded, cursor)?;
        if distance > start as u64 {
            return Err(Error::InvalidObject("invalid pack: invalid OFS_DELTA base"));
        }
        let base_id = match find_base(index, start as u64 - distance) {
            Some(base_id) => base_id,
            None => return Err(Error::InvalidObject("invalid pack: OFS_DELTA base is absent")),
        };
        let base = resolve(pack, index, base_id, max_size, depth + 1);
        assert(encoded@.subrange(at as int, encoded@.len() as int) =~= encoded@.skip(at as int));
        return finish_delta(
            base,
            declared,
            &encoded[at..encoded.len()],
            max_size,
            Ghost(resolved(pack@, list, base_id@, max_size as nat, depth + 1)),
        );
    }
    if object_type == 7 {
        if encoded.len() - cursor < 20 {
            return Err(Error::InvalidObject("invalid pack: truncated REF_DELTA"));
        }
        let base_id = ObjectId::read(encoded, cursor);
        let at: usize = cursor + 20;
        let base = resolve(pack, index, base_id, max_size, depth + 1);
        assert(encoded@.subrange(at as int, encoded@.len() as int) =~= encoded@.skip(at as int));
        return finish_delta(
            base,
            declared,
            &encoded[at..encoded.len()],
            max_size,
            Ghost(resolved(pack@, list, base_id@, max_size as nat, depth + 1)),
        );
    }
    Err(Error::InvalidObject("invalid pack: reserved packed object type"))
}

// ---------------------------------------------------------------------------
// Building a pack

/// Controls pack construction.
#[derive(Clone, Debug, PartialEq, Eq)]
pub struct PackOptions {
    /// Maximum size accepted while loading each source object.
    pub max_object_size: usize,
    /// Try compact, depth-one deltas against an earlier object of the same type.
    pub use_deltas: bool,
}

impl Default for PackOptions {
    fn default() -> (r: Self)
        ensures
            r.max_object_size == 1024 * 1024 * 1024,
            r.use_deltas,
    {
        PackOptions { max_object_size: 1024 * 1024 * 1024, use_deltas: true }
    }
}

/// An object that goes into a pack.
pub struct PackSource {
    pub id: ObjectId,
    pub kind: ObjectKind,
    pub data: Vec<u8>,
}

/// What an object that goes into a pack is.
pub struct SourceModel {
    pub id: Seq<u8>,
    pub kind: ObjectKind,
    pub data: Seq<u8>,
}

impl View for PackSource {
    type V = SourceModel;

    open spec fn view(&self) -> SourceModel {
        SourceModel { id: self.id@, kind: self.kind, data: self.data@ }
    }
}

/// What the objects of a list are.
pub open spec fn sources(list: Seq<PackSource>) -> Seq<SourceModel> {
    Seq::new(list.len(), |i: int| list[i]@)
}

/// A packed entry that holds an object whole.
pub open spec fn direct_bytes(object: SourceModel) -> Seq<u8> {
    delta::object_header(type_of_kind(object.kind), object.data.len()) + zlib::deflated(
        object.data,
        6,
    )
}

/// A packed entry that holds a delta against the entry `distance` before it.
pub open spec fn delta_bytes(distance: nat, instructions: Seq<u8>) -> Seq<u8> {
    delta::object_header(6, instructions.len()) + crate::index::varint(distance) + zlib::deflated(
        instructions,
        6,
    )
}

/// Where the entry at a position begins in a pack.
pub open spec fn offset_at(entries: Seq<Seq<u8>>, k: int) -> int {
    12 + bytes::start_of(entries, k)
}

/// Packed entries, and for each kind the last object that was packed whole.
pub struct Layout {
    pub entries: Seq<Seq<u8>>,
    pub bases: Map<ObjectKind, int>,
}

/// The delta entry that an object could have after the entries of a layout.
pub open spec fn candidate(objects: Seq<SourceModel>, layout: Layout, n: int) -> Seq<u8> {
    let base = layout.bases[objects[n].kind];
    delta_bytes(
        (offset_at(layout.entries, n) - offset_at(layout.entries, base)) as nat,
        delta::delta_of(objects[base].data, objects[n].data),
    )
}

/// Whether an object is packed as a delta after the entries of a layout.
pub open spec fn takes_delta(
    objects: Seq<SourceModel>,
    use_deltas: bool,
    layout: Layout,
    n: int,
) -> bool {
    &&& use_deltas
    &&& layout.bases.contains_key(objects[n].kind)
    &&& objects[layout.bases[objects[n].kind]].data.len() <= u32::MAX
    &&& objects[n].data.len() <= u32::MAX
    &&& candidate(objects, layout, n).len() < direct_bytes(objects[n]).len()
}

/// The layout of the first `n` objects.
pub open spec fn laid_out(objects: Seq<SourceModel>, use_deltas: bool, n: int) -> Layout
    decreases n,
{
    if n <= 0 {
        Layout { entries: Seq::empty(), bases: Map::empty() }
    } else {
        let before = laid_out(objects, use_deltas, n - 1);
        if takes_delta(objects, use_deltas, before, n - 1) {
            Layout {
                entries: before.entries.push(candidate(objects, before, n - 1)),
                bases: before.bases,
            }
        } else {
            Layout {
                entries: before.entries.push(direct_bytes(objects[n - 1])),
                bases: before.bases.insert(objects[n - 1].kind, n - 1),
            }
        }
    }
}

/// The packed entries of some objects.
pub open spec fn entries_of(objects: Seq<SourceModel>, use_deltas: bool) -> Seq<Seq<u8>> {
    laid_out(objects, use_deltas, objects.len() as int).entries
}

/// A pack without its checksum.
#[verifier::opaque]
pub open spec fn pack_body(entries: Seq<Seq<u8>>) -> Seq<u8> {
    pack_magic() + bytes::be_bytes(2, 4) + bytes::be_bytes(entries.len(), 4) + bytes::flat(entries)
}

/// A pack.
pub open spec fn pack_bytes(entries: Seq<Seq<u8>>) -> Seq<u8> {
    pack_body(entries) + sha1::sha1(pack_body(entries))
}

/// What the index says of packed entries.
pub open spec fn pack_records(objects: Seq<SourceModel>, entries: Seq<Seq<u8>>) -> Seq<PackRecord> {
    Seq::new(
        objects.len(),
        |k: int|
            PackRecord {
                id: objects[k].id,
                crc32: crc(entries[k]),
                offset: offset_at(entries, k) as u64,
            },
    )
}

/// Complete Git-compatible pack and version-2 index bytes.
#[derive(Debug, PartialEq, Eq)]
pub struct PackBundle {
    pack: Vec<u8>,
    index: Vec<u8>,
    checksum: [u8; 20],
    object_count: usize,
}

/// What a bundle holds.
pub struct BundleModel {
    pub pack: Seq<u8>,
    pub index: Seq<u8>,
    pub checksum: Seq<u8>,
    pub object_count: nat,
}

impl View for PackBundle {
    type V = BundleModel;

    closed spec fn view(&self) -> BundleModel {
        BundleModel {
            pack: self.pack@,
            index: self.index@,
            checksum: self.checksum@,
            object_count: self.object_count as nat,
        }
    }
}

/// Paths of a pack published in a repository object database.
#[derive(Clone, Debug, PartialEq, Eq)]
pub struct WrittenPack {
    pub pack_path: Vec<u8>,
    pub index_path: Vec<u8>,
    pub checksum: [u8; 20],
    pub object_count: usize,
}

impl PackBundle {
    pub fn pack(&self) -> (r: &[u8])
        ensures
            r@ == self@.pack,
    {
        self.pack.as_slice()
    }

    pub fn index(&self) -> (r: &[u8])
        ensures
            r@ == self@.index,
    {
        self.index.as_slice()
    }

    pub fn checksum(&self) -> (r: &[u8; 20])
        ensures
            r@ == self@.checksum,
    {
        &self.checksum
    }

    pub fn object_count(&self) -> (r: usize)
        ensures
            r == self@.object_count,
    {
        self.object_count
    }

    /// The name that the files of the bundle have, without an extension.
    pub fn stem(&self) -> (r: Vec<u8>)
        ensures
            r@ == stem_of(self@.checksum),
    {
        let mut stem = bytes::to_vec("pack-".as_bytes());
        let hex = object::hex_hash(self.checksum.as_slice());
        bytes::append(&mut stem, hex.as_slice());
        stem
    }
}

/// The name of the files of a pack with a checksum.
pub open spec fn stem_of(checksum: Seq<u8>) -> Seq<u8> {
    bytes::utf8("pack-"@) + object::hex_of(checksum)
}

/// Whether compressing some bytes can be undone.
pub open spec fn restores(data: Seq<u8>) -> bool {
    forall|limit: nat|
        data.len() <= limit <= usize::MAX ==> #[trigger] zlib::inflated(
            zlib::deflated(data, 6),
            limit,
        ) == Some(data)
}

/// Whether the entry at a position holds its object whole.
pub open spec fn is_whole(objects: Seq<SourceModel>, entries: Seq<Seq<u8>>, k: int) -> bool {
    &&& entries[k] == direct_bytes(objects[k])
    &&& restores(objects[k].data)
}

/// Whether the entry at a position is a delta against an earlier whole one.
pub open spec fn is_delta(objects: Seq<SourceModel>, entries: Seq<Seq<u8>>, k: int, b: int) -> bool {
    &&& 0 <= b < k
    &&& is_whole(objects, entries, b)
    &&& objects[b].kind == objects[k].kind
    &&& objects[b].data.len() <= u32::MAX
    &&& objects[k].data.len() <= u32::MAX
    &&& entries[k] == delta_bytes(
        (offset_at(entries, k) - offset_at(entries, b)) as nat,
        delta::delta_of(objects[b].data, objects[k].data),
    )
    &&& restores(delta::delta_of(objects[b].data, objects[k].data))
    &&& delta::delta_of(objects[b].data, objects[k].data).len() <= usize::MAX
}

pub open spec fn is_packed(objects: Seq<SourceModel>, entries: Seq<Seq<u8>>, k: int) -> bool {
    is_whole(objects, entries, k) || exists|b: int| #[trigger] is_delta(objects, entries, k, b)
}

fn direct_entry(kind: ObjectKind, data: &[u8], Ghost(object): Ghost<SourceModel>) -> (r: Vec<u8>)
    requires
        object.kind == kind,
        object.data == data@,
    ensures
        r@ == direct_bytes(object),
        restores(data@),
{
    let mut entry = delta::encode_object_header(kind_type(kind), data.len() as u64);
    let stream = zlib::deflate(data);
    bytes::append(&mut entry, stream.as_slice());
    entry
}

fn ofs_delta_entry(distance: u64, instructions: &[u8]) -> (r: Vec<u8>)
    ensures
        r@ == delta_bytes(distance as nat, instructions@),
        restores(instructions@),
{
    let mut entry = delta::encode_object_header(6, instructions.len() as u64);
    let back = delta::encode_ofs_distance(distance);
    bytes::append(&mut entry, back.as_slice());
    let stream = zlib::deflate(instructions);
    bytes::append(&mut entry, stream.as_slice());
    entry
}

/// The number that stands for a kind in packs.
pub fn kind_type(kind: ObjectKind) -> (r: u8)
    ensures
        r == type_of_kind(kind),
        1 <= r <= 4,
{
    match kind {
        ObjectKind::Commit => 1,
        ObjectKind::Tree => 2,
        ObjectKind::Blob => 3,
        ObjectKind::Tag => 4,
    }
}

proof fn lemma_offset_stable(entries: Seq<Seq<u8>>, entry: Seq<u8>, k: int)
    requires
        0 <= k <= entries.len(),
    ensures
        offset_at(entries.push(entry), k) == offset_at(entries, k),
{
    assert(entries.push(entry).take(k) =~= entries.take(k));
}

proof fn lemma_packed_stable(
    objects: Seq<SourceModel>,
    entries: Seq<Seq<u8>>,
    entry: Seq<u8>,
    k: int,
)
    requires
        0 <= k < entries.len(),
        is_packed(objects, entries, k),
    ensures
        is_packed(objects, entries.push(entry), k),
        is_whole(objects, entries, k) ==> is_whole(objects, entries.push(entry), k),
{
    let more = entries.push(entry);
    if !is_whole(objects, entries, k) {
        let b = choose|b: int| #[trigger] is_delta(objects, entries, k, b);
        lemma_offset_stable(entries, entry, k);
        lemma_offset_stable(entries, entry, b);
        assert(is_delta(objects, more, k, b));
    }
}

// ---------------------------------------------------------------------------
// What is packed is what is read

proof fn lemma_next_offset(list: Seq<PackRecord>, start: int, n: int)
    requires
        0 <= n <= list.len(),
    ensures
        match next_offset(list, start, n) {
            Some(end) => {
                &&& start < end <= usize::MAX
                &&& exists|j: int| 0 <= j < n && (#[trigger] list[j]).offset == end
                &&& forall|j: int|
                    0 <= j < n && start < (#[trigger] list[j]).offset <= usize::MAX ==> end
                        <= list[j].offset
            },
            None => forall|j: int|
                0 <= j < n ==> !(start < (#[trigger] list[j]).offset <= usize::MAX),
        },
    decreases n,
{
    if n > 0 {
        lemma_next_offset(list, start, n - 1);
        assert(list[n - 1].offset == list[n - 1].offset);
    }
}

proof fn lemma_first_at(list: Seq<PackRecord>, offset: int, from: int, k: int)
    requires
        0 <= from <= k < list.len(),
        list[k].offset == offset,
    ensures
        first_at(list, offset, from) is Some,
        first_at(list, offset, from)->0.offset == offset,
        list.contains(first_at(list, offset, from)->0),
    decreases k - from,
{
    if list[from].offset != offset {
        lemma_first_at(list, offset, from + 1, k);
    } else {
        assert(list.contains(list[from]));
    }
}

/// The entries of a pack stand at their offsets, in a pack that is sound.
proof fn lemma_pack_layout(entries: Seq<Seq<u8>>)
    ensures
        pack_bytes(entries).len() == 32 + bytes::flat(entries).len(),
        pack_bytes(entries).take(12) == pack_magic() + bytes::be_bytes(2, 4) + bytes::be_bytes(
            entries.len(),
            4,
        ),
        pack_bytes(entries).skip(pack_bytes(entries).len() - 20) == sha1::sha1(pack_body(entries)),
        pack_bytes(entries).take(pack_bytes(entries).len() - 20) == pack_body(entries),
        pack_bytes(entries).subrange(12, 12 + bytes::flat(entries).len() as int) == bytes::flat(
            entries,
        ),
{
    let pack = pack_bytes(entries);
    let body = pack_body(entries);
    let head = pack_magic() + bytes::be_bytes(2, 4) + bytes::be_bytes(entries.len(), 4);
    reveal(pack_body);
    bytes::lemma_be_bytes_len(2, 4);
    bytes::lemma_be_bytes_len(entries.len(), 4);
    sha1::lemma_sha1_len(body);
    assert(pack.subrange(0, pack.len() as int) =~= pack);
    bytes::lemma_parts(pack, 0, body, sha1::sha1(body));
    bytes::lemma_parts(pack, 0, head, bytes::flat(entries));
    assert(pack.take(12) =~= pack.subrange(0, 12));
    assert(pack.skip(pack.len() - 20) =~= sha1::sha1(body));
    assert(pack.take(pack.len() - 20) =~= body);
}

proof fn lemma_pack_sound(entries: Seq<Seq<u8>>)
    requires
        entries.len() <= u32::MAX,
    ensures
        pack_fault(pack_bytes(entries), entries.len() as int, sha1::sha1(pack_body(entries)))
            is None,
{
    let pack = pack_bytes(entries);
    let a = bytes::be_bytes(2, 4);
    let b = bytes::be_bytes(entries.len(), 4);
    lemma_pack_layout(entries);
    bytes::lemma_be_bytes_len(2, 4);
    bytes::lemma_be_bytes_len(entries.len(), 4);
    bytes::lemma_power256();
    bytes::lemma_be_of_bytes(2, 4);
    bytes::lemma_be_of_bytes(entries.len(), 4);
    let head = pack.take(12);
    assert(pack.take(4) =~= head.take(4));
    assert(head.take(4) =~= pack_magic());
    assert(pack.subrange(4, 8) =~= head.subrange(4, 8));
    assert(head.subrange(4, 8) =~= a);
    assert(pack.subrange(8, 12) =~= head.subrange(8, 12));
    assert(head.subrange(8, 12) =~= b);
    reveal(pack_fault);
}

proof fn lemma_entry_bytes(entries: Seq<Seq<u8>>, k: int)
    requires
        0 <= k < entries.len(),
    ensures
        offset_at(entries, k + 1) == offset_at(entries, k) + entries[k].len(),
        12 <= offset_at(entries, k),
        offset_at(entries, k + 1) <= pack_bytes(entries).len() - 20,
        pack_bytes(entries).subrange(offset_at(entries, k), offset_at(entries, k + 1))
            == entries[k],
{
    lemma_pack_layout(entries);
    bytes::lemma_flat_part(entries, k);
    let at = bytes::start_of(entries, k);
    let pack = pack_bytes(entries);
    assert(pack.subrange(12 + at, 12 + at + entries[k].len()) =~= pack.subrange(
        12,
        12 + bytes::flat(entries).len() as int,
    ).subrange(at, at + entries[k].len()));
}

/// Packed entries are not empty, so each begins after the one before.
proof fn lemma_offsets_rise(objects: Seq<SourceModel>, entries: Seq<Seq<u8>>, i: int, j: int)
    requires
        forall|k: int| 0 <= k < entries.len() ==> #[trigger] is_packed(objects, entries, k),
        0 <= i < j <= entries.len(),
    ensures
        offset_at(entries, i) < offset_at(entries, j),
    decreases j - i,
{
    lemma_entry_bytes(entries, i);
    assert(is_packed(objects, entries, i));
    assert(entries[i].len() > 0) by {
        if !is_whole(objects, entries, i) {
            let b = choose|b: int| #[trigger] is_delta(objects, entries, i, b);
        }
    }
    if i + 1 < j {
        lemma_offsets_rise(objects, entries, i + 1, j);
    }
}

pub open spec fn indexed(
    objects: Seq<SourceModel>,
    entries: Seq<Seq<u8>>,
    list: Seq<PackRecord>,
) -> bool {
    &&& entries.len() == objects.len()
    &&& forall|k: int| 0 <= k < entries.len() ==> #[trigger] is_packed(objects, entries, k)
    &&& pack_bytes(entries).len() <= usize::MAX
    &&& ascends(list)
    &&& forall|x: PackRecord| #[trigger]
        list.contains(x) <==> pack_records(objects, entries).contains(x)
}

spec fn lower(a: PackRecord, b: PackRecord) -> bool {
    a.offset < b.offset
}

/// Offsets rise, and each fits in memory.
spec fn rises(all: Seq<PackRecord>) -> bool {
    &&& forall|i: int, j: int| 0 <= i < j < all.len() ==> #[trigger] lower(all[i], all[j])
    &&& forall|i: int| 0 <= i < all.len() ==> (#[trigger] all[i]).offset <= usize::MAX
}

proof fn lemma_next_is(list: Seq<PackRecord>, all: Seq<PackRecord>, k: int)
    requires
        rises(all),
        forall|x: PackRecord| #[trigger] list.contains(x) <==> all.contains(x),
        0 <= k < all.len(),
    ensures
        next_offset(list, all[k].offset as int, list.len() as int) == if k + 1 < all.len() {
            Some(all[k + 1].offset as int)
        } else {
            None
        },
{
    let start = all[k].offset as int;
    lemma_next_offset(list, start, list.len() as int);
    let end = next_offset(list, start, list.len() as int);
    if k + 1 < all.len() {
        assert(all.contains(all[k + 1]));
        assert(list.contains(all[k + 1]));
        let next = list.index_of(all[k + 1]);
        assert(list[next] == all[k + 1]);
        assert(lower(all[k], all[k + 1]));
    }
    if end is Some {
        let e = end->0;
        let j = choose|j: int| 0 <= j < list.len() && (#[trigger] list[j]).offset == e;
        assert(list.contains(list[j]));
        let i = all.index_of(list[j]);
        assert(all[i].offset == e);
        if i < k {
            assert(lower(all[i], all[k]));
        } else if i > k + 1 {
            assert(lower(all[k + 1], all[i]));
        }
    }
}

proof fn lemma_records_rise(
    objects: Seq<SourceModel>,
    entries: Seq<Seq<u8>>,
    list: Seq<PackRecord>,
)
    requires
        indexed(objects, entries, list),
    ensures
        rises(pack_records(objects, entries)),
        forall|k: int|
            0 <= k < objects.len() ==> (#[trigger] pack_records(objects, entries)[k]).offset
                == offset_at(entries, k),
{
    let all = pack_records(objects, entries);
    assert forall|k: int| 0 <= k < all.len() implies (#[trigger] all[k]).offset == offset_at(
        entries,
        k,
    ) && all[k].offset <= usize::MAX by {
        lemma_entry_bytes(entries, k);
    }
    assert forall|i: int, j: int| 0 <= i < j < all.len() implies #[trigger] lower(
        all[i],
        all[j],
    ) by {
        lemma_offsets_rise(objects, entries, i, j);
        assert(all[i].offset == offset_at(entries, i) && all[j].offset == offset_at(entries, j));
    }
}

/// The record of an entry is found, and so is where the entry ends.
proof fn lemma_entry_found(
    objects: Seq<SourceModel>,
    entries: Seq<Seq<u8>>,
    list: Seq<PackRecord>,
    k: int,
)
    requires
        indexed(objects, entries, list),
        0 <= k < objects.len(),
    ensures
        names(list, objects[k].id),
        record_of(list, objects[k].id) == pack_records(objects, entries)[k],
        pack_records(objects, entries)[k].offset == offset_at(entries, k),
        offset_at(entries, k) <= usize::MAX,
        entry_end(pack_bytes(entries), list, offset_at(entries, k)) == offset_at(entries, k + 1),
        offset_at(entries, k) < offset_at(entries, k + 1),
{
    let all = pack_records(objects, entries);
    lemma_records_rise(objects, entries, list);
    assert(all.contains(all[k]));
    assert(list.contains(all[k]));
    let at = list.index_of(all[k]);
    assert(list[at] == all[k]);
    lemma_record_of(list, at);
    lemma_next_is(list, all, k);
    lemma_offsets_rise(objects, entries, k, k + 1);
    if k + 1 < all.len() {
        assert(all[k + 1].offset == offset_at(entries, k + 1));
    } else {
        assert(pack_bytes(entries).len() == 32 + bytes::flat(entries).len()) by {
            lemma_pack_layout(entries);
        }
        assert(entries.take(k + 1) =~= entries);
    }
}

/// The base of a delta is found by its offset.
proof fn lemma_base_found(
    objects: Seq<SourceModel>,
    entries: Seq<Seq<u8>>,
    list: Seq<PackRecord>,
    b: int,
)
    requires
        indexed(objects, entries, list),
        0 <= b < objects.len(),
    ensures
        first_at(list, offset_at(entries, b), 0) == Some(pack_records(objects, entries)[b]),
{
    let all = pack_records(objects, entries);
    lemma_records_rise(objects, entries, list);
    assert(all.contains(all[b]));
    assert(list.contains(all[b]));
    let at = list.index_of(all[b]);
    assert(list[at] == all[b]);
    lemma_first_at(list, offset_at(entries, b), 0, at);
    let base = first_at(list, offset_at(entries, b), 0)->0;
    assert(list.contains(base));
    assert(all.contains(base));
    let i = all.index_of(base);
    assert(all[i] == base);
    if i < b {
        assert(lower(all[i], all[b]));
    } else if i > b {
        assert(lower(all[b], all[i]));
    }
}

/// The parts of a delta entry are read back.
proof fn lemma_delta_entry_read(distance: u64, instructions: Seq<u8>)
    requires
        instructions.len() <= u64::MAX,
    ensures
        ({
            let entry = delta_bytes(distance as nat, instructions);
            let cursor = delta::object_header(6, instructions.len()).len() as int;
            let at = cursor + crate::index::varint(distance as nat).len();
            &&& delta::header_from(entry) == Ok::<(int, int, int), Error>(
                (6, instructions.len() as int, cursor),
            )
            &&& delta::distance_from(entry, cursor) == Ok::<(int, int), Error>(
                (distance as int, at),
            )
            &&& entry.skip(at) == zlib::deflated(instructions, 6)
        }),
{
    let header = delta::object_header(6, instructions.len());
    let back = crate::index::varint(distance as nat);
    let stream = zlib::deflated(instructions, 6);
    let entry = delta_bytes(distance as nat, instructions);
    assert(entry =~= header + (back + stream));
    delta::lemma_header_round_trip(6, instructions.len() as u64, back + stream);
    let cursor = header.len() as int;
    assert(entry.subrange(cursor, cursor + back.len()) =~= back);
    delta::lemma_distance_round_trip(distance, entry, cursor);
    assert(entry.skip(cursor + back.len()) =~= stream);
}

/// An object that was packed whole is read back.
proof fn lemma_whole_read(
    objects: Seq<SourceModel>,
    entries: Seq<Seq<u8>>,
    list: Seq<PackRecord>,
    k: int,
    limit: nat,
    depth: int,
)
    requires
        indexed(objects, entries, list),
        0 <= k < objects.len(),
        is_whole(objects, entries, k),
        objects[k].data.len() <= limit <= usize::MAX,
        0 <= depth < 64,
    ensures
        resolved(pack_bytes(entries), list, objects[k].id, limit, depth) == Ok::<
            (ObjectKind, Seq<u8>),
            Error,
        >((objects[k].kind, objects[k].data)),
{
    let object = objects[k];
    let t = type_of_kind(object.kind);
    let header = delta::object_header(t, object.data.len());
    let stream = zlib::deflated(object.data, 6);
    lemma_entry_found(objects, entries, list, k);
    lemma_entry_bytes(entries, k);
    delta::lemma_header_round_trip(t, object.data.len() as u64, stream);
    assert(entries[k].skip(header.len() as int) =~= stream);
    assert(zlib::inflated(stream, limit) == Some(object.data));
}

/// How a delta entry is resolved.
proof fn lemma_delta_resolved(
    pack: Seq<u8>,
    list: Seq<PackRecord>,
    id: Seq<u8>,
    limit: nat,
    record: PackRecord,
    base: PackRecord,
    distance: u64,
    instructions: Seq<u8>,
)
    requires
        names(list, id),
        record_of(list, id) == record,
        12 <= record.offset <= usize::MAX,
        ({
            let entry = delta_bytes(distance as nat, instructions);
            let start = record.offset as int;
            let end = entry_end(pack, list, start);
            &&& start < end <= pack.len() - 20
            &&& pack.subrange(start, end) == entry
            &&& crc(entry) == record.crc32
        }),
        distance <= record.offset,
        first_at(list, record.offset - distance, 0) == Some(base),
        instructions.len() <= u64::MAX,
    ensures
        resolved(pack, list, id, limit, 0) == delta_object(
            resolved(pack, list, base.id, limit, 1),
            instructions.len() as int,
            zlib::deflated(instructions, 6),
            limit,
        ),
{
    lemma_delta_entry_read(distance, instructions);
}

/// What a delta against a base makes of it.
proof fn lemma_delta_rebuilt(kind: ObjectKind, base: Seq<u8>, target: Seq<u8>, limit: nat)
    requires
        base.len() <= u32::MAX,
        target.len() <= u32::MAX,
        target.len() <= limit <= usize::MAX,
        restores(delta::delta_of(base, target)),
        delta::delta_of(base, target).len() <= usize::MAX,
    ensures
        delta_object(
            Ok((kind, base)),
            delta::delta_of(base, target).len() as int,
            zlib::deflated(delta::delta_of(base, target), 6),
            limit,
        ) == Ok::<(ObjectKind, Seq<u8>), Error>((kind, target)),
{
    let instructions = delta::delta_of(base, target);
    delta::lemma_delta_len(base, target);
    delta::lemma_delta_round_trip(base, target, limit);
    assert(instructions.len() <= delta_limit(limit));
    assert(zlib::inflated(zlib::deflated(instructions, 6), delta_limit(limit)) == Some(
        instructions,
    ));
}

/// An object that was packed as a delta is read back.
proof fn lemma_delta_read(
    objects: Seq<SourceModel>,
    entries: Seq<Seq<u8>>,
    list: Seq<PackRecord>,
    k: int,
    b: int,
    limit: nat,
)
    requires
        indexed(objects, entries, list),
        0 <= k < objects.len(),
        is_delta(objects, entries, k, b),
        objects[b].data.len() <= limit,
        objects[k].data.len() <= limit <= usize::MAX,
    ensures
        resolved(pack_bytes(entries), list, objects[k].id, limit, 0) == Ok::<
            (ObjectKind, Seq<u8>),
            Error,
        >((objects[k].kind, objects[k].data)),
{
    let instructions = delta::delta_of(objects[b].data, objects[k].data);
    let distance = offset_at(entries, k) - offset_at(entries, b);
    let all = pack_records(objects, entries);
    lemma_entry_found(objects, entries, list, k);
    lemma_entry_found(objects, entries, list, b);
    lemma_entry_bytes(entries, k);
    lemma_entry_bytes(entries, b);
    lemma_offsets_rise(objects, entries, b, k);
    lemma_base_found(objects, entries, list, b);
    lemma_whole_read(objects, entries, list, b, limit, 1);
    lemma_delta_resolved(
        pack_bytes(entries),
        list,
        objects[k].id,
        limit,
        all[k],
        all[b],
        distance as u64,
        instructions,
    );
    lemma_delta_rebuilt(objects[k].kind, objects[b].data, objects[k].data, limit);
}

/// Every object that a limit has room for.
pub open spec fn all_fit(objects: Seq<SourceModel>, limit: nat) -> bool {
    forall|k: int| 0 <= k < objects.len() ==> (#[trigger] objects[k]).data.len() <= limit
}

/// Reading a pack gives the objects that went into it.
proof fn lemma_pack_read_back(
    objects: Seq<SourceModel>,
    entries: Seq<Seq<u8>>,
    list: Seq<PackRecord>,
    k: int,
    limit: nat,
)
    requires
        indexed(objects, entries, list),
        0 <= k < objects.len(),
        all_fit(objects, limit),
        limit <= usize::MAX,
    ensures
        resolved(pack_bytes(entries), list, objects[k].id, limit, 0) == Ok::<
            (ObjectKind, Seq<u8>),
            Error,
        >((objects[k].kind, objects[k].data)),
{
    assert(is_packed(objects, entries, k));
    if is_whole(objects, entries, k) {
        lemma_whole_read(objects, entries, list, k, limit, 0);
    } else {
        let b = choose|b: int| #[trigger] is_delta(objects, entries, k, b);
        assert(objects[b].data.len() <= limit);
        lemma_delta_read(objects, entries, list, k, b, limit);
    }
}

/// Whether the slots of whole objects are those of a layout.
spec fn slots_match(slots: Seq<Option<usize>>, bases: Map<ObjectKind, int>, n: int) -> bool {
    &&& slots.len() == 4
    &&& forall|kind: ObjectKind| #[trigger] slot_matches(slots, bases, n, kind)
}

spec fn slot_matches(
    slots: Seq<Option<usize>>,
    bases: Map<ObjectKind, int>,
    n: int,
    kind: ObjectKind,
) -> bool {
    match slots[type_of_kind(kind) - 1] {
        Some(base) => bases.contains_key(kind) && bases[kind] == base && base < n,
        None => !bases.contains_key(kind),
    }
}

proof fn lemma_slots_insert(
    slots: Seq<Option<usize>>,
    bases: Map<ObjectKind, int>,
    n: int,
    kind: ObjectKind,
    position: usize,
)
    requires
        slots_match(slots, bases, n),
        position == n,
    ensures
        slots_match(
            slots.update(type_of_kind(kind) - 1, Some(position)),
            bases.insert(kind, n),
            n + 1,
        ),
        slots_match(slots, bases, n + 1),
{
    let after = slots.update(type_of_kind(kind) - 1, Some(position));
    assert forall|other: ObjectKind| #[trigger]
        slot_matches(after, bases.insert(kind, n), n + 1, other) by {
        assert(slot_matches(slots, bases, n, other));
    }
    assert forall|other: ObjectKind| #[trigger] slot_matches(slots, bases, n + 1, other) by {
        assert(slot_matches(slots, bases, n, other));
    }
}

/// The delta entry for an object, where one is shorter than the whole entry.
fn delta_choice(
    objects: &[PackSource],
    entries: &Vec<PackIndexEntry>,
    base: usize,
    n: usize,
    offset: u64,
    direct: &Vec<u8>,
    Ghost(layout): Ghost<Layout>,
) -> (r: Option<Vec<u8>>)
    requires
        base < n < objects@.len(),
        n == entries@.len(),
        layout.entries.len() == n,
        layout.bases.contains_key(objects@[n as int].kind),
        layout.bases[objects@[n as int].kind] == base,
        offset == offset_at(layout.entries, n as int),
        entries@[base as int].offset == offset_at(layout.entries, base as int),
        direct@ == direct_bytes(objects@[n as int]@),
    ensures
        match r {
            Some(entry) => {
                &&& takes_delta(sources(objects@), true, layout, n as int)
                &&& entry@ == candidate(sources(objects@), layout, n as int)
                &&& restores(
                    delta::delta_of(objects@[base as int].data@, objects@[n as int].data@),
                )
                &&& delta::delta_of(
                    objects@[base as int].data@,
                    objects@[n as int].data@,
                ).len() <= usize::MAX
            },
            None => !takes_delta(sources(objects@), true, layout, n as int),
        },
{
    let ghost all = sources(objects@);
    assert(all[base as int] == objects@[base as int]@);
    assert(all[n as int] == objects@[n as int]@);
    let instructions = match delta::create_delta(
        objects[base].data.as_slice(),
        objects[n].data.as_slice(),
    ) {
        Some(instructions) => instructions,
        None => return None,
    };
    proof {
        bytes::lemma_flat_monotone(layout.entries, base as int, n as int);
    }
    let entry = ofs_delta_entry(offset - entries[base].offset, instructions.as_slice());
    assert(instructions.len() <= usize::MAX);
    if entry.len() < direct.len() {
        Some(entry)
    } else {
        None
    }
}

/// Whether the index entry at a position tells of the packed entry there.
spec fn noted(
    entries: Seq<PackIndexEntry>,
    all: Seq<SourceModel>,
    parts: Seq<Seq<u8>>,
    k: int,
) -> bool {
    &&& entries[k].id@ == all[k].id
    &&& entries[k].crc32 == crc(parts[k])
    &&& entries[k].offset == offset_at(parts, k)
}

/// Whether the object that a kind takes as its base is packed whole.
spec fn based(all: Seq<SourceModel>, layout: Layout, n: int, kind: ObjectKind) -> bool {
    layout.bases.contains_key(kind) ==> {
        &&& 0 <= layout.bases[kind] < n
        &&& is_whole(all, layout.entries, layout.bases[kind])
        &&& all[layout.bases[kind]].kind == kind
    }
}

/// What holds after `n` objects were packed.
spec fn packed_so_far(
    all: Seq<SourceModel>,
    use_deltas: bool,
    n: int,
    entries: Seq<PackIndexEntry>,
    slots: Seq<Option<usize>>,
) -> bool {
    let layout = laid_out(all, use_deltas, n);
    &&& layout.entries.len() == n
    &&& entries.len() == n
    &&& slots_match(slots, layout.bases, n)
    &&& forall|kind: ObjectKind| #[trigger] based(all, layout, n, kind)
    &&& forall|k: int| 0 <= k < n ==> #[trigger] is_packed(all, layout.entries, k)
    &&& forall|k: int| 0 <= k < n ==> #[trigger] noted(entries, all, layout.entries, k)
}

/// What the next entry brings.
proof fn lemma_packed_next(
    all: Seq<SourceModel>,
    use_deltas: bool,
    n: int,
    entries: Seq<PackIndexEntry>,
    slots: Seq<Option<usize>>,
    record: PackIndexEntry,
    slots_after: Seq<Option<usize>>,
)
    requires
        0 <= n < all.len() <= u32::MAX,
        n <= usize::MAX,
        packed_so_far(all, use_deltas, n, entries, slots),
        ({
            let layout = laid_out(all, use_deltas, n);
            let kind = all[n].kind;
            let base = layout.bases[kind];
            let entry = laid_out(all, use_deltas, n + 1).entries[n];
            &&& record.id@ == all[n].id
            &&& record.crc32 == crc(entry)
            &&& record.offset == offset_at(layout.entries, n)
            &&& if takes_delta(all, use_deltas, layout, n) {
                &&& restores(delta::delta_of(all[base].data, all[n].data))
                &&& delta::delta_of(all[base].data, all[n].data).len() <= usize::MAX
                &&& slots_after == slots
            } else {
                &&& restores(all[n].data)
                &&& slots_after == slots.update(type_of_kind(kind) - 1, Some(n as usize))
            }
        }),
    ensures
        packed_so_far(all, use_deltas, n + 1, entries.push(record), slots_after),
{
    let layout = laid_out(all, use_deltas, n);
    let next = laid_out(all, use_deltas, n + 1);
    let kind = all[n].kind;
    let entry = next.entries[n];
    let more = entries.push(record);
    assert(next.entries =~= layout.entries.push(entry));
    lemma_slots_insert(slots, layout.bases, n, kind, n as usize);
    lemma_offset_stable(layout.entries, entry, n);
    assert forall|k: int| 0 <= k < n implies #[trigger] is_packed(all, next.entries, k) by {
        assert(is_packed(all, layout.entries, k));
        lemma_packed_stable(all, layout.entries, entry, k);
    }
    assert(is_packed(all, next.entries, n)) by {
        if takes_delta(all, use_deltas, layout, n) {
            let b = layout.bases[kind];
            assert(based(all, layout, n, kind));
            lemma_packed_stable(all, layout.entries, entry, b);
            lemma_offset_stable(layout.entries, entry, b);
            assert(is_delta(all, next.entries, n, b));
        } else {
            assert(is_whole(all, next.entries, n));
        }
    }
    assert forall|k: int| 0 <= k < n + 1 implies #[trigger] noted(more, all, next.entries, k) by {
        if k < n {
            assert(noted(entries, all, layout.entries, k));
            lemma_offset_stable(layout.entries, entry, k);
        }
    }
    assert forall|other: ObjectKind| #[trigger] based(all, next, n + 1, other) by {
        assert(based(all, layout, n, other));
        if layout.bases.contains_key(other) {
            lemma_packed_stable(all, layout.entries, entry, layout.bases[other]);
        }
        if !takes_delta(all, use_deltas, layout, n) && other == kind {
            assert(is_whole(all, next.entries, n));
        }
    }
}

/// The bundle of some objects, or why there is none.
pub open spec fn bundle_of(all: Seq<SourceModel>, use_deltas: bool) -> core::result::Result<
    BundleModel,
    Error,
> {
    let entries = entries_of(all, use_deltas);
    let list = pack_records(all, entries);
    let checksum = sha1::sha1(pack_body(entries));
    if all.len() > u32::MAX {
        Err(Error::InvalidObject("invalid pack: pack contains more than u32::MAX objects"))
    } else if repeats(list) {
        Err(Error::InvalidObject("invalid pack: duplicate object ID while writing index"))
    } else {
        Ok(
            BundleModel {
                pack: pack_bytes(entries),
                index: index_bytes(arranged(list), checksum),
                checksum,
                object_count: all.len(),
            },
        )
    }
}

/// The index of a built pack is accepted, carries the checksum of the pack and
/// names every object of it, in ascending order of identifiers.
pub proof fn lemma_built_index_parses(all: Seq<SourceModel>, use_deltas: bool)
    requires
        bundle_of(all, use_deltas) is Ok,
        forall|k: int| 0 <= k < all.len() ==> (#[trigger] all[k]).id.len() == 20,
        large_offsets(arranged(pack_records(all, entries_of(all, use_deltas)))).len()
            <= 0x8000_0000,
        (bundle_of(all, use_deltas)->Ok_0).index.len() <= usize::MAX,
    ensures
        ({
            let bundle = bundle_of(all, use_deltas)->Ok_0;
            let list = arranged(pack_records(all, entries_of(all, use_deltas)));
            &&& index_from(bundle.index) == Ok::<(Seq<PackRecord>, Seq<u8>), Error>(
                (list, bundle.checksum),
            )
            &&& list.len() == all.len() == bundle.object_count
            &&& forall|k: int| 0 <= k < all.len() ==> names(list, (#[trigger] all[k]).id)
            &&& forall|id: Seq<u8>| #[trigger]
                names(list, id) ==> exists|k: int|
                    0 <= k < all.len() && (#[trigger] all[k]).id == id
            &&& bundle.checksum.len() == 20
            &&& bundle.pack.skip(bundle.pack.len() - 20) == bundle.checksum
            &&& sha1::sha1(bundle.pack.take(bundle.pack.len() - 20)) == bundle.checksum
        }),
{
    let records = pack_records(all, entries_of(all, use_deltas));
    let list = arranged(records);
    let bundle = bundle_of(all, use_deltas)->Ok_0;
    lemma_arranged(records);
    lemma_arranged_ascends(records);
    assert forall|i: int| 0 <= i < list.len() implies (#[trigger] list[i]).id.len() == 20 by {
        assert(list.contains(list[i]));
        assert(records.contains(list[i]));
        let k = records.index_of(list[i]);
        assert(records[k].id == all[k].id);
    }
    sha1::lemma_sha1_len(pack_body(entries_of(all, use_deltas)));
    lemma_index_round_trip(list, bundle.checksum);
    assert forall|k: int| 0 <= k < all.len() implies names(list, (#[trigger] all[k]).id) by {
        assert(records[k].id == all[k].id);
        assert(records.contains(records[k]));
        assert(list.contains(records[k]));
        let i = list.index_of(records[k]);
        assert(list[i].id == all[k].id);
    }
    assert forall|id: Seq<u8>| #[trigger] names(list, id) implies exists|k: int|
        0 <= k < all.len() && (#[trigger] all[k]).id == id by {
        let i = choose|i: int| 0 <= i < list.len() && (#[trigger] list[i]).id == id;
        assert(list.contains(list[i]));
        assert(records.contains(list[i]));
        let k = records.index_of(list[i]);
        assert(records[k].id == all[k].id);
    }
    let body = pack_body(entries_of(all, use_deltas));
    assert(bundle.pack.take(bundle.pack.len() - 20) =~= body);
    assert(bundle.pack.skip(bundle.pack.len() - 20) =~= bundle.checksum);
}

/// Whether reading a pack through its index gives every object back, under any
/// limit that all the objects fit in.
pub open spec fn reads_back(bundle: BundleModel, all: Seq<SourceModel>, use_deltas: bool) -> bool {
    let list = arranged(pack_records(all, entries_of(all, use_deltas)));
    &&& bundle.checksum.len() == 20
    &&& pack_fault(bundle.pack, all.len() as int, bundle.checksum) is None
    &&& large_offsets(list).len() <= 0x8000_0000 ==> index_from(bundle.index) == Ok::<
        (Seq<PackRecord>, Seq<u8>),
        Error,
    >((list, bundle.checksum))
    &&& forall|k: int, limit: nat|
        #![trigger resolved(bundle.pack, list, all[k].id, limit, 0)]
        0 <= k < all.len() && all_fit(all, limit) && limit <= usize::MAX ==> resolved(
            bundle.pack,
            list,
            all[k].id,
            limit,
            0,
        ) == Ok::<(ObjectKind, Seq<u8>), Error>((all[k].kind, all[k].data))
}

/// Whether a result is the bundle of some objects, or the reason why there is
/// none.
pub open spec fn bundles(
    r: Result<PackBundle>,
    all: Seq<SourceModel>,
    use_deltas: bool,
) -> bool {
    match bundle_of(all, use_deltas) {
        Err(error) => r is Err && r->Err_0 == error,
        Ok(bundle) => r is Ok && r->Ok_0@ == bundle && reads_back(bundle, all, use_deltas),
    }
}

/// Builds a pack and its index.
///
/// Reading the pack through the index gives every object back, under any
/// limit that all the objects fit in.
pub fn build_pack(objects: &[PackSource], options: &PackOptions) -> (r: Result<PackBundle>)
    ensures
        bundles(r, sources(objects@), options.use_deltas),
{
    let ghost all = sources(objects@);
    if objects.len() as u64 > u32::MAX as u64 {
        return Err(
            Error::InvalidObject("invalid pack: pack contains more than u32::MAX objects"),
        );
    }
    let mut pack: Vec<u8> = Vec::new();
    pack.push(80);
    pack.push(65);
    pack.push(67);
    pack.push(75);
    assert(pack@ =~= pack_magic());
    bytes::push_be32(&mut pack, 2);
    bytes::push_be32(&mut pack, objects.len() as u32);
    let ghost head = pack@;
    proof {
        bytes::lemma_be_bytes_len(2, 4);
        bytes::lemma_be_bytes_len(objects@.len(), 4);
    }
    let mut entries: Vec<PackIndexEntry> = Vec::new();
    let mut bases: Vec<Option<usize>> = Vec::new();
    bases.push(None);
    bases.push(None);
    bases.push(None);
    bases.push(None);
    let mut n: usize = 0;
    assert(pack@ =~= head + bytes::flat(Seq::empty()));
    while n < objects.len()
        invariant
            n <= objects@.len() <= u32::MAX,
            all == sources(objects@),
            head.len() == 12,
            packed_so_far(all, options.use_deltas, n as int, entries@, bases@),
            pack@ == head + bytes::flat(laid_out(all, options.use_deltas, n as int).entries),
        decreases objects@.len() - n,
    {
        let ghost layout = laid_out(all, options.use_deltas, n as int);
        let ghost next = laid_out(all, options.use_deltas, n + 1);
        let ghost noted_before = entries@;
        let ghost slots_before = bases@;
        let object = &objects[n];
        assert(all[n as int] == object@);
        let offset: u64 = pack.len() as u64;
        assert(layout.entries.take(n as int) =~= layout.entries);
        let direct = direct_entry(object.kind, object.data.as_slice(), Ghost(object@));
        let slot: usize = (kind_type(object.kind) - 1) as usize;
        assert(slot_matches(bases@, layout.bases, n as int, object.kind));
        let chosen: Option<Vec<u8>> = match (options.use_deltas, bases[slot]) {
            (true, Some(base)) => {
                assert(noted(entries@, all, layout.entries, base as int));
                delta_choice(objects, &entries, base, n, offset, &direct, Ghost(layout))
            },
            _ => None,
        };
        let ghost record = PackIndexEntry {
            id: object.id,
            crc32: crc(next.entries[n as int]),
            offset,
        };
        match chosen {
            Some(selected) => {
                entries.push(
                    PackIndexEntry { id: object.id, crc32: crc32(selected.as_slice()), offset },
                );
                bytes::append(&mut pack, selected.as_slice());
                assert(all[layout.bases[object.kind]]
                    == objects@[layout.bases[object.kind]]@);
            },
            None => {
                entries.push(
                    PackIndexEntry { id: object.id, crc32: crc32(direct.as_slice()), offset },
                );
                bytes::append(&mut pack, direct.as_slice());
                bases.set(slot, Some(n));
            },
        }
        proof {
            assert(next.entries.drop_last() =~= layout.entries);
            assert(pack@ =~= head + bytes::flat(next.entries));
            lemma_packed_next(
                all,
                options.use_deltas,
                n as int,
                noted_before,
                slots_before,
                record,
                bases@,
            );
            assert(entries@ =~= noted_before.push(record));
        }
        n += 1;
    }
    let ghost parts = entries_of(all, options.use_deltas);
    let ghost list = pack_records(all, parts);
    assert(pack@ =~= pack_body(parts)) by {
        reveal(pack_body);
    }
    let checksum = sha1::digest(pack.as_slice());
    bytes::append(&mut pack, checksum.as_slice());
    assert(pack.len() <= usize::MAX);
    assert(records(entries@) =~= list) by {
        assert forall|k: int| 0 <= k < all.len() implies records(entries@)[k] == list[k] by {
            assert(noted(entries@, all, parts, k));
            bytes::lemma_flat_monotone(parts, k, parts.len() as int);
        }
    }
    let index = encode_index(entries.as_slice(), checksum)?;
    assert(index.len() <= usize::MAX);
    proof {
        lemma_bundle_read(all, parts, entries@);
        sha1::lemma_sha1_len(pack_body(parts));
    }
    let parsed = PackIndex::parse(index.as_slice())?;
    validate_pack(pack.as_slice(), &parsed)?;
    Ok(PackBundle { pack, index, checksum, object_count: objects.len() })
}

/// What a bundle gives back.
proof fn lemma_bundle_read(
    all: Seq<SourceModel>,
    parts: Seq<Seq<u8>>,
    entries: Seq<PackIndexEntry>,
)
    requires
        parts.len() == all.len() <= u32::MAX,
        forall|k: int| 0 <= k < parts.len() ==> #[trigger] is_packed(all, parts, k),
        pack_bytes(parts).len() <= usize::MAX,
        records(entries) == pack_records(all, parts),
        !repeats(records(entries)),
        index_bytes(arranged(records(entries)), sha1::sha1(pack_body(parts))).len() <= usize::MAX,
    ensures
        ({
            let list = pack_records(all, parts);
            let checksum = sha1::sha1(pack_body(parts));
            let index = index_bytes(arranged(list), checksum);
            &&& index_from(index) is Ok
            &&& index_from(index)->Ok_0.0.len() == all.len()
            &&& index_from(index)->Ok_0.1 == checksum
            &&& pack_fault(pack_bytes(parts), all.len() as int, checksum) is None
            &&& large_offsets(arranged(list)).len() <= 0x8000_0000 ==> index_from(index) == Ok::<
                (Seq<PackRecord>, Seq<u8>),
                Error,
            >((arranged(list), checksum))
            &&& forall|k: int, limit: nat|
                #![trigger resolved(pack_bytes(parts), arranged(list), all[k].id, limit, 0)]
                0 <= k < all.len() && all_fit(all, limit) && limit <= usize::MAX ==> resolved(
                    pack_bytes(parts),
                    arranged(list),
                    all[k].id,
                    limit,
                    0,
                ) == Ok::<(ObjectKind, Seq<u8>), Error>((all[k].kind, all[k].data))
        }),
{
    let list = pack_records(all, parts);
    let sorted = arranged(list);
    let checksum = sha1::sha1(pack_body(parts));
    lemma_arranged(list);
    lemma_arranged_ascends(list);
    lemma_full_ids(entries);
    assert(full_ids(sorted)) by {
        assert forall|i: int| 0 <= i < sorted.len() implies (#[trigger] sorted[i]).id.len()
            == 20 by {
            assert(sorted.contains(sorted[i]));
            assert(list.contains(sorted[i]));
            let k = list.index_of(sorted[i]);
            assert(list[k].id.len() == 20);
        }
    }
    sha1::lemma_sha1_len(pack_body(parts));
    lemma_index_accepted(sorted, checksum);
    if large_offsets(sorted).len() <= 0x8000_0000 {
        lemma_index_round_trip(sorted, checksum);
    }
    lemma_pack_sound(parts);
    assert(indexed(all, parts, sorted));
    assert forall|k: int, limit: nat|
        #![trigger resolved(pack_bytes(parts), sorted, all[k].id, limit, 0)]
        0 <= k < all.len() && all_fit(all, limit) && limit <= usize::MAX implies resolved(
        pack_bytes(parts),
        sorted,
        all[k].id,
        limit,
        0,
    ) == Ok::<(ObjectKind, Seq<u8>), Error>((all[k].kind, all[k].data)) by {
        lemma_pack_read_back(all, parts, sorted, k, limit);
    }
}

} // verus!
