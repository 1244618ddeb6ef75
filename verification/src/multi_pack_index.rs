//! Multi-pack indexes: where each object stands among several packs.

use vstd::prelude::*;

use crate::bytes;
use crate::object;
use crate::object::ObjectId;
use crate::pack;
use crate::sha1;
use crate::{Error, Result};

verus! {

/// One unique object location.
#[derive(Clone, Copy, Debug, PartialEq, Eq)]
pub struct MultiPackIndexEntry {
    id: ObjectId,
    pack_index: u32,
    offset: u64,
}

/// What a location says.
pub struct Location {
    pub id: Seq<u8>,
    pub pack: u32,
    pub offset: u64,
}

impl View for MultiPackIndexEntry {
    type V = Location;

    closed spec fn view(&self) -> Location {
        Location { id: self.id@, pack: self.pack_index, offset: self.offset }
    }
}

/// What a list of entries says.
pub open spec fn locations(list: Seq<MultiPackIndexEntry>) -> Seq<Location> {
    Seq::new(list.len(), |i: int| list[i]@)
}

/// The objects and offsets of locations, as records of a pack without
/// checksums.
pub open spec fn places(list: Seq<Location>) -> Seq<pack::PackRecord> {
    Seq::new(
        list.len(),
        |i: int| pack::PackRecord { id: list[i].id, crc32: 0, offset: list[i].offset },
    )
}

impl MultiPackIndexEntry {
    pub fn new(id: ObjectId, pack_index: u32, offset: u64) -> (r: Self)
        ensures
            r@ == (Location { id: id@, pack: pack_index, offset }),
    {
        MultiPackIndexEntry { id, pack_index, offset }
    }

    pub fn id(self) -> (r: ObjectId)
        ensures
            r@ == self@.id,
    {
        self.id
    }

    pub fn pack_index(self) -> (r: u32)
        ensures
            r == self@.pack,
    {
        self.pack_index
    }

    pub fn offset(self) -> (r: u64)
        ensures
            r == self@.offset,
    {
        self.offset
    }
}

/// Whether a name is that of a pack index.
pub open spec fn pack_index_name(name: Seq<u8>) -> bool {
    &&& name.len() == 49
    &&& name.take(5) == bytes::utf8("pack-"@)
    &&& object::all_hex(name.subrange(5, 45))
    &&& name.skip(45) == bytes::utf8(".idx"@)
}

pub fn is_pack_index_name(name: &[u8]) -> (r: bool)
    ensures
        r == pack_index_name(name@),
{
    if name.len() != 49 {
        return false;
    }
    assert(name@.subrange(0, 5) =~= name@.take(5));
    assert(name@.subrange(45, 49) =~= name@.skip(45));
    bytes::bytes_eq(&name[0..5], "pack-".as_bytes()) && object::is_all_hex(&name[5..45])
        && bytes::bytes_eq(&name[45..49], ".idx".as_bytes())
}

// ---------------------------------------------------------------------------
// The chunk table

pub open spec fn midx_magic() -> Seq<u8> {
    seq![77u8, 73u8, 68u8, 88u8]
}

pub open spec fn no_chunk() -> Seq<u8> {
    seq![0u8, 0u8, 0u8, 0u8]
}

pub open spec fn names_chunk() -> Seq<u8> {
    seq![80u8, 78u8, 65u8, 77u8]
}

pub open spec fn fan_chunk() -> Seq<u8> {
    seq![79u8, 73u8, 68u8, 70u8]
}

pub open spec fn ids_chunk() -> Seq<u8> {
    seq![79u8, 73u8, 68u8, 76u8]
}

pub open spec fn offsets_chunk() -> Seq<u8> {
    seq![79u8, 79u8, 70u8, 70u8]
}

pub open spec fn large_chunk() -> Seq<u8> {
    seq![76u8, 79u8, 70u8, 70u8]
}

/// How many chunks a file has.
pub open spec fn chunk_count(data: Seq<u8>) -> int {
    data[6] as int
}

pub open spec fn table_end(chunks: int) -> int {
    12 + 12 * (chunks + 1)
}

pub open spec fn row_id(data: Seq<u8>, i: int) -> Seq<u8> {
    data.subrange(12 + 12 * i, 16 + 12 * i)
}

pub open spec fn row_offset(data: Seq<u8>, i: int) -> int {
    bytes::be(data.subrange(16 + 12 * i, 24 + 12 * i)) as int
}

/// Whether one of the first `n` rows has an identifier.
pub open spec fn row_taken(data: Seq<u8>, n: int, id: Seq<u8>) -> bool {
    exists|j: int| 0 <= j < n && #[trigger] row_id(data, j) == id
}

/// What is wrong with a row of the chunk table.
pub open spec fn row_fault(data: Seq<u8>, i: int) -> Option<Error> {
    let chunks = chunk_count(data);
    let end = data.len() - 20;
    let offset = row_offset(data, i);
    let previous = if i == 0 {
        table_end(chunks)
    } else {
        row_offset(data, i - 1)
    };
    if offset > usize::MAX {
        Some(Error::InvalidRepository("invalid multi-pack-index: chunk offset overflow"))
    } else if offset < previous || offset > end || offset % 4 != 0 {
        Some(Error::InvalidRepository("invalid multi-pack-index: invalid chunk offset"))
    } else if i == chunks {
        if row_id(data, i) != no_chunk() || offset != end {
            Some(Error::InvalidRepository("invalid multi-pack-index: invalid chunk terminator"))
        } else {
            None
        }
    } else if row_id(data, i) == no_chunk() || row_taken(data, i, row_id(data, i)) {
        Some(Error::InvalidRepository("invalid multi-pack-index: duplicate or null chunk ID"))
    } else {
        None
    }
}

/// What is wrong with the first faulty row among the first `n`.
pub open spec fn first_row_fault(data: Seq<u8>, n: int) -> Option<Error>
    decreases n,
{
    if n <= 0 {
        None
    } else {
        match first_row_fault(data, n - 1) {
            Some(error) => Some(error),
            None => row_fault(data, n - 1),
        }
    }
}

/// What is wrong with the header or the chunk table.
#[verifier::opaque]
pub open spec fn header_fault(data: Seq<u8>, max_packs: int) -> Option<Error> {
    let chunks = chunk_count(data);
    let end = data.len() - 20;
    if data.len() < 92 || data.take(4) != midx_magic() {
        Some(Error::InvalidRepository("invalid multi-pack-index: invalid or truncated header"))
    } else if !(data[4] == 1 || data[4] == 2) || data[5] != 1 || data[7] != 0 {
        Some(
            Error::InvalidRepository(
                "invalid multi-pack-index: unsupported version, hash, or base count",
            ),
        )
    } else if pack::word_at(data, 8) > max_packs {
        Some(Error::InvalidRepository("invalid multi-pack-index: pack count exceeds limit"))
    } else if table_end(chunks) > end || sha1::sha1(data.take(end)) != data.skip(end) {
        Some(
            Error::InvalidRepository(
                "invalid multi-pack-index: truncated table or checksum mismatch",
            ),
        )
    } else {
        first_row_fault(data, chunks + 1)
    }
}

/// The first row from `i` on with an identifier.
pub open spec fn row_of(data: Seq<u8>, id: Seq<u8>, i: int) -> Option<int>
    decreases chunk_count(data) - i,
{
    if i >= chunk_count(data) {
        None
    } else if row_id(data, i) == id {
        Some(i)
    } else {
        row_of(data, id, i + 1)
    }
}

/// The contents of a chunk.
pub open spec fn chunk_of(data: Seq<u8>, id: Seq<u8>) -> Option<Seq<u8>> {
    match row_of(data, id, 0) {
        Some(i) => Some(data.subrange(row_offset(data, i), row_offset(data, i + 1))),
        None => None,
    }
}

fn read_row_id(data: &[u8], i: usize) -> (r: Vec<u8>)
    requires
        i <= 255,
        16 + 12 * i <= data@.len(),
    ensures
        r@ == row_id(data@, i as int),
{
    bytes::copy_range(data, 12 + 12 * i, 16 + 12 * i)
}

proof fn lemma_row_fault_persists(data: Seq<u8>, n: int, m: int)
    requires
        0 <= n <= m,
    ensures
        first_row_fault(data, n) is Some ==> first_row_fault(data, m) == first_row_fault(data, n),
    decreases m,
{
    if n < m {
        lemma_row_fault_persists(data, n, m - 1);
    }
}

proof fn lemma_no_row_fault(data: Seq<u8>, n: int, i: int)
    requires
        first_row_fault(data, n) is None,
        0 <= i < n,
    ensures
        row_fault(data, i) is None,
    decreases n,
{
    if i < n - 1 {
        lemma_no_row_fault(data, n - 1, i);
    }
}

fn check_row(data: &[u8], chunks: usize, i: usize) -> (r: Result<()>)
    requires
        i <= chunks <= 255,
        data@.len() >= 92,
        chunks == chunk_count(data@),
        table_end(chunks as int) <= data@.len() - 20,
    ensures
        match row_fault(data@, i as int) {
            Some(error) => r is Err && r->Err_0 == error,
            None => r is Ok,
        },
{
    let end: usize = data.len() - 20;
    let raw: u64 = bytes::read_be64(data, 16 + 12 * i);
    if raw > usize::MAX as u64 {
        return Err(Error::InvalidRepository("invalid multi-pack-index: chunk offset overflow"));
    }
    let previous: u64 = if i == 0 {
        12 + 12 * (chunks as u64 + 1)
    } else {
        bytes::read_be64(data, 16 + 12 * (i - 1))
    };
    if raw < previous || raw > end as u64 || raw % 4 != 0 {
        return Err(Error::InvalidRepository("invalid multi-pack-index: invalid chunk offset"));
    }
    let id = read_row_id(data, i);
    let null: bool = id[0] == 0 && id[1] == 0 && id[2] == 0 && id[3] == 0;
    proof {
        if null {
            assert(id@ =~= no_chunk());
        }
    }
    if i == chunks {
        if !null || raw != end as u64 {
            return Err(
                Error::InvalidRepository("invalid multi-pack-index: invalid chunk terminator"),
            );
        }
        return Ok(());
    }
    if null {
        return Err(
            Error::InvalidRepository("invalid multi-pack-index: duplicate or null chunk ID"),
        );
    }
    let mut j: usize = 0;
    while j < i
        invariant
            j <= i < chunks <= 255,
            table_end(chunks as int) <= data@.len() - 20,
            id@ == row_id(data@, i as int),
            forall|k: int| 0 <= k < j ==> #[trigger] row_id(data@, k) != id@,
            row_taken(data@, i as int, id@) ==> row_fault(data@, i as int) == Some(
                Error::InvalidRepository("invalid multi-pack-index: duplicate or null chunk ID"),
            ),
        decreases i - j,
    {
        let other = read_row_id(data, j);
        if bytes::bytes_eq(other.as_slice(), id.as_slice()) {
            assert(row_id(data@, j as int) == id@);
            return Err(
                Error::InvalidRepository("invalid multi-pack-index: duplicate or null chunk ID"),
            );
        }
        j += 1;
    }
    Ok(())
}

fn check_header(data: &[u8], max_packs: usize) -> (r: Result<(u8, usize)>)
    ensures
        match header_fault(data@, max_packs as int) {
            Some(error) => r is Err && r->Err_0 == error,
            None => {
                &&& r is Ok
                &&& r->Ok_0.0 == data@[4]
                &&& r->Ok_0.1 == pack::word_at(data@, 8)
                &&& r->Ok_0.1 <= u32::MAX
                &&& data@.len() >= 92
                &&& table_end(chunk_count(data@)) <= data@.len() - 20
                &&& first_row_fault(data@, chunk_count(data@) + 1) is None
            },
        },
{
    reveal(header_fault);
    if data.len() < 92 || data[0] != 77 || data[1] != 73 || data[2] != 68 || data[3] != 88 {
        proof {
            if data@.len() >= 92 && data@.take(4) == midx_magic() {
                assert(data@.take(4)[0] == data@[0] && data@.take(4)[1] == data@[1]
                    && data@.take(4)[2] == data@[2] && data@.take(4)[3] == data@[3]);
            }
        }
        return Err(
            Error::InvalidRepository("invalid multi-pack-index: invalid or truncated header"),
        );
    }
    assert(data@.take(4) =~= midx_magic());
    let version: u8 = data[4];
    if !(version == 1 || version == 2) || data[5] != 1 || data[7] != 0 {
        return Err(
            Error::InvalidRepository(
                "invalid multi-pack-index: unsupported version, hash, or base count",
            ),
        );
    }
    let chunks: usize = data[6] as usize;
    let packs: u32 = bytes::read_be32(data, 8);
    if packs as u64 > max_packs as u64 {
        return Err(
            Error::InvalidRepository("invalid multi-pack-index: pack count exceeds limit"),
        );
    }
    if 12 + 12 * (chunks + 1) > data.len() - 20 || !pack::ends_with_sum(data) {
        return Err(
            Error::InvalidRepository(
                "invalid multi-pack-index: truncated table or checksum mismatch",
            ),
        );
    }
    let mut i: usize = 0;
    while i <= chunks
        invariant
            i <= chunks + 1,
            chunks <= 255,
            chunks == chunk_count(data@),
            data@.len() >= 92,
            table_end(chunks as int) <= data@.len() - 20,
            first_row_fault(data@, i as int) is None,
            header_fault(data@, max_packs as int) == first_row_fault(data@, chunks + 1),
        decreases chunks + 1 - i,
    {
        proof {
            lemma_row_fault_persists(data@, i + 1, chunks + 1);
        }
        check_row(data, chunks, i)?;
        i += 1;
    }
    Ok((version, packs as usize))
}

/// Where a chunk stands.
fn find_chunk(data: &[u8], id: &[u8]) -> (r: Option<(usize, usize)>)
    requires
        data@.len() >= 92,
        table_end(chunk_count(data@)) <= data@.len() - 20,
        first_row_fault(data@, chunk_count(data@) + 1) is None,
    ensures
        match r {
            Some((start, end)) => start <= end <= data@.len() && chunk_of(data@, id@) == Some(
                data@.subrange(start as int, end as int),
            ),
            None => chunk_of(data@, id@) is None,
        },
{
    let chunks: usize = data[6] as usize;
    let mut i: usize = 0;
    while i < chunks
        invariant
            i <= chunks <= 255,
            chunks == chunk_count(data@),
            table_end(chunks as int) <= data@.len() - 20,
            first_row_fault(data@, chunks + 1) is None,
            row_of(data@, id@, 0) == row_of(data@, id@, i as int),
        decreases chunks - i,
    {
        let other = read_row_id(data, i);
        if bytes::bytes_eq(other.as_slice(), id) {
            proof {
                lemma_no_row_fault(data@, chunks + 1, i as int);
                lemma_no_row_fault(data@, chunks + 1, i + 1);
            }
            let start: usize = bytes::read_be64(data, 16 + 12 * i) as usize;
            let end: usize = bytes::read_be64(data, 16 + 12 * (i + 1)) as usize;
            return Some((start, end));
        }
        i += 1;
    }
    None
}

// ---------------------------------------------------------------------------
// Pack names

/// Pack names from `cursor` on, after those that are done.
pub open spec fn names_from(
    data: Seq<u8>,
    version: u8,
    cursor: int,
    done: Seq<Seq<u8>>,
    left: int,
) -> core::result::Result<(Seq<Seq<u8>>, int), Error>
    decreases left,
{
    if left <= 0 {
        Ok((done, cursor))
    } else {
        let end = bytes::index_from(data, 0, cursor);
        let name = data.subrange(cursor, end);
        if end >= data.len() {
            Err(Error::InvalidRepository("invalid multi-pack-index: unterminated pack name"))
        } else if !vstd::utf8::valid_utf8(name) {
            Err(Error::InvalidRepository("invalid multi-pack-index: non-UTF-8 pack name"))
        } else if !pack_index_name(name) || (version == 1 && done.len() > 0 && !bytes::lex_lt(
            done.last(),
            name,
        )) {
            Err(
                Error::InvalidRepository(
                    "invalid multi-pack-index: invalid or unsorted pack names",
                ),
            )
        } else {
            names_from(data, version, end + 1, done.push(name), left - 1)
        }
    }
}

/// The pack names of a chunk, or why it is refused.
pub open spec fn pack_names_of(data: Seq<u8>, version: u8, packs: int) -> core::result::Result<
    Seq<Seq<u8>>,
    Error,
> {
    match names_from(data, version, 0, Seq::empty(), packs) {
        Err(error) => Err(error),
        Ok((names, cursor)) => if exists|i: int| cursor <= i < data.len() && #[trigger] data[i] != 0 {
            Err(Error::InvalidRepository("invalid multi-pack-index: nonzero pack-name padding"))
        } else {
            Ok(names)
        },
    }
}

fn parse_names(data: &[u8], version: u8, packs: usize) -> (r: Result<Vec<Vec<u8>>>)
    ensures
        match pack_names_of(data@, version, packs as int) {
            Ok(names) => r is Ok && bytes::deep(r->Ok_0@) == names && names.len() == packs,
            Err(error) => r is Err && r->Err_0 == error,
        },
{
    let mut names: Vec<Vec<u8>> = Vec::new();
    let mut cursor: usize = 0;
    let mut left: usize = packs;
    assert(bytes::deep(names@) =~= Seq::empty());
    while left > 0
        invariant
            cursor <= data@.len(),
            left <= packs,
            names@.len() == packs - left,
            names_from(data@, version, 0, Seq::empty(), packs as int) == names_from(
                data@,
                version,
                cursor as int,
                bytes::deep(names@),
                left as int,
            ),
        decreases left,
    {
        let end: usize = bytes::find_byte(data, 0, cursor);
        if end >= data.len() {
            return Err(
                Error::InvalidRepository("invalid multi-pack-index: unterminated pack name"),
            );
        }
        let name = &data[cursor..end];
        if bytes::text_of(name).is_none() {
            return Err(
                Error::InvalidRepository("invalid multi-pack-index: non-UTF-8 pack name"),
            );
        }
        let sorted: bool = if version == 1 && names.len() > 0 {
            assert(bytes::deep(names@).last() == names@[names@.len() - 1]@);
            bytes::bytes_lt(names[names.len() - 1].as_slice(), name)
        } else {
            true
        };
        if !is_pack_index_name(name) || !sorted {
            return Err(
                Error::InvalidRepository(
                    "invalid multi-pack-index: invalid or unsorted pack names",
                ),
            );
        }
        let ghost before = bytes::deep(names@);
        names.push(bytes::to_vec(name));
        assert(bytes::deep(names@) =~= before.push(name@));
        cursor = end + 1;
        left = left - 1;
    }
    let mut i: usize = cursor;
    while i < data.len()
        invariant
            cursor <= i <= data@.len(),
            forall|j: int| cursor <= j < i ==> #[trigger] data@[j] == 0,
            names_from(data@, version, 0, Seq::empty(), packs as int) == Ok::<
                (Seq<Seq<u8>>, int),
                Error,
            >((bytes::deep(names@), cursor as int)),
        decreases data@.len() - i,
    {
        if data[i] != 0 {
            return Err(
                Error::InvalidRepository("invalid multi-pack-index: nonzero pack-name padding"),
            );
        }
        i += 1;
    }
    Ok(names)
}

// ---------------------------------------------------------------------------
// Locations

/// How many objects a fanout chunk counts up to a first byte.
pub open spec fn fan_word(fan: Seq<u8>, bucket: int) -> int {
    pack::word_at(fan, 4 * bucket)
}

pub open spec fn fan_steps_up(fan: Seq<u8>, bucket: int) -> bool {
    fan_word(fan, bucket - 1) <= fan_word(fan, bucket)
}

pub open spec fn location_at(
    ids: Seq<u8>,
    offsets: Seq<u8>,
    large: Seq<u8>,
    k: int,
) -> Location {
    let word = pack::word_at(offsets, 8 * k + 4);
    let at = 8 * (word - 0x8000_0000);
    Location {
        id: ids.subrange(20 * k, 20 * k + 20),
        pack: pack::word_at(offsets, 8 * k) as u32,
        offset: if word < 0x8000_0000 {
            word as u64
        } else {
            bytes::be(large.subrange(at, at + 8)) as u64
        },
    }
}

/// What is wrong with the location at a position.
pub open spec fn location_fault(
    ids: Seq<u8>,
    offsets: Seq<u8>,
    large: Seq<u8>,
    packs: int,
    k: int,
) -> Option<Error> {
    let word = pack::word_at(offsets, 8 * k + 4);
    if k > 0 && !bytes::lex_lt(
        ids.subrange(20 * k - 20, 20 * k),
        ids.subrange(20 * k, 20 * k + 20),
    ) {
        Some(Error::InvalidRepository("invalid multi-pack-index: OIDs are not strictly sorted"))
    } else if pack::word_at(offsets, 8 * k) >= packs {
        Some(Error::InvalidRepository("invalid multi-pack-index: pack ID out of bounds"))
    } else if word >= 0x8000_0000 && 8 * (word - 0x8000_0000) > usize::MAX {
        Some(Error::InvalidRepository("invalid multi-pack-index: large offset overflow"))
    } else if word >= 0x8000_0000 && 8 * (word - 0x8000_0000) + 8 > large.len() {
        Some(Error::InvalidRepository("invalid multi-pack-index: large offset out of bounds"))
    } else {
        None
    }
}

/// What is wrong with the first faulty location among the first `n`.
pub open spec fn first_location_fault(
    ids: Seq<u8>,
    offsets: Seq<u8>,
    large: Seq<u8>,
    packs: int,
    n: int,
) -> Option<Error>
    decreases n,
{
    if n <= 0 {
        None
    } else {
        match first_location_fault(ids, offsets, large, packs, n - 1) {
            Some(error) => Some(error),
            None => location_fault(ids, offsets, large, packs, n - 1),
        }
    }
}

/// The locations that the chunks hold.
pub open spec fn locations_of(
    ids: Seq<u8>,
    offsets: Seq<u8>,
    large: Seq<u8>,
    count: int,
) -> Seq<Location> {
    Seq::new(count as nat, |k: int| location_at(ids, offsets, large, k))
}

/// The locations of a file whose names are read, or why it is refused.
#[verifier::opaque]
pub open spec fn locations_from(data: Seq<u8>, packs: int, max_objects: int) -> core::result::Result<
    Seq<Location>,
    Error,
> {
    match chunk_of(data, fan_chunk()) {
        None => Err(
            Error::InvalidRepository("invalid multi-pack-index: required chunk missing"),
        ),
        Some(fan) => if fan.len() != 1024 {
            Err(Error::InvalidRepository("invalid multi-pack-index: OIDF has wrong size"))
        } else if exists|bucket: int| 0 < bucket < 256 && !#[trigger] fan_steps_up(fan, bucket) {
            Err(Error::InvalidRepository("invalid multi-pack-index: OIDF is not monotonic"))
        } else if fan_word(fan, 255) > max_objects {
            Err(Error::InvalidRepository("invalid multi-pack-index: object count exceeds limit"))
        } else {
            let count = fan_word(fan, 255);
            match chunk_of(data, ids_chunk()) {
                None => Err(
                    Error::InvalidRepository("invalid multi-pack-index: required chunk missing"),
                ),
                Some(ids) => match chunk_of(data, offsets_chunk()) {
                    None => Err(
                        Error::InvalidRepository(
                            "invalid multi-pack-index: required chunk missing",
                        ),
                    ),
                    Some(offsets) => {
                        let large = match chunk_of(data, large_chunk()) {
                            Some(large) => large,
                            None => Seq::empty(),
                        };
                        if ids.len() != 20 * count || offsets.len() != 8 * count {
                            Err(
                                Error::InvalidRepository(
                                    "invalid multi-pack-index: OIDL or OOFF has wrong size",
                                ),
                            )
                        } else if large.len() % 8 != 0 {
                            Err(
                                Error::InvalidRepository(
                                    "invalid multi-pack-index: LOFF has wrong size",
                                ),
                            )
                        } else {
                            match first_location_fault(ids, offsets, large, packs, count) {
                                Some(error) => Err(error),
                                None => Ok(locations_of(ids, offsets, large, count)),
                            }
                        }
                    },
                },
            }
        },
    }
}

/// The pack names and the locations of a file, or why it is refused.
pub open spec fn midx_from(data: Seq<u8>, max_packs: int, max_objects: int) -> core::result::Result<
    (Seq<Seq<u8>>, Seq<Location>),
    Error,
> {
    match header_fault(data, max_packs) {
        Some(error) => Err(error),
        None => match chunk_of(data, names_chunk()) {
            None => Err(
                Error::InvalidRepository("invalid multi-pack-index: required chunk missing"),
            ),
            Some(chunk) => match pack_names_of(chunk, data[4], pack::word_at(data, 8)) {
                Err(error) => Err(error),
                Ok(names) => match locations_from(data, pack::word_at(data, 8), max_objects) {
                    Err(error) => Err(error),
                    Ok(list) => Ok((names, list)),
                },
            },
        },
    }
}

proof fn lemma_location_fault_persists(
    ids: Seq<u8>,
    offsets: Seq<u8>,
    large: Seq<u8>,
    packs: int,
    n: int,
    m: int,
)
    requires
        0 <= n <= m,
    ensures
        first_location_fault(ids, offsets, large, packs, n) is Some ==> first_location_fault(
            ids,
            offsets,
            large,
            packs,
            m,
        ) == first_location_fault(ids, offsets, large, packs, n),
    decreases m,
{
    if n < m {
        lemma_location_fault_persists(ids, offsets, large, packs, n, m - 1);
    }
}

proof fn lemma_locations_ascend(
    ids: Seq<u8>,
    offsets: Seq<u8>,
    large: Seq<u8>,
    packs: int,
    count: int,
    i: int,
    j: int,
)
    requires
        first_location_fault(ids, offsets, large, packs, count) is None,
        0 <= i < j < count,
    ensures
        bytes::lex_lt(ids.subrange(20 * i, 20 * i + 20), ids.subrange(20 * j, 20 * j + 20)),
    decreases count + j,
{
    if j < count - 1 {
        lemma_locations_ascend(ids, offsets, large, packs, count - 1, i, j);
    } else if i < j - 1 {
        lemma_locations_ascend(ids, offsets, large, packs, count, i, j - 1);
        bytes::lemma_lex_transitive(
            ids.subrange(20 * i, 20 * i + 20),
            ids.subrange(20 * j - 20, 20 * j),
            ids.subrange(20 * j, 20 * j + 20),
        );
    }
}

fn fan_ascends(fan: &[u8]) -> (r: bool)
    requires
        fan@.len() == 1024,
    ensures
        r == !(exists|bucket: int| 0 < bucket < 256 && !#[trigger] fan_steps_up(fan@, bucket)),
{
    let mut bucket: usize = 1;
    let mut previous: u32 = bytes::read_be32(fan, 0);
    while bucket < 256
        invariant
            1 <= bucket <= 256,
            fan@.len() == 1024,
            previous == fan_word(fan@, bucket - 1),
            forall|b: int| 0 < b < bucket ==> #[trigger] fan_steps_up(fan@, b),
        decreases 256 - bucket,
    {
        let count: u32 = bytes::read_be32(fan, 4 * bucket);
        if count < previous {
            assert(!fan_steps_up(fan@, bucket as int));
            return false;
        }
        previous = count;
        bucket += 1;
    }
    true
}

fn read_location(ids: &[u8], offsets: &[u8], large: &[u8], packs: usize, k: usize) -> (r: Result<
    MultiPackIndexEntry,
>)
    requires
        20 * k + 20 <= ids@.len(),
        8 * k + 8 <= offsets@.len(),
    ensures
        match location_fault(ids@, offsets@, large@, packs as int, k as int) {
            Some(error) => r is Err && r->Err_0 == error,
            None => r is Ok && r->Ok_0@ == location_at(ids@, offsets@, large@, k as int),
        },
{
    assert(ids.len() <= usize::MAX && offsets.len() <= usize::MAX);
    let id = ObjectId::read(ids, 20 * k);
    if k > 0 {
        let prior = ObjectId::read(ids, 20 * k - 20);
        if !prior.before(&id) {
            return Err(
                Error::InvalidRepository("invalid multi-pack-index: OIDs are not strictly sorted"),
            );
        }
    }
    let pack_index: u32 = bytes::read_be32(offsets, 8 * k);
    if pack_index as u64 >= packs as u64 {
        return Err(Error::InvalidRepository("invalid multi-pack-index: pack ID out of bounds"));
    }
    let word: u32 = bytes::read_be32(offsets, 8 * k + 4);
    if word < 0x8000_0000 {
        return Ok(MultiPackIndexEntry { id, pack_index, offset: word as u64 });
    }
    let at: u64 = 8 * ((word - 0x8000_0000) as u64);
    if at > usize::MAX as u64 {
        return Err(Error::InvalidRepository("invalid multi-pack-index: large offset overflow"));
    }
    if at + 8 > large.len() as u64 {
        return Err(
            Error::InvalidRepository("invalid multi-pack-index: large offset out of bounds"),
        );
    }
    Ok(MultiPackIndexEntry { id, pack_index, offset: bytes::read_be64(large, at as usize) })
}

fn read_locations(ids: &[u8], offsets: &[u8], large: &[u8], packs: usize, count: usize) -> (r:
    Result<Vec<MultiPackIndexEntry>>)
    requires
        ids@.len() == 20 * count,
        offsets@.len() == 8 * count,
    ensures
        match first_location_fault(ids@, offsets@, large@, packs as int, count as int) {
            Some(error) => r is Err && r->Err_0 == error,
            None => {
                &&& r is Ok
                &&& locations(r->Ok_0@) == locations_of(ids@, offsets@, large@, count as int)
                &&& pack::ascends(places(locations(r->Ok_0@)))
            },
        },
{
    let mut entries: Vec<MultiPackIndexEntry> = Vec::new();
    let mut k: usize = 0;
    while k < count
        invariant
            k <= count,
            ids@.len() == 20 * count,
            offsets@.len() == 8 * count,
            first_location_fault(ids@, offsets@, large@, packs as int, k as int) is None,
            entries@.len() == k,
            forall|i: int|
                0 <= i < k ==> (#[trigger] entries@[i])@ == location_at(
                    ids@,
                    offsets@,
                    large@,
                    i,
                ),
        decreases count - k,
    {
        proof {
            lemma_location_fault_persists(
                ids@,
                offsets@,
                large@,
                packs as int,
                k + 1,
                count as int,
            );
        }
        let entry = read_location(ids, offsets, large, packs, k)?;
        entries.push(entry);
        k += 1;
    }
    proof {
        let list = places(locations(entries@));
        assert forall|i: int, j: int| 0 <= i < j < list.len() implies #[trigger] pack::id_before(
            list[i],
            list[j],
        ) by {
            lemma_locations_ascend(ids@, offsets@, large@, packs as int, count as int, i, j);
        }
    }
    assert(locations(entries@) =~= locations_of(ids@, offsets@, large@, count as int));
    Ok(entries)
}

/// A validated non-incremental SHA-1 multi-pack-index version 1 or 2.
#[derive(Debug, PartialEq, Eq)]
pub struct MultiPackIndex {
    pack_names: Vec<Vec<u8>>,
    entries: Vec<MultiPackIndexEntry>,
}

impl MultiPackIndex {
    /// The names of the packs.
    pub closed spec fn names(self) -> Seq<Seq<u8>> {
        bytes::deep(self.pack_names@)
    }

    /// The locations, in the order of their identifiers.
    pub closed spec fn list(self) -> Seq<Location> {
        locations(self.entries@)
    }

    #[verifier::type_invariant]
    spec fn inv(self) -> bool {
        pack::ascends(places(locations(self.entries@)))
    }

    fn parse_locations(data: &[u8], packs: usize, max_objects: usize) -> (r: Result<
        Vec<MultiPackIndexEntry>,
    >)
        requires
            data@.len() >= 92,
            table_end(chunk_count(data@)) <= data@.len() - 20,
            first_row_fault(data@, chunk_count(data@) + 1) is None,
        ensures
            match locations_from(data@, packs as int, max_objects as int) {
                Ok(list) => r is Ok && locations(r->Ok_0@) == list && pack::ascends(places(list)),
                Err(error) => r is Err && r->Err_0 == error,
            },
    {
        reveal(locations_from);
        let fan_id: [u8; 4] = [79, 73, 68, 70];
        let ids_id: [u8; 4] = [79, 73, 68, 76];
        let offsets_id: [u8; 4] = [79, 79, 70, 70];
        let large_id: [u8; 4] = [76, 79, 70, 70];
        assert(fan_id@ =~= fan_chunk());
        assert(ids_id@ =~= ids_chunk());
        assert(offsets_id@ =~= offsets_chunk());
        assert(large_id@ =~= large_chunk());
        let (fan_start, fan_end) = match find_chunk(data, fan_id.as_slice()) {
            Some(range) => range,
            None => return Err(
                Error::InvalidRepository("invalid multi-pack-index: required chunk missing"),
            ),
        };
        let fan = &data[fan_start..fan_end];
        if fan.len() != 1024 {
            return Err(Error::InvalidRepository("invalid multi-pack-index: OIDF has wrong size"));
        }
        if !fan_ascends(fan) {
            return Err(
                Error::InvalidRepository("invalid multi-pack-index: OIDF is not monotonic"),
            );
        }
        let count: u32 = bytes::read_be32(fan, 1020);
        if count as u64 > max_objects as u64 {
            return Err(
                Error::InvalidRepository("invalid multi-pack-index: object count exceeds limit"),
            );
        }
        let (ids_start, ids_end) = match find_chunk(data, ids_id.as_slice()) {
            Some(range) => range,
            None => return Err(
                Error::InvalidRepository("invalid multi-pack-index: required chunk missing"),
            ),
        };
        let (offsets_start, offsets_end) = match find_chunk(data, offsets_id.as_slice()) {
            Some(range) => range,
            None => return Err(
                Error::InvalidRepository("invalid multi-pack-index: required chunk missing"),
            ),
        };
        let ids = &data[ids_start..ids_end];
        let offsets = &data[offsets_start..offsets_end];
        if ids.len() as u64 != 20 * (count as u64) || offsets.len() as u64 != 8 * (count as u64) {
            return Err(
                Error::InvalidRepository("invalid multi-pack-index: OIDL or OOFF has wrong size"),
            );
        }
        let (large_start, large_end) = match find_chunk(data, large_id.as_slice()) {
            Some(range) => range,
            None => (0, 0),
        };
        let large = &data[large_start..large_end];
        assert(chunk_of(data@, large_chunk()) is None ==> large@ =~= Seq::empty());
        if large.len() % 8 != 0 {
            return Err(Error::InvalidRepository("invalid multi-pack-index: LOFF has wrong size"));
        }
        read_locations(ids, offsets, large, packs, count as usize)
    }

    /// Parse and checksum a non-incremental MIDX v1 or v2.
    pub fn parse(data: &[u8], max_packs: usize, max_objects: usize) -> (r: Result<Self>)
        ensures
            match midx_from(data@, max_packs as int, max_objects as int) {
                Ok((names, list)) => r is Ok && r->Ok_0.names() == names && r->Ok_0.list() == list,
                Err(error) => r is Err && r->Err_0 == error,
            },
    {
        let (version, packs) = check_header(data, max_packs)?;
        let names_id: [u8; 4] = [80, 78, 65, 77];
        assert(names_id@ =~= names_chunk());
        let (start, end) = match find_chunk(data, names_id.as_slice()) {
            Some(range) => range,
            None => return Err(
                Error::InvalidRepository("invalid multi-pack-index: required chunk missing"),
            ),
        };
        let pack_names = parse_names(&data[start..end], version, packs)?;
        let entries = Self::parse_locations(data, packs, max_objects)?;
        Ok(MultiPackIndex { pack_names, entries })
    }

    pub fn pack_names(&self) -> (r: &[Vec<u8>])
        ensures
            bytes::deep(r@) == self.names(),
    {
        self.pack_names.as_slice()
    }

    pub fn entries(&self) -> (r: &[MultiPackIndexEntry])
        ensures
            locations(r@) == self.list(),
            pack::ascends(places(locations(r@))),
    {
        proof {
            use_type_invariant(self);
        }
        self.entries.as_slice()
    }

    pub fn len(&self) -> (r: usize)
        ensures
            r == self.list().len(),
    {
        self.entries.len()
    }

    pub fn is_empty(&self) -> (r: bool)
        ensures
            r == (self.list().len() == 0),
    {
        self.entries.len() == 0
    }

    /// Looks an object up.
    pub fn find(&self, id: ObjectId) -> (r: Option<MultiPackIndexEntry>)
        ensures
            match r {
                Some(entry) => entry@.id == id@ && self.list().contains(entry@),
                None => forall|k: int|
                    0 <= k < self.list().len() ==> (#[trigger] self.list()[k]).id != id@,
            },
    {
        proof {
            use_type_invariant(self);
        }
        let ghost list = places(self.list());
        let mut low: usize = 0;
        let mut high: usize = self.entries.len();
        while low < high
            invariant
                low <= high <= self.entries@.len(),
                list == places(locations(self.entries@)),
                list == places(self.list()),
                pack::ascends(list),
                forall|k: int| 0 <= k < low ==> bytes::lex_lt(#[trigger] list[k].id, id@),
                forall|k: int| high <= k < list.len() ==> bytes::lex_lt(id@, #[trigger] list[k].id),
            decreases high - low,
        {
            let middle: usize = low + (high - low) / 2;
            let entry = self.entries[middle];
            assert(list[middle as int].id == entry.id@);
            if entry.id.same(&id) {
                assert(self.list()[middle as int] == entry@);
                return Some(entry);
            }
            if entry.id.before(&id) {
                proof {
                    assert forall|k: int| 0 <= k < middle + 1 implies bytes::lex_lt(
                        #[trigger] list[k].id,
                        id@,
                    ) by {
                        if k < middle {
                            assert(pack::id_before(list[k], list[middle as int]));
                            bytes::lemma_lex_transitive(list[k].id, list[middle as int].id, id@);
                        }
                    }
                }
                low = middle + 1;
            } else {
                proof {
                    bytes::lemma_lex_total(entry.id@, id@);
                    assert forall|k: int| middle <= k < list.len() implies bytes::lex_lt(
                        id@,
                        #[trigger] list[k].id,
                    ) by {
                        if k > middle {
                            assert(pack::id_before(list[middle as int], list[k]));
                            bytes::lemma_lex_transitive(id@, list[middle as int].id, list[k].id);
                        }
                    }
                }
                high = middle;
            }
        }
        proof {
            assert forall|k: int| 0 <= k < self.list().len() implies (#[trigger] self.list()[k]).id
                != id@ by {
                assert(list[k].id == self.list()[k].id);
                bytes::lemma_lex_irreflexive(id@);
            }
        }
        None
    }

    /// The name of a pack.
    pub fn pack_name(&self, index: u32) -> (r: Option<&Vec<u8>>)
        ensures
            match r {
                Some(name) => index < self.names().len() && name@ == self.names()[index as int],
                None => index >= self.names().len(),
            },
    {
        if (index as u64) < self.pack_names.len() as u64 {
            Some(&self.pack_names[index as usize])
        } else {
            None
        }
    }
}

// ---------------------------------------------------------------------------
// Writing

pub open spec fn ended_names(names: Seq<Seq<u8>>) -> Seq<Seq<u8>> {
    Seq::new(names.len(), |i: int| names[i].push(0))
}

/// Pack names, each with a zero byte, filled up to a multiple of four bytes.
pub open spec fn name_bytes(names: Seq<Seq<u8>>) -> Seq<u8> {
    let all = bytes::flat(ended_names(names));
    all + Seq::new(((4 - all.len() % 4) % 4) as nat, |i: int| 0u8)
}

/// How many offsets do not fit in 31 bits.
pub open spec fn large_total(list: Seq<Location>) -> int {
    pack::large_offsets(places(list)).len() as int
}

/// How many chunks are written.
pub open spec fn chunks_for(list: Seq<Location>) -> int {
    if large_total(list) == 0 {
        4
    } else {
        5
    }
}

pub open spec fn chunk_name(list: Seq<Location>, i: int) -> Seq<u8> {
    if i == 0 {
        names_chunk()
    } else if i == 1 {
        fan_chunk()
    } else if i == 2 {
        ids_chunk()
    } else if i == 3 {
        offsets_chunk()
    } else if i == 4 && chunks_for(list) == 5 {
        large_chunk()
    } else {
        no_chunk()
    }
}

/// Where the chunk at a position begins.
pub open spec fn chunk_at(names: Seq<Seq<u8>>, list: Seq<Location>, i: int) -> int {
    let first = table_end(chunks_for(list));
    let fan = first + name_bytes(names).len();
    if i == 0 {
        first
    } else if i == 1 {
        fan
    } else if i == 2 {
        fan + 1024
    } else if i == 3 {
        fan + 1024 + 20 * list.len()
    } else if i == 4 {
        fan + 1024 + 28 * list.len()
    } else {
        fan + 1024 + 28 * list.len() + 8 * large_total(list)
    }
}

/// The rows of the chunk table.
pub open spec fn table_rows(names: Seq<Seq<u8>>, list: Seq<Location>) -> Seq<Seq<u8>> {
    Seq::new(
        (chunks_for(list) + 1) as nat,
        |i: int|
            chunk_name(list, i) + bytes::be_bytes(chunk_at(names, list, i) as nat, 8),
    )
}

/// For each object its pack and its offset.
pub open spec fn location_table(list: Seq<Location>) -> Seq<Seq<u8>> {
    Seq::new(
        list.len(),
        |k: int|
            bytes::be_bytes(list[k].pack as nat, 4) + bytes::be_bytes(
                pack::offset_entry(places(list), k),
                4,
            ),
    )
}

pub open spec fn midx_head(names: Seq<Seq<u8>>, list: Seq<Location>) -> Seq<u8> {
    midx_magic() + seq![1u8, 1u8, chunks_for(list) as u8, 0u8] + bytes::be_bytes(names.len(), 4)
}

/// The chunks one after the other.
pub open spec fn midx_chunks(names: Seq<Seq<u8>>, list: Seq<Location>) -> Seq<u8> {
    name_bytes(names) + bytes::flat(pack::fan_table(places(list))) + bytes::flat(
        pack::id_table(places(list)),
    ) + bytes::flat(location_table(list)) + bytes::flat(pack::large_table(places(list)))
}

/// A file without its checksum.
#[verifier::opaque]
pub open spec fn midx_body(names: Seq<Seq<u8>>, list: Seq<Location>) -> Seq<u8> {
    midx_head(names, list) + bytes::flat(table_rows(names, list)) + midx_chunks(names, list)
}

/// The file for pack names and locations.
pub open spec fn midx_bytes(names: Seq<Seq<u8>>, list: Seq<Location>) -> Seq<u8> {
    midx_body(names, list) + sha1::sha1(midx_body(names, list))
}

fn push_names(out: &mut Vec<u8>, names: &[Vec<u8>])
    requires
        old(out)@.len() % 4 == 0,
    ensures
        final(out)@ == old(out)@ + name_bytes(bytes::deep(names@)),
{
    let ghost all = bytes::deep(names@);
    let ghost parts = ended_names(all);
    let ghost start = out@;
    let mut i: usize = 0;
    assert(out@ =~= start + bytes::flat(parts.take(0)));
    while i < names.len()
        invariant
            i <= names@.len(),
            all == bytes::deep(names@),
            parts == ended_names(all),
            out@ == start + bytes::flat(parts.take(i as int)),
        decreases names@.len() - i,
    {
        bytes::append(out, names[i].as_slice());
        out.push(0);
        assert(parts.take(i + 1).drop_last() =~= parts.take(i as int));
        assert(parts.take(i + 1).last() == names@[i as int]@.push(0));
        assert(out@ =~= start + bytes::flat(parts.take(i + 1)));
        i += 1;
    }
    assert(parts.take(i as int) =~= parts);
    let ghost flat = bytes::flat(parts);
    let ghost mut filled: nat = 0;
    assert(out@ =~= start + flat + Seq::new(0, |i: int| 0u8));
    while out.len() % 4 != 0
        invariant
            start.len() % 4 == 0,
            filled <= (4 - flat.len() % 4) % 4,
            out@ == start + flat + Seq::new(filled, |i: int| 0u8),
        decreases 4 - filled,
    {
        out.push(0);
        proof {
            filled = filled + 1;
            assert(out@ =~= start + flat + Seq::new(filled, |i: int| 0u8));
        }
    }
    assert(out@ =~= start + name_bytes(all));
}

fn push_fan(out: &mut Vec<u8>, entries: &[MultiPackIndexEntry])
    requires
        entries@.len() <= u32::MAX,
    ensures
        final(out)@ == old(out)@ + bytes::flat(pack::fan_table(places(locations(entries@)))),
{
    let ghost list = places(locations(entries@));
    let ghost table = pack::fan_table(list);
    let ghost start = out@;
    let mut bucket: usize = 0;
    assert(out@ =~= start + bytes::flat(table.take(0)));
    while bucket < 256
        invariant
            bucket <= 256,
            entries@.len() <= u32::MAX,
            list == places(locations(entries@)),
            table == pack::fan_table(list),
            out@ == start + bytes::flat(table.take(bucket as int)),
        decreases 256 - bucket,
    {
        let mut count: u32 = 0;
        let mut n: usize = 0;
        while n < entries.len()
            invariant
                n <= entries@.len() <= u32::MAX,
                list == places(locations(entries@)),
                count == pack::rank(list, n as int, bucket as int),
                count <= n,
            decreases entries@.len() - n,
        {
            assert(list[n as int].id == entries@[n as int].id@);
            if entries[n].id.as_bytes()[0] as usize <= bucket {
                count += 1;
            }
            n += 1;
        }
        bytes::push_be32(out, count);
        assert(table.take(bucket + 1).drop_last() =~= table.take(bucket as int));
        assert(out@ =~= start + bytes::flat(table.take(bucket + 1)));
        bucket += 1;
    }
    assert(table.take(256) =~= table);
}

fn push_ids(out: &mut Vec<u8>, entries: &[MultiPackIndexEntry])
    ensures
        final(out)@ == old(out)@ + bytes::flat(pack::id_table(places(locations(entries@)))),
{
    let ghost table = pack::id_table(places(locations(entries@)));
    let ghost start = out@;
    let mut k: usize = 0;
    assert(out@ =~= start + bytes::flat(table.take(0)));
    while k < entries.len()
        invariant
            k <= entries@.len(),
            table == pack::id_table(places(locations(entries@))),
            out@ == start + bytes::flat(table.take(k as int)),
        decreases entries@.len() - k,
    {
        bytes::append(out, entries[k].id.as_bytes().as_slice());
        assert(table.take(k + 1).drop_last() =~= table.take(k as int));
        assert(out@ =~= start + bytes::flat(table.take(k + 1)));
        k += 1;
    }
    assert(table.take(k as int) =~= table);
}

fn push_locations(out: &mut Vec<u8>, entries: &[MultiPackIndexEntry]) -> (r: Vec<u64>)
    requires
        entries@.len() <= u32::MAX,
    ensures
        final(out)@ == old(out)@ + bytes::flat(location_table(locations(entries@))),
        r@ == pack::large_offsets(places(locations(entries@))),
{
    let ghost all = locations(entries@);
    let ghost list = places(all);
    let ghost table = location_table(all);
    let ghost start = out@;
    let mut large: Vec<u64> = Vec::new();
    let mut k: usize = 0;
    assert(out@ =~= start + bytes::flat(table.take(0)));
    assert(large@ =~= pack::large_offsets(list.take(0)));
    while k < entries.len()
        invariant
            k <= entries@.len() <= u32::MAX,
            all == locations(entries@),
            list == places(all),
            table == location_table(all),
            out@ == start + bytes::flat(table.take(k as int)),
            large@ == pack::large_offsets(list.take(k as int)),
            large@.len() <= k,
        decreases entries@.len() - k,
    {
        let entry = entries[k];
        assert(list.take(k + 1).drop_last() =~= list.take(k as int));
        bytes::push_be32(out, entry.pack_index);
        let ghost middle = out@;
        if entry.offset < 0x8000_0000 {
            bytes::push_be32(out, entry.offset as u32);
        } else {
            let position: u32 = large.len() as u32;
            bytes::push_be32(out, 0x8000_0000 + position % 0x8000_0000);
            large.push(entry.offset);
        }
        assert(out@ == middle + bytes::be_bytes(pack::offset_entry(list, k as int), 4));
        assert(table.take(k + 1).drop_last() =~= table.take(k as int));
        assert(out@ =~= start + bytes::flat(table.take(k + 1)));
        k += 1;
    }
    assert(table.take(k as int) =~= table);
    assert(list.take(k as int) =~= list);
    large
}

fn push_large(out: &mut Vec<u8>, large: &Vec<u64>, Ghost(list): Ghost<Seq<pack::PackRecord>>)
    requires
        large@ == pack::large_offsets(list),
    ensures
        final(out)@ == old(out)@ + bytes::flat(pack::large_table(list)),
{
    let ghost table = pack::large_table(list);
    let ghost start = out@;
    let mut k: usize = 0;
    assert(out@ =~= start + bytes::flat(table.take(0)));
    while k < large.len()
        invariant
            k <= large@.len(),
            large@ == pack::large_offsets(list),
            table == pack::large_table(list),
            out@ == start + bytes::flat(table.take(k as int)),
        decreases large@.len() - k,
    {
        bytes::push_be64(out, large[k]);
        assert(table.take(k + 1).drop_last() =~= table.take(k as int));
        assert(out@ =~= start + bytes::flat(table.take(k + 1)));
        k += 1;
    }
    assert(table.take(k as int) =~= table);
}

fn push_row(out: &mut Vec<u8>, id: [u8; 4], offset: usize)
    ensures
        final(out)@ == old(out)@ + (id@ + bytes::be_bytes(offset as nat, 8)),
{
    let ghost start = out@;
    bytes::append(out, id.as_slice());
    bytes::push_be64(out, offset as u64);
    assert(out@ =~= start + (id@ + bytes::be_bytes(offset as nat, 8)));
}

fn count_large(entries: &[MultiPackIndexEntry]) -> (r: usize)
    ensures
        r == large_total(locations(entries@)),
        r <= entries@.len(),
{
    let ghost list = places(locations(entries@));
    let mut large: usize = 0;
    let mut k: usize = 0;
    while k < entries.len()
        invariant
            k <= entries@.len(),
            large <= k,
            list == places(locations(entries@)),
            large == pack::large_offsets(list.take(k as int)).len(),
        decreases entries@.len() - k,
    {
        assert(list.take(k + 1).drop_last() =~= list.take(k as int));
        if entries[k].offset >= 0x8000_0000 {
            large += 1;
        }
        k += 1;
    }
    assert(list.take(k as int) =~= list);
    large
}

pub proof fn lemma_chunk_sizes(names: Seq<Seq<u8>>, list: Seq<Location>)
    requires
        pack::full_ids(places(list)),
    ensures
        bytes::flat(pack::fan_table(places(list))).len() == 1024,
        bytes::flat(pack::id_table(places(list))).len() == 20 * list.len(),
        bytes::flat(location_table(list)).len() == 8 * list.len(),
        bytes::flat(pack::large_table(places(list))).len() == 8 * large_total(list),
        bytes::flat(table_rows(names, list)).len() == 12 * (chunks_for(list) + 1),
        midx_head(names, list).len() == 12,
        forall|k: int| 0 <= k < list.len() ==> #[trigger] location_table(list)[k].len() == 8,
        forall|i: int|
            0 <= i < chunks_for(list) + 1 ==> #[trigger] table_rows(names, list)[i].len() == 12,
{
    let records = places(list);
    pack::lemma_table_widths(records);
    bytes::lemma_flat_fixed(pack::fan_table(records), 4);
    bytes::lemma_flat_fixed(pack::id_table(records), 20);
    bytes::lemma_flat_fixed(pack::large_table(records), 8);
    assert forall|k: int| 0 <= k < list.len() implies #[trigger] location_table(list)[k].len()
        == 8 by {
        bytes::lemma_be_bytes_len(list[k].pack as nat, 4);
        bytes::lemma_be_bytes_len(pack::offset_entry(records, k), 4);
    }
    bytes::lemma_flat_fixed(location_table(list), 8);
    assert forall|i: int| 0 <= i < chunks_for(list) + 1 implies #[trigger] table_rows(
        names,
        list,
    )[i].len() == 12 by {
        bytes::lemma_be_bytes_len(chunk_at(names, list, i) as nat, 8);
    }
    bytes::lemma_flat_fixed(table_rows(names, list), 12);
    bytes::lemma_be_bytes_len(names.len(), 4);
}

proof fn lemma_full_places(entries: Seq<MultiPackIndexEntry>)
    ensures
        pack::full_ids(places(locations(entries))),
{
    let list = places(locations(entries));
    assert forall|i: int| 0 <= i < list.len() implies (#[trigger] list[i]).id.len() == 20 by {
        ObjectId::lemma_view(entries[i].id, entries[i].id);
    }
}

/// Builds the chunks behind `header` bytes of filler, and tells where each
/// chunk begins.
fn build_chunks(names: &[Vec<u8>], entries: &[MultiPackIndexEntry], chunks: usize) -> (r: (
    Vec<u8>,
    [usize; 6],
))
    requires
        entries@.len() <= u32::MAX,
        chunks == chunks_for(locations(entries@)),
    ensures
        ({
            let all = bytes::deep(names@);
            let list = locations(entries@);
            let header = table_end(chunks as int);
            &&& r.0@.len() >= header
            &&& r.0@.skip(header) == midx_chunks(all, list)
            &&& forall|i: int| 0 <= i < 6 ==> #[trigger] r.1@[i] == chunk_at(all, list, i)
        }),
{
    let ghost all = bytes::deep(names@);
    let ghost list = locations(entries@);
    let header: usize = 12 + 12 * (chunks + 1);
    proof {
        lemma_full_places(entries@);
        lemma_chunk_sizes(all, list);
    }
    let mut body: Vec<u8> = Vec::new();
    let mut filled: usize = 0;
    while filled < header
        invariant
            filled <= header,
            body@.len() == filled,
        decreases header - filled,
    {
        body.push(0);
        filled += 1;
    }
    let ghost filler = body@;
    push_names(&mut body, names);
    let fan_at: usize = body.len();
    push_fan(&mut body, entries);
    let ids_at: usize = body.len();
    push_ids(&mut body, entries);
    let offsets_at: usize = body.len();
    let large = push_locations(&mut body, entries);
    let large_at: usize = body.len();
    push_large(&mut body, &large, Ghost(places(list)));
    let end_at: usize = body.len();
    assert(body@ =~= filler + midx_chunks(all, list));
    assert(body@.skip(header as int) =~= midx_chunks(all, list));
    (body, [header, fan_at, ids_at, offsets_at, large_at, end_at])
}

fn push_table(out: &mut Vec<u8>, chunks: usize, at: &[usize; 6], Ghost(all): Ghost<Seq<Seq<u8>>>,
    Ghost(list): Ghost<Seq<Location>>)
    requires
        chunks == chunks_for(list),
        forall|i: int| 0 <= i < 6 ==> #[trigger] at@[i] == chunk_at(all, list, i),
    ensures
        final(out)@ == old(out)@ + bytes::flat(table_rows(all, list)),
{
    let ghost start = out@;
    let ghost rows = table_rows(all, list);
    let names_id: [u8; 4] = [80, 78, 65, 77];
    let fan_id: [u8; 4] = [79, 73, 68, 70];
    let ids_id: [u8; 4] = [79, 73, 68, 76];
    let offsets_id: [u8; 4] = [79, 79, 70, 70];
    let large_id: [u8; 4] = [76, 79, 70, 70];
    let null_id: [u8; 4] = [0, 0, 0, 0];
    assert(names_id@ =~= names_chunk());
    assert(fan_id@ =~= fan_chunk());
    assert(ids_id@ =~= ids_chunk());
    assert(offsets_id@ =~= offsets_chunk());
    assert(large_id@ =~= large_chunk());
    assert(null_id@ =~= no_chunk());
    push_row(out, names_id, at[0]);
    assert(out@ == start + rows[0]);
    push_row(out, fan_id, at[1]);
    assert(out@ == start + rows[0] + rows[1]);
    push_row(out, ids_id, at[2]);
    assert(out@ == start + rows[0] + rows[1] + rows[2]);
    push_row(out, offsets_id, at[3]);
    assert(out@ == start + rows[0] + rows[1] + rows[2] + rows[3]);
    if chunks == 5 {
        push_row(out, large_id, at[4]);
        assert(out@ == start + rows[0] + rows[1] + rows[2] + rows[3] + rows[4]);
        push_row(out, null_id, at[5]);
        assert(out@ == start + rows[0] + rows[1] + rows[2] + rows[3] + rows[4] + rows[5]);
    } else {
        push_row(out, null_id, at[4]);
        assert(out@ == start + rows[0] + rows[1] + rows[2] + rows[3] + rows[4]);
    }
    proof {
        lemma_flat_rows(rows);
        assert(out@ =~= start + bytes::flat(rows));
    }
}

/// Writes pack names and locations.
pub fn encode(names: &[Vec<u8>], entries: &[MultiPackIndexEntry]) -> (r: Result<Vec<u8>>)
    requires
        entries@.len() <= u32::MAX,
    ensures
        if names@.len() > u32::MAX {
            r is Err && r->Err_0 == Error::InvalidRepository(
                "invalid multi-pack-index: pack count overflow",
            )
        } else {
            r is Ok && r->Ok_0@ == midx_bytes(bytes::deep(names@), locations(entries@))
        },
{
    let ghost all = bytes::deep(names@);
    let ghost list = locations(entries@);
    let large_count: usize = count_large(entries);
    let chunks: usize = if large_count == 0 {
        4
    } else {
        5
    };
    let header: usize = 12 + 12 * (chunks + 1);
    if names.len() as u64 > u32::MAX as u64 {
        return Err(Error::InvalidRepository("invalid multi-pack-index: pack count overflow"));
    }
    let (body, at) = build_chunks(names, entries, chunks);
    let mut out: Vec<u8> = Vec::new();
    out.push(77);
    out.push(73);
    out.push(68);
    out.push(88);
    out.push(1);
    out.push(1);
    out.push(chunks as u8);
    out.push(0);
    assert(out@ =~= midx_magic() + seq![1u8, 1u8, chunks_for(list) as u8, 0u8]);
    bytes::push_be32(&mut out, names.len() as u32);
    assert(out@ =~= midx_head(all, list));
    push_table(&mut out, chunks, &at, Ghost(all), Ghost(list));
    assert(body@.subrange(header as int, body@.len() as int) =~= body@.skip(header as int));
    bytes::append(&mut out, &body[header..body.len()]);
    assert(out@ =~= midx_body(all, list)) by {
        reveal(midx_body);
    }
    let sum = sha1::digest(out.as_slice());
    bytes::append(&mut out, sum.as_slice());
    Ok(out)
}

proof fn lemma_flat_rows(rows: Seq<Seq<u8>>)
    ensures
        rows.len() == 5 ==> bytes::flat(rows) == rows[0] + rows[1] + rows[2] + rows[3] + rows[4],
        rows.len() == 6 ==> bytes::flat(rows) == rows[0] + rows[1] + rows[2] + rows[3] + rows[4]
            + rows[5],
{
    reveal_with_fuel(bytes::flat, 7);
    if rows.len() == 5 || rows.len() == 6 {
        let n = rows.len() as int;
        assert(rows.drop_last() =~= rows.take(n - 1));
        assert(rows.drop_last().drop_last() =~= rows.take(n - 2));
        assert(rows.drop_last().drop_last().drop_last() =~= rows.take(n - 3));
        assert(bytes::flat(rows) =~= if n == 5 {
            rows[0] + rows[1] + rows[2] + rows[3] + rows[4]
        } else {
            rows[0] + rows[1] + rows[2] + rows[3] + rows[4] + rows[5]
        });
    }
}

// ---------------------------------------------------------------------------
// What is written is what is read

/// Whether pack names and locations can be written and read back.
pub open spec fn writable(names: Seq<Seq<u8>>, list: Seq<Location>) -> bool {
    &&& names.len() <= u32::MAX
    &&& list.len() <= u32::MAX
    &&& forall|i: int| 0 <= i < names.len() ==> #[trigger] pack_index_name(names[i])
    &&& forall|i: int| 0 < i < names.len() ==> #[trigger] follows(names, i)
    &&& pack::ascends(places(list))
    &&& pack::full_ids(places(list))
    &&& forall|k: int| 0 <= k < list.len() ==> (#[trigger] list[k]).pack < names.len()
    &&& large_total(list) <= 0x8000_0000
    &&& midx_bytes(names, list).len() <= usize::MAX
}

pub open spec fn follows(names: Seq<Seq<u8>>, i: int) -> bool {
    bytes::lex_lt(names[i - 1], names[i])
}

/// Where the parts of a file stand.
proof fn lemma_midx_parts(names: Seq<Seq<u8>>, list: Seq<Location>)
    requires
        pack::full_ids(places(list)),
    ensures
        ({
            let data = midx_bytes(names, list);
            let rows = bytes::flat(table_rows(names, list));
            let at = |i: int| chunk_at(names, list, i);
            &&& data.len() == chunk_at(names, list, 5) + 20
            &&& data.take(12) == midx_head(names, list)
            &&& data.subrange(12, 12 + rows.len() as int) == rows
            &&& data.subrange(at(0), at(1)) == name_bytes(names)
            &&& data.subrange(at(1), at(2)) == bytes::flat(pack::fan_table(places(list)))
            &&& data.subrange(at(2), at(3)) == bytes::flat(pack::id_table(places(list)))
            &&& data.subrange(at(3), at(4)) == bytes::flat(location_table(list))
            &&& data.subrange(at(4), at(5)) == bytes::flat(pack::large_table(places(list)))
            &&& data.skip(data.len() - 20) == sha1::sha1(data.take(data.len() - 20))
        }),
{
    let data = midx_bytes(names, list);
    let body = midx_body(names, list);
    let records = places(list);
    lemma_chunk_sizes(names, list);
    sha1::lemma_sha1_len(body);
    let p1 = midx_head(names, list);
    let p2 = p1 + bytes::flat(table_rows(names, list));
    let c1 = name_bytes(names);
    let c2 = c1 + bytes::flat(pack::fan_table(records));
    let c3 = c2 + bytes::flat(pack::id_table(records));
    let c4 = c3 + bytes::flat(location_table(list));
    let c5 = c4 + bytes::flat(pack::large_table(records));
    assert(body == p2 + c5) by {
        reveal(midx_body);
    }
    assert(data.subrange(0, data.len() as int) =~= data);
    bytes::lemma_parts(data, 0, body, sha1::sha1(body));
    bytes::lemma_parts(data, 0, p2, c5);
    bytes::lemma_parts(data, 0, p1, bytes::flat(table_rows(names, list)));
    let base = p2.len() as int;
    bytes::lemma_parts(data, base, c4, bytes::flat(pack::large_table(records)));
    bytes::lemma_parts(data, base, c3, bytes::flat(location_table(list)));
    bytes::lemma_parts(data, base, c2, bytes::flat(pack::id_table(records)));
    bytes::lemma_parts(data, base, c1, bytes::flat(pack::fan_table(records)));
    assert(data.take(12) =~= data.subrange(0, 12));
    assert(data.take(data.len() - 20) =~= body);
    assert(data.skip(data.len() - 20) =~= sha1::sha1(body));
}

proof fn lemma_head_read(names: Seq<Seq<u8>>, list: Seq<Location>)
    requires
        pack::full_ids(places(list)),
        names.len() <= u32::MAX,
    ensures
        ({
            let data = midx_bytes(names, list);
            &&& data.len() >= 92
            &&& data.take(4) == midx_magic()
            &&& data[4] == 1
            &&& data[5] == 1
            &&& data[6] == chunks_for(list)
            &&& data[7] == 0
            &&& pack::word_at(data, 8) == names.len()
        }),
{
    let data = midx_bytes(names, list);
    let head = midx_head(names, list);
    lemma_midx_parts(names, list);
    bytes::lemma_be_bytes_len(names.len(), 4);
    bytes::lemma_power256();
    bytes::lemma_be_of_bytes(names.len(), 4);
    assert(data.take(4) =~= head.take(4));
    assert(head.take(4) =~= midx_magic());
    assert(data.take(12)[4] == data[4] && data.take(12)[5] == data[5] && data.take(12)[6]
        == data[6] && data.take(12)[7] == data[7]);
    assert(data.subrange(8, 12) =~= head.subrange(8, 12));
    assert(head.subrange(8, 12) =~= bytes::be_bytes(names.len(), 4));
}

proof fn lemma_row_read(names: Seq<Seq<u8>>, list: Seq<Location>, i: int)
    requires
        pack::full_ids(places(list)),
        midx_bytes(names, list).len() <= usize::MAX,
        0 <= i <= chunks_for(list),
    ensures
        row_id(midx_bytes(names, list), i) == chunk_name(list, i),
        row_offset(midx_bytes(names, list), i) == chunk_at(names, list, i),
{
    let data = midx_bytes(names, list);
    let rows = table_rows(names, list);
    lemma_midx_parts(names, list);
    lemma_chunk_sizes(names, list);
    assert(rows[i].len() == 12);
    bytes::lemma_row(data, 12, rows, 12, i);
    let row = data.subrange(12 + 12 * i, 24 + 12 * i);
    let tail = bytes::be_bytes(chunk_at(names, list, i) as nat, 8);
    bytes::lemma_be_bytes_len(chunk_at(names, list, i) as nat, 8);
    assert(row == chunk_name(list, i) + tail);
    assert(row_id(data, i) =~= row.take(4));
    assert(row.take(4) =~= chunk_name(list, i));
    assert(data.subrange(16 + 12 * i, 24 + 12 * i) =~= row.skip(4));
    assert(row.skip(4) =~= tail);
    bytes::lemma_power256();
    bytes::lemma_be_of_bytes(chunk_at(names, list, i) as nat, 8);
}

proof fn lemma_chunk_names()
    ensures
        names_chunk() != no_chunk(),
        fan_chunk() != no_chunk(),
        ids_chunk() != no_chunk(),
        offsets_chunk() != no_chunk(),
        large_chunk() != no_chunk(),
        names_chunk() != fan_chunk(),
        names_chunk() != ids_chunk(),
        names_chunk() != offsets_chunk(),
        names_chunk() != large_chunk(),
        fan_chunk() != ids_chunk(),
        fan_chunk() != offsets_chunk(),
        fan_chunk() != large_chunk(),
        ids_chunk() != offsets_chunk(),
        ids_chunk() != large_chunk(),
        offsets_chunk() != large_chunk(),
{
    assert(no_chunk()[0] == 0);
    assert(names_chunk()[0] == 80);
    assert(fan_chunk()[0] == 79 && fan_chunk()[1] == 73 && fan_chunk()[3] == 70);
    assert(ids_chunk()[0] == 79 && ids_chunk()[1] == 73 && ids_chunk()[3] == 76);
    assert(offsets_chunk()[0] == 79 && offsets_chunk()[1] == 79);
    assert(large_chunk()[0] == 76);
}

proof fn lemma_rows_sound(names: Seq<Seq<u8>>, list: Seq<Location>, n: int)
    requires
        pack::full_ids(places(list)),
        names.len() <= u32::MAX,
        midx_bytes(names, list).len() <= usize::MAX,
        0 <= n <= chunks_for(list) + 1,
    ensures
        first_row_fault(midx_bytes(names, list), n) is None,
    decreases n,
{
    if n > 0 {
        let data = midx_bytes(names, list);
        let i = n - 1;
        lemma_rows_sound(names, list, i);
        assert(chunk_count(data) == chunks_for(list)) by {
            lemma_head_read(names, list);
        }
        assert(data.len() == chunk_at(names, list, 5) + 20) by {
            lemma_midx_parts(names, list);
        }
        lemma_row_read(names, list, i);
        if i > 0 {
            lemma_row_read(names, list, i - 1);
        }
        lemma_chunk_names();
        assert(i < chunks_for(list) ==> !row_taken(data, i, row_id(data, i))) by {
            assert forall|j: int| 0 <= j < i && i < chunks_for(list) implies #[trigger] row_id(
                data,
                j,
            ) != row_id(data, i) by {
                lemma_row_read(names, list, j);
            }
        }
        lemma_offset_multiples(names, list, i);
    }
}

proof fn lemma_rounded(n: int)
    requires
        n >= 0,
    ensures
        (4 - n % 4) % 4 >= 0,
        (n + (4 - n % 4) % 4) % 4 == 0,
{
}

proof fn lemma_sums_of_fours(first: int, padded: int, count: int, large: int)
    requires
        first % 4 == 0,
        padded % 4 == 0,
    ensures
        (first + padded) % 4 == 0,
        (first + padded + 1024) % 4 == 0,
        (first + padded + 1024 + 20 * count) % 4 == 0,
        (first + padded + 1024 + 28 * count) % 4 == 0,
        (first + padded + 1024 + 28 * count + 8 * large) % 4 == 0,
{
}

proof fn lemma_offset_multiples(names: Seq<Seq<u8>>, list: Seq<Location>, i: int)
    ensures
        chunk_at(names, list, i) % 4 == 0,
{
    let all = bytes::flat(ended_names(names));
    lemma_rounded(all.len() as int);
    let padded = name_bytes(names).len() as int;
    assert(padded == all.len() + (4 - all.len() % 4) % 4);
    lemma_sums_of_fours(
        table_end(chunks_for(list)),
        padded,
        list.len() as int,
        large_total(list),
    );
}

proof fn lemma_header_sound(names: Seq<Seq<u8>>, list: Seq<Location>, max_packs: int)
    requires
        writable(names, list),
        names.len() <= max_packs,
    ensures
        header_fault(midx_bytes(names, list), max_packs) is None,
{
    let data = midx_bytes(names, list);
    lemma_rows_sound(names, list, chunks_for(list) + 1);
    lemma_head_read(names, list);
    assert(data.len() == chunk_at(names, list, 5) + 20 && data.skip(data.len() - 20) == sha1::sha1(
        data.take(data.len() - 20),
    )) by {
        lemma_midx_parts(names, list);
    }
    reveal(header_fault);
}

proof fn lemma_chunk_read(names: Seq<Seq<u8>>, list: Seq<Location>, i: int)
    requires
        writable(names, list),
        0 <= i < chunks_for(list),
    ensures
        chunk_of(midx_bytes(names, list), chunk_name(list, i)) == Some(
            midx_bytes(names, list).subrange(
                chunk_at(names, list, i),
                chunk_at(names, list, i + 1),
            ),
        ),
{
    let data = midx_bytes(names, list);
    lemma_head_read(names, list);
    lemma_row_read(names, list, i);
    lemma_row_read(names, list, i + 1);
    lemma_row_search(names, list, i, 0);
}

proof fn lemma_row_search(names: Seq<Seq<u8>>, list: Seq<Location>, i: int, from: int)
    requires
        writable(names, list),
        0 <= from <= i < chunks_for(list),
    ensures
        row_of(midx_bytes(names, list), chunk_name(list, i), from) == Some(i),
    decreases i - from,
{
    lemma_head_read(names, list);
    lemma_row_read(names, list, from);
    lemma_chunk_names();
    if from < i {
        lemma_row_search(names, list, i, from + 1);
    }
}

proof fn lemma_no_large_row(names: Seq<Seq<u8>>, list: Seq<Location>, from: int)
    requires
        writable(names, list),
        chunks_for(list) == 4,
        0 <= from <= 4,
    ensures
        row_of(midx_bytes(names, list), large_chunk(), from) is None,
    decreases 4 - from,
{
    lemma_head_read(names, list);
    if from < 4 {
        lemma_row_read(names, list, from);
        lemma_chunk_names();
        lemma_no_large_row(names, list, from + 1);
    }
}

proof fn lemma_name_is_text(name: Seq<u8>)
    requires
        pack_index_name(name),
    ensures
        vstd::utf8::valid_utf8(name),
        forall|i: int| 0 <= i < name.len() ==> #[trigger] name[i] != 0,
{
    reveal_strlit("pack-");
    reveal_strlit(".idx");
    bytes::lemma_ascii("pack-"@);
    bytes::lemma_ascii(".idx"@);
    assert forall|i: int| 0 <= i < name.len() implies 0 < #[trigger] name[i] < 128 by {
        if i < 5 {
            assert(name.take(5)[i] == name[i]);
        } else if i < 45 {
            let digits = name.subrange(5, 45);
            assert(digits[i - 5] == name[i]);
            assert(object::hex_number(digits[i - 5]) is Some);
        } else {
            assert(name.skip(45)[i - 45] == name[i]);
        }
    }
    object::lemma_ascii_is_text(name);
}

proof fn lemma_names_read(names: Seq<Seq<u8>>, n: int)
    requires
        forall|i: int| 0 <= i < names.len() ==> #[trigger] pack_index_name(names[i]),
        forall|i: int| 0 < i < names.len() ==> #[trigger] follows(names, i),
        0 <= n <= names.len(),
    ensures
        names_from(
            name_bytes(names),
            1,
            bytes::start_of(ended_names(names), n),
            names.take(n),
            names.len() - n,
        ) == Ok::<(Seq<Seq<u8>>, int), Error>(
            (names, bytes::flat(ended_names(names)).len() as int),
        ),
    decreases names.len() - n,
{
    let data = name_bytes(names);
    let parts = ended_names(names);
    let all = bytes::flat(parts);
    if n == names.len() {
        assert(parts.take(n) =~= parts);
        assert(names.take(n) =~= names);
    } else {
        let cursor = bytes::start_of(parts, n);
        let name = names[n];
        assert(pack_index_name(name));
        bytes::lemma_flat_part(parts, n);
        lemma_name_is_text(name);
        let part = all.subrange(cursor, cursor + parts[n].len());
        assert(parts[n] == name.push(0));
        assert forall|j: int| 0 <= j < part.len() implies data[cursor + j] == #[trigger] part[j] by {
            assert(all[cursor + j] == part[j]);
        }
        let end = cursor + name.len();
        assert(data[end] == part[name.len() as int]);
        assert forall|j: int| cursor <= j < end implies data[j] != 0 by {
            assert(data[j] == part[j - cursor]);
            assert(part[j - cursor] == name[j - cursor]);
        }
        bytes::lemma_index_from_is(data, 0, cursor, end);
        assert(data.subrange(cursor, end) =~= name) by {
            assert forall|j: int| 0 <= j < name.len() implies data[cursor + j] == name[j] by {
                assert(data[cursor + j] == part[j]);
            }
        }
        if n > 0 {
            assert(follows(names, n));
            assert(names.take(n).last() == names[n - 1]);
        }
        assert(names.take(n).push(name) =~= names.take(n + 1));
        lemma_names_read(names, n + 1);
    }
}

proof fn lemma_pack_names_read(names: Seq<Seq<u8>>)
    requires
        forall|i: int| 0 <= i < names.len() ==> #[trigger] pack_index_name(names[i]),
        forall|i: int| 0 < i < names.len() ==> #[trigger] follows(names, i),
    ensures
        pack_names_of(name_bytes(names), 1, names.len() as int) == Ok::<Seq<Seq<u8>>, Error>(names),
{
    lemma_names_read(names, 0);
    assert(names.take(0) =~= Seq::empty());
    assert(ended_names(names).take(0) =~= Seq::empty());
}

proof fn lemma_fan_read(list: Seq<Location>, bucket: int)
    requires
        pack::full_ids(places(list)),
        list.len() <= u32::MAX,
        0 <= bucket < 256,
    ensures
        fan_word(bytes::flat(pack::fan_table(places(list))), bucket) == pack::rank(
            places(list),
            list.len() as int,
            bucket,
        ),
{
    let records = places(list);
    let table = pack::fan_table(records);
    let fan = bytes::flat(table);
    pack::lemma_table_widths(records);
    pack::lemma_rank_bounds(records, list.len() as int, bucket);
    assert(fan.subrange(0, fan.len() as int) =~= fan);
    pack::lemma_word_read(
        fan,
        0,
        table,
        bucket,
        pack::rank(records, list.len() as int, bucket) as nat,
    );
}

proof fn lemma_location_words(list: Seq<Location>, k: int)
    requires
        pack::full_ids(places(list)),
        0 <= k < list.len(),
    ensures
        pack::word_at(bytes::flat(location_table(list)), 8 * k) == list[k].pack,
        pack::word_at(bytes::flat(location_table(list)), 8 * k + 4) == pack::offset_entry(
            places(list),
            k,
        ),
        bytes::flat(pack::id_table(places(list))).subrange(20 * k, 20 * k + 20) == list[k].id,
{
    let records = places(list);
    let table = location_table(list);
    let all = bytes::flat(table);
    lemma_chunk_sizes(Seq::empty(), list);
    pack::lemma_table_widths(records);
    bytes::lemma_flat_fixed(table, 8);
    bytes::lemma_flat_fixed(pack::id_table(records), 20);
    assert(pack::id_table(records)[k] == list[k].id);
    let row = table[k];
    let a = bytes::be_bytes(list[k].pack as nat, 4);
    let b = bytes::be_bytes(pack::offset_entry(records, k), 4);
    bytes::lemma_be_bytes_len(list[k].pack as nat, 4);
    bytes::lemma_be_bytes_len(pack::offset_entry(records, k), 4);
    assert(row == a + b);
    assert(all.subrange(8 * k, 8 * k + 8) == row);
    assert(all.subrange(8 * k, 8 * k + 4) =~= row.take(4));
    assert(row.take(4) =~= a);
    assert(all.subrange(8 * k + 4, 8 * k + 8) =~= row.skip(4));
    assert(row.skip(4) =~= b);
    bytes::lemma_power256();
    bytes::lemma_be_of_bytes(list[k].pack as nat, 4);
    bytes::lemma_be_of_bytes(pack::offset_entry(records, k), 4);
}

proof fn lemma_location_read(list: Seq<Location>, packs: int, k: int)
    requires
        pack::full_ids(places(list)),
        pack::ascends(places(list)),
        large_total(list) <= 0x8000_0000,
        8 * large_total(list) <= usize::MAX,
        0 <= k < list.len(),
        list[k].pack < packs,
    ensures
        ({
            let ids = bytes::flat(pack::id_table(places(list)));
            let offsets = bytes::flat(location_table(list));
            let large = bytes::flat(pack::large_table(places(list)));
            &&& location_fault(ids, offsets, large, packs, k) is None
            &&& location_at(ids, offsets, large, k) == list[k]
        }),
{
    let records = places(list);
    let large = bytes::flat(pack::large_table(records));
    lemma_location_words(list, k);
    if k > 0 {
        lemma_location_words(list, k - 1);
        assert(pack::id_before(records[k - 1], records[k]));
    }
    if list[k].offset >= 0x8000_0000 {
        pack::lemma_large_offsets(records, k);
        let p = pack::large_offsets(records.take(k)).len() as int;
        assert(pack::offset_entry(records, k) == 0x8000_0000 + p);
        pack::lemma_table_widths(records);
        bytes::lemma_flat_fixed(pack::large_table(records), 8);
        assert(pack::large_table(records)[p] == bytes::be_bytes(list[k].offset as nat, 8));
        bytes::lemma_power256();
        bytes::lemma_be_of_bytes(list[k].offset as nat, 8);
    }
}

proof fn lemma_locations_sound(list: Seq<Location>, packs: int, n: int)
    requires
        pack::full_ids(places(list)),
        pack::ascends(places(list)),
        large_total(list) <= 0x8000_0000,
        8 * large_total(list) <= usize::MAX,
        0 <= n <= list.len(),
        forall|k: int| 0 <= k < list.len() ==> (#[trigger] list[k]).pack < packs,
    ensures
        first_location_fault(
            bytes::flat(pack::id_table(places(list))),
            bytes::flat(location_table(list)),
            bytes::flat(pack::large_table(places(list))),
            packs,
            n,
        ) is None,
    decreases n,
{
    if n > 0 {
        lemma_locations_sound(list, packs, n - 1);
        lemma_location_read(list, packs, n - 1);
    }
}

proof fn lemma_chunks_read(names: Seq<Seq<u8>>, list: Seq<Location>)
    requires
        writable(names, list),
    ensures
        ({
            let data = midx_bytes(names, list);
            let large = bytes::flat(pack::large_table(places(list)));
            &&& chunk_of(data, names_chunk()) == Some(name_bytes(names))
            &&& chunk_of(data, fan_chunk()) == Some(bytes::flat(pack::fan_table(places(list))))
            &&& chunk_of(data, ids_chunk()) == Some(bytes::flat(pack::id_table(places(list))))
            &&& chunk_of(data, offsets_chunk()) == Some(bytes::flat(location_table(list)))
            &&& match chunk_of(data, large_chunk()) {
                Some(chunk) => chunk == large,
                None => large.len() == 0,
            }
        }),
{
    lemma_chunk_read(names, list, 0);
    lemma_chunk_read(names, list, 1);
    lemma_chunk_read(names, list, 2);
    lemma_chunk_read(names, list, 3);
    lemma_midx_parts(names, list);
    if chunks_for(list) == 5 {
        lemma_chunk_read(names, list, 4);
    } else {
        lemma_no_large_row(names, list, 0);
        lemma_chunk_sizes(names, list);
    }
}

proof fn lemma_locations_read(names: Seq<Seq<u8>>, list: Seq<Location>, max_objects: int)
    requires
        writable(names, list),
        list.len() <= max_objects,
    ensures
        locations_from(midx_bytes(names, list), names.len() as int, max_objects) == Ok::<
            Seq<Location>,
            Error,
        >(list),
{
    let data = midx_bytes(names, list);
    let records = places(list);
    let fan = bytes::flat(pack::fan_table(records));
    let ids = bytes::flat(pack::id_table(records));
    let offsets = bytes::flat(location_table(list));
    let large = bytes::flat(pack::large_table(records));
    let n = list.len() as int;
    lemma_chunks_read(names, list);
    lemma_chunk_sizes(names, list);
    assert(data.len() == chunk_at(names, list, 5) + 20) by {
        lemma_midx_parts(names, list);
    }
    assert forall|bucket: int| 0 < bucket < 256 implies #[trigger] fan_steps_up(fan, bucket) by {
        lemma_fan_read(list, bucket);
        lemma_fan_read(list, bucket - 1);
        pack::lemma_rank_bounds(records, n, bucket);
    }
    lemma_fan_read(list, 255);
    pack::lemma_rank_bounds(records, n, 255);
    lemma_locations_sound(list, names.len() as int, n);
    assert(locations_of(ids, offsets, large, n) =~= list) by {
        assert forall|k: int| 0 <= k < n implies locations_of(ids, offsets, large, n)[k]
            == list[k] by {
            lemma_location_read(list, names.len() as int, k);
        }
    }
    assert(chunk_of(data, large_chunk()) is None ==> large =~= Seq::empty());
    reveal(locations_from);
}

/// Parsing a file that was written gives the pack names and the locations
/// that went into it.
pub proof fn lemma_midx_round_trip(
    names: Seq<Seq<u8>>,
    list: Seq<Location>,
    max_packs: int,
    max_objects: int,
)
    requires
        writable(names, list),
        names.len() <= max_packs,
        list.len() <= max_objects,
    ensures
        midx_from(midx_bytes(names, list), max_packs, max_objects) == Ok::<
            (Seq<Seq<u8>>, Seq<Location>),
            Error,
        >((names, list)),
{
    lemma_header_sound(names, list, max_packs);
    lemma_head_read(names, list);
    lemma_chunks_read(names, list);
    lemma_pack_names_read(names);
    lemma_locations_read(names, list, max_objects);
}

proof fn lemma_names_from(data: Seq<u8>, version: u8, cursor: int, done: Seq<Seq<u8>>, left: int)
    requires
        names_from(data, version, cursor, done, left) is Ok,
        left >= 0,
        version == 1 ==> crate::bytemap::ascending(done),
        forall|i: int| 0 <= i < done.len() ==> pack_index_name(#[trigger] done[i]),
    ensures
        ({
            let names = (names_from(data, version, cursor, done, left)->Ok_0).0;
            &&& names.len() == done.len() + left
            &&& version == 1 ==> crate::bytemap::ascending(names)
            &&& forall|i: int| 0 <= i < names.len() ==> pack_index_name(#[trigger] names[i])
        }),
    decreases left,
{
    if left > 0 {
        let end = bytes::index_from(data, 0, cursor);
        let name = data.subrange(cursor, end);
        let more = done.push(name);
        if version == 1 {
            assert forall|i: int, j: int| 0 <= i < j < more.len() implies #[trigger] bytes::lex_lt(
                more[i],
                more[j],
            ) by {
                if j == done.len() && i < done.len() - 1 {
                    bytes::lemma_lex_transitive(done[i], done.last(), name);
                }
            }
        }
        lemma_names_from(data, version, end + 1, more, left - 1);
    }
}

/// A file that is accepted keeps to the limits, names packs by their indexes,
/// in ascending order where its version asks for it, and locates each object
/// once, by a full identifier, in ascending order and in one of its packs.
pub proof fn lemma_parsed_midx(data: Seq<u8>, max_packs: int, max_objects: int)
    requires
        midx_from(data, max_packs, max_objects) is Ok,
    ensures
        ({
            let (names, list) = midx_from(data, max_packs, max_objects)->Ok_0;
            &&& names.len() <= max_packs
            &&& list.len() <= max_objects
            &&& data[4] == 1 ==> crate::bytemap::ascending(names)
            &&& forall|i: int| 0 <= i < names.len() ==> pack_index_name(#[trigger] names[i])
            &&& pack::ascends(places(list))
            &&& forall|k: int|
                0 <= k < list.len() ==> (#[trigger] list[k]).id.len() == 20 && list[k].pack
                    < names.len()
        }),
{
    reveal(locations_from);
    reveal(header_fault);
    let (names, list) = midx_from(data, max_packs, max_objects)->Ok_0;
    let packs = pack::word_at(data, 8);
    let chunk = chunk_of(data, names_chunk())->0;
    bytes::lemma_be_4(data.subrange(8, 12));
    lemma_names_from(chunk, data[4], 0, Seq::empty(), packs);
    let fan = chunk_of(data, fan_chunk())->0;
    let count = fan_word(fan, 255);
    let ids = chunk_of(data, ids_chunk())->0;
    let offsets = chunk_of(data, offsets_chunk())->0;
    let large = match chunk_of(data, large_chunk()) {
        Some(large) => large,
        None => Seq::empty(),
    };
    bytes::lemma_be_4(fan.subrange(1020, 1024));
    let found = places(list);
    assert forall|i: int, j: int| 0 <= i < j < found.len() implies #[trigger] pack::id_before(
        found[i],
        found[j],
    ) by {
        lemma_locations_ascend(ids, offsets, large, packs, count, i, j);
    }
    assert forall|k: int| 0 <= k < list.len() implies (#[trigger] list[k]).id.len() == 20
        && list[k].pack < names.len() by {
        lemma_location_sound(ids, offsets, large, packs, count, k);
        bytes::lemma_be_4(offsets.subrange(8 * k, 8 * k + 4));
    }
}

proof fn lemma_location_sound(
    ids: Seq<u8>,
    offsets: Seq<u8>,
    large: Seq<u8>,
    packs: int,
    count: int,
    k: int,
)
    requires
        first_location_fault(ids, offsets, large, packs, count) is None,
        0 <= k < count,
    ensures
        location_fault(ids, offsets, large, packs, k) is None,
    decreases count,
{
    if k < count - 1 {
        lemma_location_sound(ids, offsets, large, packs, count - 1, k);
    }
}

} // verus!
