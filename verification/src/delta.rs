//! Deltas between packed objects and the integers that packs use.

use vstd::prelude::*;

use crate::bytes;
use crate::index::shared_prefix;
use crate::{Error, Result};

verus! {

pub open spec fn two_to(n: nat) -> nat
    decreases n,
{
    if n == 0 {
        1
    } else {
        2 * two_to((n - 1) as nat)
    }
}

/// Seven bits at a time, least significant first; a set high bit says that
/// more follow.
pub open spec fn little(n: nat) -> Seq<u8>
    decreases n,
{
    if n < 128 {
        seq![n as u8]
    } else {
        seq![(128 + n % 128) as u8] + little(n / 128)
    }
}

/// Writes seven bits at a time.
pub fn encode_delta_varint(value: u64, output: &mut Vec<u8>)
    ensures
        final(output)@ == old(output)@ + little(value as nat),
{
    let mut left: u64 = value;
    let ghost before = output@;
    assert(before + little(left as nat) =~= output@ + little(left as nat));
    while left >= 128
        invariant
            before + little(value as nat) == output@ + little(left as nat),
        decreases left,
    {
        let ghost here = output@;
        output.push(128 + (left % 128) as u8);
        assert(here + little(left as nat) =~= output@ + little(left as nat / 128));
        left = left / 128;
    }
    output.push(left as u8);
    assert(output@ =~= before + little(value as nat));
}

/// Reads seven bits at a time from `cursor` on, where the bytes before gave
/// `value` and `shift` bits: the number and where it ends, or why it is
/// refused.
pub open spec fn little_from(data: Seq<u8>, cursor: int, value: int, shift: nat) -> core::result::Result<
    (int, int),
    Error,
>
    decreases data.len() - cursor,
{
    if cursor < 0 || cursor >= data.len() {
        Err(Error::InvalidObject("invalid pack: truncated delta"))
    } else {
        let byte = data[cursor] as int;
        let next = value + byte % 128 * two_to(shift) % 0x1_0000_0000_0000_0000;
        if byte < 128 {
            Ok((next, cursor + 1))
        } else if shift + 7 >= 64 {
            Err(Error::InvalidObject("invalid pack: delta varint overflow"))
        } else {
            little_from(data, cursor + 1, next, shift + 7)
        }
    }
}

pub proof fn lemma_two_to(n: nat)
    ensures
        two_to(n) > 0,
        two_to(n + 7) == 128 * two_to(n),
        n <= 63 ==> two_to(n) <= 0x8000_0000_0000_0000,
        n <= 56 ==> two_to(n) <= 0x100_0000_0000_0000,
{
    reveal_with_fuel(two_to, 8);
    lemma_two_to_values();
    lemma_two_to_positive(n);
    if n < 56 {
        lemma_two_to_monotone(n, 56);
    }
    if n < 63 {
        lemma_two_to_monotone(n, 63);
    }
}

proof fn lemma_two_to_positive(n: nat)
    ensures
        two_to(n) > 0,
    decreases n,
{
    if n > 0 {
        lemma_two_to_positive((n - 1) as nat);
    }
}

proof fn lemma_two_to_monotone(a: nat, b: nat)
    requires
        a <= b,
    ensures
        two_to(a) <= two_to(b),
    decreases b,
{
    if a < b {
        lemma_two_to_monotone(a, (b - 1) as nat);
        lemma_two_to_positive((b - 1) as nat);
    }
}

proof fn lemma_two_to_values()
    ensures
        two_to(56) == 0x100_0000_0000_0000,
        two_to(57) == 0x200_0000_0000_0000,
        two_to(63) == 0x8000_0000_0000_0000,
{
    reveal_with_fuel(two_to, 9);
    assert(two_to(8) == 256);
    assert(two_to(16) == 256 * two_to(8));
    assert(two_to(24) == 256 * two_to(16));
    assert(two_to(32) == 256 * two_to(24));
    assert(two_to(40) == 256 * two_to(32));
    assert(two_to(48) == 256 * two_to(40));
    assert(two_to(56) == 256 * two_to(48));
    assert(two_to(57) == 2 * two_to(56));
    assert(two_to(63) == 64 * two_to(57));
}

/// Where seven more bits still fit, the shift stays below 64.
proof fn lemma_shift_bound(shift: nat)
    requires
        shift <= 63,
        128 * two_to(shift) < 0x1_0000_0000_0000_0000,
    ensures
        shift + 7 <= 63,
{
    if shift >= 57 {
        lemma_two_to_values();
        lemma_two_to_monotone(57, shift);
    }
}

/// A number that was written seven bits at a time is what is read back.
pub proof fn lemma_little_round_trip(n: nat, data: Seq<u8>, cursor: int, value: int, shift: nat)
    requires
        0 <= cursor,
        cursor + little(n).len() <= data.len(),
        data.subrange(cursor, cursor + little(n).len()) == little(n),
        shift <= 63,
        n * two_to(shift) < 0x1_0000_0000_0000_0000,
    ensures
        little_from(data, cursor, value, shift) == Ok::<(int, int), Error>(
            (value + n * two_to(shift), cursor + little(n).len()),
        ),
    decreases n,
{
    let p = two_to(shift);
    lemma_two_to(shift);
    let part = data.subrange(cursor, cursor + little(n).len());
    assert(part[0] == data[cursor]);
    if n >= 128 {
        let low = (n % 128) as int;
        let high = n / 128;
        assert(data[cursor] == 128 + low);
        assert(little(n) == seq![(128 + low) as u8] + little(high));
        assert(n * p == low * p + high * (128 * p)) by (nonlinear_arith)
            requires
                n == low + 128 * high,
        ;
        assert(low * p >= 0 && high * (128 * p) >= 0 && high * (128 * p) >= 128 * p) by (nonlinear_arith)
            requires
                low >= 0,
                high >= 1,
                p > 0,
        ;
        assert(low * p % 0x1_0000_0000_0000_0000 == low * p) by {
            assert(low * p < 0x1_0000_0000_0000_0000);
        }
        lemma_shift_bound(shift);
        assert(data.subrange(cursor + 1, cursor + 1 + little(high).len()) =~= part.skip(1));
        assert(part.skip(1) =~= little(high));
        assert(two_to(shift + 7) == 128 * p);
        lemma_little_round_trip(high, data, cursor + 1, value + low * p, shift + 7);
    } else {
        assert(data[cursor] == n);
        assert(n % 128 == n);
        assert(n as int * p % 0x1_0000_0000_0000_0000 == n * p);
    }
}

proof fn lemma_double(start: int, i: nat)
    ensures
        start * two_to(i + 1) % 0x1_0000_0000_0000_0000 == (start * two_to(i)
            % 0x1_0000_0000_0000_0000) * 2 % 0x1_0000_0000_0000_0000,
{
    let p = two_to(i) as int;
    let m = 0x1_0000_0000_0000_0000int;
    let x = start * p;
    assert(start * (2 * p) == 2 * x) by (nonlinear_arith)
        requires
            x == start * p,
    ;
    vstd::arithmetic::div_mod::lemma_mul_mod_noop_right(2, x, m);
}

fn shifted(byte: u8, shift: u32) -> (r: u64)
    requires
        shift < 64,
    ensures
        r == byte as int % 128 * two_to(shift as nat) % 0x1_0000_0000_0000_0000,
{
    let mut value: u64 = (byte % 128) as u64;
    let mut i: u32 = 0;
    let ghost start = value as int;
    assert(two_to(0) == 1);
    assert(start * 1 == start);
    while i < shift
        invariant
            i <= shift,
            value == start * two_to(i as nat) % 0x1_0000_0000_0000_0000,
        decreases shift - i,
    {
        proof {
            lemma_double(start, i as nat);
        }
        value = ((value as u128) * 2 % 0x1_0000_0000_0000_0000) as u64;
        i += 1;
    }
    value
}

/// Reads a number that is written seven bits at a time.
fn delta_varint(data: &[u8], from: usize) -> (r: Result<(u64, usize)>)
    requires
        from <= data@.len(),
    ensures
        match little_from(data@, from as int, 0, 0) {
            Ok((value, end)) => r is Ok && r->Ok_0.0 == value && r->Ok_0.1 == end && end
                <= data@.len(),
            Err(error) => r is Err && r->Err_0 == error,
        },
{
    let mut value: u64 = 0;
    let mut shift: u32 = 0;
    let mut cursor: usize = from;
    while cursor < data.len()
        invariant
            from <= cursor <= data@.len(),
            shift <= 63,
            shift % 7 == 0,
            value < two_to(shift as nat),
            little_from(data@, from as int, 0, 0) == little_from(
                data@,
                cursor as int,
                value as int,
                shift as nat,
            ),
        decreases data@.len() - cursor,
    {
        let byte: u8 = data[cursor];
        let part: u64 = shifted(byte, shift);
        proof {
            lemma_two_to(shift as nat);
            lemma_part_fits(byte as int % 128, shift as nat, value as int);
        }
        value = value + part;
        cursor += 1;
        if byte < 128 {
            return Ok((value, cursor));
        }
        shift = shift + 7;
        if shift >= 64 {
            return Err(Error::InvalidObject("invalid pack: delta varint overflow"));
        }
    }
    Err(Error::InvalidObject("invalid pack: truncated delta"))
}

/// Seven bits above the bits read so far do not overflow.
proof fn lemma_part_fits(low: int, shift: nat, value: int)
    requires
        0 <= low < 128,
        shift <= 63,
        shift % 7 == 0,
        0 <= value < two_to(shift),
    ensures
        value + low * two_to(shift) % 0x1_0000_0000_0000_0000 < 0x1_0000_0000_0000_0000,
        shift + 7 < 64 ==> value + low * two_to(shift) % 0x1_0000_0000_0000_0000 < two_to(
            shift + 7,
        ),
{
    let p = two_to(shift) as int;
    let m = 0x1_0000_0000_0000_0000int;
    lemma_two_to(shift);
    assert(0 <= low * p <= 127 * p) by (nonlinear_arith)
        requires
            0 <= low < 128,
            p > 0,
    ;
    if shift == 63 {
        lemma_two_to_values();
        assert(low * p % m == 0 || low * p % m == 0x8000_0000_0000_0000) by {
            assert(low * 0x8000_0000_0000_0000 % m == (low % 2) * 0x8000_0000_0000_0000);
        }
    } else {
        assert(shift <= 56);
        assert(low * p % m == low * p);
    }
}

// ---------------------------------------------------------------------------
// Object headers

/// The type and the size in front of a packed object: four bits of the size
/// beside the type, the rest seven bits at a time.
pub open spec fn object_header(object_type: nat, size: nat) -> Seq<u8> {
    if size < 16 {
        seq![(object_type * 16 + size) as u8]
    } else {
        seq![(128 + object_type * 16 + size % 16) as u8] + little(size / 16)
    }
}

pub fn encode_object_header(object_type: u8, size: u64) -> (r: Vec<u8>)
    requires
        object_type < 8,
    ensures
        r@ == object_header(object_type as nat, size as nat),
{
    let mut out: Vec<u8> = Vec::new();
    if size < 16 {
        out.push(object_type * 16 + size as u8);
    } else {
        out.push(128 + object_type * 16 + (size % 16) as u8);
        encode_delta_varint(size / 16, &mut out);
    }
    assert(out@ =~= object_header(object_type as nat, size as nat));
    out
}

/// Reads the rest of a size from `cursor` on.
pub open spec fn size_from(data: Seq<u8>, cursor: int, size: int, shift: nat) -> core::result::Result<
    (int, int),
    Error,
>
    decreases data.len() - cursor,
{
    if cursor < 0 || cursor >= data.len() {
        Err(Error::InvalidObject("invalid pack: truncated object header"))
    } else {
        let byte = data[cursor] as int;
        let next = size + byte % 128 * two_to(shift) % 0x1_0000_0000_0000_0000;
        if shift >= 64 || next >= 0x1_0000_0000_0000_0000 {
            Err(Error::InvalidObject("invalid pack: object size overflow"))
        } else if byte < 128 {
            Ok((next, cursor + 1))
        } else {
            size_from(data, cursor + 1, next, shift + 7)
        }
    }
}

/// The type, the size and the length of the header at the start of a packed
/// object, or why it is refused.
pub open spec fn header_from(data: Seq<u8>) -> core::result::Result<(int, int, int), Error> {
    if data.len() == 0 {
        Err(Error::InvalidObject("invalid pack: missing object header"))
    } else {
        let byte = data[0] as int;
        if byte < 128 {
            Ok((byte / 16 % 8, byte % 16, 1))
        } else {
            match size_from(data, 1, byte % 16, 4) {
                Ok((size, end)) => Ok((byte / 16 % 8, size, end)),
                Err(error) => Err(error),
            }
        }
    }
}

proof fn lemma_size_round_trip(n: nat, data: Seq<u8>, cursor: int, size: int, shift: nat)
    requires
        0 <= cursor,
        0 <= size,
        cursor + little(n).len() <= data.len(),
        data.subrange(cursor, cursor + little(n).len()) == little(n),
        shift <= 63,
        size + n * two_to(shift) < 0x1_0000_0000_0000_0000,
    ensures
        size_from(data, cursor, size, shift) == Ok::<(int, int), Error>(
            (size + n * two_to(shift), cursor + little(n).len()),
        ),
    decreases n,
{
    let p = two_to(shift);
    lemma_two_to(shift);
    let part = data.subrange(cursor, cursor + little(n).len());
    assert(part[0] == data[cursor]);
    assert(n * p >= 0) by (nonlinear_arith);
    if n >= 128 {
        let low = (n % 128) as int;
        let high = n / 128;
        assert(data[cursor] == 128 + low);
        assert(n * p == low * p + high * (128 * p)) by (nonlinear_arith)
            requires
                n == low + 128 * high,
        ;
        assert(low * p >= 0 && high * (128 * p) >= 128 * p) by (nonlinear_arith)
            requires
                low >= 0,
                high >= 1,
                p > 0,
        ;
        lemma_shift_bound(shift);
        assert(data.subrange(cursor + 1, cursor + 1 + little(high).len()) =~= part.skip(1));
        assert(part.skip(1) =~= little(high));
        lemma_size_round_trip(high, data, cursor + 1, size + low * p, shift + 7);
    } else {
        assert(data[cursor] == n);
        assert(n as int * p % 0x1_0000_0000_0000_0000 == n * p);
    }
}

/// A header that was written is what is read back, whatever follows it.
pub proof fn lemma_header_round_trip(object_type: nat, size: u64, rest: Seq<u8>)
    requires
        object_type < 8,
    ensures
        header_from(object_header(object_type, size as nat) + rest) == Ok::<(int, int, int), Error>(
            (
                object_type as int,
                size as int,
                object_header(object_type, size as nat).len() as int,
            ),
        ),
{
    let header = object_header(object_type, size as nat);
    let data = header + rest;
    let n = size as nat / 16;
    assert(data[0] == header[0]);
    if size >= 16 {
        assert(data.subrange(1, 1 + little(n).len() as int) =~= little(n));
        assert(two_to(4) == 16) by {
            reveal_with_fuel(two_to, 5);
        }
        lemma_size_round_trip(n, data, 1, size as int % 16, 4);
    }
}

/// Reads the header at the start of a packed object.
pub fn parse_object_header(data: &[u8]) -> (r: Result<(u8, u64, usize)>)
    ensures
        match header_from(data@) {
            Ok((object_type, size, end)) => r is Ok && r->Ok_0.0 == object_type && r->Ok_0.1
                == size && r->Ok_0.2 == end && end <= data@.len() && object_type < 8,
            Err(error) => r is Err && r->Err_0 == error,
        },
{
    if data.len() == 0 {
        return Err(Error::InvalidObject("invalid pack: missing object header"));
    }
    let first: u8 = data[0];
    let object_type: u8 = first / 16 % 8;
    let mut size: u64 = (first % 16) as u64;
    if first < 128 {
        return Ok((object_type, size, 1));
    }
    let mut shift: u32 = 4;
    let mut cursor: usize = 1;
    while cursor < data.len()
        invariant
            1 <= cursor <= data@.len(),
            4 <= shift <= 70,
            data@[0] == first,
            first >= 128,
            object_type == first / 16 % 8,
            size_from(data@, 1, first as int % 16, 4) == size_from(
                data@,
                cursor as int,
                size as int,
                shift as nat,
            ),
        decreases data@.len() - cursor,
    {
        let byte: u8 = data[cursor];
        if shift >= 64 {
            return Err(Error::InvalidObject("invalid pack: object size overflow"));
        }
        let part: u64 = shifted(byte, shift);
        size = match size.checked_add(part) {
            Some(size) => size,
            None => return Err(Error::InvalidObject("invalid pack: object size overflow")),
        };
        cursor += 1;
        if byte < 128 {
            return Ok((object_type, size, cursor));
        }
        shift = shift + 7;
    }
    Err(Error::InvalidObject("invalid pack: truncated object header"))
}

// ---------------------------------------------------------------------------
// Distances to a base

/// Reads a distance from `cursor` on, where the bytes before gave `value`.
pub open spec fn distance_rest(data: Seq<u8>, cursor: int, value: int) -> core::result::Result<
    (int, int),
    Error,
>
    decreases data.len() - cursor,
{
    if cursor < 0 || cursor >= data.len() {
        Err(Error::InvalidObject("invalid pack: truncated OFS_DELTA base"))
    } else if value == u64::MAX {
        Err(Error::InvalidObject("invalid pack: OFS_DELTA distance overflow"))
    } else {
        let byte = data[cursor] as int;
        let next = (value + 1) * 128 % 0x1_0000_0000_0000_0000 + byte % 128;
        if byte < 128 {
            Ok((next, cursor + 1))
        } else {
            distance_rest(data, cursor + 1, next)
        }
    }
}

/// The distance at `cursor` and where it ends, or why it is refused.
pub open spec fn distance_from(data: Seq<u8>, cursor: int) -> core::result::Result<
    (int, int),
    Error,
> {
    if cursor >= data.len() {
        Err(Error::InvalidObject("invalid pack: missing OFS_DELTA base"))
    } else if data[cursor] < 128 {
        Ok((data[cursor] as int, cursor + 1))
    } else {
        distance_rest(data, cursor + 1, data[cursor] as int % 128)
    }
}

proof fn lemma_distance_head(n: nat, data: Seq<u8>, cursor: int)
    requires
        0 <= cursor,
        0 < n <= 0x200_0000_0000_0000,
        cursor + crate::index::varint_head(n).len() < data.len(),
        data.subrange(cursor, cursor + crate::index::varint_head(n).len())
            == crate::index::varint_head(n),
    ensures
        distance_from(data, cursor) == distance_rest(
            data,
            cursor + crate::index::varint_head(n).len(),
            n - 1,
        ),
        crate::index::varint_head(n).len() > 0,
    decreases n,
{
    let head = crate::index::varint_head(n);
    let m = ((n - 1) / 128) as nat;
    let front = crate::index::varint_head(m);
    let b = (128 + (n - 1) % 128) as u8;
    assert(head == front.push(b));
    let part = data.subrange(cursor, cursor + head.len());
    assert(part[front.len() as int] == data[cursor + front.len()]);
    if m > 0 {
        assert(data.subrange(cursor, cursor + front.len()) =~= part.take(front.len() as int));
        assert(part.take(front.len() as int) =~= front);
        lemma_distance_head(m, data, cursor);
        assert(m * 128 % 0x1_0000_0000_0000_0000 == m * 128);
        assert(m * 128 + (n - 1) % 128 == n - 1);
    }
}

/// A distance that was written is what is read back.
pub proof fn lemma_distance_round_trip(distance: u64, data: Seq<u8>, cursor: int)
    requires
        0 <= cursor,
        cursor + crate::index::varint(distance as nat).len() <= data.len(),
        data.subrange(cursor, cursor + crate::index::varint(distance as nat).len())
            == crate::index::varint(distance as nat),
    ensures
        distance_from(data, cursor) == Ok::<(int, int), Error>(
            (distance as int, cursor + crate::index::varint(distance as nat).len()),
        ),
{
    let n = distance as nat / 128;
    let head = crate::index::varint_head(n);
    let all = crate::index::varint(distance as nat);
    let part = data.subrange(cursor, cursor + all.len());
    assert(all == head.push((distance % 128) as u8));
    assert(part[head.len() as int] == data[cursor + head.len()]);
    if n > 0 {
        assert(data.subrange(cursor, cursor + head.len()) =~= part.take(head.len() as int));
        assert(part.take(head.len() as int) =~= head);
        lemma_distance_head(n, data, cursor);
        assert(n * 128 % 0x1_0000_0000_0000_0000 == n * 128);
    }
}

/// Writes the distance to a base.
pub fn encode_ofs_distance(distance: u64) -> (r: Vec<u8>)
    ensures
        r@ == crate::index::varint(distance as nat),
{
    let mut out: Vec<u8> = Vec::new();
    crate::index::encode_varint(distance, &mut out);
    assert(out@ =~= crate::index::varint(distance as nat));
    out
}

/// Reads the distance to a base.
pub fn parse_ofs_distance(data: &[u8], from: usize) -> (r: Result<(u64, usize)>)
    requires
        from <= data@.len(),
    ensures
        match distance_from(data@, from as int) {
            Ok((distance, end)) => r is Ok && r->Ok_0.0 == distance && r->Ok_0.1 == end && end
                <= data@.len(),
            Err(error) => r is Err && r->Err_0 == error,
        },
{
    if from >= data.len() {
        return Err(Error::InvalidObject("invalid pack: missing OFS_DELTA base"));
    }
    let first: u8 = data[from];
    let mut distance: u64 = (first % 128) as u64;
    let mut cursor: usize = from + 1;
    if first < 128 {
        return Ok((distance, cursor));
    }
    while cursor < data.len()
        invariant
            cursor <= data@.len(),
            distance_from(data@, from as int) == distance_rest(
                data@,
                cursor as int,
                distance as int,
            ),
        decreases data@.len() - cursor,
    {
        let byte: u8 = data[cursor];
        cursor += 1;
        if distance == u64::MAX {
            return Err(Error::InvalidObject("invalid pack: OFS_DELTA distance overflow"));
        }
        let moved: u64 = ((distance as u128 + 1) * 128 % 0x1_0000_0000_0000_0000) as u64;
        assert(moved % 128 == 0);
        distance = moved + (byte % 128) as u64;
        if byte < 128 {
            return Ok((distance, cursor));
        }
    }
    Err(Error::InvalidObject("invalid pack: truncated OFS_DELTA base"))
}

// ---------------------------------------------------------------------------
// Applying a delta

/// Whether the bit of a weight is set, as a number.
#[verifier::opaque]
pub open spec fn bit_of(opcode: int, weight: int) -> int {
    opcode / weight % 2
}

proof fn lemma_bit(opcode: int, weight: int)
    requires
        weight > 0,
    ensures
        bit_of(opcode, weight) == 0 || bit_of(opcode, weight) == 1,
{
    reveal(bit_of);
}

fn bit(opcode: u8, weight: u8) -> (r: usize)
    requires
        weight > 0,
    ensures
        r == bit_of(opcode as int, weight as int),
        r <= 1,
{
    reveal(bit_of);
    (opcode / weight % 2) as usize
}

/// Reads a byte that is there only if its bit is set.
fn optional_byte(delta: &[u8], at: usize, present: usize) -> (r: u64)
    requires
        present == 1 ==> at < delta@.len(),
    ensures
        r == optional(delta@, at as int, present as int),
        r <= 255,
{
    if present == 1 {
        delta[at] as u64
    } else {
        0
    }
}

/// A byte that is there only if its bit is set.
pub open spec fn optional(delta: Seq<u8>, at: int, present: int) -> int {
    if present == 1 {
        delta[at] as int
    } else {
        0
    }
}

/// How many bytes follow the opcode of a copy.
pub open spec fn copy_width(opcode: int) -> int {
    bit_of(opcode, 1) + bit_of(opcode, 2) + bit_of(opcode, 4) + bit_of(opcode, 8) + bit_of(
        opcode,
        16,
    ) + bit_of(opcode, 32) + bit_of(opcode, 64)
}

/// Where a copy begins in the base.
pub open spec fn copy_offset(delta: Seq<u8>, opcode: int, at: int) -> int {
    let a1 = at + bit_of(opcode, 1);
    let a2 = a1 + bit_of(opcode, 2);
    let a3 = a2 + bit_of(opcode, 4);
    optional(delta, at, bit_of(opcode, 1)) + optional(delta, a1, bit_of(opcode, 2)) * 0x100
        + optional(delta, a2, bit_of(opcode, 4)) * 0x1_0000 + optional(
        delta,
        a3,
        bit_of(opcode, 8),
    ) * 0x100_0000
}

/// The size field of a copy.
pub open spec fn copy_size(delta: Seq<u8>, opcode: int, at: int) -> int {
    let a4 = at + bit_of(opcode, 1) + bit_of(opcode, 2) + bit_of(opcode, 4) + bit_of(opcode, 8);
    let a5 = a4 + bit_of(opcode, 16);
    let a6 = a5 + bit_of(opcode, 32);
    optional(delta, a4, bit_of(opcode, 16)) + optional(delta, a5, bit_of(opcode, 32)) * 0x100
        + optional(delta, a6, bit_of(opcode, 64)) * 0x1_0000
}

/// What is built by the instructions from `cursor` on after `output` was
/// built, or why they are refused.
pub open spec fn built_from(
    base: Seq<u8>,
    delta: Seq<u8>,
    cursor: int,
    output: Seq<u8>,
    capacity: int,
) -> core::result::Result<Seq<u8>, Error>
    decreases delta.len() - cursor,
{
    if cursor < 0 || cursor >= delta.len() {
        if output.len() != capacity {
            Err(Error::InvalidObject("invalid pack: delta output size mismatch"))
        } else {
            Ok(output)
        }
    } else {
        let opcode = delta[cursor] as int;
        let at = cursor + 1;
        if opcode >= 128 {
            let offset = copy_offset(delta, opcode, at);
            let field = copy_size(delta, opcode, at);
            let size = if field == 0 {
                0x1_0000
            } else {
                field
            };
            if at + copy_width(opcode) > delta.len() {
                Err(Error::InvalidObject("invalid pack: truncated delta"))
            } else if offset + size > usize::MAX {
                Err(Error::InvalidObject("invalid pack: delta copy overflow"))
            } else if offset + size > base.len() {
                Err(Error::InvalidObject("invalid pack: delta copy outside base"))
            } else if output.len() + size > capacity {
                Err(Error::InvalidObject("invalid pack: delta output exceeds declared size"))
            } else {
                proof {
                    lemma_copy_width(opcode);
                }
                built_from(
                    base,
                    delta,
                    at + copy_width(opcode),
                    output + base.subrange(offset, offset + size),
                    capacity,
                )
            }
        } else if opcode == 0 {
            Err(Error::InvalidObject("invalid pack: reserved delta opcode zero"))
        } else if at + opcode > delta.len() {
            Err(Error::InvalidObject("invalid pack: truncated delta insert"))
        } else if output.len() + opcode > capacity {
            Err(Error::InvalidObject("invalid pack: delta output exceeds declared size"))
        } else {
            built_from(
                base,
                delta,
                at + opcode,
                output + delta.subrange(at, at + opcode),
                capacity,
            )
        }
    }
}

/// What a delta makes of its base, or why it is refused.
pub open spec fn applied(base: Seq<u8>, delta: Seq<u8>, limit: nat) -> core::result::Result<
    Seq<u8>,
    Error,
> {
    match little_from(delta, 0, 0, 0) {
        Err(error) => Err(error),
        Ok((base_size, at)) => if base_size != base.len() {
            Err(Error::InvalidObject("invalid pack: delta base size mismatch"))
        } else {
            match little_from(delta, at, 0, 0) {
                Err(error) => Err(error),
                Ok((size, start)) => if size > limit {
                    Err(Error::ObjectTooLarge { declared: size as u64, limit: limit as usize })
                } else {
                    built_from(base, delta, start, Seq::empty(), size)
                },
            }
        },
    }
}

/// At most seven bytes follow the opcode of a copy.
pub proof fn lemma_copy_width(opcode: int)
    ensures
        0 <= copy_width(opcode) <= 7,
{
    lemma_bit(opcode, 1);
    lemma_bit(opcode, 2);
    lemma_bit(opcode, 4);
    lemma_bit(opcode, 8);
    lemma_bit(opcode, 16);
    lemma_bit(opcode, 32);
    lemma_bit(opcode, 64);
}

/// The fields of a copy instruction.
fn copy_fields(delta: &[u8], opcode: u8, from: usize) -> (r: Result<(u64, u64, usize)>)
    requires
        from <= delta@.len(),
    ensures
        if from + copy_width(opcode as int) > delta@.len() {
            r is Err && r->Err_0 == Error::InvalidObject("invalid pack: truncated delta")
        } else {
            &&& r is Ok
            &&& r->Ok_0.0 == copy_offset(delta@, opcode as int, from as int)
            &&& r->Ok_0.1 == copy_size(delta@, opcode as int, from as int)
            &&& r->Ok_0.2 == from + copy_width(opcode as int)
            &&& r->Ok_0.2 >= from
            &&& r->Ok_0.0 <= u32::MAX
            &&& r->Ok_0.1 <= 0xff_ffff
        },
{
    let b0: usize = bit(opcode, 1);
    let b1: usize = bit(opcode, 2);
    let b2: usize = bit(opcode, 4);
    let b3: usize = bit(opcode, 8);
    let b4: usize = bit(opcode, 16);
    let b5: usize = bit(opcode, 32);
    let b6: usize = bit(opcode, 64);
    let width: usize = b0 + b1 + b2 + b3 + b4 + b5 + b6;
    if width > delta.len() - from {
        return Err(Error::InvalidObject("invalid pack: truncated delta"));
    }
    let a1: usize = from + b0;
    let a2: usize = a1 + b1;
    let a3: usize = a2 + b2;
    let a4: usize = a3 + b3;
    let a5: usize = a4 + b4;
    let a6: usize = a5 + b5;
    let o0: u64 = optional_byte(delta, from, b0);
    let o1: u64 = optional_byte(delta, a1, b1);
    let o2: u64 = optional_byte(delta, a2, b2);
    let o3: u64 = optional_byte(delta, a3, b3);
    let s0: u64 = optional_byte(delta, a4, b4);
    let s1: u64 = optional_byte(delta, a5, b5);
    let s2: u64 = optional_byte(delta, a6, b6);
    Ok(
        (
            o0 + o1 * 0x100 + o2 * 0x1_0000 + o3 * 0x100_0000,
            s0 + s1 * 0x100 + s2 * 0x1_0000,
            from + width,
        ),
    )
}

/// Builds what a delta makes of its base.
pub fn apply_delta(base: &[u8], delta: &[u8], max_size: usize) -> (r: Result<Vec<u8>>)
    ensures
        match applied(base@, delta@, max_size as nat) {
            Ok(data) => r is Ok && r->Ok_0@ == data,
            Err(error) => r is Err && r->Err_0 == error,
        },
{
    let (base_size, at) = delta_varint(delta, 0)?;
    if base_size != base.len() as u64 {
        return Err(Error::InvalidObject("invalid pack: delta base size mismatch"));
    }
    let (result_size, start) = delta_varint(delta, at)?;
    if result_size > max_size as u64 {
        return Err(Error::ObjectTooLarge { declared: result_size, limit: max_size });
    }
    let capacity: usize = result_size as usize;
    let mut output: Vec<u8> = Vec::new();
    let mut cursor: usize = start;
    assert(output@ =~= Seq::<u8>::empty());
    let ghost goal = built_from(base@, delta@, start as int, Seq::empty(), capacity as int);
    while cursor < delta.len()
        invariant
            cursor <= delta@.len(),
            output@.len() <= capacity,
            goal == built_from(base@, delta@, cursor as int, output@, capacity as int),
            goal == applied(base@, delta@, max_size as nat),
        decreases delta@.len() - cursor,
    {
        let opcode: u8 = delta[cursor];
        cursor += 1;
        if opcode >= 128 {
            let (offset, field, next) = copy_fields(delta, opcode, cursor)?;
            let size: u64 = if field == 0 {
                0x1_0000
            } else {
                field
            };
            let end: u64 = offset + size;
            if end > usize::MAX as u64 {
                return Err(Error::InvalidObject("invalid pack: delta copy overflow"));
            }
            if end > base.len() as u64 {
                return Err(Error::InvalidObject("invalid pack: delta copy outside base"));
            }
            if size as usize > capacity - output.len() {
                return Err(
                    Error::InvalidObject("invalid pack: delta output exceeds declared size"),
                );
            }
            bytes::append(&mut output, &base[offset as usize..end as usize]);
            cursor = next;
        } else if opcode == 0 {
            return Err(Error::InvalidObject("invalid pack: reserved delta opcode zero"));
        } else {
            let length: usize = opcode as usize;
            if length > delta.len() - cursor {
                return Err(Error::InvalidObject("invalid pack: truncated delta insert"));
            }
            if length > capacity - output.len() {
                return Err(
                    Error::InvalidObject("invalid pack: delta output exceeds declared size"),
                );
            }
            bytes::append(&mut output, &delta[cursor..cursor + length]);
            cursor = cursor + length;
        }
    }
    if output.len() != capacity {
        return Err(Error::InvalidObject("invalid pack: delta output size mismatch"));
    }
    Ok(output)
}

// ---------------------------------------------------------------------------
// Making a delta

pub open spec fn byte_of(n: int, k: int) -> u8 {
    if k == 0 {
        (n % 0x100) as u8
    } else if k == 1 {
        (n / 0x100 % 0x100) as u8
    } else if k == 2 {
        (n / 0x1_0000 % 0x100) as u8
    } else {
        (n / 0x100_0000 % 0x100) as u8
    }
}

/// A byte that is written only if it is not zero.
pub open spec fn written(b: u8) -> Seq<u8> {
    if b == 0 {
        Seq::empty()
    } else {
        seq![b]
    }
}

pub open spec fn flag(b: u8, weight: int) -> int {
    if b == 0 {
        0
    } else {
        weight
    }
}

/// The size field of a copy: 65536 is written as nothing.
pub open spec fn size_field(size: int) -> int {
    if size == 0x1_0000 {
        0
    } else {
        size
    }
}

pub open spec fn copy_opcode(offset: int, field: int) -> int {
    128 + flag(byte_of(offset, 0), 1) + flag(byte_of(offset, 1), 2) + flag(byte_of(offset, 2), 4)
        + flag(byte_of(offset, 3), 8) + flag(byte_of(field, 0), 16) + flag(byte_of(field, 1), 32)
        + flag(byte_of(field, 2), 64)
}

/// One copy instruction.
pub open spec fn copy_op(offset: int, size: int) -> Seq<u8> {
    let field = size_field(size);
    seq![copy_opcode(offset, field) as u8] + written(byte_of(offset, 0)) + written(
        byte_of(offset, 1),
    ) + written(byte_of(offset, 2)) + written(byte_of(offset, 3)) + written(byte_of(field, 0))
        + written(byte_of(field, 1)) + written(byte_of(field, 2))
}

/// Copy instructions for a stretch of the base.
pub open spec fn copy_ops(offset: int, size: int) -> Seq<u8>
    decreases size,
{
    if size <= 0 {
        Seq::empty()
    } else if size <= 0xff_ffff {
        copy_op(offset, size)
    } else {
        copy_op(offset, 0xff_ffff) + copy_ops(offset + 0xff_ffff, size - 0xff_ffff)
    }
}

/// Insert instructions for some bytes.
pub open spec fn insert_ops(data: Seq<u8>) -> Seq<u8>
    decreases data.len(),
{
    if data.len() == 0 {
        Seq::empty()
    } else if data.len() <= 127 {
        seq![data.len() as u8] + data
    } else {
        seq![127u8] + data.take(127) + insert_ops(data.skip(127))
    }
}

/// How many trailing bytes two byte strings share.
pub open spec fn shared_tail(a: Seq<u8>, b: Seq<u8>) -> nat
    decreases a.len(),
{
    if a.len() > 0 && b.len() > 0 && a.last() == b.last() {
        1 + shared_tail(a.drop_last(), b.drop_last())
    } else {
        0
    }
}

/// The leading bytes that base and target share.
pub open spec fn kept_front(base: Seq<u8>, target: Seq<u8>) -> int {
    crate::index::shared(base, target) as int
}

/// The trailing bytes that base and target share beside the leading ones.
pub open spec fn kept_back(base: Seq<u8>, target: Seq<u8>) -> int {
    let front = kept_front(base, target);
    shared_tail(base.skip(front), target.skip(front)) as int
}

/// The delta from a base to a target: the shared front, what differs, and the
/// shared back.
pub open spec fn delta_of(base: Seq<u8>, target: Seq<u8>) -> Seq<u8> {
    let front = kept_front(base, target);
    let back = kept_back(base, target);
    little(base.len()) + little(target.len()) + copy_ops(0, front) + insert_ops(
        target.subrange(front, target.len() - back),
    ) + copy_ops(base.len() - back, back)
}

proof fn lemma_shared_tail(a: Seq<u8>, b: Seq<u8>)
    ensures
        shared_tail(a, b) <= a.len(),
        shared_tail(a, b) <= b.len(),
        a.skip(a.len() - shared_tail(a, b)) == b.skip(b.len() - shared_tail(a, b)),
    decreases a.len(),
{
    if a.len() > 0 && b.len() > 0 && a.last() == b.last() {
        let a1 = a.drop_last();
        let b1 = b.drop_last();
        lemma_shared_tail(a1, b1);
        let n = shared_tail(a1, b1) as int;
        assert(a.skip(a.len() - n - 1) =~= a1.skip(a1.len() - n).push(a.last()));
        assert(b.skip(b.len() - n - 1) =~= b1.skip(b1.len() - n).push(b.last()));
    } else {
        assert(a.skip(a.len() as int) =~= b.skip(b.len() as int));
    }
}

proof fn lemma_kept(base: Seq<u8>, target: Seq<u8>)
    ensures
        0 <= kept_front(base, target),
        0 <= kept_back(base, target),
        kept_front(base, target) + kept_back(base, target) <= base.len(),
        kept_front(base, target) + kept_back(base, target) <= target.len(),
        base.take(kept_front(base, target)) == target.take(kept_front(base, target)),
        base.skip(base.len() - kept_back(base, target)) == target.skip(
            target.len() - kept_back(base, target),
        ),
{
    let front = kept_front(base, target);
    let back = kept_back(base, target);
    crate::index::lemma_shared(base, target);
    let a = base.skip(front);
    let b = target.skip(front);
    lemma_shared_tail(a, b);
    assert(base.skip(base.len() - back) =~= a.skip(a.len() - back));
    assert(target.skip(target.len() - back) =~= b.skip(b.len() - back));
}

proof fn lemma_flags(o0: u8, o1: u8, o2: u8, o3: u8, s0: u8, s1: u8, s2: u8)
    ensures
        ({
            let opcode = 128 + flag(o0, 1) + flag(o1, 2) + flag(o2, 4) + flag(o3, 8) + flag(s0, 16)
                + flag(s1, 32) + flag(s2, 64);
            &&& 128 <= opcode < 256
            &&& bit_of(opcode, 1) == flag(o0, 1)
            &&& bit_of(opcode, 2) == flag(o1, 1)
            &&& bit_of(opcode, 4) == flag(o2, 1)
            &&& bit_of(opcode, 8) == flag(o3, 1)
            &&& bit_of(opcode, 16) == flag(s0, 1)
            &&& bit_of(opcode, 32) == flag(s1, 1)
            &&& bit_of(opcode, 64) == flag(s2, 1)
        }),
{
    reveal(bit_of);
}

proof fn lemma_bytes_of(n: int)
    requires
        0 <= n <= u32::MAX,
    ensures
        n == byte_of(n, 0) + byte_of(n, 1) * 0x100 + byte_of(n, 2) * 0x1_0000 + byte_of(n, 3)
            * 0x100_0000,
        n <= 0xff_ffff ==> byte_of(n, 3) == 0,
{
}

proof fn lemma_written(delta: Seq<u8>, at: int, b: u8)
    requires
        0 <= at,
        at + written(b).len() <= delta.len(),
        delta.subrange(at, at + written(b).len()) == written(b),
    ensures
        written(b).len() == flag(b, 1),
        optional(delta, at, flag(b, 1)) == b,
{
    if b != 0 {
        assert(delta.subrange(at, at + 1)[0] == delta[at]);
    }
}

/// A copy instruction that was written is what is read back.
proof fn lemma_copy_op(delta: Seq<u8>, cursor: int, offset: int, size: int)
    requires
        0 <= cursor,
        0 <= offset <= u32::MAX,
        0 < size <= 0xff_ffff,
        cursor + copy_op(offset, size).len() <= delta.len(),
        delta.subrange(cursor, cursor + copy_op(offset, size).len()) == copy_op(offset, size),
    ensures
        delta[cursor] == copy_opcode(offset, size_field(size)),
        delta[cursor] >= 128,
        cursor + 1 + copy_width(delta[cursor] as int) == cursor + copy_op(offset, size).len(),
        copy_offset(delta, delta[cursor] as int, cursor + 1) == offset,
        copy_size(delta, delta[cursor] as int, cursor + 1) == size_field(size),
{
    let field = size_field(size);
    let o0 = byte_of(offset, 0);
    let o1 = byte_of(offset, 1);
    let o2 = byte_of(offset, 2);
    let o3 = byte_of(offset, 3);
    let s0 = byte_of(field, 0);
    let s1 = byte_of(field, 1);
    let s2 = byte_of(field, 2);
    lemma_flags(o0, o1, o2, o3, s0, s1, s2);
    lemma_bytes_of(offset);
    lemma_bytes_of(field);
    let head = seq![copy_opcode(offset, field) as u8];
    let p1 = head + written(o0);
    let p2 = p1 + written(o1);
    let p3 = p2 + written(o2);
    let p4 = p3 + written(o3);
    let p5 = p4 + written(s0);
    let p6 = p5 + written(s1);
    bytes::lemma_parts(delta, cursor, p6, written(s2));
    bytes::lemma_parts(delta, cursor, p5, written(s1));
    bytes::lemma_parts(delta, cursor, p4, written(s0));
    bytes::lemma_parts(delta, cursor, p3, written(o3));
    bytes::lemma_parts(delta, cursor, p2, written(o2));
    bytes::lemma_parts(delta, cursor, p1, written(o1));
    bytes::lemma_parts(delta, cursor, head, written(o0));
    assert(delta.subrange(cursor, cursor + 1)[0] == delta[cursor]);
    lemma_written(delta, cursor + 1, o0);
    lemma_written(delta, cursor + p1.len(), o1);
    lemma_written(delta, cursor + p2.len(), o2);
    lemma_written(delta, cursor + p3.len(), o3);
    lemma_written(delta, cursor + p4.len(), s0);
    lemma_written(delta, cursor + p5.len(), s1);
    lemma_written(delta, cursor + p6.len(), s2);
}

/// Copy instructions bring over a stretch of the base.
proof fn lemma_copy_ops(
    base: Seq<u8>,
    delta: Seq<u8>,
    cursor: int,
    offset: int,
    size: int,
    output: Seq<u8>,
    capacity: int,
)
    requires
        0 <= cursor,
        0 <= offset,
        0 <= size,
        offset + size <= base.len() <= u32::MAX,
        cursor + copy_ops(offset, size).len() <= delta.len(),
        delta.subrange(cursor, cursor + copy_ops(offset, size).len()) == copy_ops(offset, size),
        output.len() + size <= capacity,
    ensures
        built_from(base, delta, cursor, output, capacity) == built_from(
            base,
            delta,
            cursor + copy_ops(offset, size).len(),
            output + base.subrange(offset, offset + size),
            capacity,
        ),
    decreases size,
{
    if size == 0 {
        assert(output + base.subrange(offset, offset) =~= output);
    } else {
        let chunk: int = if size <= 0xff_ffff {
            size
        } else {
            0xff_ffff
        };
        let op = copy_op(offset, chunk);
        let ops = copy_ops(offset, size);
        let part = delta.subrange(cursor, cursor + ops.len());
        assert(delta.subrange(cursor, cursor + op.len()) =~= part.take(op.len() as int));
        assert(part.take(op.len() as int) =~= op);
        lemma_copy_op(delta, cursor, offset, chunk);
        let next = output + base.subrange(offset, offset + chunk);
        if size > 0xff_ffff {
            let rest = copy_ops(offset + chunk, size - chunk);
            assert(delta.subrange(cursor + op.len(), cursor + ops.len()) =~= part.skip(
                op.len() as int,
            ));
            assert(part.skip(op.len() as int) =~= rest);
            lemma_copy_ops(
                base,
                delta,
                cursor + op.len(),
                offset + chunk,
                size - chunk,
                next,
                capacity,
            );
            assert(next + base.subrange(offset + chunk, offset + size) =~= output + base.subrange(
                offset,
                offset + size,
            ));
        }
    }
}

/// Insert instructions bring over their bytes.
proof fn lemma_insert_ops(
    base: Seq<u8>,
    delta: Seq<u8>,
    cursor: int,
    data: Seq<u8>,
    output: Seq<u8>,
    capacity: int,
)
    requires
        0 <= cursor,
        cursor + insert_ops(data).len() <= delta.len(),
        delta.subrange(cursor, cursor + insert_ops(data).len()) == insert_ops(data),
        output.len() + data.len() <= capacity,
    ensures
        built_from(base, delta, cursor, output, capacity) == built_from(
            base,
            delta,
            cursor + insert_ops(data).len(),
            output + data,
            capacity,
        ),
    decreases data.len(),
{
    let ops = insert_ops(data);
    let part = delta.subrange(cursor, cursor + ops.len());
    if data.len() == 0 {
        assert(output + data =~= output);
    } else {
        let n: int = if data.len() <= 127 {
            data.len() as int
        } else {
            127
        };
        assert(part[0] == delta[cursor]);
        assert(delta[cursor] == n);
        assert(delta.subrange(cursor + 1, cursor + 1 + n) =~= part.subrange(1, 1 + n));
        assert(part.subrange(1, 1 + n) =~= data.take(n));
        if data.len() > 127 {
            let rest = insert_ops(data.skip(127));
            assert(delta.subrange(cursor + 128, cursor + ops.len()) =~= part.skip(128));
            assert(part.skip(128) =~= rest);
            lemma_insert_ops(
                base,
                delta,
                cursor + 128,
                data.skip(127),
                output + data.take(127),
                capacity,
            );
            assert(output + data.take(127) + data.skip(127) =~= output + data);
        } else {
            assert(data.take(n) =~= data);
        }
    }
}

/// Applying the delta from a base to a target gives the target.
pub proof fn lemma_delta_round_trip(base: Seq<u8>, target: Seq<u8>, limit: nat)
    requires
        base.len() <= u32::MAX,
        target.len() <= u32::MAX,
        target.len() <= limit,
    ensures
        applied(base, delta_of(base, target), limit) == Ok::<Seq<u8>, Error>(target),
{
    let front = kept_front(base, target);
    let back = kept_back(base, target);
    lemma_kept(base, target);
    let delta = delta_of(base, target);
    let l1 = little(base.len());
    let l2 = little(target.len());
    let c1 = copy_ops(0, front);
    let middle = target.subrange(front, target.len() - back);
    let ins = insert_ops(middle);
    let c2 = copy_ops(base.len() - back, back);
    let p1 = l1.len() as int;
    let p2 = p1 + l2.len();
    let p3 = p2 + c1.len();
    let p4 = p3 + ins.len();
    let p5 = p4 + c2.len();
    assert(two_to(0) == 1);
    assert(base.len() * 1 == base.len());
    assert(target.len() * 1 == target.len());
    assert(delta.subrange(0, p1) =~= l1);
    lemma_little_round_trip(base.len(), delta, 0, 0, 0);
    assert(delta.subrange(p1, p2) =~= l2);
    lemma_little_round_trip(target.len(), delta, p1, 0, 0);
    assert(delta.subrange(p2, p3) =~= c1);
    let size = target.len() as int;
    let e = Seq::<u8>::empty();
    lemma_copy_ops(base, delta, p2, 0, front, e, size);
    let o1 = e + base.subrange(0, front);
    assert(o1 =~= target.take(front)) by {
        assert(base.subrange(0, front) =~= base.take(front));
    }
    assert(delta.subrange(p3, p4) =~= ins);
    lemma_insert_ops(base, delta, p3, middle, o1, size);
    let o2 = o1 + middle;
    assert(delta.subrange(p4, p5) =~= c2);
    lemma_copy_ops(base, delta, p4, base.len() - back, back, o2, size);
    assert(base.subrange(base.len() - back, base.len() as int) =~= base.skip(base.len() - back));
    assert(o2 + base.skip(base.len() - back) =~= target) by {
        assert(o2 =~= target.take(target.len() - back));
        assert(target.take(target.len() - back) + target.skip(target.len() - back) =~= target);
    }
    assert(delta.len() == p5);
}

fn push_written(out: &mut Vec<u8>, b: u8)
    ensures
        final(out)@ == old(out)@ + written(b),
{
    if b != 0 {
        out.push(b);
        assert(out@ =~= old(out)@ + written(b));
    } else {
        assert(out@ =~= old(out)@ + written(b));
    }
}

fn flag_of(b: u8, weight: u8) -> (r: u8)
    ensures
        r == flag(b, weight as int),
        r <= weight,
{
    if b == 0 {
        0
    } else {
        weight
    }
}

fn push_copy(out: &mut Vec<u8>, offset: u32, size: u32)
    requires
        size <= 0xff_ffff,
    ensures
        final(out)@ == old(out)@ + copy_op(offset as int, size as int),
{
    let field: u32 = if size == 0x1_0000 {
        0
    } else {
        size
    };
    let o0: u8 = (offset % 0x100) as u8;
    let o1: u8 = (offset / 0x100 % 0x100) as u8;
    let o2: u8 = (offset / 0x1_0000 % 0x100) as u8;
    let o3: u8 = (offset / 0x100_0000 % 0x100) as u8;
    let s0: u8 = (field % 0x100) as u8;
    let s1: u8 = (field / 0x100 % 0x100) as u8;
    let s2: u8 = (field / 0x1_0000 % 0x100) as u8;
    let opcode: u8 = 128 + flag_of(o0, 1) + flag_of(o1, 2) + flag_of(o2, 4) + flag_of(o3, 8)
        + flag_of(s0, 16) + flag_of(s1, 32) + flag_of(s2, 64);
    let ghost start = out@;
    let ghost head = seq![opcode];
    let ghost p1 = head + written(o0);
    let ghost p2 = p1 + written(o1);
    let ghost p3 = p2 + written(o2);
    let ghost p4 = p3 + written(o3);
    let ghost p5 = p4 + written(s0);
    let ghost p6 = p5 + written(s1);
    assert(copy_op(offset as int, size as int) == p6 + written(s2));
    out.push(opcode);
    assert(out@ =~= start + head);
    push_written(out, o0);
    assert(out@ =~= start + p1);
    push_written(out, o1);
    assert(out@ =~= start + p2);
    push_written(out, o2);
    assert(out@ =~= start + p3);
    push_written(out, o3);
    assert(out@ =~= start + p4);
    push_written(out, s0);
    assert(out@ =~= start + p5);
    push_written(out, s1);
    assert(out@ =~= start + p6);
    push_written(out, s2);
    assert(out@ =~= start + (p6 + written(s2)));
}

fn emit_copy(offset: usize, size: usize, out: &mut Vec<u8>)
    requires
        offset + size <= u32::MAX,
    ensures
        final(out)@ == old(out)@ + copy_ops(offset as int, size as int),
{
    let mut at: usize = offset;
    let mut left: usize = size;
    let ghost goal = out@ + copy_ops(offset as int, size as int);
    while left != 0
        invariant
            at + left <= u32::MAX,
            goal == out@ + copy_ops(at as int, left as int),
        decreases left,
    {
        let chunk: usize = if left < 0xff_ffff {
            left
        } else {
            0xff_ffff
        };
        let ghost before = out@;
        push_copy(out, at as u32, chunk as u32);
        proof {
            if left <= 0xff_ffff {
                assert(copy_ops(at + chunk, 0) =~= Seq::empty());
                assert(goal =~= out@ + copy_ops(at + chunk, left - chunk));
            } else {
                assert(copy_ops(at as int, left as int) == copy_op(at as int, 0xff_ffff) + copy_ops(
                    at + 0xff_ffff,
                    left - 0xff_ffff,
                ));
                assert(goal =~= out@ + copy_ops(at + chunk, left - chunk));
            }
        }
        at = at + chunk;
        left = left - chunk;
    }
    assert(goal =~= out@);
}

fn emit_literals(data: &[u8], out: &mut Vec<u8>)
    ensures
        final(out)@ == old(out)@ + insert_ops(data@),
{
    let mut at: usize = 0;
    let ghost goal = out@ + insert_ops(data@);
    assert(data@.skip(0) =~= data@);
    while at < data.len()
        invariant
            at <= data@.len(),
            goal == out@ + insert_ops(data@.skip(at as int)),
        decreases data@.len() - at,
    {
        let left: usize = data.len() - at;
        let length: usize = if left < 127 {
            left
        } else {
            127
        };
        let ghost rest = data@.skip(at as int);
        let ghost before = out@;
        out.push(length as u8);
        bytes::append(out, &data[at..at + length]);
        proof {
            assert(data@.subrange(at as int, at + length) =~= rest.take(length as int));
            assert(out@ =~= before + (seq![length as u8] + rest.take(length as int)));
            assert(rest.skip(length as int) =~= data@.skip(at + length));
            if rest.len() <= 127 {
                assert(rest.take(length as int) =~= rest);
                assert(insert_ops(data@.skip(at + length)) =~= Seq::empty());
            }
            assert(goal =~= out@ + insert_ops(data@.skip(at + length)));
        }
        at = at + length;
    }
    assert(data@.skip(at as int) =~= Seq::empty());
    assert(goal =~= out@);
}

/// Counts the trailing bytes that two byte strings share after a front of
/// each is left out.
fn shared_suffix(a: &[u8], b: &[u8], front: usize) -> (r: usize)
    requires
        front <= a@.len(),
        front <= b@.len(),
    ensures
        r == shared_tail(a@.skip(front as int), b@.skip(front as int)),
        r <= a@.len() - front,
        r <= b@.len() - front,
{
    let ghost x = a@.skip(front as int);
    let ghost y = b@.skip(front as int);
    let mut n: usize = 0;
    assert(x.take(x.len() as int) =~= x);
    assert(y.take(y.len() as int) =~= y);
    while n < a.len() - front && n < b.len() - front && a[a.len() - 1 - n] == b[b.len() - 1 - n]
        invariant
            front <= a@.len(),
            front <= b@.len(),
            n <= a@.len() - front,
            n <= b@.len() - front,
            x == a@.skip(front as int),
            y == b@.skip(front as int),
            shared_tail(x, y) == n + shared_tail(x.take(x.len() - n), y.take(y.len() - n)),
        decreases a@.len() - n,
    {
        proof {
            let xn = x.take(x.len() - n);
            let yn = y.take(y.len() - n);
            assert(xn.drop_last() =~= x.take(x.len() - n - 1));
            assert(yn.drop_last() =~= y.take(y.len() - n - 1));
        }
        n += 1;
    }
    n
}

/// The delta from a base to a target. Lengths beyond 32 bits have none.
pub fn create_delta(base: &[u8], target: &[u8]) -> (r: Option<Vec<u8>>)
    ensures
        match r {
            Some(delta) => {
                &&& base@.len() <= u32::MAX
                &&& target@.len() <= u32::MAX
                &&& delta@ == delta_of(base@, target@)
            },
            None => base@.len() > u32::MAX || target@.len() > u32::MAX,
        },
{
    if base.len() as u64 > u32::MAX as u64 || target.len() as u64 > u32::MAX as u64 {
        return None;
    }
    let prefix: usize = shared_prefix(base, target);
    let suffix: usize = shared_suffix(base, target, prefix);
    let mut delta: Vec<u8> = Vec::new();
    encode_delta_varint(base.len() as u64, &mut delta);
    encode_delta_varint(target.len() as u64, &mut delta);
    emit_copy(0, prefix, &mut delta);
    emit_literals(&target[prefix..target.len() - suffix], &mut delta);
    emit_copy(base.len() - suffix, suffix, &mut delta);
    assert(delta@ =~= delta_of(base@, target@));
    Some(delta)
}

// ---------------------------------------------------------------------------
// How long a delta can be

proof fn lemma_little_len(n: nat)
    requires
        n <= u32::MAX,
    ensures
        little(n).len() <= 5,
        n < 128 ==> little(n).len() == 1,
{
    reveal_with_fuel(little, 6);
}

proof fn lemma_copy_op_len(offset: int, size: int)
    requires
        0 <= offset <= u32::MAX,
        0 < size <= 0xff_ffff,
    ensures
        copy_op(offset, size).len() <= 8,
        size < 128 ==> copy_op(offset, size).len() <= 6,
        size < 128 && offset == 0 ==> copy_op(offset, size).len() <= 2,
{
}

proof fn lemma_copy_ops_len(offset: int, size: int)
    requires
        0 <= offset,
        0 <= size,
        offset + size <= u32::MAX,
    ensures
        copy_ops(offset, size).len() * 0xff_ffff <= 8 * size + 8 * 0xff_fffe,
        size < 128 ==> copy_ops(offset, size).len() <= 6,
        size < 128 && offset == 0 ==> copy_ops(offset, size).len() <= 2,
        size == 0 ==> copy_ops(offset, size).len() == 0,
    decreases size,
{
    if size > 0xff_ffff {
        lemma_copy_op_len(offset, 0xff_ffff);
        lemma_copy_ops_len(offset + 0xff_ffff, size - 0xff_ffff);
    } else if size > 0 {
        lemma_copy_op_len(offset, size);
    }
}

proof fn lemma_insert_ops_len(data: Seq<u8>)
    ensures
        insert_ops(data).len() * 127 <= data.len() * 128 + 126,
        data.len() < 128 ==> insert_ops(data).len() <= data.len() + 1 + data.len() / 127,
        data.len() == 0 ==> insert_ops(data).len() == 0,
    decreases data.len(),
{
    if data.len() > 127 {
        lemma_insert_ops_len(data.skip(127));
    }
}

/// A delta takes at most twice the room of its target, or 32 bytes.
pub proof fn lemma_delta_len(base: Seq<u8>, target: Seq<u8>)
    requires
        base.len() <= u32::MAX,
        target.len() <= u32::MAX,
    ensures
        delta_of(base, target).len() <= 2 * target.len() || delta_of(base, target).len() <= 32,
{
    let front = kept_front(base, target);
    let back = kept_back(base, target);
    lemma_kept(base, target);
    lemma_little_len(base.len());
    lemma_little_len(target.len());
    lemma_copy_ops_len(0, front);
    lemma_copy_ops_len(base.len() - back, back);
    lemma_insert_ops_len(target.subrange(front, target.len() - back));
}

} // verus!
