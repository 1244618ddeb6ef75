//! Byte strings: literals, comparison, searching and big-endian integers.

use vstd::prelude::*;

verus! {

/// The bytes of a text.
pub open spec fn utf8(text: Seq<char>) -> Seq<u8> {
    vstd::utf8::encode_utf8(text)
}

/// An ASCII text has one byte per character.
pub proof fn lemma_ascii(text: Seq<char>)
    requires
        vstd::utf8::is_ascii_chars(text),
    ensures
        utf8(text).len() == text.len(),
        utf8(text) == Seq::new(text.len(), |i: int| text[i] as u8),
        forall|i: int| 0 <= i < text.len() ==> #[trigger] utf8(text)[i] == text[i] as u8,
{
    vstd::utf8::is_ascii_chars_encode_utf8(text);
    assert(utf8(text) =~= Seq::new(text.len(), |i: int| text[i] as u8));
}

/// Calls `std::str::from_utf8`, which accepts exactly the well-formed UTF-8
/// byte strings and gives the text with those bytes.
#[verifier::external_body]
pub(crate) fn text_of(bytes: &[u8]) -> (r: Option<&str>)
    ensures
        match r {
            Some(text) => vstd::utf8::valid_utf8(bytes@) && utf8(text@) == bytes@,
            None => !vstd::utf8::valid_utf8(bytes@),
        },
{
    std::str::from_utf8(bytes).ok()
}

/// The characters with the Unicode property White_Space.
pub open spec fn is_white(c: char) -> bool {
    ||| 0x09 <= c as u32 <= 0x0d
    ||| c as u32 == 0x20
    ||| c as u32 == 0x85
    ||| c as u32 == 0xa0
    ||| c as u32 == 0x1680
    ||| 0x2000 <= c as u32 <= 0x200a
    ||| c as u32 == 0x2028
    ||| c as u32 == 0x2029
    ||| c as u32 == 0x202f
    ||| c as u32 == 0x205f
    ||| c as u32 == 0x3000
}

/// A text without the white space at its start.
pub open spec fn trimmed_start(text: Seq<char>) -> Seq<char>
    decreases text.len(),
{
    if text.len() > 0 && is_white(text[0]) {
        trimmed_start(text.skip(1))
    } else {
        text
    }
}

/// A text without the white space at its end.
pub open spec fn trimmed_end(text: Seq<char>) -> Seq<char>
    decreases text.len(),
{
    if text.len() > 0 && is_white(text.last()) {
        trimmed_end(text.drop_last())
    } else {
        text
    }
}

/// Calls `str::trim`, which gives a text without the white space at its two
/// ends; white space is what has the Unicode property White_Space.
#[verifier::external_body]
pub(crate) fn trim_text(text: &str) -> (r: &str)
    ensures
        r@ == trimmed_end(trimmed_start(text@)),
{
    text.trim()
}

/// The bytes of a text without the white space at its two ends.
pub open spec fn trimmed_text(s: Seq<u8>) -> Seq<u8> {
    if vstd::utf8::valid_utf8(s) {
        utf8(trimmed_end(trimmed_start(vstd::utf8::decode_utf8(s))))
    } else {
        s
    }
}

pub fn trim_bytes(s: &[u8]) -> (r: Vec<u8>)
    ensures
        r@ == trimmed_text(s@),
{
    match text_of(s) {
        Some(text) => {
            proof {
                vstd::utf8::encode_utf8_decode_utf8(text@);
            }
            to_vec(trim_text(text).as_bytes())
        },
        None => to_vec(s),
    }
}

/// Compares two byte strings.
pub fn bytes_eq(a: &[u8], b: &[u8]) -> (r: bool)
    ensures
        r == (a@ == b@),
{
    if a.len() != b.len() {
        return false;
    }
    let mut i: usize = 0;
    while i < a.len()
        invariant
            i <= a.len(),
            a@.len() == b@.len(),
            a@.take(i as int) == b@.take(i as int),
        decreases a.len() - i,
    {
        if a[i] != b[i] {
            assert(a@[i as int] != b@[i as int]);
            return false;
        }
        assert(a@.take(i + 1) =~= a@.take(i as int).push(a@[i as int]));
        assert(b@.take(i + 1) =~= b@.take(i as int).push(b@[i as int]));
        i += 1;
    }
    assert(a@.take(i as int) =~= a@);
    assert(b@.take(i as int) =~= b@);
    true
}

/// Whether `a` begins with `b`.
pub open spec fn has_prefix(a: Seq<u8>, b: Seq<u8>) -> bool {
    a.len() >= b.len() && a.take(b.len() as int) == b
}

/// Whether `a` ends with `b`.
pub open spec fn has_suffix(a: Seq<u8>, b: Seq<u8>) -> bool {
    a.len() >= b.len() && a.skip(a.len() - b.len()) == b
}

pub fn starts_with(a: &[u8], b: &[u8]) -> (r: bool)
    ensures
        r == has_prefix(a@, b@),
{
    if a.len() < b.len() {
        return false;
    }
    let head = &a[0..b.len()];
    assert(head@ =~= a@.take(b@.len() as int));
    bytes_eq(head, b)
}

pub fn ends_with(a: &[u8], b: &[u8]) -> (r: bool)
    ensures
        r == has_suffix(a@, b@),
{
    if a.len() < b.len() {
        return false;
    }
    let tail = &a[a.len() - b.len()..a.len()];
    assert(tail@ =~= a@.skip(a@.len() - b@.len()));
    bytes_eq(tail, b)
}

/// The first position at or after `from` that holds `byte`, or the length.
pub open spec fn index_from(s: Seq<u8>, byte: u8, from: int) -> int
    decreases s.len() - from,
{
    if from >= s.len() {
        s.len() as int
    } else if s[from] == byte {
        from
    } else {
        index_from(s, byte, from + 1)
    }
}

pub proof fn lemma_index_from(s: Seq<u8>, byte: u8, from: int)
    requires
        0 <= from <= s.len(),
    ensures
        from <= index_from(s, byte, from) <= s.len(),
        index_from(s, byte, from) < s.len() ==> s[index_from(s, byte, from)] == byte,
        forall|i: int| from <= i < index_from(s, byte, from) ==> s[i] != byte,
    decreases s.len() - from,
{
    if from < s.len() && s[from] != byte {
        lemma_index_from(s, byte, from + 1);
    }
}

/// A position that holds the byte, after positions that do not, is the first.
pub proof fn lemma_index_from_is(s: Seq<u8>, byte: u8, from: int, at: int)
    requires
        0 <= from <= at <= s.len(),
        at < s.len() ==> s[at] == byte,
        forall|i: int| from <= i < at ==> s[i] != byte,
    ensures
        index_from(s, byte, from) == at,
    decreases at - from,
{
    if from < at {
        lemma_index_from_is(s, byte, from + 1, at);
    }
}

pub fn find_byte(s: &[u8], byte: u8, from: usize) -> (r: usize)
    requires
        from <= s@.len(),
    ensures
        r == index_from(s@, byte, from as int),
        from <= r <= s@.len(),
        r < s@.len() ==> s@[r as int] == byte,
        forall|i: int| from <= i < r ==> s@[i] != byte,
{
    let mut i: usize = from;
    while i < s.len()
        invariant
            from <= i <= s@.len(),
            index_from(s@, byte, from as int) == index_from(s@, byte, i as int),
            forall|j: int| from <= j < i ==> s@[j] != byte,
        decreases s@.len() - i,
    {
        if s[i] == byte {
            return i;
        }
        i += 1;
    }
    i
}

pub fn contains_byte(s: &[u8], byte: u8) -> (r: bool)
    ensures
        r == s@.contains(byte),
{
    let at: usize = find_byte(s, byte, 0);
    if at < s.len() {
        assert(s@[at as int] == byte);
        true
    } else {
        assert(!s@.contains(byte));
        false
    }
}

/// Appends a byte string.
pub fn append(out: &mut Vec<u8>, s: &[u8])
    ensures
        final(out)@ == old(out)@ + s@,
{
    let ghost before = out@;
    let mut i: usize = 0;
    while i < s.len()
        invariant
            i <= s@.len(),
            out@ == before + s@.take(i as int),
        decreases s@.len() - i,
    {
        out.push(s[i]);
        i += 1;
        assert(s@.take(i as int) =~= s@.take(i - 1).push(s@[i - 1]));
    }
    assert(s@.take(i as int) =~= s@);
}

/// Copies the bytes from `from` up to `to`.
pub fn copy_range(s: &[u8], from: usize, to: usize) -> (r: Vec<u8>)
    requires
        from <= to <= s@.len(),
    ensures
        r@ == s@.subrange(from as int, to as int),
{
    let mut out: Vec<u8> = Vec::new();
    append(&mut out, &s[from..to]);
    assert(out@ =~= s@.subrange(from as int, to as int));
    out
}

pub fn to_vec(s: &[u8]) -> (r: Vec<u8>)
    ensures
        r@ == s@,
{
    let mut out: Vec<u8> = Vec::new();
    append(&mut out, s);
    assert(out@ =~= s@);
    out
}

// ---------------------------------------------------------------------------
// Splitting and joining

/// The contents of a list of byte strings.
pub open spec fn deep(list: Seq<Vec<u8>>) -> Seq<Seq<u8>> {
    Seq::new(list.len(), |i: int| list[i]@)
}

/// The parts between occurrences of a separator.
pub open spec fn split(s: Seq<u8>, separator: u8) -> Seq<Seq<u8>>
    decreases s.len(),
    via split_decreases
{
    let at = index_from(s, separator, 0);
    if at >= s.len() {
        seq![s]
    } else {
        seq![s.take(at)] + split(s.skip(at + 1), separator)
    }
}

#[via_fn]
proof fn split_decreases(s: Seq<u8>, separator: u8) {
    lemma_index_from(s, separator, 0);
}

pub proof fn lemma_split_nonempty(s: Seq<u8>, separator: u8)
    ensures
        split(s, separator).len() >= 1,
{
}

pub proof fn lemma_skip_index(s: Seq<u8>, byte: u8, from: int)
    requires
        0 <= from <= s.len(),
    ensures
        index_from(s.skip(from), byte, 0) + from == index_from(s, byte, from),
{
    let tail = s.skip(from);
    lemma_index_from(tail, byte, 0);
    let at = index_from(tail, byte, 0);
    assert forall|i: int| from <= i < from + at implies s[i] != byte by {
        assert(tail[i - from] == s[i]);
    }
    lemma_index_from_is(s, byte, from, from + at);
}

/// Cuts a byte string at every occurrence of a separator.
pub fn split_on(s: &[u8], separator: u8) -> (r: Vec<Vec<u8>>)
    ensures
        deep(r@) == split(s@, separator),
        r@.len() >= 1,
{
    let mut out: Vec<Vec<u8>> = Vec::new();
    let mut from: usize = 0;
    assert(s@.skip(0) =~= s@);
    assert(deep(out@) + split(s@, separator) =~= split(s@, separator));
    loop
        invariant
            from <= s@.len(),
            split(s@, separator) == deep(out@) + split(s@.skip(from as int), separator),
        decreases s@.len() + 1 - from,
    {
        let at: usize = find_byte(s, separator, from);
        proof {
            lemma_skip_index(s@, separator, from as int);
        }
        let part = copy_range(s, from, at);
        let ghost before = deep(out@);
        let ghost tail = s@.skip(from as int);
        out.push(part);
        assert(deep(out@) =~= before.push(part@));
        if at == s.len() {
            proof {
                assert(part@ =~= tail);
                assert(split(tail, separator) =~= seq![tail]);
                assert(deep(out@) =~= split(s@, separator));
            }
            return out;
        }
        proof {
            assert(part@ =~= tail.take(at - from));
            assert(tail.skip(at - from + 1) =~= s@.skip(at + 1));
            assert(split(tail, separator) =~= seq![part@] + split(s@.skip(at + 1), separator));
            assert(deep(out@) + split(s@.skip(at + 1), separator) =~= split(s@, separator));
        }
        from = at + 1;
    }
}

/// Parts with a separator between each two.
pub open spec fn join(parts: Seq<Seq<u8>>, separator: u8) -> Seq<u8>
    decreases parts.len(),
{
    if parts.len() == 0 {
        Seq::empty()
    } else if parts.len() == 1 {
        parts[0]
    } else {
        join(parts.drop_last(), separator).push(separator) + parts.last()
    }
}

/// ASCII letters in lower case, other bytes unchanged.
pub open spec fn lower_byte(b: u8) -> u8 {
    if 65 <= b <= 90 {
        (b + 32) as u8
    } else {
        b
    }
}

pub open spec fn lower(s: Seq<u8>) -> Seq<u8> {
    s.map_values(|b: u8| lower_byte(b))
}

pub fn to_lower(s: &[u8]) -> (r: Vec<u8>)
    ensures
        r@ == lower(s@),
{
    let mut out: Vec<u8> = Vec::new();
    let mut i: usize = 0;
    while i < s.len()
        invariant
            i <= s@.len(),
            out@ == lower(s@).take(i as int),
        decreases s@.len() - i,
    {
        let b: u8 = s[i];
        if 65 <= b && b <= 90 {
            out.push(b + 32);
        } else {
            out.push(b);
        }
        i += 1;
        assert(out@ =~= lower(s@).take(i as int));
    }
    assert(lower(s@).take(i as int) =~= lower(s@));
    out
}

// ---------------------------------------------------------------------------
// Lexicographic order

/// Byte-wise lexicographic order.
pub open spec fn lex_lt(a: Seq<u8>, b: Seq<u8>) -> bool
    decreases a.len(),
{
    if b.len() == 0 {
        false
    } else if a.len() == 0 {
        true
    } else if a[0] != b[0] {
        a[0] < b[0]
    } else {
        lex_lt(a.skip(1), b.skip(1))
    }
}

pub proof fn lemma_lex_irreflexive(a: Seq<u8>)
    ensures
        !lex_lt(a, a),
    decreases a.len(),
{
    if a.len() > 0 {
        lemma_lex_irreflexive(a.skip(1));
    }
}

pub proof fn lemma_lex_transitive(a: Seq<u8>, b: Seq<u8>, c: Seq<u8>)
    requires
        lex_lt(a, b),
        lex_lt(b, c),
    ensures
        lex_lt(a, c),
    decreases a.len(),
{
    if a.len() > 0 && b.len() > 0 && c.len() > 0 && a[0] == b[0] && b[0] == c[0] {
        lemma_lex_transitive(a.skip(1), b.skip(1), c.skip(1));
    }
}

pub proof fn lemma_lex_total(a: Seq<u8>, b: Seq<u8>)
    ensures
        a == b || lex_lt(a, b) || lex_lt(b, a),
    decreases a.len(),
{
    if a.len() > 0 && b.len() > 0 && a[0] == b[0] {
        lemma_lex_total(a.skip(1), b.skip(1));
        if a.skip(1) == b.skip(1) {
            assert(a =~= seq![a[0]] + a.skip(1));
            assert(b =~= seq![b[0]] + b.skip(1));
        }
    } else if a.len() == 0 && b.len() == 0 {
        assert(a =~= b);
    }
}

pub proof fn lemma_lex_asymmetric(a: Seq<u8>, b: Seq<u8>)
    requires
        lex_lt(a, b),
    ensures
        !lex_lt(b, a),
        a != b,
{
    if lex_lt(b, a) {
        lemma_lex_transitive(a, b, a);
    }
    lemma_lex_irreflexive(a);
}

pub fn bytes_lt(a: &[u8], b: &[u8]) -> (r: bool)
    ensures
        r == lex_lt(a@, b@),
{
    let mut i: usize = 0;
    assert(a@.skip(0) =~= a@);
    assert(b@.skip(0) =~= b@);
    while i < a.len() && i < b.len()
        invariant
            i <= a@.len(),
            i <= b@.len(),
            lex_lt(a@, b@) == lex_lt(a@.skip(i as int), b@.skip(i as int)),
        decreases a@.len() - i,
    {
        if a[i] != b[i] {
            return a[i] < b[i];
        }
        assert(a@.skip(i as int).skip(1) =~= a@.skip(i + 1));
        assert(b@.skip(i as int).skip(1) =~= b@.skip(i + 1));
        i += 1;
    }
    i < b.len()
}

// ---------------------------------------------------------------------------
// Big-endian integers

/// The number that a byte string denotes, most significant byte first.
pub open spec fn be(s: Seq<u8>) -> nat
    decreases s.len(),
{
    if s.len() == 0 {
        0
    } else {
        be(s.drop_last()) * 256 + s.last() as nat
    }
}

/// The `width` bytes that denote a number, most significant byte first.
pub open spec fn be_bytes(n: nat, width: nat) -> Seq<u8>
    decreases width,
{
    if width == 0 {
        Seq::empty()
    } else {
        be_bytes(n / 256, (width - 1) as nat).push((n % 256) as u8)
    }
}

pub open spec fn power256(width: nat) -> nat
    decreases width,
{
    if width == 0 {
        1
    } else {
        power256((width - 1) as nat) * 256
    }
}

pub proof fn lemma_be_bytes_len(n: nat, width: nat)
    ensures
        be_bytes(n, width).len() == width,
    decreases width,
{
    if width > 0 {
        lemma_be_bytes_len(n / 256, (width - 1) as nat);
    }
}

/// Reading back what `be_bytes` wrote gives the number.
pub proof fn lemma_be_of_bytes(n: nat, width: nat)
    requires
        n < power256(width),
    ensures
        be(be_bytes(n, width)) == n,
    decreases width,
{
    if width > 0 {
        let head = be_bytes(n / 256, (width - 1) as nat);
        lemma_be_of_bytes(n / 256, (width - 1) as nat);
        assert(be_bytes(n, width).drop_last() =~= head);
    }
}

/// Writing the number that a byte string denotes gives the byte string back.
pub proof fn lemma_bytes_of_be(s: Seq<u8>)
    ensures
        be_bytes(be(s), s.len()) == s,
        be(s) < power256(s.len()),
    decreases s.len(),
{
    if s.len() > 0 {
        lemma_bytes_of_be(s.drop_last());
        assert(be(s) / 256 == be(s.drop_last()));
        assert(be(s) % 256 == s.last() as nat);
        assert(be_bytes(be(s), s.len()) =~= s);
    } else {
        assert(be_bytes(be(s), s.len()) =~= s);
    }
}

pub proof fn lemma_power256()
    ensures
        power256(1) == 0x100,
        power256(2) == 0x1_0000,
        power256(4) == 0x1_0000_0000,
        power256(8) == 0x1_0000_0000_0000_0000,
{
    reveal_with_fuel(power256, 9);
}

pub proof fn lemma_be_4(s: Seq<u8>)
    requires
        s.len() == 4,
    ensures
        be(s) == s[0] as nat * 0x100_0000 + s[1] as nat * 0x1_0000 + s[2] as nat * 0x100
            + s[3] as nat,
{
    reveal_with_fuel(be, 5);
}

pub proof fn lemma_be_2(s: Seq<u8>)
    requires
        s.len() == 2,
    ensures
        be(s) == s[0] as nat * 0x100 + s[1] as nat,
{
    reveal_with_fuel(be, 3);
}

/// Reads the two bytes at `at` as a number.
pub fn read_be16(s: &[u8], at: usize) -> (r: u16)
    requires
        at + 2 <= s@.len(),
    ensures
        r == be(s@.subrange(at as int, at + 2)),
{
    proof {
        lemma_be_2(s@.subrange(at as int, at + 2));
    }
    (s[at] as u16) * 0x100 + (s[at + 1] as u16)
}

/// Reads the four bytes at `at` as a number.
pub fn read_be32(s: &[u8], at: usize) -> (r: u32)
    requires
        at + 4 <= s@.len(),
    ensures
        r == be(s@.subrange(at as int, at + 4)),
{
    proof {
        lemma_be_4(s@.subrange(at as int, at + 4));
    }
    (s[at] as u32) * 0x100_0000 + (s[at + 1] as u32) * 0x1_0000 + (s[at + 2] as u32) * 0x100 + (
    s[at + 3] as u32)
}

/// Reads the eight bytes at `at` as a number.
pub fn read_be64(s: &[u8], at: usize) -> (r: u64)
    requires
        at + 8 <= s@.len(),
    ensures
        r == be(s@.subrange(at as int, at + 8)),
{
    assert(s.len() <= usize::MAX);
    let high: u32 = read_be32(s, at);
    let low: u32 = read_be32(s, at + 4);
    proof {
        let all = s@.subrange(at as int, at + 8);
        lemma_be_split(s@.subrange(at as int, at + 4), s@.subrange(at + 4, at + 8));
        assert(all =~= s@.subrange(at as int, at + 4) + s@.subrange(at + 4, at + 8));
        lemma_power256();
    }
    (high as u64) * 0x1_0000_0000 + (low as u64)
}

/// The number of a concatenation.
pub proof fn lemma_be_split(a: Seq<u8>, b: Seq<u8>)
    ensures
        be(a + b) == be(a) * power256(b.len()) + be(b),
    decreases b.len(),
{
    if b.len() == 0 {
        assert(a + b =~= a);
        assert(power256(b.len()) == 1);
        assert(be(a) * 1 == be(a));
    } else {
        lemma_be_split(a, b.drop_last());
        assert((a + b).drop_last() =~= a + b.drop_last());
        assert((a + b).last() == b.last());
        let p = power256((b.len() - 1) as nat);
        assert(power256(b.len()) == p * 256);
        let x = be(a);
        assert((x * p) * 256 == x * (p * 256)) by (nonlinear_arith);
        assert(be(a + b) == be(a + b.drop_last()) * 256 + b.last() as nat);
        assert(be(b) == be(b.drop_last()) * 256 + b.last() as nat);
    }
}

pub fn push_be16(out: &mut Vec<u8>, value: u16)
    ensures
        final(out)@ == old(out)@ + be_bytes(value as nat, 2),
{
    let ghost before = out@;
    out.push((value / 0x100) as u8);
    out.push((value % 0x100) as u8);
    proof {
        reveal_with_fuel(be_bytes, 3);
        assert(out@ =~= before + be_bytes(value as nat, 2));
    }
}

pub fn push_be32(out: &mut Vec<u8>, value: u32)
    ensures
        final(out)@ == old(out)@ + be_bytes(value as nat, 4),
{
    let ghost before = out@;
    out.push((value / 0x100_0000) as u8);
    out.push((value / 0x1_0000 % 0x100) as u8);
    out.push((value / 0x100 % 0x100) as u8);
    out.push((value % 0x100) as u8);
    proof {
        reveal_with_fuel(be_bytes, 5);
        assert(out@ =~= before + be_bytes(value as nat, 4));
    }
}

/// The bytes of a two-part number.
pub proof fn lemma_be_bytes_split(high: nat, low: nat, a: nat, b: nat)
    requires
        low < power256(b),
    ensures
        be_bytes(high * power256(b) + low, a + b) == be_bytes(high, a) + be_bytes(low, b),
    decreases b,
{
    if b == 0 {
        assert(power256(b) == 1);
        assert(high * 1 == high);
        assert(be_bytes(high, a) + be_bytes(low, b) =~= be_bytes(high, a));
    } else {
        let p = power256((b - 1) as nat);
        let n = high * power256(b) + low;
        lemma_be_bytes_split(high, low / 256, a, (b - 1) as nat);
        assert(high * (p * 256) == (high * p) * 256) by (nonlinear_arith);
        assert(n / 256 == high * p + low / 256);
        assert(n % 256 == low % 256);
        assert(be_bytes(n, a + b) =~= be_bytes(high, a) + be_bytes(low, b));
    }
}

pub fn push_be64(out: &mut Vec<u8>, value: u64)
    ensures
        final(out)@ == old(out)@ + be_bytes(value as nat, 8),
{
    let ghost before = out@;
    let high: u32 = (value / 0x1_0000_0000) as u32;
    let low: u32 = (value % 0x1_0000_0000) as u32;
    push_be32(out, high);
    push_be32(out, low);
    proof {
        lemma_power256();
        lemma_be_bytes_split(high as nat, low as nat, 4, 4);
        assert(high as nat * power256(4) + low as nat == value as nat);
        assert(out@ =~= before + be_bytes(value as nat, 8));
    }
}

// ---------------------------------------------------------------------------
// Decimal numbers

/// The decimal digits of a number, without leading zeros.
pub open spec fn decimal(n: nat) -> Seq<u8>
    decreases n,
{
    if n < 10 {
        seq![(48 + n) as u8]
    } else {
        decimal(n / 10).push((48 + n % 10) as u8)
    }
}

pub open spec fn is_digit(byte: u8) -> bool {
    48 <= byte <= 57
}

pub open spec fn all_digits(s: Seq<u8>) -> bool {
    forall|i: int| 0 <= i < s.len() ==> is_digit(#[trigger] s[i])
}

/// The number that a string of decimal digits denotes.
pub open spec fn decimal_value(s: Seq<u8>) -> nat
    decreases s.len(),
{
    if s.len() == 0 {
        0
    } else {
        decimal_value(s.drop_last()) * 10 + (s.last() - 48) as nat
    }
}

pub proof fn lemma_decimal(n: nat)
    ensures
        decimal(n).len() >= 1,
        all_digits(decimal(n)),
        decimal_value(decimal(n)) == n,
        decimal(n).len() > 1 ==> decimal(n)[0] != 48,
        n > 0 ==> decimal(n)[0] != 48,
    decreases n,
{
    reveal_with_fuel(decimal_value, 2);
    if n >= 10 {
        lemma_decimal(n / 10);
        assert(decimal(n).drop_last() =~= decimal(n / 10));
        assert(decimal(n)[0] == decimal(n / 10)[0]);
    } else {
        assert(decimal(n).drop_last() =~= Seq::<u8>::empty());
    }
}

/// A number below ten to the `count` has at most `count` digits.
pub proof fn lemma_decimal_len(n: nat)
    ensures
        n < 10 ==> decimal(n).len() == 1,
        n <= 0xffff_ffff_ffff_ffff ==> decimal(n).len() <= 20,
{
    reveal_with_fuel(decimal, 21);
}

pub fn push_decimal(out: &mut Vec<u8>, value: u64)
    ensures
        final(out)@ == old(out)@ + decimal(value as nat),
    decreases value,
{
    let ghost before = out@;
    if value < 10 {
        out.push(48 + value as u8);
        assert(out@ =~= before + decimal(value as nat));
    } else {
        push_decimal(out, value / 10);
        out.push(48 + (value % 10) as u8);
        assert(out@ =~= before + decimal(value as nat));
    }
}

pub fn is_all_digits(s: &[u8]) -> (r: bool)
    ensures
        r == all_digits(s@),
{
    let mut i: usize = 0;
    while i < s.len()
        invariant
            i <= s@.len(),
            forall|j: int| 0 <= j < i ==> is_digit(#[trigger] s@[j]),
        decreases s@.len() - i,
    {
        if !(48 <= s[i] && s[i] <= 57) {
            assert(!is_digit(s@[i as int]));
            return false;
        }
        i += 1;
    }
    true
}

pub proof fn lemma_decimal_value_monotone(s: Seq<u8>, i: int)
    requires
        all_digits(s),
        0 <= i <= s.len(),
    ensures
        decimal_value(s.take(i)) <= decimal_value(s),
    decreases s.len(),
{
    if i == s.len() {
        assert(s.take(i) =~= s);
    } else {
        lemma_decimal_value_monotone(s.drop_last(), i);
        assert(s.drop_last().take(i) =~= s.take(i));
    }
}

/// Reads decimal digits; `None` where the number exceeds 64 bits.
pub fn parse_decimal(s: &[u8]) -> (r: Option<u64>)
    requires
        all_digits(s@),
    ensures
        match r {
            Some(value) => value == decimal_value(s@),
            None => decimal_value(s@) > u64::MAX,
        },
{
    let mut value: u64 = 0;
    let mut i: usize = 0;
    while i < s.len()
        invariant
            i <= s@.len(),
            all_digits(s@),
            value == decimal_value(s@.take(i as int)),
        decreases s@.len() - i,
    {
        assert(is_digit(s@[i as int]));
        let digit: u64 = (s[i] - 48) as u64;
        proof {
            assert(s@.take(i + 1).drop_last() =~= s@.take(i as int));
            lemma_decimal_value_monotone(s@, i + 1);
        }
        if value > (u64::MAX - digit) / 10 {
            return None;
        }
        value = value * 10 + digit;
        i += 1;
    }
    assert(s@.take(i as int) =~= s@);
    Some(value)
}

// ---------------------------------------------------------------------------
// Parts one after the other

/// The parts of a run of bytes stand one after the other.
pub proof fn lemma_parts(whole: Seq<u8>, at: int, a: Seq<u8>, b: Seq<u8>)
    requires
        0 <= at,
        at + (a + b).len() <= whole.len(),
        whole.subrange(at, at + (a + b).len()) == a + b,
    ensures
        whole.subrange(at, at + a.len()) == a,
        whole.subrange(at + a.len(), at + a.len() + b.len()) == b,
{
    let part = whole.subrange(at, at + (a + b).len());
    assert(part.take(a.len() as int) =~= a);
    assert(part.skip(a.len() as int) =~= b);
    assert(whole.subrange(at, at + a.len()) =~= part.take(a.len() as int));
    assert(whole.subrange(at + a.len(), at + a.len() + b.len()) =~= part.skip(a.len() as int));
}

/// The bytes of some parts, one after the other.
pub open spec fn flat(parts: Seq<Seq<u8>>) -> Seq<u8>
    decreases parts.len(),
{
    if parts.len() == 0 {
        Seq::empty()
    } else {
        flat(parts.drop_last()) + parts.last()
    }
}

/// Where the part at a position begins.
pub open spec fn start_of(parts: Seq<Seq<u8>>, k: int) -> int {
    flat(parts.take(k)).len() as int
}

/// Each part stands where the parts before it end.
pub proof fn lemma_flat_part(parts: Seq<Seq<u8>>, k: int)
    requires
        0 <= k < parts.len(),
    ensures
        0 <= start_of(parts, k),
        start_of(parts, k) + parts[k].len() <= flat(parts).len(),
        flat(parts).subrange(start_of(parts, k), start_of(parts, k) + parts[k].len()) == parts[k],
        start_of(parts, k + 1) == start_of(parts, k) + parts[k].len(),
    decreases parts.len(),
{
    assert(parts.take(k + 1).drop_last() =~= parts.take(k));
    let at = start_of(parts, k);
    if k == parts.len() - 1 {
        assert(parts.drop_last() =~= parts.take(k));
        assert(flat(parts).subrange(at, at + parts[k].len()) =~= parts[k]);
    } else {
        let front = parts.drop_last();
        lemma_flat_part(front, k);
        assert(front.take(k) =~= parts.take(k));
        assert(flat(parts).subrange(at, at + parts[k].len()) =~= flat(front).subrange(
            at,
            at + parts[k].len(),
        ));
    }
}

/// Parts that come later begin later.
pub proof fn lemma_flat_monotone(parts: Seq<Seq<u8>>, i: int, j: int)
    requires
        0 <= i <= j <= parts.len(),
    ensures
        start_of(parts, i) <= start_of(parts, j) <= flat(parts).len(),
    decreases parts.len() - i,
{
    assert(parts.take(parts.len() as int) =~= parts);
    if i < j {
        lemma_flat_part(parts, i);
        lemma_flat_monotone(parts, i + 1, j);
    } else if j < parts.len() {
        lemma_flat_part(parts, j);
        lemma_flat_monotone(parts, j + 1, parts.len() as int);
    }
}

/// Parts of one width stand at multiples of that width.
pub proof fn lemma_flat_fixed(parts: Seq<Seq<u8>>, width: nat)
    requires
        forall|i: int| 0 <= i < parts.len() ==> #[trigger] parts[i].len() == width,
    ensures
        flat(parts).len() == width * parts.len(),
        forall|k: int|
            0 <= k < parts.len() ==> flat(parts).subrange(
                width * k,
                width * k + width,
            ) == #[trigger] parts[k],
    decreases parts.len(),
{
    if parts.len() > 0 {
        let front = parts.drop_last();
        assert forall|i: int| 0 <= i < front.len() implies #[trigger] front[i].len() == width by {
            assert(front[i] == parts[i]);
        }
        lemma_flat_fixed(front, width);
        let n = front.len();
        assert(width * parts.len() == width * n + width) by (nonlinear_arith)
            requires
                parts.len() == n + 1,
        ;
        assert forall|k: int| 0 <= k < parts.len() implies flat(parts).subrange(
            width * k,
            width * k + width,
        ) == #[trigger] parts[k] by {
            if k < n {
                assert(front[k] == parts[k]);
                assert(0 <= width * k && width * k + width <= width * n) by (nonlinear_arith)
                    requires
                        0 <= k < n,
                        0 <= width,
                ;
                assert(flat(parts).subrange(width * k, width * k + width) =~= flat(front).subrange(
                    width * k,
                    width * k + width,
                ));
            } else {
                assert(flat(parts).subrange(width * k, width * k + width) =~= parts[k]);
            }
        }
    } else {
        assert(width * 0 == 0) by (nonlinear_arith);
    }
}

/// A row of a table that stands at some position in a whole.
pub proof fn lemma_row(whole: Seq<u8>, at: int, table: Seq<Seq<u8>>, width: nat, k: int)
    requires
        0 <= at,
        at + flat(table).len() <= whole.len(),
        whole.subrange(at, at + flat(table).len()) == flat(table),
        forall|i: int| 0 <= i < table.len() ==> #[trigger] table[i].len() == width,
        0 <= k < table.len(),
    ensures
        whole.subrange(at + width * k, at + width * k + width) == table[k],
        at + width * k + width <= whole.len(),
        0 <= width * k,
{
    lemma_flat_fixed(table, width);
    let n = table.len();
    assert(0 <= width * k && width * k + width <= width * n) by (nonlinear_arith)
        requires
            0 <= k < n,
            0 <= width,
    ;
    assert(whole.subrange(at + width * k, at + width * k + width) =~= whole.subrange(
        at,
        at + flat(table).len(),
    ).subrange(width * k, width * k + width));
    assert(table[k] == table[k]);
}

} // verus!
