//! The parts of a mail message: words, dates and encoded text.

use vstd::prelude::*;

use crate::bytes;
use crate::calendar;
use crate::commit;
use crate::commit::{Signature, SignatureModel};
use crate::{Error, Result};

verus! {

// ---------------------------------------------------------------------------
// White space

/// The ASCII white space.
pub open spec fn is_space(b: u8) -> bool {
    b == 32 || b == 9 || b == 10 || b == 12 || b == 13
}

pub open spec fn trimmed_start(s: Seq<u8>) -> Seq<u8>
    decreases s.len(),
{
    if s.len() > 0 && is_space(s[0]) {
        trimmed_start(s.skip(1))
    } else {
        s
    }
}

pub open spec fn trimmed_end(s: Seq<u8>) -> Seq<u8>
    decreases s.len(),
{
    if s.len() > 0 && is_space(s.last()) {
        trimmed_end(s.drop_last())
    } else {
        s
    }
}

/// Bytes without the white space at their ends.
pub open spec fn trimmed(s: Seq<u8>) -> Seq<u8> {
    trimmed_end(trimmed_start(s))
}

fn space(b: u8) -> (r: bool)
    ensures
        r == is_space(b),
{
    b == 32 || b == 9 || b == 10 || b == 12 || b == 13
}

/// Cuts the white space at both ends.
pub fn trim_ascii(s: &[u8]) -> (r: &[u8])
    ensures
        r@ == trimmed(s@),
{
    let mut from: usize = 0;
    assert(s@.skip(0) =~= s@);
    while from < s.len() && space(s[from])
        invariant
            from <= s@.len(),
            trimmed_start(s@) == trimmed_start(s@.skip(from as int)),
        decreases s@.len() - from,
    {
        assert(s@.skip(from as int).skip(1) =~= s@.skip(from + 1));
        from += 1;
    }
    let ghost front = s@.skip(from as int);
    assert(trimmed_start(s@) == front) by {
        if from < s@.len() {
            assert(front[0] == s@[from as int]);
        }
    }
    let mut to: usize = s.len();
    assert(s@.subrange(from as int, to as int) =~= front);
    while to > from && space(s[to - 1])
        invariant
            from <= to <= s@.len(),
            trimmed_end(front) == trimmed_end(s@.subrange(from as int, to as int)),
        decreases to,
    {
        let ghost here = s@.subrange(from as int, to as int);
        assert(here.last() == s@[to - 1]);
        assert(here.drop_last() =~= s@.subrange(from as int, to - 1));
        to -= 1;
    }
    proof {
        let here = s@.subrange(from as int, to as int);
        if to > from {
            assert(here.last() == s@[to - 1]);
        }
        assert(trimmed_end(here) == here);
    }
    &s[from..to]
}

/// Lines without the empty ones at their ends; one newline stays.
pub open spec fn unpadded_start(s: Seq<u8>) -> Seq<u8>
    decreases s.len(),
{
    if s.len() > 0 && s[0] == 10 {
        unpadded_start(s.skip(1))
    } else {
        s
    }
}

pub open spec fn unpadded_end(s: Seq<u8>) -> Seq<u8>
    decreases s.len(),
{
    if s.len() > 1 && s.last() == 10 && s[s.len() - 2] == 10 {
        unpadded_end(s.drop_last())
    } else {
        s
    }
}

/// Cuts the empty lines at both ends.
pub fn trim_blank_lines(s: &[u8]) -> (r: &[u8])
    ensures
        r@ == unpadded_end(unpadded_start(s@)),
{
    let mut from: usize = 0;
    assert(s@.skip(0) =~= s@);
    while from < s.len() && s[from] == 10
        invariant
            from <= s@.len(),
            unpadded_start(s@) == unpadded_start(s@.skip(from as int)),
        decreases s@.len() - from,
    {
        assert(s@.skip(from as int).skip(1) =~= s@.skip(from + 1));
        from += 1;
    }
    let ghost front = s@.skip(from as int);
    assert(unpadded_start(s@) == front) by {
        if from < s@.len() {
            assert(front[0] == s@[from as int]);
        }
    }
    let mut to: usize = s.len();
    assert(s@.subrange(from as int, to as int) =~= front);
    while to - from > 1 && s[to - 1] == 10 && s[to - 2] == 10
        invariant
            from <= to <= s@.len(),
            unpadded_end(front) == unpadded_end(s@.subrange(from as int, to as int)),
        decreases to,
    {
        let ghost here = s@.subrange(from as int, to as int);
        assert(here.last() == s@[to - 1] && here[here.len() - 2] == s@[to - 2]);
        assert(here.drop_last() =~= s@.subrange(from as int, to - 1));
        to -= 1;
    }
    proof {
        let here = s@.subrange(from as int, to as int);
        if to - from > 1 {
            assert(here.last() == s@[to - 1] && here[here.len() - 2] == s@[to - 2]);
        }
        assert(unpadded_end(here) == here);
    }
    &s[from..to]
}

// ---------------------------------------------------------------------------
// Encoded words

/// The letter of the base64 alphabet for a number below 64.
pub open spec fn letter(n: int) -> u8 {
    if n < 26 {
        (65 + n) as u8
    } else if n < 52 {
        (71 + n) as u8
    } else if n < 62 {
        (n - 4) as u8
    } else if n == 62 {
        43
    } else {
        47
    }
}

/// Bytes in base64.
pub open spec fn base64(s: Seq<u8>) -> Seq<u8>
    decreases s.len(),
{
    if s.len() == 0 {
        Seq::empty()
    } else if s.len() == 1 {
        seq![letter((s[0] / 4) as int), letter((s[0] % 4) * 16), 61u8, 61u8]
    } else if s.len() == 2 {
        seq![
            letter((s[0] / 4) as int),
            letter((s[0] % 4) * 16 + s[1] / 16),
            letter((s[1] % 16) * 4),
            61u8,
        ]
    } else {
        seq![
            letter((s[0] / 4) as int),
            letter((s[0] % 4) * 16 + s[1] / 16),
            letter((s[1] % 16) * 4 + s[2] / 64),
            letter((s[2] % 64) as int),
        ] + base64(s.skip(3))
    }
}

fn letter_of(n: u8) -> (r: u8)
    requires
        n < 64,
    ensures
        r == letter(n as int),
{
    if n < 26 {
        65 + n
    } else if n < 52 {
        71 + n
    } else if n < 62 {
        n - 4
    } else if n == 62 {
        43
    } else {
        47
    }
}

/// Writes bytes in base64.
pub fn push_base64(out: &mut Vec<u8>, s: &[u8])
    ensures
        final(out)@ == old(out)@ + base64(s@),
{
    let ghost start = out@;
    let mut at: usize = 0;
    assert(s@.skip(0) =~= s@);
    assert(start + Seq::<u8>::empty() =~= start);
    while s.len() - at > 2
        invariant
            at <= s@.len(),
            start + base64(s@) == out@ + base64(s@.skip(at as int)),
        decreases s@.len() - at,
    {
        let ghost before = out@;
        let ghost rest = s@.skip(at as int);
        let a: u8 = s[at];
        let b: u8 = s[at + 1];
        let c: u8 = s[at + 2];
        out.push(letter_of(a / 4));
        out.push(letter_of((a % 4) * 16 + b / 16));
        out.push(letter_of((b % 16) * 4 + c / 64));
        out.push(letter_of(c % 64));
        proof {
            assert(rest[0] == a && rest[1] == b && rest[2] == c);
            assert(rest.skip(3) =~= s@.skip(at + 3));
            assert(before + base64(rest) =~= out@ + base64(rest.skip(3)));
        }
        at += 3;
    }
    let ghost rest = s@.skip(at as int);
    let ghost before = out@;
    if s.len() - at == 1 {
        let a: u8 = s[at];
        out.push(letter_of(a / 4));
        out.push(letter_of((a % 4) * 16));
        out.push(61);
        out.push(61);
        assert(rest[0] == a);
    } else if s.len() - at == 2 {
        let a: u8 = s[at];
        let b: u8 = s[at + 1];
        out.push(letter_of(a / 4));
        out.push(letter_of((a % 4) * 16 + b / 16));
        out.push(letter_of((b % 16) * 4));
        out.push(61);
        assert(rest[0] == a && rest[1] == b);
    }
    assert(out@ =~= before + base64(rest));
}

/// A byte that a header shows as it is.
pub open spec fn printable(b: u8) -> bool {
    32 <= b <= 126
}

pub open spec fn all_printable(s: Seq<u8>) -> bool {
    forall|i: int| 0 <= i < s.len() ==> printable(#[trigger] s[i])
}

/// A text in a header: as it is, or as an encoded word.
pub open spec fn header_text(s: Seq<u8>) -> Seq<u8> {
    if all_printable(s) {
        s
    } else {
        bytes::utf8("=?UTF-8?B?"@) + base64(s) + bytes::utf8("?="@)
    }
}

/// Writes a text in a header.
pub fn push_header_text(out: &mut Vec<u8>, s: &[u8])
    ensures
        final(out)@ == old(out)@ + header_text(s@),
{
    let ghost start = out@;
    let mut i: usize = 0;
    while i < s.len()
        invariant
            i <= s@.len(),
            out@ == start,
            start == old(out)@,
            forall|j: int| 0 <= j < i ==> printable(#[trigger] s@[j]),
        decreases s@.len() - i,
    {
        if !(32 <= s[i] && s[i] <= 126) {
            assert(!printable(s@[i as int]));
            bytes::append(out, "=?UTF-8?B?".as_bytes());
            push_base64(out, s);
            bytes::append(out, "?=".as_bytes());
            assert(out@ =~= start + header_text(s@));
            return;
        }
        i += 1;
    }
    bytes::append(out, s);
}

/// A byte that a display name may only hold between quotes.
pub open spec fn is_special(b: u8) -> bool {
    b == 40 || b == 41 || b == 60 || b == 62 || b == 64 || b == 44 || b == 59 || b == 58 || b == 92
        || b == 34 || b == 46 || b == 91 || b == 93
}

/// A text in which quotes and backslashes are marked.
pub open spec fn quoted(s: Seq<u8>, n: int) -> Seq<u8>
    decreases n,
{
    if n <= 0 {
        Seq::empty()
    } else if s[n - 1] == 34 || s[n - 1] == 92 {
        quoted(s, n - 1).push(92).push(s[n - 1])
    } else {
        quoted(s, n - 1).push(s[n - 1])
    }
}

pub open spec fn is_ascii(s: Seq<u8>) -> bool {
    forall|i: int| 0 <= i < s.len() ==> #[trigger] s[i] < 128
}

/// A display name: encoded where it is not ASCII, and quoted where it has to
/// be.
pub open spec fn display_name(s: Seq<u8>) -> Seq<u8> {
    if !is_ascii(s) {
        header_text(s)
    } else if exists|i: int| 0 <= i < s.len() && is_special(#[trigger] s[i]) {
        quoted(s, s.len() as int).insert(0, 34).push(34)
    } else {
        s
    }
}

/// Writes a display name.
pub fn push_display_name(out: &mut Vec<u8>, s: &[u8])
    ensures
        final(out)@ == old(out)@ + display_name(s@),
{
    let ghost start = out@;
    let mut special = false;
    let mut i: usize = 0;
    while i < s.len()
        invariant
            i <= s@.len(),
            out@ == start,
            start == old(out)@,
            forall|j: int| 0 <= j < i ==> #[trigger] s@[j] < 128,
            special == exists|j: int| 0 <= j < i && is_special(#[trigger] s@[j]),
        decreases s@.len() - i,
    {
        let b: u8 = s[i];
        if b >= 128 {
            push_header_text(out, s);
            return;
        }
        if b == 40 || b == 41 || b == 60 || b == 62 || b == 64 || b == 44 || b == 59 || b == 58 || b
            == 92 || b == 34 || b == 46 || b == 91 || b == 93 {
            assert(is_special(s@[i as int]));
            special = true;
        }
        i += 1;
    }
    if special {
        out.push(34);
        let ghost head = out@;
        let mut k: usize = 0;
        assert(head + quoted(s@, 0) =~= head);
        while k < s.len()
            invariant
                k <= s@.len(),
                out@ == head + quoted(s@, k as int),
            decreases s@.len() - k,
        {
            if s[k] == 34 || s[k] == 92 {
                out.push(92);
            }
            out.push(s[k]);
            assert(out@ =~= head + quoted(s@, k + 1));
            k += 1;
        }
        out.push(34);
        assert(out@ =~= start + quoted(s@, s@.len() as int).insert(0, 34).push(34));
    } else {
        bytes::append(out, s);
    }
}

// ---------------------------------------------------------------------------
// Dates

pub open spec fn weekday_name(n: int) -> Seq<char> {
    if n == 0 {
        "Thu"@
    } else if n == 1 {
        "Fri"@
    } else if n == 2 {
        "Sat"@
    } else if n == 3 {
        "Sun"@
    } else if n == 4 {
        "Mon"@
    } else if n == 5 {
        "Tue"@
    } else {
        "Wed"@
    }
}

pub open spec fn month_name(n: int) -> Seq<char> {
    if n == 1 {
        "Jan"@
    } else if n == 2 {
        "Feb"@
    } else if n == 3 {
        "Mar"@
    } else if n == 4 {
        "Apr"@
    } else if n == 5 {
        "May"@
    } else if n == 6 {
        "Jun"@
    } else if n == 7 {
        "Jul"@
    } else if n == 8 {
        "Aug"@
    } else if n == 9 {
        "Sep"@
    } else if n == 10 {
        "Oct"@
    } else if n == 11 {
        "Nov"@
    } else {
        "Dec"@
    }
}

fn weekday(n: u64) -> (r: &'static str)
    requires
        n < 7,
    ensures
        r@ == weekday_name(n as int),
{
    if n == 0 {
        "Thu"
    } else if n == 1 {
        "Fri"
    } else if n == 2 {
        "Sat"
    } else if n == 3 {
        "Sun"
    } else if n == 4 {
        "Mon"
    } else if n == 5 {
        "Tue"
    } else {
        "Wed"
    }
}

fn month_text(n: u32) -> (r: &'static str)
    requires
        1 <= n <= 12,
    ensures
        r@ == month_name(n as int),
{
    if n == 1 {
        "Jan"
    } else if n == 2 {
        "Feb"
    } else if n == 3 {
        "Mar"
    } else if n == 4 {
        "Apr"
    } else if n == 5 {
        "May"
    } else if n == 6 {
        "Jun"
    } else if n == 7 {
        "Jul"
    } else if n == 8 {
        "Aug"
    } else if n == 9 {
        "Sep"
    } else if n == 10 {
        "Oct"
    } else if n == 11 {
        "Nov"
    } else {
        "Dec"
    }
}

/// The date of a day number.
pub open spec fn date_of(days: int) -> (int, int, int) {
    choose|date: (int, int, int)|
        #![trigger calendar::day_number(date.0, date.1, date.2)]
        calendar::is_date(date.0, date.1, date.2) && calendar::day_number(
            date.0,
            date.1,
            date.2,
        ) == days
}

proof fn lemma_date_of(y: int, m: int, d: int)
    requires
        calendar::is_date(y, m, d),
    ensures
        date_of(calendar::day_number(y, m, d)) == (y, m, d),
{
    let days = calendar::day_number(y, m, d);
    let date = (y, m, d);
    assert(calendar::day_number(date.0, date.1, date.2) == days);
    let other = date_of(days);
    let (a, b, c) = other;
    assert(calendar::is_date(a, b, c) && calendar::day_number(a, b, c) == days);
    if a < y || a == y && (b < m || b == m && c < d) {
        calendar::lemma_dates_ascend(a, b, c, y, m, d);
    } else if y < a || y == a && (m < b || m == b && d < c) {
        calendar::lemma_dates_ascend(y, m, d, a, b, c);
    }
}

/// A moment of a day in the form of mail headers, without its zone.
#[verifier::opaque]
pub open spec fn moment_text(weekday: int, date: (int, int, int), seconds: int) -> Seq<u8> {
    bytes::utf8(weekday_name(weekday)) + seq![44u8, 32u8] + commit::two_digits(date.2) + seq![32u8]
        + bytes::utf8(month_name(date.1)) + seq![32u8] + commit::two_digits(date.0 / 100)
        + commit::two_digits(date.0 % 100) + seq![32u8] + commit::two_digits(seconds / 3600)
        + seq![58u8] + commit::two_digits(seconds / 60 % 60) + seq![58u8] + commit::two_digits(
        seconds % 60,
    ) + seq![32u8]
}

/// The date of a signature in the form of mail headers.
pub open spec fn mail_date(m: SignatureModel) -> core::result::Result<Seq<u8>, Error> {
    let local = m.timestamp + m.offset_minutes * 60;
    let days = local / 86400;
    let date = date_of(days);
    if !(i64::MIN <= local <= i64::MAX) {
        Err(Error::InvalidCommit("author date overflows local time"))
    } else if !(0 <= date.0 <= 9999) {
        Err(Error::InvalidCommit("author year is outside RFC 2822 range"))
    } else {
        Ok(
            moment_text(days % 7, date, local % 86400) + commit::zone_text(
                m.offset_minutes,
                m.unknown_timezone,
            ),
        )
    }
}

fn push_moment(out: &mut Vec<u8>, weekday_number: u64, year: u32, month: u32, day: u32, seconds: u32)
    requires
        weekday_number < 7,
        year <= 9999,
        1 <= month <= 12,
        day < 100,
        seconds < 86400,
    ensures
        final(out)@ == old(out)@ + moment_text(
            weekday_number as int,
            (year as int, month as int, day as int),
            seconds as int,
        ),
{
    reveal(moment_text);
    let ghost start = out@;
    bytes::append(out, weekday(weekday_number).as_bytes());
    out.push(44);
    out.push(32);
    commit::push_two_digits(out, day);
    out.push(32);
    bytes::append(out, month_text(month).as_bytes());
    out.push(32);
    commit::push_two_digits(out, year / 100);
    commit::push_two_digits(out, year % 100);
    out.push(32);
    commit::push_two_digits(out, seconds / 3600);
    out.push(58);
    commit::push_two_digits(out, seconds / 60 % 60);
    out.push(58);
    commit::push_two_digits(out, seconds % 60);
    out.push(32);
    assert(out@ =~= start + moment_text(
        weekday_number as int,
        (year as int, month as int, day as int),
        seconds as int,
    ));
}

/// Splits a number of seconds into days and the rest.
fn split_days(local: i64) -> (r: (i64, u32))
    ensures
        r.0 == local as int / 86400,
        r.1 == local as int % 86400,
        r.1 < 86400,
        -200_000_000_000_000 <= r.0 <= 200_000_000_000_000,
{
    let shifted: u128 = (local as i128 + 86_400 * 1_000_000_000_000_000) as u128;
    let days: i64 = ((shifted / 86_400) as i128 - 1_000_000_000_000_000) as i64;
    let seconds: u32 = (shifted % 86_400) as u32;
    (days, seconds)
}

/// Writes the date of a signature.
pub fn push_mail_date(out: &mut Vec<u8>, signature: &Signature) -> (r: Result<()>)
    ensures
        match mail_date(signature@) {
            Ok(text) => r is Ok && final(out)@ == old(out)@ + text,
            Err(error) => r is Err && r->Err_0 == error,
        },
{
    let offset: i32 = signature.bounded_offset();
    let wide: i128 = signature.timestamp() as i128 + (offset as i128) * 60;
    if wide < i64::MIN as i128 || wide > i64::MAX as i128 {
        return Err(Error::InvalidCommit("author date overflows local time"));
    }
    let (days, seconds) = split_days(wide as i64);
    let (year, month, day) = calendar::civil_from_days(days);
    proof {
        lemma_date_of(year as int, month as int, day as int);
    }
    if year < 0 || year > 9999 {
        return Err(Error::InvalidCommit("author year is outside RFC 2822 range"));
    }
    let weekday_number: u64 = ((days + 7 * 1_000_000_000_000_000) as u64) % 7;
    assert(weekday_number == days as int % 7);
    let ghost start = out@;
    push_moment(out, weekday_number, year as u32, month, day, seconds);
    let ghost middle = out@;
    signature.push_zone(out);
    assert(out@ =~= start + mail_date(signature@)->Ok_0);
    Ok(())
}

} // verus!
