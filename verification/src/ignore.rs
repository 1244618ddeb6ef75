//! Ignore patterns and wildcard matching on bytes.

use vstd::prelude::*;

use crate::bytes;
use crate::fs;
use crate::fs::memory;
use crate::fs::path;
use crate::fs::{Fault, FileSystem, Refusal};
use crate::repository;
use crate::repository::Repository;
use crate::storage;
use crate::{Error, Result};

verus! {

// ---------------------------------------------------------------------------
// Wildcards

/// What a bracket expression says of a byte from `at` on: whether the byte is
/// in it, and where it ends.
pub open spec fn class_from(
    pattern: Seq<u8>,
    value: u8,
    first: int,
    negated: bool,
    at: int,
    matched: bool,
    previous: Option<u8>,
) -> Option<(bool, int)>
    decreases pattern.len() - at,
{
    if at < 0 || at >= pattern.len() {
        None
    } else if pattern[at] == 93 && at > first {
        Some((matched != negated, at + 1))
    } else if pattern[at] == 92 && at + 1 >= pattern.len() {
        None
    } else {
        let escaped = pattern[at] == 92;
        let current = if escaped {
            pattern[at + 1]
        } else {
            pattern[at]
        };
        let next = if escaped {
            at + 2
        } else {
            at + 1
        };
        if current == 45 && previous is Some && !(next < pattern.len() && pattern[next] == 93) {
            if next >= pattern.len() {
                None
            } else {
                class_from(
                    pattern,
                    value,
                    first,
                    negated,
                    next + 1,
                    matched || (previous->0 <= value && value <= pattern[next]),
                    None,
                )
            }
        } else {
            class_from(
                pattern,
                value,
                first,
                negated,
                next,
                matched || current == value,
                Some(current),
            )
        }
    }
}

/// What the bracket expression at `start` says of a byte.
pub open spec fn class_at(pattern: Seq<u8>, value: u8, start: int, slash_sensitive: bool) -> Option<
    (bool, int),
> {
    let negated = start + 1 < pattern.len() && (pattern[start + 1] == 33 || pattern[start + 1]
        == 94);
    let first = if negated {
        start + 2
    } else {
        start + 1
    };
    if slash_sensitive && value == 47 {
        Some((false, start + 1))
    } else {
        class_from(pattern, value, first, negated, first, false, None)
    }
}

/// Where a run of stars ends.
pub open spec fn stars_end(pattern: Seq<u8>, at: int) -> int
    decreases pattern.len() - at,
{
    if 0 <= at < pattern.len() && pattern[at] == 42 {
        stars_end(pattern, at + 1)
    } else {
        at
    }
}

pub proof fn lemma_stars_end(pattern: Seq<u8>, at: int)
    requires
        0 <= at <= pattern.len(),
    ensures
        at <= stars_end(pattern, at) <= pattern.len(),
    decreases pattern.len() - at,
{
    if at < pattern.len() && pattern[at] == 42 {
        lemma_stars_end(pattern, at + 1);
    }
}

pub proof fn lemma_class_from(
    pattern: Seq<u8>,
    value: u8,
    first: int,
    negated: bool,
    at: int,
    matched: bool,
    previous: Option<u8>,
)
    ensures
        match class_from(pattern, value, first, negated, at, matched, previous) {
            Some((_, next)) => at < next <= pattern.len(),
            None => true,
        },
    decreases pattern.len() - at,
{
    if at < 0 || at >= pattern.len() {
    } else if pattern[at] == 93 && at > first {
    } else if pattern[at] == 92 && at + 1 >= pattern.len() {
    } else {
        let escaped = pattern[at] == 92;
        let current = if escaped {
            pattern[at + 1]
        } else {
            pattern[at]
        };
        let next = if escaped {
            at + 2
        } else {
            at + 1
        };
        if current == 45 && previous is Some && !(next < pattern.len() && pattern[next] == 93) {
            if next < pattern.len() {
                lemma_class_from(
                    pattern,
                    value,
                    first,
                    negated,
                    next + 1,
                    matched || (previous->0 <= value && value <= pattern[next]),
                    None,
                );
            }
        } else {
            lemma_class_from(
                pattern,
                value,
                first,
                negated,
                next,
                matched || current == value,
                Some(current),
            );
        }
    }
}

/// A bracket expression ends after it begins.
pub proof fn lemma_class_at(pattern: Seq<u8>, value: u8, start: int, slash_sensitive: bool)
    requires
        0 <= start < pattern.len(),
    ensures
        match class_at(pattern, value, start, slash_sensitive) {
            Some((_, next)) => start < next <= pattern.len(),
            None => true,
        },
{
    let negated = start + 1 < pattern.len() && (pattern[start + 1] == 33 || pattern[start + 1]
        == 94);
    let first = if negated {
        start + 2
    } else {
        start + 1
    };
    lemma_class_from(pattern, value, first, negated, first, false, None);
}

/// Whether the rest of a pattern matches the rest of a text.
pub open spec fn wild(pattern: Seq<u8>, text: Seq<u8>, p: int, t: int, slash_sensitive: bool) -> bool
    decreases pattern.len() - p + text.len() - t,
{
    if p < 0 || t < 0 || p > pattern.len() || t > text.len() {
        false
    } else if p == pattern.len() {
        t == text.len()
    } else if pattern[p] == 92 {
        p + 1 < pattern.len() && t < text.len() && text[t] == pattern[p + 1] && wild(
            pattern,
            text,
            p + 2,
            t + 1,
            slash_sensitive,
        )
    } else if pattern[p] == 63 {
        t < text.len() && (!slash_sensitive || text[t] != 47) && wild(
            pattern,
            text,
            p + 1,
            t + 1,
            slash_sensitive,
        )
    } else if pattern[p] == 42 {
        let end = stars_end(pattern, p + 1);
        let starstar = end - p > 1;
        proof {
            lemma_stars_end(pattern, p + 1);
        }
        if starstar && end < pattern.len() && pattern[end] == 47 {
            wild(pattern, text, end + 1, t, slash_sensitive) || (t < text.len() && wild(
                pattern,
                text,
                p,
                t + 1,
                slash_sensitive,
            ))
        } else {
            wild(pattern, text, end, t, slash_sensitive) || (t < text.len() && (starstar
                || !slash_sensitive || text[t] != 47) && wild(
                pattern,
                text,
                p,
                t + 1,
                slash_sensitive,
            ))
        }
    } else if pattern[p] == 91 {
        proof {
            lemma_class_at(pattern, text[t], p, slash_sensitive);
        }
        t < text.len() && match class_at(pattern, text[t], p, slash_sensitive) {
            Some((matched, next)) => matched && wild(
                pattern,
                text,
                next,
                t + 1,
                slash_sensitive,
            ),
            None => false,
        }
    } else {
        t < text.len() && text[t] == pattern[p] && wild(
            pattern,
            text,
            p + 1,
            t + 1,
            slash_sensitive,
        )
    }
}

/// Whether a pattern matches a text. Where the positions in the pattern and
/// the text together are too many to number, nothing matches.
pub open spec fn wild_match(pattern: Seq<u8>, text: Seq<u8>, slash_sensitive: bool) -> bool {
    (pattern.len() + 1) * (text.len() + 1) <= usize::MAX && wild(
        pattern,
        text,
        0,
        0,
        slash_sensitive,
    )
}

fn match_class(pattern: &[u8], value: u8, start: usize, slash_sensitive: bool) -> (r: Option<
    (bool, usize),
>)
    requires
        start < pattern@.len(),
    ensures
        match class_at(pattern@, value, start as int, slash_sensitive) {
            Some((matched, next)) => r == Some((matched, next as usize)) && start < next
                <= pattern@.len(),
            None => r is None,
        },
{
    assert(pattern.len() <= usize::MAX);
    if slash_sensitive && value == 47 {
        return Some((false, start + 1));
    }
    let negated: bool = start + 1 < pattern.len() && (pattern[start + 1] == 33 || pattern[start + 1]
        == 94);
    let first: usize = if negated {
        start + 2
    } else {
        start + 1
    };
    let mut at: usize = first;
    let mut matched: bool = false;
    let mut previous: Option<u8> = None;
    proof {
        lemma_class_from(pattern@, value, first as int, negated, first as int, false, None);
    }
    while at < pattern.len()
        invariant
            start < first <= at <= pattern@.len(),
            class_at(pattern@, value, start as int, slash_sensitive) == class_from(
                pattern@,
                value,
                first as int,
                negated,
                at as int,
                matched,
                previous,
            ),
            match class_at(pattern@, value, start as int, slash_sensitive) {
                Some((_, next)) => first < next <= pattern@.len(),
                None => true,
            },
        decreases pattern@.len() - at,
    {
        let byte: u8 = pattern[at];
        if byte == 93 && at > first {
            return Some((matched != negated, at + 1));
        }
        let current: u8;
        let next: usize;
        if byte == 92 {
            if at + 1 >= pattern.len() {
                return None;
            }
            current = pattern[at + 1];
            next = at + 2;
        } else {
            current = byte;
            next = at + 1;
        }
        let closes: bool = next < pattern.len() && pattern[next] == 93;
        match previous {
            Some(low) if current == 45 && !closes => {
                if next >= pattern.len() {
                    return None;
                }
                matched = matched || (low <= value && value <= pattern[next]);
                previous = None;
                at = next + 1;
            },
            _ => {
                matched = matched || current == value;
                previous = Some(current);
                at = next;
            },
        }
    }
    None
}

/// The answers for one position in a pattern, from the end of the text back.
spec fn row_is(row: Seq<bool>, pattern: Seq<u8>, text: Seq<u8>, p: int, slash: bool) -> bool {
    forall|j: int|
        0 <= j < row.len() ==> #[trigger] row[j] == wild(pattern, text, p, text.len() - j, slash)
}

spec fn rows_are(rows: Seq<Vec<bool>>, pattern: Seq<u8>, text: Seq<u8>, slash: bool) -> bool {
    forall|i: int|
        0 <= i < rows.len() ==> (#[trigger] rows[i])@.len() == text.len() + 1 && row_is(
            rows[i]@,
            pattern,
            text,
            pattern.len() - i,
            slash,
        )
}

fn look(
    rows: &Vec<Vec<bool>>,
    pattern: &[u8],
    text: &[u8],
    p: usize,
    t: usize,
    slash_sensitive: bool,
) -> (r: bool)
    requires
        rows_are(rows@, pattern@, text@, slash_sensitive),
        p <= pattern@.len(),
        t <= text@.len(),
        pattern@.len() - p < rows@.len(),
    ensures
        r == wild(pattern@, text@, p as int, t as int, slash_sensitive),
{
    let i: usize = pattern.len() - p;
    let j: usize = text.len() - t;
    assert(rows@[i as int]@.len() == text@.len() + 1);
    let answer: bool = rows[i][j];
    assert(rows@[i as int]@[j as int] == answer);
    answer
}

/// The answer for one position in a pattern and one in a text, from the
/// answers for later positions.
fn wildmatch_at(
    rows: &Vec<Vec<bool>>,
    row: &Vec<bool>,
    pattern: &[u8],
    text: &[u8],
    p: usize,
    t: usize,
    slash_sensitive: bool,
) -> (r: bool)
    requires
        rows_are(rows@, pattern@, text@, slash_sensitive),
        p <= pattern@.len(),
        t <= text@.len(),
        rows@.len() == pattern@.len() - p,
        row@.len() == text@.len() - t,
        row_is(row@, pattern@, text@, p as int, slash_sensitive),
    ensures
        r == wild(pattern@, text@, p as int, t as int, slash_sensitive),
{
    if p == pattern.len() {
        return t == text.len();
    }
    let byte: u8 = pattern[p];
    if byte == 92 {
        p + 1 < pattern.len() && t < text.len() && text[t] == pattern[p + 1] && look(
            rows,
            pattern,
            text,
            p + 2,
            t + 1,
            slash_sensitive,
        )
    } else if byte == 63 {
        t < text.len() && (!slash_sensitive || text[t] != 47) && look(
            rows,
            pattern,
            text,
            p + 1,
            t + 1,
            slash_sensitive,
        )
    } else if byte == 42 {
        let mut end: usize = p + 1;
        proof {
            lemma_stars_end(pattern@, p + 1);
        }
        while end < pattern.len() && pattern[end] == 42
            invariant
                p < end <= pattern@.len(),
                stars_end(pattern@, p + 1) == stars_end(pattern@, end as int),
            decreases pattern@.len() - end,
        {
            end += 1;
        }
        let starstar: bool = end - p > 1;
        let later: bool = if t < text.len() {
            let j: usize = text.len() - t - 1;
            assert(row@[j as int] == wild(pattern@, text@, p as int, t + 1, slash_sensitive));
            row[j]
        } else {
            false
        };
        if starstar && end < pattern.len() && pattern[end] == 47 {
            look(rows, pattern, text, end + 1, t, slash_sensitive) || later
        } else {
            look(rows, pattern, text, end, t, slash_sensitive) || (t < text.len() && (starstar
                || !slash_sensitive || text[t] != 47) && later)
        }
    } else if byte == 91 {
        if t >= text.len() {
            return false;
        }
        match match_class(pattern, text[t], p, slash_sensitive) {
            Some((matched, next)) => matched && look(
                rows,
                pattern,
                text,
                next,
                t + 1,
                slash_sensitive,
            ),
            None => false,
        }
    } else {
        t < text.len() && text[t] == byte && look(
            rows,
            pattern,
            text,
            p + 1,
            t + 1,
            slash_sensitive,
        )
    }
}

/// Matches a pattern with wildcards against a text.
pub fn wildmatch_mode(pattern: &[u8], text: &[u8], slash_sensitive: bool) -> (r: bool)
    ensures
        r == wild_match(pattern@, text@, slash_sensitive),
{
    if text.len() == usize::MAX || pattern.len() >= usize::MAX / (text.len() + 1) {
        proof {
            let n = pattern@.len() as int;
            let w = text@.len() as int + 1;
            let m = usize::MAX as int;
            if text@.len() == usize::MAX {
                assert((n + 1) * w > m) by (nonlinear_arith)
                    requires
                        w == m + 1,
                        n >= 0,
                        m > 0,
                ;
            } else {
                assert((n + 1) * w > m) by (nonlinear_arith)
                    requires
                        n >= m / w,
                        w > 0,
                        m >= 0,
                ;
            }
        }
        return false;
    }
    proof {
        let n = pattern@.len() as int;
        let w = text@.len() as int + 1;
        let m = usize::MAX as int;
        assert((n + 1) * w <= m) by (nonlinear_arith)
            requires
                n < m / w,
                w > 0,
                m >= 0,
                n >= 0,
        ;
    }
    let mut rows: Vec<Vec<bool>> = Vec::new();
    while rows.len() <= pattern.len()
        invariant
            rows@.len() <= pattern@.len() + 1,
            pattern@.len() < usize::MAX,
            text@.len() < usize::MAX,
            rows_are(rows@, pattern@, text@, slash_sensitive),
        decreases pattern@.len() + 1 - rows@.len(),
    {
        let p: usize = pattern.len() - rows.len();
        let mut row: Vec<bool> = Vec::new();
        while row.len() <= text.len()
            invariant
                row@.len() <= text@.len() + 1,
                text@.len() < usize::MAX,
                p <= pattern@.len(),
                rows@.len() == pattern@.len() - p,
                rows_are(rows@, pattern@, text@, slash_sensitive),
                row_is(row@, pattern@, text@, p as int, slash_sensitive),
            decreases text@.len() + 1 - row@.len(),
        {
            let t: usize = text.len() - row.len();
            let answer: bool = wildmatch_at(&rows, &row, pattern, text, p, t, slash_sensitive);
            row.push(answer);
        }
        rows.push(row);
    }
    look(&rows, pattern, text, 0, 0, slash_sensitive)
}

/// Matches a path, in which single stars and question marks stop at slashes.
pub fn wildmatch(pattern: &[u8], text: &[u8]) -> (r: bool)
    ensures
        r == wild_match(pattern@, text@, true),
{
    wildmatch_mode(pattern, text, true)
}

/// Matches a reference name, in which wildcards cross slashes.
pub fn wildmatch_ref(pattern: &[u8], text: &[u8]) -> (r: bool)
    ensures
        r == wild_match(pattern@, text@, false),
{
    wildmatch_mode(pattern, text, false)
}

// ---------------------------------------------------------------------------
// Rules

/// How many backslashes stand right before a position.
pub open spec fn backslashes_before(value: Seq<u8>, index: int) -> int
    decreases index,
{
    if index <= 0 || value[index - 1] != 92 {
        0
    } else {
        1 + backslashes_before(value, index - 1)
    }
}

/// Whether the byte at a position is escaped.
pub open spec fn escaped(value: Seq<u8>, index: int) -> bool {
    backslashes_before(value, index) % 2 == 1
}

/// A line without the spaces at its end that are not escaped.
pub open spec fn trimmed(line: Seq<u8>) -> Seq<u8>
    decreases line.len(),
{
    if line.len() > 0 && line.last() == 32 && !escaped(line, line.len() - 1) {
        trimmed(line.drop_last())
    } else {
        line
    }
}

/// What a rule says.
pub struct RuleModel {
    pub base: Seq<u8>,
    pub pattern: Seq<u8>,
    pub negated: bool,
    pub directory_only: bool,
    pub basename_only: bool,
}

/// A line without its first byte where that escapes a `#` or a `!`.
pub open spec fn unescaped_start(line: Seq<u8>) -> Seq<u8> {
    if line.len() >= 2 && line[0] == 92 && (line[1] == 35 || line[1] == 33) {
        line.skip(1)
    } else {
        line
    }
}

/// The rule that a pattern stands for, once the marks in front are read.
pub open spec fn rule_of_pattern(base: Seq<u8>, line: Seq<u8>, negated: bool) -> Option<RuleModel> {
    if line.len() == 0 {
        None
    } else {
        let directory_only = line.last() == 47 && !escaped(line, line.len() - 1);
        let body = if directory_only {
            line.drop_last()
        } else {
            line
        };
        let anchored = body.len() > 0 && body[0] == 47;
        let pattern = if anchored {
            body.skip(1)
        } else {
            body
        };
        if pattern.len() == 0 {
            None
        } else {
            Some(
                RuleModel {
                    base,
                    pattern,
                    negated,
                    directory_only,
                    basename_only: !anchored && !pattern.contains(47),
                },
            )
        }
    }
}

/// The rule that a line stands for, where it stands for one.
pub open spec fn rule_of(base: Seq<u8>, physical: Seq<u8>) -> Option<RuleModel> {
    let stripped = if physical.len() > 0 && physical.last() == 13 {
        physical.drop_last()
    } else {
        physical
    };
    let line = trimmed(stripped);
    if line.len() == 0 || line[0] == 35 {
        None
    } else {
        let start = unescaped_start(line);
        let negated = start[0] == 33;
        rule_of_pattern(
            base,
            if negated {
                start.skip(1)
            } else {
                start
            },
            negated,
        )
    }
}

/// The rules of the first `n` lines.
pub open spec fn rules_of(base: Seq<u8>, lines: Seq<Seq<u8>>, n: int) -> Seq<RuleModel>
    decreases n,
{
    if n <= 0 {
        Seq::empty()
    } else {
        let before = rules_of(base, lines, n - 1);
        match rule_of(base, lines[n - 1]) {
            Some(rule) => before.push(rule),
            None => before,
        }
    }
}

/// A path below the directory of a rule, seen from there.
pub open spec fn relative_to(base: Seq<u8>, path: Seq<u8>) -> Option<Seq<u8>> {
    if base.len() == 0 {
        Some(path)
    } else if bytes::has_prefix(path, base) && path.len() > base.len() && path[base.len() as int]
        == 47 {
        Some(path.skip(base.len() as int + 1))
    } else {
        None
    }
}

/// Whether a pattern matches one of the first `n` parts.
pub open spec fn matches_part(pattern: Seq<u8>, parts: Seq<Seq<u8>>, n: int) -> bool {
    exists|i: int| 0 <= i < n && i < parts.len() && #[trigger] wild_match(pattern, parts[i], true)
}

/// Whether a pattern matches what stands before one of the slashes.
pub open spec fn matches_directory(pattern: Seq<u8>, path: Seq<u8>) -> bool {
    exists|i: int|
        0 <= i < path.len() && path[i] == 47 && #[trigger] wild_match(pattern, path.take(i), true)
}

/// Whether a rule matches a path.
pub open spec fn rule_matches(rule: RuleModel, path: Seq<u8>, is_directory: bool) -> bool {
    match relative_to(rule.base, path) {
        None => false,
        Some(relative) => {
            let parts = bytes::split(relative, 47);
            if rule.directory_only {
                let directories = if is_directory {
                    parts.len() as int
                } else {
                    parts.len() - 1
                };
                if rule.basename_only {
                    matches_part(rule.pattern, parts, directories)
                } else {
                    matches_directory(rule.pattern, relative) || (is_directory && wild_match(
                        rule.pattern,
                        relative,
                        true,
                    ))
                }
            } else if rule.basename_only {
                matches_part(rule.pattern, parts, parts.len() as int)
            } else {
                wild_match(rule.pattern, relative, true)
            }
        },
    }
}

/// Whether a path is ignored by the first `n` rules: the last one that
/// matches decides.
pub open spec fn ignored_by(
    rules: Seq<RuleModel>,
    n: int,
    path: Seq<u8>,
    is_directory: bool,
) -> bool
    decreases n,
{
    if n <= 0 {
        false
    } else if rule_matches(rules[n - 1], path, is_directory) {
        !rules[n - 1].negated
    } else {
        ignored_by(rules, n - 1, path, is_directory)
    }
}

/// One parsed ignore rule and the worktree directory containing its source.
#[derive(Debug, PartialEq, Eq)]
pub struct IgnoreRule {
    base: Vec<u8>,
    pattern: Vec<u8>,
    negated: bool,
    directory_only: bool,
    basename_only: bool,
}

impl View for IgnoreRule {
    type V = RuleModel;

    closed spec fn view(&self) -> RuleModel {
        RuleModel {
            base: self.base@,
            pattern: self.pattern@,
            negated: self.negated,
            directory_only: self.directory_only,
            basename_only: self.basename_only,
        }
    }
}

/// What a list of rules says.
pub open spec fn models(list: Seq<IgnoreRule>) -> Seq<RuleModel> {
    Seq::new(list.len(), |i: int| list[i]@)
}

impl Clone for IgnoreRule {
    fn clone(&self) -> (r: Self)
        ensures
            r@ == self@,
    {
        IgnoreRule {
            base: bytes::to_vec(self.base.as_slice()),
            pattern: bytes::to_vec(self.pattern.as_slice()),
            negated: self.negated,
            directory_only: self.directory_only,
            basename_only: self.basename_only,
        }
    }
}

fn escaped_at(value: &[u8], index: usize) -> (r: bool)
    requires
        index <= value@.len(),
    ensures
        r == escaped(value@, index as int),
{
    let mut at: usize = index;
    let mut odd: bool = false;
    while at > 0 && value[at - 1] == 92
        invariant
            at <= index <= value@.len(),
            odd == ((index - at) % 2 == 1),
            backslashes_before(value@, index as int) == (index - at) + backslashes_before(
                value@,
                at as int,
            ),
        decreases at,
    {
        odd = !odd;
        at -= 1;
    }
    odd
}

impl IgnoreRule {
    pub fn pattern(&self) -> (r: &[u8])
        ensures
            r@ == self@.pattern,
    {
        self.pattern.as_slice()
    }

    pub fn is_negated(&self) -> (r: bool)
        ensures
            r == self@.negated,
    {
        self.negated
    }

    pub fn is_directory_only(&self) -> (r: bool)
        ensures
            r == self@.directory_only,
    {
        self.directory_only
    }

    fn matches_components(&self, parts: &Vec<Vec<u8>>, count: usize) -> (r: bool)
        requires
            count <= parts@.len(),
        ensures
            r == matches_part(self@.pattern, bytes::deep(parts@), count as int),
    {
        let mut i: usize = 0;
        while i < count
            invariant
                i <= count <= parts@.len(),
                forall|j: int|
                    0 <= j < i ==> !#[trigger] wild_match(
                        self@.pattern,
                        bytes::deep(parts@)[j],
                        true,
                    ),
            decreases count - i,
        {
            assert(bytes::deep(parts@)[i as int] == parts@[i as int]@);
            if wildmatch(self.pattern.as_slice(), parts[i].as_slice()) {
                return true;
            }
            i += 1;
        }
        false
    }

    fn matches_parent(&self, path: &[u8]) -> (r: bool)
        ensures
            r == matches_directory(self@.pattern, path@),
    {
        let mut i: usize = 0;
        while i < path.len()
            invariant
                i <= path@.len(),
                forall|j: int|
                    0 <= j < i && path@[j] == 47 ==> !#[trigger] wild_match(
                        self@.pattern,
                        path@.take(j),
                        true,
                    ),
            decreases path@.len() - i,
        {
            if path[i] == 47 {
                assert(path@.subrange(0, i as int) =~= path@.take(i as int));
                if wildmatch(self.pattern.as_slice(), &path[0..i]) {
                    return true;
                }
            }
            i += 1;
        }
        false
    }

    fn matches(&self, path: &[u8], is_directory: bool) -> (r: bool)
        ensures
            r == rule_matches(self@, path@, is_directory),
    {
        let skipped: usize = if self.base.len() == 0 {
            0
        } else if bytes::starts_with(path, self.base.as_slice()) && path.len() > self.base.len()
            && path[self.base.len()] == 47 {
            self.base.len() + 1
        } else {
            return false;
        };
        let relative = &path[skipped..path.len()];
        assert(relative@ =~= path@.skip(skipped as int));
        assert(self.base@.len() == 0 ==> relative@ =~= path@);
        if self.directory_only {
            if self.basename_only {
                let parts = bytes::split_on(relative, 47);
                proof {
                    bytes::lemma_split_nonempty(relative@, 47);
                }
                let count: usize = if is_directory {
                    parts.len()
                } else {
                    parts.len() - 1
                };
                return self.matches_components(&parts, count);
            }
            return self.matches_parent(relative) || (is_directory && wildmatch(
                self.pattern.as_slice(),
                relative,
            ));
        }
        if self.basename_only {
            let parts = bytes::split_on(relative, 47);
            self.matches_components(&parts, parts.len())
        } else {
            wildmatch(self.pattern.as_slice(), relative)
        }
    }
}

fn parse_pattern(base: &[u8], line: &[u8], negated: bool) -> (r: Option<IgnoreRule>)
    ensures
        match rule_of_pattern(base@, line@, negated) {
            Some(rule) => r is Some && r->0@ == rule,
            None => r is None,
        },
{
    if line.len() == 0 {
        return None;
    }
    let directory_only: bool = line[line.len() - 1] == 47 && !escaped_at(line, line.len() - 1);
    let end: usize = if directory_only {
        line.len() - 1
    } else {
        line.len()
    };
    let anchored: bool = end > 0 && line[0] == 47;
    let start: usize = if anchored {
        1
    } else {
        0
    };
    if start == end {
        return None;
    }
    let pattern = bytes::copy_range(line, start, end);
    proof {
        let body = if directory_only {
            line@.drop_last()
        } else {
            line@
        };
        assert(pattern@ =~= if anchored {
            body.skip(1)
        } else {
            body
        });
    }
    let basename_only: bool = !anchored && !bytes::contains_byte(pattern.as_slice(), 47);
    Some(
        IgnoreRule { base: bytes::to_vec(base), pattern, negated, directory_only, basename_only },
    )
}

fn parse_rule(base: &[u8], physical: &[u8]) -> (r: Option<IgnoreRule>)
    ensures
        match rule_of(base@, physical@) {
            Some(rule) => r is Some && r->0@ == rule,
            None => r is None,
        },
{
    let mut end: usize = physical.len();
    if end > 0 && physical[end - 1] == 13 {
        end = end - 1;
    }
    let ghost stripped = physical@.take(end as int);
    assert(stripped =~= if physical@.len() > 0 && physical@.last() == 13 {
        physical@.drop_last()
    } else {
        physical@
    });
    while end > 0 && physical[end - 1] == 32 && !escaped_at(&physical[0..end], end - 1)
        invariant
            end <= physical@.len(),
            trimmed(stripped) == trimmed(physical@.take(end as int)),
        decreases end,
    {
        assert(physical@.take(end as int).drop_last() =~= physical@.take(end - 1));
        assert(physical@.subrange(0, end as int) =~= physical@.take(end as int));
        end = end - 1;
    }
    let line = &physical[0..end];
    assert(line@ =~= physical@.take(end as int));
    assert(line@ == trimmed(stripped));
    if line.len() == 0 || line[0] == 35 {
        return None;
    }
    let mut start: usize = 0;
    if line.len() >= 2 && line[0] == 92 && (line[1] == 35 || line[1] == 33) {
        start = 1;
    }
    assert(unescaped_start(line@) =~= line@.skip(start as int));
    let negated: bool = line[start] == 33;
    if negated {
        start = start + 1;
    }
    let rest = &line[start..line.len()];
    assert(rest@ =~= if negated {
        unescaped_start(line@).skip(1)
    } else {
        unescaped_start(line@)
    });
    parse_pattern(base, rest, negated)
}

/// Ordered ignore rules. The final matching rule determines the result.
#[derive(Debug, PartialEq, Eq)]
pub struct IgnoreMatcher {
    rules: Vec<IgnoreRule>,
}

impl View for IgnoreMatcher {
    type V = Seq<RuleModel>;

    closed spec fn view(&self) -> Seq<RuleModel> {
        models(self.rules@)
    }
}

impl Default for IgnoreMatcher {
    fn default() -> (r: Self)
        ensures
            r@ == Seq::<RuleModel>::empty(),
    {
        let r = IgnoreMatcher { rules: Vec::new() };
        assert(r@ =~= Seq::empty());
        r
    }
}

impl IgnoreMatcher {
    pub fn rules(&self) -> (r: &[IgnoreRule])
        ensures
            models(r@) == self@,
    {
        self.rules.as_slice()
    }

    /// Append patterns whose paths are relative to `base`.
    ///
    /// Empty lines and unescaped comments are ignored. Invalid NUL-containing
    /// paths or patterns are rejected.
    pub fn add_patterns(&mut self, base: &[u8], contents: &[u8]) -> (r: Result<usize>)
        ensures
            ({
                let lines = bytes::split(contents@, 10);
                let added = rules_of(base@, lines, lines.len() as int);
                if base@.contains(0) || contents@.contains(0) {
                    &&& r is Err
                    &&& r->Err_0 == Error::InvalidRepository("ignore data contains NUL")
                    &&& final(self)@ == old(self)@
                } else {
                    &&& r is Ok
                    &&& r->Ok_0 == added.len()
                    &&& final(self)@ == old(self)@ + added
                }
            }),
    {
        if bytes::contains_byte(base, 0) || bytes::contains_byte(contents, 0) {
            return Err(Error::InvalidRepository("ignore data contains NUL"));
        }
        let lines = bytes::split_on(contents, 10);
        let ghost all = bytes::split(contents@, 10);
        let before: usize = self.rules.len();
        let ghost start = self@;
        let mut n: usize = 0;
        assert(self@ =~= start + rules_of(base@, all, 0));
        while n < lines.len()
            invariant
                n <= lines@.len(),
                all == bytes::deep(lines@),
                self@ == start + rules_of(base@, all, n as int),
                start.len() == before,
            decreases lines@.len() - n,
        {
            assert(all[n as int] == lines@[n as int]@);
            let ghost list = self@;
            match parse_rule(base, lines[n].as_slice()) {
                Some(rule) => {
                    let ghost model = rule@;
                    self.rules.push(rule);
                    assert(self@ =~= list.push(model));
                    assert(self@ =~= start + rules_of(base@, all, n + 1));
                },
                None => {
                    assert(self@ =~= start + rules_of(base@, all, n + 1));
                },
            }
            n += 1;
        }
        assert(self.rules@.len() == self@.len());
        Ok(self.rules.len() - before)
    }

    /// Determine whether `path` is ignored. Paths use index-style `/`
    /// separators and are relative to the worktree root.
    pub fn is_ignored(&self, path: &[u8], is_directory: bool) -> (r: bool)
        ensures
            r == ignored_by(self@, self@.len() as int, path@, is_directory),
    {
        let mut ignored: bool = false;
        let mut n: usize = 0;
        while n < self.rules.len()
            invariant
                n <= self.rules@.len(),
                self@.len() == self.rules@.len(),
                ignored == ignored_by(self@, n as int, path@, is_directory),
            decreases self.rules@.len() - n,
        {
            assert(self@[n as int] == self.rules@[n as int]@);
            if self.rules[n].matches(path, is_directory) {
                ignored = !self.rules[n].negated;
            }
            n += 1;
        }
        ignored
    }
}

impl Clone for IgnoreMatcher {
    fn clone(&self) -> (r: Self)
        ensures
            r@ == self@,
    {
        let mut rules: Vec<IgnoreRule> = Vec::new();
        let mut n: usize = 0;
        while n < self.rules.len()
            invariant
                n <= self.rules@.len(),
                rules@.len() == n,
                forall|i: int| 0 <= i < n ==> (#[trigger] rules@[i])@ == self.rules@[i]@,
            decreases self.rules@.len() - n,
        {
            rules.push(self.rules[n].clone());
            n += 1;
        }
        let r = IgnoreMatcher { rules };
        assert(r@ =~= self@);
        r
    }
}

/// Rules that are added last decide where they match.
pub proof fn lemma_later_rules_decide(
    rules: Seq<RuleModel>,
    rule: RuleModel,
    path: Seq<u8>,
    is_directory: bool,
)
    ensures
        ignored_by(rules.push(rule), rules.len() as int + 1, path, is_directory) == if rule_matches(
            rule,
            path,
            is_directory,
        ) {
            !rule.negated
        } else {
            ignored_by(rules, rules.len() as int, path, is_directory)
        },
{
    lemma_ignored_prefix(rules.push(rule), rules, rules.len() as int, path, is_directory);
}

proof fn lemma_ignored_prefix(
    a: Seq<RuleModel>,
    b: Seq<RuleModel>,
    n: int,
    path: Seq<u8>,
    is_directory: bool,
)
    requires
        0 <= n <= a.len(),
        n <= b.len(),
        forall|i: int| 0 <= i < n ==> a[i] == b[i],
    ensures
        ignored_by(a, n, path, is_directory) == ignored_by(b, n, path, is_directory),
    decreases n,
{
    if n > 0 {
        lemma_ignored_prefix(a, b, n - 1, path, is_directory);
    }
}

// ---------------------------------------------------------------------------
// Ignore files of a repository

/// Rules with those of a file added, or why the file is refused.
pub open spec fn with_patterns(
    rules: Seq<RuleModel>,
    base: Seq<u8>,
    contents: Seq<u8>,
) -> core::result::Result<Seq<RuleModel>, Refusal> {
    if base.contains(0) || contents.contains(0) {
        Err(Refusal::Said(Error::InvalidRepository("ignore data contains NUL")))
    } else {
        let lines = bytes::split(contents, 10);
        Ok(rules + rules_of(base, lines, lines.len() as int))
    }
}

/// Whether a refusal says that a path leads nowhere.
pub open spec fn is_absent(refusal: Refusal) -> bool {
    match refusal {
        Refusal::At(fault, _) => fault is NotFound,
        Refusal::Said(error) => error is NotFound,
    }
}

/// Rules with those of a file that may be absent.
pub open spec fn with_file(
    rules: Seq<RuleModel>,
    base: Seq<u8>,
    read: core::result::Result<Seq<u8>, Refusal>,
) -> core::result::Result<Seq<RuleModel>, Refusal> {
    match read {
        Ok(contents) => with_patterns(rules, base, contents),
        Err(refusal) => if is_absent(refusal) {
            Ok(rules)
        } else {
            Err(refusal)
        },
    }
}

/// The rules that hold for the whole repository.
pub open spec fn repository_rules(files: memory::Tree, git: Seq<u8>) -> core::result::Result<
    Seq<RuleModel>,
    Refusal,
> {
    with_file(
        Seq::empty(),
        Seq::empty(),
        storage::fetched(files, repository::joined(git, bytes::utf8("info/exclude"@))),
    )
}

/// A directory below another; the empty path is the directory itself.
pub open spec fn inside(root: Seq<u8>, relative: Seq<u8>) -> Seq<u8> {
    if relative.len() == 0 {
        root
    } else {
        repository::joined(root, relative)
    }
}

/// Rules with those of a directory of working files.
pub open spec fn directory_rules(
    files: memory::Tree,
    work: Seq<u8>,
    rules: Seq<RuleModel>,
    base: Seq<u8>,
) -> core::result::Result<Seq<RuleModel>, Refusal> {
    with_file(
        rules,
        base,
        storage::fetched(
            files,
            repository::joined(inside(work, base), bytes::utf8(".gitignore"@)),
        ),
    )
}

/// Whether a path is ignored, once the directories that end before `from`
/// were looked at: each directory on the way adds its rules, and one that is
/// ignored itself decides.
pub open spec fn ignored_below(
    files: memory::Tree,
    work: Seq<u8>,
    rules: Seq<RuleModel>,
    path: Seq<u8>,
    is_directory: bool,
    from: int,
) -> core::result::Result<bool, Refusal>
    decreases path.len() - from,
{
    let at = bytes::index_from(path, 47, from);
    if from < 0 || from > path.len() || at >= path.len() {
        Ok(ignored_by(rules, rules.len() as int, path, is_directory))
    } else {
        proof {
            bytes::lemma_index_from(path, 47, from);
        }
        let base = path.take(at);
        match directory_rules(files, work, rules, base) {
            Err(refusal) => Err(refusal),
            Ok(more) => if ignored_by(more, more.len() as int, base, true) {
                Ok(true)
            } else {
                ignored_below(files, work, more, path, is_directory, at + 1)
            },
        }
    }
}

/// Whether a repository ignores a path, or why that cannot be told.
pub open spec fn ignored_in(
    files: memory::Tree,
    git: Seq<u8>,
    work: Seq<u8>,
    path: Seq<u8>,
    is_directory: bool,
) -> core::result::Result<bool, Refusal> {
    match repository_rules(files, git) {
        Err(refusal) => Err(refusal),
        Ok(rules) => match directory_rules(files, work, rules, Seq::empty()) {
            Err(refusal) => Err(refusal),
            Ok(more) => ignored_below(files, work, more, path, is_directory, 0),
        },
    }
}

/// A path below a directory, where the empty path is the directory itself.
pub fn path_inside(root: &[u8], relative: &[u8]) -> (r: Vec<u8>)
    ensures
        r@ == inside(root@, relative@),
{
    if relative.len() == 0 {
        bytes::to_vec(root)
    } else {
        repository::join_path(root, relative)
    }
}

impl IgnoreMatcher {
    fn add_file(&mut self, repository: &Repository, file: &[u8], base: &[u8]) -> (r: Result<()>)
        ensures
            match with_file(old(self)@, base@, storage::fetched(repository.tree(), file@)) {
                Ok(rules) => r is Ok && final(self)@ == rules,
                Err(refusal) => fs::declined(r, refusal),
            },
    {
        match repository.filesystem().read(file) {
            Ok(contents) => {
                self.add_patterns(base, contents.as_slice())?;
                Ok(())
            },
            Err(Error::NotFound(_)) => Ok(()),
            Err(error) => Err(error),
        }
    }

    /// Adds the rules of a directory of working files.
    pub fn add_worktree_patterns(&mut self, repository: &Repository, work_tree: &[u8], base: &[u8]) -> (r:
        Result<()>)
        ensures
            match directory_rules(repository.tree(), work_tree@, old(self)@, base@) {
                Ok(rules) => r is Ok && final(self)@ == rules,
                Err(refusal) => fs::declined(r, refusal),
            },
    {
        let directory = path_inside(work_tree, base);
        let file = repository::join_path(directory.as_slice(), ".gitignore".as_bytes());
        self.add_file(repository, file.as_slice(), base)
    }
}

impl Repository {
    /// The rules that hold for the whole repository.
    pub fn ignore_matcher(&self) -> (r: Result<IgnoreMatcher>)
        ensures
            match repository_rules(self.tree(), self.git()) {
                Ok(rules) => r is Ok && r->Ok_0@ == rules,
                Err(refusal) => fs::declined(r, refusal),
            },
    {
        let mut matcher = IgnoreMatcher::default();
        let file = self.git_path("info/exclude".as_bytes());
        let base: Vec<u8> = Vec::new();
        assert(base@ =~= Seq::empty());
        matcher.add_file(self, file.as_slice(), base.as_slice())?;
        Ok(matcher)
    }

    /// Load `info/exclude` and every applicable `.gitignore`, then test a path.
    ///
    /// A global excludes file outside the repository's storage is not read.
    pub fn is_ignored(&self, path: &[u8], is_directory: bool) -> (r: Result<bool>)
        ensures
            match self.work() {
                None => r is Err && r->Err_0 == Error::InvalidRepository(
                    "ignore matching requires a worktree",
                ),
                Some(work) => match path::normalized(path@) {
                    None => fs::refused(r, Fault::InvalidPath, path@),
                    Some(plain) => match ignored_in(
                        self.tree(),
                        self.git(),
                        work,
                        plain,
                        is_directory,
                    ) {
                        Ok(ignored) => r == Ok::<bool, Error>(ignored),
                        Err(refusal) => fs::declined(r, refusal),
                    },
                },
            },
    {
        let work_tree = match self.work_tree() {
            Some(work_tree) => work_tree,
            None => return Err(Error::InvalidRepository("ignore matching requires a worktree")),
        };
        let plain = path::validate(path)?;
        let mut matcher = self.ignore_matcher()?;
        let root: Vec<u8> = Vec::new();
        assert(root@ =~= Seq::empty());
        matcher.add_worktree_patterns(self, work_tree, root.as_slice())?;
        let mut from: usize = 0;
        while from <= plain.len()
            invariant
                self.work() == Some(work_tree@),
                path::normalized(path@) == Some(plain@),
                from <= plain@.len(),
                ignored_in(self.tree(), self.git(), work_tree@, plain@, is_directory)
                    == ignored_below(
                    self.tree(),
                    work_tree@,
                    matcher@,
                    plain@,
                    is_directory,
                    from as int,
                ),
            decreases plain@.len() + 1 - from,
        {
            let at: usize = bytes::find_byte(plain.as_slice(), 47, from);
            if at >= plain.len() {
                return Ok(matcher.is_ignored(plain.as_slice(), is_directory));
            }
            let base = &plain.as_slice()[0..at];
            assert(base@ =~= plain@.take(at as int));
            matcher.add_worktree_patterns(self, work_tree, base)?;
            if matcher.is_ignored(base, true) {
                return Ok(true);
            }
            from = at + 1;
        }
        Ok(matcher.is_ignored(plain.as_slice(), is_directory))
    }
}

/// A byte that means more than itself in a pattern.
pub open spec fn is_special(b: u8) -> bool {
    b == 42 || b == 63 || b == 91 || b == 92
}

/// A pattern without special bytes matches one text: itself.
pub proof fn lemma_plain_pattern_matches_itself(
    pattern: Seq<u8>,
    text: Seq<u8>,
    slash_sensitive: bool,
)
    requires
        forall|i: int| 0 <= i < pattern.len() ==> !is_special(#[trigger] pattern[i]),
    ensures
        wild(pattern, text, 0, 0, slash_sensitive) == (pattern == text),
{
    lemma_plain_rest(pattern, text, 0, slash_sensitive);
    assert(pattern.skip(0) =~= pattern);
    assert(text.skip(0) =~= text);
}

proof fn lemma_plain_rest(pattern: Seq<u8>, text: Seq<u8>, n: int, slash_sensitive: bool)
    requires
        0 <= n <= pattern.len(),
        n <= text.len(),
        forall|i: int| 0 <= i < pattern.len() ==> !is_special(#[trigger] pattern[i]),
    ensures
        wild(pattern, text, n, n, slash_sensitive) == (pattern.skip(n) == text.skip(n)),
    decreases pattern.len() - n,
{
    let p = pattern.skip(n);
    let t = text.skip(n);
    if n == pattern.len() {
        assert(p =~= Seq::empty());
        if n == text.len() {
            assert(t =~= Seq::empty());
        } else {
            assert(t.len() > 0);
        }
    } else {
        assert(!is_special(pattern[n]));
        if n < text.len() && text[n] == pattern[n] {
            lemma_plain_rest(pattern, text, n + 1, slash_sensitive);
            assert(p =~= seq![pattern[n]] + pattern.skip(n + 1));
            assert(t =~= seq![text[n]] + text.skip(n + 1));
            if p == t {
                assert(pattern.skip(n + 1) =~= p.skip(1));
                assert(text.skip(n + 1) =~= t.skip(1));
            }
        } else if n < text.len() {
            assert(p[0] == pattern[n] && t[0] == text[n]);
        } else {
            assert(p.len() > t.len());
        }
    }
}

} // verus!
