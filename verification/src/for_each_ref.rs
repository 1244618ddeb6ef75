//! Bounded filtering and sorting of references.

use vstd::prelude::*;

use crate::bytes;
use crate::commit;
use crate::commit::{AnnotatedTag, Commit, Signature, SignatureModel};
use crate::fs;
use crate::fs::memory;
use crate::fs::Refusal;
use crate::object;
use crate::object::{ObjectId, ObjectKind};
use crate::repository::Repository;
use crate::storage;
use crate::{Error, Result};

verus! {

// ---------------------------------------------------------------------------
// Patterns

/// Whether the members of a class from a place on hold a byte.
pub open spec fn class_holds(class: Seq<u8>, at: int, byte: u8) -> bool
    decreases class.len() - at,
{
    if at < 0 || at >= class.len() {
        false
    } else if at + 2 < class.len() && class[at + 1] == 45 {
        (class[at] <= byte <= class[at + 2]) || class_holds(class, at + 3, byte)
    } else {
        class[at] == byte || class_holds(class, at + 1, byte)
    }
}

/// Whether a class between brackets matches a byte; `!` or `^` at its start
/// turns it round.
pub open spec fn class_matches(class: Seq<u8>, byte: u8) -> bool {
    if class.len() > 0 && (class[0] == 33 || class[0] == 94) {
        !class_holds(class, 1, byte)
    } else {
        class_holds(class, 0, byte)
    }
}

/// Whether the rest of a pattern matches the rest of a text. `*` and `?` stop
/// at slashes and `**` does not.
pub open spec fn matches_from(p: Seq<u8>, t: Seq<u8>, po: int, to: int) -> bool
    decreases p.len() - po + t.len() - to,
{
    if po < 0 || to < 0 || po > p.len() || to > t.len() {
        false
    } else if po == p.len() {
        to == t.len()
    } else if p[po] == 42 {
        let double = po + 1 < p.len() && p[po + 1] == 42;
        let next = if double {
            po + 2
        } else {
            po + 1
        };
        matches_from(p, t, next, to) || (to < t.len() && (double || t[to] != 47) && matches_from(
            p,
            t,
            po,
            to + 1,
        ))
    } else if p[po] == 63 {
        to < t.len() && t[to] != 47 && matches_from(p, t, po + 1, to + 1)
    } else if p[po] == 91 && class_end(p, po) < p.len() {
        to < t.len() && t[to] != 47 && class_matches(
            p.subrange(po + 1, class_end(p, po)),
            t[to],
        ) && class_end(p, po) > po && matches_from(p, t, class_end(p, po) + 1, to + 1)
    } else {
        to < t.len() && p[po] == t[to] && matches_from(p, t, po + 1, to + 1)
    }
}

/// Where the class that opens at a place is closed.
pub open spec fn class_end(p: Seq<u8>, po: int) -> int {
    bytes::index_from(p, 93, po + 1)
}

/// Whether a pattern holds a wildcard.
pub open spec fn has_wildcard(p: Seq<u8>) -> bool {
    exists|i: int| 0 <= i < p.len() && is_wild(#[trigger] p[i])
}

pub open spec fn is_wild(b: u8) -> bool {
    b == 42 || b == 63 || b == 91
}

/// Whether a pattern matches a name: a literal matches the whole name or its
/// leading components.
pub open spec fn pattern_matches(pattern: Seq<u8>, name: Seq<u8>, fold: bool) -> bool {
    let p = if fold {
        bytes::lower(pattern)
    } else {
        pattern
    };
    let t = if fold {
        bytes::lower(name)
    } else {
        name
    };
    if has_wildcard(p) {
        matches_from(p, t, 0, 0)
    } else {
        t == p || (bytes::has_prefix(t, p) && ((p.len() > 0 && p.last() == 47) || (p.len()
            < t.len() && t[p.len() as int] == 47)))
    }
}

fn class_has(class: &[u8], from: usize, byte: u8) -> (r: bool)
    requires
        from <= class@.len(),
    ensures
        r == class_holds(class@, from as int, byte),
{
    let mut at: usize = from;
    while at < class.len()
        invariant
            at <= class@.len(),
            class_holds(class@, from as int, byte) == class_holds(class@, at as int, byte),
        decreases class@.len() - at,
    {
        if class.len() - at > 2 && class[at + 1] == 45 {
            if class[at] <= byte && byte <= class[at + 2] {
                return true;
            }
            at += 3;
        } else {
            if class[at] == byte {
                return true;
            }
            at += 1;
        }
    }
    false
}

fn in_class(class: &[u8], byte: u8) -> (r: bool)
    ensures
        r == class_matches(class@, byte),
{
    if class.len() > 0 && (class[0] == 33 || class[0] == 94) {
        !class_has(class, 1, byte)
    } else {
        class_has(class, 0, byte)
    }
}

/// The row of a table that says where the rest of a text matches.
spec fn is_row(row: Seq<bool>, p: Seq<u8>, t: Seq<u8>, po: int) -> bool {
    row.len() == t.len() + 1 && forall|to: int|
        0 <= to <= t.len() ==> #[trigger] row[to] == matches_from(p, t, po, to)
}

/// Matches a pattern with wildcards. The table holds one row per place of the
/// pattern, the last place first.
fn wildcard(p: &[u8], t: &[u8]) -> (r: bool)
    ensures
        r == matches_from(p@, t@, 0, 0),
{
    let n: usize = p.len();
    let m: usize = t.len();
    let mut rows: Vec<Vec<bool>> = Vec::new();
    let mut last: Vec<bool> = Vec::new();
    let mut i: usize = 0;
    while i < m
        invariant
            i <= m,
            m == t@.len(),
            n == p@.len(),
            last@.len() == i,
            forall|to: int| 0 <= to < i ==> #[trigger] last@[to] == matches_from(p@, t@, n as int, to),
        decreases m - i,
    {
        last.push(false);
        i += 1;
    }
    last.push(true);
    assert(is_row(last@, p@, t@, n as int));
    rows.push(last);
    let mut po: usize = n;
    while po > 0
        invariant
            po <= n,
            n == p@.len(),
            m == t@.len(),
            rows@.len() == n - po + 1,
            forall|k: int| 0 <= k <= n - po ==> is_row((#[trigger] rows@[k])@, p@, t@, n - k),
        decreases po,
    {
        po -= 1;
        let byte: u8 = p[po];
        assert(p.len() <= usize::MAX);
        let end: usize = if byte == 91 {
            bytes::find_byte(p, 93, po + 1)
        } else {
            n
        };
        proof {
            bytes::lemma_index_from(p@, 93, po + 1);
        }
        let double = byte == 42 && po + 1 < n && p[po + 1] == 42;
        let class_at: bool = byte == 91 && end < n;
        let next: usize = if double {
            po + 2
        } else if class_at {
            end + 1
        } else {
            po + 1
        };
        let follow: &Vec<bool> = &rows[n - next];
        assert(is_row(rows@[n - next]@, p@, t@, next as int));
        let class: &[u8] = if class_at {
            &p[po + 1..end]
        } else {
            p
        };
        // The row is filled from its end, then turned round.
        let mut back: Vec<bool> = Vec::new();
        let mut to: usize = m;
        let first = byte == 42 && follow[m];
        back.push(first);
        assert(first == matches_from(p@, t@, po as int, m as int));
        while to > 0
            invariant
                to <= m,
                po < n,
                n == p@.len(),
                m == t@.len(),
                byte == p@[po as int],
                byte == 91 ==> end == class_end(p@, po as int),
                end <= n,
                class_at == (byte == 91 && end < n),
                class_at ==> end > po && class@ == p@.subrange(po + 1, end as int),
                double == (byte == 42 && po + 1 < n && p@[po + 1] == 42),
                next == (if double {
                    po + 2
                } else if class_at {
                    end + 1
                } else {
                    po + 1
                }),
                is_row(follow@, p@, t@, next as int),
                back@.len() == m - to + 1,
                forall|k: int|
                    0 <= k <= m - to ==> #[trigger] back@[k] == matches_from(
                        p@,
                        t@,
                        po as int,
                        m - k,
                    ),
            decreases to,
        {
            to -= 1;
            let here: u8 = t[to];
            let step = follow[to + 1];
            let value = if byte == 42 {
                follow[to] || ((double || here != 47) && back[m - to - 1])
            } else if byte == 63 {
                here != 47 && step
            } else if class_at {
                here != 47 && in_class(class, here) && step
            } else {
                byte == here && step
            };
            assert(value == matches_from(p@, t@, po as int, to as int));
            back.push(value);
        }
        let mut row: Vec<bool> = Vec::new();
        let mut k: usize = 0;
        while k < m
            invariant
                k <= m,
                m == t@.len(),
                back@.len() == m + 1,
                forall|j: int|
                    0 <= j <= m ==> #[trigger] back@[j] == matches_from(p@, t@, po as int, m - j),
                row@.len() == k,
                forall|to: int|
                    0 <= to < k ==> #[trigger] row@[to] == matches_from(p@, t@, po as int, to),
            decreases m - k,
        {
            row.push(back[m - k]);
            k += 1;
        }
        row.push(back[0]);
        assert(is_row(row@, p@, t@, po as int));
        rows.push(row);
    }
    assert(is_row(rows@[n as int]@, p@, t@, 0));
    rows[n][0]
}

/// Tells whether a pattern matches a name.
pub fn path_pattern(pattern: &[u8], name: &[u8], fold: bool) -> (r: bool)
    ensures
        r == pattern_matches(pattern@, name@, fold),
{
    let p = if fold {
        bytes::to_lower(pattern)
    } else {
        bytes::to_vec(pattern)
    };
    let t = if fold {
        bytes::to_lower(name)
    } else {
        bytes::to_vec(name)
    };
    let mut i: usize = 0;
    while i < p.len()
        invariant
            i <= p@.len(),
            p@ == (if fold {
                bytes::lower(pattern@)
            } else {
                pattern@
            }),
            t@ == (if fold {
                bytes::lower(name@)
            } else {
                name@
            }),
            forall|j: int| 0 <= j < i ==> !is_wild(#[trigger] p@[j]),
        decreases p@.len() - i,
    {
        if p[i] == 42 || p[i] == 63 || p[i] == 91 {
            assert(is_wild(p@[i as int]));
            return wildcard(p.as_slice(), t.as_slice());
        }
        i += 1;
    }
    let n: usize = p.len();
    bytes::bytes_eq(t.as_slice(), p.as_slice()) || (bytes::starts_with(t.as_slice(), p.as_slice())
        && ((n > 0 && p[n - 1] == 47) || (n < t.len() && t[n] == 47)))
}

/// Whether one of some patterns matches a name.
pub open spec fn any_matches(name: Seq<u8>, patterns: Seq<Seq<u8>>, fold: bool) -> bool {
    exists|i: int|
        0 <= i < patterns.len() && pattern_matches(#[trigger] patterns[i], name, fold)
}

fn matches_one(name: &[u8], patterns: &Vec<Vec<u8>>, fold: bool) -> (r: bool)
    ensures
        r == any_matches(name@, bytes::deep(patterns@), fold),
{
    let ghost all = bytes::deep(patterns@);
    let mut i: usize = 0;
    while i < patterns.len()
        invariant
            i <= patterns@.len(),
            all == bytes::deep(patterns@),
            forall|j: int| 0 <= j < i ==> !pattern_matches(#[trigger] all[j], name@, fold),
        decreases patterns@.len() - i,
    {
        assert(all[i as int] == patterns@[i as int]@);
        if path_pattern(patterns[i].as_slice(), name, fold) {
            return true;
        }
        i += 1;
    }
    false
}

// ---------------------------------------------------------------------------
// What is asked and what is known

/// A field by which references are ordered.
#[derive(Clone, Copy, Debug, PartialEq, Eq, Structural)]
pub enum RefSortField {
    RefName,
    ObjectName,
    ObjectType,
    CreatorDate,
    AuthorDate,
    CommitterDate,
    TaggerDate,
}

/// One ordering key. Later keys are primary.
#[derive(Clone, Copy, Debug, PartialEq, Eq, Structural)]
pub struct RefSortKey {
    pub field: RefSortField,
    pub descending: bool,
}

impl RefSortKey {
    pub fn ascending(field: RefSortField) -> (r: Self)
        ensures
            r == (RefSortKey { field, descending: false }),
    {
        RefSortKey { field, descending: false }
    }

    pub fn descending(field: RefSortField) -> (r: Self)
        ensures
            r == (RefSortKey { field, descending: true }),
    {
        RefSortKey { field, descending: true }
    }
}

/// Selection, ordering and limits of a listing of references.
pub struct ForEachRefOptions {
    pub patterns: Vec<Vec<u8>>,
    pub exclude_patterns: Vec<Vec<u8>>,
    pub points_at: Vec<ObjectId>,
    pub contains: Vec<ObjectId>,
    pub no_contains: Vec<ObjectId>,
    pub merged_into: Vec<ObjectId>,
    pub not_merged_into: Vec<ObjectId>,
    pub include_head: bool,
    pub ignore_case: bool,
    pub sort: Vec<RefSortKey>,
    pub start_after: Option<Vec<u8>>,
    pub count: Option<usize>,
    pub max_references: usize,
    pub max_tag_depth: usize,
    pub max_object_size: usize,
}

impl Default for ForEachRefOptions {
    fn default() -> (r: Self)
        ensures
            r.patterns@.len() == 0 && r.exclude_patterns@.len() == 0,
            r.points_at@.len() == 0 && r.contains@.len() == 0 && r.no_contains@.len() == 0,
            r.merged_into@.len() == 0 && r.not_merged_into@.len() == 0,
            !r.include_head && !r.ignore_case,
            r.sort@.len() == 0 && r.start_after is None && r.count is None,
            r.max_references == 1_000_000 && r.max_tag_depth == 64,
            r.max_object_size == 1024 * 1024 * 1024,
    {
        ForEachRefOptions {
            patterns: Vec::new(),
            exclude_patterns: Vec::new(),
            points_at: Vec::new(),
            contains: Vec::new(),
            no_contains: Vec::new(),
            merged_into: Vec::new(),
            not_merged_into: Vec::new(),
            include_head: false,
            ignore_case: false,
            sort: Vec::new(),
            start_after: None,
            count: None,
            max_references: 1_000_000,
            max_tag_depth: 64,
            max_object_size: 1024 * 1024 * 1024,
        }
    }
}

/// A reference and the object that it leads to.
#[derive(Debug, PartialEq, Eq)]
pub struct ResolvedReference {
    pub name: Vec<u8>,
    pub symbolic_target: Option<Vec<u8>>,
    pub id: ObjectId,
}

/// What is known of the history: pairs of a commit and one of its
/// descendants.
pub struct Ancestry {
    pub pairs: Vec<(ObjectId, ObjectId)>,
}

impl Ancestry {
    /// Whether a commit is another or an ancestor of it.
    pub open spec fn precedes(self, ancestor: Seq<u8>, descendant: Seq<u8>) -> bool {
        ancestor == descendant || exists|i: int|
            0 <= i < self.pairs@.len() && (#[trigger] self.pairs@[i]).0@ == ancestor
                && self.pairs@[i].1@ == descendant
    }

    /// Tells whether a commit is another or an ancestor of it.
    pub fn is_ancestor(&self, ancestor: ObjectId, descendant: ObjectId) -> (r: bool)
        ensures
            r == self.precedes(ancestor@, descendant@),
    {
        if ancestor.same(&descendant) {
            return true;
        }
        let mut i: usize = 0;
        while i < self.pairs.len()
            invariant
                i <= self.pairs@.len(),
                ancestor@ != descendant@,
                forall|j: int|
                    0 <= j < i ==> !((#[trigger] self.pairs@[j]).0@ == ancestor@
                        && self.pairs@[j].1@ == descendant@),
            decreases self.pairs@.len() - i,
        {
            if self.pairs[i].0.same(&ancestor) && self.pairs[i].1.same(&descendant) {
                return true;
            }
            i += 1;
        }
        false
    }
}

/// The object and the identities of a selected reference.
#[derive(Debug, PartialEq, Eq)]
pub struct ForEachRefEntry {
    name: Vec<u8>,
    object_id: ObjectId,
    object_kind: ObjectKind,
    symbolic_target: Option<Vec<u8>>,
    peeled_id: ObjectId,
    peeled_kind: ObjectKind,
    author: Option<Signature>,
    committer: Option<Signature>,
    tagger: Option<Signature>,
}

/// What a selected reference says.
#[verifier::ext_equal]
pub struct RefModel {
    pub name: Seq<u8>,
    pub object_id: Seq<u8>,
    pub object_kind: ObjectKind,
    pub symbolic_target: Option<Seq<u8>>,
    pub peeled_id: Seq<u8>,
    pub peeled_kind: ObjectKind,
    pub author: Option<SignatureModel>,
    pub committer: Option<SignatureModel>,
    pub tagger: Option<SignatureModel>,
}

/// What an optional signature says.
pub open spec fn signed(signature: Option<Signature>) -> Option<SignatureModel> {
    match signature {
        Some(signature) => Some(signature@),
        None => None,
    }
}

/// What an optional text holds.
pub open spec fn text(value: Option<Vec<u8>>) -> Option<Seq<u8>> {
    match value {
        Some(value) => Some(value@),
        None => None,
    }
}

impl View for ForEachRefEntry {
    type V = RefModel;

    closed spec fn view(&self) -> RefModel {
        RefModel {
            name: self.name@,
            object_id: self.object_id@,
            object_kind: self.object_kind,
            symbolic_target: text(self.symbolic_target),
            peeled_id: self.peeled_id@,
            peeled_kind: self.peeled_kind,
            author: signed(self.author),
            committer: signed(self.committer),
            tagger: signed(self.tagger),
        }
    }
}

pub open spec fn models(list: Seq<ForEachRefEntry>) -> Seq<RefModel> {
    Seq::new(list.len(), |i: int| list[i]@)
}

impl ForEachRefEntry {
    pub fn name(&self) -> (r: &[u8])
        ensures
            r@ == self@.name,
    {
        self.name.as_slice()
    }

    pub fn object_id(&self) -> (r: ObjectId)
        ensures
            r@ == self@.object_id,
    {
        self.object_id
    }

    pub fn object_kind(&self) -> (r: ObjectKind)
        ensures
            r == self@.object_kind,
    {
        self.object_kind
    }

    pub fn symbolic_target(&self) -> (r: Option<&[u8]>)
        ensures
            match r {
                Some(name) => self@.symbolic_target == Some(name@),
                None => self@.symbolic_target is None,
            },
    {
        match &self.symbolic_target {
            Some(name) => Some(name.as_slice()),
            None => None,
        }
    }

    pub fn peeled_id(&self) -> (r: ObjectId)
        ensures
            r@ == self@.peeled_id,
    {
        self.peeled_id
    }

    pub fn peeled_kind(&self) -> (r: ObjectKind)
        ensures
            r == self@.peeled_kind,
    {
        self.peeled_kind
    }

    pub fn author(&self) -> (r: Option<&Signature>)
        ensures
            match r {
                Some(signature) => self@.author == Some(signature@),
                None => self@.author is None,
            },
    {
        match &self.author {
            Some(signature) => Some(signature),
            None => None,
        }
    }

    pub fn committer(&self) -> (r: Option<&Signature>)
        ensures
            match r {
                Some(signature) => self@.committer == Some(signature@),
                None => self@.committer is None,
            },
    {
        match &self.committer {
            Some(signature) => Some(signature),
            None => None,
        }
    }

    pub fn tagger(&self) -> (r: Option<&Signature>)
        ensures
            match r {
                Some(signature) => self@.tagger == Some(signature@),
                None => self@.tagger is None,
            },
    {
        match &self.tagger {
            Some(signature) => Some(signature),
            None => None,
        }
    }
}

// ---------------------------------------------------------------------------
// Selection

/// Why options are refused.
pub open spec fn options_fault(options: ForEachRefOptions) -> Option<Error> {
    if has_empty(options.patterns@) || has_empty(options.exclude_patterns@) {
        Some(Error::InvalidReference("empty for-each-ref pattern"))
    } else if options.start_after is Some && (options.patterns@.len() > 0 || options.sort@.len()
        > 0) {
        Some(
            Error::InvalidReference(
                "start-after cannot be combined with patterns or explicit sorting",
            ),
        )
    } else {
        None
    }
}

pub open spec fn has_empty(list: Seq<Vec<u8>>) -> bool {
    exists|i: int| 0 <= i < list.len() && (#[trigger] list[i])@.len() == 0
}

/// What a tag chain leads to.
#[verifier::ext_equal]
pub struct Unwrapped {
    pub id: Seq<u8>,
    pub kind: ObjectKind,
    pub chain: Seq<Seq<u8>>,
    pub tagger: Option<SignatureModel>,
}

/// Follows annotated tags to the object that they lead to in the end.
pub open spec fn unwrapped(
    files: memory::Tree,
    git: Seq<u8>,
    size: nat,
    id: Seq<u8>,
    chain: Seq<Seq<u8>>,
    tagger: Option<SignatureModel>,
    left: nat,
) -> core::result::Result<Unwrapped, Refusal>
    decreases left,
{
    match storage::stored_object(files, git, id, size) {
        Err(refusal) => Err(refusal),
        Ok((kind, data)) => if kind != ObjectKind::Tag {
            Ok(Unwrapped { id, kind, chain, tagger })
        } else if left == 0 {
            Err(Refusal::Said(Error::InvalidObject("annotated tag depth exceeds limit")))
        } else {
            match commit::tag_from(data) {
                Err(error) => Err(Refusal::Said(error)),
                Ok(tag) => match storage::stored_object(files, git, tag.target, size) {
                    Err(refusal) => Err(refusal),
                    Ok((actual, _)) => if actual != tag.target_kind {
                        Err(Refusal::Said(Error::InvalidObject("tag target type mismatch")))
                    } else {
                        unwrapped(
                            files,
                            git,
                            size,
                            tag.target,
                            chain.push(tag.target),
                            if tagger is Some {
                                tagger
                            } else {
                                tag.tagger
                            },
                            (left - 1) as nat,
                        )
                    },
                },
            }
        },
    }
}

/// Whether a commit stands in the asked relation to one of some others.
pub open spec fn related(
    ancestry: Ancestry,
    ids: Seq<ObjectId>,
    candidate: Seq<u8>,
    candidate_first: bool,
) -> bool {
    exists|i: int|
        0 <= i < ids.len() && if candidate_first {
            ancestry.precedes(candidate, (#[trigger] ids[i])@)
        } else {
            ancestry.precedes(ids[i]@, candidate)
        }
}

/// Whether the history filters let an object through.
pub open spec fn passes(
    options: ForEachRefOptions,
    ancestry: Ancestry,
    id: Seq<u8>,
    kind: ObjectKind,
) -> bool {
    let filtered = options.contains@.len() > 0 || options.no_contains@.len() > 0
        || options.merged_into@.len() > 0 || options.not_merged_into@.len() > 0;
    &&& !filtered || kind == ObjectKind::Commit
    &&& options.contains@.len() == 0 || related(ancestry, options.contains@, id, false)
    &&& !related(ancestry, options.no_contains@, id, false)
    &&& options.merged_into@.len() == 0 || related(ancestry, options.merged_into@, id, true)
    &&& !related(ancestry, options.not_merged_into@, id, true)
}

/// Whether a chain of objects meets the asked ones.
pub open spec fn meets(points_at: Seq<ObjectId>, chain: Seq<Seq<u8>>) -> bool {
    points_at.len() == 0 || exists|i: int, j: int|
        0 <= i < chain.len() && 0 <= j < points_at.len() && #[trigger] chain[i]
            == (#[trigger] points_at[j])@
}

/// Whether the patterns select a name.
pub open spec fn wanted(options: ForEachRefOptions, name: Seq<u8>) -> bool {
    (options.patterns@.len() == 0 || any_matches(
        name,
        bytes::deep(options.patterns@),
        options.ignore_case,
    )) && !any_matches(name, bytes::deep(options.exclude_patterns@), options.ignore_case)
}

/// What a reference contributes to a listing.
#[verifier::opaque]
pub open spec fn contributed(
    files: memory::Tree,
    git: Seq<u8>,
    options: ForEachRefOptions,
    ancestry: Ancestry,
    reference: ResolvedReference,
) -> core::result::Result<Option<RefModel>, Refusal> {
    let size = options.max_object_size as nat;
    let id = reference.id@;
    if !wanted(options, reference.name@) {
        Ok(None)
    } else {
        match storage::stored_object(files, git, id, size) {
            Err(refusal) => Err(refusal),
            Ok((kind, _)) => match unwrapped(
                files,
                git,
                size,
                id,
                seq![id],
                None,
                options.max_tag_depth as nat,
            ) {
                Err(refusal) => Err(refusal),
                Ok(end) => if !meets(options.points_at@, end.chain) || !passes(
                    options,
                    ancestry,
                    end.id,
                    end.kind,
                ) {
                    Ok(None)
                } else {
                    match identities(files, git, end.id, end.kind, size) {
                        Err(refusal) => Err(refusal),
                        Ok((author, committer)) => Ok(
                            Some(
                                RefModel {
                                    name: reference.name@,
                                    object_id: id,
                                    object_kind: kind,
                                    symbolic_target: text(reference.symbolic_target),
                                    peeled_id: end.id,
                                    peeled_kind: end.kind,
                                    author,
                                    committer,
                                    tagger: end.tagger,
                                },
                            ),
                        ),
                    }
                },
            },
        }
    }
}

/// Who wrote and who committed an object.
pub open spec fn identities(
    files: memory::Tree,
    git: Seq<u8>,
    id: Seq<u8>,
    kind: ObjectKind,
    size: nat,
) -> core::result::Result<(Option<SignatureModel>, Option<SignatureModel>), Refusal> {
    if kind != ObjectKind::Commit {
        Ok((None, None))
    } else {
        match storage::stored_object(files, git, id, size) {
            Err(refusal) => Err(refusal),
            Ok((_, data)) => match commit::commit_from(data) {
                Err(error) => Err(Refusal::Said(error)),
                Ok(model) => Ok((Some(model.author), Some(model.committer))),
            },
        }
    }
}

/// What the first `n` references contribute.
pub open spec fn collected(
    files: memory::Tree,
    git: Seq<u8>,
    options: ForEachRefOptions,
    ancestry: Ancestry,
    references: Seq<ResolvedReference>,
    n: int,
) -> core::result::Result<Seq<RefModel>, Refusal>
    decreases n,
{
    if n <= 0 {
        Ok(Seq::empty())
    } else {
        match collected(files, git, options, ancestry, references, n - 1) {
            Err(refusal) => Err(refusal),
            Ok(before) => match contributed(files, git, options, ancestry, references[n - 1]) {
                Err(refusal) => Err(refusal),
                Ok(None) => Ok(before),
                Ok(Some(model)) => Ok(before.push(model)),
            },
        }
    }
}

fn any_empty(list: &Vec<Vec<u8>>) -> (r: bool)
    ensures
        r == has_empty(list@),
{
    let mut i: usize = 0;
    while i < list.len()
        invariant
            i <= list@.len(),
            forall|j: int| 0 <= j < i ==> (#[trigger] list@[j])@.len() != 0,
        decreases list@.len() - i,
    {
        if list[i].len() == 0 {
            return true;
        }
        i += 1;
    }
    false
}

fn validate_options(options: &ForEachRefOptions) -> (r: Result<()>)
    ensures
        match options_fault(*options) {
            Some(error) => r is Err && r->Err_0 == error,
            None => r is Ok,
        },
{
    if any_empty(&options.patterns) || any_empty(&options.exclude_patterns) {
        return Err(Error::InvalidReference("empty for-each-ref pattern"));
    }
    if options.start_after.is_some() && (options.patterns.len() > 0 || options.sort.len() > 0) {
        return Err(
            Error::InvalidReference(
                "start-after cannot be combined with patterns or explicit sorting",
            ),
        );
    }
    Ok(())
}

fn any_related(ancestry: &Ancestry, ids: &Vec<ObjectId>, candidate: ObjectId, candidate_first: bool) -> (r: bool)
    ensures
        r == related(*ancestry, ids@, candidate@, candidate_first),
{
    let mut i: usize = 0;
    while i < ids.len()
        invariant
            i <= ids@.len(),
            forall|j: int|
                0 <= j < i ==> !(if candidate_first {
                    ancestry.precedes(candidate@, (#[trigger] ids@[j])@)
                } else {
                    ancestry.precedes(ids@[j]@, candidate@)
                }),
        decreases ids@.len() - i,
    {
        let found = if candidate_first {
            ancestry.is_ancestor(candidate, ids[i])
        } else {
            ancestry.is_ancestor(ids[i], candidate)
        };
        if found {
            let ghost x = ids@[i as int];
            return true;
        }
        i += 1;
    }
    false
}

fn chain_meets(points_at: &Vec<ObjectId>, chain: &Vec<ObjectId>) -> (r: bool)
    ensures
        r == meets(points_at@, commit::raw_ids(chain@)),
{
    if points_at.len() == 0 {
        return true;
    }
    let ghost all = commit::raw_ids(chain@);
    let mut i: usize = 0;
    while i < chain.len()
        invariant
            i <= chain@.len(),
            all == commit::raw_ids(chain@),
            forall|a: int, b: int|
                0 <= a < i && 0 <= b < points_at@.len() ==> #[trigger] all[a]
                    != (#[trigger] points_at@[b])@,
            points_at@.len() > 0,
        decreases chain@.len() - i,
    {
        assert(all[i as int] == chain@[i as int]@);
        let mut j: usize = 0;
        while j < points_at.len()
            invariant
                i < chain@.len(),
                j <= points_at@.len(),
                all == commit::raw_ids(chain@),
                all[i as int] == chain@[i as int]@,
                forall|b: int| 0 <= b < j ==> all[i as int] != (#[trigger] points_at@[b])@,
                points_at@.len() > 0,
            decreases points_at@.len() - j,
        {
            if chain[i].same(&points_at[j]) {
                assert(all[i as int] == points_at@[j as int]@);
                return true;
            }
            j += 1;
        }
        i += 1;
    }
    false
}

fn passes_filters(options: &ForEachRefOptions, ancestry: &Ancestry, id: ObjectId, kind: ObjectKind) -> (r: bool)
    ensures
        r == passes(*options, *ancestry, id@, kind),
{
    let filtered = options.contains.len() > 0 || options.no_contains.len() > 0
        || options.merged_into.len() > 0 || options.not_merged_into.len() > 0;
    if filtered && kind != ObjectKind::Commit {
        return false;
    }
    (options.contains.len() == 0 || any_related(ancestry, &options.contains, id, false))
        && !any_related(ancestry, &options.no_contains, id, false) && (options.merged_into.len()
        == 0 || any_related(ancestry, &options.merged_into, id, true)) && !any_related(
        ancestry,
        &options.not_merged_into,
        id,
        true,
    )
}

impl Repository {
    /// Follows annotated tags to the object that they lead to: its name and
    /// kind, the objects on the way, and who signed the first tag.
    pub fn unwrap_tags(&self, id: ObjectId, size: usize, depth: usize) -> (r: Result<
        (ObjectId, ObjectKind, Vec<ObjectId>, Option<Signature>),
    >)
        ensures
            match unwrapped(
                self.tree(),
                self.git(),
                size as nat,
                id@,
                seq![id@],
                None,
                depth as nat,
            ) {
                Err(refusal) => fs::declined(r, refusal),
                Ok(end) => r is Ok && r->Ok_0.0@ == end.id && r->Ok_0.1 == end.kind
                    && commit::raw_ids(r->Ok_0.2@) == end.chain && signed(r->Ok_0.3)
                    == end.tagger,
            },
    {
        let mut current = id;
        let mut chain: Vec<ObjectId> = Vec::new();
        chain.push(id);
        assert(commit::raw_ids(chain@) =~= seq![id@]);
        let mut tagger: Option<Signature> = None;
        let mut left: usize = depth;
        let ghost goal = unwrapped(
            self.tree(),
            self.git(),
            size as nat,
            id@,
            seq![id@],
            None,
            left as nat,
        );
        loop
            invariant
                goal == unwrapped(
                    self.tree(),
                    self.git(),
                    size as nat,
                    current@,
                    commit::raw_ids(chain@),
                    signed(tagger),
                    left as nat,
                ),
                goal == unwrapped(
                    self.tree(),
                    self.git(),
                    size as nat,
                    id@,
                    seq![id@],
                    None,
                    depth as nat,
                ),
            decreases left,
        {
            let object = self.read_object_raw(current, size)?;
            if object.kind() != ObjectKind::Tag {
                return Ok((current, object.kind(), chain, tagger));
            }
            if left == 0 {
                return Err(Error::InvalidObject("annotated tag depth exceeds limit"));
            }
            let tag = AnnotatedTag::parse(object.data())?;
            let target = self.read_object_raw(tag.target(), size)?;
            if target.kind() != tag.target_kind() {
                return Err(Error::InvalidObject("tag target type mismatch"));
            }
            if tagger.is_none() {
                tagger = match tag.tagger() {
                    Some(signature) => Some(signature.copy()),
                    None => None,
                };
            }
            current = tag.target();
            let ghost before = chain@;
            chain.push(current);
            assert(commit::raw_ids(chain@) =~= commit::raw_ids(before).push(current@));
            left -= 1;
        }
    }

    fn identities_of(&self, id: ObjectId, kind: ObjectKind, size: usize) -> (r: Result<
        (Option<Signature>, Option<Signature>),
    >)
        ensures
            match identities(self.tree(), self.git(), id@, kind, size as nat) {
                Err(refusal) => fs::declined(r, refusal),
                Ok((author, committer)) => r is Ok && signed(r->Ok_0.0) == author && signed(
                    r->Ok_0.1,
                ) == committer,
            },
    {
        if kind != ObjectKind::Commit {
            return Ok((None, None));
        }
        let object = self.read_object_raw(id, size)?;
        let parsed = Commit::parse(object.data())?;
        Ok((Some(parsed.author().copy()), Some(parsed.committer().copy())))
    }

    fn contribute(
        &self,
        options: &ForEachRefOptions,
        ancestry: &Ancestry,
        reference: &ResolvedReference,
    ) -> (r: Result<Option<ForEachRefEntry>>)
        ensures
            match contributed(self.tree(), self.git(), *options, *ancestry, *reference) {
                Err(refusal) => fs::declined(r, refusal),
                Ok(model) => r is Ok && match r->Ok_0 {
                    Some(entry) => model == Some(entry@),
                    None => model is None,
                },
            },
    {
        reveal(contributed);
        let name = reference.name.as_slice();
        if !(options.patterns.len() == 0 || matches_one(
            name,
            &options.patterns,
            options.ignore_case,
        )) || matches_one(name, &options.exclude_patterns, options.ignore_case) {
            return Ok(None);
        }
        let object = self.read_object_raw(reference.id, options.max_object_size)?;
        let (id, kind, chain, tagger) = self.unwrap_tags(
            reference.id,
            options.max_object_size,
            options.max_tag_depth,
        )?;
        if !chain_meets(&options.points_at, &chain) || !passes_filters(
            options,
            ancestry,
            id,
            kind,
        ) {
            return Ok(None);
        }
        let (author, committer) = self.identities_of(id, kind, options.max_object_size)?;
        let symbolic_target = match &reference.symbolic_target {
            Some(target) => Some(bytes::to_vec(target.as_slice())),
            None => None,
        };
        Ok(
            Some(
                ForEachRefEntry {
                    name: bytes::to_vec(name),
                    object_id: reference.id,
                    object_kind: object.kind(),
                    symbolic_target,
                    peeled_id: id,
                    peeled_kind: kind,
                    author,
                    committer,
                    tagger,
                },
            ),
        )
    }
}

// ---------------------------------------------------------------------------
// Order

/// What references are compared by.
pub enum SortValue {
    Text(Seq<u8>),
    Number(int),
}

/// The time of a signature; none is the earliest of days.
pub open spec fn moment(signature: Option<SignatureModel>) -> int {
    match signature {
        Some(signature) => signature.timestamp as int,
        None => 0,
    }
}

/// The value of a reference under a sort field.
pub open spec fn value_of(m: RefModel, field: RefSortField, fold: bool) -> SortValue {
    match field {
        RefSortField::RefName => SortValue::Text(
            if fold {
                bytes::lower(m.name)
            } else {
                m.name
            },
        ),
        RefSortField::ObjectName => SortValue::Text(m.object_id),
        RefSortField::ObjectType => SortValue::Text(object::kind_name(m.object_kind)),
        RefSortField::CreatorDate => SortValue::Number(
            moment(
                if m.tagger is Some {
                    m.tagger
                } else {
                    m.committer
                },
            ),
        ),
        RefSortField::AuthorDate => SortValue::Number(moment(m.author)),
        RefSortField::CommitterDate => SortValue::Number(moment(m.committer)),
        RefSortField::TaggerDate => SortValue::Number(moment(m.tagger)),
    }
}

/// Whether a value comes before another.
pub open spec fn value_lt(a: SortValue, b: SortValue) -> bool {
    match (a, b) {
        (SortValue::Text(x), SortValue::Text(y)) => bytes::lex_lt(x, y),
        (SortValue::Number(x), SortValue::Number(y)) => x < y,
        _ => false,
    }
}

/// Whether a reference comes before another by the first `n` keys; the last
/// of them decides first, and the names decide where no key does.
pub open spec fn comes_before(a: RefModel, b: RefModel, keys: Seq<RefSortKey>, fold: bool, n: int) -> bool
    decreases n,
{
    if n <= 0 {
        bytes::lex_lt(a.name, b.name)
    } else {
        let key = keys[n - 1];
        let x = value_of(a, key.field, fold);
        let y = value_of(b, key.field, fold);
        if value_lt(x, y) {
            !key.descending
        } else if value_lt(y, x) {
            key.descending
        } else {
            comes_before(a, b, keys, fold, n - 1)
        }
    }
}

/// The keys that order a listing.
pub open spec fn sort_keys(options: ForEachRefOptions) -> Seq<RefSortKey> {
    if options.sort@.len() == 0 {
        seq![RefSortKey { field: RefSortField::RefName, descending: false }]
    } else {
        options.sort@
    }
}

/// A list in which nothing stands behind what it comes before.
pub open spec fn in_order(list: Seq<RefModel>, keys: Seq<RefSortKey>, fold: bool) -> bool {
    forall|i: int, j: int|
        0 <= i < j < list.len() ==> !#[trigger] comes_before(
            list[j],
            list[i],
            keys,
            fold,
            keys.len() as int,
        )
}

/// What of an ordered listing is asked for: what stands behind a marker, up
/// to a count.
pub open spec fn page(list: Seq<RefModel>, options: ForEachRefOptions) -> Seq<RefModel> {
    let rest = match options.start_after {
        Some(marker) => list.filter(|m: RefModel| bytes::lex_lt(marker@, m.name)),
        None => list,
    };
    match options.count {
        Some(count) => if count < rest.len() {
            rest.take(count as int)
        } else {
            rest
        },
        None => rest,
    }
}

proof fn lemma_value_order(a: RefModel, b: RefModel, c: RefModel, field: RefSortField, fold: bool)
    ensures
        ({
            let x = value_of(a, field, fold);
            let y = value_of(b, field, fold);
            let z = value_of(c, field, fold);
            &&& !value_lt(x, x)
            &&& value_lt(x, y) && value_lt(y, z) ==> value_lt(x, z)
            &&& !value_lt(x, y) && !value_lt(y, x) ==> x == y
            &&& !(value_lt(x, y) && value_lt(y, x))
        }),
{
    let x = value_of(a, field, fold);
    let y = value_of(b, field, fold);
    let z = value_of(c, field, fold);
    match (x, y, z) {
        (SortValue::Text(p), SortValue::Text(q), SortValue::Text(s)) => {
            bytes::lemma_lex_irreflexive(p);
            bytes::lemma_lex_total(p, q);
            if bytes::lex_lt(p, q) && bytes::lex_lt(q, s) {
                bytes::lemma_lex_transitive(p, q, s);
            }
            if bytes::lex_lt(p, q) {
                bytes::lemma_lex_asymmetric(p, q);
            }
        },
        _ => {},
    }
}

/// What does not come before is passed on.
proof fn lemma_order_transitive(
    a: RefModel,
    b: RefModel,
    c: RefModel,
    keys: Seq<RefSortKey>,
    fold: bool,
    n: int,
)
    requires
        n <= keys.len(),
        !comes_before(b, a, keys, fold, n),
        !comes_before(c, b, keys, fold, n),
    ensures
        !comes_before(c, a, keys, fold, n),
    decreases n,
{
    if n <= 0 {
        bytes::lemma_lex_total(a.name, b.name);
        bytes::lemma_lex_total(b.name, c.name);
        if bytes::lex_lt(a.name, b.name) && bytes::lex_lt(b.name, c.name) {
            bytes::lemma_lex_transitive(a.name, b.name, c.name);
        }
        if bytes::lex_lt(a.name, c.name) {
            bytes::lemma_lex_asymmetric(a.name, c.name);
        }
        bytes::lemma_lex_irreflexive(a.name);
    } else {
        let field = keys[n - 1].field;
        lemma_value_order(a, b, c, field, fold);
        lemma_value_order(b, a, c, field, fold);
        lemma_value_order(c, b, a, field, fold);
        lemma_value_order(b, c, a, field, fold);
        lemma_value_order(a, c, b, field, fold);
        lemma_value_order(c, a, b, field, fold);
        let x = value_of(a, field, fold);
        let y = value_of(b, field, fold);
        let z = value_of(c, field, fold);
        if x == y && y == z {
            lemma_order_transitive(a, b, c, keys, fold, n - 1);
        }
    }
}

/// Of two references one does not come before the other.
proof fn lemma_order_asymmetric(
    a: RefModel,
    b: RefModel,
    keys: Seq<RefSortKey>,
    fold: bool,
    n: int,
)
    requires
        n <= keys.len(),
        comes_before(a, b, keys, fold, n),
    ensures
        !comes_before(b, a, keys, fold, n),
    decreases n,
{
    if n <= 0 {
        bytes::lemma_lex_asymmetric(a.name, b.name);
    } else {
        lemma_value_order(a, b, a, keys[n - 1].field, fold);
        let x = value_of(a, keys[n - 1].field, fold);
        let y = value_of(b, keys[n - 1].field, fold);
        if !value_lt(x, y) && !value_lt(y, x) {
            lemma_order_asymmetric(a, b, keys, fold, n - 1);
        }
    }
}

fn kind_text(kind: ObjectKind) -> (r: &'static [u8])
    ensures
        r@ == object::kind_name(kind),
{
    kind.as_bytes()
}

fn time_of(signature: &Option<Signature>) -> (r: i64)
    ensures
        r == moment(signed(*signature)),
{
    match signature {
        Some(signature) => signature.timestamp(),
        None => 0,
    }
}

/// Compares two references under a field: less, equal or greater.
fn compare_field(a: &ForEachRefEntry, b: &ForEachRefEntry, field: RefSortField, fold: bool) -> (r: (bool, bool))
    ensures
        r.0 == value_lt(value_of(a@, field, fold), value_of(b@, field, fold)),
        r.1 == value_lt(value_of(b@, field, fold), value_of(a@, field, fold)),
{
    match field {
        RefSortField::RefName => {
            if fold {
                let x = bytes::to_lower(a.name.as_slice());
                let y = bytes::to_lower(b.name.as_slice());
                (
                    bytes::bytes_lt(x.as_slice(), y.as_slice()),
                    bytes::bytes_lt(y.as_slice(), x.as_slice()),
                )
            } else {
                (
                    bytes::bytes_lt(a.name.as_slice(), b.name.as_slice()),
                    bytes::bytes_lt(b.name.as_slice(), a.name.as_slice()),
                )
            }
        },
        RefSortField::ObjectName => (
            a.object_id.before(&b.object_id),
            b.object_id.before(&a.object_id),
        ),
        RefSortField::ObjectType => (
            bytes::bytes_lt(kind_text(a.object_kind), kind_text(b.object_kind)),
            bytes::bytes_lt(kind_text(b.object_kind), kind_text(a.object_kind)),
        ),
        RefSortField::CreatorDate => {
            let x: i64 = if a.tagger.is_some() {
                time_of(&a.tagger)
            } else {
                time_of(&a.committer)
            };
            let y: i64 = if b.tagger.is_some() {
                time_of(&b.tagger)
            } else {
                time_of(&b.committer)
            };
            (x < y, y < x)
        },
        RefSortField::AuthorDate => {
            let x: i64 = time_of(&a.author);
            let y: i64 = time_of(&b.author);
            (x < y, y < x)
        },
        RefSortField::CommitterDate => {
            let x: i64 = time_of(&a.committer);
            let y: i64 = time_of(&b.committer);
            (x < y, y < x)
        },
        RefSortField::TaggerDate => {
            let x: i64 = time_of(&a.tagger);
            let y: i64 = time_of(&b.tagger);
            (x < y, y < x)
        },
    }
}

fn is_before(a: &ForEachRefEntry, b: &ForEachRefEntry, keys: &[RefSortKey], fold: bool) -> (r: bool)
    ensures
        r == comes_before(a@, b@, keys@, fold, keys@.len() as int),
{
    let mut n: usize = keys.len();
    while n > 0
        invariant
            n <= keys@.len(),
            comes_before(a@, b@, keys@, fold, keys@.len() as int) == comes_before(
                a@,
                b@,
                keys@,
                fold,
                n as int,
            ),
        decreases n,
    {
        let key = keys[n - 1];
        let (less, greater) = compare_field(a, b, key.field, fold);
        if less {
            return !key.descending;
        }
        if greater {
            return key.descending;
        }
        n -= 1;
    }
    bytes::bytes_lt(a.name.as_slice(), b.name.as_slice())
}

/// Puts a reference behind all that it does not come before.
fn insert_ordered(
    list: &mut Vec<ForEachRefEntry>,
    entry: ForEachRefEntry,
    keys: &[RefSortKey],
    fold: bool,
)
    requires
        in_order(models(old(list)@), keys@, fold),
    ensures
        in_order(models(final(list)@), keys@, fold),
        models(final(list)@).to_multiset() == models(old(list)@).to_multiset().insert(entry@),
{
    let ghost before = models(list@);
    let mut at: usize = list.len();
    while at > 0 && is_before(&entry, &list[at - 1], keys, fold)
        invariant
            at <= list@.len(),
            before == models(list@),
            forall|j: int|
                at <= j < list@.len() ==> comes_before(
                    entry@,
                    #[trigger] before[j],
                    keys@,
                    fold,
                    keys@.len() as int,
                ),
        decreases at,
    {
        assert(before[at - 1] == list@[at - 1]@);
        at -= 1;
    }
    proof {
        if at > 0 {
            assert(before[at - 1] == list@[at - 1]@);
        }
    }
    let ghost x = entry@;
    list.insert(at, entry);
    proof {
        let after = models(list@);
        assert(after =~= before.insert(at as int, x));
        after.to_multiset_ensures();
        assert(after[at as int] == x);
        assert(after.contains(x));
        assert(after.remove(at as int) =~= before);
        assert(after.to_multiset() =~= before.to_multiset().insert(x));
        assert forall|i: int, j: int| 0 <= i < j < after.len() implies !#[trigger] comes_before(
            after[j],
            after[i],
            keys@,
            fold,
            keys@.len() as int,
        ) by {
            let n = keys@.len() as int;
            if j < at {
                assert(after[i] == before[i] && after[j] == before[j]);
            } else if j == at {
                assert(!comes_before(x, before[at - 1], keys@, fold, n));
                assert(after[i] == before[i]);
                if i < at - 1 {
                    assert(!comes_before(before[at - 1], before[i], keys@, fold, n));
                    lemma_order_transitive(before[i], before[at - 1], x, keys@, fold, n);
                }
            } else if i < at {
                assert(after[i] == before[i] && after[j] == before[j - 1]);
                assert(!comes_before(before[j - 1], before[i], keys@, fold, n));
            } else if i == at {
                assert(after[j] == before[j - 1]);
                lemma_order_asymmetric(x, before[j - 1], keys@, fold, n);
            } else {
                assert(after[i] == before[i - 1] && after[j] == before[j - 1]);
                assert(!comes_before(before[j - 1], before[i - 1], keys@, fold, n));
            }
        }
    }
}

/// Whether a listing is what some references give: in order, and of them all
/// what is asked for.
pub open spec fn lists(r: Seq<RefModel>, all: Seq<RefModel>, options: ForEachRefOptions) -> bool {
    exists|list: Seq<RefModel>|
        #![trigger page(list, options)]
        {
            &&& in_order(list, sort_keys(options), options.ignore_case)
            &&& list.to_multiset() == all.to_multiset()
            &&& r == page(list, options)
        }
}

/// The references that a listing looks at.
pub open spec fn looked_at(
    references: Seq<ResolvedReference>,
    head: Option<ResolvedReference>,
    options: ForEachRefOptions,
) -> core::result::Result<Seq<ResolvedReference>, Refusal> {
    if references.len() > options.max_references {
        Err(Refusal::Said(Error::InvalidRepository("reference enumeration exceeds limit")))
    } else if !options.include_head {
        Ok(references)
    } else if references.len() == options.max_references {
        Err(Refusal::Said(Error::InvalidRepository("reference enumeration exceeds limit")))
    } else {
        match head {
            Some(head) => Ok(references.push(head)),
            None => Err(Refusal::At(fs::Fault::NotFound, bytes::utf8("HEAD"@))),
        }
    }
}

proof fn lemma_collected_persists(
    files: memory::Tree,
    git: Seq<u8>,
    options: ForEachRefOptions,
    ancestry: Ancestry,
    references: Seq<ResolvedReference>,
    n: int,
    m: int,
)
    requires
        0 <= n <= m,
        collected(files, git, options, ancestry, references, n) is Err,
    ensures
        collected(files, git, options, ancestry, references, m) == collected(
            files,
            git,
            options,
            ancestry,
            references,
            n,
        ),
    decreases m - n,
{
    if n < m {
        lemma_collected_persists(files, git, options, ancestry, references, n, m - 1);
    }
}

fn cut_page(list: Vec<ForEachRefEntry>, options: &ForEachRefOptions) -> (r: Vec<ForEachRefEntry>)
    ensures
        models(r@) == page(models(list@), *options),
{
    let ghost all = models(list@);
    let mut list = list;
    let mut rest: Vec<ForEachRefEntry> = Vec::new();
    match &options.start_after {
        None => {
            rest = list;
        },
        Some(marker) => {
            let ghost keep = |m: RefModel| bytes::lex_lt(marker@, m.name);
            // The list is taken from its end and turned round.
            let mut back: Vec<ForEachRefEntry> = Vec::new();
            while list.len() > 0
                invariant
                    list@.len() + back@.len() == all.len(),
                    forall|j: int| 0 <= j < list@.len() ==> #[trigger] list@[j]@ == all[j],
                    forall|j: int|
                        0 <= j < back@.len() ==> #[trigger] back@[j]@ == all[all.len() - 1 - j],
                decreases list@.len(),
            {
                let entry = list.pop().unwrap();
                back.push(entry);
            }
            proof {
                reveal(Seq::filter);
                assert(all.take(0).filter(keep) =~= Seq::empty());
                assert(models(rest@) =~= Seq::empty());
            }
            while back.len() > 0
                invariant
                    back@.len() <= all.len(),
                    keep == (|m: RefModel| bytes::lex_lt(marker@, m.name)),
                    forall|j: int|
                        0 <= j < back@.len() ==> #[trigger] back@[j]@ == all[all.len() - 1 - j],
                    models(rest@) == all.take(all.len() - back@.len()).filter(keep),
                decreases back@.len(),
            {
                let ghost i = all.len() - back@.len();
                let entry = back.pop().unwrap();
                proof {
                    reveal(Seq::filter);
                    assert(all.take(i + 1).drop_last() =~= all.take(i));
                    assert(all.take(i + 1).last() == all[i]);
                    assert(entry@ == all[i]);
                }
                if bytes::bytes_lt(marker.as_slice(), entry.name.as_slice()) {
                    let ghost before = rest@;
                    rest.push(entry);
                    assert(models(rest@) =~= models(before).push(all[i]));
                }
            }
            assert(all.take(all.len() as int) =~= all);
        },
    }
    match options.count {
        None => {},
        Some(count) => {
            let ghost before = models(rest@);
            if count < rest.len() {
                rest.truncate(count);
                assert(models(rest@) =~= before.take(count as int));
            }
        },
    }
    rest
}

impl Repository {
    /// Lists references that pass all filters, in order. Patterns without
    /// wildcards match a name or its leading components, and annotated tags
    /// are followed to what they point at.
    pub fn for_each_ref(
        &self,
        references: Vec<ResolvedReference>,
        head: Option<ResolvedReference>,
        ancestry: &Ancestry,
        options: &ForEachRefOptions,
    ) -> (r: Result<Vec<ForEachRefEntry>>)
        ensures
            match options_fault(*options) {
                Some(error) => r is Err && r->Err_0 == error,
                None => match looked_at(references@, head, *options) {
                    Err(refusal) => fs::declined(r, refusal),
                    Ok(all) => match collected(
                        self.tree(),
                        self.git(),
                        *options,
                        *ancestry,
                        all,
                        all.len() as int,
                    ) {
                        Err(refusal) => fs::declined(r, refusal),
                        Ok(list) => r is Ok && lists(models(r->Ok_0@), list, *options),
                    },
                },
            },
    {
        validate_options(options)?;
        let mut looked = references;
        if looked.len() > options.max_references {
            return Err(Error::InvalidRepository("reference enumeration exceeds limit"));
        }
        if options.include_head {
            if looked.len() == options.max_references {
                return Err(Error::InvalidRepository("reference enumeration exceeds limit"));
            }
            match head {
                Some(head) => looked.push(head),
                None => return Err(Error::NotFound(bytes::to_vec("HEAD".as_bytes()))),
            }
        }
        let mut keys: Vec<RefSortKey> = Vec::new();
        if options.sort.len() == 0 {
            keys.push(RefSortKey::ascending(RefSortField::RefName));
            assert(keys@ =~= sort_keys(*options));
        } else {
            let mut k: usize = 0;
            while k < options.sort.len()
                invariant
                    k <= options.sort@.len(),
                    keys@ == options.sort@.take(k as int),
                decreases options.sort@.len() - k,
            {
                keys.push(options.sort[k]);
                assert(keys@ =~= options.sort@.take(k + 1));
                k += 1;
            }
            assert(keys@ =~= options.sort@);
        }
        let ghost all = looked@;
        assert(looked_at(references@, head, *options) == Ok::<Seq<ResolvedReference>, Refusal>(all));
        let ghost mut list: Seq<RefModel> = Seq::empty();
        let mut out: Vec<ForEachRefEntry> = Vec::new();
        let mut i: usize = 0;
        assert(models(out@) =~= Seq::empty());
        while i < looked.len()
            invariant
                i <= looked@.len(),
                all == looked@,
                options_fault(*options) is None,
                looked_at(references@, head, *options) == Ok::<Seq<ResolvedReference>, Refusal>(
                    all,
                ),
                keys@ == sort_keys(*options),
                collected(self.tree(), self.git(), *options, *ancestry, all, i as int) == Ok::<
                    Seq<RefModel>,
                    Refusal,
                >(list),
                in_order(models(out@), keys@, options.ignore_case),
                models(out@).to_multiset() == list.to_multiset(),
            decreases looked@.len() - i,
        {
            proof {
                if collected(self.tree(), self.git(), *options, *ancestry, all, i + 1) is Err {
                    lemma_collected_persists(
                        self.tree(),
                        self.git(),
                        *options,
                        *ancestry,
                        all,
                        i + 1,
                        all.len() as int,
                    );
                }
            }
            match self.contribute(options, ancestry, &looked[i])? {
                None => {},
                Some(entry) => {
                    proof {
                        list.to_multiset_ensures();
                        list = list.push(entry@);
                    }
                    insert_ordered(&mut out, entry, keys.as_slice(), options.ignore_case);
                },
            }
            i += 1;
        }
        let ghost sorted = models(out@);
        let r = cut_page(out, options);
        assert(models(r@) == page(sorted, *options));
        Ok(r)
    }
}

// ---------------------------------------------------------------------------
// Pages

/// A marker cannot be combined with patterns or a sort order.
pub proof fn lemma_marker_stands_alone(options: ForEachRefOptions)
    requires
        options.start_after is Some,
        options.patterns@.len() > 0 || options.sort@.len() > 0,
    ensures
        options_fault(options) is Some && options_fault(options)->0 is InvalidReference,
{
}

pub open spec fn names_differ(list: Seq<RefModel>) -> bool {
    forall|i: int, j: int|
        0 <= i < j < list.len() ==> (#[trigger] list[i]).name != (#[trigger] list[j]).name
}

proof fn lemma_one_comes_first(
    a: RefModel,
    b: RefModel,
    keys: Seq<RefSortKey>,
    fold: bool,
    n: int,
)
    requires
        a.name != b.name,
    ensures
        comes_before(a, b, keys, fold, n) || comes_before(b, a, keys, fold, n),
    decreases n,
{
    if n > 0 {
        lemma_one_comes_first(a, b, keys, fold, n - 1);
        lemma_value_order(a, b, a, keys[n - 1].field, fold);
    } else {
        bytes::lemma_lex_total(a.name, b.name);
    }
}

/// There is one order of references whose names differ.
proof fn lemma_one_order(
    one: Seq<RefModel>,
    two: Seq<RefModel>,
    keys: Seq<RefSortKey>,
    fold: bool,
)
    requires
        in_order(one, keys, fold),
        in_order(two, keys, fold),
        names_differ(one),
        one.to_multiset() == two.to_multiset(),
    ensures
        one == two,
    decreases one.len(),
{
    broadcast use vstd::seq_lib::group_to_multiset_ensures;

    let n = keys.len() as int;
    assert(one.len() == one.to_multiset().len());
    assert(two.len() == two.to_multiset().len());
    if one.len() == 0 {
        assert(one =~= two);
    } else {
        assert(one.to_multiset().count(one[0]) > 0) by {
            assert(one.contains(one[0]));
        }
        assert(two.contains(one[0]));
        assert(two.to_multiset().count(two[0]) > 0) by {
            assert(two.contains(two[0]));
        }
        assert(one.contains(two[0]));
        let j = two.index_of(one[0]);
        let i = one.index_of(two[0]);
        if one[0] != two[0] {
            assert(one[0].name != one[i].name);
            lemma_one_comes_first(one[0], two[0], keys, fold, n);
            assert(!comes_before(one[i], one[0], keys, fold, n));
            assert(!comes_before(two[j], two[0], keys, fold, n));
        }
        let x = one.drop_first();
        let y = two.drop_first();
        assert(one =~= seq![one[0]] + x);
        assert(two =~= seq![two[0]] + y);
        assert(x =~= one.remove(0));
        assert(y =~= two.remove(0));
        assert(x.to_multiset() =~= one.to_multiset().remove(one[0]));
        assert(y.to_multiset() =~= two.to_multiset().remove(two[0]));
        assert forall|a: int, b: int| 0 <= a < b < x.len() implies !#[trigger] comes_before(
            x[b],
            x[a],
            keys,
            fold,
            n,
        ) by {
            assert(!comes_before(one[b + 1], one[a + 1], keys, fold, n));
        }
        assert forall|a: int, b: int| 0 <= a < b < y.len() implies !#[trigger] comes_before(
            y[b],
            y[a],
            keys,
            fold,
            n,
        ) by {
            assert(!comes_before(two[b + 1], two[a + 1], keys, fold, n));
        }
        assert forall|a: int, b: int| 0 <= a < b < x.len() implies (#[trigger] x[a]).name != (
        #[trigger] x[b]).name by {
            assert(one[a + 1].name != one[b + 1].name);
        }
        lemma_one_order(x, y, keys, fold);
    }
}

/// A page of a listing is what stands behind its marker in the whole listing,
/// in the order of the whole, up to its count.
pub proof fn lemma_pages_are_cut_from_the_whole(
    all: Seq<RefModel>,
    whole: Seq<RefModel>,
    part: Seq<RefModel>,
    options: ForEachRefOptions,
)
    requires
        names_differ(whole),
        lists(
            whole,
            all,
            ForEachRefOptions { start_after: None, count: None, ..options },
        ),
        lists(part, all, options),
    ensures
        part == page(whole, options),
{
    let plain = ForEachRefOptions { start_after: None, count: None, ..options };
    let one = choose|list: Seq<RefModel>|
        #![trigger page(list, plain)]
        {
            &&& in_order(list, sort_keys(plain), plain.ignore_case)
            &&& list.to_multiset() == all.to_multiset()
            &&& whole == page(list, plain)
        };
    let two = choose|list: Seq<RefModel>|
        #![trigger page(list, options)]
        {
            &&& in_order(list, sort_keys(options), options.ignore_case)
            &&& list.to_multiset() == all.to_multiset()
            &&& part == page(list, options)
        };
    assert(whole == one);
    assert(sort_keys(plain) == sort_keys(options));
    lemma_one_order(one, two, sort_keys(options), options.ignore_case);
}

/// Whether no two references have the same name.
pub open spec fn references_differ(list: Seq<ResolvedReference>) -> bool {
    forall|i: int, j: int|
        0 <= i < j < list.len() ==> (#[trigger] list[i]).name@ != (#[trigger] list[j]).name@
}

proof fn lemma_collected_names(
    files: memory::Tree,
    git: Seq<u8>,
    options: ForEachRefOptions,
    ancestry: Ancestry,
    references: Seq<ResolvedReference>,
    n: int,
) -> (at: Seq<int>)
    requires
        0 <= n <= references.len(),
        collected(files, git, options, ancestry, references, n) is Ok,
    ensures
        ({
            let list = collected(files, git, options, ancestry, references, n)->Ok_0;
            &&& at.len() == list.len()
            &&& forall|i: int|
                0 <= i < at.len() ==> 0 <= #[trigger] at[i] < n && list[i].name
                    == references[at[i]].name@
            &&& forall|i: int, j: int| 0 <= i < j < at.len() ==> #[trigger] at[i] < #[trigger] at[j]
        }),
    decreases n,
{
    if n <= 0 {
        Seq::empty()
    } else {
        reveal(contributed);
        let before = lemma_collected_names(files, git, options, ancestry, references, n - 1);
        if contributed(files, git, options, ancestry, references[n - 1])->Ok_0 is Some {
            before.push(n - 1)
        } else {
            before
        }
    }
}

proof fn lemma_same_collection(
    files: memory::Tree,
    git: Seq<u8>,
    options: ForEachRefOptions,
    ancestry: Ancestry,
    references: Seq<ResolvedReference>,
    n: int,
)
    ensures
        collected(files, git, options, ancestry, references, n) == collected(
            files,
            git,
            ForEachRefOptions { start_after: None, count: None, ..options },
            ancestry,
            references,
            n,
        ),
    decreases n,
{
    if n > 0 {
        reveal(contributed);
        let plain = ForEachRefOptions { start_after: None, count: None, ..options };
        lemma_same_collection(files, git, options, ancestry, references, n - 1);
        let reference = references[n - 1];
        assert(wanted(options, reference.name@) == wanted(plain, reference.name@));
        assert forall|id: Seq<u8>, kind: ObjectKind| #[trigger] passes(options, ancestry, id, kind)
            == passes(plain, ancestry, id, kind) by {}
        assert(contributed(files, git, options, ancestry, reference) == contributed(
            files,
            git,
            plain,
            ancestry,
            reference,
        ));
    }
}

proof fn lemma_rearranged_names_differ(list: Seq<RefModel>, whole: Seq<RefModel>)
    requires
        names_differ(list),
        whole.to_multiset() == list.to_multiset(),
    ensures
        names_differ(whole),
{
    broadcast use vstd::seq_lib::group_to_multiset_ensures;

    assert(list.no_duplicates());
    list.lemma_multiset_has_no_duplicates();
    whole.lemma_multiset_has_no_duplicates_conv();
    assert forall|i: int, j: int| 0 <= i < j < whole.len() implies (#[trigger] whole[i]).name != (
    #[trigger] whole[j]).name by {
        assert(whole.contains(whole[i]) && whole.contains(whole[j]));
        assert(list.to_multiset().count(whole[i]) > 0);
        assert(list.to_multiset().count(whole[j]) > 0);
        assert(list.contains(whole[i]) && list.contains(whole[j]));
        let k = list.index_of(whole[i]);
        let l = list.index_of(whole[j]);
        assert(k != l);
        if k < l {
            assert(list[k].name != list[l].name);
        } else {
            assert(list[l].name != list[k].name);
        }
    }
}

/// A listing of references from a marker on, up to a count, is what stands
/// behind the marker in the listing without them, in its order.
pub proof fn lemma_page_of_a_listing(
    files: memory::Tree,
    git: Seq<u8>,
    references: Seq<ResolvedReference>,
    head: Option<ResolvedReference>,
    ancestry: Ancestry,
    options: ForEachRefOptions,
    whole: Seq<RefModel>,
    part: Seq<RefModel>,
)
    requires
        looked_at(references, head, options) is Ok,
        references_differ(looked_at(references, head, options)->Ok_0),
        ({
            let plain = ForEachRefOptions { start_after: None, count: None, ..options };
            let seen = looked_at(references, head, plain)->Ok_0;
            let n = seen.len() as int;
            &&& collected(files, git, plain, ancestry, seen, n) matches Ok(list) && lists(
                whole,
                list,
                plain,
            )
        }),
        ({
            let seen = looked_at(references, head, options)->Ok_0;
            let n = seen.len() as int;
            &&& collected(files, git, options, ancestry, seen, n) matches Ok(list) && lists(
                part,
                list,
                options,
            )
        }),
    ensures
        part == page(whole, options),
{
    let plain = ForEachRefOptions { start_after: None, count: None, ..options };
    let seen = looked_at(references, head, options)->Ok_0;
    let n = seen.len() as int;
    assert(looked_at(references, head, plain)->Ok_0 == seen);
    lemma_same_collection(files, git, options, ancestry, seen, n);
    let list = collected(files, git, options, ancestry, seen, n)->Ok_0;
    let at = lemma_collected_names(files, git, options, ancestry, seen, n);
    assert forall|i: int, j: int| 0 <= i < j < list.len() implies (#[trigger] list[i]).name != (
    #[trigger] list[j]).name by {
        assert(at[i] < at[j]);
        assert(seen[at[i]].name@ != seen[at[j]].name@);
    }
    let sorted = choose|sorted: Seq<RefModel>|
        #![trigger page(sorted, plain)]
        {
            &&& in_order(sorted, sort_keys(plain), plain.ignore_case)
            &&& sorted.to_multiset() == list.to_multiset()
            &&& whole == page(sorted, plain)
        };
    lemma_rearranged_names_differ(list, whole);
    lemma_pages_are_cut_from_the_whole(list, whole, part, options);
}

} // verus!
