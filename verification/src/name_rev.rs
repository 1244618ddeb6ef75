//! Readable names for objects, by way of the references that lead to them.

use vstd::prelude::*;

use crate::bytemap::ByteMap;
use crate::bytes;
use crate::commit;
use crate::commit::AnnotatedTag;
use crate::for_each_ref::ResolvedReference;
use crate::fs;
use crate::fs::memory;
use crate::fs::Refusal;
use crate::ignore;
use crate::merge;
use crate::name_rev_laws;
use crate::object;
use crate::object::{ObjectId, ObjectKind};
use crate::repository::Repository;
use crate::storage;
use crate::{Error, Result};

verus! {

/// How much farther a commit is that is not a first parent.
pub const MERGE_TRAVERSAL_WEIGHT: usize = 65_535;

/// How many seconds older than the targets a commit may be to be looked at.
pub const CUTOFF_SLOP_SECONDS: i64 = 86_400;

/// Which references give names, what happens without one, and the limits.
#[derive(Debug, PartialEq, Eq)]
pub struct NameRevOptions {
    pub tags_only: bool,
    pub include_patterns: Vec<Vec<u8>>,
    pub exclude_patterns: Vec<Vec<u8>>,
    /// Use the bare names of tags where only tags give names.
    pub shorten_tags: bool,
    /// Look at commits of any age.
    pub all: bool,
    /// Give an abbreviation where no reference gives a name.
    pub always: bool,
    /// Leave objects without a name; this goes before `always`.
    pub allow_undefined: bool,
    pub abbreviation: usize,
    pub max_object_size: usize,
    pub max_commits: usize,
    pub max_references: usize,
    pub max_tag_depth: usize,
    pub max_traversal_updates: usize,
    pub max_abbreviation_candidates: usize,
}

impl Default for NameRevOptions {
    fn default() -> (r: Self)
        ensures
            !r.tags_only && !r.shorten_tags && !r.all && !r.always && r.allow_undefined,
            r.include_patterns@.len() == 0 && r.exclude_patterns@.len() == 0,
            r.abbreviation == 7,
            r.max_object_size == 1024 * 1024 * 1024,
            r.max_commits == 10_000_000,
            r.max_references == 1_000_000,
            r.max_tag_depth == 64,
            r.max_traversal_updates == 50_000_000,
            r.max_abbreviation_candidates == 10_000_000,
    {
        NameRevOptions {
            tags_only: false,
            include_patterns: Vec::new(),
            exclude_patterns: Vec::new(),
            shorten_tags: false,
            all: false,
            always: false,
            allow_undefined: true,
            abbreviation: 7,
            max_object_size: 1024 * 1024 * 1024,
            max_commits: 10_000_000,
            max_references: 1_000_000,
            max_tag_depth: 64,
            max_traversal_updates: 50_000_000,
            max_abbreviation_candidates: 10_000_000,
        }
    }
}

/// The name of an object that was asked for.
#[derive(Debug, PartialEq, Eq)]
pub struct NameRevEntry {
    id: ObjectId,
    kind: ObjectKind,
    name: Option<Vec<u8>>,
    fallback: bool,
}

/// What an entry says.
#[verifier::ext_equal]
pub struct Named {
    pub id: Seq<u8>,
    pub kind: ObjectKind,
    pub name: Option<Seq<u8>>,
    pub fallback: bool,
}

impl View for NameRevEntry {
    type V = Named;

    closed spec fn view(&self) -> Named {
        Named {
            id: self.id@,
            kind: self.kind,
            name: match self.name {
                Some(name) => Some(name@),
                None => None,
            },
            fallback: self.fallback,
        }
    }
}

pub open spec fn models(list: Seq<NameRevEntry>) -> Seq<Named> {
    Seq::new(list.len(), |i: int| list[i]@)
}

impl NameRevEntry {
    pub fn id(&self) -> (r: ObjectId)
        ensures
            r@ == self@.id,
    {
        self.id
    }

    pub fn kind(&self) -> (r: ObjectKind)
        ensures
            r == self@.kind,
    {
        self.kind
    }

    pub fn name(&self) -> (r: Option<&[u8]>)
        ensures
            match self@.name {
                Some(name) => r is Some && r->0@ == name,
                None => r is None,
            },
    {
        match &self.name {
            Some(name) => Some(name.as_slice()),
            None => None,
        }
    }

    /// Whether the name is an abbreviation.
    pub fn is_fallback(&self) -> (r: bool)
        ensures
            r == self@.fallback,
    {
        self.fallback
    }
}

// ---------------------------------------------------------------------------
// Names of commits

/// A name that a commit can have: a reference, and the way from there.
#[derive(Debug, PartialEq, Eq)]
pub struct CommitName {
    pub tip_name: Vec<u8>,
    pub tagger_date: i64,
    pub generation: usize,
    pub distance: usize,
    pub from_tag: bool,
}

/// What a name says.
#[verifier::ext_equal]
pub struct NameModel {
    pub tip_name: Seq<u8>,
    pub tagger_date: i64,
    pub generation: nat,
    pub distance: nat,
    pub from_tag: bool,
}

impl View for CommitName {
    type V = NameModel;

    open spec fn view(&self) -> NameModel {
        NameModel {
            tip_name: self.tip_name@,
            tagger_date: self.tagger_date,
            generation: self.generation as nat,
            distance: self.distance as nat,
            from_tag: self.from_tag,
        }
    }
}

/// A sum that stops at the greatest machine number.
pub open spec fn capped(a: nat, b: nat) -> nat {
    if a + b > usize::MAX {
        usize::MAX as nat
    } else {
        a + b
    }
}

fn capped_sum(a: usize, b: usize) -> (r: usize)
    ensures
        r == capped(a as nat, b as nat),
{
    if a > usize::MAX - b {
        usize::MAX
    } else {
        a + b
    }
}

/// How far a commit is; a way along first parents weighs as much as a merge.
pub open spec fn effective(name: NameModel) -> nat {
    capped(
        name.distance,
        if name.generation > 0 {
            MERGE_TRAVERSAL_WEIGHT as nat
        } else {
            0
        },
    )
}

/// Whether a name goes before another: tags go before others, and closer ones
/// before farther; of equally close ones that are no tags the older goes
/// first.
pub open spec fn is_better(existing: NameModel, candidate: NameModel) -> bool {
    let before = effective(existing);
    let after = effective(candidate);
    if existing.from_tag && candidate.from_tag {
        after < before
    } else if existing.from_tag != candidate.from_tag {
        candidate.from_tag
    } else {
        after < before || (after == before && candidate.tagger_date < existing.tagger_date)
    }
}

/// The name of a reference without the mark of a peeled tag.
pub open spec fn base_of(tip: Seq<u8>) -> Seq<u8> {
    if bytes::has_suffix(tip, bytes::utf8("^0"@)) {
        tip.take(tip.len() - bytes::utf8("^0"@).len())
    } else {
        tip
    }
}

/// The way along first parents.
pub open spec fn generations(n: nat) -> Seq<u8> {
    if n == 0 {
        Seq::empty()
    } else {
        seq![126u8] + bytes::decimal(n)
    }
}

pub open spec fn rendered(name: NameModel) -> Seq<u8> {
    if name.generation == 0 {
        name.tip_name
    } else {
        base_of(name.tip_name) + generations(name.generation)
    }
}

/// The name of another than the first parent.
pub open spec fn parent_text(name: NameModel, parent: nat) -> Seq<u8> {
    base_of(name.tip_name) + generations(name.generation) + seq![94u8] + bytes::decimal(parent)
}

fn effective_distance(name: &CommitName) -> (r: usize)
    ensures
        r == effective(name@),
{
    capped_sum(
        name.distance,
        if name.generation > 0 {
            MERGE_TRAVERSAL_WEIGHT
        } else {
            0
        },
    )
}

/// Tells whether a name goes before another.
pub fn better_name(existing: &CommitName, candidate: &CommitName) -> (r: bool)
    ensures
        r == is_better(existing@, candidate@),
{
    let before: usize = effective_distance(existing);
    let after: usize = effective_distance(candidate);
    if existing.from_tag && candidate.from_tag {
        return after < before;
    }
    if existing.from_tag != candidate.from_tag {
        return candidate.from_tag;
    }
    after < before || (after == before && candidate.tagger_date < existing.tagger_date)
}

fn cut_mark(tip: &[u8]) -> (r: Vec<u8>)
    ensures
        r@ == base_of(tip@),
{
    let mark = "^0".as_bytes();
    if bytes::ends_with(tip, mark) {
        let r = bytes::copy_range(tip, 0, tip.len() - mark.len());
        assert(r@ =~= base_of(tip@));
        r
    } else {
        bytes::to_vec(tip)
    }
}

fn push_generations(out: &mut Vec<u8>, n: usize)
    ensures
        final(out)@ == old(out)@ + generations(n as nat),
{
    let ghost start = out@;
    if n > 0 {
        out.push(126);
        bytes::push_decimal(out, n as u64);
    }
    assert(out@ =~= start + generations(n as nat));
}

/// Writes a name out.
pub fn render_name(name: &CommitName) -> (r: Vec<u8>)
    ensures
        r@ == rendered(name@),
{
    if name.generation == 0 {
        return bytes::to_vec(name.tip_name.as_slice());
    }
    let mut out = cut_mark(name.tip_name.as_slice());
    push_generations(&mut out, name.generation);
    out
}

/// Writes the name of a parent out.
pub fn parent_name(name: &CommitName, parent: usize) -> (r: Vec<u8>)
    ensures
        r@ == parent_text(name@, parent as nat),
{
    let mut out = cut_mark(name.tip_name.as_slice());
    push_generations(&mut out, name.generation);
    out.push(94);
    bytes::push_decimal(&mut out, parent as u64);
    assert(out@ =~= parent_text(name@, parent as nat));
    out
}

// ---------------------------------------------------------------------------
// References that give names

/// The first place, at the start or behind a slash, from which a pattern
/// matches.
pub open spec fn subpath_from(path: Seq<u8>, pattern: Seq<u8>, from: int) -> Option<int>
    decreases path.len() - from,
    via subpath_decreases
{
    if from < 0 || from > path.len() {
        None
    } else if ignore::wild_match(pattern, path.skip(from), false) {
        Some(from)
    } else {
        let slash = bytes::index_from(path, 47, from);
        if slash >= path.len() {
            None
        } else {
            subpath_from(path, pattern, slash + 1)
        }
    }
}

#[via_fn]
proof fn subpath_decreases(path: Seq<u8>, pattern: Seq<u8>, from: int) {
    if 0 <= from <= path.len() {
        bytes::lemma_index_from(path, 47, from);
    }
}

/// Finds where a pattern matches the rest of a path.
pub fn subpath_match(path: &[u8], pattern: &[u8]) -> (r: Option<usize>)
    ensures
        match subpath_from(path@, pattern@, 0) {
            Some(at) => r == Some(at as usize) && 0 <= at <= path@.len(),
            None => r is None,
        },
{
    let size: usize = path.len();
    let mut at: usize = 0;
    loop
        invariant
            at <= size,
            size == path@.len(),
            subpath_from(path@, pattern@, 0) == subpath_from(path@, pattern@, at as int),
        decreases size - at,
    {
        let rest = bytes::copy_range(path, at, size);
        assert(rest@ =~= path@.skip(at as int));
        if ignore::wildmatch_ref(pattern, rest.as_slice()) {
            return Some(at);
        }
        proof {
            bytes::lemma_index_from(path@, 47, at as int);
        }
        let slash: usize = bytes::find_byte(path, 47, at);
        if slash >= size {
            return None;
        }
        at = slash + 1;
    }
}

pub open spec fn any_subpath(path: Seq<u8>, patterns: Seq<Seq<u8>>) -> bool {
    exists|k: int| 0 <= k < patterns.len() && subpath_from(path, #[trigger] patterns[k], 0) is Some
}

pub open spec fn is_inner(place: Option<int>) -> bool {
    place is Some && place->0 > 0
}

/// Whether a pattern matches behind the start of a path.
pub open spec fn inner_subpath(path: Seq<u8>, patterns: Seq<Seq<u8>>) -> bool {
    exists|k: int|
        0 <= k < patterns.len() && is_inner(subpath_from(path, #[trigger] patterns[k], 0))
}

/// Whether a reference gives a name.
pub open spec fn gives_name(name: Seq<u8>, options: NameRevOptions) -> bool {
    &&& !options.tags_only || bytes::has_prefix(name, bytes::utf8("refs/tags/"@))
    &&& !any_subpath(name, bytes::deep(options.exclude_patterns@))
    &&& options.include_patterns@.len() == 0 || any_subpath(
        name,
        bytes::deep(options.include_patterns@),
    )
}

/// Whether the bare name of a tag is used.
pub open spec fn is_short(name: Seq<u8>, options: NameRevOptions) -> bool {
    (options.tags_only && options.shorten_tags) || inner_subpath(
        name,
        bytes::deep(options.include_patterns@),
    )
}

/// A name without the prefix that says nothing.
pub open spec fn short_name(name: Seq<u8>, short: bool) -> Seq<u8> {
    let heads = bytes::utf8("refs/heads/"@);
    let tags = bytes::utf8("refs/tags/"@);
    let refs = bytes::utf8("refs/"@);
    if bytes::has_prefix(name, heads) {
        name.skip(heads.len() as int)
    } else if short && bytes::has_prefix(name, tags) {
        name.skip(tags.len() as int)
    } else if bytes::has_prefix(name, refs) {
        name.skip(refs.len() as int)
    } else {
        name
    }
}

fn cut_prefix(name: &[u8], prefix: &[u8]) -> (r: Vec<u8>)
    requires
        bytes::has_prefix(name@, prefix@),
    ensures
        r@ == name@.skip(prefix@.len() as int),
{
    let r = bytes::copy_range(name, prefix.len(), name.len());
    assert(r@ =~= name@.skip(prefix@.len() as int));
    r
}

fn shorten_name(name: &[u8], shorten_tag: bool) -> (r: Vec<u8>)
    ensures
        r@ == short_name(name@, shorten_tag),
{
    if bytes::starts_with(name, "refs/heads/".as_bytes()) {
        return cut_prefix(name, "refs/heads/".as_bytes());
    }
    if shorten_tag && bytes::starts_with(name, "refs/tags/".as_bytes()) {
        return cut_prefix(name, "refs/tags/".as_bytes());
    }
    if bytes::starts_with(name, "refs/".as_bytes()) {
        return cut_prefix(name, "refs/".as_bytes());
    }
    bytes::to_vec(name)
}

/// Whether one of some patterns matches, and whether one matches behind the
/// start.
fn match_subpaths(path: &[u8], patterns: &[Vec<u8>]) -> (r: (bool, bool))
    ensures
        r.0 == any_subpath(path@, bytes::deep(patterns@)),
        r.1 == inner_subpath(path@, bytes::deep(patterns@)),
{
    let ghost all = bytes::deep(patterns@);
    let mut any = false;
    let mut inner = false;
    let mut i: usize = 0;
    while i < patterns.len()
        invariant
            i <= patterns@.len(),
            all == bytes::deep(patterns@),
            any == exists|k: int|
                0 <= k < i && subpath_from(path@, #[trigger] all[k], 0) is Some,
            inner == exists|k: int|
                0 <= k < i && is_inner(subpath_from(path@, #[trigger] all[k], 0)),
        decreases patterns@.len() - i,
    {
        assert(all[i as int] == patterns@[i as int]@);
        let size: usize = path.len();
        if let Some(at) = subpath_match(path, patterns[i].as_slice()) {
            any = true;
            if at > 0 {
                inner = true;
            }
        }
        i += 1;
    }
    (any, inner)
}

// ---------------------------------------------------------------------------
// What is read of objects

/// The time and the parents of a commit.
#[verifier::opaque]
pub open spec fn commit_facts(files: memory::Tree, git: Seq<u8>, id: Seq<u8>, size: nat) -> core::result::Result<
    (i64, Seq<Seq<u8>>),
    Refusal,
> {
    match merge::stored_commit(files, git, id, size) {
        Err(refusal) => Err(refusal),
        Ok(model) => Ok((model.committer.timestamp, model.parents)),
    }
}

#[verifier::opaque]
pub open spec fn kind_of(files: memory::Tree, git: Seq<u8>, id: Seq<u8>, size: nat) -> core::result::Result<
    ObjectKind,
    Refusal,
> {
    match storage::stored_object(files, git, id, size) {
        Err(refusal) => Err(refusal),
        Ok((kind, _)) => Ok(kind),
    }
}

/// The target of a tag with its kind, and when the tag was made.
#[verifier::opaque]
pub open spec fn tag_facts(files: memory::Tree, git: Seq<u8>, id: Seq<u8>, size: nat) -> core::result::Result<
    (Seq<u8>, ObjectKind, Option<i64>),
    Refusal,
> {
    match storage::stored_object(files, git, id, size) {
        Err(refusal) => Err(refusal),
        Ok((kind, data)) => match commit::tag_from(data) {
            Err(error) => Err(Refusal::Said(error)),
            Ok(tag) => Ok(
                (
                    tag.target,
                    tag.target_kind,
                    match tag.tagger {
                        Some(tagger) => Some(tagger.timestamp),
                        None => None,
                    },
                ),
            ),
        },
    }
}

/// Where a chain of tags ends, its kind, and when the last tag was made.
pub open spec fn peeled(
    files: memory::Tree,
    git: Seq<u8>,
    size: nat,
    id: Seq<u8>,
    kind: ObjectKind,
    date: Option<i64>,
    left: nat,
) -> core::result::Result<(Seq<u8>, ObjectKind, Option<i64>), Refusal>
    decreases left,
{
    if !(kind is Tag) {
        Ok((id, kind, date))
    } else if left == 0 {
        Err(Refusal::Said(Error::InvalidObject("annotated tag depth exceeds limit")))
    } else {
        match tag_facts(files, git, id, size) {
            Err(refusal) => Err(refusal),
            Ok((target, target_kind, date)) => match kind_of(files, git, target, size) {
                Err(refusal) => Err(refusal),
                Ok(actual) => if actual != target_kind {
                    Err(Refusal::Said(Error::InvalidObject("tag target type mismatch")))
                } else {
                    peeled(files, git, size, target, actual, date, (left - 1) as nat)
                },
            },
        }
    }
}

/// Where a name begins: the commit that an object leads to, the date that
/// counts, and whether tags lie between.
pub open spec fn tip_facts(
    files: memory::Tree,
    git: Seq<u8>,
    id: Seq<u8>,
    kind: ObjectKind,
    options: NameRevOptions,
) -> core::result::Result<(Option<Seq<u8>>, i64, bool), Refusal> {
    let size = options.max_object_size as nat;
    match peeled(files, git, size, id, kind, None, options.max_tag_depth as nat) {
        Err(refusal) => Err(refusal),
        Ok((end, end_kind, date)) => if end_kind is Commit {
            match commit_facts(files, git, end, size) {
                Err(refusal) => Err(refusal),
                Ok((time, _)) => Ok(
                    (
                        Some(end),
                        match date {
                            Some(date) => date,
                            None => time,
                        },
                        end != id,
                    ),
                ),
            }
        } else {
            Ok(
                (
                    None,
                    match date {
                        Some(date) => date,
                        None => i64::MAX,
                    },
                    end != id,
                ),
            )
        },
    }
}

fn copy_ids(list: &[ObjectId]) -> (r: Vec<ObjectId>)
    ensures
        r@ == list@,
{
    let mut out: Vec<ObjectId> = Vec::new();
    let mut i: usize = 0;
    while i < list.len()
        invariant
            i <= list@.len(),
            out@ == list@.take(i as int),
        decreases list@.len() - i,
    {
        out.push(list[i]);
        assert(list@.take(i + 1) =~= list@.take(i as int).push(list@[i as int]));
        i += 1;
    }
    assert(list@.take(i as int) =~= list@);
    out
}

impl Repository {
    fn read_commit_facts(&self, id: ObjectId, size: usize) -> (r: Result<(i64, Vec<ObjectId>)>)
        ensures
            match commit_facts(self.tree(), self.git(), id@, size as nat) {
                Ok(facts) => r is Ok && r->Ok_0.0 == facts.0 && commit::raw_ids(r->Ok_0.1@)
                    == facts.1,
                Err(refusal) => fs::declined(r, refusal),
            },
    {
        reveal(commit_facts);
        let commit = self.read_commit(id, size)?;
        Ok((commit.committer().timestamp(), copy_ids(commit.parents())))
    }

    fn read_kind(&self, id: ObjectId, size: usize) -> (r: Result<ObjectKind>)
        ensures
            match kind_of(self.tree(), self.git(), id@, size as nat) {
                Ok(kind) => r == Ok::<ObjectKind, Error>(kind),
                Err(refusal) => fs::declined(r, refusal),
            },
    {
        reveal(kind_of);
        let object = self.read_object_raw(id, size)?;
        Ok(object.kind())
    }

    fn read_tag_facts(&self, id: ObjectId, size: usize) -> (r: Result<
        (ObjectId, ObjectKind, Option<i64>),
    >)
        ensures
            match tag_facts(self.tree(), self.git(), id@, size as nat) {
                Ok(facts) => r is Ok && r->Ok_0.0@ == facts.0 && r->Ok_0.1 == facts.1
                    && r->Ok_0.2 == facts.2,
                Err(refusal) => fs::declined(r, refusal),
            },
    {
        reveal(tag_facts);
        let object = self.read_object_raw(id, size)?;
        let tag = AnnotatedTag::parse(object.data())?;
        let date = match tag.tagger() {
            Some(tagger) => Some(tagger.timestamp()),
            None => None,
        };
        Ok((tag.target(), tag.target_kind(), date))
    }

    fn peel_name_rev_tip(&self, id: ObjectId, kind: ObjectKind, options: &NameRevOptions) -> (r:
        Result<(Option<ObjectId>, i64, bool)>)
        ensures
            match tip_facts(self.tree(), self.git(), id@, kind, *options) {
                Ok((commit, date, marked)) => r is Ok && r->Ok_0.1 == date && r->Ok_0.2 == marked
                    && commit == (match r->Ok_0.0 {
                    Some(commit) => Some(commit@),
                    None => None,
                }),
                Err(refusal) => fs::declined(r, refusal),
            },
    {
        let size: usize = options.max_object_size;
        let mut current = id;
        let mut current_kind = kind;
        let mut date: Option<i64> = None;
        let mut left: usize = options.max_tag_depth;
        let ghost goal = peeled(
            self.tree(),
            self.git(),
            size as nat,
            id@,
            kind,
            None,
            left as nat,
        );
        while matches!(current_kind, ObjectKind::Tag)
            invariant
                size == options.max_object_size,
                goal == peeled(
                    self.tree(),
                    self.git(),
                    size as nat,
                    id@,
                    kind,
                    None,
                    options.max_tag_depth as nat,
                ),
                goal == peeled(
                    self.tree(),
                    self.git(),
                    size as nat,
                    current@,
                    current_kind,
                    date,
                    left as nat,
                ),
            decreases left,
        {
            if left == 0 {
                return Err(Error::InvalidObject("annotated tag depth exceeds limit"));
            }
            let (target, target_kind, made) = self.read_tag_facts(current, size)?;
            let actual = self.read_kind(target, size)?;
            if actual != target_kind {
                return Err(Error::InvalidObject("tag target type mismatch"));
            }
            current = target;
            current_kind = actual;
            date = made;
            left -= 1;
        }
        let marked = !current.same(&id);
        if matches!(current_kind, ObjectKind::Commit) {
            let (time, _) = self.read_commit_facts(current, size)?;
            Ok(
                (
                    Some(current),
                    match date {
                        Some(date) => date,
                        None => time,
                    },
                    marked,
                ),
            )
        } else {
            Ok(
                (
                    None,
                    match date {
                        Some(date) => date,
                        None => i64::MAX,
                    },
                    marked,
                ),
            )
        }
    }
}

// ---------------------------------------------------------------------------
// Tips in their order

struct Tip {
    object_id: ObjectId,
    commit_id: Option<ObjectId>,
    name: Vec<u8>,
    tagger_date: i64,
    from_tag: bool,
    dereferenced: bool,
}

/// Where names begin.
#[verifier::ext_equal]
pub struct TipModel {
    pub object_id: Seq<u8>,
    pub commit_id: Option<Seq<u8>>,
    pub name: Seq<u8>,
    pub tagger_date: i64,
    pub from_tag: bool,
    pub dereferenced: bool,
}

impl Tip {
    spec fn model(self) -> TipModel {
        TipModel {
            object_id: self.object_id@,
            commit_id: match self.commit_id {
                Some(id) => Some(id@),
                None => None,
            },
            name: self.name@,
            tagger_date: self.tagger_date,
            from_tag: self.from_tag,
            dereferenced: self.dereferenced,
        }
    }
}

spec fn tip_models(list: Seq<Tip>) -> Seq<TipModel> {
    Seq::new(list.len(), |i: int| list[i].model())
}

/// Tags go before others, older before younger, then names ascend.
pub open spec fn tip_before(a: TipModel, b: TipModel) -> bool {
    if a.from_tag != b.from_tag {
        a.from_tag
    } else if a.tagger_date != b.tagger_date {
        a.tagger_date < b.tagger_date
    } else {
        bytes::lex_lt(a.name, b.name)
    }
}

/// The place of a tip: before the first that it goes before.
pub open spec fn tip_place(list: Seq<TipModel>, tip: TipModel, from: int) -> int
    decreases list.len() - from,
{
    if from < 0 || from >= list.len() {
        list.len() as int
    } else if tip_before(tip, list[from]) {
        from
    } else {
        tip_place(list, tip, from + 1)
    }
}

/// The tip of a reference, or why it has none.
pub open spec fn tip_of(
    files: memory::Tree,
    git: Seq<u8>,
    name: Seq<u8>,
    id: Seq<u8>,
    options: NameRevOptions,
) -> core::result::Result<TipModel, Refusal> {
    match kind_of(files, git, id, options.max_object_size as nat) {
        Err(refusal) => Err(refusal),
        Ok(kind) => match tip_facts(files, git, id, kind, options) {
            Err(refusal) => Err(refusal),
            Ok((commit_id, tagger_date, dereferenced)) => Ok(
                TipModel {
                    object_id: id,
                    commit_id,
                    name: short_name(name, is_short(name, options)),
                    tagger_date,
                    from_tag: bytes::has_prefix(name, bytes::utf8("refs/tags/"@)),
                    dereferenced,
                },
            ),
        },
    }
}

/// The tips of the first `n` references in their order.
pub open spec fn tips_of(
    files: memory::Tree,
    git: Seq<u8>,
    refs: Seq<ResolvedReference>,
    options: NameRevOptions,
    n: int,
) -> core::result::Result<Seq<TipModel>, Refusal>
    decreases n,
{
    if n <= 0 {
        Ok(Seq::empty())
    } else {
        match tips_of(files, git, refs, options, n - 1) {
            Err(refusal) => Err(refusal),
            Ok(before) => {
                let reference = refs[n - 1];
                if !gives_name(reference.name@, options) {
                    Ok(before)
                } else {
                    match tip_of(files, git, reference.name@, reference.id@, options) {
                        Err(refusal) => Err(refusal),
                        Ok(tip) => Ok(before.insert(tip_place(before, tip, 0), tip)),
                    }
                }
            },
        }
    }
}

proof fn lemma_tips_persist(
    files: memory::Tree,
    git: Seq<u8>,
    refs: Seq<ResolvedReference>,
    options: NameRevOptions,
    n: int,
    m: int,
)
    requires
        0 <= n <= m,
        tips_of(files, git, refs, options, n) is Err,
    ensures
        tips_of(files, git, refs, options, m) == tips_of(files, git, refs, options, n),
    decreases m - n,
{
    if n < m {
        lemma_tips_persist(files, git, refs, options, n, m - 1);
    }
}

fn goes_before(a: &Tip, b: &Tip) -> (r: bool)
    ensures
        r == tip_before(a.model(), b.model()),
{
    if a.from_tag != b.from_tag {
        a.from_tag
    } else if a.tagger_date != b.tagger_date {
        a.tagger_date < b.tagger_date
    } else {
        bytes::bytes_lt(a.name.as_slice(), b.name.as_slice())
    }
}

fn insert_tip(list: &mut Vec<Tip>, tip: Tip)
    ensures
        tip_models(final(list)@) == tip_models(old(list)@).insert(
            tip_place(tip_models(old(list)@), tip.model(), 0),
            tip.model(),
        ),
{
    let ghost before = list@;
    let ghost all = tip_models(list@);
    let ghost model = tip.model();
    let mut i: usize = 0;
    while i < list.len() && !goes_before(&tip, &list[i])
        invariant
            i <= list@.len(),
            list@ == before,
            all == tip_models(before),
            model == tip.model(),
            tip_place(all, model, 0) == tip_place(all, model, i as int),
        decreases list@.len() - i,
    {
        assert(all[i as int] == list@[i as int].model());
        i += 1;
    }
    proof {
        if i < list@.len() {
            assert(all[i as int] == list@[i as int].model());
        }
    }
    list.insert(i, tip);
    assert(tip_models(list@) =~= all.insert(i as int, model));
}

impl Repository {
    fn name_rev_tips(&self, refs: &[ResolvedReference], options: &NameRevOptions) -> (r: Result<
        Vec<Tip>,
    >)
        ensures
            match tips_of(self.tree(), self.git(), refs@, *options, refs@.len() as int) {
                Ok(list) => r is Ok && tip_models(r->Ok_0@) == list,
                Err(refusal) => fs::declined(r, refusal),
            },
    {
        let ghost files = self.tree();
        let ghost git = self.git();
        let mut tips: Vec<Tip> = Vec::new();
        assert(tip_models(tips@) =~= Seq::empty());
        let mut i: usize = 0;
        while i < refs.len()
            invariant
                i <= refs@.len(),
                files == self.tree(),
                git == self.git(),
                tips_of(files, git, refs@, *options, i as int) == Ok::<Seq<TipModel>, Refusal>(
                    tip_models(tips@),
                ),
            decreases refs@.len() - i,
        {
            proof {
                if tips_of(files, git, refs@, *options, i + 1) is Err {
                    lemma_tips_persist(
                        files,
                        git,
                        refs@,
                        *options,
                        i + 1,
                        refs@.len() as int,
                    );
                }
            }
            let name = refs[i].name.as_slice();
            let tag = bytes::starts_with(name, "refs/tags/".as_bytes());
            let (barred, _) = match_subpaths(name, options.exclude_patterns.as_slice());
            let (asked, inner) = match_subpaths(name, options.include_patterns.as_slice());
            if (tag || !options.tags_only) && !barred && (asked || options.include_patterns.len()
                == 0) {
                let id = refs[i].id;
                let kind = self.read_kind(id, options.max_object_size)?;
                let (commit_id, tagger_date, dereferenced) = self.peel_name_rev_tip(
                    id,
                    kind,
                    options,
                )?;
                let short = (options.tags_only && options.shorten_tags) || inner;
                let tip = Tip {
                    object_id: id,
                    commit_id,
                    name: shorten_name(name, short),
                    tagger_date,
                    from_tag: tag,
                    dereferenced,
                };
                insert_tip(&mut tips, tip);
            }
            i += 1;
        }
        Ok(tips)
    }
}

// ---------------------------------------------------------------------------
// Names spread from the tips

pub type Names = Map<Seq<u8>, NameModel>;

/// The names once a commit is offered one, unless it has a better one.
pub open spec fn updated(names: Names, id: Seq<u8>, candidate: NameModel) -> Option<Names> {
    if names.contains_key(id) && !is_better(names[id], candidate) {
        None
    } else {
        Some(names.insert(id, candidate))
    }
}

/// The name that a parent gets from a commit.
pub open spec fn offered(current: NameModel, index: nat) -> NameModel {
    if index == 0 {
        NameModel {
            generation: current.generation + 1,
            distance: capped(current.distance, 1),
            ..current
        }
    } else {
        NameModel {
            tip_name: parent_text(current, index + 1),
            generation: 0,
            distance: capped(current.distance, MERGE_TRAVERSAL_WEIGHT as nat),
            ..current
        }
    }
}

/// The names once the first `n` parents of a commit are offered theirs, and
/// the parents that took them. Commits from before a time are passed over.
pub open spec fn with_parents(
    files: memory::Tree,
    git: Seq<u8>,
    size: nat,
    cutoff: i64,
    names: Names,
    current: NameModel,
    parents: Seq<Seq<u8>>,
    n: int,
) -> core::result::Result<(Names, Seq<Seq<u8>>), Refusal>
    decreases n,
{
    if n <= 0 {
        Ok((names, Seq::empty()))
    } else {
        match with_parents(files, git, size, cutoff, names, current, parents, n - 1) {
            Err(refusal) => Err(refusal),
            Ok((before, queued)) => {
                let parent = parents[n - 1];
                match commit_facts(files, git, parent, size) {
                    Err(refusal) => Err(refusal),
                    Ok((time, _)) => if time < cutoff {
                        Ok((before, queued))
                    } else {
                        match updated(before, parent, offered(current, (n - 1) as nat)) {
                            None => Ok((before, queued)),
                            Some(after) => Ok((after, queued.push(parent))),
                        }
                    },
                }
            },
        }
    }
}

/// The names once they have spread from some commits, and how many steps that
/// took.
pub open spec fn spread(
    files: memory::Tree,
    git: Seq<u8>,
    cutoff: i64,
    options: NameRevOptions,
    stack: Seq<Seq<u8>>,
    names: Names,
    updates: nat,
) -> core::result::Result<(Names, nat), Refusal>
    decreases options.max_traversal_updates - updates,
{
    let size = options.max_object_size as nat;
    if stack.len() == 0 {
        Ok((names, updates))
    } else if updates + 1 > options.max_traversal_updates {
        Err(Refusal::Said(Error::InvalidRepository("name-rev traversal update limit exceeded")))
    } else if names.len() > options.max_commits {
        Err(Refusal::Said(Error::InvalidRepository("name-rev commit limit exceeded")))
    } else {
        match commit_facts(files, git, stack.last(), size) {
            Err(refusal) => Err(refusal),
            Ok((_, parents)) => match with_parents(
                files,
                git,
                size,
                cutoff,
                names,
                names[stack.last()],
                parents,
                parents.len() as int,
            ) {
                Err(refusal) => Err(refusal),
                Ok((after, queued)) => spread(
                    files,
                    git,
                    cutoff,
                    options,
                    stack.drop_last() + queued.reverse(),
                    after,
                    updates + 1,
                ),
            },
        }
    }
}

/// The name at a tip.
pub open spec fn name_at(tip: TipModel) -> NameModel {
    NameModel {
        tip_name: if tip.dereferenced {
            tip.name + bytes::utf8("^0"@)
        } else {
            tip.name
        },
        tagger_date: tip.tagger_date,
        generation: 0,
        distance: 0,
        from_tag: tip.from_tag,
    }
}

/// The names once they have spread from a tip.
pub open spec fn spread_tip(
    files: memory::Tree,
    git: Seq<u8>,
    cutoff: i64,
    options: NameRevOptions,
    tip: TipModel,
    names: Names,
    updates: nat,
) -> core::result::Result<(Names, nat), Refusal> {
    match tip.commit_id {
        None => Ok((names, updates)),
        Some(start) => match commit_facts(files, git, start, options.max_object_size as nat) {
            Err(refusal) => Err(refusal),
            Ok((time, _)) => if time < cutoff {
                Ok((names, updates))
            } else {
                match updated(names, start, name_at(tip)) {
                    None => Ok((names, updates)),
                    Some(after) => spread(
                        files,
                        git,
                        cutoff,
                        options,
                        seq![start],
                        after,
                        updates,
                    ),
                }
            },
        },
    }
}

/// The names once they have spread from the first `n` tips.
pub open spec fn spread_tips(
    files: memory::Tree,
    git: Seq<u8>,
    cutoff: i64,
    options: NameRevOptions,
    tips: Seq<TipModel>,
    n: int,
) -> core::result::Result<(Names, nat), Refusal>
    decreases n,
{
    if n <= 0 {
        Ok((Map::empty(), 0))
    } else {
        match spread_tips(files, git, cutoff, options, tips, n - 1) {
            Err(refusal) => Err(refusal),
            Ok((names, updates)) => spread_tip(
                files,
                git,
                cutoff,
                options,
                tips[n - 1],
                names,
                updates,
            ),
        }
    }
}

proof fn lemma_parents_persist(
    files: memory::Tree,
    git: Seq<u8>,
    size: nat,
    cutoff: i64,
    names: Names,
    current: NameModel,
    parents: Seq<Seq<u8>>,
    n: int,
    m: int,
)
    requires
        0 <= n <= m,
        with_parents(files, git, size, cutoff, names, current, parents, n) is Err,
    ensures
        with_parents(files, git, size, cutoff, names, current, parents, m) == with_parents(
            files,
            git,
            size,
            cutoff,
            names,
            current,
            parents,
            n,
        ),
    decreases m - n,
{
    if n < m {
        lemma_parents_persist(files, git, size, cutoff, names, current, parents, n, m - 1);
    }
}

proof fn lemma_spread_persist(
    files: memory::Tree,
    git: Seq<u8>,
    cutoff: i64,
    options: NameRevOptions,
    tips: Seq<TipModel>,
    n: int,
    m: int,
)
    requires
        0 <= n <= m,
        spread_tips(files, git, cutoff, options, tips, n) is Err,
    ensures
        spread_tips(files, git, cutoff, options, tips, m) == spread_tips(
            files,
            git,
            cutoff,
            options,
            tips,
            n,
        ),
    decreases m - n,
{
    if n < m {
        lemma_spread_persist(files, git, cutoff, options, tips, n, m - 1);
    }
}

spec fn name_map(names: Map<Seq<u8>, CommitName>) -> Names {
    names.map_values(|name: CommitName| name@)
}

spec fn bounded(names: Map<Seq<u8>, CommitName>, limit: nat) -> bool {
    forall|id: Seq<u8>| #[trigger] names.contains_key(id) ==> names[id].generation <= limit
}

fn update_name(names: &mut ByteMap<CommitName>, id: ObjectId, candidate: CommitName) -> (r: bool)
    ensures
        match updated(name_map(old(names)@), id@, candidate@) {
            Some(after) => r && name_map(final(names)@) == after,
            None => !r && final(names)@ == old(names)@,
        },
        r ==> final(names)@ == old(names)@.insert(id@, candidate),
{
    let key = bytes::to_vec(id.as_bytes());
    if let Some(existing) = names.get(key.as_slice()) {
        if !better_name(existing, &candidate) {
            return false;
        }
    }
    let ghost before = names@;
    names.insert(key, candidate);
    assert(name_map(names@) =~= name_map(before).insert(id@, candidate@));
    true
}

fn copy_name(name: &CommitName) -> (r: CommitName)
    ensures
        r@ == name@,
        r.generation == name.generation,
{
    CommitName {
        tip_name: bytes::to_vec(name.tip_name.as_slice()),
        tagger_date: name.tagger_date,
        generation: name.generation,
        distance: name.distance,
        from_tag: name.from_tag,
    }
}

fn offer(current: &CommitName, index: usize) -> (r: CommitName)
    requires
        current.generation < usize::MAX,
        index < usize::MAX,
    ensures
        r@ == offered(current@, index as nat),
        r.generation <= current.generation + 1,
{
    if index == 0 {
        CommitName {
            tip_name: bytes::to_vec(current.tip_name.as_slice()),
            tagger_date: current.tagger_date,
            generation: current.generation + 1,
            distance: capped_sum(current.distance, 1),
            from_tag: current.from_tag,
        }
    } else {
        CommitName {
            tip_name: parent_name(current, index + 1),
            tagger_date: current.tagger_date,
            generation: 0,
            distance: capped_sum(current.distance, MERGE_TRAVERSAL_WEIGHT),
            from_tag: current.from_tag,
        }
    }
}

impl Repository {
    /// Offers names to the parents of a commit and gives back those that took
    /// them.
    fn offer_parents(
        &self,
        current: &CommitName,
        parents: &Vec<ObjectId>,
        cutoff: i64,
        size: usize,
        names: &mut ByteMap<CommitName>,
        Ghost(limit): Ghost<nat>,
    ) -> (r: Result<Vec<ObjectId>>)
        requires
            bounded(old(names)@, limit),
            current.generation < limit,
            limit <= usize::MAX,
        ensures
            match with_parents(
                self.tree(),
                self.git(),
                size as nat,
                cutoff,
                name_map(old(names)@),
                current@,
                commit::raw_ids(parents@),
                parents@.len() as int,
            ) {
                Ok((after, queued)) => {
                    &&& r is Ok
                    &&& name_map(final(names)@) == after
                    &&& commit::raw_ids(r->Ok_0@) == queued
                    &&& bounded(final(names)@, limit)
                    &&& forall|id: Seq<u8>| #[trigger]
                        old(names)@.contains_key(id) ==> final(names)@.contains_key(id)
                    &&& forall|k: int|
                        0 <= k < r->Ok_0@.len() ==> final(names)@.contains_key(
                            (#[trigger] r->Ok_0@[k])@,
                        )
                },
                Err(refusal) => fs::declined(r, refusal),
            },
    {
        let ghost start = names@;
        let ghost all = commit::raw_ids(parents@);
        let ghost files = self.tree();
        let ghost git = self.git();
        let mut queued: Vec<ObjectId> = Vec::new();
        assert(commit::raw_ids(queued@) =~= Seq::empty());
        let mut i: usize = 0;
        while i < parents.len()
            invariant
                i <= parents@.len(),
                all == commit::raw_ids(parents@),
                files == self.tree(),
                git == self.git(),
                start == old(names)@,
                bounded(names@, limit),
                current.generation < limit,
                limit <= usize::MAX,
                with_parents(
                    files,
                    git,
                    size as nat,
                    cutoff,
                    name_map(start),
                    current@,
                    all,
                    i as int,
                ) == Ok::<(Names, Seq<Seq<u8>>), Refusal>(
                    (name_map(names@), commit::raw_ids(queued@)),
                ),
                forall|id: Seq<u8>| #[trigger]
                    start.contains_key(id) ==> names@.contains_key(id),
                forall|k: int|
                    0 <= k < queued@.len() ==> names@.contains_key((#[trigger] queued@[k])@),
            decreases parents@.len() - i,
        {
            let parent = parents[i];
            proof {
                assert(all[i as int] == parent@);
                let next = with_parents(
                    files,
                    git,
                    size as nat,
                    cutoff,
                    name_map(start),
                    current@,
                    all,
                    i + 1,
                );
                if next is Err {
                    lemma_parents_persist(
                        files,
                        git,
                        size as nat,
                        cutoff,
                        name_map(start),
                        current@,
                        all,
                        i + 1,
                        parents@.len() as int,
                    );
                }
            }
            let (time, _) = self.read_commit_facts(parent, size)?;
            if time >= cutoff {
                let candidate = offer(current, i);
                let ghost before = names@;
                if update_name(names, parent, candidate) {
                    let ghost earlier = queued@;
                    queued.push(parent);
                    assert(commit::raw_ids(queued@) =~= commit::raw_ids(earlier).push(parent@));
                    assert forall|k: int| 0 <= k < queued@.len() implies names@.contains_key(
                        (#[trigger] queued@[k])@,
                    ) by {
                        if k < earlier.len() {
                            assert(before.contains_key(earlier[k]@));
                        }
                    }
                }
            }
            i += 1;
        }
        Ok(queued)
    }

    fn spread_name_rev_tip(
        &self,
        tip: &Tip,
        cutoff: i64,
        options: &NameRevOptions,
        names: &mut ByteMap<CommitName>,
        updates: &mut usize,
    ) -> (r: Result<()>)
        requires
            bounded(old(names)@, *old(updates) as nat),
            *old(updates) <= options.max_traversal_updates,
        ensures
            match spread_tip(
                self.tree(),
                self.git(),
                cutoff,
                *options,
                tip.model(),
                name_map(old(names)@),
                *old(updates) as nat,
            ) {
                Ok((after, steps)) => r is Ok && name_map(final(names)@) == after
                    && *final(updates) == steps && bounded(final(names)@, steps)
                    && *final(updates) <= options.max_traversal_updates,
                Err(refusal) => fs::declined(r, refusal),
            },
    {
        let size: usize = options.max_object_size;
        let start = match tip.commit_id {
            Some(id) => id,
            None => return Ok(()),
        };
        let (time, _) = self.read_commit_facts(start, size)?;
        if time < cutoff {
            return Ok(());
        }
        let mut tip_name = bytes::to_vec(tip.name.as_slice());
        if tip.dereferenced {
            bytes::append(&mut tip_name, "^0".as_bytes());
        }
        let first = CommitName {
            tip_name,
            tagger_date: tip.tagger_date,
            generation: 0,
            distance: 0,
            from_tag: tip.from_tag,
        };
        assert(first@ =~= name_at(tip.model()));
        if !update_name(names, start, first) {
            return Ok(());
        }
        let ghost files = self.tree();
        let ghost git = self.git();
        let mut stack: Vec<ObjectId> = Vec::new();
        stack.push(start);
        assert(commit::raw_ids(stack@) =~= seq![start@]);
        let ghost goal = spread(
            files,
            git,
            cutoff,
            *options,
            seq![start@],
            name_map(names@),
            *updates as nat,
        );
        while stack.len() > 0
            invariant
                files == self.tree(),
                git == self.git(),
                size == options.max_object_size,
                *updates <= options.max_traversal_updates,
                bounded(names@, *updates as nat),
                forall|k: int|
                    0 <= k < stack@.len() ==> names@.contains_key((#[trigger] stack@[k])@),
                goal == spread(
                    files,
                    git,
                    cutoff,
                    *options,
                    commit::raw_ids(stack@),
                    name_map(names@),
                    *updates as nat,
                ),
                goal == spread_tip(
                    files,
                    git,
                    cutoff,
                    *options,
                    tip.model(),
                    name_map(old(names)@),
                    *old(updates) as nat,
                ),
            decreases options.max_traversal_updates - *updates,
        {
            let ghost before = stack@;
            let id = stack[stack.len() - 1];
            let count: usize = names.len();
            proof {
                assert(name_map(names@).dom() =~= names@.dom());
                assert(commit::raw_ids(before).last() == id@);
            }
            if *updates >= options.max_traversal_updates {
                return Err(Error::InvalidRepository("name-rev traversal update limit exceeded"));
            }
            if count > options.max_commits {
                return Err(Error::InvalidRepository("name-rev commit limit exceeded"));
            }
            let (_, parents) = self.read_commit_facts(id, size)?;
            let key = bytes::to_vec(id.as_bytes());
            let current = match names.get(key.as_slice()) {
                Some(name) => copy_name(name),
                None => return Ok(()),
            };
            assert(current@ == name_map(names@)[id@]);
            stack.truncate(stack.len() - 1);
            *updates = *updates + 1;
            let queued = self.offer_parents(
                &current,
                &parents,
                cutoff,
                size,
                names,
                Ghost(*updates as nat),
            )?;
            let ghost rest = stack@;
            let mut j: usize = queued.len();
            while j > 0
                invariant
                    j <= queued@.len(),
                    commit::raw_ids(stack@) == commit::raw_ids(rest) + commit::raw_ids(
                        queued@,
                    ).skip(j as int).reverse(),
                    forall|k: int|
                        0 <= k < stack@.len() ==> names@.contains_key((#[trigger] stack@[k])@),
                    forall|k: int|
                        0 <= k < queued@.len() ==> names@.contains_key((#[trigger] queued@[k])@),
                decreases j,
            {
                let ghost earlier = stack@;
                stack.push(queued[j - 1]);
                j -= 1;
                let ghost ids = commit::raw_ids(queued@);
                assert(ids.skip(j as int).reverse() =~= ids.skip(j + 1).reverse().push(
                    ids[j as int],
                ));
                assert(commit::raw_ids(stack@) =~= commit::raw_ids(earlier).push(ids[j as int]));
                assert(commit::raw_ids(stack@) =~= commit::raw_ids(rest) + commit::raw_ids(
                    queued@,
                ).skip(j as int).reverse());
            }
            proof {
                assert(commit::raw_ids(queued@).skip(0) =~= commit::raw_ids(queued@));
                assert(commit::raw_ids(rest) =~= commit::raw_ids(before).drop_last());
            }
        }
        Ok(())
    }

    fn spread_all(&self, tips: &Vec<Tip>, cutoff: i64, options: &NameRevOptions) -> (r: Result<
        ByteMap<CommitName>,
    >)
        ensures
            match spread_tips(
                self.tree(),
                self.git(),
                cutoff,
                *options,
                tip_models(tips@),
                tips@.len() as int,
            ) {
                Ok((names, _)) => r is Ok && name_map(r->Ok_0@) == names,
                Err(refusal) => fs::declined(r, refusal),
            },
    {
        let ghost files = self.tree();
        let ghost git = self.git();
        let ghost all = tip_models(tips@);
        let mut names: ByteMap<CommitName> = ByteMap::new();
        assert(name_map(names@) =~= Map::empty());
        let mut updates: usize = 0;
        let mut i: usize = 0;
        while i < tips.len()
            invariant
                i <= tips@.len(),
                files == self.tree(),
                git == self.git(),
                all == tip_models(tips@),
                updates <= options.max_traversal_updates,
                bounded(names@, updates as nat),
                spread_tips(files, git, cutoff, *options, all, i as int) == Ok::<
                    (Names, nat),
                    Refusal,
                >((name_map(names@), updates as nat)),
            decreases tips@.len() - i,
        {
            proof {
                assert(all[i as int] == tips@[i as int].model());
                if spread_tips(files, git, cutoff, *options, all, i + 1) is Err {
                    lemma_spread_persist(
                        files,
                        git,
                        cutoff,
                        *options,
                        all,
                        i + 1,
                        tips@.len() as int,
                    );
                }
            }
            self.spread_name_rev_tip(&tips[i], cutoff, options, &mut names, &mut updates)?;
            i += 1;
        }
        Ok(names)
    }
}

// ---------------------------------------------------------------------------
// The names that were asked for

/// Whether the first digits of an object tell it from the others.
pub open spec fn tells_apart(id: Seq<u8>, known: Seq<Seq<u8>>, length: int) -> bool {
    forall|k: int|
        0 <= k < known.len() ==> #[trigger] known[k] == id || object::hex_of(known[k]).take(length)
            != object::hex_of(id).take(length)
}

/// How many digits tell an object from the others, and at least so many.
pub open spec fn telling_length(id: Seq<u8>, known: Seq<Seq<u8>>, length: int) -> int
    decreases 40 - length,
{
    if length >= 40 {
        40
    } else if tells_apart(id, known, length) {
        length
    } else {
        telling_length(id, known, length + 1)
    }
}

fn is_telling(id: ObjectId, known: &[ObjectId], length: usize) -> (r: bool)
    requires
        length <= 40,
    ensures
        r == tells_apart(id@, commit::raw_ids(known@), length as int),
{
    let ghost all = commit::raw_ids(known@);
    let hex = id.to_hex();
    proof {
        ObjectId::lemma_view(id, id);
    }
    let head = bytes::copy_range(&hex, 0, length);
    assert(head@ =~= object::hex_of(id@).take(length as int));
    let mut i: usize = 0;
    while i < known.len()
        invariant
            i <= known@.len(),
            length <= 40,
            all == commit::raw_ids(known@),
            head@ == object::hex_of(id@).take(length as int),
            forall|k: int|
                0 <= k < i ==> #[trigger] all[k] == id@ || object::hex_of(all[k]).take(
                    length as int,
                ) != object::hex_of(id@).take(length as int),
        decreases known@.len() - i,
    {
        assert(all[i as int] == known@[i as int]@);
        if !known[i].same(&id) {
            let other = known[i].to_hex();
            proof {
                ObjectId::lemma_view(known@[i as int], known@[i as int]);
            }
            let part = bytes::copy_range(&other, 0, length);
            assert(part@ =~= object::hex_of(all[i as int]).take(length as int));
            if bytes::bytes_eq(part.as_slice(), head.as_slice()) {
                return false;
            }
        }
        i += 1;
    }
    true
}

fn abbreviate(id: ObjectId, known: &[ObjectId], least: usize) -> (r: Vec<u8>)
    requires
        least <= 40,
    ensures
        r@ == object::hex_of(id@).take(
            telling_length(id@, commit::raw_ids(known@), least as int),
        ),
{
    let ghost all = commit::raw_ids(known@);
    let hex = id.to_hex();
    proof {
        ObjectId::lemma_view(id, id);
    }
    let mut length: usize = least;
    while length < 40 && !is_telling(id, known, length)
        invariant
            length <= 40,
            all == commit::raw_ids(known@),
            telling_length(id@, all, least as int) == telling_length(id@, all, length as int),
        decreases 40 - length,
    {
        length += 1;
    }
    let r = bytes::copy_range(&hex, 0, length);
    assert(r@ =~= object::hex_of(id@).take(length as int));
    r
}

/// The name of the first tip with an object.
pub open spec fn exact_name(tips: Seq<TipModel>, id: Seq<u8>, from: int) -> Option<Seq<u8>>
    decreases tips.len() - from,
{
    if from < 0 || from >= tips.len() {
        None
    } else if tips[from].object_id == id {
        Some(tips[from].name)
    } else {
        exact_name(tips, id, from + 1)
    }
}

/// A time with some slack before it.
pub open spec fn with_slack(time: i64) -> i64 {
    if time - CUTOFF_SLOP_SECONDS < i64::MIN {
        i64::MIN
    } else {
        (time - CUTOFF_SLOP_SECONDS) as i64
    }
}

/// The kinds of the first `n` targets, and from when on commits count.
pub open spec fn targets_of(
    files: memory::Tree,
    git: Seq<u8>,
    targets: Seq<Seq<u8>>,
    options: NameRevOptions,
    n: int,
) -> core::result::Result<(Seq<ObjectKind>, i64), Refusal>
    decreases n,
{
    let size = options.max_object_size as nat;
    if n <= 0 {
        Ok((Seq::empty(), i64::MAX))
    } else {
        match targets_of(files, git, targets, options, n - 1) {
            Err(refusal) => Err(refusal),
            Ok((kinds, cutoff)) => match kind_of(files, git, targets[n - 1], size) {
                Err(refusal) => Err(refusal),
                Ok(kind) => match tip_facts(files, git, targets[n - 1], kind, options) {
                    Err(refusal) => Err(refusal),
                    Ok((None, _, _)) => Ok((kinds.push(kind), cutoff)),
                    Ok((Some(commit), _, _)) => match commit_facts(files, git, commit, size) {
                        Err(refusal) => Err(refusal),
                        Ok((time, _)) => Ok(
                            (
                                kinds.push(kind),
                                if with_slack(time) < cutoff {
                                    with_slack(time)
                                } else {
                                    cutoff
                                },
                            ),
                        ),
                    },
                },
            },
        }
    }
}

proof fn lemma_targets_persist(
    files: memory::Tree,
    git: Seq<u8>,
    targets: Seq<Seq<u8>>,
    options: NameRevOptions,
    n: int,
    m: int,
)
    requires
        0 <= n <= m,
        targets_of(files, git, targets, options, n) is Err,
    ensures
        targets_of(files, git, targets, options, m) == targets_of(
            files,
            git,
            targets,
            options,
            n,
        ),
    decreases m - n,
{
    if n < m {
        lemma_targets_persist(files, git, targets, options, n, m - 1);
    }
}

/// The name of a target: of a commit the one that spread to it, of another
/// object that of a reference to it.
pub open spec fn found_name(
    id: Seq<u8>,
    kind: ObjectKind,
    names: Names,
    tips: Seq<TipModel>,
) -> Option<Seq<u8>> {
    if kind is Commit {
        if names.contains_key(id) {
            Some(rendered(names[id]))
        } else {
            None
        }
    } else {
        exact_name(tips, id, 0)
    }
}

/// The entry of a target, or why it is refused.
pub open spec fn entry_of(
    id: Seq<u8>,
    kind: ObjectKind,
    names: Names,
    tips: Seq<TipModel>,
    known: Seq<Seq<u8>>,
    options: NameRevOptions,
) -> core::result::Result<Named, Error> {
    let name = found_name(id, kind, names, tips);
    if name is Some || options.allow_undefined {
        Ok(Named { id, kind, name, fallback: false })
    } else if !options.always {
        Err(Error::InvalidRepository("cannot name object"))
    } else if known.len() > options.max_abbreviation_candidates {
        Err(Error::InvalidRepository("abbreviation candidate limit exceeded"))
    } else {
        Ok(
            Named {
                id,
                kind,
                name: Some(
                    object::hex_of(id).take(
                        telling_length(id, known, options.abbreviation as int),
                    ),
                ),
                fallback: true,
            },
        )
    }
}

/// The entries of the first `n` targets.
pub open spec fn entries_of(
    targets: Seq<Seq<u8>>,
    kinds: Seq<ObjectKind>,
    names: Names,
    tips: Seq<TipModel>,
    known: Seq<Seq<u8>>,
    options: NameRevOptions,
    n: int,
) -> core::result::Result<Seq<Named>, Error>
    decreases n,
{
    if n <= 0 {
        Ok(Seq::empty())
    } else {
        match entries_of(targets, kinds, names, tips, known, options, n - 1) {
            Err(error) => Err(error),
            Ok(before) => match entry_of(
                targets[n - 1],
                kinds[n - 1],
                names,
                tips,
                known,
                options,
            ) {
                Err(error) => Err(error),
                Ok(entry) => Ok(before.push(entry)),
            },
        }
    }
}

proof fn lemma_entries_persist(
    targets: Seq<Seq<u8>>,
    kinds: Seq<ObjectKind>,
    names: Names,
    tips: Seq<TipModel>,
    known: Seq<Seq<u8>>,
    options: NameRevOptions,
    n: int,
    m: int,
)
    requires
        0 <= n <= m,
        entries_of(targets, kinds, names, tips, known, options, n) is Err,
    ensures
        entries_of(targets, kinds, names, tips, known, options, m) == entries_of(
            targets,
            kinds,
            names,
            tips,
            known,
            options,
            n,
        ),
    decreases m - n,
{
    if n < m {
        lemma_entries_persist(targets, kinds, names, tips, known, options, n, m - 1);
    }
}

pub open spec fn has_empty(list: Seq<Seq<u8>>) -> bool {
    exists|k: int| 0 <= k < list.len() && (#[trigger] list[k]).len() == 0
}

/// Why options are refused.
pub open spec fn options_fault(options: NameRevOptions) -> Option<Error> {
    if options.abbreviation == 0 || options.abbreviation > 40 {
        Some(Error::InvalidRepository("name-rev abbreviation must be between 1 and 40"))
    } else if has_empty(bytes::deep(options.include_patterns@)) || has_empty(
        bytes::deep(options.exclude_patterns@),
    ) {
        Some(Error::InvalidRepository("empty name-rev ref pattern"))
    } else {
        None
    }
}

/// The entries of all targets, or why they are refused.
pub open spec fn named_revs(
    files: memory::Tree,
    git: Seq<u8>,
    targets: Seq<Seq<u8>>,
    refs: Seq<ResolvedReference>,
    known: Seq<Seq<u8>>,
    options: NameRevOptions,
) -> core::result::Result<Seq<Named>, Refusal> {
    let count = targets.len() as int;
    match options_fault(options) {
        Some(error) => Err(Refusal::Said(error)),
        None => match targets_of(files, git, targets, options, count) {
            Err(refusal) => Err(refusal),
            Ok((kinds, oldest)) => if refs.len() > options.max_references {
                Err(Refusal::Said(Error::InvalidRepository("reference limit exceeded")))
            } else {
                let cutoff = if options.all {
                    i64::MIN
                } else {
                    oldest
                };
                match tips_of(files, git, refs, options, refs.len() as int) {
                    Err(refusal) => Err(refusal),
                    Ok(tips) => match spread_tips(
                        files,
                        git,
                        cutoff,
                        options,
                        tips,
                        tips.len() as int,
                    ) {
                        Err(refusal) => Err(refusal),
                        Ok((names, _)) => match entries_of(
                            targets,
                            kinds,
                            names,
                            tips,
                            known,
                            options,
                            count,
                        ) {
                            Err(error) => Err(Refusal::Said(error)),
                            Ok(list) => Ok(list),
                        },
                    },
                }
            },
        },
    }
}

fn any_empty(list: &[Vec<u8>]) -> (r: bool)
    ensures
        r == has_empty(bytes::deep(list@)),
{
    let ghost all = bytes::deep(list@);
    let mut i: usize = 0;
    while i < list.len()
        invariant
            i <= list@.len(),
            all == bytes::deep(list@),
            forall|k: int| 0 <= k < i ==> (#[trigger] all[k]).len() != 0,
        decreases list@.len() - i,
    {
        assert(all[i as int] == list@[i as int]@);
        if list[i].len() == 0 {
            return true;
        }
        i += 1;
    }
    false
}

fn validate_options(options: &NameRevOptions) -> (r: Result<()>)
    ensures
        match options_fault(*options) {
            Some(error) => r is Err && r->Err_0 == error,
            None => r is Ok,
        },
{
    if options.abbreviation == 0 || options.abbreviation > 40 {
        return Err(Error::InvalidRepository("name-rev abbreviation must be between 1 and 40"));
    }
    if any_empty(options.include_patterns.as_slice()) || any_empty(
        options.exclude_patterns.as_slice(),
    ) {
        return Err(Error::InvalidRepository("empty name-rev ref pattern"));
    }
    Ok(())
}

fn find_exact(tips: &Vec<Tip>, id: ObjectId) -> (r: Option<Vec<u8>>)
    ensures
        match exact_name(tip_models(tips@), id@, 0) {
            Some(name) => r is Some && r->0@ == name,
            None => r is None,
        },
{
    let ghost all = tip_models(tips@);
    let mut i: usize = 0;
    while i < tips.len()
        invariant
            i <= tips@.len(),
            all == tip_models(tips@),
            exact_name(all, id@, 0) == exact_name(all, id@, i as int),
        decreases tips@.len() - i,
    {
        assert(all[i as int] == tips@[i as int].model());
        if tips[i].object_id.same(&id) {
            return Some(bytes::to_vec(tips[i].name.as_slice()));
        }
        i += 1;
    }
    None
}

fn find_name(id: ObjectId, kind: ObjectKind, names: &ByteMap<CommitName>, tips: &Vec<Tip>) -> (r:
    Option<Vec<u8>>)
    ensures
        match found_name(id@, kind, name_map(names@), tip_models(tips@)) {
            Some(name) => r is Some && r->0@ == name,
            None => r is None,
        },
{
    match kind {
        ObjectKind::Commit => match names.get(id.as_bytes()) {
            Some(name) => Some(render_name(name)),
            None => None,
        },
        _ => find_exact(tips, id),
    }
}

fn make_entry(
    id: ObjectId,
    kind: ObjectKind,
    names: &ByteMap<CommitName>,
    tips: &Vec<Tip>,
    known: &[ObjectId],
    options: &NameRevOptions,
) -> (r: Result<NameRevEntry>)
    requires
        options.abbreviation <= 40,
    ensures
        match entry_of(
            id@,
            kind,
            name_map(names@),
            tip_models(tips@),
            commit::raw_ids(known@),
            *options,
        ) {
            Ok(entry) => r is Ok && r->Ok_0@ == entry,
            Err(error) => r is Err && r->Err_0 == error,
        },
{
    let name = find_name(id, kind, names, tips);
    if name.is_some() || options.allow_undefined {
        return Ok(NameRevEntry { id, kind, name, fallback: false });
    }
    if !options.always {
        return Err(Error::InvalidRepository("cannot name object"));
    }
    if known.len() > options.max_abbreviation_candidates {
        return Err(Error::InvalidRepository("abbreviation candidate limit exceeded"));
    }
    let name = abbreviate(id, known, options.abbreviation);
    Ok(NameRevEntry { id, kind, name: Some(name), fallback: true })
}

fn slack(time: i64) -> (r: i64)
    ensures
        r == with_slack(time),
{
    if time < i64::MIN + CUTOFF_SLOP_SECONDS {
        i64::MIN
    } else {
        time - CUTOFF_SLOP_SECONDS
    }
}

impl Repository {
    fn read_targets(&self, targets: &[ObjectId], options: &NameRevOptions) -> (r: Result<
        (Vec<ObjectKind>, i64),
    >)
        ensures
            match targets_of(
                self.tree(),
                self.git(),
                commit::raw_ids(targets@),
                *options,
                targets@.len() as int,
            ) {
                Ok((kinds, cutoff)) => r is Ok && r->Ok_0.0@ == kinds && r->Ok_0.1 == cutoff
                    && kinds.len() == targets@.len(),
                Err(refusal) => fs::declined(r, refusal),
            },
    {
        let ghost files = self.tree();
        let ghost git = self.git();
        let ghost all = commit::raw_ids(targets@);
        let size: usize = options.max_object_size;
        let mut kinds: Vec<ObjectKind> = Vec::new();
        let mut cutoff: i64 = i64::MAX;
        assert(kinds@ =~= Seq::empty());
        let mut i: usize = 0;
        while i < targets.len()
            invariant
                i <= targets@.len(),
                files == self.tree(),
                git == self.git(),
                all == commit::raw_ids(targets@),
                size == options.max_object_size,
                kinds@.len() == i,
                targets_of(files, git, all, *options, i as int) == Ok::<
                    (Seq<ObjectKind>, i64),
                    Refusal,
                >((kinds@, cutoff)),
            decreases targets@.len() - i,
        {
            let id = targets[i];
            proof {
                assert(all[i as int] == id@);
                if targets_of(files, git, all, *options, i + 1) is Err {
                    lemma_targets_persist(
                        files,
                        git,
                        all,
                        *options,
                        i + 1,
                        targets@.len() as int,
                    );
                }
            }
            let kind = self.read_kind(id, size)?;
            let (commit, _, _) = self.peel_name_rev_tip(id, kind, options)?;
            if let Some(commit) = commit {
                let (time, _) = self.read_commit_facts(commit, size)?;
                let bound: i64 = slack(time);
                if bound < cutoff {
                    cutoff = bound;
                }
            }
            kinds.push(kind);
            i += 1;
        }
        Ok((kinds, cutoff))
    }

    /// Name objects by the best reference that leads to them.
    ///
    /// Tags go before other references and near ones before far ones. The way
    /// along first parents is written `~N`, the way to another parent `^N`.
    /// An object that is no commit has the name of a reference to it.
    /// `refs` are the references with their objects, in ascending order of
    /// names, and `known` the objects that an abbreviation must tell apart.
    pub fn name_revs(
        &self,
        targets: &[ObjectId],
        refs: &[ResolvedReference],
        known: &[ObjectId],
        options: &NameRevOptions,
    ) -> (r: Result<Vec<NameRevEntry>>)
        ensures
            match named_revs(
                self.tree(),
                self.git(),
                commit::raw_ids(targets@),
                refs@,
                commit::raw_ids(known@),
                *options,
            ) {
                Ok(list) => r is Ok && models(r->Ok_0@) == list,
                Err(refusal) => fs::declined(r, refusal),
            },
            r matches Ok(list) ==> name_rev_laws::are_named(
                self.tree(),
                self.git(),
                commit::raw_ids(targets@),
                refs@,
                commit::raw_ids(known@),
                *options,
                models(list@),
            ),
    {
        proof {
            assert forall|i: int| 0 <= i < targets@.len() implies (#[trigger] commit::raw_ids(
                targets@,
            )[i]).len() == 20 by {
                ObjectId::lemma_view(targets@[i], targets@[i]);
            }
            name_rev_laws::lemma_revisions_are_named(
                self.tree(),
                self.git(),
                commit::raw_ids(targets@),
                refs@,
                commit::raw_ids(known@),
                *options,
            );
        }
        validate_options(options)?;
        let (kinds, oldest) = self.read_targets(targets, options)?;
        if refs.len() > options.max_references {
            return Err(Error::InvalidRepository("reference limit exceeded"));
        }
        let cutoff: i64 = if options.all {
            i64::MIN
        } else {
            oldest
        };
        let tips = self.name_rev_tips(refs, options)?;
        assert(tip_models(tips@).len() == tips@.len());
        let names = self.spread_all(&tips, cutoff, options)?;
        make_entries(targets, &kinds, &names, &tips, known, options)
    }
}

fn make_entries(
    targets: &[ObjectId],
    kinds: &Vec<ObjectKind>,
    names: &ByteMap<CommitName>,
    tips: &Vec<Tip>,
    known: &[ObjectId],
    options: &NameRevOptions,
) -> (r: Result<Vec<NameRevEntry>>)
    requires
        options.abbreviation <= 40,
        kinds@.len() == targets@.len(),
    ensures
        match entries_of(
            commit::raw_ids(targets@),
            kinds@,
            name_map(names@),
            tip_models(tips@),
            commit::raw_ids(known@),
            *options,
            targets@.len() as int,
        ) {
            Ok(list) => r is Ok && models(r->Ok_0@) == list,
            Err(error) => r is Err && r->Err_0 == error,
        },
{
    let ghost all = commit::raw_ids(targets@);
    let ghost map = name_map(names@);
    let ghost starts = tip_models(tips@);
    let ghost others = commit::raw_ids(known@);
    let mut output: Vec<NameRevEntry> = Vec::new();
    assert(models(output@) =~= Seq::empty());
    let mut i: usize = 0;
    while i < targets.len()
        invariant
            i <= targets@.len(),
            options.abbreviation <= 40,
            kinds@.len() == targets@.len(),
            all == commit::raw_ids(targets@),
            map == name_map(names@),
            starts == tip_models(tips@),
            others == commit::raw_ids(known@),
            entries_of(all, kinds@, map, starts, others, *options, i as int) == Ok::<
                Seq<Named>,
                Error,
            >(models(output@)),
        decreases targets@.len() - i,
    {
        proof {
            assert(all[i as int] == targets@[i as int]@);
            if entries_of(all, kinds@, map, starts, others, *options, i + 1) is Err {
                lemma_entries_persist(
                    all,
                    kinds@,
                    map,
                    starts,
                    others,
                    *options,
                    i + 1,
                    targets@.len() as int,
                );
            }
        }
        let entry = make_entry(targets[i], kinds[i], names, tips, known, options)?;
        let ghost before = output@;
        let ghost model = entry@;
        output.push(entry);
        assert(models(output@) =~= models(before).push(model));
        i += 1;
    }
    Ok(output)
}

// ---------------------------------------------------------------------------
// Laws

/// No two names go before each other, and none goes before itself.
pub proof fn lemma_better_asymmetric(a: NameModel, b: NameModel)
    requires
        is_better(a, b),
    ensures
        !is_better(b, a),
        a != b,
{
}

/// A name is only ever given up for a better one.
pub proof fn lemma_names_improve(names: Names, id: Seq<u8>, candidate: NameModel, other: Seq<u8>)
    requires
        updated(names, id, candidate) is Some,
        names.contains_key(other),
    ensures
        updated(names, id, candidate)->0.contains_key(other),
        updated(names, id, candidate)->0[other] == names[other] || is_better(
            names[other],
            updated(names, id, candidate)->0[other],
        ),
{
}

} // verus!
