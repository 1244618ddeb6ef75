//! Bounded search for fixed strings in tracked content.

use vstd::prelude::*;

use crate::bytes;
use crate::fs;
use crate::fs::memory;
use crate::fs::path;
use crate::fs::{Fault, FileSystem, Refusal};
use crate::ls_files;
use crate::ls_files::LsFilesOptions;
use crate::ls_tree;
use crate::ls_tree::LsTreeOptions;
use crate::object::{ObjectId, ObjectKind};
use crate::repository;
use crate::repository::Repository;
use crate::storage;
use crate::tree::EntryMode;
use crate::{Error, Result};

verus! {

/// Where a search looks.
#[derive(Clone, Copy, Debug, PartialEq, Eq)]
pub enum GrepTarget {
    Worktree,
    Index,
    Treeish(ObjectId),
}

/// How a search treats binary files.
#[derive(Clone, Copy, Debug, PartialEq, Eq, Structural)]
pub enum GrepBinaryMode {
    Default,
    Text,
    WithoutMatch,
}

/// What a search looks for and its limits.
pub struct GrepOptions {
    pub target: GrepTarget,
    pub paths: Vec<Vec<u8>>,
    pub ignore_case: bool,
    pub invert_match: bool,
    pub word_regexp: bool,
    pub binary: GrepBinaryMode,
    pub max_files: usize,
    pub max_matches: usize,
    pub max_file_size: usize,
    pub max_depth: usize,
}

impl Default for GrepOptions {
    fn default() -> (r: Self)
        ensures
            r.target is Worktree,
            r.paths@.len() == 0,
            !r.ignore_case && !r.invert_match && !r.word_regexp,
            r.binary == GrepBinaryMode::Default,
            r.max_files == 10_000_000 && r.max_matches == 10_000_000,
            r.max_file_size == 1024 * 1024 * 1024,
            r.max_depth == 4096,
    {
        GrepOptions {
            target: GrepTarget::Worktree,
            paths: Vec::new(),
            ignore_case: false,
            invert_match: false,
            word_regexp: false,
            binary: GrepBinaryMode::Default,
            max_files: 10_000_000,
            max_matches: 10_000_000,
            max_file_size: 1024 * 1024 * 1024,
            max_depth: 4096,
        }
    }
}

/// A line, or a binary file, that a search found.
#[derive(Debug, PartialEq, Eq)]
pub struct GrepMatch {
    path: Vec<u8>,
    line_number: usize,
    column: usize,
    line: Vec<u8>,
    binary: bool,
}

/// What a match says.
#[verifier::ext_equal]
pub struct MatchModel {
    pub path: Seq<u8>,
    pub line_number: nat,
    pub column: nat,
    pub line: Seq<u8>,
    pub binary: bool,
}

impl View for GrepMatch {
    type V = MatchModel;

    closed spec fn view(&self) -> MatchModel {
        MatchModel {
            path: self.path@,
            line_number: self.line_number as nat,
            column: self.column as nat,
            line: self.line@,
            binary: self.binary,
        }
    }
}

pub open spec fn models(list: Seq<GrepMatch>) -> Seq<MatchModel> {
    Seq::new(list.len(), |i: int| list[i]@)
}

impl GrepMatch {
    pub fn path(&self) -> (r: &[u8])
        ensures
            r@ == self@.path,
    {
        self.path.as_slice()
    }

    /// The line counted from one, or zero for a binary file.
    pub fn line_number(&self) -> (r: usize)
        ensures
            r == self@.line_number,
    {
        self.line_number
    }

    /// The byte of the line counted from one, or zero for an inverted match
    /// and for a binary file.
    pub fn column(&self) -> (r: usize)
        ensures
            r == self@.column,
    {
        self.column
    }

    /// The line without its newline.
    pub fn line(&self) -> (r: &[u8])
        ensures
            r@ == self@.line,
    {
        self.line.as_slice()
    }

    pub fn is_binary(&self) -> (r: bool)
        ensures
            r == self@.binary,
    {
        self.binary
    }
}

// ---------------------------------------------------------------------------
// Searching a line

pub open spec fn is_word(b: u8) -> bool {
    48 <= b <= 57 || 65 <= b <= 90 || 97 <= b <= 122 || b == 95
}

/// Whether two bytes are the same, letter case aside where asked.
pub open spec fn same_byte(a: u8, b: u8, ignore_case: bool) -> bool {
    a == b || (ignore_case && bytes::lower_byte(a) == bytes::lower_byte(b))
}

/// Whether a pattern stands at a place of a line.
pub open spec fn stands_at(
    line: Seq<u8>,
    pattern: Seq<u8>,
    at: int,
    ignore_case: bool,
    words: bool,
) -> bool {
    let end = at + pattern.len();
    &&& 0 <= at && end <= line.len()
    &&& forall|k: int|
        0 <= k < pattern.len() ==> same_byte(#[trigger] line[at + k], pattern[k], ignore_case)
    &&& words ==> (at == 0 || !is_word(line[at - 1])) && (end == line.len() || !is_word(line[end]))
}

/// The first place from a given one on at which a pattern stands.
pub open spec fn first_from(
    line: Seq<u8>,
    pattern: Seq<u8>,
    at: int,
    ignore_case: bool,
    words: bool,
) -> Option<int>
    decreases line.len() - at,
{
    if at < 0 || at + pattern.len() > line.len() {
        None
    } else if stands_at(line, pattern, at, ignore_case, words) {
        Some(at)
    } else if at >= line.len() {
        None
    } else {
        first_from(line, pattern, at + 1, ignore_case, words)
    }
}

/// Where a pattern first stands in a line; an empty pattern stands at its
/// start.
pub open spec fn position(line: Seq<u8>, pattern: Seq<u8>, options: GrepOptions) -> Option<int> {
    if pattern.len() == 0 {
        Some(0)
    } else {
        first_from(line, pattern, 0, options.ignore_case, options.word_regexp)
    }
}

/// The first place of a line at which one of the first `n` patterns stands.
pub open spec fn earliest(
    line: Seq<u8>,
    patterns: Seq<Seq<u8>>,
    options: GrepOptions,
    n: int,
) -> Option<int>
    decreases n,
{
    if n <= 0 {
        None
    } else {
        let before = earliest(line, patterns, options, n - 1);
        match position(line, patterns[n - 1], options) {
            None => before,
            Some(at) => if before is Some && before->0 <= at {
                before
            } else {
                Some(at)
            },
        }
    }
}

fn lowered(b: u8) -> (r: u8)
    ensures
        r == bytes::lower_byte(b),
{
    if 65 <= b && b <= 90 {
        b + 32
    } else {
        b
    }
}

fn word(b: u8) -> (r: bool)
    ensures
        r == is_word(b),
{
    (48 <= b && b <= 57) || (65 <= b && b <= 90) || (97 <= b && b <= 122) || b == 95
}

fn matches_at(line: &[u8], pattern: &[u8], at: usize, ignore_case: bool, words: bool) -> (r: bool)
    requires
        at + pattern@.len() <= line@.len(),
    ensures
        r == stands_at(line@, pattern@, at as int, ignore_case, words),
{
    let size: usize = line.len();
    let mut k: usize = 0;
    while k < pattern.len()
        invariant
            k <= pattern@.len(),
            at + pattern@.len() <= line@.len(),
            size == line@.len(),
            forall|j: int|
                0 <= j < k ==> same_byte(#[trigger] line@[at + j], pattern@[j], ignore_case),
        decreases pattern@.len() - k,
    {
        let a: u8 = line[at + k];
        let b: u8 = pattern[k];
        if !(a == b || (ignore_case && lowered(a) == lowered(b))) {
            assert(!same_byte(line@[at + k], pattern@[k as int], ignore_case));
            return false;
        }
        k += 1;
    }
    let end: usize = at + pattern.len();
    !words || ((at == 0 || !word(line[at - 1])) && (end == size || !word(line[end])))
}

/// Finds where a pattern first stands in a line.
pub fn find_pattern(line: &[u8], pattern: &[u8], options: &GrepOptions) -> (r: Option<usize>)
    ensures
        match position(line@, pattern@, *options) {
            Some(at) => r == Some(at as usize) && (at == 0 || 0 < at < line@.len()),
            None => r is None,
        },
{
    if pattern.len() == 0 {
        return Some(0);
    }
    let mut at: usize = 0;
    while at < line.len() && pattern.len() <= line.len() - at
        invariant
            at <= line@.len(),
            pattern@.len() > 0,
            position(line@, pattern@, *options) == first_from(
                line@,
                pattern@,
                at as int,
                options.ignore_case,
                options.word_regexp,
            ),
        decreases line@.len() - at,
    {
        if matches_at(line, pattern, at, options.ignore_case, options.word_regexp) {
            return Some(at);
        }
        at += 1;
    }
    None
}

fn find_earliest(line: &[u8], patterns: &[Vec<u8>], options: &GrepOptions) -> (r: Option<usize>)
    ensures
        match earliest(line@, bytes::deep(patterns@), *options, patterns@.len() as int) {
            Some(at) => r == Some(at as usize) && (at == 0 || 0 < at < line@.len()),
            None => r is None,
        },
{
    let ghost all = bytes::deep(patterns@);
    let size: usize = line.len();
    let mut best: Option<usize> = None;
    let mut i: usize = 0;
    while i < patterns.len()
        invariant
            i <= patterns@.len(),
            size == line@.len(),
            all == bytes::deep(patterns@),
            match earliest(line@, all, *options, i as int) {
                Some(at) => best == Some(at as usize) && (at == 0 || 0 < at < line@.len()),
                None => best is None,
            },
        decreases patterns@.len() - i,
    {
        assert(all[i as int] == patterns@[i as int]@);
        match find_pattern(line, patterns[i].as_slice(), options) {
            None => {},
            Some(at) => {
                let keep = match best {
                    Some(before) => before <= at,
                    None => false,
                };
                if !keep {
                    best = Some(at);
                }
            },
        }
        i += 1;
    }
    best
}

// ---------------------------------------------------------------------------
// Searching a file

/// The lines of a file; a newline at its end begins no line.
pub open spec fn lines_of(contents: Seq<u8>) -> Seq<Seq<u8>> {
    let parts = bytes::split(contents, 10);
    if parts.last().len() == 0 {
        parts.drop_last()
    } else {
        parts
    }
}

/// Whether a file is binary: a zero stands among its first bytes.
pub open spec fn is_binary(contents: Seq<u8>) -> bool {
    exists|i: int| 0 <= i < 8000 && i < contents.len() && #[trigger] contents[i] == 0
}

/// The matches once a file is searched up to its first `n` lines, and whether
/// the search of the file is over.
pub open spec fn searched_lines(
    found: Seq<MatchModel>,
    path: Seq<u8>,
    lines: Seq<Seq<u8>>,
    binary: bool,
    patterns: Seq<Seq<u8>>,
    options: GrepOptions,
    n: int,
) -> core::result::Result<(Seq<MatchModel>, bool), Error>
    decreases n,
{
    if n <= 0 {
        Ok((found, false))
    } else {
        match searched_lines(found, path, lines, binary, patterns, options, n - 1) {
            Err(error) => Err(error),
            Ok((before, over)) => {
                let at = earliest(lines[n - 1], patterns, options, patterns.len() as int);
                if over || (at is Some) == options.invert_match {
                    Ok((before, over))
                } else if before.len() + 1 > options.max_matches {
                    Err(Error::InvalidRepository("grep exceeds match limit"))
                } else if binary && options.binary == GrepBinaryMode::Default {
                    Ok(
                        (
                            before.push(
                                MatchModel {
                                    path,
                                    line_number: 0,
                                    column: 0,
                                    line: Seq::empty(),
                                    binary: true,
                                },
                            ),
                            true,
                        ),
                    )
                } else {
                    Ok(
                        (
                            before.push(
                                MatchModel {
                                    path,
                                    line_number: n as nat,
                                    column: match at {
                                        Some(at) => (at + 1) as nat,
                                        None => 0,
                                    },
                                    line: lines[n - 1],
                                    binary: false,
                                },
                            ),
                            false,
                        ),
                    )
                }
            },
        }
    }
}

/// The matches once a file is searched.
pub open spec fn searched(
    found: Seq<MatchModel>,
    path: Seq<u8>,
    contents: Seq<u8>,
    patterns: Seq<Seq<u8>>,
    options: GrepOptions,
) -> core::result::Result<Seq<MatchModel>, Error> {
    let binary = is_binary(contents);
    if (binary && options.binary == GrepBinaryMode::WithoutMatch) || contents.len() == 0 {
        Ok(found)
    } else {
        let lines = lines_of(contents);
        match searched_lines(
            found,
            path,
            lines,
            binary,
            patterns,
            options,
            lines.len() as int,
        ) {
            Err(error) => Err(error),
            Ok((list, _)) => Ok(list),
        }
    }
}

proof fn lemma_lines_persist(
    found: Seq<MatchModel>,
    path: Seq<u8>,
    lines: Seq<Seq<u8>>,
    binary: bool,
    patterns: Seq<Seq<u8>>,
    options: GrepOptions,
    n: int,
    m: int,
)
    requires
        0 <= n <= m,
        searched_lines(found, path, lines, binary, patterns, options, n) is Err || searched_lines(
            found,
            path,
            lines,
            binary,
            patterns,
            options,
            n,
        )->Ok_0.1,
    ensures
        searched_lines(found, path, lines, binary, patterns, options, m) == searched_lines(
            found,
            path,
            lines,
            binary,
            patterns,
            options,
            n,
        ),
    decreases m - n,
{
    if n < m {
        lemma_lines_persist(found, path, lines, binary, patterns, options, n, m - 1);
    }
}

/// Tells whether a file is binary.
pub fn looks_binary(contents: &[u8]) -> (r: bool)
    ensures
        r == is_binary(contents@),
{
    let mut i: usize = 0;
    while i < 8000 && i < contents.len()
        invariant
            i <= 8000,
            i <= contents@.len(),
            forall|j: int| 0 <= j < i ==> #[trigger] contents@[j] != 0,
        decreases 8000 - i,
    {
        if contents[i] == 0 {
            assert(contents@[i as int] == 0);
            return true;
        }
        i += 1;
    }
    false
}

/// Searches a file and adds what is found.
pub fn search_file(
    path: &[u8],
    contents: &[u8],
    patterns: &[Vec<u8>],
    options: &GrepOptions,
    output: &mut Vec<GrepMatch>,
) -> (r: Result<()>)
    ensures
        match searched(
            models(old(output)@),
            path@,
            contents@,
            bytes::deep(patterns@),
            *options,
        ) {
            Ok(list) => r is Ok && models(final(output)@) == list,
            Err(error) => r is Err && r->Err_0 == error,
        },
{
    let ghost start = models(output@);
    let ghost all = bytes::deep(patterns@);
    let binary = looks_binary(contents);
    if (binary && options.binary == GrepBinaryMode::WithoutMatch) || contents.len() == 0 {
        return Ok(());
    }
    let parts = bytes::split_on(contents, 10);
    let ghost split = bytes::deep(parts@);
    let ghost lines = lines_of(contents@);
    proof {
        bytes::lemma_split_nonempty(contents@, 10);
        assert(split.last() == parts@.last()@);
    }
    let count: usize = if parts[parts.len() - 1].len() == 0 {
        parts.len() - 1
    } else {
        parts.len()
    };
    assert(count == lines.len());
    assert forall|k: int| 0 <= k < count implies #[trigger] parts@[k]@ == lines[k] by {
        assert(split[k] == parts@[k]@);
    }
    let mut i: usize = 0;
    while i < count
        invariant
            i <= count,
            count == lines.len(),
            count <= parts@.len(),
            lines == lines_of(contents@),
            all == bytes::deep(patterns@),
            start == models(old(output)@),
            binary == is_binary(contents@),
            contents@.len() > 0,
            !(binary && options.binary == GrepBinaryMode::WithoutMatch),
            forall|k: int| 0 <= k < count ==> #[trigger] parts@[k]@ == lines[k],
            searched_lines(start, path@, lines, binary, all, *options, i as int) == Ok::<
                (Seq<MatchModel>, bool),
                Error,
            >((models(output@), false)),
        decreases count - i,
    {
        let line = parts[i].as_slice();
        let size: usize = line.len();
        assert(line@ == lines[i as int]);
        let at = find_earliest(line, patterns, options);
        proof {
            let next = searched_lines(start, path@, lines, binary, all, *options, i + 1);
            if next is Err || next->Ok_0.1 {
                lemma_lines_persist(
                    start,
                    path@,
                    lines,
                    binary,
                    all,
                    *options,
                    i + 1,
                    count as int,
                );
            }
        }
        if at.is_some() != options.invert_match {
            assert(models(output@).len() == output@.len());
            if output.len() >= options.max_matches {
                return Err(Error::InvalidRepository("grep exceeds match limit"));
            }
            let ghost before = output@;
            if binary && options.binary == GrepBinaryMode::Default {
                let found = GrepMatch {
                    path: bytes::to_vec(path),
                    line_number: 0,
                    column: 0,
                    line: Vec::new(),
                    binary: true,
                };
                proof {
                    assert(found.line@ =~= Seq::empty());
                }
                output.push(found);
                assert(models(output@) =~= models(before).push(found@));
                return Ok(());
            }
            let column: usize = match at {
                Some(at) => at + 1,
                None => 0,
            };
            let found = GrepMatch {
                path: bytes::to_vec(path),
                line_number: i + 1,
                column,
                line: bytes::to_vec(line),
                binary: false,
            };
            output.push(found);
            assert(models(output@) =~= models(before).push(found@));
        }
        i += 1;
    }
    Ok(())
}

// ---------------------------------------------------------------------------
// The files to search

/// A file to search: its path, and its object where it is not read from the
/// working tree.
pub type Candidate = (Seq<u8>, Option<Seq<u8>>);

/// Whether an entry of the index names a file to search.
pub open spec fn is_searched(entry: ls_files::Listed, options: GrepOptions) -> bool {
    &&& entry.stage == Some(0u8)
    &&& !entry.intent_to_add
    &&& entry.mode == Some(0o100_644u32) || entry.mode == Some(0o100_755u32)
    &&& !(options.target is Worktree && entry.skip_worktree)
    &&& ls_tree::selected(entry.path, bytes::deep(options.paths@))
}

pub open spec fn has_candidate(list: Seq<Candidate>, path: Seq<u8>) -> bool {
    exists|k: int| 0 <= k < list.len() && (#[trigger] list[k]).0 == path
}

/// The files to search among the first `n` tracked ones, each path once.
pub open spec fn tracked_files(
    list: Seq<ls_files::Listed>,
    options: GrepOptions,
    n: int,
) -> core::result::Result<Seq<Candidate>, Error>
    decreases n,
{
    if n <= 0 {
        Ok(Seq::empty())
    } else {
        match tracked_files(list, options, n - 1) {
            Err(error) => Err(error),
            Ok(before) => {
                let entry = list[n - 1];
                if !is_searched(entry, options) || has_candidate(before, entry.path) {
                    Ok(before)
                } else if options.target is Worktree && !entry.assume_valid {
                    Ok(before.push((entry.path, None)))
                } else if entry.id is None {
                    Err(Error::InvalidRepository("grep entry has no object ID"))
                } else {
                    Ok(before.push((entry.path, entry.id)))
                }
            },
        }
    }
}

/// The files to search among the first `n` of a tree.
pub open spec fn tree_files(list: Seq<ls_tree::Listed>, n: int) -> Seq<
    Candidate,
>
    decreases n,
{
    if n <= 0 {
        Seq::empty()
    } else {
        let before = tree_files(list, n - 1);
        let entry = list[n - 1];
        if entry.mode is Blob || entry.mode is BlobExecutable {
            before.push((entry.path, Some(entry.id)))
        } else {
            before
        }
    }
}

/// How the tracked files are listed.
pub open spec fn files_asked(options: GrepOptions) -> ls_files::SelectionModel {
    ls_files::SelectionModel {
        cached: true,
        stage: false,
        unmerged: false,
        deleted: false,
        modified: false,
        others: false,
        ignored: false,
        exclude_standard: false,
        killed: false,
        deduplicate: false,
        show_sparse_directories: false,
        error_unmatch: false,
        paths: Seq::empty(),
        max_entries: options.max_files,
        max_depth: options.max_depth,
        max_object_size: options.max_file_size,
    }
}

/// How the files of a tree are listed.
pub open spec fn trees_asked(options: GrepOptions) -> ls_tree::ListingModel {
    ls_tree::ListingModel {
        recursive: true,
        trees_only: false,
        show_trees: false,
        include_object_size: false,
        paths: bytes::deep(options.paths@),
        max_entries: options.max_files,
        max_depth: options.max_depth,
        max_object_size: options.max_file_size,
    }
}

/// The files to search, or why they cannot be found.
pub open spec fn candidates(
    files: memory::Tree,
    git: Seq<u8>,
    work: Option<Seq<u8>>,
    options: GrepOptions,
) -> core::result::Result<Seq<Candidate>, Refusal> {
    match options.target {
        GrepTarget::Treeish(id) => match ls_tree::listing_of(files, git, id@, trees_asked(options)) {
            Err(refusal) => Err(refusal),
            Ok(list) => Ok(tree_files(list, list.len() as int)),
        },
        _ => match ls_files::files_listed(files, git, work, files_asked(options)) {
            Err(refusal) => Err(refusal),
            Ok(list) => match tracked_files(list, options, list.len() as int) {
                Err(error) => Err(Refusal::Said(error)),
                Ok(found) => Ok(found),
            },
        },
    }
}

proof fn lemma_tracked_persist(
    list: Seq<ls_files::Listed>,
    options: GrepOptions,
    n: int,
    m: int,
)
    requires
        0 <= n <= m,
        tracked_files(list, options, n) is Err,
    ensures
        tracked_files(list, options, m) == tracked_files(list, options, n),
    decreases m - n,
{
    if n < m {
        lemma_tracked_persist(list, options, n, m - 1);
    }
}

struct SearchFile {
    path: Vec<u8>,
    object: Option<ObjectId>,
}

impl SearchFile {
    spec fn model(self) -> Candidate {
        (
            self.path@,
            match self.object {
                Some(id) => Some(id@),
                None => None,
            },
        )
    }
}

spec fn models_of(list: Seq<SearchFile>) -> Seq<Candidate> {
    Seq::new(list.len(), |i: int| list[i].model())
}

fn holds_path(list: &Vec<SearchFile>, path: &[u8]) -> (r: bool)
    ensures
        r == has_candidate(models_of(list@), path@),
{
    let ghost all = models_of(list@);
    let mut i: usize = 0;
    while i < list.len()
        invariant
            i <= list@.len(),
            all == models_of(list@),
            forall|k: int| 0 <= k < i ==> (#[trigger] all[k]).0 != path@,
        decreases list@.len() - i,
    {
        assert(all[i as int].0 == list@[i as int].path@);
        if bytes::bytes_eq(list[i].path.as_slice(), path) {
            return true;
        }
        i += 1;
    }
    false
}

fn copy_paths(list: &Vec<Vec<u8>>) -> (r: Vec<Vec<u8>>)
    ensures
        bytes::deep(r@) == bytes::deep(list@),
{
    let ghost all = bytes::deep(list@);
    let mut out: Vec<Vec<u8>> = Vec::new();
    let mut i: usize = 0;
    while i < list.len()
        invariant
            i <= list@.len(),
            all == bytes::deep(list@),
            bytes::deep(out@) == all.take(i as int),
        decreases list@.len() - i,
    {
        let ghost before = out@;
        out.push(bytes::to_vec(list[i].as_slice()));
        assert(bytes::deep(out@) =~= bytes::deep(before).push(all[i as int]));
        assert(all.take(i + 1) =~= all.take(i as int).push(all[i as int]));
        i += 1;
    }
    assert(all.take(i as int) =~= all);
    out
}

fn take_tracked(entries: &Vec<ls_files::LsFilesEntry>, options: &GrepOptions) -> (r: Result<
    Vec<SearchFile>,
>)
    ensures
        match tracked_files(ls_files::models(entries@), *options, entries@.len() as int) {
            Ok(list) => r is Ok && models_of(r->Ok_0@) == list,
            Err(error) => r is Err && r->Err_0 == error,
        },
{
    let ghost list = ls_files::models(entries@);
    let mut output: Vec<SearchFile> = Vec::new();
    assert(models_of(output@) =~= Seq::empty());
    let mut i: usize = 0;
    while i < entries.len()
        invariant
            i <= entries@.len(),
            list == ls_files::models(entries@),
            tracked_files(list, *options, i as int) == Ok::<Seq<Candidate>, Error>(
                models_of(output@),
            ),
        decreases entries@.len() - i,
    {
        let entry = &entries[i];
        let worktree = matches!(options.target, GrepTarget::Worktree);
        let regular = match entry.mode() {
            Some(mode) => mode == 0o100_644 || mode == 0o100_755,
            None => false,
        };
        let staged = match entry.stage() {
            Some(stage) => stage == 0,
            None => false,
        };
        let wanted = staged && !entry.intent_to_add() && regular && !(worktree
            && entry.skip_worktree()) && ls_tree::path_selected(
            entry.path(),
            options.paths.as_slice(),
        );
        proof {
            assert(list[i as int] == entries@[i as int]@);
            assert(wanted == is_searched(list[i as int], *options));
            if tracked_files(list, *options, i + 1) is Err {
                lemma_tracked_persist(list, *options, i + 1, entries@.len() as int);
            }
        }
        if wanted && !holds_path(&output, entry.path()) {
            let object = if worktree && !entry.assume_valid() {
                None
            } else {
                let id = entry.id();
                if id.is_none() {
                    return Err(Error::InvalidRepository("grep entry has no object ID"));
                }
                id
            };
            let ghost before = output@;
            let file = SearchFile { path: bytes::to_vec(entry.path()), object };
            output.push(file);
            assert(models_of(output@) =~= models_of(before).push(file.model()));
        }
        i += 1;
    }
    Ok(output)
}

fn take_listed(entries: &Vec<ls_tree::LsTreeEntry>) -> (r: Vec<SearchFile>)
    ensures
        models_of(r@) == tree_files(ls_tree::models(entries@), entries@.len() as int),
{
    let ghost list = ls_tree::models(entries@);
    let mut output: Vec<SearchFile> = Vec::new();
    assert(models_of(output@) =~= Seq::empty());
    let mut i: usize = 0;
    while i < entries.len()
        invariant
            i <= entries@.len(),
            list == ls_tree::models(entries@),
            models_of(output@) == tree_files(list, i as int),
        decreases entries@.len() - i,
    {
        let entry = &entries[i];
        assert(list[i as int] == entries@[i as int]@);
        let regular = match entry.mode() {
            EntryMode::Blob => true,
            EntryMode::BlobExecutable => true,
            _ => false,
        };
        if regular {
            let ghost before = output@;
            let file = SearchFile { path: bytes::to_vec(entry.path()), object: Some(entry.id()) };
            output.push(file);
            assert(models_of(output@) =~= models_of(before).push(file.model()));
        }
        i += 1;
    }
    output
}

/// What a file to search holds, or why it cannot be read.
pub open spec fn source_of(
    files: memory::Tree,
    git: Seq<u8>,
    root: Seq<u8>,
    file: Candidate,
    limit: nat,
) -> core::result::Result<Seq<u8>, Refusal> {
    let large = Refusal::Said(Error::InvalidRepository("grep file exceeds size limit"));
    match file.1 {
        None => {
            let at = repository::joined(root, file.0);
            match ls_files::node_at(files, at) {
                Err(refusal) => Err(refusal),
                Ok(node) => if memory::metadata_of(node).len > limit {
                    Err(large)
                } else {
                    match storage::read_at(files, path::normalized(at)->0) {
                        Err(refusal) => Err(refusal),
                        Ok(data) => if data.len() > limit {
                            Err(large)
                        } else {
                            Ok(data)
                        },
                    }
                },
            }
        },
        Some(id) => match storage::stored_object(files, git, id, limit) {
            Err(refusal) => Err(refusal),
            Ok((kind, data)) => if !(kind is Blob) {
                Err(Refusal::Said(Error::InvalidObject("grep source is not a blob")))
            } else if data.len() > limit {
                Err(large)
            } else {
                Ok(data)
            },
        },
    }
}

/// The matches in the first `n` files.
pub open spec fn matches_in(
    files: memory::Tree,
    git: Seq<u8>,
    root: Seq<u8>,
    list: Seq<Candidate>,
    patterns: Seq<Seq<u8>>,
    options: GrepOptions,
    n: int,
) -> core::result::Result<Seq<MatchModel>, Refusal>
    decreases n,
{
    if n <= 0 {
        Ok(Seq::empty())
    } else {
        match matches_in(files, git, root, list, patterns, options, n - 1) {
            Err(refusal) => Err(refusal),
            Ok(before) => match source_of(
                files,
                git,
                root,
                list[n - 1],
                options.max_file_size as nat,
            ) {
                Err(refusal) => Err(refusal),
                Ok(data) => match searched(before, list[n - 1].0, data, patterns, options) {
                    Err(error) => Err(Refusal::Said(error)),
                    Ok(found) => Ok(found),
                },
            },
        }
    }
}

proof fn lemma_matches_persist(
    files: memory::Tree,
    git: Seq<u8>,
    root: Seq<u8>,
    list: Seq<Candidate>,
    patterns: Seq<Seq<u8>>,
    options: GrepOptions,
    n: int,
    m: int,
)
    requires
        0 <= n <= m,
        matches_in(files, git, root, list, patterns, options, n) is Err,
    ensures
        matches_in(files, git, root, list, patterns, options, m) == matches_in(
            files,
            git,
            root,
            list,
            patterns,
            options,
            n,
        ),
    decreases m - n,
{
    if n < m {
        lemma_matches_persist(files, git, root, list, patterns, options, n, m - 1);
    }
}

/// What a search of a repository finds, or why it is refused.
pub open spec fn grepped(
    files: memory::Tree,
    git: Seq<u8>,
    work: Option<Seq<u8>>,
    patterns: Seq<Seq<u8>>,
    options: GrepOptions,
) -> core::result::Result<Seq<MatchModel>, Refusal> {
    if patterns.len() == 0 {
        Err(Refusal::Said(Error::InvalidRepository("grep requires a pattern")))
    } else if let Some(path) = ls_tree::first_bad(
        bytes::deep(options.paths@),
        options.paths@.len() as int,
    ) {
        Err(Refusal::At(Fault::InvalidPath, path))
    } else {
        match candidates(files, git, work, options) {
            Err(refusal) => Err(refusal),
            Ok(list) => if list.len() > options.max_files {
                Err(Refusal::Said(Error::InvalidRepository("grep exceeds file limit")))
            } else if options.target is Worktree && work is None {
                Err(
                    Refusal::Said(
                        Error::InvalidRepository("worktree grep requires a non-bare repository"),
                    ),
                )
            } else {
                let root = match work {
                    Some(root) => root,
                    None => Seq::empty(),
                };
                matches_in(files, git, root, list, patterns, options, list.len() as int)
            },
        }
    }
}

impl Repository {
    fn grep_files(&self, options: &GrepOptions) -> (r: Result<Vec<SearchFile>>)
        ensures
            match candidates(self.tree(), self.git(), self.work(), *options) {
                Ok(list) => r is Ok && models_of(r->Ok_0@) == list,
                Err(refusal) => fs::declined(r, refusal),
            },
    {
        match options.target {
            GrepTarget::Treeish(id) => {
                let mut asked = LsTreeOptions::default();
                asked.recursive = true;
                asked.paths = copy_paths(&options.paths);
                asked.max_entries = options.max_files;
                asked.max_depth = options.max_depth;
                asked.max_object_size = options.max_file_size;
                assert(asked@ =~= trees_asked(*options));
                let entries = self.ls_tree(id, &asked)?;
                Ok(take_listed(&entries))
            },
            _ => {
                let mut asked = LsFilesOptions::default();
                asked.cached = true;
                asked.max_entries = options.max_files;
                asked.max_depth = options.max_depth;
                asked.max_object_size = options.max_file_size;
                assert(asked@ =~= files_asked(*options));
                let entries = self.ls_files(&asked)?;
                take_tracked(&entries, options)
            },
        }
    }

    fn read_source(&self, root: &[u8], file: &SearchFile, limit: usize) -> (r: Result<Vec<u8>>)
        ensures
            match source_of(self.tree(), self.git(), root@, file.model(), limit as nat) {
                Ok(data) => r is Ok && r->Ok_0@ == data,
                Err(refusal) => fs::declined(r, refusal),
            },
    {
        let data = match file.object {
            None => {
                let at = repository::join_path(root, file.path.as_slice());
                if self.filesystem().metadata(at.as_slice())?.len() > limit as u64 {
                    return Err(Error::InvalidRepository("grep file exceeds size limit"));
                }
                self.filesystem().read(at.as_slice())?
            },
            Some(id) => {
                let object = self.read_object_raw(id, limit)?;
                match object.kind() {
                    ObjectKind::Blob => {},
                    _ => return Err(Error::InvalidObject("grep source is not a blob")),
                }
                bytes::to_vec(object.data())
            },
        };
        if data.len() > limit {
            return Err(Error::InvalidRepository("grep file exceeds size limit"));
        }
        Ok(data)
    }

    /// Search tracked files for any of some fixed byte strings.
    ///
    /// The worktree target reads tracked, non-sparse files of the working
    /// tree; `Index` searches their stored blobs, and `Treeish` the regular
    /// files of a tree.
    pub fn grep_fixed(&self, patterns: &[Vec<u8>], options: &GrepOptions) -> (r: Result<
        Vec<GrepMatch>,
    >)
        ensures
            match grepped(
                self.tree(),
                self.git(),
                self.work(),
                bytes::deep(patterns@),
                *options,
            ) {
                Ok(list) => r is Ok && models(r->Ok_0@) == list,
                Err(refusal) => fs::declined(r, refusal),
            },
    {
        if patterns.len() == 0 {
            return Err(Error::InvalidRepository("grep requires a pattern"));
        }
        ls_tree::validate_paths(options.paths.as_slice())?;
        let list = self.grep_files(options)?;
        if list.len() > options.max_files {
            return Err(Error::InvalidRepository("grep exceeds file limit"));
        }
        let top: Vec<u8> = Vec::new();
        assert(top@ =~= Seq::empty());
        let root: &[u8] = match self.work_tree() {
            Some(root) => root,
            None => {
                if matches!(options.target, GrepTarget::Worktree) {
                    return Err(
                        Error::InvalidRepository("worktree grep requires a non-bare repository"),
                    );
                }
                top.as_slice()
            },
        };
        let ghost all = models_of(list@);
        let ghost texts = bytes::deep(patterns@);
        let mut output: Vec<GrepMatch> = Vec::new();
        assert(models(output@) =~= Seq::empty());
        let mut i: usize = 0;
        while i < list.len()
            invariant
                i <= list@.len(),
                all == models_of(list@),
                texts == bytes::deep(patterns@),
                patterns@.len() > 0,
                ls_tree::first_bad(
                    bytes::deep(options.paths@),
                    options.paths@.len() as int,
                ) is None,
                candidates(self.tree(), self.git(), self.work(), *options) == Ok::<
                    Seq<Candidate>,
                    Refusal,
                >(all),
                all.len() <= options.max_files,
                !(options.target is Worktree && self.work() is None),
                root@ == (match self.work() {
                    Some(root) => root,
                    None => Seq::empty(),
                }),
                matches_in(
                    self.tree(),
                    self.git(),
                    root@,
                    all,
                    texts,
                    *options,
                    i as int,
                ) == Ok::<Seq<MatchModel>, Refusal>(models(output@)),
            decreases list@.len() - i,
        {
            proof {
                assert(all[i as int] == list@[i as int].model());
                if matches_in(
                    self.tree(),
                    self.git(),
                    root@,
                    all,
                    texts,
                    *options,
                    i + 1,
                ) is Err {
                    lemma_matches_persist(
                        self.tree(),
                        self.git(),
                        root@,
                        all,
                        texts,
                        *options,
                        i + 1,
                        list@.len() as int,
                    );
                }
            }
            let data = self.read_source(root, &list[i], options.max_file_size)?;
            search_file(
                list[i].path.as_slice(),
                data.as_slice(),
                patterns,
                options,
                &mut output,
            )?;
            i += 1;
        }
        Ok(output)
    }
}

/// An inverted search of a line finds it exactly where a plain one does not.
pub proof fn lemma_inverted_complements(
    path: Seq<u8>,
    line: Seq<u8>,
    binary: bool,
    patterns: Seq<Seq<u8>>,
    plain: GrepOptions,
    inverted: GrepOptions,
)
    requires
        !plain.invert_match,
        inverted.invert_match,
        plain.ignore_case == inverted.ignore_case,
        plain.word_regexp == inverted.word_regexp,
        plain.max_matches >= 1,
        inverted.max_matches >= 1,
    ensures
        ({
            let one = searched_lines(Seq::empty(), path, seq![line], binary, patterns, plain, 1);
            let other = searched_lines(
                Seq::empty(),
                path,
                seq![line],
                binary,
                patterns,
                inverted,
                1,
            );
            &&& one is Ok && other is Ok
            &&& one->Ok_0.0.len() + other->Ok_0.0.len() == 1
        }),
{
    reveal_with_fuel(searched_lines, 2);
    lemma_same_places(line, patterns, plain, inverted, patterns.len() as int);
}

proof fn lemma_same_places(
    line: Seq<u8>,
    patterns: Seq<Seq<u8>>,
    a: GrepOptions,
    b: GrepOptions,
    n: int,
)
    requires
        a.ignore_case == b.ignore_case,
        a.word_regexp == b.word_regexp,
    ensures
        earliest(line, patterns, a, n) == earliest(line, patterns, b, n),
    decreases n,
{
    if n > 0 {
        lemma_same_places(line, patterns, a, b, n - 1);
    }
}

// ---------------------------------------------------------------------------
// What is found

/// Whether two bytes are the same, or the same letter where its case does not
/// count.
pub open spec fn is_same(a: u8, b: u8, ignore_case: bool) -> bool {
    ||| a == b
    ||| ignore_case && 65 <= a <= 90 && b == a + 32
    ||| ignore_case && 97 <= a <= 122 && b + 32 == a
}

/// Whether a pattern stands at a place of a line, as a whole word where that
/// is asked for. The empty pattern stands at the start.
pub open spec fn occurs(line: Seq<u8>, pattern: Seq<u8>, at: int, options: GrepOptions) -> bool {
    if pattern.len() == 0 {
        at == 0
    } else {
        let end = at + pattern.len();
        &&& 0 <= at && end <= line.len()
        &&& forall|k: int|
            0 <= k < pattern.len() ==> is_same(
                #[trigger] line[at + k],
                pattern[k],
                options.ignore_case,
            )
        &&& options.word_regexp ==> (at == 0 || !is_word(line[at - 1])) && (end == line.len()
            || !is_word(line[end]))
    }
}

/// Whether one of some patterns stands at a place of a line.
pub open spec fn has_one(
    line: Seq<u8>,
    patterns: Seq<Seq<u8>>,
    n: int,
    at: int,
    options: GrepOptions,
) -> bool {
    exists|k: int| 0 <= k < n && occurs(line, #[trigger] patterns[k], at, options)
}

proof fn lemma_occurs(line: Seq<u8>, pattern: Seq<u8>, at: int, options: GrepOptions)
    requires
        pattern.len() > 0,
    ensures
        stands_at(line, pattern, at, options.ignore_case, options.word_regexp) == occurs(
            line,
            pattern,
            at,
            options,
        ),
{
    assert forall|a: u8, b: u8| same_byte(a, b, options.ignore_case) == #[trigger] is_same(
        a,
        b,
        options.ignore_case,
    ) by {}
    if 0 <= at && at + pattern.len() <= line.len() {
        assert forall|k: int| 0 <= k < pattern.len() implies same_byte(
            #[trigger] line[at + k],
            pattern[k],
            options.ignore_case,
        ) == is_same(line[at + k], pattern[k], options.ignore_case) by {}
    }
}

proof fn lemma_first_from(line: Seq<u8>, pattern: Seq<u8>, at: int, options: GrepOptions)
    requires
        pattern.len() > 0,
        0 <= at,
    ensures
        match first_from(line, pattern, at, options.ignore_case, options.word_regexp) {
            Some(x) => at <= x && occurs(line, pattern, x, options) && forall|y: int|
                at <= y < x ==> !#[trigger] occurs(line, pattern, y, options),
            None => forall|y: int| at <= y ==> !#[trigger] occurs(line, pattern, y, options),
        },
    decreases line.len() - at,
{
    lemma_occurs(line, pattern, at, options);
    if at + pattern.len() <= line.len() && !stands_at(
        line,
        pattern,
        at,
        options.ignore_case,
        options.word_regexp,
    ) && at < line.len() {
        lemma_first_from(line, pattern, at + 1, options);
    }
}

/// A search of a line finds the first place at which one of the patterns
/// stands, and finds none just where none stands anywhere.
pub proof fn lemma_first_place_is_found(
    line: Seq<u8>,
    patterns: Seq<Seq<u8>>,
    options: GrepOptions,
    n: int,
)
    requires
        0 <= n <= patterns.len(),
    ensures
        match earliest(line, patterns, options, n) {
            Some(x) => 0 <= x && has_one(line, patterns, n, x, options) && forall|y: int|
                0 <= y < x ==> !#[trigger] has_one(line, patterns, n, y, options),
            None => forall|y: int| 0 <= y ==> !#[trigger] has_one(line, patterns, n, y, options),
        },
    decreases n,
{
    if n > 0 {
        lemma_first_place_is_found(line, patterns, options, n - 1);
        let pattern = patterns[n - 1];
        let before = earliest(line, patterns, options, n - 1);
        let own = position(line, pattern, options);
        if pattern.len() > 0 {
            lemma_first_from(line, pattern, 0, options);
        }
        assert forall|y: int| 0 <= y implies (#[trigger] has_one(line, patterns, n, y, options)
            <==> has_one(line, patterns, n - 1, y, options) || occurs(line, pattern, y, options)) by {
            if has_one(line, patterns, n - 1, y, options) {
                let k = choose|k: int|
                    0 <= k < n - 1 && occurs(line, #[trigger] patterns[k], y, options);
                assert(occurs(line, patterns[k], y, options));
            }
            if occurs(line, pattern, y, options) {
                assert(occurs(line, patterns[n - 1], y, options));
            }
        }
        if before is Some {
            assert(has_one(line, patterns, n - 1, before->0, options));
        }
    }
}

/// Whether a line is one that a search is for.
pub open spec fn is_hit(line: Seq<u8>, patterns: Seq<Seq<u8>>, options: GrepOptions) -> bool {
    let found = exists|at: int| 0 <= at && #[trigger] has_one(
        line,
        patterns,
        patterns.len() as int,
        at,
        options,
    );
    found != options.invert_match
}

/// Whether a match tells of a line: its path, its number from one on, its
/// text, and the first place at which a pattern stands, from one on.
pub open spec fn tells(
    m: MatchModel,
    path: Seq<u8>,
    lines: Seq<Seq<u8>>,
    i: int,
    patterns: Seq<Seq<u8>>,
    options: GrepOptions,
) -> bool {
    &&& m.path == path
    &&& m.line_number == i + 1
    &&& m.line == lines[i]
    &&& !m.binary
    &&& options.invert_match ==> m.column == 0
    &&& !options.invert_match ==> m.column > 0 && has_one(
        lines[i],
        patterns,
        patterns.len() as int,
        m.column - 1,
        options,
    ) && forall|y: int|
        0 <= y < m.column - 1 ==> !#[trigger] has_one(
            lines[i],
            patterns,
            patterns.len() as int,
            y,
            options,
        )
}

proof fn lemma_hit(line: Seq<u8>, patterns: Seq<Seq<u8>>, options: GrepOptions)
    ensures
        is_hit(line, patterns, options) <==> (earliest(
            line,
            patterns,
            options,
            patterns.len() as int,
        ) is Some) != options.invert_match,
{
    lemma_first_place_is_found(line, patterns, options, patterns.len() as int);
    let at = earliest(line, patterns, options, patterns.len() as int);
    if at is Some {
        assert(has_one(line, patterns, patterns.len() as int, at->0, options));
    }
}

/// A search of a text file finds every line that it is for, in their order,
/// and no other: the numbers of the lines ascend, and each is told of.
#[verifier::spinoff_prover]
#[verifier::rlimit(60)]
pub proof fn lemma_lines_are_found(
    found: Seq<MatchModel>,
    path: Seq<u8>,
    lines: Seq<Seq<u8>>,
    binary: bool,
    patterns: Seq<Seq<u8>>,
    options: GrepOptions,
    n: int,
)
    requires
        0 <= n <= lines.len(),
        !binary || !(options.binary is Default),
        searched_lines(found, path, lines, binary, patterns, options, n) is Ok,
    ensures
        ({
            let (list, over) = searched_lines(
                found,
                path,
                lines,
                binary,
                patterns,
                options,
                n,
            )->Ok_0;
            let m = found.len() as int;
            &&& !over
            &&& m <= list.len() && list.take(m) == found
            &&& list.len() <= options.max_matches || list.len() == m
            &&& forall|k: int|
                m <= k < list.len() ==> 1 <= (#[trigger] list[k]).line_number <= n && tells(
                    list[k],
                    path,
                    lines,
                    list[k].line_number - 1,
                    patterns,
                    options,
                ) && is_hit(lines[list[k].line_number - 1], patterns, options)
            &&& forall|k: int, l: int|
                m <= k < l < list.len() ==> (#[trigger] list[k]).line_number < (
                #[trigger] list[l]).line_number
            &&& forall|i: int|
                0 <= i < n && is_hit(#[trigger] lines[i], patterns, options) ==> exists|k: int|
                    m <= k < list.len() && (#[trigger] list[k]).line_number == i + 1
        }),
    decreases n,
{
    let m = found.len() as int;
    if n <= 0 {
        assert(found.take(m) =~= found);
    } else {
        lemma_lines_are_found(found, path, lines, binary, patterns, options, n - 1);
        let (less, _) = searched_lines(
            found,
            path,
            lines,
            binary,
            patterns,
            options,
            n - 1,
        )->Ok_0;
        let (list, _) = searched_lines(found, path, lines, binary, patterns, options, n)->Ok_0;
        let line = lines[n - 1];
        lemma_hit(line, patterns, options);
        lemma_first_place_is_found(line, patterns, options, patterns.len() as int);
        if list.len() > less.len() {
            assert(list.take(m) =~= less.take(m));
            assert forall|i: int|
                0 <= i < n && is_hit(#[trigger] lines[i], patterns, options) implies exists|k: int|
                m <= k < list.len() && (#[trigger] list[k]).line_number == i + 1 by {
                if i < n - 1 {
                    let k = choose|k: int|
                        m <= k < less.len() && (#[trigger] less[k]).line_number == i + 1;
                    assert(list[k] == less[k]);
                } else {
                    assert(list[less.len() as int].line_number == n);
                }
            }
            assert forall|k: int| m <= k < list.len() implies 1 <= (
            #[trigger] list[k]).line_number <= n && tells(
                list[k],
                path,
                lines,
                list[k].line_number - 1,
                patterns,
                options,
            ) && is_hit(lines[list[k].line_number - 1], patterns, options) by {
                if k < less.len() {
                    assert(list[k] == less[k]);
                }
            }
        }
    }
}

/// A search of a binary file that is not to be shown tells once that it
/// matches, just where one of its lines is searched for.
pub proof fn lemma_binary_is_told_once(
    found: Seq<MatchModel>,
    path: Seq<u8>,
    lines: Seq<Seq<u8>>,
    patterns: Seq<Seq<u8>>,
    options: GrepOptions,
    n: int,
)
    requires
        0 <= n <= lines.len(),
        options.binary is Default,
        searched_lines(found, path, lines, true, patterns, options, n) is Ok,
    ensures
        ({
            let (list, over) = searched_lines(
                found,
                path,
                lines,
                true,
                patterns,
                options,
                n,
            )->Ok_0;
            let hit = exists|i: int| 0 <= i < n && is_hit(#[trigger] lines[i], patterns, options);
            &&& over == hit
            &&& hit ==> list == found.push(list.last()) && list.last().path == path
                && list.last().binary
            &&& !hit ==> list == found
        }),
    decreases n,
{
    if n > 0 {
        lemma_binary_is_told_once(found, path, lines, patterns, options, n - 1);
        lemma_hit(lines[n - 1], patterns, options);
        let (list, over) = searched_lines(
            found,
            path,
            lines,
            true,
            patterns,
            options,
            n,
        )->Ok_0;
        if exists|i: int| 0 <= i < n - 1 && is_hit(#[trigger] lines[i], patterns, options) {
            let i = choose|i: int|
                0 <= i < n - 1 && is_hit(#[trigger] lines[i], patterns, options);
            assert(is_hit(lines[i], patterns, options));
        }
    }
}

/// The files that a search of tracked ones looks at are the regular ones at
/// the wanted paths that are not in conflict and not only meant to be added,
/// each once; in the working tree none that is left out there.
pub proof fn lemma_tracked_files_are_searched(
    list: Seq<ls_files::Listed>,
    options: GrepOptions,
    n: int,
    path: Seq<u8>,
)
    requires
        0 <= n <= list.len(),
        tracked_files(list, options, n) is Ok,
    ensures
        has_candidate(tracked_files(list, options, n)->Ok_0, path) <==> exists|i: int|
            0 <= i < n && (#[trigger] list[i]).path == path && list[i].stage == Some(0u8)
                && !list[i].intent_to_add && (list[i].mode == Some(0o100_644u32) || list[i].mode
                == Some(0o100_755u32)) && !(options.target is Worktree && list[i].skip_worktree)
                && ls_tree::selected(path, bytes::deep(options.paths@)),
        forall|j: int, k: int|
            0 <= j < k < (tracked_files(list, options, n)->Ok_0).len() ==> (
            #[trigger] (tracked_files(list, options, n)->Ok_0)[j]).0 != (
            #[trigger] (tracked_files(list, options, n)->Ok_0)[k]).0,
    decreases n,
{
    if n > 0 {
        lemma_tracked_files_are_searched(list, options, n - 1, path);
        let less = tracked_files(list, options, n - 1)->Ok_0;
        let more = tracked_files(list, options, n)->Ok_0;
        if has_candidate(less, path) {
            let k = choose|k: int| 0 <= k < less.len() && (#[trigger] less[k]).0 == path;
            assert(more[k].0 == path);
        }
        if has_candidate(more, path) {
            let k = choose|k: int| 0 <= k < more.len() && (#[trigger] more[k]).0 == path;
            if k < less.len() {
                assert(less[k].0 == path);
            } else {
                assert(list[n - 1].path == path);
            }
        }
        if more.len() > less.len() {
            assert(more[less.len() as int].0 == list[n - 1].path);
            assert forall|j: int, k: int| 0 <= j < k < more.len() implies (#[trigger] more[j]).0
                != (#[trigger] more[k]).0 by {
                assert(more[j] == less[j]);
                if k < less.len() {
                    assert(more[k] == less[k]);
                } else {
                    assert(!has_candidate(less, list[n - 1].path));
                    assert(less[j].0 != list[n - 1].path);
                }
            }
        }
    }
}

} // verus!
