//! Listing of the references that a remote offers.

use vstd::prelude::*;

use crate::bytes;
use crate::fetch;
use crate::fetch::{Advertised, RemoteAdvertisement, RemoteModel, UploadPackTransport};
use crate::fs;
use crate::fs::Refusal;
use crate::ignore;
use crate::object;
use crate::object::ObjectId;
use crate::{Error, Result};

verus! {

/// Which references are listed.
#[derive(Clone, Copy, Debug, PartialEq, Eq, Structural)]
pub enum LsRemoteSelection {
    All,
    Branches,
    Tags,
    BranchesAndTags,
}

impl Default for LsRemoteSelection {
    fn default() -> (r: Self)
        ensures
            r is All,
    {
        LsRemoteSelection::All
    }
}

/// What is listed, what is said to the remote, and the limits.
#[derive(Debug, PartialEq, Eq)]
pub struct LsRemoteOptions {
    pub selection: LsRemoteSelection,
    pub refs_only: bool,
    pub show_symrefs: bool,
    pub patterns: Vec<Vec<u8>>,
    pub server_options: Vec<Vec<u8>>,
    pub max_refs: usize,
    pub max_advertisement_size: usize,
    pub max_output_size: usize,
}

impl Default for LsRemoteOptions {
    fn default() -> (r: Self)
        ensures
            r.selection is All,
            !r.refs_only && !r.show_symrefs,
            r.patterns@.len() == 0 && r.server_options@.len() == 0,
            r.max_refs == 10_000_000,
            r.max_advertisement_size == 1024 * 1024 * 1024,
            r.max_output_size == 1024 * 1024 * 1024,
    {
        LsRemoteOptions {
            selection: LsRemoteSelection::All,
            refs_only: false,
            show_symrefs: false,
            patterns: Vec::new(),
            server_options: Vec::new(),
            max_refs: 10_000_000,
            max_advertisement_size: 1024 * 1024 * 1024,
            max_output_size: 1024 * 1024 * 1024,
        }
    }
}

/// A listed reference.
#[derive(Debug, PartialEq, Eq)]
pub struct LsRemoteEntry {
    id: ObjectId,
    name: Vec<u8>,
    symref_target: Option<Vec<u8>>,
}

/// What a listed reference says.
#[verifier::ext_equal]
pub struct Listed {
    pub id: Seq<u8>,
    pub name: Seq<u8>,
    pub symref_target: Option<Seq<u8>>,
}

impl View for LsRemoteEntry {
    type V = Listed;

    closed spec fn view(&self) -> Listed {
        Listed {
            id: self.id@,
            name: self.name@,
            symref_target: match self.symref_target {
                Some(target) => Some(target@),
                None => None,
            },
        }
    }
}

pub open spec fn models(list: Seq<LsRemoteEntry>) -> Seq<Listed> {
    Seq::new(list.len(), |i: int| list[i]@)
}

impl LsRemoteEntry {
    pub fn id(&self) -> (r: ObjectId)
        ensures
            r@ == self@.id,
    {
        self.id
    }

    pub fn name(&self) -> (r: &[u8])
        ensures
            r@ == self@.name,
    {
        self.name.as_slice()
    }

    pub fn symref_target(&self) -> (r: Option<&[u8]>)
        ensures
            match self@.symref_target {
                Some(target) => r is Some && r->0@ == target,
                None => r is None,
            },
    {
        match &self.symref_target {
            Some(target) => Some(target.as_slice()),
            None => None,
        }
    }
}

/// A listing, and how it is printed.
#[derive(Debug, PartialEq, Eq)]
pub struct LsRemoteResult {
    entries: Vec<LsRemoteEntry>,
    output: Vec<u8>,
}

impl LsRemoteResult {
    pub closed spec fn listed(self) -> Seq<Listed> {
        models(self.entries@)
    }

    pub closed spec fn printed(self) -> Seq<u8> {
        self.output@
    }

    pub fn entries(&self) -> (r: &[LsRemoteEntry])
        ensures
            models(r@) == self.listed(),
    {
        self.entries.as_slice()
    }

    /// One line for each reference: its object, a tab and its name.
    pub fn output(&self) -> (r: &[u8])
        ensures
            r@ == self.printed(),
    {
        self.output.as_slice()
    }
}

// ---------------------------------------------------------------------------
// Selection

/// Whether a name is of a selected kind.
pub open spec fn of_kind(name: Seq<u8>, selection: LsRemoteSelection, refs_only: bool) -> bool {
    let branch = bytes::has_prefix(name, fetch::branch_prefix());
    let tag = bytes::has_prefix(name, fetch::tag_prefix());
    &&& !(refs_only && (name == fetch::head_name() || fetch::is_peeled(name)))
    &&& match selection {
        LsRemoteSelection::All => true,
        LsRemoteSelection::Branches => branch,
        LsRemoteSelection::Tags => tag,
        LsRemoteSelection::BranchesAndTags => branch || tag,
    }
}

/// Whether a place of a name begins it or follows a slash.
pub open spec fn begins(name: Seq<u8>, at: int) -> bool {
    0 <= at <= name.len() && (at == 0 || name[at - 1] == 47)
}

/// Whether a pattern matches a name from its start or from behind a slash.
pub open spec fn tail_matches(pattern: Seq<u8>, name: Seq<u8>) -> bool {
    exists|at: int| #[trigger] begins(name, at) && ignore::wild_match(pattern, name.skip(at), false)
}

pub open spec fn any_matches(patterns: Seq<Seq<u8>>, name: Seq<u8>) -> bool {
    patterns.len() == 0 || exists|k: int|
        0 <= k < patterns.len() && tail_matches(#[trigger] patterns[k], name)
}

pub open spec fn is_listed(name: Seq<u8>, options: LsRemoteOptions) -> bool {
    of_kind(name, options.selection, options.refs_only) && any_matches(
        bytes::deep(options.patterns@),
        name,
    )
}

/// How a reference is listed.
pub open spec fn entry_of(
    reference: RemoteModel,
    head_target: Option<Seq<u8>>,
    options: LsRemoteOptions,
) -> Listed {
    Listed {
        id: reference.id,
        name: reference.name,
        symref_target: if options.show_symrefs && reference.name == fetch::head_name() {
            head_target
        } else {
            None
        },
    }
}

/// The place of a name in a list in ascending order: before the first greater
/// one.
pub open spec fn place(list: Seq<Listed>, name: Seq<u8>, from: int) -> int
    decreases list.len() - from,
{
    if from < 0 || from >= list.len() {
        list.len() as int
    } else if bytes::lex_lt(name, list[from].name) {
        from
    } else {
        place(list, name, from + 1)
    }
}

/// The entries for the first `n` references, in ascending order of names.
pub open spec fn entries_of(said: Advertised, options: LsRemoteOptions, n: int) -> Seq<Listed>
    decreases n,
{
    if n <= 0 {
        Seq::empty()
    } else {
        let before = entries_of(said, options, n - 1);
        let reference = said.refs[n - 1];
        if is_listed(reference.name, options) {
            before.insert(
                place(before, reference.name, 0),
                entry_of(reference, said.head_target, options),
            )
        } else {
            before
        }
    }
}

/// The lines of an entry.
pub open spec fn entry_lines(entry: Listed) -> (Seq<u8>, Seq<u8>) {
    (
        match entry.symref_target {
            Some(target) => bytes::utf8("ref: "@) + target + seq![9u8] + entry.name + seq![10u8],
            None => Seq::empty(),
        },
        object::hex_of(entry.id) + seq![9u8] + entry.name + seq![10u8],
    )
}

/// The text of the first `n` entries within a limit.
pub open spec fn text_of(list: Seq<Listed>, limit: nat, n: int) -> core::result::Result<
    Seq<u8>,
    Error,
>
    decreases n,
{
    if n <= 0 {
        Ok(Seq::empty())
    } else {
        match text_of(list, limit, n - 1) {
            Err(error) => Err(error),
            Ok(text) => {
                let lines = entry_lines(list[n - 1]);
                let whole = text + lines.0 + lines.1;
                if whole.len() > limit {
                    Err(Error::Protocol("ls-remote output exceeds limit"))
                } else {
                    Ok(whole)
                }
            },
        }
    }
}

/// A listing and its text, or why it is refused.
pub open spec fn listing_of(said: Advertised, options: LsRemoteOptions) -> core::result::Result<
    (Seq<Listed>, Seq<u8>),
    Error,
> {
    let list = entries_of(said, options, said.refs.len() as int);
    if list.len() > options.max_refs {
        Err(Error::Protocol("selected remote ref count exceeds limit"))
    } else {
        match text_of(list, options.max_output_size as nat, list.len() as int) {
            Err(error) => Err(error),
            Ok(text) => Ok((list, text)),
        }
    }
}

/// What is listed of an advertisement, or why it is refused.
pub open spec fn listing_from(input: Seq<u8>, options: LsRemoteOptions) -> core::result::Result<
    (Seq<Listed>, Seq<u8>),
    Refusal,
> {
    if input.len() > options.max_advertisement_size {
        Err(Refusal::Said(Error::Protocol("ls-remote advertisement exceeds limit")))
    } else {
        match fetch::advertisement_of(input, Some(options.max_refs)) {
            Err(refusal) => Err(refusal),
            Ok(said) => match listing_of(said, options) {
                Err(error) => Err(Refusal::Said(error)),
                Ok(listing) => Ok(listing),
            },
        }
    }
}

fn matches_tail(pattern: &[u8], name: &[u8]) -> (r: bool)
    ensures
        r == tail_matches(pattern@, name@),
{
    let mut at: usize = 0;
    while at < name.len()
        invariant
            at <= name@.len(),
            forall|k: int|
                0 <= k < at && #[trigger] begins(name@, k) ==> !ignore::wild_match(
                    pattern@,
                    name@.skip(k),
                    false,
                ),
        decreases name@.len() - at,
    {
        if at == 0 || name[at - 1] == 47 {
            let tail = bytes::copy_range(name, at, name.len());
            assert(tail@ =~= name@.skip(at as int));
            assert(begins(name@, at as int));
            if ignore::wildmatch_ref(pattern, tail.as_slice()) {
                return true;
            }
        }
        at += 1;
    }
    if at == 0 || name[at - 1] == 47 {
        let tail: Vec<u8> = Vec::new();
        assert(tail@ =~= name@.skip(at as int));
        assert(begins(name@, at as int));
        return ignore::wildmatch_ref(pattern, tail.as_slice());
    }
    false
}

fn matches_patterns(name: &[u8], patterns: &[Vec<u8>]) -> (r: bool)
    ensures
        r == any_matches(bytes::deep(patterns@), name@),
{
    let ghost all = bytes::deep(patterns@);
    if patterns.len() == 0 {
        return true;
    }
    let mut i: usize = 0;
    while i < patterns.len()
        invariant
            i <= patterns@.len(),
            all == bytes::deep(patterns@),
            forall|k: int| 0 <= k < i ==> !tail_matches(#[trigger] all[k], name@),
        decreases patterns@.len() - i,
    {
        assert(all[i as int] == patterns@[i as int]@);
        if matches_tail(patterns[i].as_slice(), name) {
            return true;
        }
        i += 1;
    }
    false
}

fn selected_type(name: &[u8], options: &LsRemoteOptions) -> (r: bool)
    ensures
        r == of_kind(name@, options.selection, options.refs_only),
{
    if options.refs_only && (bytes::bytes_eq(name, "HEAD".as_bytes()) || bytes::ends_with(
        name,
        "^{}".as_bytes(),
    )) {
        return false;
    }
    let branch = bytes::starts_with(name, "refs/heads/".as_bytes());
    let tag = bytes::starts_with(name, "refs/tags/".as_bytes());
    match options.selection {
        LsRemoteSelection::All => true,
        LsRemoteSelection::Branches => branch,
        LsRemoteSelection::Tags => tag,
        LsRemoteSelection::BranchesAndTags => branch || tag,
    }
}

fn find_place(list: &Vec<LsRemoteEntry>, name: &[u8]) -> (r: usize)
    ensures
        r <= list@.len(),
        r == place(models(list@), name@, 0),
{
    let ghost all = models(list@);
    let mut i: usize = 0;
    while i < list.len()
        invariant
            i <= list@.len(),
            all == models(list@),
            place(all, name@, 0) == place(all, name@, i as int),
        decreases list@.len() - i,
    {
        assert(all[i as int] == list@[i as int]@);
        if bytes::bytes_lt(name, list[i].name()) {
            return i;
        }
        i += 1;
    }
    i
}

fn take_entries(advertisement: &RemoteAdvertisement, options: &LsRemoteOptions) -> (r: Vec<
    LsRemoteEntry,
>)
    ensures
        models(r@) == entries_of(
            advertisement@,
            *options,
            advertisement@.refs.len() as int,
        ),
{
    let refs = advertisement.refs();
    let ghost said = advertisement@;
    let mut out: Vec<LsRemoteEntry> = Vec::new();
    assert(models(out@) =~= Seq::empty());
    let mut i: usize = 0;
    while i < refs.len()
        invariant
            i <= refs@.len(),
            said == advertisement@,
            said.refs == fetch::models(refs@),
            models(out@) == entries_of(said, *options, i as int),
        decreases refs@.len() - i,
    {
        let name = refs[i].name();
        assert(said.refs[i as int] == refs@[i as int]@);
        if selected_type(name, options) && matches_patterns(name, options.patterns.as_slice()) {
            let symref_target = if options.show_symrefs && bytes::bytes_eq(
                name,
                "HEAD".as_bytes(),
            ) {
                match advertisement.head_target() {
                    Some(target) => Some(bytes::to_vec(target)),
                    None => None,
                }
            } else {
                None
            };
            let ghost before = out@;
            let at: usize = find_place(&out, name);
            let entry = LsRemoteEntry { id: refs[i].id(), name: bytes::to_vec(name), symref_target };
            let ghost model = entry@;
            assert(model =~= entry_of(said.refs[i as int], said.head_target, *options));
            out.insert(at, entry);
            assert(models(out@) =~= models(before).insert(at as int, model));
        }
        i += 1;
    }
    out
}

fn push_entry(output: &mut Vec<u8>, entry: &LsRemoteEntry)
    ensures
        final(output)@ == old(output)@ + entry_lines(entry@).0 + entry_lines(entry@).1,
{
    let ghost start = output@;
    if let Some(target) = entry.symref_target() {
        bytes::append(output, "ref: ".as_bytes());
        bytes::append(output, target);
        output.push(9);
        bytes::append(output, entry.name());
        output.push(10);
    }
    assert(output@ =~= start + entry_lines(entry@).0);
    let hex = entry.id().to_hex();
    bytes::append(output, &hex);
    output.push(9);
    bytes::append(output, entry.name());
    output.push(10);
    assert(output@ =~= start + entry_lines(entry@).0 + entry_lines(entry@).1);
}

proof fn lemma_text_persist(list: Seq<Listed>, limit: nat, n: int, m: int)
    requires
        0 <= n <= m,
        text_of(list, limit, n) is Err,
    ensures
        text_of(list, limit, m) == text_of(list, limit, n),
    decreases m - n,
{
    if n < m {
        lemma_text_persist(list, limit, n, m - 1);
    }
}

/// Lists the references of an advertisement.
pub fn select(advertisement: &RemoteAdvertisement, options: &LsRemoteOptions) -> (r: Result<
    LsRemoteResult,
>)
    ensures
        match listing_of(advertisement@, *options) {
            Ok((list, text)) => r is Ok && r->Ok_0.listed() == list && r->Ok_0.printed() == text,
            Err(error) => r is Err && r->Err_0 == error,
        },
{
    let entries = take_entries(advertisement, options);
    let ghost list = models(entries@);
    assert(list.len() == entries@.len());
    if entries.len() > options.max_refs {
        return Err(Error::Protocol("selected remote ref count exceeds limit"));
    }
    let limit: usize = options.max_output_size;
    let mut output: Vec<u8> = Vec::new();
    assert(output@ =~= Seq::empty());
    let mut i: usize = 0;
    while i < entries.len()
        invariant
            i <= entries@.len(),
            list == models(entries@),
            list == entries_of(advertisement@, *options, advertisement@.refs.len() as int),
            list.len() <= options.max_refs,
            limit == options.max_output_size,
            text_of(list, limit as nat, i as int) == Ok::<Seq<u8>, Error>(output@),
        decreases entries@.len() - i,
    {
        assert(list[i as int] == entries@[i as int]@);
        push_entry(&mut output, &entries[i]);
        if output.len() > limit {
            proof {
                lemma_text_persist(list, limit as nat, i + 1, list.len() as int);
            }
            return Err(Error::Protocol("ls-remote output exceeds limit"));
        }
        i += 1;
    }
    Ok(LsRemoteResult { entries, output })
}

/// Lists the references of an advertisement that is still to be read.
pub fn list_advertised(input: &[u8], options: &LsRemoteOptions) -> (r: Result<LsRemoteResult>)
    ensures
        match listing_from(input@, *options) {
            Ok((list, text)) => r is Ok && r->Ok_0.listed() == list && r->Ok_0.printed() == text,
            Err(refusal) => fs::declined(r, refusal),
        },
{
    if input.len() > options.max_advertisement_size {
        return Err(Error::Protocol("ls-remote advertisement exceeds limit"));
    }
    let advertisement = RemoteAdvertisement::parse_with_limit(input, options.max_refs)?;
    select(&advertisement, options)
}

/// Asks a remote for its references. What is listed is what the remote
/// advertised.
pub fn ls_remote<T: UploadPackTransport>(transport: &mut T, options: &LsRemoteOptions) -> (r: Result<
    LsRemoteResult,
>)
    ensures
        options.server_options@.len() > 0 ==> r is Err && r->Err_0 == Error::Protocol(
            "server options require protocol v2",
        ) && *final(transport) == *old(transport),
        r is Ok ==> exists|input: Seq<u8>| #[trigger]
            listing_from(input, *options) == Ok::<(Seq<Listed>, Seq<u8>), Refusal>(
                (r->Ok_0.listed(), r->Ok_0.printed()),
            ),
{
    if options.server_options.len() > 0 {
        return Err(Error::Protocol("server options require protocol v2"));
    }
    let input = transport.advertise()?;
    list_advertised(input.as_slice(), options)
}

/// The prefixes that a query for selected references names.
pub open spec fn prefixes_of(selection: LsRemoteSelection) -> Seq<Seq<u8>> {
    match selection {
        LsRemoteSelection::All => Seq::empty(),
        LsRemoteSelection::Branches => seq![fetch::branch_prefix()],
        LsRemoteSelection::Tags => seq![fetch::tag_prefix()],
        LsRemoteSelection::BranchesAndTags => seq![fetch::branch_prefix(), fetch::tag_prefix()],
    }
}

/// The prefixes to name in a query for selected references.
pub fn query_prefixes(selection: LsRemoteSelection) -> (r: Vec<Vec<u8>>)
    ensures
        bytes::deep(r@) == prefixes_of(selection),
{
    let mut out: Vec<Vec<u8>> = Vec::new();
    match selection {
        LsRemoteSelection::All => {},
        LsRemoteSelection::Branches => {
            out.push(bytes::to_vec("refs/heads/".as_bytes()));
        },
        LsRemoteSelection::Tags => {
            out.push(bytes::to_vec("refs/tags/".as_bytes()));
        },
        LsRemoteSelection::BranchesAndTags => {
            out.push(bytes::to_vec("refs/heads/".as_bytes()));
            out.push(bytes::to_vec("refs/tags/".as_bytes()));
        },
    }
    assert(bytes::deep(out@) =~= prefixes_of(selection));
    out
}

/// Whether a server option can stand on a line of its own.
pub open spec fn sound_option(option: Seq<u8>) -> bool {
    !option.contains(10) && !option.contains(0)
}

fn options_sound(options: &[Vec<u8>]) -> (r: bool)
    ensures
        r == (forall|k: int|
            0 <= k < options@.len() ==> sound_option(#[trigger] bytes::deep(options@)[k])),
{
    let ghost all = bytes::deep(options@);
    let mut i: usize = 0;
    while i < options.len()
        invariant
            i <= options@.len(),
            all == bytes::deep(options@),
            forall|k: int| 0 <= k < i ==> sound_option(#[trigger] all[k]),
        decreases options@.len() - i,
    {
        assert(all[i as int] == options@[i as int]@);
        if bytes::contains_byte(options[i].as_slice(), 10) || bytes::contains_byte(
            options[i].as_slice(),
            0,
        ) {
            return false;
        }
        i += 1;
    }
    true
}

/// Lists what a second-version query for `query_prefixes` gave.
pub fn ls_remote_v2(answer: &RemoteAdvertisement, options: &LsRemoteOptions) -> (r: Result<
    LsRemoteResult,
>)
    ensures
        ({
            let said = bytes::deep(options.server_options@);
            if exists|k: int| 0 <= k < said.len() && !sound_option(#[trigger] said[k]) {
                r is Err && r->Err_0 == Error::Protocol("invalid server option")
            } else {
                match listing_of(answer@, *options) {
                    Ok((list, text)) => r is Ok && r->Ok_0.listed() == list && r->Ok_0.printed()
                        == text,
                    Err(error) => r is Err && r->Err_0 == error,
                }
            }
        }),
{
    if !options_sound(options.server_options.as_slice()) {
        return Err(Error::Protocol("invalid server option"));
    }
    select(answer, options)
}

/// Entries are listed in ascending order of names.
pub proof fn lemma_listed_ascending(said: Advertised, options: LsRemoteOptions, n: int)
    ensures
        ({
            let list = entries_of(said, options, n);
            forall|i: int, j: int|
                0 <= i < j < list.len() ==> !#[trigger] bytes::lex_lt(list[j].name, list[i].name)
        }),
    decreases n,
{
    if n > 0 {
        lemma_listed_ascending(said, options, n - 1);
        let before = entries_of(said, options, n - 1);
        let reference = said.refs[n - 1];
        if is_listed(reference.name, options) {
            let at = place(before, reference.name, 0);
            lemma_place(before, reference.name, 0);
            let list = entries_of(said, options, n);
            assert forall|i: int, j: int| 0 <= i < j < list.len() implies !#[trigger] bytes::lex_lt(
                list[j].name,
                list[i].name,
            ) by {
                let old_i = if i < at { i } else { i - 1 };
                let old_j = if j < at { j } else { j - 1 };
                if i != at {
                    assert(list[i] == before[old_i]);
                }
                if j != at {
                    assert(list[j] == before[old_j]);
                }
                if i == at {
                    if bytes::lex_lt(list[j].name, reference.name) {
                        bytes::lemma_lex_transitive(
                            list[j].name,
                            reference.name,
                            before[at].name,
                        );
                        if old_j != at {
                            assert(!bytes::lex_lt(before[old_j].name, before[at].name));
                        } else {
                            bytes::lemma_lex_irreflexive(before[at].name);
                        }
                    }
                } else if j == at {
                    assert(!bytes::lex_lt(reference.name, before[old_i].name));
                } else {
                    assert(!bytes::lex_lt(before[old_j].name, before[old_i].name));
                }
            }
        }
    }
}

proof fn lemma_place(list: Seq<Listed>, name: Seq<u8>, from: int)
    requires
        0 <= from <= list.len(),
    ensures
        from <= place(list, name, from) <= list.len(),
        forall|k: int|
            from <= k < place(list, name, from) ==> !bytes::lex_lt(name, (#[trigger] list[k]).name),
        place(list, name, from) < list.len() ==> bytes::lex_lt(
            name,
            list[place(list, name, from)].name,
        ),
    decreases list.len() - from,
{
    if from < list.len() && !bytes::lex_lt(name, list[from].name) {
        lemma_place(list, name, from + 1);
    }
}

} // verus!
