//! Negotiation with a remote that offers references: what it advertises, what
//! is asked of it, what its answer holds, and which references change.

use vstd::prelude::*;

use crate::bytes;
use crate::fetch_laws;
use crate::for_each_ref::Ancestry;
use crate::fs;
use crate::fs::memory;
use crate::fs::Refusal;
use crate::id_set::IdSet;
use crate::object;
use crate::object::{ObjectId, ObjectKind};
use crate::protocol;
use crate::protocol::{Capability, Packet, PktLine, Sideband};
use crate::refname;
use crate::repository::Repository;
use crate::storage;
use crate::{Error, Result};

verus! {

/// The exchange of bytes that a fetch needs from the outside.
pub trait UploadPackTransport {
    /// Obtains what the remote advertises.
    fn advertise(&mut self) -> Result<Vec<u8>>;

    /// Sends one complete request and gives back the complete response.
    fn request(&mut self, request: &[u8]) -> Result<Vec<u8>>;
}

/// A reference that a remote advertises.
#[derive(Debug, PartialEq, Eq)]
pub struct RemoteRef {
    name: Vec<u8>,
    id: ObjectId,
}

/// What an advertised reference says.
#[verifier::ext_equal]
pub struct RemoteModel {
    pub name: Seq<u8>,
    pub id: Seq<u8>,
}

impl View for RemoteRef {
    type V = RemoteModel;

    closed spec fn view(&self) -> RemoteModel {
        RemoteModel { name: self.name@, id: self.id@ }
    }
}

pub open spec fn models(list: Seq<RemoteRef>) -> Seq<RemoteModel> {
    Seq::new(list.len(), |i: int| list[i]@)
}

impl RemoteRef {
    pub fn new(name: Vec<u8>, id: ObjectId) -> (r: Self)
        ensures
            r@ == (RemoteModel { name: name@, id: id@ }),
    {
        RemoteRef { name, id }
    }

    pub fn name(&self) -> (r: &[u8])
        ensures
            r@ == self@.name,
    {
        self.name.as_slice()
    }

    pub fn id(&self) -> (r: ObjectId)
        ensures
            r@ == self@.id,
    {
        self.id
    }

    fn copy(&self) -> (r: Self)
        ensures
            r@ == self@,
    {
        RemoteRef { name: bytes::to_vec(self.name.as_slice()), id: self.id }
    }
}

/// What a remote advertises.
#[derive(Debug, PartialEq, Eq)]
pub struct RemoteAdvertisement {
    refs: Vec<RemoteRef>,
    capabilities: Vec<Capability>,
    head_target: Option<Vec<u8>>,
}

/// What an advertisement says.
#[verifier::ext_equal]
pub struct Advertised {
    pub refs: Seq<RemoteModel>,
    pub capabilities: Seq<(Seq<u8>, Option<Seq<u8>>)>,
    pub head_target: Option<Seq<u8>>,
}

impl View for RemoteAdvertisement {
    type V = Advertised;

    closed spec fn view(&self) -> Advertised {
        Advertised {
            refs: models(self.refs@),
            capabilities: protocol::capability_views(self.capabilities@),
            head_target: match self.head_target {
                Some(target) => Some(target@),
                None => None,
            },
        }
    }
}

// ---------------------------------------------------------------------------
// Reading an advertisement

pub open spec fn head_name() -> Seq<u8> {
    bytes::utf8("HEAD"@)
}

/// A name without the mark of a peeled tag.
pub open spec fn unmarked(name: Seq<u8>) -> Seq<u8> {
    let mark = bytes::utf8("^{}"@);
    if bytes::has_suffix(name, mark) {
        name.take(name.len() - mark.len())
    } else {
        name
    }
}

/// What a name is refused for.
pub open spec fn advertised_fault(name: Seq<u8>) -> Option<Refusal> {
    if name == head_name() || name == bytes::utf8("capabilities^{}"@) {
        None
    } else {
        refname::name_fault(unmarked(name))
    }
}

/// The reference of a line, or why the line is refused.
pub open spec fn line_reference(line: Seq<u8>) -> core::result::Result<RemoteModel, Refusal> {
    if line.len() < 42 || line[40] != 32 {
        Err(Refusal::Said(Error::Protocol("malformed advertised ref")))
    } else if !vstd::utf8::valid_utf8(line.take(40)) {
        Err(Refusal::Said(Error::Protocol("advertised ID is not ASCII")))
    } else if object::id_of_hex(line.take(40)) is None {
        Err(Refusal::Said(Error::Protocol("invalid advertised object ID")))
    } else if !vstd::utf8::valid_utf8(line.skip(41)) {
        Err(Refusal::Said(Error::Protocol("advertised ref is not UTF-8")))
    } else {
        match advertised_fault(line.skip(41)) {
            Some(refusal) => Err(refusal),
            None => Ok(
                RemoteModel { name: line.skip(41), id: object::id_of_hex(line.take(40))->0 },
            ),
        }
    }
}

/// A line without the newline at its end.
pub open spec fn chomped(line: Seq<u8>) -> Seq<u8> {
    if line.len() > 0 && line.last() == 10 {
        line.drop_last()
    } else {
        line
    }
}

pub open spec fn has_reference(refs: Seq<RemoteModel>, name: Seq<u8>) -> bool {
    exists|k: int| 0 <= k < refs.len() && (#[trigger] refs[k]).name == name
}

/// What has been read of an advertisement.
#[verifier::ext_equal]
pub struct Reading {
    pub refs: Seq<RemoteModel>,
    pub capabilities: Seq<(Seq<u8>, Option<Seq<u8>>)>,
}

/// What is read once a line is added. The first line may carry capabilities
/// behind a zero byte.
pub open spec fn with_line(reading: Reading, data: Seq<u8>, limit: Option<usize>) -> core::result::Result<
    Reading,
    Refusal,
> {
    let line = chomped(data);
    let first = reading.refs.len() == 0;
    let nul = bytes::index_from(line, 0, 0);
    if !first && nul < line.len() {
        Err(Refusal::Said(Error::Protocol("capabilities after first advertised ref")))
    } else {
        match line_reference(line.take(nul)) {
            Err(refusal) => Err(refusal),
            Ok(reference) => if has_reference(reading.refs, reference.name) {
                Err(Refusal::Said(Error::Protocol("duplicate advertised ref")))
            } else if limit matches Some(limit) && reading.refs.len() >= limit {
                Err(Refusal::Said(Error::Protocol("advertised reference count exceeds limit")))
            } else if nul < line.len() {
                match protocol::capability_list(line.skip(nul + 1)) {
                    Err(error) => Err(Refusal::Said(error)),
                    Ok(capabilities) => Ok(
                        Reading { refs: reading.refs.push(reference), capabilities },
                    ),
                }
            } else {
                Ok(
                    Reading {
                        refs: reading.refs.push(reference),
                        capabilities: reading.capabilities,
                    },
                )
            },
        }
    }
}

/// What is read from a place on up to the flush packet, and where that ends.
pub open spec fn read_from(
    input: Seq<u8>,
    at: int,
    reading: Reading,
    limit: Option<usize>,
) -> core::result::Result<(Reading, int), Refusal>
    decreases input.len() - at,
{
    if at < 0 || at > input.len() {
        Err(Refusal::Said(Error::Protocol("truncated pkt-line")))
    } else {
        match protocol::first_packet(input.skip(at)) {
            Err(error) => Err(Refusal::Said(error)),
            Ok(None) => Err(Refusal::Said(Error::Protocol("truncated pkt-line"))),
            Ok(Some((packet, length))) => match packet {
                Packet::Flush => Ok((reading, at + length)),
                Packet::Data(data) => match with_line(reading, data, limit) {
                    Err(refusal) => Err(refusal),
                    Ok(next) => read_from(input, at + length, next, limit),
                },
                _ => Err(
                    Refusal::Said(Error::Protocol("v2 control packet in v0/v1 advertisement")),
                ),
            },
        }
    }
}

/// The value of a capability.
pub open spec fn value_of(
    capabilities: Seq<(Seq<u8>, Option<Seq<u8>>)>,
    name: Seq<u8>,
    n: int,
) -> Option<Seq<u8>>
    decreases n,
{
    if n <= 0 {
        None
    } else {
        let capability = capabilities[n - 1];
        if capability.0 == name {
            capability.1
        } else {
            value_of(capabilities, name, n - 1)
        }
    }
}

/// The branch that a symbolic-reference capability gives for the head.
pub open spec fn head_of(capabilities: Seq<(Seq<u8>, Option<Seq<u8>>)>) -> Option<Seq<u8>> {
    let mark = bytes::utf8("HEAD:"@);
    match value_of(capabilities, bytes::utf8("symref"@), capabilities.len() as int) {
        Some(value) if bytes::has_prefix(value, mark) => Some(value.skip(mark.len() as int)),
        _ => None,
    }
}

/// What an advertisement says, or why it is refused.
pub open spec fn advertisement_of(input: Seq<u8>, limit: Option<usize>) -> core::result::Result<
    Advertised,
    Refusal,
> {
    match read_from(
        input,
        0,
        Reading { refs: Seq::empty(), capabilities: Seq::empty() },
        limit,
    ) {
        Err(refusal) => Err(refusal),
        Ok((reading, end)) => if end != input.len() {
            Err(Refusal::Said(Error::Protocol("bytes follow advertisement flush")))
        } else {
            let head_target = head_of(reading.capabilities);
            let said = Advertised {
                refs: reading.refs,
                capabilities: reading.capabilities,
                head_target,
            };
            match head_target {
                None => Ok(said),
                Some(target) => match refname::name_fault(target) {
                    None => Ok(said),
                    Some(refusal) => Err(refusal),
                },
            }
        },
    }
}

fn parse_advertised_ref(line: &[u8]) -> (r: Result<RemoteRef>)
    ensures
        match line_reference(line@) {
            Ok(reference) => r is Ok && r->Ok_0@ == reference,
            Err(refusal) => fs::declined(r, refusal),
        },
{
    if line.len() < 42 || line[40] != 32 {
        return Err(Error::Protocol("malformed advertised ref"));
    }
    let hex = bytes::copy_range(line, 0, 40);
    let name = bytes::copy_range(line, 41, line.len());
    assert(hex@ =~= line@.take(40));
    assert(name@ =~= line@.skip(41));
    if bytes::text_of(hex.as_slice()).is_none() {
        return Err(Error::Protocol("advertised ID is not ASCII"));
    }
    let id = match ObjectId::from_hex(hex.as_slice()) {
        Ok(id) => id,
        Err(_) => return Err(Error::Protocol("invalid advertised object ID")),
    };
    if bytes::text_of(name.as_slice()).is_none() {
        return Err(Error::Protocol("advertised ref is not UTF-8"));
    }
    if !bytes::bytes_eq(name.as_slice(), "HEAD".as_bytes()) && !bytes::bytes_eq(
        name.as_slice(),
        "capabilities^{}".as_bytes(),
    ) {
        let mark = "^{}".as_bytes();
        if bytes::ends_with(name.as_slice(), mark) {
            let plain = bytes::copy_range(name.as_slice(), 0, name.len() - mark.len());
            assert(plain@ =~= unmarked(name@));
            refname::validate(plain.as_slice())?;
        } else {
            refname::validate(name.as_slice())?;
        }
    }
    Ok(RemoteRef { name, id })
}

fn find_reference(refs: &[RemoteRef], name: &[u8]) -> (r: Option<usize>)
    ensures
        match r {
            Some(i) => i < refs@.len() && refs@[i as int]@.name == name@ && forall|k: int|
                0 <= k < i ==> (#[trigger] refs@[k])@.name != name@,
            None => forall|k: int| 0 <= k < refs@.len() ==> (#[trigger] refs@[k])@.name != name@,
        },
{
    let mut i: usize = 0;
    while i < refs.len()
        invariant
            i <= refs@.len(),
            forall|k: int| 0 <= k < i ==> (#[trigger] refs@[k])@.name != name@,
        decreases refs@.len() - i,
    {
        if bytes::bytes_eq(refs[i].name(), name) {
            return Some(i);
        }
        i += 1;
    }
    None
}

/// Adds a line to what has been read.
fn take_line(
    data: &[u8],
    limit: Option<usize>,
    refs: &mut Vec<RemoteRef>,
    capabilities: &mut Vec<Capability>,
) -> (r: Result<()>)
    ensures
        match with_line(
            Reading {
                refs: models(old(refs)@),
                capabilities: protocol::capability_views(old(capabilities)@),
            },
            data@,
            limit,
        ) {
            Ok(next) => r is Ok && models(final(refs)@) == next.refs && protocol::capability_views(
                final(capabilities)@,
            ) == next.capabilities,
            Err(refusal) => fs::declined(r, refusal),
        },
{
    let ghost before = models(refs@);
    let end: usize = if data.len() > 0 && data[data.len() - 1] == 10 {
        data.len() - 1
    } else {
        data.len()
    };
    let line = bytes::copy_range(data, 0, end);
    assert(line@ =~= chomped(data@));
    let nul: usize = bytes::find_byte(line.as_slice(), 0, 0);
    assert(before.len() == refs@.len());
    if refs.len() != 0 && nul < line.len() {
        return Err(Error::Protocol("capabilities after first advertised ref"));
    }
    let head = bytes::copy_range(line.as_slice(), 0, nul);
    assert(head@ =~= line@.take(nul as int));
    let reference = parse_advertised_ref(head.as_slice())?;
    let found = find_reference(refs.as_slice(), reference.name());
    proof {
        if has_reference(before, reference@.name) {
            let k = choose|k: int|
                0 <= k < before.len() && (#[trigger] before[k]).name == reference@.name;
            assert(refs@[k]@ == before[k]);
        }
        if let Some(i) = found {
            assert(before[i as int] == refs@[i as int]@);
        }
        assert(found is Some == has_reference(before, reference@.name));
    }
    if found.is_some() {
        return Err(Error::Protocol("duplicate advertised ref"));
    }
    if let Some(limit) = limit {
        if refs.len() >= limit {
            return Err(Error::Protocol("advertised reference count exceeds limit"));
        }
    }
    if nul < line.len() {
        let tail = bytes::copy_range(line.as_slice(), nul + 1, line.len());
        assert(tail@ =~= line@.skip(nul + 1));
        *capabilities = Capability::parse_list(tail.as_slice())?;
    }
    let ghost model = reference@;
    refs.push(reference);
    assert(models(refs@) =~= before.push(model));
    Ok(())
}

fn find_value(capabilities: &[Capability], name: &[u8]) -> (r: Option<Vec<u8>>)
    ensures
        match value_of(
            protocol::capability_views(capabilities@),
            name@,
            capabilities@.len() as int,
        ) {
            Some(value) => r is Some && r->0@ == value,
            None => r is None,
        },
{
    let ghost all = protocol::capability_views(capabilities@);
    let mut i: usize = capabilities.len();
    while i > 0
        invariant
            i <= capabilities@.len(),
            all == protocol::capability_views(capabilities@),
            value_of(all, name@, all.len() as int) == value_of(all, name@, i as int),
        decreases i,
    {
        let capability = &capabilities[i - 1];
        assert(all[i - 1] == capability@);
        if bytes::bytes_eq(capability.name().as_bytes(), name) {
            return match capability.value() {
                Some(value) => Some(bytes::to_vec(value.as_bytes())),
                None => None,
            };
        }
        i -= 1;
    }
    None
}

impl RemoteAdvertisement {
    /// Parses an advertisement up to the flush packet that ends it.
    pub fn parse(input: &[u8]) -> (r: Result<Self>)
        ensures
            match advertisement_of(input@, None) {
                Ok(said) => r is Ok && r->Ok_0@ == said,
                Err(refusal) => fs::declined(r, refusal),
            },
    {
        Self::parse_limited(input, None)
    }

    /// Parses an advertisement of no more references than a limit.
    pub fn parse_with_limit(input: &[u8], max_refs: usize) -> (r: Result<Self>)
        ensures
            match advertisement_of(input@, Some(max_refs)) {
                Ok(said) => r is Ok && r->Ok_0@ == said,
                Err(refusal) => fs::declined(r, refusal),
            },
    {
        Self::parse_limited(input, Some(max_refs))
    }

    fn parse_limited(input: &[u8], limit: Option<usize>) -> (r: Result<Self>)
        ensures
            match advertisement_of(input@, limit) {
                Ok(said) => r is Ok && r->Ok_0@ == said,
                Err(refusal) => fs::declined(r, refusal),
            },
    {
        let mut refs: Vec<RemoteRef> = Vec::new();
        let mut capabilities: Vec<Capability> = Vec::new();
        let ghost start = Reading { refs: Seq::empty(), capabilities: Seq::empty() };
        assert(models(refs@) =~= Seq::empty());
        assert(protocol::capability_views(capabilities@) =~= Seq::empty());
        let mut at: usize = 0;
        loop
            invariant_except_break
                at <= input@.len(),
                read_from(input@, 0, start, limit) == read_from(
                    input@,
                    at as int,
                    Reading {
                        refs: models(refs@),
                        capabilities: protocol::capability_views(capabilities@),
                    },
                    limit,
                ),
            invariant
                start == (Reading { refs: Seq::empty(), capabilities: Seq::empty() }),
            ensures
                read_from(input@, 0, start, limit) == Ok::<(Reading, int), Refusal>(
                    (
                        Reading {
                            refs: models(refs@),
                            capabilities: protocol::capability_views(capabilities@),
                        },
                        at as int,
                    ),
                ),
            decreases input@.len() - at,
        {
            let rest = bytes::copy_range(input, at, input.len());
            assert(rest@ =~= input@.skip(at as int));
            let (packet, length) = PktLine::decode(rest.as_slice())?;
            match packet {
                PktLine::Flush => {
                    at = at + length;
                    break ;
                },
                PktLine::Data(data) => {
                    take_line(data.as_slice(), limit, &mut refs, &mut capabilities)?;
                },
                _ => {
                    return Err(Error::Protocol("v2 control packet in v0/v1 advertisement"));
                },
            }
            at = at + length;
        }
        if at != input.len() {
            return Err(Error::Protocol("bytes follow advertisement flush"));
        }
        let mark = "HEAD:".as_bytes();
        let head_target: Option<Vec<u8>> = match find_value(
            capabilities.as_slice(),
            "symref".as_bytes(),
        ) {
            Some(value) => {
                if bytes::starts_with(value.as_slice(), mark) {
                    let target = bytes::copy_range(value.as_slice(), mark.len(), value.len());
                    assert(target@ =~= value@.skip(mark@.len() as int));
                    Some(target)
                } else {
                    None
                }
            },
            None => None,
        };
        if let Some(target) = &head_target {
            refname::validate(target.as_slice())?;
        }
        Ok(RemoteAdvertisement { refs, capabilities, head_target })
    }

    pub fn refs(&self) -> (r: &[RemoteRef])
        ensures
            models(r@) == self@.refs,
    {
        self.refs.as_slice()
    }

    pub fn capabilities(&self) -> (r: &[Capability])
        ensures
            protocol::capability_views(r@) == self@.capabilities,
    {
        self.capabilities.as_slice()
    }

    pub fn head_target(&self) -> (r: Option<&[u8]>)
        ensures
            match self@.head_target {
                Some(target) => r is Some && r->0@ == target,
                None => r is None,
            },
    {
        match &self.head_target {
            Some(target) => Some(target.as_slice()),
            None => None,
        }
    }
}

// ---------------------------------------------------------------------------
// The default branch

pub open spec fn branch_prefix() -> Seq<u8> {
    bytes::utf8("refs/heads/"@)
}

pub open spec fn tag_prefix() -> Seq<u8> {
    bytes::utf8("refs/tags/"@)
}

/// The first advertised reference of a name.
pub open spec fn named(refs: Seq<RemoteModel>, name: Seq<u8>, from: int) -> Option<RemoteModel>
    decreases refs.len() - from,
{
    if from < 0 || from >= refs.len() {
        None
    } else if refs[from].name == name {
        Some(refs[from])
    } else {
        named(refs, name, from + 1)
    }
}

/// The first advertised branch with an object.
pub open spec fn branch_at(refs: Seq<RemoteModel>, id: Seq<u8>, from: int) -> Option<RemoteModel>
    decreases refs.len() - from,
{
    if from < 0 || from >= refs.len() {
        None
    } else if bytes::has_prefix(refs[from].name, branch_prefix()) && refs[from].id == id {
        Some(refs[from])
    } else {
        branch_at(refs, id, from + 1)
    }
}

/// The branch that the head of a remote stands for: the one it names, else
/// the first with its object.
pub open spec fn default_branch_of(said: Advertised) -> Option<RemoteModel> {
    let target = match said.head_target {
        Some(target) => named(said.refs, target, 0),
        None => None,
    };
    if target is Some {
        target
    } else {
        match named(said.refs, head_name(), 0) {
            Some(head) => branch_at(said.refs, head.id, 0),
            None => None,
        }
    }
}

/// The name of the branch that a clone begins with.
pub open spec fn initial_branch_of(said: Advertised) -> Seq<u8> {
    match default_branch_of(said) {
        Some(reference) if bytes::has_prefix(reference.name, branch_prefix()) => {
            reference.name.skip(branch_prefix().len() as int)
        },
        _ => bytes::utf8("main"@),
    }
}

fn first_named<'a>(refs: &'a [RemoteRef], name: &[u8]) -> (r: Option<&'a RemoteRef>)
    ensures
        match named(models(refs@), name@, 0) {
            Some(model) => r is Some && r->0@ == model,
            None => r is None,
        },
{
    let ghost all = models(refs@);
    let mut i: usize = 0;
    while i < refs.len()
        invariant
            i <= refs@.len(),
            all == models(refs@),
            named(all, name@, 0) == named(all, name@, i as int),
        decreases refs@.len() - i,
    {
        assert(all[i as int] == refs@[i as int]@);
        if bytes::bytes_eq(refs[i].name(), name) {
            return Some(&refs[i]);
        }
        i += 1;
    }
    None
}

fn first_branch_at<'a>(refs: &'a [RemoteRef], id: ObjectId) -> (r: Option<&'a RemoteRef>)
    ensures
        match branch_at(models(refs@), id@, 0) {
            Some(model) => r is Some && r->0@ == model,
            None => r is None,
        },
{
    let ghost all = models(refs@);
    let mut i: usize = 0;
    while i < refs.len()
        invariant
            i <= refs@.len(),
            all == models(refs@),
            branch_at(all, id@, 0) == branch_at(all, id@, i as int),
        decreases refs@.len() - i,
    {
        assert(all[i as int] == refs@[i as int]@);
        if bytes::starts_with(refs[i].name(), "refs/heads/".as_bytes()) && refs[i].id().same(&id) {
            return Some(&refs[i]);
        }
        i += 1;
    }
    None
}

impl RemoteAdvertisement {
    /// The branch that the head of the remote stands for.
    pub fn default_branch(&self) -> (r: Option<&RemoteRef>)
        ensures
            match default_branch_of(self@) {
                Some(model) => r is Some && r->0@ == model,
                None => r is None,
            },
    {
        if let Some(target) = self.head_target() {
            if let Some(reference) = first_named(self.refs(), target) {
                return Some(reference);
            }
        }
        match first_named(self.refs(), "HEAD".as_bytes()) {
            Some(head) => first_branch_at(self.refs(), head.id()),
            None => None,
        }
    }

    /// The name of the branch that a clone begins with.
    pub fn initial_branch(&self) -> (r: Vec<u8>)
        ensures
            r@ == initial_branch_of(self@),
    {
        let prefix = "refs/heads/".as_bytes();
        match self.default_branch() {
            Some(reference) => {
                if bytes::starts_with(reference.name(), prefix) {
                    let name = bytes::copy_range(
                        reference.name(),
                        prefix.len(),
                        reference.name().len(),
                    );
                    assert(name@ =~= reference@.name.skip(prefix@.len() as int));
                    return name;
                }
            },
            None => {},
        }
        bytes::to_vec("main".as_bytes())
    }
}

// ---------------------------------------------------------------------------
// What is asked for

/// A rule that maps references of a remote to local ones. At most one star
/// stands in each side, for any text.
#[derive(Debug, PartialEq, Eq)]
pub struct RefSpec {
    pub source: Vec<u8>,
    pub destination: Option<Vec<u8>>,
    pub negative: bool,
    pub force: bool,
}

/// Whether a name is that of a pattern, where a star stands for any text.
pub open spec fn fits_star(pattern: Seq<u8>, name: Seq<u8>) -> bool {
    let star = bytes::index_from(pattern, 42, 0);
    if star >= pattern.len() {
        pattern == name
    } else {
        &&& name.len() >= pattern.len() - 1
        &&& bytes::has_prefix(name, pattern.take(star))
        &&& bytes::has_suffix(name, pattern.skip(star + 1))
    }
}

/// A pattern with what a star of another stands for in a name.
pub open spec fn fill_star(from: Seq<u8>, to: Seq<u8>, name: Seq<u8>) -> Seq<u8> {
    let star = bytes::index_from(from, 42, 0);
    let hole = bytes::index_from(to, 42, 0);
    if star >= from.len() || hole >= to.len() {
        to
    } else {
        to.take(hole) + name.subrange(star, name.len() - (from.len() - star - 1)) + to.skip(
            hole + 1,
        )
    }
}

impl RefSpec {
    /// Where a rule maps a name.
    pub open spec fn mapped(self, name: Seq<u8>) -> Option<Seq<u8>> {
        match self.destination {
            Some(to) if fits_star(self.source@, name) => Some(fill_star(self.source@, to@, name)),
            _ => None,
        }
    }

    /// Tells whether a rule speaks of a name.
    pub fn matches(&self, name: &[u8]) -> (r: bool)
        ensures
            r == fits_star(self.source@, name@),
    {
        let pattern = self.source.as_slice();
        let star: usize = bytes::find_byte(pattern, 42, 0);
        if star >= pattern.len() {
            return bytes::bytes_eq(pattern, name);
        }
        let head = bytes::copy_range(pattern, 0, star);
        let tail = bytes::copy_range(pattern, star + 1, pattern.len());
        assert(head@ =~= pattern@.take(star as int));
        assert(tail@ =~= pattern@.skip(star + 1));
        name.len() >= pattern.len() - 1 && bytes::starts_with(name, head.as_slice())
            && bytes::ends_with(name, tail.as_slice())
    }

    /// Maps a name.
    pub fn map_destination(&self, name: &[u8]) -> (r: Option<Vec<u8>>)
        ensures
            match self.mapped(name@) {
                Some(to) => r is Some && r->0@ == to,
                None => r is None,
            },
    {
        let to = match &self.destination {
            Some(to) => to.as_slice(),
            None => return None,
        };
        if !self.matches(name) {
            return None;
        }
        let from = self.source.as_slice();
        let star: usize = bytes::find_byte(from, 42, 0);
        let hole: usize = bytes::find_byte(to, 42, 0);
        if star >= from.len() || hole >= to.len() {
            return Some(bytes::to_vec(to));
        }
        let mut out = bytes::copy_range(to, 0, hole);
        let middle = bytes::copy_range(name, star, name.len() - (from.len() - star - 1));
        let tail = bytes::copy_range(to, hole + 1, to.len());
        bytes::append(&mut out, middle.as_slice());
        bytes::append(&mut out, tail.as_slice());
        assert(out@ =~= fill_star(from@, to@, name@));
        Some(out)
    }
}

/// Whether some rules select a name: one asks for it and none keeps it out.
pub open spec fn chosen_by(rules: Seq<RefSpec>, name: Seq<u8>) -> bool {
    &&& exists|k: int|
        0 <= k < rules.len() && !(#[trigger] rules[k]).negative && fits_star(rules[k].source@, name)
    &&& !exists|k: int|
        0 <= k < rules.len() && (#[trigger] rules[k]).negative && fits_star(rules[k].source@, name)
}

pub open spec fn is_peeled(name: Seq<u8>) -> bool {
    bytes::has_suffix(name, bytes::utf8("^{}"@))
}

/// Whether a reference is fetched: its rules, or being a branch, select it,
/// or it is a tag that is wanted.
pub open spec fn is_fetched(name: Seq<u8>, rules: Option<Seq<RefSpec>>, tags: bool) -> bool {
    &&& (match rules {
        Some(rules) => chosen_by(rules, name),
        None => bytes::has_prefix(name, branch_prefix()),
    }) || (tags && bytes::has_prefix(name, tag_prefix()))
    &&& !is_peeled(name)
}

/// The references to fetch among the first `n`.
pub open spec fn fetched(
    refs: Seq<RemoteModel>,
    rules: Option<Seq<RefSpec>>,
    tags: bool,
    n: int,
) -> Seq<RemoteModel>
    decreases n,
{
    if n <= 0 {
        Seq::empty()
    } else {
        let before = fetched(refs, rules, tags, n - 1);
        if is_fetched(refs[n - 1].name, rules, tags) {
            before.push(refs[n - 1])
        } else {
            before
        }
    }
}

fn selected_by_refspecs(rules: &[RefSpec], name: &[u8]) -> (r: bool)
    ensures
        r == chosen_by(rules@, name@),
{
    let mut asked = false;
    let mut barred = false;
    let mut i: usize = 0;
    while i < rules.len()
        invariant
            i <= rules@.len(),
            asked == exists|k: int|
                0 <= k < i && !(#[trigger] rules@[k]).negative && fits_star(
                    rules@[k].source@,
                    name@,
                ),
            barred == exists|k: int|
                0 <= k < i && (#[trigger] rules@[k]).negative && fits_star(
                    rules@[k].source@,
                    name@,
                ),
        decreases rules@.len() - i,
    {
        let rule = &rules[i];
        assert(*rule == rules@[i as int]);
        if rule.matches(name) {
            if rule.negative {
                barred = true;
            } else {
                asked = true;
            }
        }
        i += 1;
    }
    asked && !barred
}

spec fn rules_of(rules: Option<&[RefSpec]>) -> Option<Seq<RefSpec>> {
    match rules {
        Some(rules) => Some(rules@),
        None => None,
    }
}

fn select_refs(refs: &[RemoteRef], rules: Option<&[RefSpec]>, tags: bool) -> (r: Vec<RemoteRef>)
    ensures
        models(r@) == fetched(models(refs@), rules_of(rules), tags, refs@.len() as int),
{
    let ghost all = models(refs@);
    let mut out: Vec<RemoteRef> = Vec::new();
    assert(models(out@) =~= Seq::empty());
    let mut i: usize = 0;
    while i < refs.len()
        invariant
            i <= refs@.len(),
            all == models(refs@),
            models(out@) == fetched(all, rules_of(rules), tags, i as int),
        decreases refs@.len() - i,
    {
        let name = refs[i].name();
        assert(all[i as int] == refs@[i as int]@);
        let asked = match rules {
            Some(rules) => selected_by_refspecs(rules, name),
            None => bytes::starts_with(name, "refs/heads/".as_bytes()),
        };
        let wanted = asked || (tags && bytes::starts_with(name, "refs/tags/".as_bytes()));
        if wanted && !bytes::ends_with(name, "^{}".as_bytes()) {
            let ghost before = out@;
            let one = refs[i].copy();
            out.push(one);
            assert(models(out@) =~= models(before).push(all[i as int]));
        }
        i += 1;
    }
    out
}

/// Why a remote cannot serve a fetch.
pub open spec fn service_fault(capabilities: Seq<(Seq<u8>, Option<Seq<u8>>)>) -> Option<Error> {
    let format = value_of(
        capabilities,
        bytes::utf8("object-format"@),
        capabilities.len() as int,
    );
    if format is Some && format->0 != bytes::utf8("sha1"@) {
        Some(Error::Protocol("unsupported remote object format"))
    } else if !protocol::has_name(capabilities, bytes::utf8("side-band-64k"@))
        || !protocol::has_name(capabilities, bytes::utf8("ofs-delta"@)) {
        Some(Error::Protocol("remote lacks a required capability"))
    } else {
        None
    }
}

fn offers(capabilities: &[Capability], name: &[u8]) -> (r: bool)
    ensures
        r == protocol::has_name(protocol::capability_views(capabilities@), name@),
{
    let ghost all = protocol::capability_views(capabilities@);
    let mut i: usize = 0;
    while i < capabilities.len()
        invariant
            i <= capabilities@.len(),
            all == protocol::capability_views(capabilities@),
            forall|k: int| 0 <= k < i ==> (#[trigger] all[k]).0 != name@,
        decreases capabilities@.len() - i,
    {
        assert(all[i as int] == capabilities@[i as int]@);
        if bytes::bytes_eq(capabilities[i].name().as_bytes(), name) {
            return true;
        }
        i += 1;
    }
    false
}

fn validate_sha1_advertisement(advertisement: &RemoteAdvertisement) -> (r: Result<()>)
    ensures
        match service_fault(advertisement@.capabilities) {
            None => r is Ok,
            Some(error) => r is Err && r->Err_0 == error,
        },
{
    let capabilities = advertisement.capabilities();
    if let Some(format) = find_value(capabilities, "object-format".as_bytes()) {
        if !bytes::bytes_eq(format.as_slice(), "sha1".as_bytes()) {
            return Err(Error::Protocol("unsupported remote object format"));
        }
    }
    if !offers(capabilities, "side-band-64k".as_bytes()) || !offers(
        capabilities,
        "ofs-delta".as_bytes(),
    ) {
        return Err(Error::Protocol("remote lacks a required capability"));
    }
    Ok(())
}

/// Whether a text may name a remote.
pub open spec fn sound_remote(name: Seq<u8>) -> bool {
    &&& name.len() > 0
    &&& !name.contains(47)
    &&& refname::valid(bytes::utf8("refs/remotes/"@) + name + bytes::utf8("/probe"@))
}

fn validate_remote_name(name: &[u8]) -> (r: Result<()>)
    ensures
        if sound_remote(name@) {
            r is Ok
        } else {
            fs::refused(r, fs::Fault::InvalidName, name@)
        },
{
    let mut probe = bytes::to_vec("refs/remotes/".as_bytes());
    bytes::append(&mut probe, name);
    bytes::append(&mut probe, "/probe".as_bytes());
    if name.len() == 0 || bytes::contains_byte(name, 47) || !refname::is_valid(probe.as_slice()) {
        return Err(Error::InvalidReferenceName(bytes::to_vec(name)));
    }
    Ok(())
}

/// The packet that asks for an object; the first also says what is
/// understood.
pub open spec fn want_packet(id: Seq<u8>, first: bool) -> Seq<u8> {
    protocol::wire(
        Packet::Data(
            bytes::utf8("want "@) + object::hex_of(id) + (if first {
                bytes::utf8(" side-band-64k ofs-delta no-progress object-format=sha1"@)
            } else {
                Seq::empty()
            }) + seq![10u8],
        ),
    )
}

pub open spec fn have_packet(id: Seq<u8>) -> Seq<u8> {
    protocol::wire(Packet::Data(bytes::utf8("have "@) + object::hex_of(id) + seq![10u8]))
}

pub open spec fn has_id(refs: Seq<RemoteModel>, id: Seq<u8>, n: int) -> bool {
    exists|k: int| 0 <= k < n && (#[trigger] refs[k]).id == id
}

/// The requests for the first `n` references, each object once.
pub open spec fn wants(refs: Seq<RemoteModel>, n: int) -> Seq<u8>
    decreases n,
{
    if n <= 0 {
        Seq::empty()
    } else {
        let before = wants(refs, n - 1);
        if has_id(refs, refs[n - 1].id, n - 1) {
            before
        } else {
            before + want_packet(refs[n - 1].id, n == 1)
        }
    }
}

pub open spec fn haves(ids: Seq<Seq<u8>>, n: int) -> Seq<u8>
    decreases n,
{
    if n <= 0 {
        Seq::empty()
    } else {
        haves(ids, n - 1) + have_packet(ids[n - 1])
    }
}

/// A whole request: what is wanted, a flush packet, what is at hand in
/// ascending order, and the end.
pub open spec fn request_of(refs: Seq<RemoteModel>, held: Set<Seq<u8>>) -> Seq<u8> {
    let ids = crate::id_set::sorted(held);
    wants(refs, refs.len() as int) + protocol::wire(Packet::Flush) + haves(ids, ids.len() as int)
        + protocol::wire(Packet::Data(bytes::utf8("done\n"@)))
}

/// Adds a data packet.
pub fn append_packet(output: &mut Vec<u8>, data: &[u8]) -> (r: Result<()>)
    ensures
        if protocol::fits(Packet::Data(data@)) {
            r is Ok && final(output)@ == old(output)@ + protocol::wire(Packet::Data(data@))
        } else {
            r is Err && r->Err_0 == Error::Protocol("pkt-line payload exceeds the maximum")
                && final(output)@ == old(output)@
        },
{
    let packet = PktLine::Data(bytes::to_vec(data));
    let encoded = packet.encode()?;
    bytes::append(output, encoded.as_slice());
    Ok(())
}

fn push_hex_line(output: &mut Vec<u8>, word: &[u8], id: ObjectId, suffix: &[u8])
    requires
        word@.len() + suffix@.len() <= 1000,
    ensures
        final(output)@ == old(output)@ + protocol::wire(
            Packet::Data(word@ + object::hex_of(id@) + suffix@ + seq![10u8]),
        ),
{
    let mut line = bytes::to_vec(word);
    let hex = id.to_hex();
    bytes::append(&mut line, &hex);
    bytes::append(&mut line, suffix);
    line.push(10);
    assert(line@ =~= word@ + object::hex_of(id@) + suffix@ + seq![10u8]);
    assert(hex@.len() == 40);
    let added = append_packet(output, line.as_slice());
    assert(added is Ok);
}

fn build_fetch_request(selected: &[RemoteRef], held: &IdSet) -> (r: Vec<u8>)
    ensures
        r@ == request_of(models(selected@), held@),
{
    let ghost all = models(selected@);
    let mut output: Vec<u8> = Vec::new();
    let mut seen = IdSet::new();
    let mut i: usize = 0;
    proof {
        reveal_strlit("want ");
        reveal_strlit("have ");
        reveal_strlit(" side-band-64k ofs-delta no-progress object-format=sha1");
        reveal_strlit("done\n");
        bytes::lemma_ascii("want "@);
        bytes::lemma_ascii("have "@);
        bytes::lemma_ascii(" side-band-64k ofs-delta no-progress object-format=sha1"@);
        bytes::lemma_ascii("done\n"@);
        reveal_strlit("");
        bytes::lemma_ascii(""@);
    }
    while i < selected.len()
        invariant
            i <= selected@.len(),
            all == models(selected@),
            output@ == wants(all, i as int),
            forall|id: Seq<u8>| #[trigger] seen@.contains(id) <==> has_id(all, id, i as int),
            bytes::utf8("want "@).len() == 5,
            bytes::utf8(""@).len() == 0,
            bytes::utf8(" side-band-64k ofs-delta no-progress object-format=sha1"@).len() <= 100,
        decreases selected@.len() - i,
    {
        let id = selected[i].id();
        assert(all[i as int] == selected@[i as int]@);
        let ghost before = seen@;
        let fresh = seen.insert(id);
        proof {
            assert forall|other: Seq<u8>| #[trigger] seen@.contains(other) implies has_id(
                all,
                other,
                i + 1,
            ) by {
                if other == id@ {
                    assert(all[i as int].id == other);
                } else {
                    assert(before.contains(other));
                    let k = choose|k: int| 0 <= k < i && (#[trigger] all[k]).id == other;
                    assert(all[k].id == other);
                }
            }
            assert forall|other: Seq<u8>| has_id(all, other, i + 1) implies #[trigger]
                seen@.contains(other) by {
                let k = choose|k: int| 0 <= k < i + 1 && (#[trigger] all[k]).id == other;
                if k < i {
                    assert(has_id(all, other, i as int));
                    assert(before.contains(other));
                }
            }
        }
        if fresh {
            let suffix: &[u8] = if i == 0 {
                " side-band-64k ofs-delta no-progress object-format=sha1".as_bytes()
            } else {
                "".as_bytes()
            };
            assert(bytes::utf8(""@) =~= Seq::empty());
            push_hex_line(&mut output, "want ".as_bytes(), id, suffix);
        }
        i += 1;
    }
    let flush = PktLine::Flush.encode();
    assert(flush is Ok);
    if let Ok(flush) = flush {
        bytes::append(&mut output, flush.as_slice());
    }
    let ids = held.as_slice();
    let ghost list = crate::id_set::sorted(held@);
    let ghost start = output@;
    let mut j: usize = 0;
    while j < ids.len()
        invariant
            j <= ids@.len(),
            storage::id_views(ids@) == list,
            output@ == start + haves(list, j as int),
            bytes::utf8("have "@).len() == 5,
            bytes::utf8(""@).len() == 0,
        decreases ids@.len() - j,
    {
        assert(list[j as int] == ids@[j as int]@);
        push_hex_line(&mut output, "have ".as_bytes(), ids[j], "".as_bytes());
        proof {
            assert(bytes::utf8(""@) =~= Seq::empty());
            assert(bytes::utf8("have "@) + object::hex_of(list[j as int]) + bytes::utf8(""@)
                + seq![10u8] =~= bytes::utf8("have "@) + object::hex_of(list[j as int]) + seq![
                10u8,
            ]);
            assert(output@ =~= start + haves(list, j + 1));
        }
        j += 1;
    }
    let done = append_packet(&mut output, "done\n".as_bytes());
    assert(done is Ok);
    output
}

// ---------------------------------------------------------------------------
// What the remote answers

/// Whether a line settles a negotiation.
pub open spec fn settles(line: Seq<u8>) -> bool {
    line == bytes::utf8("NAK\n"@) || (bytes::has_prefix(line, bytes::utf8("ACK "@))
        && bytes::has_suffix(line, seq![10u8]))
}

/// The pack that the packets from a place on carry, and where they end.
pub open spec fn pack_from(input: Seq<u8>, at: int, pack: Seq<u8>) -> core::result::Result<
    (Seq<u8>, int),
    Error,
>
    decreases input.len() - at,
{
    if at < 0 || at > input.len() {
        Err(Error::Protocol("truncated pkt-line"))
    } else {
        match protocol::first_packet(input.skip(at)) {
            Err(error) => Err(error),
            Ok(None) => Err(Error::Protocol("truncated pkt-line")),
            Ok(Some((packet, length))) => match packet {
                Packet::Flush => Ok((pack, at + length)),
                Packet::Data(data) => match protocol::unbanded(data) {
                    Err(error) => Err(error),
                    Ok((channel, payload)) => if channel == 1 {
                        pack_from(input, at + length, pack + payload)
                    } else if channel == 2 {
                        pack_from(input, at + length, pack)
                    } else {
                        Err(Error::Protocol("remote upload-pack failed"))
                    },
                },
                _ => Err(Error::Protocol("unexpected fetch response control packet")),
            },
        }
    }
}

/// The pack that a response carries, or why the response is refused.
pub open spec fn response_pack(input: Seq<u8>) -> core::result::Result<Seq<u8>, Error> {
    match protocol::first_packet(input) {
        Err(error) => Err(error),
        Ok(None) => Err(Error::Protocol("truncated pkt-line")),
        Ok(Some((packet, length))) => match packet {
            Packet::Data(line) => if !settles(line) {
                Err(Error::Protocol("malformed fetch negotiation response"))
            } else {
                match pack_from(input, length as int, Seq::empty()) {
                    Err(error) => Err(error),
                    Ok((pack, end)) => if end != input.len() || pack.len() == 0 {
                        Err(
                            Error::Protocol("trailing bytes or missing pack in fetch response"),
                        )
                    } else {
                        Ok(pack)
                    },
                }
            },
            _ => Err(Error::Protocol("fetch response has no ACK/NAK")),
        },
    }
}

fn collect_pack(input: &[u8], from: usize) -> (r: Result<(Vec<u8>, usize)>)
    requires
        from <= input@.len(),
    ensures
        match pack_from(input@, from as int, Seq::empty()) {
            Ok((pack, end)) => r is Ok && r->Ok_0.0@ == pack && r->Ok_0.1 == end,
            Err(error) => r is Err && r->Err_0 == error,
        },
{
    let mut at: usize = from;
    let mut pack: Vec<u8> = Vec::new();
    assert(pack@ =~= Seq::empty());
    loop
        invariant_except_break
            at <= input@.len(),
            pack_from(input@, from as int, Seq::empty()) == pack_from(input@, at as int, pack@),
        ensures
            pack_from(input@, from as int, Seq::empty()) == Ok::<(Seq<u8>, int), Error>(
                (pack@, at as int),
            ),
        decreases input@.len() - at,
    {
        let rest = bytes::copy_range(input, at, input.len());
        assert(rest@ =~= input@.skip(at as int));
        let (packet, size) = PktLine::decode(rest.as_slice())?;
        match packet {
            PktLine::Flush => {
                at = at + size;
                break ;
            },
            PktLine::Data(data) => {
                let band = Sideband::decode(data.as_slice())?;
                match band {
                    Sideband::Data(payload) => {
                        bytes::append(&mut pack, payload.as_slice());
                    },
                    Sideband::Progress(_) => {},
                    Sideband::Error(_) => {
                        return Err(Error::Protocol("remote upload-pack failed"));
                    },
                }
            },
            _ => return Err(Error::Protocol("unexpected fetch response control packet")),
        }
        at = at + size;
    }
    Ok((pack, at))
}

/// Takes the pack out of a response.
pub fn parse_fetch_response(input: &[u8]) -> (r: Result<Vec<u8>>)
    ensures
        match response_pack(input@) {
            Ok(pack) => r is Ok && r->Ok_0@ == pack,
            Err(error) => r is Err && r->Err_0 == error,
        },
{
    let (packet, length) = PktLine::decode(input)?;
    let line = match packet {
        PktLine::Data(line) => line,
        _ => return Err(Error::Protocol("fetch response has no ACK/NAK")),
    };
    let newline: [u8; 1] = [10];
    assert(newline@ =~= seq![10u8]);
    if !bytes::bytes_eq(line.as_slice(), "NAK\n".as_bytes()) && !(bytes::starts_with(
        line.as_slice(),
        "ACK ".as_bytes(),
    ) && bytes::ends_with(line.as_slice(), &newline)) {
        return Err(Error::Protocol("malformed fetch negotiation response"));
    }
    let (pack, at) = collect_pack(input, length)?;
    if at != input.len() || pack.len() == 0 {
        return Err(Error::Protocol("trailing bytes or missing pack in fetch response"));
    }
    Ok(pack)
}

// ---------------------------------------------------------------------------
// Which references change

/// What must stand in the place of a reference that is to change.
#[derive(Clone, Copy, Debug, PartialEq, Eq)]
pub enum PreviousValue {
    MustNotExist,
    MustExist(ObjectId),
}

/// A change of a reference.
#[derive(Debug, PartialEq, Eq)]
pub struct ReferenceEdit {
    name: Vec<u8>,
    id: ObjectId,
    previous: PreviousValue,
}

/// What a change of a reference says.
#[verifier::ext_equal]
pub struct EditModel {
    pub name: Seq<u8>,
    pub id: Seq<u8>,
    /// The object that must stand there before, where one must.
    pub previous: Option<Seq<u8>>,
}

impl View for ReferenceEdit {
    type V = EditModel;

    closed spec fn view(&self) -> EditModel {
        EditModel {
            name: self.name@,
            id: self.id@,
            previous: match self.previous {
                PreviousValue::MustExist(id) => Some(id@),
                PreviousValue::MustNotExist => None,
            },
        }
    }
}

pub open spec fn edit_models(list: Seq<ReferenceEdit>) -> Seq<EditModel> {
    Seq::new(list.len(), |i: int| list[i]@)
}

impl ReferenceEdit {
    pub fn update(name: Vec<u8>, id: ObjectId, previous: PreviousValue) -> (r: Self)
        ensures
            r@ == (EditModel {
                name: name@,
                id: id@,
                previous: match previous {
                    PreviousValue::MustExist(id) => Some(id@),
                    PreviousValue::MustNotExist => None,
                },
            }),
    {
        ReferenceEdit { name, id, previous }
    }

    pub fn name(&self) -> (r: &[u8])
        ensures
            r@ == self@.name,
    {
        self.name.as_slice()
    }

    pub fn id(&self) -> (r: ObjectId)
        ensures
            r@ == self@.id,
    {
        self.id
    }

    pub fn previous(&self) -> (r: PreviousValue)
        ensures
            self@.previous == (match r {
                PreviousValue::MustExist(id) => Some(id@),
                PreviousValue::MustNotExist => None,
            }),
    {
        self.previous
    }
}

/// Where the first `n` rules map a name, and whether by force.
pub open spec fn rule_mappings(rules: Seq<RefSpec>, name: Seq<u8>, n: int) -> Seq<(Seq<u8>, bool)>
    decreases n,
{
    if n <= 0 {
        Seq::empty()
    } else {
        let before = rule_mappings(rules, name, n - 1);
        let rule = rules[n - 1];
        if !rule.negative && rule.mapped(name) is Some {
            before.push((rule.mapped(name)->0, rule.force))
        } else {
            before
        }
    }
}

/// Where a name without rules is kept.
pub open spec fn tracked_name(name: Seq<u8>, remote: Seq<u8>, bare: bool) -> Seq<u8> {
    if !bare && bytes::has_prefix(name, branch_prefix()) {
        bytes::utf8("refs/remotes/"@) + remote + seq![47u8] + name.skip(
            branch_prefix().len() as int,
        )
    } else {
        name
    }
}

/// Where a name is kept, and whether by force.
pub open spec fn mappings_of(
    name: Seq<u8>,
    remote: Seq<u8>,
    bare: bool,
    rules: Option<Seq<RefSpec>>,
) -> Seq<(Seq<u8>, bool)> {
    let tag = bytes::has_prefix(name, tag_prefix());
    match rules {
        Some(rules) => {
            let list = rule_mappings(rules, name, rules.len() as int);
            if list.len() == 0 && tag {
                seq![(name, false)]
            } else {
                list
            }
        },
        None => seq![(tracked_name(name, remote, bare), !tag)],
    }
}

/// Whether a commit may follow another without losing history.
pub open spec fn advances(
    files: memory::Tree,
    git: Seq<u8>,
    ancestry: Ancestry,
    old_id: Seq<u8>,
    new_id: Seq<u8>,
    limit: nat,
) -> core::result::Result<bool, Refusal> {
    match storage::stored_object(files, git, old_id, limit) {
        Err(refusal) => Err(refusal),
        Ok((old_kind, _)) => match storage::stored_object(files, git, new_id, limit) {
            Err(refusal) => Err(refusal),
            Ok((new_kind, _)) => Ok(
                old_kind is Commit && new_kind is Commit && ancestry.precedes(old_id, new_id),
            ),
        },
    }
}

/// What has been decided of the references.
#[verifier::ext_equal]
pub struct Edits {
    pub edits: Seq<EditModel>,
    pub destinations: Seq<Seq<u8>>,
}

/// What is known of the repository that fetches.
pub struct Local {
    pub files: memory::Tree,
    pub git: Seq<u8>,
    pub refs: Seq<RemoteModel>,
    pub ancestry: Ancestry,
    pub limit: nat,
}

/// What is decided once a reference goes to a destination.
pub open spec fn with_edit(
    state: Edits,
    local: Local,
    id: Seq<u8>,
    to: Seq<u8>,
    force: bool,
) -> core::result::Result<Edits, Refusal> {
    let destinations = state.destinations.push(to);
    let update = |previous: Option<Seq<u8>>|
        Edits { edits: state.edits.push(EditModel { name: to, id, previous }), destinations };
    let conflict = Refusal::Said(Error::ReferenceConflict("fetched reference conflicts"));
    match refname::name_fault(to) {
        Some(refusal) => Err(refusal),
        None => if state.destinations.contains(to) {
            Err(conflict)
        } else {
            match named(local.refs, to, 0) {
                None => Ok(update(None)),
                Some(current) => if current.id == id {
                    Ok(Edits { edits: state.edits, destinations })
                } else if force {
                    Ok(update(Some(current.id)))
                } else {
                    match advances(
                        local.files,
                        local.git,
                        local.ancestry,
                        current.id,
                        id,
                        local.limit,
                    ) {
                        Err(refusal) => Err(refusal),
                        Ok(true) => Ok(update(Some(current.id))),
                        Ok(false) => Err(conflict),
                    }
                },
            }
        },
    }
}

/// What is decided once a reference went to its first `n` destinations.
pub open spec fn with_mappings(
    state: Edits,
    local: Local,
    id: Seq<u8>,
    mappings: Seq<(Seq<u8>, bool)>,
    n: int,
) -> core::result::Result<Edits, Refusal>
    decreases n,
{
    if n <= 0 {
        Ok(state)
    } else {
        match with_mappings(state, local, id, mappings, n - 1) {
            Err(refusal) => Err(refusal),
            Ok(next) => with_edit(next, local, id, mappings[n - 1].0, mappings[n - 1].1),
        }
    }
}

/// What is decided for the first `n` references.
pub open spec fn edits_of(
    local: Local,
    refs: Seq<RemoteModel>,
    remote: Seq<u8>,
    bare: bool,
    rules: Option<Seq<RefSpec>>,
    n: int,
) -> core::result::Result<Edits, Refusal>
    decreases n,
{
    if n <= 0 {
        Ok(Edits { edits: Seq::empty(), destinations: Seq::empty() })
    } else {
        match edits_of(local, refs, remote, bare, rules, n - 1) {
            Err(refusal) => Err(refusal),
            Ok(state) => {
                let mappings = mappings_of(refs[n - 1].name, remote, bare, rules);
                with_mappings(state, local, refs[n - 1].id, mappings, mappings.len() as int)
            },
        }
    }
}

proof fn lemma_mappings_persist(
    state: Edits,
    local: Local,
    id: Seq<u8>,
    mappings: Seq<(Seq<u8>, bool)>,
    n: int,
    m: int,
)
    requires
        0 <= n <= m,
        with_mappings(state, local, id, mappings, n) is Err,
    ensures
        with_mappings(state, local, id, mappings, m) == with_mappings(
            state,
            local,
            id,
            mappings,
            n,
        ),
    decreases m - n,
{
    if n < m {
        lemma_mappings_persist(state, local, id, mappings, n, m - 1);
    }
}

proof fn lemma_edits_persist(
    local: Local,
    refs: Seq<RemoteModel>,
    remote: Seq<u8>,
    bare: bool,
    rules: Option<Seq<RefSpec>>,
    n: int,
    m: int,
)
    requires
        0 <= n <= m,
        edits_of(local, refs, remote, bare, rules, n) is Err,
    ensures
        edits_of(local, refs, remote, bare, rules, m) == edits_of(
            local,
            refs,
            remote,
            bare,
            rules,
            n,
        ),
    decreases m - n,
{
    if n < m {
        lemma_edits_persist(local, refs, remote, bare, rules, n, m - 1);
    }
}

spec fn pairs(list: Seq<(Vec<u8>, bool)>) -> Seq<(Seq<u8>, bool)> {
    Seq::new(list.len(), |i: int| (list[i].0@, list[i].1))
}

fn map_reference(name: &[u8], remote: &[u8], bare: bool, rules: Option<&[RefSpec]>) -> (r: Vec<
    (Vec<u8>, bool),
>)
    ensures
        pairs(r@) == mappings_of(name@, remote@, bare, rules_of(rules)),
{
    let mut out: Vec<(Vec<u8>, bool)> = Vec::new();
    assert(pairs(out@) =~= Seq::empty());
    let tag = bytes::starts_with(name, "refs/tags/".as_bytes());
    match rules {
        Some(rules) => {
            let mut i: usize = 0;
            while i < rules.len()
                invariant
                    i <= rules@.len(),
                    pairs(out@) == rule_mappings(rules@, name@, i as int),
                decreases rules@.len() - i,
            {
                let ghost before = out@;
                let rule = &rules[i];
                if !rule.negative {
                    if let Some(to) = rule.map_destination(name) {
                        let force = rule.force;
                        let ghost added = (to@, force);
                        out.push((to, force));
                        assert(pairs(out@) =~= pairs(before).push(added));
                    }
                }
                i += 1;
            }
            assert(pairs(out@).len() == out@.len());
            if out.len() == 0 && tag {
                out.push((bytes::to_vec(name), false));
                assert(pairs(out@) =~= seq![(name@, false)]);
            }
        },
        None => {
            let prefix = "refs/heads/".as_bytes();
            let to = if !bare && bytes::starts_with(name, prefix) {
                let mut to = bytes::to_vec("refs/remotes/".as_bytes());
                bytes::append(&mut to, remote);
                to.push(47);
                let branch = bytes::copy_range(name, prefix.len(), name.len());
                bytes::append(&mut to, branch.as_slice());
                to
            } else {
                bytes::to_vec(name)
            };
            assert(to@ =~= tracked_name(name@, remote@, bare));
            let ghost only = (to@, !tag);
            out.push((to, !tag));
            assert(pairs(out@) =~= seq![only]);
        },
    }
    out
}

impl Repository {
    fn fetch_update_is_fast_forward(
        &self,
        ancestry: &Ancestry,
        old_id: ObjectId,
        new_id: ObjectId,
        limit: usize,
    ) -> (r: Result<bool>)
        ensures
            match advances(self.tree(), self.git(), *ancestry, old_id@, new_id@, limit as nat) {
                Ok(yes) => r == Ok::<bool, Error>(yes),
                Err(refusal) => fs::declined(r, refusal),
            },
    {
        let old_kind = self.read_object_raw(old_id, limit)?.kind();
        let new_kind = self.read_object_raw(new_id, limit)?.kind();
        match (old_kind, new_kind) {
            (ObjectKind::Commit, ObjectKind::Commit) => Ok(ancestry.is_ancestor(old_id, new_id)),
            _ => Ok(false),
        }
    }

    /// Decides what becomes of a destination. The first two arguments are what
    /// is decided so far.
    fn take_edit(
        &self,
        edits: &mut Vec<ReferenceEdit>,
        destinations: &mut Vec<Vec<u8>>,
        id: ObjectId,
        to: Vec<u8>,
        force: bool,
        refs: &[RemoteRef],
        ancestry: &Ancestry,
        limit: usize,
    ) -> (r: Result<()>)
        ensures
            match with_edit(
                Edits {
                    edits: edit_models(old(edits)@),
                    destinations: bytes::deep(old(destinations)@),
                },
                Local {
                    files: self.tree(),
                    git: self.git(),
                    refs: models(refs@),
                    ancestry: *ancestry,
                    limit: limit as nat,
                },
                id@,
                to@,
                force,
            ) {
                Ok(state) => r is Ok && edit_models(final(edits)@) == state.edits && bytes::deep(
                    final(destinations)@,
                ) == state.destinations,
                Err(refusal) => fs::declined(r, refusal),
            },
    {
        let ghost done = edit_models(edits@);
        let ghost taken = bytes::deep(destinations@);
        refname::validate(to.as_slice())?;
        let met = holds(destinations.as_slice(), to.as_slice());
        if met {
            return Err(Error::ReferenceConflict("fetched reference conflicts"));
        }
        let previous = match first_named(refs, to.as_slice()) {
            None => Some(PreviousValue::MustNotExist),
            Some(current) => {
                let current_id = current.id();
                if current_id.same(&id) {
                    None
                } else if force || self.fetch_update_is_fast_forward(
                    ancestry,
                    current_id,
                    id,
                    limit,
                )? {
                    Some(PreviousValue::MustExist(current_id))
                } else {
                    return Err(Error::ReferenceConflict("fetched reference conflicts"));
                }
            },
        };
        destinations.push(bytes::to_vec(to.as_slice()));
        assert(bytes::deep(destinations@) =~= taken.push(to@));
        if let Some(previous) = previous {
            let edit = ReferenceEdit::update(to, id, previous);
            let ghost model = edit@;
            edits.push(edit);
            assert(edit_models(edits@) =~= done.push(model));
        }
        Ok(())
    }

    /// Decides how the references change once the objects of a fetch are
    /// here: `refs` are the ones at hand, and `ancestry` tells which commits
    /// come before others.
    pub fn fetch_ref_edits(
        &self,
        selected: &[RemoteRef],
        remote: &[u8],
        bare_mapping: bool,
        rules: Option<&[RefSpec]>,
        refs: &[RemoteRef],
        ancestry: &Ancestry,
        max_object_size: usize,
    ) -> (r: Result<Vec<ReferenceEdit>>)
        ensures
            match edits_of(
                Local {
                    files: self.tree(),
                    git: self.git(),
                    refs: models(refs@),
                    ancestry: *ancestry,
                    limit: max_object_size as nat,
                },
                models(selected@),
                remote@,
                bare_mapping,
                match rules {
                    Some(rules) => Some(rules@),
                    None => None,
                },
                selected@.len() as int,
            ) {
                Ok(state) => r is Ok && edit_models(r->Ok_0@) == state.edits,
                Err(refusal) => fs::declined(r, refusal),
            },
            r matches Ok(edits) ==> fetch_laws::brings(
                Local {
                    files: self.tree(),
                    git: self.git(),
                    refs: models(refs@),
                    ancestry: *ancestry,
                    limit: max_object_size as nat,
                },
                models(selected@),
                remote@,
                bare_mapping,
                match rules {
                    Some(rules) => Some(rules@),
                    None => None,
                },
                edit_models(edits@),
            ),
    {
        proof {
            fetch_laws::lemma_fetch_brings(
                Local {
                    files: self.tree(),
                    git: self.git(),
                    refs: models(refs@),
                    ancestry: *ancestry,
                    limit: max_object_size as nat,
                },
                models(selected@),
                remote@,
                bare_mapping,
                rules_of(rules),
            );
        }
        let ghost local = Local {
            files: self.tree(),
            git: self.git(),
            refs: models(refs@),
            ancestry: *ancestry,
            limit: max_object_size as nat,
        };
        let ghost all = models(selected@);
        let ghost kept = rules_of(rules);
        let mut edits: Vec<ReferenceEdit> = Vec::new();
        let mut destinations: Vec<Vec<u8>> = Vec::new();
        assert(edit_models(edits@) =~= Seq::empty());
        assert(bytes::deep(destinations@) =~= Seq::empty());
        let mut i: usize = 0;
        while i < selected.len()
            invariant
                i <= selected@.len(),
                all == models(selected@),
                kept == rules_of(rules),
                local == (Local {
                    files: self.tree(),
                    git: self.git(),
                    refs: models(refs@),
                    ancestry: *ancestry,
                    limit: max_object_size as nat,
                }),
                edits_of(local, all, remote@, bare_mapping, kept, i as int) == Ok::<
                    Edits,
                    Refusal,
                >(
                    Edits {
                        edits: edit_models(edits@),
                        destinations: bytes::deep(destinations@),
                    },
                ),
            decreases selected@.len() - i,
        {
            let reference = &selected[i];
            let id = reference.id();
            assert(all[i as int] == reference@);
            let mappings = map_reference(reference.name(), remote, bare_mapping, rules);
            let ghost list = pairs(mappings@);
            let ghost start = Edits {
                edits: edit_models(edits@),
                destinations: bytes::deep(destinations@),
            };
            let mut j: usize = 0;
            proof {
                if edits_of(local, all, remote@, bare_mapping, kept, i + 1) is Err {
                    lemma_edits_persist(
                        local,
                        all,
                        remote@,
                        bare_mapping,
                        kept,
                        i + 1,
                        selected@.len() as int,
                    );
                }
            }
            while j < mappings.len()
                invariant
                    j <= mappings@.len(),
                    i < selected@.len(),
                    all == models(selected@),
                    all[i as int].id == id@,
                    kept == rules_of(rules),
                    local == (Local {
                        files: self.tree(),
                        git: self.git(),
                        refs: models(refs@),
                        ancestry: *ancestry,
                        limit: max_object_size as nat,
                    }),
                    list == pairs(mappings@),
                    list == mappings_of(all[i as int].name, remote@, bare_mapping, kept),
                    edits_of(local, all, remote@, bare_mapping, kept, i as int) == Ok::<
                        Edits,
                        Refusal,
                    >(start),
                    edits_of(local, all, remote@, bare_mapping, kept, i + 1) is Err ==> edits_of(
                        local,
                        all,
                        remote@,
                        bare_mapping,
                        kept,
                        selected@.len() as int,
                    ) == edits_of(local, all, remote@, bare_mapping, kept, i + 1),
                    with_mappings(start, local, id@, list, j as int) == Ok::<Edits, Refusal>(
                        Edits {
                            edits: edit_models(edits@),
                            destinations: bytes::deep(destinations@),
                        },
                    ),
                decreases mappings@.len() - j,
            {
                assert(list[j as int] == (mappings@[j as int].0@, mappings@[j as int].1));
                proof {
                    if with_mappings(start, local, id@, list, j + 1) is Err {
                        lemma_mappings_persist(
                            start,
                            local,
                            id@,
                            list,
                            j + 1,
                            list.len() as int,
                        );
                    }
                }
                let to = bytes::to_vec(mappings[j].0.as_slice());
                self.take_edit(
                    &mut edits,
                    &mut destinations,
                    id,
                    to,
                    mappings[j].1,
                    refs,
                    ancestry,
                    max_object_size,
                )?;
                j += 1;
            }
            i += 1;
        }
        Ok(edits)
    }
}

fn holds(list: &[Vec<u8>], name: &[u8]) -> (r: bool)
    ensures
        r == bytes::deep(list@).contains(name@),
{
    let ghost all = bytes::deep(list@);
    let mut i: usize = 0;
    while i < list.len()
        invariant
            i <= list@.len(),
            all == bytes::deep(list@),
            forall|k: int| 0 <= k < i ==> #[trigger] all[k] != name@,
        decreases list@.len() - i,
    {
        assert(all[i as int] == list@[i as int]@);
        if bytes::bytes_eq(list[i].as_slice(), name) {
            return true;
        }
        i += 1;
    }
    false
}

// ---------------------------------------------------------------------------
// Fetching and cloning

/// How references are mapped, and the limits of a fetch.
#[derive(Debug, PartialEq, Eq)]
pub struct FetchOptions {
    pub remote_name: Vec<u8>,
    pub fetch_tags: bool,
    pub max_pack_size: usize,
    pub max_object_size: usize,
    pub max_total_inflated_size: usize,
}

impl Default for FetchOptions {
    fn default() -> (r: Self)
        ensures
            r.remote_name@ == bytes::utf8("origin"@),
            r.fetch_tags,
            r.max_pack_size == 1024 * 1024 * 1024 && r.max_object_size == 1024 * 1024 * 1024,
            r.max_total_inflated_size == 2 * 1024 * 1024 * 1024,
    {
        FetchOptions {
            remote_name: bytes::to_vec("origin".as_bytes()),
            fetch_tags: true,
            max_pack_size: 1024 * 1024 * 1024,
            max_object_size: 1024 * 1024 * 1024,
            max_total_inflated_size: 2 * 1024 * 1024 * 1024,
        }
    }
}

/// What a fetch asks for: the references, and the request to send unless
/// there is nothing to ask for.
pub struct FetchPlan {
    pub selected: Vec<RemoteRef>,
    pub request: Option<Vec<u8>>,
}

/// The references and the number of objects that a fetch brought.
pub struct FetchResult {
    pub advertisement: RemoteAdvertisement,
    pub updated_refs: Vec<Vec<u8>>,
    pub received_objects: usize,
}

/// Why a fetch cannot begin.
pub open spec fn fetch_fault(said: Advertised, remote: Seq<u8>) -> Option<Refusal> {
    if !sound_remote(remote) {
        Some(Refusal::At(fs::Fault::InvalidName, remote))
    } else {
        match service_fault(said.capabilities) {
            Some(error) => Some(Refusal::Said(error)),
            None => None,
        }
    }
}

/// Whether a plan asks for what some rules select.
pub open spec fn plans(
    plan: FetchPlan,
    said: Advertised,
    rules: Option<Seq<RefSpec>>,
    tags: bool,
    held: Set<Seq<u8>>,
) -> bool {
    let selected = fetched(said.refs, rules, tags, said.refs.len() as int);
    &&& models(plan.selected@) == selected
    &&& (plan.request is None <==> selected.len() == 0)
    &&& plan.request matches Some(request) ==> request@ == request_of(selected, held)
}

impl Repository {
    fn plan_fetch(
        &self,
        advertisement: &RemoteAdvertisement,
        held: &[ObjectId],
        rules: Option<&[RefSpec]>,
        remote: &[u8],
        tags: bool,
    ) -> (r: Result<FetchPlan>)
        ensures
            match fetch_fault(advertisement@, remote@) {
                Some(refusal) => fs::declined(r, refusal),
                None => r is Ok && plans(
                    r->Ok_0,
                    advertisement@,
                    rules_of(rules),
                    tags,
                    crate::commit::raw_ids(held@).to_set(),
                ),
            },
    {
        validate_remote_name(remote)?;
        validate_sha1_advertisement(advertisement)?;
        let selected = select_refs(advertisement.refs(), rules, tags);
        assert(models(selected@).len() == selected@.len());
        if selected.len() == 0 {
            return Ok(FetchPlan { selected, request: None });
        }
        let mut ids = IdSet::new();
        ids.extend(held);
        proof {
            assert(ids@ =~= crate::commit::raw_ids(held@).to_set());
        }
        let request = build_fetch_request(selected.as_slice(), &ids);
        Ok(FetchPlan { selected, request: Some(request) })
    }

    /// Plans the fetch of all advertised branches and, where asked, tags.
    /// `held` are the objects that the local references lead to.
    pub fn fetch(
        &self,
        advertisement: &RemoteAdvertisement,
        held: &[ObjectId],
        options: &FetchOptions,
    ) -> (r: Result<FetchPlan>)
        ensures
            match fetch_fault(advertisement@, options.remote_name@) {
                Some(refusal) => fs::declined(r, refusal),
                None => r is Ok && plans(
                    r->Ok_0,
                    advertisement@,
                    None,
                    options.fetch_tags,
                    crate::commit::raw_ids(held@).to_set(),
                ),
            },
    {
        self.plan_fetch(
            advertisement,
            held,
            None,
            options.remote_name.as_slice(),
            options.fetch_tags,
        )
    }

    /// Plans a fetch by the rules that are configured for a remote.
    pub fn fetch_remote(
        &self,
        name: &[u8],
        rules: &[RefSpec],
        advertisement: &RemoteAdvertisement,
        held: &[ObjectId],
        options: &FetchOptions,
    ) -> (r: Result<FetchPlan>)
        ensures
            match fetch_fault(advertisement@, name@) {
                Some(refusal) => fs::declined(r, refusal),
                None => r is Ok && plans(
                    r->Ok_0,
                    advertisement@,
                    Some(rules@),
                    options.fetch_tags,
                    crate::commit::raw_ids(held@).to_set(),
                ),
            },
    {
        self.plan_fetch(advertisement, held, Some(rules), name, options.fetch_tags)
    }
}

/// What is set up for a clone.
#[derive(Debug, PartialEq, Eq)]
pub struct CloneOptions {
    pub remote_name: Vec<u8>,
    pub remote_url: Vec<u8>,
    pub bare: bool,
    pub checkout: bool,
    pub max_pack_size: usize,
    pub max_object_size: usize,
    pub max_total_inflated_size: usize,
}

impl Default for CloneOptions {
    fn default() -> (r: Self)
        ensures
            r.remote_name@ == bytes::utf8("origin"@),
            r.remote_url@.len() == 0,
            !r.bare && r.checkout,
            r.max_pack_size == 1024 * 1024 * 1024 && r.max_object_size == 1024 * 1024 * 1024,
            r.max_total_inflated_size == 2 * 1024 * 1024 * 1024,
    {
        CloneOptions {
            remote_name: bytes::to_vec("origin".as_bytes()),
            remote_url: Vec::new(),
            bare: false,
            checkout: true,
            max_pack_size: 1024 * 1024 * 1024,
            max_object_size: 1024 * 1024 * 1024,
            max_total_inflated_size: 2 * 1024 * 1024 * 1024,
        }
    }
}

/// What a clone sets up: the first branch, the settings to write in their
/// order, the branch to create once the objects are here, and the commit to
/// check out.
pub struct ClonePlan {
    pub initial_branch: Vec<u8>,
    pub settings: Vec<(Vec<u8>, Vec<u8>)>,
    pub branch: Option<ReferenceEdit>,
    pub checkout: Option<ObjectId>,
}

/// The settings of a clone.
pub open spec fn settings_of(options: CloneOptions, branch: Seq<u8>) -> Seq<(Seq<u8>, Seq<u8>)> {
    let remote = bytes::utf8("remote."@) + options.remote_name@;
    let local = bytes::utf8("branch."@) + branch;
    let kept = if options.bare {
        bytes::utf8("refs/heads/*"@)
    } else {
        bytes::utf8("refs/remotes/"@) + options.remote_name@ + bytes::utf8("/*"@)
    };
    let both = seq![
        (remote + bytes::utf8(".url"@), options.remote_url@),
        (remote + bytes::utf8(".fetch"@), bytes::utf8("+refs/heads/*:"@) + kept),
    ];
    if options.bare {
        both
    } else {
        both + seq![
            (local + bytes::utf8(".remote"@), options.remote_name@),
            (local + bytes::utf8(".merge"@), branch_prefix() + branch),
        ]
    }
}

pub open spec fn setting_views(list: Seq<(Vec<u8>, Vec<u8>)>) -> Seq<(Seq<u8>, Seq<u8>)> {
    Seq::new(list.len(), |i: int| (list[i].0@, list[i].1@))
}

fn joined_text(a: &[u8], b: &[u8], c: &[u8]) -> (r: Vec<u8>)
    ensures
        r@ == a@ + b@ + c@,
{
    let mut out = bytes::to_vec(a);
    bytes::append(&mut out, b);
    bytes::append(&mut out, c);
    out
}

fn clone_settings(options: &CloneOptions, branch: &[u8]) -> (r: Vec<(Vec<u8>, Vec<u8>)>)
    ensures
        setting_views(r@) == settings_of(*options, branch@),
{
    let name = options.remote_name.as_slice();
    let kept = if options.bare {
        bytes::to_vec("refs/heads/*".as_bytes())
    } else {
        joined_text("refs/remotes/".as_bytes(), name, "/*".as_bytes())
    };
    let mut rule = bytes::to_vec("+refs/heads/*:".as_bytes());
    bytes::append(&mut rule, kept.as_slice());
    let mut out: Vec<(Vec<u8>, Vec<u8>)> = Vec::new();
    out.push(
        (
            joined_text("remote.".as_bytes(), name, ".url".as_bytes()),
            bytes::to_vec(options.remote_url.as_slice()),
        ),
    );
    out.push((joined_text("remote.".as_bytes(), name, ".fetch".as_bytes()), rule));
    if !options.bare {
        out.push(
            (
                joined_text("branch.".as_bytes(), branch, ".remote".as_bytes()),
                bytes::to_vec(name),
            ),
        );
        let mut merged = bytes::to_vec("refs/heads/".as_bytes());
        bytes::append(&mut merged, branch);
        out.push((joined_text("branch.".as_bytes(), branch, ".merge".as_bytes()), merged));
    }
    assert(setting_views(out@) =~= settings_of(*options, branch@));
    out
}

/// Whether a plan sets up what a clone needs.
pub open spec fn sets_up(plan: ClonePlan, said: Advertised, options: CloneOptions) -> bool {
    let branch = initial_branch_of(said);
    &&& plan.initial_branch@ == branch
    &&& setting_views(plan.settings@) == settings_of(options, branch)
    &&& (match default_branch_of(said) {
        Some(head) if !options.bare => {
            &&& plan.branch is Some && plan.branch->0@ == (EditModel {
                name: branch_prefix() + branch,
                id: head.id,
                previous: None,
            })
            &&& if options.checkout {
                plan.checkout is Some && plan.checkout->0@ == head.id
            } else {
                plan.checkout is None
            }
        },
        _ => plan.branch is None && plan.checkout is None,
    })
}

impl Repository {
    /// Plans a clone of a remote. The fetch that fills it maps branches as a
    /// bare clone does where one is asked for, and takes tags.
    pub fn clone_from(advertisement: &RemoteAdvertisement, options: &CloneOptions) -> (r: Result<
        ClonePlan,
    >)
        ensures
            match fetch_fault(advertisement@, options.remote_name@) {
                Some(refusal) => fs::declined(r, refusal),
                None => {
                    let local = branch_prefix() + initial_branch_of(advertisement@);
                    if default_branch_of(advertisement@) is Some && !options.bare
                        && !refname::valid(local) {
                        fs::refused(r, fs::Fault::InvalidName, local)
                    } else {
                        r is Ok && sets_up(r->Ok_0, advertisement@, *options)
                    }
                },
            },
    {
        validate_remote_name(options.remote_name.as_slice())?;
        validate_sha1_advertisement(advertisement)?;
        let initial_branch = advertisement.initial_branch();
        let settings = clone_settings(options, initial_branch.as_slice());
        let mut branch: Option<ReferenceEdit> = None;
        let mut checkout: Option<ObjectId> = None;
        if let Some(head) = advertisement.default_branch() {
            if !options.bare {
                let mut local = bytes::to_vec("refs/heads/".as_bytes());
                bytes::append(&mut local, initial_branch.as_slice());
                refname::validate(local.as_slice())?;
                branch = Some(
                    ReferenceEdit::update(local, head.id(), PreviousValue::MustNotExist),
                );
                if options.checkout {
                    checkout = Some(head.id());
                }
            }
        }
        Ok(ClonePlan { initial_branch, settings, branch, checkout })
    }
}

// ---------------------------------------------------------------------------
// Laws

proof fn lemma_flush_ends(input: Seq<u8>, at: int, pack: Seq<u8>)
    requires
        0 <= at <= input.len(),
        input.skip(at) == protocol::wire(Packet::Flush),
    ensures
        pack_from(input, at, pack) == Ok::<(Seq<u8>, int), Error>((pack, input.len() as int)),
{
    protocol::lemma_packet_round_trip(Packet::Flush, Seq::empty());
    assert(protocol::wire(Packet::Flush) + Seq::<u8>::empty() =~= protocol::wire(Packet::Flush));
}

proof fn lemma_data_adds(input: Seq<u8>, at: int, pack: Seq<u8>, payload: Seq<u8>, rest: Seq<u8>)
    requires
        0 <= at <= input.len(),
        protocol::fits(Packet::Data(protocol::banded(1, payload))),
        input.skip(at) == protocol::wire(Packet::Data(protocol::banded(1, payload))) + rest,
    ensures
        ({
            let next = at + protocol::wire(Packet::Data(protocol::banded(1, payload))).len();
            pack_from(input, at, pack) == pack_from(input, next, pack + payload)
        }),
{
    protocol::lemma_packet_round_trip(Packet::Data(protocol::banded(1, payload)), rest);
    protocol::lemma_sideband_round_trip(1, payload);
}

/// The packets that carry the pieces of a pack.
pub open spec fn carried(pieces: Seq<Seq<u8>>) -> Seq<u8>
    decreases pieces.len(),
{
    if pieces.len() == 0 {
        Seq::empty()
    } else {
        protocol::wire(Packet::Data(protocol::banded(1, pieces[0]))) + carried(
            pieces.drop_first(),
        )
    }
}

/// The pack that some pieces make up.
pub open spec fn put_together(pieces: Seq<Seq<u8>>) -> Seq<u8>
    decreases pieces.len(),
{
    if pieces.len() == 0 {
        Seq::empty()
    } else {
        pieces[0] + put_together(pieces.drop_first())
    }
}

#[verifier::spinoff_prover]
#[verifier::rlimit(60)]
proof fn lemma_pieces_add(input: Seq<u8>, at: int, pack: Seq<u8>, pieces: Seq<Seq<u8>>, rest: Seq<u8>)
    requires
        0 <= at <= input.len(),
        forall|i: int|
            0 <= i < pieces.len() ==> protocol::fits(
                Packet::Data(protocol::banded(1, #[trigger] pieces[i])),
            ),
        input.skip(at) == carried(pieces) + rest,
    ensures
        at + carried(pieces).len() <= input.len(),
        input.skip(at + carried(pieces).len()) == rest,
        pack_from(input, at, pack) == pack_from(
            input,
            at + carried(pieces).len(),
            pack + put_together(pieces),
        ),
    decreases pieces.len(),
{
    if pieces.len() == 0 {
        assert(carried(pieces) + rest =~= rest);
        assert(pack + put_together(pieces) =~= pack);
    } else {
        let first = protocol::wire(Packet::Data(protocol::banded(1, pieces[0])));
        let more = pieces.drop_first();
        assert(carried(pieces) + rest =~= first + (carried(more) + rest));
        lemma_data_adds(input, at, pack, pieces[0], carried(more) + rest);
        let next = at + first.len();
        assert(input.skip(at).len() == input.len() - at);
        assert(input.skip(next) =~= input.skip(at).skip(first.len() as int));
        assert(input.skip(next) =~= carried(more) + rest);
        assert forall|i: int| 0 <= i < more.len() implies protocol::fits(
            Packet::Data(protocol::banded(1, #[trigger] more[i])),
        ) by {
            assert(more[i] == pieces[i + 1]);
        }
        lemma_pieces_add(input, next, pack + pieces[0], more, rest);
        assert(pack + pieces[0] + put_together(more) =~= pack + put_together(pieces));
        assert(next + carried(more).len() == at + carried(pieces).len());
    }
}

/// A response that carries a pack, in any number of packets, gives that pack
/// back.
#[verifier::rlimit(60)]
pub proof fn lemma_response_round_trip(pieces: Seq<Seq<u8>>)
    requires
        put_together(pieces).len() > 0,
        forall|i: int|
            0 <= i < pieces.len() ==> protocol::fits(
                Packet::Data(protocol::banded(1, #[trigger] pieces[i])),
            ),
    ensures
        response_pack(
            protocol::wire(Packet::Data(bytes::utf8("NAK\n"@))) + carried(pieces) + protocol::wire(
                Packet::Flush,
            ),
        ) == Ok::<Seq<u8>, Error>(put_together(pieces)),
{
    let line = bytes::utf8("NAK\n"@);
    let pack = put_together(pieces);
    let x = protocol::wire(Packet::Data(line));
    let y = carried(pieces);
    let z = protocol::wire(Packet::Flush);
    assert(line.len() == 4) by {
        reveal_strlit("NAK\n");
        bytes::lemma_ascii("NAK\n"@);
    }
    lemma_three(x, y, z);
    protocol::lemma_packet_round_trip(Packet::Data(line), y + z);
    lemma_pieces_add(x + y + z, x.len() as int, Seq::empty(), pieces, z);
    lemma_flush_ends(x + y + z, (x.len() + y.len()) as int, pack);
    assert(Seq::<u8>::empty() + pack =~= pack);
    lemma_response(x + y + z, line, x.len(), pack);
}

proof fn lemma_three(x: Seq<u8>, y: Seq<u8>, z: Seq<u8>)
    ensures
        x + y + z == x + (y + z),
        (x + y + z).skip(x.len() as int) == y + z,
        (x + y + z).skip((x.len() + y.len()) as int) == z,
{
    assert(x + y + z =~= x + (y + z));
    assert((x + y + z).skip(x.len() as int) =~= y + z);
    assert((x + y + z).skip((x.len() + y.len()) as int) =~= z);
}

proof fn lemma_response(input: Seq<u8>, line: Seq<u8>, length: nat, pack: Seq<u8>)
    requires
        protocol::first_packet(input) == Ok::<Option<(Packet, nat)>, Error>(
            Some((Packet::Data(line), length)),
        ),
        settles(line),
        pack_from(input, length as int, Seq::empty()) == Ok::<(Seq<u8>, int), Error>(
            (pack, input.len() as int),
        ),
        pack.len() > 0,
    ensures
        response_pack(input) == Ok::<Seq<u8>, Error>(pack),
{
}

/// No two changes of a fetch have the same name.
pub proof fn lemma_edits_distinct(
    local: Local,
    refs: Seq<RemoteModel>,
    remote: Seq<u8>,
    bare: bool,
    rules: Option<Seq<RefSpec>>,
    n: int,
)
    requires
        edits_of(local, refs, remote, bare, rules, n) is Ok,
    ensures
        ({
            let edits = edits_of(local, refs, remote, bare, rules, n)->Ok_0.edits;
            forall|i: int, j: int|
                0 <= i < j < edits.len() ==> (#[trigger] edits[i]).name != (
                #[trigger] edits[j]).name
        }),
{
    lemma_edits_sound(local, refs, remote, bare, rules, n);
}

spec fn sound_edits(state: Edits) -> bool {
    &&& forall|i: int| 0 <= i < state.edits.len() ==> state.destinations.contains(
        (#[trigger] state.edits[i]).name,
    )
    &&& forall|i: int, j: int|
        0 <= i < j < state.edits.len() ==> (#[trigger] state.edits[i]).name != (
        #[trigger] state.edits[j]).name
}

proof fn lemma_edits_sound(
    local: Local,
    refs: Seq<RemoteModel>,
    remote: Seq<u8>,
    bare: bool,
    rules: Option<Seq<RefSpec>>,
    n: int,
)
    requires
        edits_of(local, refs, remote, bare, rules, n) is Ok,
    ensures
        sound_edits(edits_of(local, refs, remote, bare, rules, n)->Ok_0),
    decreases n,
{
    if n > 0 {
        lemma_edits_sound(local, refs, remote, bare, rules, n - 1);
        let state = edits_of(local, refs, remote, bare, rules, n - 1)->Ok_0;
        let mappings = mappings_of(refs[n - 1].name, remote, bare, rules);
        lemma_mappings_sound(state, local, refs[n - 1].id, mappings, mappings.len() as int);
    }
}

proof fn lemma_mappings_sound(
    state: Edits,
    local: Local,
    id: Seq<u8>,
    mappings: Seq<(Seq<u8>, bool)>,
    n: int,
)
    requires
        sound_edits(state),
        with_mappings(state, local, id, mappings, n) is Ok,
    ensures
        sound_edits(with_mappings(state, local, id, mappings, n)->Ok_0),
    decreases n,
{
    if n > 0 {
        lemma_mappings_sound(state, local, id, mappings, n - 1);
        let before = with_mappings(state, local, id, mappings, n - 1)->Ok_0;
        let after = with_mappings(state, local, id, mappings, n)->Ok_0;
        let to = mappings[n - 1].0;
        assert(after.destinations == before.destinations.push(to));
        assert forall|i: int| 0 <= i < after.edits.len() implies after.destinations.contains(
            (#[trigger] after.edits[i]).name,
        ) by {
            if i < before.edits.len() {
                let k = before.destinations.index_of(before.edits[i].name);
                assert(after.destinations[k] == before.edits[i].name);
            } else {
                assert(after.destinations.last() == to);
            }
        }
    }
}

} // verus!
