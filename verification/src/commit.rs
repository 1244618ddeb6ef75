//! Commits, annotated tags and the signatures in them.

use vstd::prelude::*;

use crate::bytes;
use crate::object;
use crate::object::{ObjectId, ObjectKind};
use crate::{Error, Result};

verus! {

/// Who did something, and when.
#[derive(Debug, PartialEq, Eq)]
pub struct Signature {
    name: Vec<u8>,
    email: Vec<u8>,
    timestamp: i64,
    offset_minutes: i32,
    unknown_timezone: bool,
}

/// What a signature says.
#[verifier::ext_equal]
pub struct SignatureModel {
    pub name: Seq<u8>,
    pub email: Seq<u8>,
    pub timestamp: i64,
    pub offset_minutes: i32,
    pub unknown_timezone: bool,
}

impl View for Signature {
    type V = SignatureModel;

    closed spec fn view(&self) -> SignatureModel {
        SignatureModel {
            name: self.name@,
            email: self.email@,
            timestamp: self.timestamp,
            offset_minutes: self.offset_minutes,
            unknown_timezone: self.unknown_timezone,
        }
    }
}

/// A byte that would end a field of a signature early.
pub open spec fn breaks_field(b: u8) -> bool {
    b == 0 || b == 10 || b == 60 || b == 62
}

pub open spec fn sound_field(s: Seq<u8>) -> bool {
    forall|i: int| 0 <= i < s.len() ==> !breaks_field(#[trigger] s[i])
}

fn is_sound_field(s: &[u8]) -> (r: bool)
    ensures
        r == sound_field(s@),
{
    let mut i: usize = 0;
    while i < s.len()
        invariant
            i <= s@.len(),
            forall|j: int| 0 <= j < i ==> !breaks_field(#[trigger] s@[j]),
        decreases s@.len() - i,
    {
        let b: u8 = s[i];
        if b == 0 || b == 10 || b == 60 || b == 62 {
            assert(breaks_field(s@[i as int]));
            return false;
        }
        i += 1;
    }
    true
}

impl Signature {
    #[verifier::type_invariant]
    spec fn inv(self) -> bool {
        -6000 < self.offset_minutes < 6000
    }

    /// A signature whose name and email hold no byte that ends a field.
    pub fn new(name: &[u8], email: &[u8], timestamp: i64, offset_minutes: i32) -> (r: Result<Self>)
        ensures
            if sound_field(name@) && sound_field(email@) && -6000 < offset_minutes < 6000 {
                r is Ok && r->Ok_0@ == (SignatureModel {
                    name: name@,
                    email: email@,
                    timestamp,
                    offset_minutes,
                    unknown_timezone: false,
                })
            } else {
                r is Err && r->Err_0 == Error::InvalidCommit("invalid signature")
            },
    {
        if !is_sound_field(name) || !is_sound_field(email) || offset_minutes <= -6000
            || offset_minutes >= 6000 {
            return Err(Error::InvalidCommit("invalid signature"));
        }
        Ok(
            Signature {
                name: bytes::to_vec(name),
                email: bytes::to_vec(email),
                timestamp,
                offset_minutes,
                unknown_timezone: false,
            },
        )
    }

    pub fn name(&self) -> (r: &[u8])
        ensures
            r@ == self@.name,
    {
        self.name.as_slice()
    }

    pub fn email(&self) -> (r: &[u8])
        ensures
            r@ == self@.email,
    {
        self.email.as_slice()
    }

    pub fn timestamp(&self) -> (r: i64)
        ensures
            r == self@.timestamp,
    {
        self.timestamp
    }

    pub fn offset_minutes(&self) -> (r: i32)
        ensures
            r == self@.offset_minutes,
    {
        self.offset_minutes
    }

    pub fn has_unknown_timezone(&self) -> (r: bool)
        ensures
            r == self@.unknown_timezone,
    {
        self.unknown_timezone
    }

    /// The same signature of someone else.
    pub fn renamed(&self, name: &[u8], email: &[u8]) -> (r: Self)
        ensures
            r@ == (SignatureModel { name: name@, email: email@, ..self@ }),
    {
        proof {
            use_type_invariant(self);
        }
        Signature {
            name: bytes::to_vec(name),
            email: bytes::to_vec(email),
            timestamp: self.timestamp,
            offset_minutes: self.offset_minutes,
            unknown_timezone: self.unknown_timezone,
        }
    }

    pub fn copy(&self) -> (r: Self)
        ensures
            r@ == self@,
    {
        self.renamed(self.name.as_slice(), self.email.as_slice())
    }
}

/// The number that a text of decimal digits, with a minus sign or without,
/// writes.
pub open spec fn signed_value(text: Seq<u8>) -> Option<i64> {
    let negative = text.len() > 0 && text[0] == 45;
    let digits = if negative {
        text.skip(1)
    } else {
        text
    };
    if digits.len() == 0 || !bytes::all_digits(digits) || bytes::decimal_value(digits) > i64::MAX {
        None
    } else if negative {
        Some((0 - bytes::decimal_value(digits)) as i64)
    } else {
        Some(bytes::decimal_value(digits) as i64)
    }
}

fn parse_signed(text: &[u8]) -> (r: Option<i64>)
    ensures
        r == signed_value(text@),
{
    let negative = text.len() > 0 && text[0] == 45;
    let digits: &[u8] = if negative {
        &text[1..text.len()]
    } else {
        text
    };
    proof {
        if negative {
            assert(digits@ =~= text@.skip(1));
        }
    }
    if digits.len() == 0 || !bytes::is_all_digits(digits) {
        return None;
    }
    match bytes::parse_decimal(digits) {
        None => None,
        Some(value) => {
            if value > i64::MAX as u64 {
                None
            } else if negative {
                Some(-(value as i64))
            } else {
                Some(value as i64)
            }
        },
    }
}

/// The offset that a zone such as `+0130` writes, in minutes.
pub open spec fn zone_value(text: Seq<u8>) -> Option<i32> {
    if text.len() != 5 || !(text[0] == 43 || text[0] == 45) || !bytes::all_digits(text.skip(1)) || text[3] > 53 {
        None
    } else {
        let minutes = ((text[1] - 48) * 10 + (text[2] - 48)) * 60 + (text[3] - 48) * 10 + (text[4]
            - 48);
        Some(
            (if text[0] == 45 {
                0 - minutes
            } else {
                minutes
            }) as i32,
        )
    }
}

fn parse_zone(text: &[u8]) -> (r: Option<i32>)
    ensures
        r == zone_value(text@),
        r is Some ==> -6000 < r->0 < 6000,
{
    if text.len() != 5 || !(text[0] == 43 || text[0] == 45) {
        return None;
    }
    let digits = &text[1..5];
    assert(digits@ =~= text@.skip(1));
    if !bytes::is_all_digits(digits) || text[3] > 53 {
        return None;
    }
    proof {
        assert(bytes::is_digit(digits@[0]) && bytes::is_digit(digits@[1]) && bytes::is_digit(
            digits@[2],
        ) && bytes::is_digit(digits@[3]));
    }
    let minutes: i32 = ((text[1] as i32 - 48) * 10 + (text[2] as i32 - 48)) * 60 + (text[3] as i32
        - 48) * 10 + (text[4] as i32 - 48);
    if text[0] == 45 {
        Some(-minutes)
    } else {
        Some(minutes)
    }
}

/// The signature that a header's value writes.
pub open spec fn signature_from(line: Seq<u8>) -> Option<SignatureModel> {
    let open = bytes::index_from(line, 60, 0);
    let close = bytes::index_from(line, 62, open + 1);
    if !(1 <= open < line.len()) || line[open - 1] != 32 {
        None
    } else if close + 1 >= line.len() || line[close + 1] != 32 {
        None
    } else {
        let rest = line.skip(close + 2);
        let gap = bytes::index_from(rest, 32, 0);
        if gap >= rest.len() {
            None
        } else {
            let zone = rest.skip(gap + 1);
            match (signed_value(rest.take(gap)), zone_value(zone)) {
                (Some(timestamp), Some(offset_minutes)) => Some(
                    SignatureModel {
                        name: line.take(open - 1),
                        email: line.subrange(open + 1, close),
                        timestamp,
                        offset_minutes,
                        unknown_timezone: zone[0] == 45 && offset_minutes == 0,
                    },
                ),
                _ => None,
            }
        }
    }
}

/// Reads a signature.
pub fn parse_signature(line: &[u8]) -> (r: Option<Signature>)
    ensures
        match signature_from(line@) {
            Some(model) => r is Some && r->0@ == model,
            None => r is None,
        },
{
    proof {
        bytes::lemma_index_from(line@, 60, 0);
    }
    let open: usize = bytes::find_byte(line, 60, 0);
    if open < 1 || open >= line.len() || line[open - 1] != 32 {
        return None;
    }
    proof {
        bytes::lemma_index_from(line@, 62, open + 1);
    }
    let close: usize = bytes::find_byte(line, 62, open + 1);
    if close >= line.len() || close + 1 >= line.len() || line[close + 1] != 32 {
        return None;
    }
    let rest = &line[close + 2..line.len()];
    assert(rest@ =~= line@.skip(close + 2));
    proof {
        bytes::lemma_index_from(rest@, 32, 0);
    }
    let gap: usize = bytes::find_byte(rest, 32, 0);
    if gap >= rest.len() {
        return None;
    }
    let time = &rest[0..gap];
    let zone = &rest[gap + 1..rest.len()];
    assert(time@ =~= rest@.take(gap as int));
    assert(zone@ =~= rest@.skip(gap + 1));
    let timestamp: i64 = match parse_signed(time) {
        Some(value) => value,
        None => return None,
    };
    let offset_minutes: i32 = match parse_zone(zone) {
        Some(value) => value,
        None => return None,
    };
    let name = bytes::copy_range(line, 0, open - 1);
    let email = bytes::copy_range(line, open + 1, close);
    assert(name@ =~= line@.take(open - 1));
    Some(
        Signature {
            name,
            email,
            timestamp,
            offset_minutes,
            unknown_timezone: zone[0] == 45 && offset_minutes == 0,
        },
    )
}

/// The value of a header line that stands at a place, and where the next line
/// begins.
pub open spec fn header_at(data: Seq<u8>, at: int, key: Seq<u8>) -> Option<(Seq<u8>, int)> {
    let end = bytes::index_from(data, 10, at);
    if at < 0 || at + key.len() > data.len() || data.subrange(at, at + key.len()) != key || end
        >= data.len() || end < at + key.len() {
        None
    } else {
        Some((data.subrange(at + key.len(), end), end + 1))
    }
}

/// Finds the value of a header line: where it begins and where it ends.
fn find_header(data: &[u8], at: usize, key: &[u8]) -> (r: Option<(usize, usize)>)
    requires
        at <= data@.len(),
    ensures
        match header_at(data@, at as int, key@) {
            Some((value, next)) => r is Some && (r->0).0 <= (r->0).1 < data@.len() && data@.subrange(
                (r->0).0 as int,
                (r->0).1 as int,
            ) == value && (r->0).1 + 1 == next && (r->0).0 >= at && (r->0).1 < usize::MAX,
            None => r is None,
        },
{
    proof {
        bytes::lemma_index_from(data@, 10, at as int);
    }
    if key.len() > data.len() - at {
        return None;
    }
    let front = &data[at..at + key.len()];
    assert(front@ =~= data@.subrange(at as int, at + key@.len()));
    if !bytes::bytes_eq(front, key) {
        return None;
    }
    let end: usize = bytes::find_byte(data, 10, at);
    if end >= data.len() || end < at + key.len() {
        return None;
    }
    Some((at + key.len(), end))
}

/// The parents that a commit names from a place on, and where the next line
/// begins.
pub open spec fn parents_from(data: Seq<u8>, at: int) -> core::result::Result<
    (Seq<Seq<u8>>, int),
    Error,
>
    decreases data.len() - at,
{
    match header_at(data, at, bytes::utf8("parent "@)) {
        None => Ok((Seq::empty(), at)),
        Some((value, next)) => {
            match object::id_of_hex(value) {
                None => Err(Error::InvalidCommit("invalid parent id")),
                Some(id) => if next <= at || next > data.len() {
                    Err(Error::InvalidCommit("invalid parent id"))
                } else {
                    match parents_from(data, next) {
                        Err(error) => Err(error),
                        Ok((rest, end)) => Ok((seq![id] + rest, end)),
                    }
                },
            }
        },
    }
}

/// Where the message begins: after the first empty line.
pub open spec fn message_at(data: Seq<u8>, at: int) -> Option<int>
    decreases data.len() - at,
{
    let end = bytes::index_from(data, 10, at);
    if at < 0 || end >= data.len() || end < at {
        None
    } else if end == at {
        Some(at + 1)
    } else {
        message_at(data, end + 1)
    }
}

/// What a commit says.
#[verifier::ext_equal]
pub struct CommitModel {
    pub tree: Seq<u8>,
    pub parents: Seq<Seq<u8>>,
    pub author: SignatureModel,
    pub committer: SignatureModel,
    pub message: Seq<u8>,
}

/// What the data of a commit says.
pub open spec fn commit_from(data: Seq<u8>) -> core::result::Result<CommitModel, Error> {
    match header_at(data, 0, bytes::utf8("tree "@)) {
        None => Err(Error::InvalidCommit("missing tree header")),
        Some((value, after_tree)) => match object::id_of_hex(value) {
            None => Err(Error::InvalidCommit("invalid tree id")),
            Some(tree) => match parents_from(data, after_tree) {
                Err(error) => Err(error),
                Ok((parents, after_parents)) => match header_at(
                    data,
                    after_parents,
                    bytes::utf8("author "@),
                ) {
                    None => Err(Error::InvalidCommit("missing author header")),
                    Some((line, after_author)) => match signature_from(line) {
                        None => Err(Error::InvalidCommit("invalid author")),
                        Some(author) => match header_at(
                            data,
                            after_author,
                            bytes::utf8("committer "@),
                        ) {
                            None => Err(Error::InvalidCommit("missing committer header")),
                            Some((line, after_committer)) => match signature_from(line) {
                                None => Err(Error::InvalidCommit("invalid committer")),
                                Some(committer) => match message_at(data, after_committer) {
                                    None => Err(Error::InvalidCommit("missing message")),
                                    Some(at) => Ok(
                                        CommitModel {
                                            tree,
                                            parents,
                                            author,
                                            committer,
                                            message: data.skip(at),
                                        },
                                    ),
                                },
                            },
                        },
                    },
                },
            },
        },
    }
}

/// A commit: a tree, the commits that it follows, who made it and why.
#[derive(Debug, PartialEq, Eq)]
pub struct Commit {
    tree: ObjectId,
    parents: Vec<ObjectId>,
    author: Signature,
    committer: Signature,
    message: Vec<u8>,
}

/// The bytes of a list of ids.
pub open spec fn raw_ids(list: Seq<ObjectId>) -> Seq<Seq<u8>> {
    Seq::new(list.len(), |i: int| list[i]@)
}

impl View for Commit {
    type V = CommitModel;

    closed spec fn view(&self) -> CommitModel {
        CommitModel {
            tree: self.tree@,
            parents: raw_ids(self.parents@),
            author: self.author@,
            committer: self.committer@,
            message: self.message@,
        }
    }
}

fn find_message(data: &[u8], from: usize) -> (r: Option<usize>)
    requires
        from <= data@.len(),
    ensures
        match message_at(data@, from as int) {
            Some(at) => r == Some(at as usize) && from <= at <= data@.len(),
            None => r is None,
        },
{
    let mut at: usize = from;
    loop
        invariant
            from <= at <= data@.len(),
            message_at(data@, from as int) == message_at(data@, at as int),
        decreases data@.len() - at,
    {
        proof {
            bytes::lemma_index_from(data@, 10, at as int);
        }
        let end: usize = bytes::find_byte(data, 10, at);
        if end >= data.len() {
            return None;
        }
        if end == at {
            return Some(at + 1);
        }
        at = end + 1;
    }
}

impl Commit {
    /// A commit.
    pub fn new(
        tree: ObjectId,
        parents: Vec<ObjectId>,
        author: Signature,
        committer: Signature,
        message: Vec<u8>,
    ) -> (r: Self)
        ensures
            r@ == (CommitModel {
                tree: tree@,
                parents: raw_ids(parents@),
                author: author@,
                committer: committer@,
                message: message@,
            }),
    {
        Commit { tree, parents, author, committer, message }
    }

    /// Reads a commit.
    pub fn parse(data: &[u8]) -> (r: Result<Self>)
        ensures
            match commit_from(data@) {
                Ok(model) => r is Ok && r->Ok_0@ == model,
                Err(error) => r is Err && r->Err_0 == error,
            },
    {
        let (from, end) = match find_header(data, 0, "tree ".as_bytes()) {
            Some(place) => place,
            None => return Err(Error::InvalidCommit("missing tree header")),
        };
        let tree = match ObjectId::from_hex(&data[from..end]) {
            Ok(id) => id,
            Err(_) => return Err(Error::InvalidCommit("invalid tree id")),
        };
        let mut at: usize = end + 1;
        let ghost first = at as int;
        let mut parents: Vec<ObjectId> = Vec::new();
        assert(raw_ids(parents@) =~= Seq::empty());
        let ghost goal = parents_from(data@, first);
        loop
            invariant
                at <= data@.len(),
                goal == parents_from(data@, first),
                match parents_from(data@, at as int) {
                    Err(error) => goal == Err::<(Seq<Seq<u8>>, int), Error>(error),
                    Ok((rest, end)) => goal == Ok::<(Seq<Seq<u8>>, int), Error>(
                        (raw_ids(parents@) + rest, end),
                    ),
                },
                commit_from(data@) is Ok ==> goal is Ok,
                goal is Err ==> commit_from(data@) == Err::<CommitModel, Error>(goal->Err_0),
            ensures
                at <= data@.len(),
                goal == Ok::<(Seq<Seq<u8>>, int), Error>((raw_ids(parents@), at as int)),
            decreases data@.len() - at,
        {
            match find_header(data, at, "parent ".as_bytes()) {
                None => {
                    assert(raw_ids(parents@) + Seq::<Seq<u8>>::empty() =~= raw_ids(parents@));
                    break;
                },
                Some((from, end)) => {
                    match ObjectId::from_hex(&data[from..end]) {
                        Err(_) => return Err(Error::InvalidCommit("invalid parent id")),
                        Ok(id) => {
                            let ghost before = parents@;
                            parents.push(id);
                            proof {
                                assert(raw_ids(parents@) =~= raw_ids(before).push(id@));
                                match parents_from(data@, end + 1) {
                                    Ok((rest, _)) => {
                                        assert(raw_ids(before) + (seq![id@] + rest) =~= raw_ids(
                                            parents@,
                                        ) + rest);
                                    },
                                    Err(_) => {},
                                }
                            }
                            at = end + 1;
                        },
                    }
                },
            }
        }
        let (from, end) = match find_header(data, at, "author ".as_bytes()) {
            Some(place) => place,
            None => return Err(Error::InvalidCommit("missing author header")),
        };
        let author = match parse_signature(&data[from..end]) {
            Some(signature) => signature,
            None => return Err(Error::InvalidCommit("invalid author")),
        };
        let (from, end) = match find_header(data, end + 1, "committer ".as_bytes()) {
            Some(place) => place,
            None => return Err(Error::InvalidCommit("missing committer header")),
        };
        let committer = match parse_signature(&data[from..end]) {
            Some(signature) => signature,
            None => return Err(Error::InvalidCommit("invalid committer")),
        };
        let at: usize = match find_message(data, end + 1) {
            Some(at) => at,
            None => return Err(Error::InvalidCommit("missing message")),
        };
        let message = bytes::copy_range(data, at, data.len());
        assert(message@ =~= data@.skip(at as int));
        Ok(Commit { tree, parents, author, committer, message })
    }

    pub fn copy(&self) -> (r: Self)
        ensures
            r@ == self@,
    {
        let mut parents: Vec<ObjectId> = Vec::new();
        let mut i: usize = 0;
        while i < self.parents.len()
            invariant
                i <= self.parents@.len(),
                parents@ == self.parents@.take(i as int),
            decreases self.parents@.len() - i,
        {
            parents.push(self.parents[i]);
            assert(parents@ =~= self.parents@.take(i + 1));
            i += 1;
        }
        assert(parents@ =~= self.parents@);
        Commit {
            tree: self.tree,
            parents,
            author: self.author.copy(),
            committer: self.committer.copy(),
            message: bytes::to_vec(self.message.as_slice()),
        }
    }

    pub fn tree(&self) -> (r: ObjectId)
        ensures
            r@ == self@.tree,
    {
        self.tree
    }

    pub fn parents(&self) -> (r: &[ObjectId])
        ensures
            raw_ids(r@) == self@.parents,
    {
        self.parents.as_slice()
    }

    pub fn author(&self) -> (r: &Signature)
        ensures
            r@ == self@.author,
    {
        &self.author
    }

    pub fn committer(&self) -> (r: &Signature)
        ensures
            r@ == self@.committer,
    {
        &self.committer
    }

    pub fn message(&self) -> (r: &[u8])
        ensures
            r@ == self@.message,
    {
        self.message.as_slice()
    }
}

// ---------------------------------------------------------------------------
// Writing

/// A number with a minus sign or without, in decimal.
pub open spec fn signed_text(value: i64) -> Seq<u8> {
    if value < 0 {
        seq![45u8] + bytes::decimal((0 - value) as nat)
    } else {
        bytes::decimal(value as nat)
    }
}

/// Two decimal digits.
pub open spec fn two_digits(n: int) -> Seq<u8> {
    seq![(48 + n / 10 % 10) as u8, (48 + n % 10) as u8]
}

/// The text of a zone.
pub open spec fn zone_text(offset_minutes: i32, unknown: bool) -> Seq<u8> {
    let minutes = if offset_minutes < 0 {
        0 - offset_minutes
    } else {
        offset_minutes as int
    };
    let sign = if unknown || offset_minutes < 0 {
        45u8
    } else {
        43u8
    };
    seq![sign] + two_digits(minutes / 60) + two_digits(minutes % 60)
}

/// The text of a signature.
pub open spec fn signature_text(m: SignatureModel) -> Seq<u8> {
    m.name + bytes::utf8(" <"@) + m.email + bytes::utf8("> "@) + signed_text(m.timestamp)
        + seq![32u8] + zone_text(m.offset_minutes, m.unknown_timezone)
}

/// The lines that name the first `n` parents.
pub open spec fn parents_text(parents: Seq<Seq<u8>>, n: int) -> Seq<u8>
    decreases n,
{
    if n <= 0 {
        Seq::empty()
    } else {
        parents_text(parents, n - 1) + bytes::utf8("parent "@) + object::hex_of(parents[n - 1])
            + seq![10u8]
    }
}

/// The data of a commit.
pub open spec fn commit_text(m: CommitModel) -> Seq<u8> {
    bytes::utf8("tree "@) + object::hex_of(m.tree) + seq![10u8] + parents_text(
        m.parents,
        m.parents.len() as int,
    ) + bytes::utf8("author "@) + signature_text(m.author) + bytes::utf8("\ncommitter "@)
        + signature_text(m.committer) + bytes::utf8("\n\n"@) + m.message
}

fn push_signed(out: &mut Vec<u8>, value: i64)
    ensures
        final(out)@ == old(out)@ + signed_text(value),
{
    if value < 0 {
        out.push(45);
        let size: u64 = if value == i64::MIN {
            0x8000_0000_0000_0000
        } else {
            (-value) as u64
        };
        bytes::push_decimal(out, size);
    } else {
        bytes::push_decimal(out, value as u64);
    }
    assert(out@ =~= old(out)@ + signed_text(value));
}

pub fn push_two_digits(out: &mut Vec<u8>, n: u32)
    requires
        n < 100,
    ensures
        final(out)@ == old(out)@ + two_digits(n as int),
{
    out.push(48 + (n / 10) as u8);
    out.push(48 + (n % 10) as u8);
    assert(out@ =~= old(out)@ + two_digits(n as int));
}

impl Signature {
    /// The offset, which is less than a hundred hours.
    pub fn bounded_offset(&self) -> (r: i32)
        ensures
            r == self@.offset_minutes,
            -6000 < r < 6000,
    {
        proof {
            use_type_invariant(self);
        }
        self.offset_minutes
    }

    /// Writes the zone at the end of some bytes.
    pub fn push_zone(&self, out: &mut Vec<u8>)
        ensures
            final(out)@ == old(out)@ + zone_text(self@.offset_minutes, self@.unknown_timezone),
    {
        proof {
            use_type_invariant(self);
        }
        if self.unknown_timezone || self.offset_minutes < 0 {
            out.push(45);
        } else {
            out.push(43);
        }
        let minutes: u32 = if self.offset_minutes < 0 {
            (-self.offset_minutes) as u32
        } else {
            self.offset_minutes as u32
        };
        push_two_digits(out, minutes / 60);
        push_two_digits(out, minutes % 60);
        assert(out@ =~= old(out)@ + zone_text(self.offset_minutes, self.unknown_timezone));
    }

    /// Writes the signature at the end of some bytes.
    pub fn push(&self, out: &mut Vec<u8>)
        ensures
            final(out)@ == old(out)@ + signature_text(self@),
    {
        let ghost before = out@;
        bytes::append(out, self.name.as_slice());
        bytes::append(out, " <".as_bytes());
        bytes::append(out, self.email.as_slice());
        bytes::append(out, "> ".as_bytes());
        push_signed(out, self.timestamp);
        out.push(32);
        self.push_zone(out);
        assert(out@ =~= before + signature_text(self@));
    }
}

impl Commit {
    /// The data of the commit.
    pub fn encode(&self) -> (r: Vec<u8>)
        ensures
            r@ == commit_text(self@),
    {
        let mut out = bytes::to_vec("tree ".as_bytes());
        let hex = self.tree.to_hex();
        bytes::append(&mut out, hex.as_slice());
        out.push(10);
        let ghost head = out@;
        let ghost all = raw_ids(self.parents@);
        let mut i: usize = 0;
        assert(head + parents_text(all, 0) =~= head);
        while i < self.parents.len()
            invariant
                i <= self.parents@.len(),
                all == raw_ids(self.parents@),
                out@ == head + parents_text(all, i as int),
            decreases self.parents@.len() - i,
        {
            let ghost before = out@;
            bytes::append(&mut out, "parent ".as_bytes());
            let hex = self.parents[i].to_hex();
            bytes::append(&mut out, hex.as_slice());
            out.push(10);
            assert(all[i as int] == self.parents@[i as int]@);
            assert(out@ =~= head + parents_text(all, i + 1));
            i += 1;
        }
        bytes::append(&mut out, "author ".as_bytes());
        self.author.push(&mut out);
        bytes::append(&mut out, "\ncommitter ".as_bytes());
        self.committer.push(&mut out);
        bytes::append(&mut out, "\n\n".as_bytes());
        bytes::append(&mut out, self.message.as_slice());
        assert(out@ =~= commit_text(self@));
        out
    }
}

// ---------------------------------------------------------------------------
// Annotated tags

/// What an annotated tag says.
#[verifier::ext_equal]
pub struct TagModel {
    pub target: Seq<u8>,
    pub target_kind: ObjectKind,
    pub tagger: Option<SignatureModel>,
}

/// What the data of an annotated tag says.
pub open spec fn tag_from(data: Seq<u8>) -> core::result::Result<TagModel, Error> {
    match header_at(data, 0, bytes::utf8("object "@)) {
        None => Err(Error::InvalidObject("missing tag object header")),
        Some((value, after_object)) => match object::id_of_hex(value) {
            None => Err(Error::InvalidObject("invalid tag target id")),
            Some(target) => match header_at(data, after_object, bytes::utf8("type "@)) {
                None => Err(Error::InvalidObject("missing tag type header")),
                Some((value, after_type)) => match object::kind_of_name(value) {
                    None => Err(Error::InvalidObject("invalid tag target type")),
                    Some(target_kind) => match header_at(data, after_type, bytes::utf8("tag "@)) {
                        None => Err(Error::InvalidObject("missing tag name header")),
                        Some((_, after_name)) => match header_at(
                            data,
                            after_name,
                            bytes::utf8("tagger "@),
                        ) {
                            None => Ok(TagModel { target, target_kind, tagger: None }),
                            Some((line, _)) => match signature_from(line) {
                                None => Err(Error::InvalidObject("invalid tagger")),
                                Some(tagger) => Ok(
                                    TagModel { target, target_kind, tagger: Some(tagger) },
                                ),
                            },
                        },
                    },
                },
            },
        },
    }
}

/// An annotated tag: what it points at and who made it.
#[derive(Debug, PartialEq, Eq)]
pub struct AnnotatedTag {
    target: ObjectId,
    target_kind: ObjectKind,
    tagger: Option<Signature>,
}

impl View for AnnotatedTag {
    type V = TagModel;

    closed spec fn view(&self) -> TagModel {
        TagModel {
            target: self.target@,
            target_kind: self.target_kind,
            tagger: match self.tagger {
                Some(signature) => Some(signature@),
                None => None,
            },
        }
    }
}

impl AnnotatedTag {
    /// Reads an annotated tag.
    pub fn parse(data: &[u8]) -> (r: Result<Self>)
        ensures
            match tag_from(data@) {
                Ok(model) => r is Ok && r->Ok_0@ == model,
                Err(error) => r is Err && r->Err_0 == error,
            },
    {
        let (from, end) = match find_header(data, 0, "object ".as_bytes()) {
            Some(place) => place,
            None => return Err(Error::InvalidObject("missing tag object header")),
        };
        let target = match ObjectId::from_hex(&data[from..end]) {
            Ok(id) => id,
            Err(_) => return Err(Error::InvalidObject("invalid tag target id")),
        };
        let (from, end) = match find_header(data, end + 1, "type ".as_bytes()) {
            Some(place) => place,
            None => return Err(Error::InvalidObject("missing tag type header")),
        };
        let target_kind = match ObjectKind::parse(&data[from..end]) {
            Ok(kind) => kind,
            Err(_) => return Err(Error::InvalidObject("invalid tag target type")),
        };
        let (_, end) = match find_header(data, end + 1, "tag ".as_bytes()) {
            Some(place) => place,
            None => return Err(Error::InvalidObject("missing tag name header")),
        };
        let tagger = match find_header(data, end + 1, "tagger ".as_bytes()) {
            None => None,
            Some((from, end)) => match parse_signature(&data[from..end]) {
                Some(signature) => Some(signature),
                None => return Err(Error::InvalidObject("invalid tagger")),
            },
        };
        Ok(AnnotatedTag { target, target_kind, tagger })
    }

    pub fn target(&self) -> (r: ObjectId)
        ensures
            r@ == self@.target,
    {
        self.target
    }

    pub fn target_kind(&self) -> (r: ObjectKind)
        ensures
            r == self@.target_kind,
    {
        self.target_kind
    }

    pub fn tagger(&self) -> (r: Option<&Signature>)
        ensures
            match r {
                Some(signature) => self@.tagger == Some(signature@),
                None => self@.tagger is None,
            },
    {
        match &self.tagger {
            Some(signature) => Some(signature),
            None => None,
        }
    }
}

// ---------------------------------------------------------------------------
// Laws

/// Whether a signature can be written so that it is read back.
pub open spec fn sound_signature(m: SignatureModel) -> bool {
    &&& sound_field(m.name)
    &&& sound_field(m.email)
    &&& m.timestamp > i64::MIN
    &&& -6000 < m.offset_minutes < 6000
    &&& m.unknown_timezone ==> m.offset_minutes == 0
}

/// Whether a commit can be written so that it is read back.
pub open spec fn sound_commit(m: CommitModel) -> bool {
    &&& m.tree.len() == 20
    &&& forall|i: int| 0 <= i < m.parents.len() ==> (#[trigger] m.parents[i]).len() == 20
    &&& sound_signature(m.author)
    &&& sound_signature(m.committer)
}

proof fn lemma_signed_text(value: i64)
    requires
        value > i64::MIN,
    ensures
        signed_value(signed_text(value)) == Some(value),
        forall|i: int|
            0 <= i < signed_text(value).len() ==> (#[trigger] signed_text(value)[i]) == 45
                || bytes::is_digit(signed_text(value)[i]),
{
    let text = signed_text(value);
    let size = if value < 0 {
        (0 - value) as nat
    } else {
        value as nat
    };
    bytes::lemma_decimal(size);
    let digits = bytes::decimal(size);
    if value < 0 {
        assert(text.skip(1) =~= digits);
    } else {
        assert(bytes::is_digit(digits[0]));
    }
    assert forall|i: int| 0 <= i < text.len() implies (#[trigger] text[i]) == 45 || bytes::is_digit(
        text[i],
    ) by {
        if value < 0 {
            if i > 0 {
                assert(text[i] == digits[i - 1]);
                assert(bytes::is_digit(digits[i - 1]));
            }
        } else {
            assert(bytes::is_digit(digits[i]));
        }
    }
}

proof fn lemma_zone_text(offset_minutes: i32, unknown: bool)
    requires
        -6000 < offset_minutes < 6000,
        unknown ==> offset_minutes == 0,
    ensures
        zone_text(offset_minutes, unknown).len() == 5,
        zone_value(zone_text(offset_minutes, unknown)) == Some(offset_minutes),
        unknown == (zone_text(offset_minutes, unknown)[0] == 45 && offset_minutes == 0),
        forall|i: int|
            0 <= i < 5 ==> (#[trigger] zone_text(offset_minutes, unknown)[i]) != 10,
{
    let text = zone_text(offset_minutes, unknown);
    let minutes: int = if offset_minutes < 0 {
        0 - offset_minutes
    } else {
        offset_minutes as int
    };
    let hours = minutes / 60;
    let rest = minutes % 60;
    assert(0 <= hours < 100 && 0 <= rest < 60);
    assert(hours / 10 % 10 == hours / 10);
    assert(rest / 10 % 10 == rest / 10 && rest / 10 <= 5);
    assert(text[1] == (48 + hours / 10) as u8 && text[2] == (48 + hours % 10) as u8);
    assert(text[3] == (48 + rest / 10) as u8 && text[4] == (48 + rest % 10) as u8);
    assert forall|i: int| 0 <= i < text.skip(1).len() implies bytes::is_digit(
        #[trigger] text.skip(1)[i],
    ) by {
        assert(text.skip(1)[i] == text[i + 1]);
        assert(i == 0 || i == 1 || i == 2 || i == 3);
    }
    assert(((text[1] - 48) * 10 + (text[2] - 48)) * 60 + (text[3] - 48) * 10 + (text[4] - 48)
        == minutes);
}

/// A signature that was written is the signature that is read.
pub proof fn lemma_signature_round_trip(m: SignatureModel)
    requires
        sound_signature(m),
    ensures
        signature_from(signature_text(m)) == Some(m),
        forall|i: int|
            0 <= i < signature_text(m).len() ==> (#[trigger] signature_text(m)[i]) != 10,
{
    let line = signature_text(m);
    let time = signed_text(m.timestamp);
    let zone = zone_text(m.offset_minutes, m.unknown_timezone);
    reveal_strlit(" <");
    reveal_strlit("> ");
    bytes::lemma_ascii(" <"@);
    bytes::lemma_ascii("> "@);
    lemma_signed_text(m.timestamp);
    lemma_zone_text(m.offset_minutes, m.unknown_timezone);
    let open: int = m.name.len() as int + 1;
    let close: int = open + 1 + m.email.len();
    assert forall|i: int| 0 <= i < open implies line[i] != 60 by {
        if i < m.name.len() {
            assert(line[i] == m.name[i]);
            assert(!breaks_field(m.name[i]));
        }
    }
    assert(line[open] == 60);
    bytes::lemma_index_from_is(line, 60, 0, open);
    assert forall|i: int| open < i < close implies line[i] != 62 && line[i] != 10 by {
        assert(line[i] == m.email[i - open - 1]);
        assert(!breaks_field(m.email[i - open - 1]));
    }
    assert(line[close] == 62);
    bytes::lemma_index_from_is(line, 62, open + 1, close);
    assert(line[open - 1] == 32);
    assert(line[close + 1] == 32);
    let rest = line.skip(close + 2);
    assert(rest =~= time + seq![32u8] + zone);
    assert forall|i: int| 0 <= i < time.len() implies rest[i] != 32 by {
        assert(rest[i] == time[i]);
    }
    bytes::lemma_index_from_is(rest, 32, 0, time.len() as int);
    assert(rest.take(time.len() as int) =~= time);
    assert(rest.skip(time.len() as int + 1) =~= zone);
    assert(line.take(open - 1) =~= m.name);
    assert(line.subrange(open + 1, close) =~= m.email);
    assert forall|i: int| 0 <= i < line.len() implies (#[trigger] line[i]) != 10 by {
        if i < m.name.len() {
            assert(line[i] == m.name[i]);
            assert(!breaks_field(m.name[i]));
        } else if i >= close + 2 {
            assert(line[i] == rest[i - close - 2]);
            if i - close - 2 < time.len() {
                assert(rest[i - close - 2] == time[i - close - 2]);
            } else if i - close - 2 > time.len() {
                assert(rest[i - close - 2] == zone[i - close - 3 - time.len()]);
            }
        }
    }
}

proof fn lemma_header(data: Seq<u8>, at: int, key: Seq<u8>, value: Seq<u8>, tail: Seq<u8>)
    requires
        0 <= at <= data.len(),
        data.skip(at) == key + value + seq![10u8] + tail,
        forall|i: int| 0 <= i < key.len() ==> #[trigger] key[i] != 10,
        forall|i: int| 0 <= i < value.len() ==> #[trigger] value[i] != 10,
    ensures
        header_at(data, at, key) == Some((value, at + key.len() + value.len() + 1)),
        data.skip(at + key.len() + value.len() + 1) == tail,
        at + key.len() + value.len() + 1 <= data.len(),
{
    let rest = data.skip(at);
    let end = at + key.len() + value.len();
    assert(rest.len() == key.len() + value.len() + 1 + tail.len());
    assert forall|i: int| at <= i < end implies data[i] != 10 by {
        assert(data[i] == rest[i - at]);
        if i - at < key.len() {
            assert(rest[i - at] == key[i - at]);
        } else {
            assert(rest[i - at] == value[i - at - key.len()]);
        }
    }
    assert(data[end as int] == rest[end - at]);
    bytes::lemma_index_from_is(data, 10, at, end as int);
    assert(data.subrange(at, at + key.len()) =~= rest.take(key.len() as int));
    assert(rest.take(key.len() as int) =~= key);
    assert(data.subrange(at + key.len(), end as int) =~= rest.subrange(
        key.len() as int,
        end - at,
    ));
    assert(rest.subrange(key.len() as int, end - at) =~= value);
    assert(data.skip(end + 1) =~= rest.skip(end + 1 - at));
    assert(rest.skip(end + 1 - at) =~= tail);
}

proof fn lemma_parents_front(parents: Seq<Seq<u8>>, n: int)
    requires
        0 < n <= parents.len(),
    ensures
        parents_text(parents, n) == bytes::utf8("parent "@) + object::hex_of(parents[0])
            + seq![10u8] + parents_text(parents.skip(1), n - 1),
    decreases n,
{
    let line = bytes::utf8("parent "@) + object::hex_of(parents[0]) + seq![10u8];
    if n == 1 {
        assert(parents_text(parents, 0) =~= Seq::empty());
        assert(parents_text(parents.skip(1), 0) =~= Seq::empty());
        assert(parents_text(parents, 1) =~= line + parents_text(parents.skip(1), 0));
    } else {
        lemma_parents_front(parents, n - 1);
        assert(parents.skip(1)[n - 2] == parents[n - 1]);
        assert(parents_text(parents, n) =~= line + parents_text(parents.skip(1), n - 1));
    }
}

proof fn lemma_hex_line(id: Seq<u8>)
    requires
        id.len() == 20,
    ensures
        object::id_of_hex(object::hex_of(id)) == Some(id),
        forall|i: int| 0 <= i < object::hex_of(id).len() ==> #[trigger] object::hex_of(id)[i] != 10,
{
    object::lemma_unhex_of_hex(id);
    assert forall|i: int| 0 <= i < object::hex_of(id).len() implies #[trigger] object::hex_of(id)[i]
        != 10 by {
        let b = id[i / 2] as int;
        assert(0 <= b / 16 < 16 && 0 <= b % 16 < 16);
    }
}

proof fn lemma_parents_read(data: Seq<u8>, at: int, parents: Seq<Seq<u8>>, tail: Seq<u8>)
    requires
        0 <= at <= data.len(),
        data.skip(at) == parents_text(parents, parents.len() as int) + tail,
        forall|i: int| 0 <= i < parents.len() ==> (#[trigger] parents[i]).len() == 20,
        tail.len() > 0,
        tail[0] == 97,
    ensures
        parents_from(data, at) == Ok::<(Seq<Seq<u8>>, int), Error>(
            (parents, data.len() - tail.len()),
        ),
    decreases parents.len(),
{
    let key = bytes::utf8("parent "@);
    reveal_strlit("parent ");
    bytes::lemma_ascii("parent "@);
    let rest = data.skip(at);
    if parents.len() == 0 {
        assert(rest =~= tail);
        assert(data[at] == rest[0]);
        if at + key.len() <= data.len() {
            assert(data.subrange(at, at + key.len())[0] == 97);
            assert(key[0] == 112);
        }
        assert(parents =~= Seq::empty());
    } else {
        let id = parents[0];
        let after = parents_text(parents.skip(1), parents.len() - 1);
        lemma_parents_front(parents, parents.len() as int);
        lemma_hex_line(id);
        assert(rest =~= key + object::hex_of(id) + seq![10u8] + (after + tail));
        lemma_header(data, at, key, object::hex_of(id), after + tail);
        let next = at + key.len() + object::hex_of(id).len() + 1;
        assert forall|i: int| 0 <= i < parents.skip(1).len() implies (#[trigger] parents.skip(
            1,
        )[i]).len() == 20 by {
            assert(parents[i + 1].len() == 20);
        }
        lemma_parents_read(data, next as int, parents.skip(1), tail);
        assert(seq![id] + parents.skip(1) =~= parents);
    }
}

/// What follows the parents in the data of a commit.
spec fn people_text(m: CommitModel) -> Seq<u8> {
    bytes::utf8("author "@) + signature_text(m.author) + seq![10u8] + committer_text(m)
}

/// What follows the author in the data of a commit.
spec fn committer_text(m: CommitModel) -> Seq<u8> {
    bytes::utf8("committer "@) + signature_text(m.committer) + seq![10u8] + (seq![10u8] + m.message)
}

proof fn lemma_keys()
    ensures
        bytes::utf8("tree "@).len() == 5,
        bytes::utf8("author "@).len() == 7,
        bytes::utf8("committer "@).len() == 10,
        bytes::utf8("author "@)[0] == 97,
        bytes::utf8("\ncommitter "@) == seq![10u8] + bytes::utf8("committer "@),
        bytes::utf8("\n\n"@) == seq![10u8, 10u8],
        forall|i: int| 0 <= i < 5 ==> #[trigger] bytes::utf8("tree "@)[i] != 10,
        forall|i: int| 0 <= i < 7 ==> #[trigger] bytes::utf8("author "@)[i] != 10,
        forall|i: int| 0 <= i < 10 ==> #[trigger] bytes::utf8("committer "@)[i] != 10,
{
    reveal_strlit("tree ");
    reveal_strlit("author ");
    reveal_strlit("committer ");
    reveal_strlit("\ncommitter ");
    reveal_strlit("\n\n");
    bytes::lemma_ascii("tree "@);
    bytes::lemma_ascii("author "@);
    bytes::lemma_ascii("committer "@);
    bytes::lemma_ascii("\ncommitter "@);
    bytes::lemma_ascii("\n\n"@);
    assert(bytes::utf8("\ncommitter "@) =~= seq![10u8] + bytes::utf8("committer "@));
    assert(bytes::utf8("\n\n"@) =~= seq![10u8, 10u8]);
}

proof fn lemma_layout(m: CommitModel)
    ensures
        commit_text(m) == bytes::utf8("tree "@) + object::hex_of(m.tree) + seq![10u8] + (
        parents_text(m.parents, m.parents.len() as int) + people_text(m)),
{
    lemma_keys();
    let tree = bytes::utf8("tree "@) + object::hex_of(m.tree) + seq![10u8];
    let parents = parents_text(m.parents, m.parents.len() as int);
    let key = bytes::utf8("committer "@);
    assert(commit_text(m) =~= tree + (parents + people_text(m)));
}

proof fn lemma_committer_read(m: CommitModel, data: Seq<u8>, at: int)
    requires
        sound_commit(m),
        0 <= at <= data.len(),
        data.skip(at) == committer_text(m),
    ensures
        header_at(data, at, bytes::utf8("committer "@)) == Some(
            (signature_text(m.committer), at + 10 + signature_text(m.committer).len() + 1),
        ),
        message_at(data, at + 10 + signature_text(m.committer).len() + 1) == Some(
            data.len() - m.message.len(),
        ),
        data.skip(data.len() - m.message.len()) == m.message,
{
    lemma_keys();
    lemma_signature_round_trip(m.committer);
    let end = seq![10u8] + m.message;
    lemma_header(data, at, bytes::utf8("committer "@), signature_text(m.committer), end);
    let next = at + 10 + signature_text(m.committer).len() + 1;
    assert(data.skip(next)[0] == data[next]);
    bytes::lemma_index_from_is(data, 10, next, next);
    assert(data.skip(next + 1) =~= end.skip(1));
    assert(end.skip(1) =~= m.message);
}

proof fn lemma_ids_read(m: CommitModel)
    requires
        sound_commit(m),
    ensures
        ({
            let data = commit_text(m);
            let at = data.len() - people_text(m).len();
            let hex = object::hex_of(m.tree);
            &&& header_at(data, 0, bytes::utf8("tree "@)) == Some((hex, 6 + hex.len() as int))
            &&& object::id_of_hex(hex) == Some(m.tree)
            &&& parents_from(data, 6 + hex.len() as int) == Ok::<(Seq<Seq<u8>>, int), Error>(
                (m.parents, at),
            )
            &&& 0 <= at <= data.len()
            &&& data.skip(at) == people_text(m)
        }),
{
    let data = commit_text(m);
    let first = parents_text(m.parents, m.parents.len() as int) + people_text(m);
    lemma_keys();
    lemma_layout(m);
    lemma_hex_line(m.tree);
    assert(data.skip(0) =~= data);
    lemma_header(data, 0, bytes::utf8("tree "@), object::hex_of(m.tree), first);
    let after_tree: int = 6 + object::hex_of(m.tree).len() as int;
    lemma_parents_read(data, after_tree, m.parents, people_text(m));
    assert(first.skip(first.len() - people_text(m).len()) =~= people_text(m));
    lemma_tail(data, after_tree, first, people_text(m));
}

proof fn lemma_author_read(m: CommitModel, data: Seq<u8>, at: int)
    requires
        sound_commit(m),
        0 <= at <= data.len(),
        data.skip(at) == people_text(m),
    ensures
        header_at(data, at, bytes::utf8("author "@)) == Some(
            (signature_text(m.author), at + 7 + signature_text(m.author).len() + 1),
        ),
        at + 7 + signature_text(m.author).len() + 1 <= data.len(),
        data.skip(at + 7 + signature_text(m.author).len() + 1) == committer_text(m),
{
    lemma_keys();
    lemma_signature_round_trip(m.author);
    lemma_header(
        data,
        at,
        bytes::utf8("author "@),
        signature_text(m.author),
        committer_text(m),
    );
}

/// A commit that was written is the commit that is read.
pub proof fn lemma_commit_round_trip(m: CommitModel)
    requires
        sound_commit(m),
    ensures
        commit_from(commit_text(m)) == Ok::<CommitModel, Error>(m),
{
    let data = commit_text(m);
    let at = data.len() - people_text(m).len();
    lemma_ids_read(m);
    lemma_author_read(m, data, at);
    lemma_committer_read(m, data, at + 7 + signature_text(m.author).len() + 1);
    lemma_signature_round_trip(m.author);
    lemma_signature_round_trip(m.committer);
}

proof fn lemma_tail(data: Seq<u8>, at: int, rest: Seq<u8>, tail: Seq<u8>)
    requires
        0 <= at <= data.len(),
        data.skip(at) == rest,
        tail.len() <= rest.len(),
        rest.skip(rest.len() - tail.len()) == tail,
    ensures
        data.skip(data.len() - tail.len()) == tail,
{
    assert(data.skip(data.len() - tail.len()) =~= rest.skip(rest.len() - tail.len()));
}

} // verus!
