//! Primitives shared by Git's wire protocols.

use vstd::prelude::*;

use crate::bytes;
use crate::object;
use crate::{Error, Result};

verus! {

/// Largest complete packet accepted by Git.
pub const MAX_PACKET_LEN: usize = 65_520;

/// Largest data payload in one packet.
pub const MAX_PACKET_DATA_LEN: usize = 65_516;

/// A data or control packet.
#[derive(Clone, PartialEq, Eq, Debug)]
pub enum PktLine {
    Data(Vec<u8>),
    Flush,
    Delimiter,
    ResponseEnd,
}

/// What a packet carries.
#[verifier::ext_equal]
pub enum Packet {
    Data(Seq<u8>),
    Flush,
    Delimiter,
    ResponseEnd,
}

impl View for PktLine {
    type V = Packet;

    open spec fn view(&self) -> Packet {
        match self {
            PktLine::Data(data) => Packet::Data(data@),
            PktLine::Flush => Packet::Flush,
            PktLine::Delimiter => Packet::Delimiter,
            PktLine::ResponseEnd => Packet::ResponseEnd,
        }
    }
}

/// Four lower-case hexadecimal digits.
pub open spec fn hex4(n: nat) -> Seq<u8> {
    seq![
        object::hex_digit((n / 4096 % 16) as int),
        object::hex_digit((n / 256 % 16) as int),
        object::hex_digit((n / 16 % 16) as int),
        object::hex_digit((n % 16) as int),
    ]
}

/// The number that four hexadecimal digits of either case denote.
pub open spec fn hex4_value(s: Seq<u8>) -> Option<nat> {
    if object::all_hex(s.take(4)) {
        Some(
            (object::hex_number(s[0])->0 * 4096 + object::hex_number(s[1])->0 * 256
                + object::hex_number(s[2])->0 * 16 + object::hex_number(s[3])->0) as nat,
        )
    } else {
        None
    }
}

/// A packet as it travels: four digits that count the whole packet, then the
/// data.
pub open spec fn wire(packet: Packet) -> Seq<u8> {
    match packet {
        Packet::Flush => hex4(0),
        Packet::Delimiter => hex4(1),
        Packet::ResponseEnd => hex4(2),
        Packet::Data(data) => hex4(data.len() + 4) + data,
    }
}

/// A packet that fits on the wire.
pub open spec fn fits(packet: Packet) -> bool {
    packet matches Packet::Data(data) ==> data.len() <= MAX_PACKET_DATA_LEN
}

/// The packet at the start of some bytes with its length, `None` where more
/// bytes are needed, or why the bytes are refused.
pub open spec fn first_packet(input: Seq<u8>) -> core::result::Result<
    Option<(Packet, nat)>,
    Error,
> {
    if input.len() < 4 {
        Ok(None)
    } else {
        match hex4_value(input) {
            None => Err(Error::Protocol("non-hex pkt-line length")),
            Some(length) => if length == 0 {
                Ok(Some((Packet::Flush, 4)))
            } else if length == 1 {
                Ok(Some((Packet::Delimiter, 4)))
            } else if length == 2 {
                Ok(Some((Packet::ResponseEnd, 4)))
            } else if length == 3 {
                Err(Error::Protocol("reserved pkt-line length 0003"))
            } else if length > MAX_PACKET_LEN {
                Err(Error::Protocol("pkt-line length exceeds the maximum"))
            } else if input.len() < length {
                Ok(None)
            } else {
                Ok(Some((Packet::Data(input.subrange(4, length as int)), length)))
            },
        }
    }
}

proof fn lemma_digit(x: int)
    requires
        0 <= x < 16,
    ensures
        object::hex_number(object::hex_digit(x)) == Some(x as u8),
{
}

proof fn lemma_places(n: int)
    requires
        0 <= n < 65536,
    ensures
        n / 4096 % 16 * 4096 + n / 256 % 16 * 256 + n / 16 % 16 * 16 + n % 16 == n,
{
    assert(n / 4096 % 16 == n / 4096);
    assert(n / 256 % 16 == n / 256 - n / 4096 * 16);
    assert(n / 16 % 16 == n / 16 - n / 256 * 16);
}

proof fn lemma_hex4(n: nat)
    requires
        n < 65536,
    ensures
        hex4(n).len() == 4,
        forall|s: Seq<u8>|
            s.len() >= 4 && s.take(4) == hex4(n) ==> #[trigger] hex4_value(s) == Some(n),
{
    let h = hex4(n);
    lemma_digit((n / 4096 % 16) as int);
    lemma_digit((n / 256 % 16) as int);
    lemma_digit((n / 16 % 16) as int);
    lemma_digit((n % 16) as int);
    lemma_places(n as int);
    assert forall|s: Seq<u8>| s.len() >= 4 && s.take(4) == h implies #[trigger] hex4_value(s)
        == Some(n) by {
        assert(s.take(4)[0] == s[0] && s.take(4)[1] == s[1] && s.take(4)[2] == s[2] && s.take(4)[3]
            == s[3]);
        assert(h[0] == s[0] && h[1] == s[1] && h[2] == s[2] && h[3] == s[3]);
    }
}

/// A packet that was put on the wire is what comes off it, whatever follows.
pub proof fn lemma_packet_round_trip(packet: Packet, rest: Seq<u8>)
    requires
        fits(packet),
    ensures
        first_packet(wire(packet) + rest) == Ok::<Option<(Packet, nat)>, Error>(
            Some((packet, wire(packet).len())),
        ),
{
    let input = wire(packet) + rest;
    match packet {
        Packet::Data(data) => {
            lemma_hex4(data.len() + 4);
            assert(input.take(4) =~= hex4(data.len() + 4));
            assert(input.subrange(4, data.len() as int + 4) =~= data);
        },
        Packet::Flush => {
            lemma_hex4(0);
            assert(input.take(4) =~= hex4(0));
        },
        Packet::Delimiter => {
            lemma_hex4(1);
            assert(input.take(4) =~= hex4(1));
        },
        Packet::ResponseEnd => {
            lemma_hex4(2);
            assert(input.take(4) =~= hex4(2));
        },
    }
}

/// As long as a packet is not complete, more bytes are asked for.
pub proof fn lemma_packet_prefix(packet: Packet, n: int)
    requires
        fits(packet),
        0 <= n < wire(packet).len(),
    ensures
        first_packet(wire(packet).take(n)) == Ok::<Option<(Packet, nat)>, Error>(None),
{
    let input = wire(packet).take(n);
    if n >= 4 {
        match packet {
            Packet::Data(data) => {
                lemma_hex4(data.len() + 4);
                assert(input.take(4) =~= hex4(data.len() + 4));
            },
            _ => {},
        }
    }
}

fn digit(n: usize) -> (r: u8)
    requires
        n < 16,
    ensures
        r == object::hex_digit(n as int),
{
    if n < 10 {
        48 + n as u8
    } else {
        87 + n as u8
    }
}

fn push_hex4(out: &mut Vec<u8>, n: usize)
    requires
        n < 65536,
    ensures
        final(out)@ == old(out)@ + hex4(n as nat),
{
    out.push(digit(n / 4096 % 16));
    out.push(digit(n / 256 % 16));
    out.push(digit(n / 16 % 16));
    out.push(digit(n % 16));
    assert(out@ =~= old(out)@ + hex4(n as nat));
}

fn hex(byte: u8) -> (r: Option<u8>)
    ensures
        r == object::hex_number(byte),
{
    if 48 <= byte && byte <= 57 {
        Some(byte - 48)
    } else if 97 <= byte && byte <= 102 {
        Some(byte - 87)
    } else if 65 <= byte && byte <= 70 {
        Some(byte - 55)
    } else {
        None
    }
}

/// Reads the four digits at the start.
fn parse_hex_length(header: &[u8]) -> (r: Result<usize>)
    requires
        header@.len() >= 4,
    ensures
        match hex4_value(header@) {
            Some(length) => r is Ok && r->Ok_0 == length && length < 65536,
            None => r == Err::<usize, Error>(Error::Protocol("non-hex pkt-line length")),
        },
{
    let ghost four = header@.take(4);
    let a: usize = match hex(header[0]) {
        Some(a) => a as usize,
        None => {
            assert(object::hex_number(four[0]) is None);
            return Err(Error::Protocol("non-hex pkt-line length"));
        },
    };
    let b: usize = match hex(header[1]) {
        Some(b) => b as usize,
        None => {
            assert(object::hex_number(four[1]) is None);
            return Err(Error::Protocol("non-hex pkt-line length"));
        },
    };
    let c: usize = match hex(header[2]) {
        Some(c) => c as usize,
        None => {
            assert(object::hex_number(four[2]) is None);
            return Err(Error::Protocol("non-hex pkt-line length"));
        },
    };
    let d: usize = match hex(header[3]) {
        Some(d) => d as usize,
        None => {
            assert(object::hex_number(four[3]) is None);
            return Err(Error::Protocol("non-hex pkt-line length"));
        },
    };
    assert(object::all_hex(four)) by {
        assert forall|i: int| 0 <= i < 4 implies object::hex_number(#[trigger] four[i]) is Some by {
            assert(i == 0 || i == 1 || i == 2 || i == 3);
        }
    }
    Ok(a * 4096 + b * 256 + c * 16 + d)
}

/// Looks for a packet at the start of some bytes.
fn probe(input: &[u8]) -> (r: Result<Option<(PktLine, usize)>>)
    ensures
        match first_packet(input@) {
            Ok(Some((packet, length))) => r is Ok && r->Ok_0 is Some && (r->Ok_0->0).0@ == packet
                && (r->Ok_0->0).1 == length && length <= input@.len(),
            Ok(None) => r is Ok && r->Ok_0 is None,
            Err(error) => r is Err && r->Err_0 == error,
        },
{
    if input.len() < 4 {
        return Ok(None);
    }
    let length: usize = parse_hex_length(input)?;
    if length == 0 {
        Ok(Some((PktLine::Flush, 4)))
    } else if length == 1 {
        Ok(Some((PktLine::Delimiter, 4)))
    } else if length == 2 {
        Ok(Some((PktLine::ResponseEnd, 4)))
    } else if length == 3 {
        Err(Error::Protocol("reserved pkt-line length 0003"))
    } else if length > MAX_PACKET_LEN {
        Err(Error::Protocol("pkt-line length exceeds the maximum"))
    } else if input.len() < length {
        Ok(None)
    } else {
        Ok(Some((PktLine::Data(bytes::copy_range(input, 4, length)), length)))
    }
}

impl PktLine {
    /// Decodes the packet at the start of `input` and counts the bytes used.
    pub fn decode(input: &[u8]) -> (r: Result<(Self, usize)>)
        ensures
            match first_packet(input@) {
                Ok(Some((packet, length))) => r is Ok && r->Ok_0.0@ == packet && r->Ok_0.1 == length,
                Ok(None) => r is Err && r->Err_0 == Error::Protocol("truncated pkt-line"),
                Err(error) => r is Err && r->Err_0 == error,
            },
    {
        match probe(input)? {
            Some(found) => Ok(found),
            None => Err(Error::Protocol("truncated pkt-line")),
        }
    }

    /// Encodes this packet.
    pub fn encode(&self) -> (r: Result<Vec<u8>>)
        ensures
            if fits(self@) {
                r is Ok && r->Ok_0@ == wire(self@)
            } else {
                r == Err::<Vec<u8>, Error>(Error::Protocol("pkt-line payload exceeds the maximum"))
            },
    {
        let mut out: Vec<u8> = Vec::new();
        match self {
            PktLine::Flush => {
                push_hex4(&mut out, 0);
            },
            PktLine::Delimiter => {
                push_hex4(&mut out, 1);
            },
            PktLine::ResponseEnd => {
                push_hex4(&mut out, 2);
            },
            PktLine::Data(data) => {
                if data.len() > MAX_PACKET_DATA_LEN {
                    return Err(Error::Protocol("pkt-line payload exceeds the maximum"));
                }
                push_hex4(&mut out, data.len() + 4);
                bytes::append(&mut out, data.as_slice());
            },
        }
        assert(out@ =~= wire(self@));
        Ok(out)
    }
}

/// Decodes packets that arrive in arbitrary pieces.
#[derive(PartialEq, Eq, Debug)]
pub struct PktLineDecoder {
    buffer: Vec<u8>,
    cursor: usize,
}

impl View for PktLineDecoder {
    type V = Seq<u8>;

    /// The bytes that wait to be decoded.
    closed spec fn view(&self) -> Seq<u8> {
        self.buffer@.skip(self.cursor as int)
    }
}

impl Clone for PktLineDecoder {
    fn clone(&self) -> (r: Self)
        ensures
            r@ == self@,
    {
        proof {
            use_type_invariant(self);
        }
        PktLineDecoder { buffer: bytes::to_vec(self.buffer.as_slice()), cursor: self.cursor }
    }
}

impl Default for PktLineDecoder {
    fn default() -> (r: Self)
        ensures
            r@ == Seq::<u8>::empty(),
    {
        PktLineDecoder::new()
    }
}

impl PktLineDecoder {
    #[verifier::type_invariant]
    spec fn inv(self) -> bool {
        self.cursor <= self.buffer@.len()
    }

    pub fn new() -> (r: Self)
        ensures
            r@ == Seq::<u8>::empty(),
    {
        let r = PktLineDecoder { buffer: Vec::new(), cursor: 0 };
        assert(r@ =~= Seq::<u8>::empty());
        r
    }

    /// Adds bytes that arrived.
    pub fn extend(&mut self, more: &[u8])
        ensures
            final(self)@ == old(self)@ + more@,
    {
        proof {
            use_type_invariant(&*self);
        }
        let mut buffer = bytes::copy_range(self.buffer.as_slice(), self.cursor, self.buffer.len());
        bytes::append(&mut buffer, more);
        *self = PktLineDecoder { buffer, cursor: 0 };
        assert(self@ =~= old(self)@ + more@);
    }

    /// Gives the next complete packet, or `None` when more bytes are needed.
    pub fn next_packet(&mut self) -> (r: Result<Option<PktLine>>)
        ensures
            match first_packet(old(self)@) {
                Ok(Some((packet, length))) => r is Ok && r->Ok_0 is Some && r->Ok_0->0@ == packet
                    && final(self)@ == old(self)@.skip(length as int),
                Ok(None) => r is Ok && r->Ok_0 is None && final(self)@ == old(self)@,
                Err(error) => r is Err && r->Err_0 == error && final(self)@ == old(self)@,
            },
    {
        proof {
            use_type_invariant(&*self);
        }
        let waiting = bytes::copy_range(self.buffer.as_slice(), self.cursor, self.buffer.len());
        assert(waiting@ =~= self@);
        match probe(waiting.as_slice())? {
            None => Ok(None),
            Some((packet, length)) => {
                self.cursor = self.cursor + length;
                assert(self@ =~= old(self)@.skip(length as int));
                Ok(Some(packet))
            },
        }
    }

    /// Confirms that nothing is left when the input ends.
    pub fn finish(self) -> (r: Result<()>)
        ensures
            r == (if self@.len() == 0 {
                Ok::<(), Error>(())
            } else {
                Err(Error::Protocol("truncated pkt-line at end of input"))
            }),
    {
        proof {
            use_type_invariant(&self);
        }
        if self.cursor == self.buffer.len() {
            Ok(())
        } else {
            Err(Error::Protocol("truncated pkt-line at end of input"))
        }
    }
}

/// A decoded sideband payload.
#[derive(Clone, PartialEq, Eq, Debug)]
pub enum Sideband {
    Data(Vec<u8>),
    Progress(Vec<u8>),
    Error(Vec<u8>),
}

impl View for Sideband {
    type V = (u8, Seq<u8>);

    /// The channel and the payload.
    open spec fn view(&self) -> (u8, Seq<u8>) {
        match self {
            Sideband::Data(payload) => (1, payload@),
            Sideband::Progress(payload) => (2, payload@),
            Sideband::Error(payload) => (3, payload@),
        }
    }
}

/// The data of the packet that carries a sideband payload.
pub open spec fn banded(channel: u8, payload: Seq<u8>) -> Seq<u8> {
    seq![channel] + payload
}

/// What the data of a sideband packet carries, or why it is refused.
pub open spec fn unbanded(data: Seq<u8>) -> core::result::Result<(u8, Seq<u8>), Error> {
    if data.len() == 0 {
        Err(Error::Protocol("empty sideband packet"))
    } else if 1 <= data[0] <= 3 {
        Ok((data[0], data.skip(1)))
    } else {
        Err(Error::Protocol("invalid sideband channel"))
    }
}

/// A payload that was put on a channel comes off the same channel.
pub proof fn lemma_sideband_round_trip(channel: u8, payload: Seq<u8>)
    requires
        1 <= channel <= 3,
    ensures
        unbanded(banded(channel, payload)) == Ok::<(u8, Seq<u8>), Error>((channel, payload)),
{
    assert(banded(channel, payload).skip(1) =~= payload);
}

impl Sideband {
    /// Decodes the channel and the payload of a data packet.
    pub fn decode(data: &[u8]) -> (r: Result<Self>)
        ensures
            match unbanded(data@) {
                Ok(band) => r is Ok && r->Ok_0@ == band,
                Err(error) => r == Err::<Sideband, Error>(error),
            },
    {
        if data.len() == 0 {
            return Err(Error::Protocol("empty sideband packet"));
        }
        let payload = bytes::copy_range(data, 1, data.len());
        assert(payload@ =~= data@.skip(1));
        if data[0] == 1 {
            Ok(Sideband::Data(payload))
        } else if data[0] == 2 {
            Ok(Sideband::Progress(payload))
        } else if data[0] == 3 {
            Ok(Sideband::Error(payload))
        } else {
            Err(Error::Protocol("invalid sideband channel"))
        }
    }

    /// Encodes the channel and the payload as a packet.
    pub fn encode(&self) -> (r: Result<Vec<u8>>)
        ensures
            if fits(Packet::Data(banded(self@.0, self@.1))) {
                r is Ok && r->Ok_0@ == wire(Packet::Data(banded(self@.0, self@.1)))
            } else {
                r == Err::<Vec<u8>, Error>(Error::Protocol("pkt-line payload exceeds the maximum"))
            },
    {
        let (band, payload): (u8, &Vec<u8>) = match self {
            Sideband::Data(payload) => (1, payload),
            Sideband::Progress(payload) => (2, payload),
            Sideband::Error(payload) => (3, payload),
        };
        let mut data: Vec<u8> = Vec::new();
        data.push(band);
        bytes::append(&mut data, payload.as_slice());
        assert(data@ =~= banded(self@.0, self@.1));
        PktLine::Data(data).encode()
    }
}

/// A protocol capability in `name` or `name=value` form.
#[derive(Clone, PartialEq, Eq, Debug)]
pub struct Capability {
    name: String,
    value: Option<String>,
}

impl View for Capability {
    type V = (Seq<u8>, Option<Seq<u8>>);

    /// The name and the value.
    closed spec fn view(&self) -> (Seq<u8>, Option<Seq<u8>>) {
        (
            bytes::utf8(self.name@),
            match self.value {
                Some(value) => Some(bytes::utf8(value@)),
                None => None,
            },
        )
    }
}

/// Names and values of a list of capabilities.
pub open spec fn capability_views(list: Seq<Capability>) -> Seq<(Seq<u8>, Option<Seq<u8>>)> {
    Seq::new(list.len(), |i: int| list[i]@)
}

pub open spec fn is_control(byte: u8) -> bool {
    byte < 32 || byte == 127
}

/// A token that may stand in a capability list.
pub open spec fn sound_token(token: Seq<u8>) -> bool {
    token.len() > 0 && forall|i: int| 0 <= i < token.len() ==> !is_control(#[trigger] token[i])
}

/// The name and the value of a token.
pub open spec fn token_parts(token: Seq<u8>) -> (Seq<u8>, Option<Seq<u8>>) {
    let at = bytes::index_from(token, 61, 0);
    (
        token.take(at),
        if at < token.len() {
            Some(token.skip(at + 1))
        } else {
            None
        },
    )
}

pub open spec fn has_name(list: Seq<(Seq<u8>, Option<Seq<u8>>)>, name: Seq<u8>) -> bool {
    exists|i: int| 0 <= i < list.len() && (#[trigger] list[i]).0 == name
}

/// The capabilities of the first `n` tokens, or why they are refused.
pub open spec fn capabilities_of(tokens: Seq<Seq<u8>>, n: int) -> core::result::Result<
    Seq<(Seq<u8>, Option<Seq<u8>>)>,
    Error,
>
    decreases n,
{
    if n <= 0 {
        Ok(Seq::empty())
    } else {
        match capabilities_of(tokens, n - 1) {
            Err(error) => Err(error),
            Ok(list) => {
                let token = tokens[n - 1];
                let parts = token_parts(token);
                if !sound_token(token) {
                    Err(Error::Protocol("invalid capability token"))
                } else if parts.0.len() == 0 || has_name(list, parts.0) {
                    Err(Error::Protocol("empty or duplicate capability"))
                } else {
                    Ok(list.push(parts))
                }
            },
        }
    }
}

/// The capabilities of a space-separated list, or why it is refused.
pub open spec fn capability_list(data: Seq<u8>) -> core::result::Result<
    Seq<(Seq<u8>, Option<Seq<u8>>)>,
    Error,
> {
    if exists|i: int| 0 <= i < data.len() && #[trigger] data[i] >= 128 {
        Err(Error::Protocol("capabilities are not ASCII"))
    } else if data.len() == 0 {
        Ok(Seq::empty())
    } else {
        capabilities_of(bytes::split(data, 32), bytes::split(data, 32).len() as int)
    }
}

/// Once some tokens are refused, more tokens do not mend it.
proof fn lemma_capabilities_err(tokens: Seq<Seq<u8>>, i: int, n: int)
    requires
        0 <= i <= n,
        capabilities_of(tokens, i) is Err,
    ensures
        capabilities_of(tokens, n) == capabilities_of(tokens, i),
    decreases n,
{
    if i < n {
        lemma_capabilities_err(tokens, i, n - 1);
    }
}

/// Every capability of an accepted list has a name, and no two have the same.
pub proof fn lemma_capability_names(tokens: Seq<Seq<u8>>, n: int)
    requires
        0 <= n <= tokens.len(),
        capabilities_of(tokens, n) is Ok,
    ensures
        capabilities_of(tokens, n)->Ok_0.len() == n,
        forall|i: int|
            0 <= i < n ==> (#[trigger] capabilities_of(tokens, n)->Ok_0[i]).0.len() > 0
                && capabilities_of(tokens, n)->Ok_0[i] == token_parts(tokens[i]),
        forall|i: int, j: int|
            0 <= i < j < n ==> (#[trigger] capabilities_of(tokens, n)->Ok_0[i]).0 != (
            #[trigger] capabilities_of(tokens, n)->Ok_0[j]).0,
    decreases n,
{
    if n > 0 {
        lemma_capability_names(tokens, n - 1);
    }
}

fn is_ascii(data: &[u8]) -> (r: bool)
    ensures
        r == !(exists|i: int| 0 <= i < data@.len() && #[trigger] data@[i] >= 128),
{
    let mut i: usize = 0;
    while i < data.len()
        invariant
            i <= data@.len(),
            forall|j: int| 0 <= j < i ==> #[trigger] data@[j] < 128,
        decreases data@.len() - i,
    {
        if data[i] >= 128 {
            assert(data@[i as int] >= 128);
            return false;
        }
        i += 1;
    }
    true
}

fn is_sound(token: &[u8]) -> (r: bool)
    ensures
        r == sound_token(token@),
{
    if token.len() == 0 {
        return false;
    }
    let mut i: usize = 0;
    while i < token.len()
        invariant
            i <= token@.len(),
            forall|j: int| 0 <= j < i ==> !is_control(#[trigger] token@[j]),
        decreases token@.len() - i,
    {
        if token[i] < 32 || token[i] == 127 {
            assert(is_control(token@[i as int]));
            return false;
        }
        i += 1;
    }
    true
}

/// The text of ASCII bytes.
fn ascii_text(data: &[u8]) -> (r: String)
    requires
        forall|i: int| 0 <= i < data@.len() ==> #[trigger] data@[i] < 128,
    ensures
        bytes::utf8(r@) == data@,
{
    proof {
        object::lemma_ascii_is_text(data@);
    }
    match bytes::text_of(data) {
        Some(text) => text.to_owned(),
        None => String::new(),
    }
}

impl Capability {
    /// Parses a space-separated capability list.
    pub fn parse_list(data: &[u8]) -> (r: Result<Vec<Self>>)
        ensures
            match capability_list(data@) {
                Ok(list) => r is Ok && capability_views(r->Ok_0@) == list,
                Err(error) => r is Err && r->Err_0 == error,
            },
    {
        if !is_ascii(data) {
            return Err(Error::Protocol("capabilities are not ASCII"));
        }
        let mut list: Vec<Capability> = Vec::new();
        assert(capability_views(list@) =~= Seq::empty());
        if data.len() == 0 {
            return Ok(list);
        }
        let tokens = bytes::split_on(data, 32);
        let ghost all = bytes::deep(tokens@);
        proof {
            lemma_split_ascii(data@, 32);
        }
        let mut i: usize = 0;
        while i < tokens.len()
            invariant
                i <= tokens@.len(),
                all == bytes::deep(tokens@),
                all == bytes::split(data@, 32),
                data@.len() > 0,
                !(exists|i: int| 0 <= i < data@.len() && #[trigger] data@[i] >= 128),
                forall|k: int, j: int|
                    0 <= k < all.len() && 0 <= j < all[k].len() ==> #[trigger] all[k][j] < 128,
                capabilities_of(all, i as int) == Ok::<Seq<(Seq<u8>, Option<Seq<u8>>)>, Error>(
                    capability_views(list@),
                ),
            decreases tokens@.len() - i,
        {
            let token = tokens[i].as_slice();
            assert(token@ == all[i as int]);
            assert(forall|j: int| 0 <= j < token@.len() ==> #[trigger] token@[j] < 128);
            let ghost views = capability_views(list@);
            if !is_sound(token) {
                proof {
                    lemma_capabilities_err(all, i + 1, all.len() as int);
                }
                return Err(Error::Protocol("invalid capability token"));
            }
            let at: usize = bytes::find_byte(token, 61, 0);
            let name = &token[0..at];
            assert(name@ =~= token@.take(at as int));
            let mut taken = name.len() == 0;
            let mut k: usize = 0;
            while k < list.len()
                invariant
                    k <= list@.len(),
                    views == capability_views(list@),
                    taken == (name@.len() == 0 || exists|j: int|
                        0 <= j < k && (#[trigger] views[j]).0 == name@),
                decreases list@.len() - k,
            {
                assert(views[k as int].0 == bytes::utf8(list@[k as int].name@));
                if bytes::bytes_eq(list[k].name.as_str().as_bytes(), name) {
                    taken = true;
                }
                k += 1;
            }
            if taken {
                assert(name@.len() == 0 || has_name(views, name@));
                proof {
                    lemma_capabilities_err(all, i + 1, all.len() as int);
                }
                return Err(Error::Protocol("empty or duplicate capability"));
            }
            assert(!has_name(views, name@));
            let value = if at < token.len() {
                let tail = &token[at + 1..token.len()];
                assert(tail@ =~= token@.skip(at + 1));
                Some(ascii_text(tail))
            } else {
                None
            };
            let item = Capability { name: ascii_text(name), value };
            assert(item@ == token_parts(token@));
            list.push(item);
            assert(capability_views(list@) =~= views.push(token_parts(token@)));
            i += 1;
        }
        Ok(list)
    }

    pub fn name(&self) -> (r: &str)
        ensures
            bytes::utf8(r@) == self@.0,
    {
        self.name.as_str()
    }

    pub fn value(&self) -> (r: Option<&str>)
        ensures
            match r {
                Some(value) => self@.1 == Some(bytes::utf8(value@)),
                None => self@.1 is None,
            },
    {
        match &self.value {
            Some(value) => Some(value.as_str()),
            None => None,
        }
    }
}

/// The parts of an ASCII text are ASCII.
pub proof fn lemma_split_ascii(s: Seq<u8>, separator: u8)
    requires
        !(exists|i: int| 0 <= i < s.len() && #[trigger] s[i] >= 128),
    ensures
        forall|k: int, j: int|
            0 <= k < bytes::split(s, separator).len() && 0 <= j < bytes::split(s, separator)[k].len()
                ==> #[trigger] bytes::split(s, separator)[k][j] < 128,
    decreases s.len(),
{
    let at = bytes::index_from(s, separator, 0);
    bytes::lemma_index_from(s, separator, 0);
    let all = bytes::split(s, separator);
    if at < s.len() {
        let rest = s.skip(at + 1);
        lemma_split_ascii(rest, separator);
        assert forall|k: int, j: int| 0 <= k < all.len() && 0 <= j < all[k].len() implies
            #[trigger] all[k][j] < 128 by {
            if k == 0 {
                assert(all[0] == s.take(at));
                assert(all[0][j] == s[j]);
            } else {
                assert(all[k] == bytes::split(rest, separator)[k - 1]);
            }
        }
    } else {
        assert(all =~= seq![s]);
    }
}

// ---------------------------------------------------------------------------
// Packets in pieces

/// What taking packets off some bytes gives until more are needed or one is
/// refused: the packets, the bytes that are left, and why it stopped.
#[verifier::ext_equal]
pub struct Drained {
    pub packets: Seq<Packet>,
    pub left: Seq<u8>,
    pub error: Option<Error>,
}

pub open spec fn drained(input: Seq<u8>) -> Drained
    decreases input.len(),
{
    match first_packet(input) {
        Err(error) => Drained { packets: Seq::empty(), left: input, error: Some(error) },
        Ok(None) => Drained { packets: Seq::empty(), left: input, error: None },
        Ok(Some((packet, length))) => if length == 0 || length > input.len() {
            Drained { packets: Seq::empty(), left: input, error: None }
        } else {
            let rest = drained(input.skip(length as int));
            Drained { packets: seq![packet] + rest.packets, left: rest.left, error: rest.error }
        },
    }
}

/// What a decoder gives that takes packets off after each of the first `n`
/// pieces.
pub open spec fn fed(pieces: Seq<Seq<u8>>, n: int) -> Drained
    decreases n,
{
    if n <= 0 {
        Drained { packets: Seq::empty(), left: Seq::empty(), error: None }
    } else {
        let before = fed(pieces, n - 1);
        if before.error is Some {
            Drained { left: before.left + pieces[n - 1], ..before }
        } else {
            let more = drained(before.left + pieces[n - 1]);
            Drained { packets: before.packets + more.packets, left: more.left, error: more.error }
        }
    }
}

proof fn lemma_decided_by_prefix(a: Seq<u8>, b: Seq<u8>)
    requires
        first_packet(a) != Ok::<Option<(Packet, nat)>, Error>(None),
    ensures
        first_packet(a + b) == first_packet(a),
        first_packet(a) matches Ok(Some((packet, length))) ==> 0 < length <= a.len(),
{
    assert((a + b).take(4) =~= a.take(4));
    assert((a + b)[0] == a[0] && (a + b)[1] == a[1] && (a + b)[2] == a[2] && (a + b)[3] == a[3]);
    assert(hex4_value(a + b) == hex4_value(a));
    if hex4_value(a) is Some {
        let length = hex4_value(a)->0;
        if 4 <= length <= a.len() {
            assert((a + b).subrange(4, length as int) =~= a.subrange(4, length as int));
        }
    }
}

proof fn lemma_drained_in_two(a: Seq<u8>, b: Seq<u8>)
    ensures
        ({
            let one = drained(a);
            let two = drained(one.left + b);
            drained(a + b) == if one.error is Some {
                Drained { left: one.left + b, ..one }
            } else {
                Drained { packets: one.packets + two.packets, left: two.left, error: two.error }
            }
        }),
    decreases a.len(),
{
    if first_packet(a) != Ok::<Option<(Packet, nat)>, Error>(None) {
        lemma_decided_by_prefix(a, b);
        if first_packet(a) is Ok {
            let (packet, length) = (first_packet(a)->Ok_0)->0;
            let rest = a.skip(length as int);
            lemma_drained_in_two(rest, b);
            assert((a + b).skip(length as int) =~= rest + b);
            let tail = drained(rest);
            let more = drained(tail.left + b);
            assert(seq![packet] + (tail.packets + more.packets) =~= (seq![packet] + tail.packets)
                + more.packets);
        }
    } else {
        let two = drained(a + b);
        assert(Seq::<Packet>::empty() + two.packets =~= two.packets);
    }
}

/// However a stream is cut into pieces, a decoder gives the same packets, is
/// left with the same bytes and refuses it for the same reason.
pub proof fn lemma_pieces_do_not_matter(pieces: Seq<Seq<u8>>, n: int)
    requires
        0 <= n <= pieces.len(),
    ensures
        fed(pieces, n) == drained(bytes::flat(pieces.take(n))),
    decreases n,
{
    if n > 0 {
        lemma_pieces_do_not_matter(pieces, n - 1);
        assert(pieces.take(n).drop_last() =~= pieces.take(n - 1));
        assert(pieces.take(n).last() == pieces[n - 1]);
        lemma_drained_in_two(bytes::flat(pieces.take(n - 1)), pieces[n - 1]);
        assert(bytes::flat(pieces.take(n)) =~= bytes::flat(pieces.take(n - 1)) + pieces[n - 1]);
    } else {
        assert(bytes::flat(pieces.take(n)) =~= Seq::empty());
    }
}

} // verus!
