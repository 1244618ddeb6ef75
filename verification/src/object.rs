//! Git object identifiers and the framing of objects.

use vstd::prelude::*;

use crate::bytes;
use crate::sha1;
use crate::zlib;
use crate::{Error, Result};

verus! {

/// A SHA-1 object identifier used by repository format version 0.
#[derive(Clone, Copy, PartialEq, Eq, PartialOrd, Ord, Hash, Debug)]
pub struct ObjectId([u8; 20]);

impl View for ObjectId {
    type V = Seq<u8>;

    closed spec fn view(&self) -> Seq<u8> {
        self.0@
    }
}

/// The lower-case hexadecimal digit of a number below sixteen.
pub open spec fn hex_digit(n: int) -> u8 {
    if n < 10 {
        (48 + n) as u8
    } else {
        (87 + n) as u8
    }
}

/// The number that a hexadecimal digit of either case denotes.
pub open spec fn hex_number(byte: u8) -> Option<u8> {
    if 48 <= byte <= 57 {
        Some((byte - 48) as u8)
    } else if 97 <= byte <= 102 {
        Some((byte - 87) as u8)
    } else if 65 <= byte <= 70 {
        Some((byte - 55) as u8)
    } else {
        None
    }
}

/// Two lower-case hexadecimal digits for every byte.
pub open spec fn hex_of(s: Seq<u8>) -> Seq<u8> {
    Seq::new(
        2 * s.len(),
        |i: int|
            if i % 2 == 0 {
                hex_digit(s[i / 2] as int / 16)
            } else {
                hex_digit(s[i / 2] as int % 16)
            },
    )
}

pub open spec fn all_hex(s: Seq<u8>) -> bool {
    forall|i: int| 0 <= i < s.len() ==> hex_number(#[trigger] s[i]) is Some
}

/// The bytes that pairs of hexadecimal digits denote.
pub open spec fn unhex(s: Seq<u8>) -> Seq<u8> {
    Seq::new(
        s.len() / 2,
        |i: int| (hex_number(s[2 * i])->0 * 16 + hex_number(s[2 * i + 1])->0) as u8,
    )
}

/// Reading the digits that `hex_of` gives yields the bytes.
pub proof fn lemma_unhex_of_hex(s: Seq<u8>)
    ensures
        all_hex(hex_of(s)),
        unhex(hex_of(s)) == s,
{
    let h = hex_of(s);
    assert forall|i: int| 0 <= i < h.len() implies hex_number(#[trigger] h[i]) is Some by {
        let b = s[i / 2] as int;
        assert(0 <= b / 16 < 16 && 0 <= b % 16 < 16);
    }
    assert forall|i: int| 0 <= i < s.len() implies unhex(h)[i] == s[i] by {
        let b = s[i] as int;
        assert(h[2 * i] == hex_digit(b / 16));
        assert(h[2 * i + 1] == hex_digit(b % 16));
        assert(hex_number(hex_digit(b / 16)) == Some((b / 16) as u8));
        assert(hex_number(hex_digit(b % 16)) == Some((b % 16) as u8));
    }
    assert(unhex(h) =~= s);
}

/// The identifier that a text of forty hexadecimal digits denotes.
pub open spec fn id_of_hex(text: Seq<u8>) -> Option<Seq<u8>> {
    if text.len() == 40 && all_hex(text) {
        Some(unhex(text))
    } else {
        None
    }
}

/// Hexadecimal digits in upper case.
pub open spec fn upper_hex(s: Seq<u8>) -> Seq<u8> {
    Seq::new(
        s.len(),
        |i: int|
            if 97 <= s[i] <= 102 {
                (s[i] - 32) as u8
            } else {
                s[i]
            },
    )
}

/// Reading the digits of an identifier gives the identifier back, whichever
/// case they are in.
pub proof fn lemma_hex_reads_back(id: ObjectId)
    ensures
        id_of_hex(hex_of(id@)) == Some(id@),
        id_of_hex(upper_hex(hex_of(id@))) == Some(id@),
{
    broadcast use ObjectId::lemma_view;

    let h = hex_of(id@);
    let u = upper_hex(h);
    lemma_unhex_of_hex(id@);
    assert(id@.len() == 20);
    assert forall|i: int| 0 <= i < u.len() implies hex_number(#[trigger] u[i]) == hex_number(h[i]) by {
        assert(hex_number(h[i]) is Some);
    }
    assert(unhex(u) =~= unhex(h));
}

pub fn is_all_hex(s: &[u8]) -> (r: bool)
    ensures
        r == all_hex(s@),
{
    let mut i: usize = 0;
    while i < s.len()
        invariant
            i <= s@.len(),
            forall|j: int| 0 <= j < i ==> hex_number(#[trigger] s@[j]) is Some,
        decreases s@.len() - i,
    {
        if hex_value(s[i]).is_none() {
            return false;
        }
        i += 1;
    }
    true
}

fn hex_value(byte: u8) -> (r: Option<u8>)
    ensures
        r == hex_number(byte),
{
    if 48 <= byte && byte <= 57 {
        Some(byte - 48)
    } else if 97 <= byte && byte <= 102 {
        Some(byte - 87)
    } else if 65 <= byte && byte <= 70 {
        Some(byte - 55)
    } else {
        None
    }
}

fn digit_of(n: u8) -> (r: u8)
    requires
        n < 16,
    ensures
        r == hex_digit(n as int),
{
    if n < 10 {
        48 + n
    } else {
        87 + n
    }
}

/// Two lower-case hexadecimal digits for every byte.
pub fn hex_hash(hash: &[u8]) -> (r: Vec<u8>)
    ensures
        r@ == hex_of(hash@),
{
    let mut out: Vec<u8> = Vec::new();
    let mut i: usize = 0;
    while i < hash.len()
        invariant
            i <= hash@.len(),
            out@ == hex_of(hash@.take(i as int)),
        decreases hash@.len() - i,
    {
        out.push(digit_of(hash[i] / 16));
        out.push(digit_of(hash[i] % 16));
        i += 1;
        assert(out@ =~= hex_of(hash@.take(i as int)));
    }
    assert(hash@.take(i as int) =~= hash@);
    out
}

/// The identifier with some bytes.
pub open spec fn id_with(raw: Seq<u8>) -> ObjectId {
    choose|id: ObjectId| #[trigger] id@ == raw
}

/// Twenty bytes make an identifier.
pub proof fn lemma_id_with_len(raw: Seq<u8>)
    requires
        raw.len() == 20,
    ensures
        id_with(raw)@ == raw,
{
    let bytes: [u8; 20] = [
        raw[0], raw[1], raw[2], raw[3], raw[4], raw[5], raw[6], raw[7], raw[8], raw[9],
        raw[10], raw[11], raw[12], raw[13], raw[14], raw[15], raw[16], raw[17], raw[18], raw[19],
    ];
    let id = ObjectId(bytes);
    assert(id@ =~= raw);
}

/// The digits of an identifier are those of twenty bytes.
pub proof fn lemma_id_of_hex_len(text: Seq<u8>)
    ensures
        id_of_hex(text) matches Some(id) ==> id.len() == 20,
{
}

/// The bytes of an identifier determine it.
pub proof fn lemma_id_with(id: ObjectId)
    ensures
        id_with(id@) == id,
{
    let other = id_with(id@);
    assert(other@ == id@);
    ObjectId::lemma_view(other, id);
}

impl ObjectId {
    pub const LENGTH: usize = 20;

    pub const HEX_LENGTH: usize = 40;

    /// Every identifier has twenty bytes, and these bytes determine it.
    pub broadcast proof fn lemma_view(a: ObjectId, b: ObjectId)
        ensures
            #![trigger a@, b@]
            a@.len() == 20,
            a@ == b@ ==> a == b,
    {
        if a@ == b@ {
            assert(a.0 =~= b.0);
        }
    }

    /// The identifier of twenty zero bytes.
    pub fn null() -> (r: Self)
        ensures
            r@ == Seq::new(20, |i: int| 0u8),
    {
        let r = ObjectId([0; 20]);
        assert(r@ =~= Seq::new(20, |i: int| 0u8));
        r
    }

    pub fn from_bytes(bytes: [u8; 20]) -> (r: Self)
        ensures
            r@ == bytes@,
    {
        ObjectId(bytes)
    }

    /// The identifier of the twenty bytes at `at`.
    pub fn read(data: &[u8], at: usize) -> (r: Self)
        requires
            at + 20 <= data@.len(),
        ensures
            r@ == data@.subrange(at as int, at + 20),
    {
        let mut raw: [u8; 20] = [0; 20];
        let mut n: usize = 0;
        while n < 20
            invariant
                n <= 20,
                at + 20 <= data@.len(),
                forall|j: int| 0 <= j < n ==> raw@[j] == data@[at + j],
            decreases 20 - n,
        {
            assert(data.len() <= usize::MAX);
            raw[n] = data[at + n];
            n += 1;
        }
        let r = ObjectId(raw);
        assert(r@ =~= data@.subrange(at as int, at + 20));
        r
    }

    pub fn as_bytes(&self) -> (r: &[u8; 20])
        ensures
            r@ == self@,
    {
        &self.0
    }

    pub fn is_null(&self) -> (r: bool)
        ensures
            r == (self@ == Seq::new(20, |i: int| 0u8)),
    {
        let mut i: usize = 0;
        while i < 20
            invariant
                i <= 20,
                forall|j: int| 0 <= j < i ==> self.0@[j] == 0,
            decreases 20 - i,
        {
            if self.0[i] != 0 {
                assert(self@[i as int] != Seq::new(20, |i: int| 0u8)[i as int]);
                return false;
            }
            i += 1;
        }
        assert(self@ =~= Seq::new(20, |i: int| 0u8));
        true
    }

    /// Whether two identifiers are the same.
    pub fn same(&self, other: &ObjectId) -> (r: bool)
        ensures
            r == (self == other),
            r == (self@ == other@),
    {
        broadcast use ObjectId::lemma_view;

        bytes::bytes_eq(self.0.as_slice(), other.0.as_slice())
    }

    /// Whether this identifier sorts before another.
    pub fn before(&self, other: &ObjectId) -> (r: bool)
        ensures
            r == bytes::lex_lt(self@, other@),
    {
        bytes::bytes_lt(self.0.as_slice(), other.0.as_slice())
    }

    /// The forty lower-case hexadecimal digits.
    pub fn to_hex(self) -> (r: [u8; 40])
        ensures
            r@ == hex_of(self@),
    {
        let digits = hex_hash(self.0.as_slice());
        let mut r: [u8; 40] = [0; 40];
        let mut i: usize = 0;
        while i < 40
            invariant
                i <= 40,
                digits@.len() == 40,
                forall|j: int| 0 <= j < i ==> r@[j] == digits@[j],
            decreases 40 - i,
        {
            r[i] = digits[i];
            i += 1;
        }
        assert(r@ =~= digits@);
        r
    }

    /// The forty lower-case hexadecimal digits as text.
    pub fn to_string(&self) -> (r: String)
        ensures
            bytes::utf8(r@) == hex_of(self@),
    {
        let digits = hex_hash(self.0.as_slice());
        proof {
            lemma_hex_is_text(self@);
        }
        match bytes::text_of(digits.as_slice()) {
            Some(text) => text.to_owned(),
            None => String::new(),
        }
    }

    /// Reads forty hexadecimal digits of either case.
    pub fn from_hex(text: &[u8]) -> (r: Result<Self>)
        ensures
            match id_of_hex(text@) {
                Some(id) => r is Ok && r->Ok_0@ == id,
                None => r is Err && r->Err_0 is InvalidObjectId && r->Err_0->InvalidObjectId_0@
                    == text@,
            },
    {
        if text.len() != 40 {
            return Err(Error::InvalidObjectId(bytes::to_vec(text)));
        }
        let mut raw: [u8; 20] = [0; 20];
        let mut i: usize = 0;
        while i < 20
            invariant
                i <= 20,
                text@.len() == 40,
                forall|j: int| 0 <= j < 2 * i ==> hex_number(#[trigger] text@[j]) is Some,
                forall|j: int| 0 <= j < i ==> raw@[j] == unhex(text@)[j],
            decreases 20 - i,
        {
            let high = match hex_value(text[2 * i]) {
                Some(value) => value,
                None => {
                    assert(!all_hex(text@));
                    return Err(Error::InvalidObjectId(bytes::to_vec(text)));
                },
            };
            let low = match hex_value(text[2 * i + 1]) {
                Some(value) => value,
                None => {
                    assert(!all_hex(text@));
                    return Err(Error::InvalidObjectId(bytes::to_vec(text)));
                },
            };
            assert(hex_number(text@[2 * i as int]) == Some(high));
            assert(hex_number(text@[2 * i + 1]) == Some(low));
            raw[i] = high * 16 + low;
            i += 1;
        }
        let r = ObjectId(raw);
        assert(r@ =~= unhex(text@));
        Ok(r)
    }

    /// Computes the identifier of an object without storing it.
    pub fn compute(kind: ObjectKind, data: &[u8]) -> (r: Self)
        ensures
            r@ == object_id(kind, data@),
    {
        let encoded = encode_object(kind, data);
        ObjectId(sha1::digest(encoded.as_slice()))
    }
}

/// Bytes below 128 are well-formed UTF-8.
pub proof fn lemma_ascii_is_text(s: Seq<u8>)
    requires
        forall|i: int| 0 <= i < s.len() ==> #[trigger] s[i] < 128,
    ensures
        vstd::utf8::valid_utf8(s),
    decreases s.len(),
{
    if s.len() > 0 {
        let b = s[0];
        assert(b < 128 ==> ((b & 0x7f) as u32) < 128) by (bit_vector);
        assert(vstd::utf8::valid_first_scalar(s));
        let rest = vstd::utf8::pop_first_scalar(s);
        assert(rest =~= s.skip(1));
        lemma_ascii_is_text(rest);
    }
}

pub proof fn lemma_hex_is_text(s: Seq<u8>)
    ensures
        vstd::utf8::valid_utf8(hex_of(s)),
{
    let h = hex_of(s);
    assert forall|i: int| 0 <= i < h.len() implies #[trigger] h[i] < 128 by {
        let b = s[i / 2] as int;
        assert(0 <= b / 16 < 16 && 0 <= b % 16 < 16);
    }
    lemma_ascii_is_text(h);
}

impl core::str::FromStr for ObjectId {
    type Err = Error;

    fn from_str(text: &str) -> (r: core::result::Result<Self, Error>)
        ensures
            match id_of_hex(bytes::utf8(text@)) {
                Some(id) => r is Ok && r->Ok_0@ == id,
                None => match r {
                    Err(Error::InvalidObjectId(shown)) => shown@ == bytes::utf8(text@),
                    _ => false,
                },
            },
    {
        ObjectId::from_hex(text.as_bytes())
    }
}

#[derive(Clone, Copy, PartialEq, Eq, Hash, Debug, Structural)]
pub enum ObjectKind {
    Blob,
    Tree,
    Commit,
    Tag,
}

/// The name of an object kind.
pub open spec fn kind_name(kind: ObjectKind) -> Seq<u8> {
    match kind {
        ObjectKind::Blob => bytes::utf8("blob"@),
        ObjectKind::Tree => bytes::utf8("tree"@),
        ObjectKind::Commit => bytes::utf8("commit"@),
        ObjectKind::Tag => bytes::utf8("tag"@),
    }
}

/// The kind that a name denotes.
pub open spec fn kind_of_name(name: Seq<u8>) -> Option<ObjectKind> {
    if name == kind_name(ObjectKind::Blob) {
        Some(ObjectKind::Blob)
    } else if name == kind_name(ObjectKind::Tree) {
        Some(ObjectKind::Tree)
    } else if name == kind_name(ObjectKind::Commit) {
        Some(ObjectKind::Commit)
    } else if name == kind_name(ObjectKind::Tag) {
        Some(ObjectKind::Tag)
    } else {
        None
    }
}

/// The four names are letters and differ from one another.
pub proof fn lemma_kind_names(kind: ObjectKind)
    ensures
        kind_of_name(kind_name(kind)) == Some(kind),
        3 <= kind_name(kind).len() <= 6,
        forall|i: int| 0 <= i < kind_name(kind).len() ==> 97 <= #[trigger] kind_name(kind)[i] <= 122,
{
    reveal_strlit("blob");
    reveal_strlit("tree");
    reveal_strlit("commit");
    reveal_strlit("tag");
    bytes::lemma_ascii("blob"@);
    bytes::lemma_ascii("tree"@);
    bytes::lemma_ascii("commit"@);
    bytes::lemma_ascii("tag"@);
    assert(kind_name(ObjectKind::Blob)[0] == 98);
    assert(kind_name(ObjectKind::Tree)[0] == 116);
}

impl ObjectKind {
    pub fn as_bytes(self) -> (r: &'static [u8])
        ensures
            r@ == kind_name(self),
    {
        match self {
            ObjectKind::Blob => "blob".as_bytes(),
            ObjectKind::Tree => "tree".as_bytes(),
            ObjectKind::Commit => "commit".as_bytes(),
            ObjectKind::Tag => "tag".as_bytes(),
        }
    }

    /// Reads the name of a kind.
    pub fn parse(value: &[u8]) -> (r: Result<Self>)
        ensures
            match kind_of_name(value@) {
                Some(kind) => r == Ok::<ObjectKind, Error>(kind),
                None => r == Err::<ObjectKind, Error>(Error::InvalidObject("unknown type")),
            },
    {
        if bytes::bytes_eq(value, "blob".as_bytes()) {
            Ok(ObjectKind::Blob)
        } else if bytes::bytes_eq(value, "tree".as_bytes()) {
            Ok(ObjectKind::Tree)
        } else if bytes::bytes_eq(value, "commit".as_bytes()) {
            Ok(ObjectKind::Commit)
        } else if bytes::bytes_eq(value, "tag".as_bytes()) {
            Ok(ObjectKind::Tag)
        } else {
            Err(Error::InvalidObject("unknown type"))
        }
    }
}

/// An object's kind and contents.
#[derive(Clone, PartialEq, Eq, Debug)]
pub struct Object {
    kind: ObjectKind,
    data: Vec<u8>,
}

impl View for Object {
    type V = (ObjectKind, Seq<u8>);

    closed spec fn view(&self) -> (ObjectKind, Seq<u8>) {
        (self.kind, self.data@)
    }
}

impl Object {
    pub fn from_parts(kind: ObjectKind, data: Vec<u8>) -> (r: Self)
        ensures
            r@ == (kind, data@),
    {
        Object { kind, data }
    }

    pub fn kind(&self) -> (r: ObjectKind)
        ensures
            r == self@.0,
    {
        self.kind
    }

    pub fn data(&self) -> (r: &[u8])
        ensures
            r@ == self@.1,
    {
        self.data.as_slice()
    }

    pub fn into_data(self) -> (r: Vec<u8>)
        ensures
            r@ == self@.1,
    {
        self.data
    }
}

/// An object with its header: kind, size in decimal, and a zero byte.
pub open spec fn framed(kind: ObjectKind, data: Seq<u8>) -> Seq<u8> {
    kind_name(kind) + seq![32u8] + bytes::decimal(data.len()) + seq![0u8] + data
}

/// The identifier of an object.
pub open spec fn object_id(kind: ObjectKind, data: Seq<u8>) -> Seq<u8> {
    sha1::sha1(framed(kind, data))
}

/// A size is canonical decimal: digits, without a leading zero.
pub open spec fn canonical_size(text: Seq<u8>) -> bool {
    text.len() > 0 && bytes::all_digits(text) && (text.len() > 1 ==> text[0] != 48)
}

/// What a framed object holds, or why it is refused.
pub open spec fn unframed(encoded: Seq<u8>, limit: nat) -> core::result::Result<
    (ObjectKind, Seq<u8>),
    Error,
> {
    let nul = bytes::index_from(encoded, 0, 0);
    let header = encoded.take(nul);
    let space = bytes::index_from(header, 32, 0);
    let size = header.skip(space + 1);
    if nul >= encoded.len() {
        Err(Error::InvalidObject("missing header terminator"))
    } else if space >= header.len() {
        Err(Error::InvalidObject("missing type/size separator"))
    } else if kind_of_name(header.take(space)) is None {
        Err(Error::InvalidObject("unknown type"))
    } else if !vstd::utf8::valid_utf8(size) {
        Err(Error::InvalidObject("size is not ASCII"))
    } else if !canonical_size(size) {
        Err(Error::InvalidObject("non-canonical object size"))
    } else if bytes::decimal_value(size) > u64::MAX {
        Err(Error::InvalidObject("object size overflows u64"))
    } else if bytes::decimal_value(size) > limit {
        Err(
            Error::ObjectTooLarge {
                declared: bytes::decimal_value(size) as u64,
                limit: limit as usize,
            },
        )
    } else if bytes::decimal_value(size) != encoded.len() - nul - 1 {
        Err(Error::InvalidObject("declared size differs from actual size"))
    } else {
        Ok((kind_of_name(header.take(space))->0, encoded.skip(nul + 1)))
    }
}

/// Taking the header off a framed object gives the object back, where its
/// size is within the limit.
pub proof fn lemma_unframe_of_frame(kind: ObjectKind, data: Seq<u8>, limit: nat)
    requires
        data.len() <= limit,
        data.len() <= u64::MAX,
    ensures
        unframed(framed(kind, data), limit) == Ok::<(ObjectKind, Seq<u8>), Error>((kind, data)),
{
    let name = kind_name(kind);
    let size = bytes::decimal(data.len());
    let all = framed(kind, data);
    let nul = (name.len() + 1 + size.len()) as int;
    lemma_kind_names(kind);
    bytes::lemma_decimal(data.len());
    assert forall|i: int| 0 <= i < nul implies all[i] != 0 by {
        if i < name.len() {
            assert(all[i] == name[i]);
        } else if i > name.len() {
            assert(all[i] == size[i - name.len() - 1]);
            assert(bytes::is_digit(size[i - name.len() - 1]));
        }
    }
    assert(all[nul] == 0);
    bytes::lemma_index_from_is(all, 0, 0, nul);
    let header = all.take(nul);
    assert(header =~= name + seq![32u8] + size);
    assert forall|i: int| 0 <= i < name.len() implies header[i] != 32 by {
        assert(header[i] == name[i]);
    }
    bytes::lemma_index_from_is(header, 32, 0, name.len() as int);
    assert(header.take(name.len() as int) =~= name);
    assert(header.skip(name.len() as int + 1) =~= size);
    assert forall|i: int| 0 <= i < size.len() implies #[trigger] size[i] < 128 by {
        assert(bytes::is_digit(size[i]));
    }
    lemma_ascii_is_text(size);
    assert(all.skip(nul + 1) =~= data);
}

/// Puts the header in front of an object's contents.
pub fn encode_object(kind: ObjectKind, data: &[u8]) -> (r: Vec<u8>)
    ensures
        r@ == framed(kind, data@),
{
    let mut encoded: Vec<u8> = Vec::new();
    bytes::append(&mut encoded, kind.as_bytes());
    encoded.push(32);
    bytes::push_decimal(&mut encoded, data.len() as u64);
    encoded.push(0);
    bytes::append(&mut encoded, data);
    assert(encoded@ =~= framed(kind, data@));
    encoded
}

/// Takes the header off a framed object.
pub fn decode_object(encoded: &[u8], max_size: usize) -> (r: Result<Object>)
    ensures
        match unframed(encoded@, max_size as nat) {
            Ok(object) => r is Ok && r->Ok_0@ == object,
            Err(error) => r == Err::<Object, Error>(error),
        },
{
    let nul: usize = bytes::find_byte(encoded, 0, 0);
    if nul == encoded.len() {
        return Err(Error::InvalidObject("missing header terminator"));
    }
    let header = &encoded[0..nul];
    assert(header@ =~= encoded@.take(nul as int));
    let space: usize = bytes::find_byte(header, 32, 0);
    if space == header.len() {
        return Err(Error::InvalidObject("missing type/size separator"));
    }
    let name = &header[0..space];
    assert(name@ =~= header@.take(space as int));
    let kind = match ObjectKind::parse(name) {
        Ok(kind) => kind,
        Err(error) => return Err(error),
    };
    let size = &header[space + 1..header.len()];
    assert(size@ =~= header@.skip(space + 1));
    if bytes::text_of(size).is_none() {
        return Err(Error::InvalidObject("size is not ASCII"));
    }
    if size.len() == 0 || (size.len() > 1 && size[0] == 48) || !bytes::is_all_digits(size) {
        return Err(Error::InvalidObject("non-canonical object size"));
    }
    let declared: u64 = match bytes::parse_decimal(size) {
        Some(declared) => declared,
        None => return Err(Error::InvalidObject("object size overflows u64")),
    };
    if declared > max_size as u64 {
        return Err(Error::ObjectTooLarge { declared, limit: max_size });
    }
    let actual: usize = encoded.len() - nul - 1;
    if actual as u64 != declared {
        return Err(Error::InvalidObject("declared size differs from actual size"));
    }
    let data = bytes::copy_range(encoded, nul + 1, encoded.len());
    assert(data@ =~= encoded@.skip(nul + 1));
    Ok(Object { kind, data })
}

/// Where a loose object is stored: `objects`, two digits, thirty-eight digits.
pub open spec fn loose_path(id: Seq<u8>) -> Seq<u8> {
    bytes::utf8("objects/"@) + hex_of(id).take(2) + seq![47u8] + hex_of(id).skip(2)
}

pub fn object_path(id: ObjectId) -> (r: Vec<u8>)
    ensures
        r@ == loose_path(id@),
{
    broadcast use ObjectId::lemma_view;

    let hex = id.to_hex();
    let digits = hex.as_slice();
    let mut path: Vec<u8> = Vec::new();
    bytes::append(&mut path, "objects/".as_bytes());
    bytes::append(&mut path, &digits[0..2]);
    path.push(47);
    bytes::append(&mut path, &digits[2..40]);
    assert(id@.len() == 20);
    assert(path@ =~= loose_path(id@));
    path
}

/// How many bytes a loose object's header takes at most.
pub open spec fn framing() -> nat {
    28
}

/// What the file of a loose object holds, or why it is refused.
pub open spec fn loose_object(id: Seq<u8>, stream: Seq<u8>, limit: nat) -> core::result::Result<
    (ObjectKind, Seq<u8>),
    Error,
> {
    let room = if limit + framing() > usize::MAX {
        usize::MAX as nat
    } else {
        limit + framing()
    };
    match zlib::inflated(stream, room) {
        None => Err(Error::Compression("invalid zlib stream")),
        Some(encoded) => if sha1::sha1(encoded) != id {
            Err(Error::InvalidObject("hash mismatch"))
        } else {
            unframed(encoded, limit)
        },
    }
}

/// Makes the file of a loose object.
pub fn encode_loose(kind: ObjectKind, data: &[u8]) -> (r: (ObjectId, Vec<u8>))
    ensures
        r.0@ == object_id(kind, data@),
        r.1@ == zlib::deflated(framed(kind, data@), 6),
        forall|limit: nat|
            data@.len() <= limit <= usize::MAX && data@.len() + framing() <= usize::MAX
                ==> #[trigger] loose_object(r.0@, r.1@, limit) == Ok::<
                (ObjectKind, Seq<u8>),
                Error,
            >((kind, data@)),
{
    let encoded = encode_object(kind, data);
    let id = ObjectId(sha1::digest(encoded.as_slice()));
    let stream = zlib::deflate(encoded.as_slice());
    proof {
        lemma_kind_names(kind);
        assert(data.len() <= usize::MAX);
        bytes::lemma_decimal_len(data@.len());
        assert forall|limit: nat|
            data@.len() <= limit <= usize::MAX && data@.len() + framing()
                <= usize::MAX implies #[trigger] loose_object(id@, stream@, limit) == Ok::<
            (ObjectKind, Seq<u8>),
            Error,
        >((kind, data@)) by {
            lemma_unframe_of_frame(kind, data@, limit);
            assert(framed(kind, data@).len() <= data@.len() + framing());
        }
    }
    (id, stream)
}

/// Reads the file of a loose object.
pub fn decode_loose(id: ObjectId, stream: &[u8], max_size: usize) -> (r: Result<Object>)
    ensures
        match loose_object(id@, stream@, max_size as nat) {
            Ok(object) => r is Ok && r->Ok_0@ == object,
            Err(error) => r == Err::<Object, Error>(error),
        },
{
    let encoded = match zlib::inflate(stream, max_size.saturating_add(28)) {
        Ok(encoded) => encoded,
        Err(error) => return Err(error),
    };
    let digest = sha1::digest(encoded.as_slice());
    if !ObjectId(digest).same(&id) {
        return Err(Error::InvalidObject("hash mismatch"));
    }
    decode_object(encoded.as_slice(), max_size)
}

} // verus!
