//! The file that holds many references: one line for each, and one for what a
//! tag leads to.

use vstd::prelude::*;

use crate::bytemap;
use crate::bytemap::ByteMap;
use crate::bytes;
use crate::fs;
use crate::fs::path;
use crate::fs::{Fault, Refusal};
use crate::id_set;
use crate::object;
use crate::object::ObjectId;
use crate::refname;
use crate::{Error, Result};

verus! {

/// What the file holds for a name: an object and, of a tag, the object that
/// it leads to.
#[derive(Clone, Copy, Debug, PartialEq, Eq)]
pub struct PackedValue {
    pub id: ObjectId,
    pub peeled: Option<ObjectId>,
}

/// What has been read: the values, and the name of the last line.
pub struct Values {
    pub map: Map<Seq<u8>, PackedValue>,
    pub previous: Option<Seq<u8>>,
}

pub open spec fn said(text: &'static str) -> Refusal {
    Refusal::Said(Error::InvalidReference(text))
}

/// The object that a text names, or why it names none.
pub open spec fn id_text(text: Seq<u8>) -> core::result::Result<ObjectId, Refusal> {
    if !vstd::utf8::valid_utf8(text) {
        Err(said("non-ASCII packed object ID"))
    } else {
        match object::id_of_hex(text) {
            Some(raw) => Ok(object::id_with(raw)),
            None => Err(Refusal::At(Fault::InvalidObjectId, text)),
        }
    }
}

/// What is read once a line that leads on is added.
pub open spec fn with_peeled(state: Values, hex: Seq<u8>) -> core::result::Result<Values, Refusal> {
    match state.previous {
        None => Err(said("orphan packed peeled line")),
        Some(name) => match id_text(hex) {
            Err(refusal) => Err(refusal),
            Ok(id) => Ok(
                Values {
                    map: state.map.insert(
                        name,
                        PackedValue { id: state.map[name].id, peeled: Some(id) },
                    ),
                    previous: state.previous,
                },
            ),
        },
    }
}

/// What is read once a line of a reference is added.
pub open spec fn with_reference(state: Values, line: Seq<u8>) -> core::result::Result<
    Values,
    Refusal,
> {
    let at = bytes::index_from(line, 32, 0);
    let name = line.skip(at + 1);
    if at >= line.len() {
        Err(said("malformed packed-refs entry"))
    } else if !vstd::utf8::valid_utf8(name) {
        Err(said("non-UTF-8 packed ref name"))
    } else {
        match refname::name_fault(name) {
            Some(refusal) => Err(refusal),
            None => match id_text(line.take(at)) {
                Err(refusal) => Err(refusal),
                Ok(id) => if state.map.contains_key(name) {
                    Err(said("duplicate packed reference"))
                } else {
                    Ok(
                        Values {
                            map: state.map.insert(name, PackedValue { id, peeled: None }),
                            previous: Some(name),
                        },
                    )
                },
            },
        }
    }
}

/// What is read once a line is added. Empty lines and comments are passed
/// over.
pub open spec fn with_line(state: Values, line: Seq<u8>) -> core::result::Result<Values, Refusal> {
    if line.len() == 0 || line[0] == 35 {
        Ok(state)
    } else if line[0] == 94 {
        with_peeled(state, line.skip(1))
    } else {
        with_reference(state, line)
    }
}

/// What is read once some lines are added.
pub open spec fn with_lines(state: Values, lines: Seq<Seq<u8>>) -> core::result::Result<
    Values,
    Refusal,
>
    decreases lines.len(),
{
    if lines.len() == 0 {
        Ok(state)
    } else {
        match with_line(state, lines[0]) {
            Err(refusal) => Err(refusal),
            Ok(next) => with_lines(next, lines.skip(1)),
        }
    }
}

/// What a file holds, or why it is refused.
pub open spec fn decoded(data: Seq<u8>) -> core::result::Result<
    Map<Seq<u8>, PackedValue>,
    Refusal,
> {
    match with_lines(
        Values { map: Map::empty(), previous: None },
        bytes::split(data, 10),
    ) {
        Err(refusal) => Err(refusal),
        Ok(values) => Ok(values.map),
    }
}

/// The lines for a name.
pub open spec fn reference_line(name: Seq<u8>, value: PackedValue) -> Seq<u8> {
    object::hex_of(value.id@).push(32) + name
}

pub open spec fn peeled_line(id: ObjectId) -> Seq<u8> {
    seq![94u8] + object::hex_of(id@)
}

/// The lines for the names from a place on.
pub open spec fn text_from(
    names: Seq<Seq<u8>>,
    map: Map<Seq<u8>, PackedValue>,
    from: int,
) -> Seq<u8>
    decreases names.len() - from,
{
    if from < 0 || from >= names.len() {
        Seq::empty()
    } else {
        let value = map[names[from]];
        let rest = text_from(names, map, from + 1);
        reference_line(names[from], value).push(10) + (match value.peeled {
            Some(id) => peeled_line(id).push(10) + rest,
            None => rest,
        })
    }
}

pub open spec fn header() -> Seq<u8> {
    bytes::utf8("# pack-refs with: peeled fully-peeled sorted "@)
}

/// The file that holds some values, in ascending order of names.
pub open spec fn encoded(map: Map<Seq<u8>, PackedValue>) -> Seq<u8> {
    header().push(10) + text_from(id_set::sorted(map.dom()), map, 0)
}

fn parse_id(text: &[u8]) -> (r: Result<ObjectId>)
    ensures
        match id_text(text@) {
            Ok(id) => r is Ok && r->Ok_0 == id,
            Err(refusal) => fs::declined(r, refusal),
        },
{
    if bytes::text_of(text).is_none() {
        return Err(Error::InvalidReference("non-ASCII packed object ID"));
    }
    let id = ObjectId::from_hex(text)?;
    proof {
        object::lemma_id_with(id);
    }
    Ok(id)
}

/// Adds a line to what has been read.
fn take_line(
    line: &[u8],
    values: &mut ByteMap<PackedValue>,
    previous: &mut Option<Vec<u8>>,
) -> (r: Result<()>)
    requires
        *old(previous) matches Some(name) ==> old(values)@.contains_key(name@),
    ensures
        match with_line(
            Values {
                map: old(values)@,
                previous: match *old(previous) {
                    Some(name) => Some(name@),
                    None => None,
                },
            },
            line@,
        ) {
            Ok(next) => r is Ok && final(values)@ == next.map && next.previous == (
            match *final(previous) {
                Some(name) => Some(name@),
                None => None,
            }) && (*final(previous) matches Some(name) ==> final(values)@.contains_key(name@)),
            Err(refusal) => fs::declined(r, refusal),
        },
{
    if line.len() == 0 || line[0] == 35 {
        return Ok(());
    }
    if line[0] == 94 {
        let hex = bytes::copy_range(line, 1, line.len());
        assert(hex@ =~= line@.skip(1));
        let name = match previous {
            Some(name) => bytes::to_vec(name.as_slice()),
            None => return Err(Error::InvalidReference("orphan packed peeled line")),
        };
        let peeled = parse_id(hex.as_slice())?;
        let id = match values.get(name.as_slice()) {
            Some(value) => value.id,
            None => return Ok(()),
        };
        values.insert(name, PackedValue { id, peeled: Some(peeled) });
        return Ok(());
    }
    let at: usize = bytes::find_byte(line, 32, 0);
    if at >= line.len() {
        return Err(Error::InvalidReference("malformed packed-refs entry"));
    }
    let hex = bytes::copy_range(line, 0, at);
    let name = bytes::copy_range(line, at + 1, line.len());
    assert(hex@ =~= line@.take(at as int));
    assert(name@ =~= line@.skip(at + 1));
    if bytes::text_of(name.as_slice()).is_none() {
        return Err(Error::InvalidReference("non-UTF-8 packed ref name"));
    }
    refname::validate(name.as_slice())?;
    let id = parse_id(hex.as_slice())?;
    if values.contains(name.as_slice()) {
        return Err(Error::InvalidReference("duplicate packed reference"));
    }
    let copy = bytes::to_vec(name.as_slice());
    values.insert(name, PackedValue { id, peeled: None });
    *previous = Some(copy);
    Ok(())
}

/// Reads what a file holds.
pub fn decode(data: &[u8]) -> (r: Result<ByteMap<PackedValue>>)
    ensures
        match decoded(data@) {
            Ok(map) => r is Ok && r->Ok_0@ == map,
            Err(refusal) => fs::declined(r, refusal),
        },
{
    let lines = bytes::split_on(data, 10);
    let ghost all = bytes::deep(lines@);
    let ghost start = Values { map: Map::empty(), previous: None };
    let mut values: ByteMap<PackedValue> = ByteMap::new();
    let mut previous: Option<Vec<u8>> = None;
    let mut i: usize = 0;
    assert(all.skip(0) =~= all);
    while i < lines.len()
        invariant
            i <= lines@.len(),
            all == bytes::deep(lines@),
            all == bytes::split(data@, 10),
            start == (Values { map: Map::empty(), previous: None }),
            previous matches Some(name) ==> values@.contains_key(name@),
            with_lines(start, all) == with_lines(
                Values {
                    map: values@,
                    previous: match previous {
                        Some(name) => Some(name@),
                        None => None,
                    },
                },
                all.skip(i as int),
            ),
        decreases lines@.len() - i,
    {
        assert(all.skip(i as int)[0] == lines@[i as int]@);
        assert(all.skip(i as int).skip(1) =~= all.skip(i + 1));
        take_line(lines[i].as_slice(), &mut values, &mut previous)?;
        i += 1;
    }
    Ok(values)
}

fn push_line(out: &mut Vec<u8>, name: &[u8], value: &PackedValue)
    ensures
        final(out)@ == old(out)@ + (reference_line(name@, *value).push(10) + (match value.peeled {
            Some(id) => peeled_line(id).push(10),
            None => Seq::empty(),
        })),
{
    let ghost start = out@;
    let hex = value.id.to_hex();
    bytes::append(out, &hex);
    out.push(32);
    bytes::append(out, name);
    out.push(10);
    assert(out@ =~= start + reference_line(name@, *value).push(10));
    if let Some(peeled) = value.peeled {
        let hex = peeled.to_hex();
        out.push(94);
        bytes::append(out, &hex);
        out.push(10);
        assert(out@ =~= start + reference_line(name@, *value).push(10) + peeled_line(peeled).push(
            10,
        ));
    }
    assert(out@ =~= start + (reference_line(name@, *value).push(10) + (match value.peeled {
        Some(id) => peeled_line(id).push(10),
        None => Seq::empty(),
    })));
}

/// Writes the file that holds some values.
pub fn encode(values: &ByteMap<PackedValue>) -> (r: Vec<u8>)
    ensures
        r@ == encoded(values@),
{
    let count: usize = values.len();
    let ghost names = values.keys();
    let ghost map = values@;
    proof {
        id_set::lemma_sorted(names);
    }
    let mut out = bytes::to_vec("# pack-refs with: peeled fully-peeled sorted ".as_bytes());
    out.push(10);
    let ghost whole = encoded(map);
    let mut i: usize = 0;
    while i < count
        invariant
            i <= count,
            count == names.len(),
            names == values.keys(),
            map == values@,
            values.wf(),
            names == id_set::sorted(map.dom()),
            whole == encoded(map),
            out@ + text_from(names, map, i as int) == whole,
        decreases count - i,
    {
        let ghost before = out@;
        push_line(&mut out, values.key_at(i).as_slice(), values.value_at(i));
        assert(before + text_from(names, map, i as int) =~= out@ + text_from(names, map, i + 1));
        i += 1;
    }
    assert(out@ + text_from(names, map, i as int) =~= out@);
    out
}

// ---------------------------------------------------------------------------
// Reading back what was written

spec fn first_values(names: Seq<Seq<u8>>, map: Map<Seq<u8>, PackedValue>, n: int) -> Map<
    Seq<u8>,
    PackedValue,
> {
    Map::new(|k: Seq<u8>| names.take(n).contains(k), |k: Seq<u8>| map[k])
}

proof fn lemma_hex_line(id: ObjectId)
    ensures
        object::hex_of(id@).len() == 40,
        id_text(object::hex_of(id@)) == Ok::<ObjectId, Refusal>(id),
        forall|i: int| 0 <= i < 40 ==> {
            let b = #[trigger] object::hex_of(id@)[i];
            48 <= b <= 57 || 97 <= b <= 102
        },
{
    ObjectId::lemma_view(id, id);
    object::lemma_unhex_of_hex(id@);
    object::lemma_hex_is_text(id@);
    object::lemma_id_with(id);
    let h = object::hex_of(id@);
    assert forall|i: int| 0 <= i < 40 implies {
        let b = #[trigger] h[i];
        48 <= b <= 57 || 97 <= b <= 102
    } by {
        let b = id@[i / 2] as int;
        assert(0 <= b / 16 < 16 && 0 <= b % 16 < 16);
    }
}

proof fn lemma_read_reference(state: Values, name: Seq<u8>, value: PackedValue)
    requires
        refname::valid(name),
        vstd::utf8::valid_utf8(name),
        !state.map.contains_key(name),
    ensures
        with_line(state, reference_line(name, value)) == Ok::<Values, Refusal>(
            Values {
                map: state.map.insert(name, PackedValue { id: value.id, peeled: None }),
                previous: Some(name),
            },
        ),
{
    lemma_hex_line(value.id);
    let hex = object::hex_of(value.id@);
    let line = reference_line(name, value);
    assert forall|i: int| 0 <= i < 40 implies line[i] != 32 by {
        assert(line[i] == hex[i]);
    }
    assert(line[0] == hex[0]);
    bytes::lemma_index_from_is(line, 32, 0, 40);
    assert(line.take(40) =~= hex);
    assert(line.skip(41) =~= name);
}

proof fn lemma_read_peeled(state: Values, name: Seq<u8>, id: ObjectId)
    requires
        state.previous == Some(name),
    ensures
        with_line(state, peeled_line(id)) == Ok::<Values, Refusal>(
            Values {
                map: state.map.insert(
                    name,
                    PackedValue { id: state.map[name].id, peeled: Some(id) },
                ),
                previous: Some(name),
            },
        ),
{
    lemma_hex_line(id);
    assert(peeled_line(id).skip(1) =~= object::hex_of(id@));
}

proof fn lemma_no_newline(line: Seq<u8>, rest: Seq<u8>)
    requires
        forall|i: int| 0 <= i < line.len() ==> line[i] != 10,
    ensures
        bytes::split(line.push(10) + rest, 10) == seq![line] + bytes::split(rest, 10),
        (seq![line] + bytes::split(rest, 10)).skip(1) == bytes::split(rest, 10),
{
    path::lemma_split_concat(line, rest, 10);
    path::lemma_split_single(line, 10);
    assert((seq![line] + bytes::split(rest, 10)).skip(1) =~= bytes::split(rest, 10));
}

proof fn lemma_read_text(names: Seq<Seq<u8>>, map: Map<Seq<u8>, PackedValue>, from: int, state: Values)
    requires
        0 <= from <= names.len(),
        bytemap::ascending(names),
        forall|i: int|
            0 <= i < names.len() ==> refname::valid(#[trigger] names[i]) && vstd::utf8::valid_utf8(
                names[i],
            ),
        state.map == first_values(names, map, from),
    ensures
        with_lines(state, bytes::split(text_from(names, map, from), 10)) is Ok,
        with_lines(state, bytes::split(text_from(names, map, from), 10))->Ok_0.map == first_values(
            names,
            map,
            names.len() as int,
        ),
    decreases names.len() - from,
{
    reveal_with_fuel(with_lines, 3);
    if from == names.len() {
        let none = Seq::<u8>::empty();
        path::lemma_split_single(none, 10);
        assert(text_from(names, map, from) =~= none);
    } else {
        let name = names[from];
        let value = map[name];
        let rest = text_from(names, map, from + 1);
        let line = reference_line(name, value);
        lemma_hex_line(value.id);
        assert forall|i: int| 0 <= i < line.len() implies line[i] != 10 by {
            if i < 40 {
                assert(line[i] == object::hex_of(value.id@)[i]);
            } else if i > 40 {
                assert(line[i] == name[i - 41]);
                assert(refname::allowed(name[i - 41]));
            }
        }
        assert(!names.take(from).contains(name)) by {
            if names.take(from).contains(name) {
                let k = names.take(from).index_of(name);
                assert(bytes::lex_lt(names[k], names[from]));
                bytes::lemma_lex_irreflexive(name);
            }
        }
        lemma_read_reference(state, name, value);
        let one = Values {
            map: state.map.insert(name, PackedValue { id: value.id, peeled: None }),
            previous: Some(name),
        };
        let after = first_values(names, map, from + 1);
        assert forall|k: Seq<u8>| names.take(from + 1).contains(k) <==> (names.take(from).contains(
            k,
        ) || k == name) by {
            if names.take(from).contains(k) {
                let j = names.take(from).index_of(k);
                assert(names.take(from + 1)[j] == k);
            }
            if k == name {
                assert(names.take(from + 1)[from] == k);
            }
            if names.take(from + 1).contains(k) {
                let j = names.take(from + 1).index_of(k);
                if j < from {
                    assert(names.take(from)[j] == k);
                }
            }
        }
        match value.peeled {
            None => {
                lemma_no_newline(line, rest);
                assert((seq![line] + bytes::split(rest, 10))[0] == line);
                assert(one.map =~= after);
                lemma_read_text(names, map, from + 1, one);
            },
            Some(id) => {
                let second = peeled_line(id);
                lemma_hex_line(id);
                assert forall|i: int| 0 <= i < second.len() implies second[i] != 10 by {
                    if i > 0 {
                        assert(second[i] == object::hex_of(id@)[i - 1]);
                    }
                }
                lemma_no_newline(line, second.push(10) + rest);
                lemma_no_newline(second, rest);
                let tail = seq![second] + bytes::split(rest, 10);
                assert((seq![line] + tail)[0] == line && tail[0] == second);
                lemma_read_peeled(one, name, id);
                let two = Values {
                    map: one.map.insert(name, PackedValue { id: value.id, peeled: Some(id) }),
                    previous: Some(name),
                };
                assert(two.map =~= after);
                lemma_read_text(names, map, from + 1, two);
            },
        }
    }
}

/// What is written is what is read back, for every set of well-formed names.
pub proof fn lemma_packed_round_trip(map: Map<Seq<u8>, PackedValue>)
    requires
        map.dom().finite(),
        forall|name: Seq<u8>| #[trigger]
            map.contains_key(name) ==> refname::valid(name) && vstd::utf8::valid_utf8(name),
    ensures
        decoded(encoded(map)) == Ok::<Map<Seq<u8>, PackedValue>, Refusal>(map),
{
    let names = id_set::sorted(map.dom());
    id_set::lemma_sorted_exists(map.dom());
    assert forall|i: int| 0 <= i < names.len() implies refname::valid(#[trigger] names[i])
        && vstd::utf8::valid_utf8(names[i]) by {
        assert(names.contains(names[i]));
        assert(names.to_set().contains(names[i]));
        assert(map.contains_key(names[i]));
    }
    let rest = text_from(names, map, 0);
    reveal_strlit("# pack-refs with: peeled fully-peeled sorted ");
    bytes::lemma_ascii("# pack-refs with: peeled fully-peeled sorted "@);
    let top = header();
    assert forall|i: int| 0 <= i < top.len() implies top[i] != 10 by {}
    assert(top[0] == 35);
    lemma_no_newline(top, rest);
    let start = Values { map: Map::empty(), previous: None };
    assert(first_values(names, map, 0) =~= Map::empty());
    lemma_read_text(names, map, 0, start);
    assert forall|k: Seq<u8>| names.take(names.len() as int).contains(k) <==> map.contains_key(
        k,
    ) by {
        assert(names.take(names.len() as int) =~= names);
        assert(names.contains(k) <==> names.to_set().contains(k));
    }
    assert(first_values(names, map, names.len() as int) =~= map);
}

spec fn sound_values(state: Values) -> bool {
    &&& state.map.dom().finite()
    &&& forall|name: Seq<u8>| #[trigger]
        state.map.contains_key(name) ==> refname::valid(name) && vstd::utf8::valid_utf8(name)
    &&& state.previous matches Some(name) ==> state.map.contains_key(name)
}

proof fn lemma_lines_sound(state: Values, lines: Seq<Seq<u8>>)
    requires
        sound_values(state),
    ensures
        with_lines(state, lines) matches Ok(after) ==> sound_values(after),
    decreases lines.len(),
{
    if lines.len() > 0 {
        match with_line(state, lines[0]) {
            Err(_) => {},
            Ok(next) => {
                assert(sound_values(next));
                lemma_lines_sound(next, lines.skip(1));
            },
        }
    }
}

/// The names that a file of packed references holds are well formed.
pub proof fn lemma_decoded_names(data: Seq<u8>)
    ensures
        decoded(data) matches Ok(map) ==> map.dom().finite() && forall|name: Seq<u8>| #[trigger]
            map.contains_key(name) ==> refname::valid(name) && vstd::utf8::valid_utf8(name),
{
    lemma_lines_sound(Values { map: Map::empty(), previous: None }, bytes::split(data, 10));
}

} // verus!
