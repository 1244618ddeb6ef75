//! The rules that the names of references follow.

use vstd::prelude::*;

use crate::bytes;
use crate::fs;
use crate::fs::{Fault, Refusal};
use crate::{Error, Result};

verus! {

/// Whether a byte may stand in the name of a reference.
pub open spec fn allowed(b: u8) -> bool {
    b > 32 && b != 127 && b != 126 && b != 94 && b != 58 && b != 63 && b != 42 && b != 91 && b != 92
}

/// Whether a component may stand in the name of a reference: it is not
/// empty, does not begin with a dot and does not end in `.lock`.
pub open spec fn sound_component(part: Seq<u8>) -> bool {
    part.len() > 0 && part[0] != 46 && !bytes::has_suffix(part, bytes::utf8(".lock"@))
}

/// Whether a byte and the one after it may stand together: neither two dots
/// nor an at sign before a brace.
pub open spec fn sound_pair(name: Seq<u8>, i: int) -> bool {
    i + 1 < name.len() ==> !(name[i] == 46 && name[i + 1] == 46) && !(name[i] == 64 && name[i + 1]
        == 123)
}

/// Whether a name is a well-formed full name of a reference: at least two
/// components, each sound, of allowed bytes, with no dot at the end.
pub open spec fn valid(name: Seq<u8>) -> bool {
    let parts = bytes::split(name, 47);
    &&& parts.len() >= 2
    &&& forall|k: int| 0 <= k < parts.len() ==> sound_component(#[trigger] parts[k])
    &&& forall|i: int| 0 <= i < name.len() ==> allowed(#[trigger] name[i]) && sound_pair(name, i)
    &&& name.len() > 0 && name.last() != 46
}

/// What a name is refused for.
pub open spec fn name_fault(name: Seq<u8>) -> Option<Refusal> {
    if valid(name) {
        None
    } else {
        Some(Refusal::At(Fault::InvalidName, name))
    }
}

fn bytes_sound(name: &[u8]) -> (r: bool)
    ensures
        r == (forall|i: int|
            0 <= i < name@.len() ==> allowed(#[trigger] name@[i]) && sound_pair(name@, i)),
{
    let mut i: usize = 0;
    while i < name.len()
        invariant
            i <= name@.len(),
            forall|k: int| 0 <= k < i ==> allowed(#[trigger] name@[k]) && sound_pair(name@, k),
        decreases name@.len() - i,
    {
        let b: u8 = name[i];
        let ok = b > 32 && b != 127 && b != 126 && b != 94 && b != 58 && b != 63 && b != 42 && b
            != 91 && b != 92;
        let paired = i + 1 >= name.len() || !((b == 46 && name[i + 1] == 46) || (b == 64 && name[i
            + 1] == 123));
        assert(ok == allowed(name@[i as int]) && paired == sound_pair(name@, i as int));
        if !ok || !paired {
            return false;
        }
        i += 1;
    }
    true
}

/// Whether a name is a well-formed full name of a reference.
pub fn is_valid(name: &[u8]) -> (r: bool)
    ensures
        r == valid(name@),
{
    let parts = bytes::split_on(name, 47);
    let ghost all = bytes::deep(parts@);
    if name.len() == 0 || name[name.len() - 1] == 46 || parts.len() < 2 || !bytes_sound(name) {
        return false;
    }
    let mut i: usize = 0;
    while i < parts.len()
        invariant
            i <= parts@.len(),
            all == bytes::deep(parts@),
            all == bytes::split(name@, 47),
            forall|k: int| 0 <= k < i ==> sound_component(#[trigger] all[k]),
        decreases parts@.len() - i,
    {
        let part = parts[i].as_slice();
        assert(all[i as int] == part@);
        if part.len() == 0 || part[0] == 46 || bytes::ends_with(part, ".lock".as_bytes()) {
            assert(!sound_component(all[i as int]));
            return false;
        }
        i += 1;
    }
    true
}

/// Refuses a name that is not well formed.
pub fn validate(name: &[u8]) -> (r: Result<()>)
    ensures
        match name_fault(name@) {
            None => r is Ok,
            Some(refusal) => fs::declined(r, refusal),
        },
{
    if is_valid(name) {
        Ok(())
    } else {
        Err(Error::InvalidReferenceName(bytes::to_vec(name)))
    }
}

} // verus!
