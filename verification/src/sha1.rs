//! The SHA-1 message digest.

use vstd::prelude::*;

use crate::bytes;

verus! {

/// Addition modulo two to the thirty-two.
pub open spec fn plus(x: u32, y: u32) -> u32 {
    ((x + y) % 0x1_0000_0000) as u32
}

/// Circular left shift.
pub open spec fn rotl(x: u32, n: u32) -> u32 {
    (x << n) | (x >> ((32 - n) as u32))
}

/// Word `t` of the message schedule of a block.
pub open spec fn schedule(block: Seq<u8>, t: nat) -> u32
    decreases t,
{
    if t < 16 {
        bytes::be(block.subrange(4 * t as int, 4 * t as int + 4)) as u32
    } else {
        rotl(
            schedule(block, (t - 3) as nat) ^ schedule(block, (t - 8) as nat) ^ schedule(
                block,
                (t - 14) as nat,
            ) ^ schedule(block, (t - 16) as nat),
            1,
        )
    }
}

/// The five chaining words.
pub struct State {
    pub a: u32,
    pub b: u32,
    pub c: u32,
    pub d: u32,
    pub e: u32,
}

/// The logical function of round `t`.
pub open spec fn logic(t: nat, b: u32, c: u32, d: u32) -> u32 {
    if t < 20 {
        (b & c) | ((!b) & d)
    } else if 40 <= t < 60 {
        (b & c) | (b & d) | (c & d)
    } else {
        b ^ c ^ d
    }
}

/// The additive constant of round `t`.
pub open spec fn constant(t: nat) -> u32 {
    if t < 20 {
        0x5a82_7999
    } else if t < 40 {
        0x6ed9_eba1
    } else if t < 60 {
        0x8f1b_bcdc
    } else {
        0xca62_c1d6
    }
}

/// The working variables before round `t`.
pub open spec fn rounds(start: State, block: Seq<u8>, t: nat) -> State
    decreases t,
{
    if t == 0 {
        start
    } else {
        let s = rounds(start, block, (t - 1) as nat);
        let u = (t - 1) as nat;
        State {
            a: plus(
                plus(plus(plus(rotl(s.a, 5), logic(u, s.b, s.c, s.d)), s.e), constant(u)),
                schedule(block, u),
            ),
            b: s.a,
            c: rotl(s.b, 30),
            d: s.c,
            e: s.d,
        }
    }
}

/// The chaining words after one block.
pub open spec fn compressed(start: State, block: Seq<u8>) -> State {
    let s = rounds(start, block, 80);
    State {
        a: plus(start.a, s.a),
        b: plus(start.b, s.b),
        c: plus(start.c, s.c),
        d: plus(start.d, s.d),
        e: plus(start.e, s.e),
    }
}

pub open spec fn initial() -> State {
    State {
        a: 0x6745_2301,
        b: 0xefcd_ab89,
        c: 0x98ba_dcfe,
        d: 0x1032_5476,
        e: 0xc3d2_e1f0,
    }
}

/// The chaining words after the first `count` blocks of a message.
pub open spec fn chained(message: Seq<u8>, count: nat) -> State
    decreases count,
{
    if count == 0 {
        initial()
    } else {
        compressed(
            chained(message, (count - 1) as nat),
            message.subrange(64 * (count - 1), 64 * count as int),
        )
    }
}

/// How many zero bytes stand between the end marker and the length.
pub open spec fn zeros(len: nat) -> nat {
    ((119 - len % 64) % 64) as nat
}

/// A message with its end marker, zero bytes and bit length.
pub open spec fn padded(input: Seq<u8>) -> Seq<u8> {
    input + seq![0x80u8] + Seq::new(zeros(input.len()), |i: int| 0u8) + bytes::be_bytes(
        (input.len() * 8) % 0x1_0000_0000_0000_0000,
        8,
    )
}

/// The five chaining words as twenty bytes.
pub open spec fn state_bytes(s: State) -> Seq<u8> {
    bytes::be_bytes(s.a as nat, 4) + bytes::be_bytes(s.b as nat, 4) + bytes::be_bytes(s.c as nat, 4) + bytes::be_bytes(
        s.d as nat,
        4,
    ) + bytes::be_bytes(s.e as nat, 4)
}

/// The digest of a message.
pub open spec fn sha1(input: Seq<u8>) -> Seq<u8> {
    state_bytes(chained(padded(input), padded(input).len() / 64))
}

/// A digest has twenty bytes.
pub proof fn lemma_sha1_len(input: Seq<u8>)
    ensures
        sha1(input).len() == 20,
{
    let s = chained(padded(input), padded(input).len() / 64);
    bytes::lemma_be_bytes_len(s.a as nat, 4);
    bytes::lemma_be_bytes_len(s.b as nat, 4);
    bytes::lemma_be_bytes_len(s.c as nat, 4);
    bytes::lemma_be_bytes_len(s.d as nat, 4);
    bytes::lemma_be_bytes_len(s.e as nat, 4);
}

fn add32(x: u32, y: u32) -> (r: u32)
    ensures
        r == plus(x, y),
{
    ((x as u64 + y as u64) % 0x1_0000_0000) as u32
}

fn rotate(x: u32, n: u32) -> (r: u32)
    requires
        0 < n < 32,
    ensures
        r == rotl(x, n),
{
    (x << n) | (x >> (32 - n))
}

/// Mixes one block into the chaining words.
fn compress(start: State, block: &[u8]) -> (r: State)
    requires
        block@.len() == 64,
    ensures
        r == compressed(start, block@),
{
    let mut words: Vec<u32> = Vec::new();
    let mut t: usize = 0;
    while t < 16
        invariant
            t <= 16,
            block@.len() == 64,
            words@.len() == t,
            forall|j: int| 0 <= j < t ==> words@[j] == schedule(block@, j as nat),
        decreases 16 - t,
    {
        words.push(bytes::read_be32(block, 4 * t));
        t += 1;
    }
    while t < 80
        invariant
            16 <= t <= 80,
            words@.len() == t,
            forall|j: int| 0 <= j < t ==> words@[j] == schedule(block@, j as nat),
        decreases 80 - t,
    {
        let mixed: u32 = words[t - 3] ^ words[t - 8] ^ words[t - 14] ^ words[t - 16];
        words.push(rotate(mixed, 1));
        t += 1;
    }
    let mut a: u32 = start.a;
    let mut b: u32 = start.b;
    let mut c: u32 = start.c;
    let mut d: u32 = start.d;
    let mut e: u32 = start.e;
    let mut u: usize = 0;
    while u < 80
        invariant
            u <= 80,
            words@.len() == 80,
            forall|j: int| 0 <= j < 80 ==> words@[j] == schedule(block@, j as nat),
            rounds(start, block@, u as nat) == (State { a, b, c, d, e }),
        decreases 80 - u,
    {
        let (function, constant): (u32, u32) = if u < 20 {
            ((b & c) | ((!b) & d), 0x5a82_7999)
        } else if u < 40 {
            (b ^ c ^ d, 0x6ed9_eba1)
        } else if u < 60 {
            ((b & c) | (b & d) | (c & d), 0x8f1b_bcdc)
        } else {
            (b ^ c ^ d, 0xca62_c1d6)
        };
        let next: u32 = add32(
            add32(add32(add32(rotate(a, 5), function), e), constant),
            words[u],
        );
        e = d;
        d = c;
        c = rotate(b, 30);
        b = a;
        a = next;
        u += 1;
    }
    State {
        a: add32(start.a, a),
        b: add32(start.b, b),
        c: add32(start.c, c),
        d: add32(start.d, d),
        e: add32(start.e, e),
    }
}

proof fn lemma_padded(input: Seq<u8>)
    ensures
        padded(input).len() == input.len() + 9 + zeros(input.len()),
        padded(input).len() % 64 == 0,
        padded(input).len() / 64 == input.len() / 64 + (if input.len() % 64 < 56 {
            1int
        } else {
            2int
        }),
        forall|i: int| 0 <= i < input.len() ==> padded(input)[i] == input[i],
{
    bytes::lemma_be_bytes_len((input.len() * 8) % 0x1_0000_0000_0000_0000, 8);
}

/// The last one or two blocks of a padded message.
fn closing_blocks(input: &[u8]) -> (r: Vec<u8>)
    ensures
        r@ == padded(input@).skip(64 * (input@.len() / 64) as int),
        r@.len() == (if input@.len() % 64 < 56 {
            64int
        } else {
            128int
        }),
{
    assert(input.len() <= usize::MAX);
    let whole: usize = input.len() / 64;
    let rest: usize = input.len() % 64;
    let mut tail: Vec<u8> = Vec::new();
    bytes::append(&mut tail, &input[64 * whole..input.len()]);
    tail.push(0x80);
    let fill: usize = (119 - rest) % 64;
    let mut k: usize = 0;
    let ghost marked = tail@;
    while k < fill
        invariant
            k <= fill,
            tail@ == marked + Seq::new(k as nat, |i: int| 0u8),
        decreases fill - k,
    {
        tail.push(0);
        k += 1;
        assert(tail@ =~= marked + Seq::new(k as nat, |i: int| 0u8));
    }
    let bits: u64 = ((input.len() as u128) * 8 % 0x1_0000_0000_0000_0000) as u64;
    bytes::push_be64(&mut tail, bits);
    proof {
        lemma_padded(input@);
        bytes::lemma_be_bytes_len(bits as nat, 8);
        assert(marked =~= input@.skip(64 * whole as int) + seq![0x80u8]);
        assert(tail@ =~= padded(input@).skip(64 * whole as int));
    }
    tail
}

fn word_bytes(state: State) -> (r: [u8; 20])
    ensures
        r@ == state_bytes(state),
{
    let mut out: Vec<u8> = Vec::new();
    bytes::push_be32(&mut out, state.a);
    bytes::push_be32(&mut out, state.b);
    bytes::push_be32(&mut out, state.c);
    bytes::push_be32(&mut out, state.d);
    bytes::push_be32(&mut out, state.e);
    proof {
        bytes::lemma_be_bytes_len(state.a as nat, 4);
        bytes::lemma_be_bytes_len(state.b as nat, 4);
        bytes::lemma_be_bytes_len(state.c as nat, 4);
        bytes::lemma_be_bytes_len(state.d as nat, 4);
        bytes::lemma_be_bytes_len(state.e as nat, 4);
        assert(out@ =~= state_bytes(state));
    }
    let mut r: [u8; 20] = [0; 20];
    let mut n: usize = 0;
    while n < 20
        invariant
            n <= 20,
            out@.len() == 20,
            forall|j: int| 0 <= j < n ==> r@[j] == out@[j],
        decreases 20 - n,
    {
        r[n] = out[n];
        n += 1;
    }
    assert(r@ =~= out@);
    r
}

/// Computes the SHA-1 digest of a message.
pub fn digest(input: &[u8]) -> (r: [u8; 20])
    ensures
        r@ == sha1(input@),
{
    let ghost message = padded(input@);
    proof {
        lemma_padded(input@);
    }
    assert(input.len() <= usize::MAX);
    let whole: usize = input.len() / 64;
    let mut state = State {
        a: 0x6745_2301,
        b: 0xefcd_ab89,
        c: 0x98ba_dcfe,
        d: 0x1032_5476,
        e: 0xc3d2_e1f0,
    };
    let mut i: usize = 0;
    while i < whole
        invariant
            i <= whole,
            whole == input@.len() / 64,
            input@.len() <= usize::MAX,
            message.len() >= input@.len(),
            forall|j: int| 0 <= j < input@.len() ==> message[j] == input@[j],
            state == chained(message, i as nat),
        decreases whole - i,
    {
        let block = &input[64 * i..64 * i + 64];
        assert(block@ =~= message.subrange(64 * i as int, 64 * (i + 1)));
        state = compress(state, block);
        i += 1;
    }
    let tail = closing_blocks(input);
    assert(tail@.len() == message.len() - 64 * whole);
    let first = &tail.as_slice()[0..64];
    assert(first@ =~= message.subrange(64 * whole as int, 64 * (whole + 1)));
    state = compress(state, first);
    assert(state == chained(message, (whole + 1) as nat));
    if tail.len() > 64 {
        let second = &tail.as_slice()[64..128];
        assert(second@ =~= message.subrange(64 * (whole + 1), 64 * (whole + 2)));
        state = compress(state, second);
        assert(state == chained(message, (whole + 2) as nat));
    }
    word_bytes(state)
}

} // verus!
