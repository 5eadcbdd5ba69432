//! The digest engine: SHA-256 over a byte sequence.
//!
//! The digest is defined as the standard defines it: by the logical
//! functions on 32-bit words, the message schedule, the 64-round compression
//! of one 512-bit block, and the padding that closes a message. The
//! executable code is proved to compute exactly that function. Nothing in it
//! branches on, or indexes memory by, message bytes; only the message length
//! steers control flow.

use vstd::prelude::*;

verus! {

/// The eight working words of the hash.
#[derive(Clone, Copy, Debug)]
pub struct State {
    pub a: u32,
    pub b: u32,
    pub c: u32,
    pub d: u32,
    pub e: u32,
    pub f: u32,
    pub g: u32,
    pub h: u32,
}

/// The round constants.
pub const K: [u32; 64] = [
    0x428a2f98, 0x71374491, 0xb5c0fbcf, 0xe9b5dba5, 0x3956c25b, 0x59f111f1, 0x923f82a4, 0xab1c5ed5,
    0xd807aa98, 0x12835b01, 0x243185be, 0x550c7dc3, 0x72be5d74, 0x80deb1fe, 0x9bdc06a7, 0xc19bf174,
    0xe49b69c1, 0xefbe4786, 0x0fc19dc6, 0x240ca1cc, 0x2de92c6f, 0x4a7484aa, 0x5cb0a9dc, 0x76f988da,
    0x983e5152, 0xa831c66d, 0xb00327c8, 0xbf597fc7, 0xc6e00bf3, 0xd5a79147, 0x06ca6351, 0x14292967,
    0x27b70a85, 0x2e1b2138, 0x4d2c6dfc, 0x53380d13, 0x650a7354, 0x766a0abb, 0x81c2c92e, 0x92722c85,
    0xa2bfe8a1, 0xa81a664b, 0xc24b8b70, 0xc76c51a3, 0xd192e819, 0xd6990624, 0xf40e3585, 0x106aa070,
    0x19a4c116, 0x1e376c08, 0x2748774c, 0x34b0bcb5, 0x391c0cb3, 0x4ed8aa4a, 0x5b9cca4f, 0x682e6ff3,
    0x748f82ee, 0x78a5636f, 0x84c87814, 0x8cc70208, 0x90befffa, 0xa4506ceb, 0xbef9a3f7, 0xc67178f2,
];

/// The initial hash value.
pub open spec fn initial_state() -> State {
    State {
        a: 0x6a09e667,
        b: 0xbb67ae85,
        c: 0x3c6ef372,
        d: 0xa54ff53a,
        e: 0x510e527f,
        f: 0x9b05688c,
        g: 0x1f83d9ab,
        h: 0x5be0cd19,
    }
}

/// Addition modulo 2^32.
pub open spec fn add32(x: u32, y: u32) -> u32 {
    ((x + y) % 0x1_0000_0000) as u32
}

/// Rotation of a word to the right by `n` bits, `0 < n < 32`.
pub open spec fn rotr(x: u32, n: u32) -> u32 {
    (x >> n) | (x << ((32 - n) as u32))
}

pub open spec fn ch(x: u32, y: u32, z: u32) -> u32 {
    (x & y) ^ (!x & z)
}

pub open spec fn maj(x: u32, y: u32, z: u32) -> u32 {
    (x & y) ^ (x & z) ^ (y & z)
}

pub open spec fn big_sigma0(x: u32) -> u32 {
    rotr(x, 2) ^ rotr(x, 13) ^ rotr(x, 22)
}

pub open spec fn big_sigma1(x: u32) -> u32 {
    rotr(x, 6) ^ rotr(x, 11) ^ rotr(x, 25)
}

pub open spec fn small_sigma0(x: u32) -> u32 {
    rotr(x, 7) ^ rotr(x, 18) ^ (x >> 3u32)
}

pub open spec fn small_sigma1(x: u32) -> u32 {
    rotr(x, 17) ^ rotr(x, 19) ^ (x >> 10u32)
}

/// The big-endian word made of four bytes.
pub open spec fn word_of(b0: u8, b1: u8, b2: u8, b3: u8) -> u32 {
    ((b0 as u32) << 24u32) | ((b1 as u32) << 16u32) | ((b2 as u32) << 8u32) | (b3 as u32)
}

/// Word `t` of the message schedule of a 64-byte block, `0 <= t < 64`.
pub open spec fn schedule(block: Seq<u8>, t: int) -> u32
    decreases t,
{
    if t < 16 {
        word_of(block[4 * t], block[4 * t + 1], block[4 * t + 2], block[4 * t + 3])
    } else {
        add32(
            add32(
                add32(small_sigma1(schedule(block, t - 2)), schedule(block, t - 7)),
                small_sigma0(schedule(block, t - 15)),
            ),
            schedule(block, t - 16),
        )
    }
}

/// One round of the compression function.
pub open spec fn round(s: State, k: u32, w: u32) -> State {
    let t1 = add32(add32(add32(add32(s.h, big_sigma1(s.e)), ch(s.e, s.f, s.g)), k), w);
    let t2 = add32(big_sigma0(s.a), maj(s.a, s.b, s.c));
    State {
        a: add32(t1, t2),
        b: s.a,
        c: s.b,
        d: s.c,
        e: add32(s.d, t1),
        f: s.e,
        g: s.f,
        h: s.g,
    }
}

/// The state after the first `t` rounds on a block, `0 <= t <= 64`.
pub open spec fn rounds(s: State, block: Seq<u8>, t: int) -> State
    decreases t,
{
    if t <= 0 {
        s
    } else {
        round(rounds(s, block, t - 1), K@[t - 1], schedule(block, t - 1))
    }
}

/// Word-wise sum of two states.
pub open spec fn add_states(x: State, y: State) -> State {
    State {
        a: add32(x.a, y.a),
        b: add32(x.b, y.b),
        c: add32(x.c, y.c),
        d: add32(x.d, y.d),
        e: add32(x.e, y.e),
        f: add32(x.f, y.f),
        g: add32(x.g, y.g),
        h: add32(x.h, y.h),
    }
}

/// The compression of one 64-byte block into the state.
pub open spec fn compress(s: State, block: Seq<u8>) -> State {
    add_states(s, rounds(s, block, 64))
}

/// The state after compressing, in order, every whole block of `data`.
pub open spec fn absorb(s: State, data: Seq<u8>) -> State
    decreases data.len(),
{
    if data.len() < 64 {
        s
    } else {
        absorb(compress(s, data.take(64)), data.skip(64))
    }
}

/// The eight bytes of `n`, most significant first.
#[verifier::opaque]
pub open spec fn be64(n: u64) -> Seq<u8> {
    seq![
        ((n / 0x100_0000_0000_0000) % 0x100) as u8,
        ((n / 0x1_0000_0000_0000) % 0x100) as u8,
        ((n / 0x100_0000_0000) % 0x100) as u8,
        ((n / 0x1_0000_0000) % 0x100) as u8,
        ((n / 0x100_0000) % 0x100) as u8,
        ((n / 0x1_0000) % 0x100) as u8,
        ((n / 0x100) % 0x100) as u8,
        (n % 0x100) as u8,
    ]
}

/// The four bytes of `w`, most significant first.
pub open spec fn be32(w: u32) -> Seq<u8> {
    seq![
        ((w / 0x100_0000) % 0x100) as u8,
        ((w / 0x1_0000) % 0x100) as u8,
        ((w / 0x100) % 0x100) as u8,
        (w % 0x100) as u8,
    ]
}

/// How many zero bytes the padding of a message of `len` bytes holds.
pub open spec fn pad_zeros(len: nat) -> nat {
    ((119 - (len % 64)) % 64) as nat
}

/// The length in bits of a message of `len` bytes, as the 64-bit field of
/// the padding holds it. The standard covers messages of fewer than 2^64
/// bits; for a longer one the field holds the length modulo 2^64.
pub open spec fn bit_length(len: nat) -> u64 {
    ((len * 8) % 0x1_0000_0000_0000_0000) as u64
}

/// The padding of a message of `len` bytes: the byte `0x80`, zeros up to
/// eight bytes short of a block boundary, and the length in bits.
pub open spec fn padding(len: nat) -> Seq<u8> {
    seq![0x80u8] + Seq::new(pad_zeros(len), |i: int| 0u8) + be64(bit_length(len))
}

/// The digest bytes of a final state.
pub open spec fn state_bytes(s: State) -> Seq<u8> {
    be32(s.a) + be32(s.b) + be32(s.c) + be32(s.d) + be32(s.e) + be32(s.f) + be32(s.g) + be32(s.h)
}

/// The SHA-256 digest of a message.
pub open spec fn sha256_spec(msg: Seq<u8>) -> Seq<u8> {
    state_bytes(absorb(initial_state(), msg + padding(msg.len())))
}

fn sum32(x: u32, y: u32) -> (r: u32)
    ensures
        r == add32(x, y),
{
    x.wrapping_add(y)
}

fn rotate_right(x: u32, n: u32) -> (r: u32)
    requires
        0 < n < 32,
    ensures
        r == rotr(x, n),
{
    (x >> n) | (x << (32 - n))
}

fn load_word(data: &[u8], at: usize) -> (r: u32)
    requires
        at + 4 <= data.len(),
    ensures
        r == word_of(data@[at as int], data@[at + 1], data@[at + 2], data@[at + 3]),
{
    ((data[at] as u32) << 24) | ((data[at + 1] as u32) << 16) | ((data[at + 2] as u32) << 8) | (
    data[at + 3] as u32)
}

/// Fills the message schedule of the block that starts at `off`.
fn expand_block(data: &[u8], off: usize) -> (w: [u32; 64])
    requires
        off + 64 <= data.len(),
    ensures
        forall|t: int| 0 <= t < 64 ==> w@[t] == schedule(data@.subrange(off as int, off + 64), t),
{
    let ghost block = data@.subrange(off as int, off + 64);
    let mut w: [u32; 64] = [0u32;64];
    let mut t: usize = 0;
    while t < 16
        invariant
            t <= 16,
            off + 64 <= data.len(),
            block == data@.subrange(off as int, off + 64),
            forall|j: int| 0 <= j < t ==> w@[j] == schedule(block, j),
        decreases 16 - t,
    {
        let x: u32 = load_word(data, off + 4 * t);
        proof {
            assert(block[4 * t] == data@[off + 4 * t]);
            assert(block[4 * t + 1] == data@[off + 4 * t + 1]);
            assert(block[4 * t + 2] == data@[off + 4 * t + 2]);
            assert(block[4 * t + 3] == data@[off + 4 * t + 3]);
        }
        w[t] = x;
        t = t + 1;
    }
    while t < 64
        invariant
            16 <= t <= 64,
            forall|j: int| 0 <= j < t ==> w@[j] == schedule(block, j),
        decreases 64 - t,
    {
        let s1: u32 = rotate_right(w[t - 2], 17) ^ rotate_right(w[t - 2], 19) ^ (w[t - 2] >> 10);
        let s0: u32 = rotate_right(w[t - 15], 7) ^ rotate_right(w[t - 15], 18) ^ (w[t - 15] >> 3);
        let x: u32 = sum32(sum32(sum32(s1, w[t - 7]), s0), w[t - 16]);
        assert(w@[t - 7] == schedule(block, t - 7));
        assert(w@[t - 16] == schedule(block, t - 16));
        assert(schedule(block, t as int) == add32(
            add32(
                add32(small_sigma1(schedule(block, t - 2)), schedule(block, t - 7)),
                small_sigma0(schedule(block, t - 15)),
            ),
            schedule(block, t - 16),
        ));
        w[t] = x;
        t = t + 1;
    }
    w
}

/// Compresses the block that starts at `off` into the state.
fn compress_block(s: State, data: &[u8], off: usize) -> (r: State)
    requires
        off + 64 <= data.len(),
    ensures
        r == compress(s, data@.subrange(off as int, off + 64)),
{
    let ghost block = data@.subrange(off as int, off + 64);
    let w: [u32; 64] = expand_block(data, off);
    let mut v: State = s;
    let mut t: usize = 0;
    while t < 64
        invariant
            t <= 64,
            v == rounds(s, block, t as int),
            forall|j: int| 0 <= j < 64 ==> w@[j] == schedule(block, j),
        decreases 64 - t,
    {
        let e1: u32 = rotate_right(v.e, 6) ^ rotate_right(v.e, 11) ^ rotate_right(v.e, 25);
        let c: u32 = (v.e & v.f) ^ (!v.e & v.g);
        let t1: u32 = sum32(sum32(sum32(sum32(v.h, e1), c), K[t]), w[t]);
        let a0: u32 = rotate_right(v.a, 2) ^ rotate_right(v.a, 13) ^ rotate_right(v.a, 22);
        let m: u32 = (v.a & v.b) ^ (v.a & v.c) ^ (v.b & v.c);
        let t2: u32 = sum32(a0, m);
        v = State {
            a: sum32(t1, t2),
            b: v.a,
            c: v.b,
            d: v.c,
            e: sum32(v.d, t1),
            f: v.e,
            g: v.f,
            h: v.g,
        };
        t = t + 1;
    }
    State {
        a: sum32(s.a, v.a),
        b: sum32(s.b, v.b),
        c: sum32(s.c, v.c),
        d: sum32(s.d, v.d),
        e: sum32(s.e, v.e),
        f: sum32(s.f, v.f),
        g: sum32(s.g, v.g),
        h: sum32(s.h, v.h),
    }
}

/// Compresses every whole block of `data` from offset 0 on.
fn absorb_blocks(s: State, data: &[u8]) -> (r: State)
    ensures
        r == absorb(s, data@),
{
    let n: usize = data.len();
    let mut v: State = s;
    let mut i: usize = 0;
    assert(data@.skip(0) =~= data@);
    while n - i >= 64
        invariant
            i <= n,
            n == data.len(),
            absorb(v, data@.skip(i as int)) == absorb(s, data@),
        decreases n - i,
    {
        proof {
            let rest = data@.skip(i as int);
            assert(rest.take(64) =~= data@.subrange(i as int, i + 64));
            assert(rest.skip(64) =~= data@.skip(i + 64));
        }
        v = compress_block(v, data, i);
        i = i + 64;
    }
    v
}

fn store_word(out: &mut [u8; 32], at: usize, w: u32)
    requires
        at + 4 <= 32,
    ensures
        final(out)@.len() == 32,
        final(out)@.subrange(at as int, at + 4) == be32(w),
        forall|j: int| 0 <= j < 32 && !(at <= j < at + 4) ==> final(out)@[j] == old(out)@[j],
{
    out[at] = ((w / 0x100_0000) % 0x100) as u8;
    out[at + 1] = ((w / 0x1_0000) % 0x100) as u8;
    out[at + 2] = ((w / 0x100) % 0x100) as u8;
    out[at + 3] = (w % 0x100) as u8;
    assert(out@.subrange(at as int, at + 4) =~= be32(w));
}

fn state_to_bytes(s: State) -> (out: [u8; 32])
    ensures
        out@ == state_bytes(s),
{
    let mut out: [u8; 32] = [0u8;32];
    store_word(&mut out, 0, s.a);
    store_word(&mut out, 4, s.b);
    store_word(&mut out, 8, s.c);
    store_word(&mut out, 12, s.d);
    store_word(&mut out, 16, s.e);
    store_word(&mut out, 20, s.f);
    store_word(&mut out, 24, s.g);
    store_word(&mut out, 28, s.h);
    proof {
        let o = out@;
        assert(o =~= o.subrange(0, 4) + o.subrange(4, 8) + o.subrange(8, 12) + o.subrange(12, 16)
            + o.subrange(16, 20) + o.subrange(20, 24) + o.subrange(24, 28) + o.subrange(28, 32));
    }
    out
}

/// Absorbing a concatenation whose first part ends on a block boundary is
/// absorbing the parts one after the other.
pub proof fn lemma_absorb_concat(s: State, x: Seq<u8>, y: Seq<u8>)
    requires
        x.len() % 64 == 0,
    ensures
        absorb(s, x + y) == absorb(absorb(s, x), y),
    decreases x.len(),
{
    if x.len() == 0 {
        assert(x + y =~= y);
    } else {
        assert((x + y).take(64) =~= x.take(64));
        assert((x + y).skip(64) =~= x.skip(64) + y);
        lemma_absorb_concat(compress(s, x.take(64)), x.skip(64), y);
    }
}

/// Absorbing a message and then its closing blocks (the bytes past its last
/// whole block, followed by `p`) is absorbing the message followed by `p`.
proof fn lemma_absorb_closing(s: State, msg: Seq<u8>, p: Seq<u8>)
    ensures
        absorb(absorb(s, msg), msg.skip(msg.len() - msg.len() % 64) + p) == absorb(s, msg + p),
{
    let full = msg.len() - msg.len() % 64;
    let x = msg.take(full);
    let y = msg.skip(full);
    assert(x.len() % 64 == 0);
    assert(msg =~= x + y);
    assert(msg + p =~= x + (y + p));
    lemma_absorb_concat(s, x, y);
    lemma_absorb_concat(s, x, y + p);
    assert(absorb(absorb(s, x), y) == absorb(s, x));
}

/// The length field of the padding of a message of `n` bytes.
fn length_field(n: usize) -> (bits: u64)
    ensures
        bits == bit_length(n as nat),
{
    (n as u64).wrapping_mul(8)
}

/// Appends the eight bytes of `x`, most significant first.
pub fn push_be64(out: &mut Vec<u8>, x: u64)
    ensures
        final(out)@ == old(out)@ + be64(x),
{
    out.push(((x / 0x100_0000_0000_0000) % 0x100) as u8);
    out.push(((x / 0x1_0000_0000_0000) % 0x100) as u8);
    out.push(((x / 0x100_0000_0000) % 0x100) as u8);
    out.push(((x / 0x1_0000_0000) % 0x100) as u8);
    out.push(((x / 0x100_0000) % 0x100) as u8);
    out.push(((x / 0x1_0000) % 0x100) as u8);
    out.push(((x / 0x100) % 0x100) as u8);
    out.push((x % 0x100) as u8);
    assert(out@ =~= old(out)@ + be64(x)) by {
        reveal(be64);
    }
}

/// The eight-byte form holds eight bytes.
pub proof fn lemma_be64_len(n: u64)
    ensures
        be64(n).len() == 8,
{
    reveal(be64);
}

/// The closing blocks of a message: its bytes past the last whole block,
/// followed by the padding.
fn closing_blocks(data: &[u8]) -> (tail: Vec<u8>)
    ensures
        tail@ == data@.skip(data@.len() - data@.len() % 64) + padding(data@.len()),
{
    let n: usize = data.len();
    let rem: usize = n % 64;
    let full: usize = n - rem;
    let mut tail: Vec<u8> = Vec::new();
    let mut i: usize = full;
    while i < n
        invariant
            full <= i <= n,
            n == data.len(),
            tail@ == data@.subrange(full as int, i as int),
        decreases n - i,
    {
        tail.push(data[i]);
        i = i + 1;
        assert(tail@ =~= data@.subrange(full as int, i as int));
    }
    assert(tail@ =~= data@.skip(full as int));
    tail.push(0x80);
    let zeros: usize = (119 - rem) % 64;
    let ghost head = tail@;
    let mut z: usize = 0;
    while z < zeros
        invariant
            z <= zeros,
            tail@ == head + Seq::new(z as nat, |k: int| 0u8),
        decreases zeros - z,
    {
        tail.push(0);
        z = z + 1;
        assert(tail@ =~= head + Seq::new(z as nat, |k: int| 0u8));
    }
    push_be64(&mut tail, length_field(n));
    assert(tail@ =~= data@.skip(full as int) + padding(n as nat));
    tail
}

/// The SHA-256 digest of `data`.
pub fn sha256(data: &[u8]) -> (digest: [u8; 32])
    ensures
        digest@ == sha256_spec(data@),
{
    let whole: State = absorb_blocks(
        State {
            a: 0x6a09e667,
            b: 0xbb67ae85,
            c: 0x3c6ef372,
            d: 0xa54ff53a,
            e: 0x510e527f,
            f: 0x9b05688c,
            g: 0x1f83d9ab,
            h: 0x5be0cd19,
        },
        data,
    );
    let tail: Vec<u8> = closing_blocks(data);
    let last: State = absorb_blocks(whole, tail.as_slice());
    proof {
        lemma_absorb_closing(initial_state(), data@, padding(data@.len()));
    }
    state_to_bytes(last)
}

} // verus!
