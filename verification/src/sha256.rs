//! SHA-256 (FIPS 180-4), and the short hex name made of the first bytes of a
//! digest, under which a pilgrim's visits and face are kept on disk.

use vstd::prelude::*;
use vstd::wrapping::{u32_specs, u64_specs};
use crate::text::push_char;

verus! {

/// The round constants.
pub const K: [u32; 64] = [
    0x428a2f98, 0x71374491, 0xb5c0fbcf, 0xe9b5dba5, 0x3956c25b, 0x59f111f1, 0x923f82a4, 0xab1c5ed5,
    0xd807aa98, 0x12835b01, 0x243185be, 0x550c7dc3, 0x72be5d74, 0x80deb1fe, 0x9bdc06a7, 0xc19bf174,
    0xe49b69c1, 0xefbe4786, 0x0fc19dc6, 0x240ca1cc, 0x2de92c6f, 0x4a7484aa, 0x5cb0a9dc, 0x76f988da,
    0x983e5152, 0xa831c66d, 0xb00327c8, 0xbf597fc7, 0xc6e00bf3, 0xd5a79147, 0x06ca6351, 0x14292967,
    0x27b70a85, 0x2e1b2138, 0x4d2c6dfc, 0x53380d13, 0x650a7354, 0x766a0abb, 0x81c2c92e, 0x92722c85,
    0xa2bfe8a1, 0xa81a664b, 0xc24b8b70, 0xc76c51a3, 0xd192e819, 0xd6990624, 0xf40e3585, 0x106aa070,
    0x19a4c116, 0x1e376c08, 0x2748774c, 0x34b0bcb5, 0x391c0cb3, 0x4ed8aa4a, 0x5b9cca4f, 0x682e6ff3,
    0x748f82ee, 0x78a5636f, 0x84c87814, 0x8cc70208, 0x90befffa, 0xa4506ceb, 0xbef9a3f7, 0xc67178f2,
];

/// The initial hash value.
pub const H0: [u32; 8] = [
    0x6a09e667, 0xbb67ae85, 0x3c6ef372, 0xa54ff53a, 0x510e527f, 0x9b05688c, 0x1f83d9ab, 0x5be0cd19,
];

/// Addition modulo 2^32.
pub open spec fn wadd(x: u32, y: u32) -> u32 {
    u32_specs::wrapping_add(x, y)
}

/// `x` rotated right by `n` bits (`m` is 32 - `n`).
pub open spec fn rotr(x: u32, n: u32, m: u32) -> u32 {
    (x >> n) | (x << m)
}

pub open spec fn big_sigma0(x: u32) -> u32 {
    rotr(x, 2, 30) ^ rotr(x, 13, 19) ^ rotr(x, 22, 10)
}

pub open spec fn big_sigma1(x: u32) -> u32 {
    rotr(x, 6, 26) ^ rotr(x, 11, 21) ^ rotr(x, 25, 7)
}

pub open spec fn small_sigma0(x: u32) -> u32 {
    rotr(x, 7, 25) ^ rotr(x, 18, 14) ^ (x >> 3u32)
}

pub open spec fn small_sigma1(x: u32) -> u32 {
    rotr(x, 17, 15) ^ rotr(x, 19, 13) ^ (x >> 10u32)
}

pub open spec fn choice(e: u32, f: u32, g: u32) -> u32 {
    (e & f) ^ (!e & g)
}

pub open spec fn majority(a: u32, b: u32, c: u32) -> u32 {
    (a & b) ^ (a & c) ^ (b & c)
}

/// The big-endian word at `i` in `bytes`.
pub open spec fn word_at(bytes: Seq<u8>, i: int) -> u32 {
    ((bytes[i] as u32) << 24u32) | ((bytes[i + 1] as u32) << 16u32) | ((bytes[i + 2] as u32) << 8u32) | (bytes[i
        + 3] as u32)
}

/// Word `t` of the message schedule of a 64-byte block.
pub open spec fn schedule(block: Seq<u8>, t: int) -> u32
    decreases t,
{
    if t < 16 {
        word_at(block, 4 * t)
    } else {
        wadd(
            wadd(wadd(small_sigma1(schedule(block, t - 2)), schedule(block, t - 7)), small_sigma0(schedule(block, t - 15))),
            schedule(block, t - 16),
        )
    }
}

/// One round on the working variables `s` (a to h) with constant `k` and word `w`.
pub open spec fn round(s: Seq<u32>, k: u32, w: u32) -> Seq<u32> {
    let t1 = wadd(wadd(wadd(wadd(s[7], big_sigma1(s[4])), choice(s[4], s[5], s[6])), k), w);
    let t2 = wadd(big_sigma0(s[0]), majority(s[0], s[1], s[2]));
    seq![wadd(t1, t2), s[0], s[1], s[2], wadd(s[3], t1), s[4], s[5], s[6]]
}

/// The working variables after the first `t` rounds on `block`, starting from `h`.
pub open spec fn rounds(block: Seq<u8>, h: Seq<u32>, t: int) -> Seq<u32>
    decreases t,
{
    if t <= 0 {
        h
    } else {
        round(rounds(block, h, t - 1), K@[t - 1], schedule(block, t - 1))
    }
}

/// The hash value after taking in one 64-byte block.
pub open spec fn compress(h: Seq<u32>, block: Seq<u8>) -> Seq<u32> {
    let s = rounds(block, h, 64);
    Seq::new(8, |i: int| wadd(h[i], s[i]))
}

/// Number of zero bytes after the 0x80 that pad a message of `n` bytes.
pub open spec fn zero_pad(n: nat) -> nat {
    ((64 - (n + 9) % 64) % 64) as nat
}

/// The eight big-endian bytes of `x`.
pub open spec fn be64(x: u64) -> Seq<u8> {
    seq![
        (x >> 56u64) as u8,
        (x >> 48u64) as u8,
        (x >> 40u64) as u8,
        (x >> 32u64) as u8,
        (x >> 24u64) as u8,
        (x >> 16u64) as u8,
        (x >> 8u64) as u8,
        x as u8,
    ]
}

/// The message padded to whole blocks: a 0x80 byte, zeros, and its length in bits.
pub open spec fn padded(m: Seq<u8>) -> Seq<u8> {
    m + seq![0x80u8] + Seq::new(zero_pad(m.len()), |i: int| 0u8) + be64(u64_specs::wrapping_mul(m.len() as u64, 8))
}

/// The hash value after the first `n` blocks of `p`.
pub open spec fn hash_blocks(p: Seq<u8>, n: int) -> Seq<u32>
    decreases n,
{
    if n <= 0 {
        H0@
    } else {
        compress(hash_blocks(p, n - 1), p.subrange(64 * (n - 1), 64 * n))
    }
}

/// Byte `j` (0 to 3, most significant first) of `w`.
pub open spec fn word_byte(w: u32, j: int) -> u8 {
    if j == 0 {
        (w >> 24u32) as u8
    } else if j == 1 {
        (w >> 16u32) as u8
    } else if j == 2 {
        (w >> 8u32) as u8
    } else {
        w as u8
    }
}

/// The SHA-256 digest of `m`: 32 bytes.
pub open spec fn sha256(m: Seq<u8>) -> Seq<u8> {
    let p = padded(m);
    let h = hash_blocks(p, (p.len() / 64) as int);
    Seq::new(32, |i: int| word_byte(h[i / 4], i % 4))
}

/// The lowercase hex digit for `n` (below 16).
pub open spec fn hex_digit(n: u8) -> char {
    if n < 10 {
        (n + 48) as char
    } else {
        (n + 87) as char
    }
}

/// `bytes` in lowercase hex, two digits per byte.
pub open spec fn hex(bytes: Seq<u8>) -> Seq<char> {
    Seq::new(2 * bytes.len(), |i: int| if i % 2 == 0 { hex_digit(bytes[i / 2] / 16) } else { hex_digit(bytes[i / 2] % 16) })
}

fn rotate(x: u32, n: u32, m: u32) -> (r: u32)
    requires
        0 < n < 32,
        n + m == 32,
    ensures
        r == rotr(x, n, m),
{
    (x >> n) | (x << m)
}

fn word_of(p: &Vec<u8>, i: usize) -> (w: u32)
    requires
        i + 4 <= p.len(),
    ensures
        w == word_at(p@, i as int),
{
    ((p[i] as u32) << 24u32) | ((p[i + 1] as u32) << 16u32) | ((p[i + 2] as u32) << 8u32) | (p[i + 3] as u32)
}

/// The message padded to whole blocks (see `padded`).
fn pad(data: &[u8]) -> (p: Vec<u8>)
    requires
        data@.len() + 128 <= usize::MAX,
    ensures
        p@ == padded(data@),
        p@.len() % 64 == 0,
{
    let n = data.len();
    let mut p: Vec<u8> = Vec::new();
    let mut i: usize = 0;
    while i < n
        invariant
            n == data@.len(),
            0 <= i <= n,
            p@ == data@.take(i as int),
        decreases n - i,
    {
        p.push(data[i]);
        assert(data@.take(i as int + 1) =~= data@.take(i as int).push(data@[i as int]));
        i = i + 1;
    }
    assert(data@.take(n as int) =~= data@);
    p.push(0x80u8);
    let z = (64 - (n + 9) % 64) % 64;
    let ghost head = p@;
    let mut j: usize = 0;
    while j < z
        invariant
            0 <= j <= z,
            z == zero_pad(n as nat),
            p@ == head + Seq::new(j as nat, |i: int| 0u8),
        decreases z - j,
    {
        p.push(0u8);
        assert(p@ =~= head + Seq::new(j as nat + 1, |i: int| 0u8));
        j = j + 1;
    }
    let bits = (n as u64).wrapping_mul(8);
    p.push((bits >> 56u64) as u8);
    p.push((bits >> 48u64) as u8);
    p.push((bits >> 40u64) as u8);
    p.push((bits >> 32u64) as u8);
    p.push((bits >> 24u64) as u8);
    p.push((bits >> 16u64) as u8);
    p.push((bits >> 8u64) as u8);
    p.push(bits as u8);
    assert(p@ =~= padded(data@));
    assert((n + 9 + z) % 64 == 0);
    p
}

/// Takes in the block of `p` at `base` (see `compress`).
fn compress_block(h: &Vec<u32>, p: &Vec<u8>, base: usize) -> (r: Vec<u32>)
    requires
        h@.len() == 8,
        base + 64 <= p@.len(),
    ensures
        r@ == compress(h@, p@.subrange(base as int, base + 64)),
        r@.len() == 8,
{
    let ghost block = p@.subrange(base as int, base + 64);
    let mut w: Vec<u32> = Vec::new();
    let mut t: usize = 0;
    while t < 64
        invariant
            0 <= t <= 64,
            base + 64 <= p.len(),
            block == p@.subrange(base as int, base + 64),
            w@.len() == t,
            forall|i: int| 0 <= i < t ==> w@[i] == schedule(block, i),
        decreases 64 - t,
    {
        if t < 16 {
            let x = word_of(p, base + 4 * t);
            assert(word_at(p@, base + 4 * t) == word_at(block, 4 * t)) by {
                assert(p@[base + 4 * t] == block[4 * t]);
                assert(p@[base + 4 * t + 1] == block[4 * t + 1]);
                assert(p@[base + 4 * t + 2] == block[4 * t + 2]);
                assert(p@[base + 4 * t + 3] == block[4 * t + 3]);
            }
            w.push(x);
            assert(w@[t as int] == schedule(block, t as int));
        } else {
            let x2 = w[t - 2];
            let x15 = w[t - 15];
            let s1 = rotate(x2, 17, 15) ^ rotate(x2, 19, 13) ^ (x2 >> 10u32);
            let s0 = rotate(x15, 7, 25) ^ rotate(x15, 18, 14) ^ (x15 >> 3u32);
            let x = s1.wrapping_add(w[t - 7]).wrapping_add(s0).wrapping_add(w[t - 16]);
            assert(s1 == small_sigma1(schedule(block, t - 2)));
            assert(s0 == small_sigma0(schedule(block, t - 15)));
            assert(w@[t - 7] == schedule(block, t - 7));
            assert(w@[t - 16] == schedule(block, t - 16));
            assert(schedule(block, t as int) == wadd(
                wadd(wadd(small_sigma1(schedule(block, t - 2)), schedule(block, t - 7)), small_sigma0(schedule(block, t - 15))),
                schedule(block, t - 16),
            ));
            assert(x == schedule(block, t as int));
            w.push(x);
        }
        t = t + 1;
    }
    let mut a = h[0];
    let mut b = h[1];
    let mut c = h[2];
    let mut d = h[3];
    let mut e = h[4];
    let mut f = h[5];
    let mut g = h[6];
    let mut hh = h[7];
    assert(seq![a, b, c, d, e, f, g, hh] =~= rounds(block, h@, 0));
    let mut t: usize = 0;
    while t < 64
        invariant
            0 <= t <= 64,
            h@.len() == 8,
            w@.len() == 64,
            forall|i: int| 0 <= i < 64 ==> w@[i] == schedule(block, i),
            seq![a, b, c, d, e, f, g, hh] == rounds(block, h@, t as int),
        decreases 64 - t,
    {
        let ghost before = seq![a, b, c, d, e, f, g, hh];
        let sig1 = rotate(e, 6, 26) ^ rotate(e, 11, 21) ^ rotate(e, 25, 7);
        let ch = (e & f) ^ (!e & g);
        let t1 = hh.wrapping_add(sig1).wrapping_add(ch).wrapping_add(K[t]).wrapping_add(w[t]);
        let sig0 = rotate(a, 2, 30) ^ rotate(a, 13, 19) ^ rotate(a, 22, 10);
        let maj = (a & b) ^ (a & c) ^ (b & c);
        let t2 = sig0.wrapping_add(maj);
        hh = g;
        g = f;
        f = e;
        e = d.wrapping_add(t1);
        d = c;
        c = b;
        b = a;
        a = t1.wrapping_add(t2);
        assert(seq![a, b, c, d, e, f, g, hh] =~= round(before, K@[t as int], schedule(block, t as int)));
        t = t + 1;
    }
    let ghost s = seq![a, b, c, d, e, f, g, hh];
    let mut r: Vec<u32> = Vec::new();
    r.push(h[0].wrapping_add(a));
    r.push(h[1].wrapping_add(b));
    r.push(h[2].wrapping_add(c));
    r.push(h[3].wrapping_add(d));
    r.push(h[4].wrapping_add(e));
    r.push(h[5].wrapping_add(f));
    r.push(h[6].wrapping_add(g));
    r.push(h[7].wrapping_add(hh));
    assert(r@ =~= compress(h@, block));
    r
}

/// The SHA-256 digest of `data` (see `sha256`).
pub fn digest(data: &[u8]) -> (d: Vec<u8>)
    requires
        data@.len() + 128 <= usize::MAX,
    ensures
        d@ == sha256(data@),
{
    let p = pad(data);
    let blocks = p.len() / 64;
    let mut h: Vec<u32> = Vec::new();
    let mut k: usize = 0;
    while k < 8
        invariant
            0 <= k <= 8,
            h@ == H0@.take(k as int),
        decreases 8 - k,
    {
        h.push(H0[k]);
        assert(H0@.take(k as int + 1) =~= H0@.take(k as int).push(H0@[k as int]));
        k = k + 1;
    }
    assert(H0@.take(8) =~= H0@);
    let mut i: usize = 0;
    while i < blocks
        invariant
            0 <= i <= blocks,
            blocks == p@.len() / 64,
            p@ == padded(data@),
            h@.len() == 8,
            h@ == hash_blocks(p@, i as int),
        decreases blocks - i,
    {
        assert(64 * i + 64 <= p.len()) by (nonlinear_arith)
            requires
                i < blocks,
                blocks == p.len() / 64,
        ;
        h = compress_block(&h, &p, 64 * i);
        assert(h@ == hash_blocks(p@, i + 1));
        i = i + 1;
    }
    let mut d: Vec<u8> = Vec::new();
    let mut j: usize = 0;
    while j < 8
        invariant
            0 <= j <= 8,
            h@.len() == 8,
            h@ == hash_blocks(p@, blocks as int),
            blocks == p@.len() / 64,
            p@ == padded(data@),
            d@ == sha256(data@).take(4 * j),
        decreases 8 - j,
    {
        let x = h[j];
        d.push((x >> 24u32) as u8);
        d.push((x >> 16u32) as u8);
        d.push((x >> 8u32) as u8);
        d.push(x as u8);
        assert(d@ =~= sha256(data@).take(4 * j + 4));
        j = j + 1;
    }
    assert(sha256(data@).take(32) =~= sha256(data@));
    d
}

fn hex_char(n: u8) -> (c: char)
    requires
        n < 16,
    ensures
        c == hex_digit(n),
{
    if n < 10 {
        (n + 48) as char
    } else {
        (n + 87) as char
    }
}

/// The first eight bytes of the SHA-256 digest of `data`, in sixteen lowercase hex digits.
pub fn short_hex(data: &[u8]) -> (s: String)
    requires
        data@.len() + 128 <= usize::MAX,
    ensures
        s@ == hex(sha256(data@).take(8)),
{
    let d = digest(data);
    let ghost bytes = sha256(data@).take(8);
    let mut s = String::new();
    let mut i: usize = 0;
    while i < 8
        invariant
            0 <= i <= 8,
            d@ == sha256(data@),
            bytes == sha256(data@).take(8),
            s@ == hex(bytes).take(2 * i),
        decreases 8 - i,
    {
        let b = d[i];
        assert(b == bytes[i as int]);
        push_char(&mut s, hex_char(b / 16));
        push_char(&mut s, hex_char(b % 16));
        assert(s@ =~= hex(bytes).take(2 * i + 2));
        i = i + 1;
    }
    assert(hex(bytes).take(16) =~= hex(bytes));
    s
}

} // verus!
