//! MD5 (RFC 1321) message digest and its lower-case hexadecimal form.

use vstd::prelude::*;

verus! {

/// The additive constants of the 64 rounds.
pub open spec fn md5_k() -> Seq<u32> {
    seq![
        0xd76aa478u32, 0xe8c7b756, 0x242070db, 0xc1bdceee, 0xf57c0faf, 0x4787c62a, 0xa8304613, 0xfd469501,
        0x698098d8, 0x8b44f7af, 0xffff5bb1, 0x895cd7be, 0x6b901122, 0xfd987193, 0xa679438e, 0x49b40821,
        0xf61e2562, 0xc040b340, 0x265e5a51, 0xe9b6c7aa, 0xd62f105d, 0x02441453, 0xd8a1e681, 0xe7d3fbc8,
        0x21e1cde6, 0xc33707d6, 0xf4d50d87, 0x455a14ed, 0xa9e3e905, 0xfcefa3f8, 0x676f02d9, 0x8d2a4c8a,
        0xfffa3942, 0x8771f681, 0x6d9d6122, 0xfde5380c, 0xa4beea44, 0x4bdecfa9, 0xf6bb4b60, 0xbebfbc70,
        0x289b7ec6, 0xeaa127fa, 0xd4ef3085, 0x04881d05, 0xd9d4d039, 0xe6db99e5, 0x1fa27cf8, 0xc4ac5665,
        0xf4292244, 0x432aff97, 0xab9423a7, 0xfc93a039, 0x655b59c3, 0x8f0ccc92, 0xffeff47d, 0x85845dd1,
        0x6fa87e4f, 0xfe2ce6e0, 0xa3014314, 0x4e0811a1, 0xf7537e82, 0xbd3af235, 0x2ad7d2bb, 0xeb86d391,
    ]
}

fn k_table() -> (r: Vec<u32>)
    ensures
        r@ == md5_k(),
{
    let r = vec![
        0xd76aa478u32, 0xe8c7b756, 0x242070db, 0xc1bdceee, 0xf57c0faf, 0x4787c62a, 0xa8304613, 0xfd469501,
        0x698098d8, 0x8b44f7af, 0xffff5bb1, 0x895cd7be, 0x6b901122, 0xfd987193, 0xa679438e, 0x49b40821,
        0xf61e2562, 0xc040b340, 0x265e5a51, 0xe9b6c7aa, 0xd62f105d, 0x02441453, 0xd8a1e681, 0xe7d3fbc8,
        0x21e1cde6, 0xc33707d6, 0xf4d50d87, 0x455a14ed, 0xa9e3e905, 0xfcefa3f8, 0x676f02d9, 0x8d2a4c8a,
        0xfffa3942, 0x8771f681, 0x6d9d6122, 0xfde5380c, 0xa4beea44, 0x4bdecfa9, 0xf6bb4b60, 0xbebfbc70,
        0x289b7ec6, 0xeaa127fa, 0xd4ef3085, 0x04881d05, 0xd9d4d039, 0xe6db99e5, 0x1fa27cf8, 0xc4ac5665,
        0xf4292244, 0x432aff97, 0xab9423a7, 0xfc93a039, 0x655b59c3, 0x8f0ccc92, 0xffeff47d, 0x85845dd1,
        0x6fa87e4f, 0xfe2ce6e0, 0xa3014314, 0x4e0811a1, 0xf7537e82, 0xbd3af235, 0x2ad7d2bb, 0xeb86d391,
    ];
    assert(r@ =~= md5_k());
    r
}


/// Wrapping addition of 32-bit words.
pub open spec fn wadd(x: u32, y: u32) -> u32 {
    vstd::wrapping::u32_specs::wrapping_add(x, y)
}

/// Rotation of a 32-bit word left by `s` bits, `0 < s < 32`.
pub open spec fn rotl(x: u32, s: u32) -> u32 {
    (x << s) | (x >> ((32 - s) as u32))
}

/// The length of the padded message for a message of `n` bytes: the
/// message, one `0x80` byte, zero bytes up to 56 modulo 64, and the 8-byte length.
pub open spec fn md5_pad_len(n: int) -> int {
    let r = n % 64;
    if r < 56 {
        n - r + 64
    } else {
        n - r + 128
    }
}

/// The message length in bits, modulo 2^64.
pub open spec fn md5_bit_len(n: int) -> u64 {
    vstd::wrapping::u64_specs::wrapping_mul(n as u64, 8)
}

/// Byte `i` of the padded message.
pub open spec fn md5_padded_byte(msg: Seq<u8>, i: int) -> u8 {
    let n = msg.len() as int;
    let plen = md5_pad_len(n);
    if i < n {
        msg[i]
    } else if i == n {
        0x80u8
    } else if i < plen - 8 {
        0u8
    } else {
        let j = (i - (plen - 8)) as u64;
        ((md5_bit_len(n) >> ((8 * j) as u64)) & 0xff) as u8
    }
}

/// Word `g` (little-endian) of the 64-byte block at offset `off` of the padded message.
pub open spec fn md5_word(msg: Seq<u8>, off: int, g: int) -> u32 {
    (md5_padded_byte(msg, off + 4 * g) as u32) | ((md5_padded_byte(msg, off + 4 * g + 1) as u32) << 8u32) | ((
    md5_padded_byte(msg, off + 4 * g + 2) as u32) << 16u32) | ((md5_padded_byte(msg, off + 4 * g + 3) as u32) << 24u32)
}

/// The round function of round `i`.
pub open spec fn md5_f(i: int, b: u32, c: u32, d: u32) -> u32 {
    if i < 16 {
        (b & c) | (!b & d)
    } else if i < 32 {
        (b & d) | (c & !d)
    } else if i < 48 {
        b ^ c ^ d
    } else {
        c ^ (b | !d)
    }
}

/// The message word that round `i` reads.
pub open spec fn md5_g(i: int) -> int {
    if i < 16 {
        i
    } else if i < 32 {
        (5 * i + 1) % 16
    } else if i < 48 {
        (3 * i + 5) % 16
    } else {
        (7 * i) % 16
    }
}

/// The rotation of round `i`.
pub open spec fn md5_s(i: int) -> u32 {
    let j = i % 4;
    if i < 16 {
        if j == 0 { 7 } else if j == 1 { 12 } else if j == 2 { 17 } else { 22 }
    } else if i < 32 {
        if j == 0 { 5 } else if j == 1 { 9 } else if j == 2 { 14 } else { 20 }
    } else if i < 48 {
        if j == 0 { 4 } else if j == 1 { 11 } else if j == 2 { 16 } else { 23 }
    } else {
        if j == 0 { 6 } else if j == 1 { 10 } else if j == 2 { 15 } else { 21 }
    }
}

/// Round `i` on the block at offset `off`.
pub open spec fn md5_step(st: (u32, u32, u32, u32), msg: Seq<u8>, off: int, i: int) -> (u32, u32, u32, u32) {
    let f = wadd(wadd(wadd(md5_f(i, st.1, st.2, st.3), st.0), md5_k()[i]), md5_word(msg, off, md5_g(i)));
    (st.3, wadd(st.1, rotl(f, md5_s(i))), st.1, st.2)
}

/// The first `i` rounds on the block at offset `off`.
pub open spec fn md5_rounds(st: (u32, u32, u32, u32), msg: Seq<u8>, off: int, i: nat) -> (u32, u32, u32, u32)
    decreases i,
{
    if i == 0 {
        st
    } else {
        md5_step(md5_rounds(st, msg, off, (i - 1) as nat), msg, off, i - 1)
    }
}

/// The state after the block at offset `off`.
pub open spec fn md5_compress(st: (u32, u32, u32, u32), msg: Seq<u8>, off: int) -> (u32, u32, u32, u32) {
    let r = md5_rounds(st, msg, off, 64);
    (wadd(st.0, r.0), wadd(st.1, r.1), wadd(st.2, r.2), wadd(st.3, r.3))
}

/// The state after the first `n` blocks of the padded message.
pub open spec fn md5_state(msg: Seq<u8>, n: nat) -> (u32, u32, u32, u32)
    decreases n,
{
    if n == 0 {
        (0x67452301u32, 0xefcdab89u32, 0x98badcfeu32, 0x10325476u32)
    } else {
        md5_compress(md5_state(msg, (n - 1) as nat), msg, 64 * (n - 1))
    }
}

/// A word as four little-endian bytes.
pub open spec fn le32(x: u32) -> Seq<u8> {
    seq![(x & 0xff) as u8, ((x >> 8u32) & 0xff) as u8, ((x >> 16u32) & 0xff) as u8, ((x >> 24u32) & 0xff) as u8]
}

/// The MD5 digest of `msg`: the final state, word by word, little-endian.
pub open spec fn md5_digest(msg: Seq<u8>) -> Seq<u8> {
    let st = md5_state(msg, (md5_pad_len(msg.len() as int) / 64) as nat);
    le32(st.0) + le32(st.1) + le32(st.2) + le32(st.3)
}

/// The lower-case hexadecimal digit of a value below 16.
pub open spec fn hex_digit(n: u8) -> char {
    if n < 10 {
        ((48 + n) as u8) as char
    } else {
        ((87 + n) as u8) as char
    }
}

/// Bytes in lower-case hexadecimal, two digits per byte, high digit first.
pub open spec fn hex_lower(bs: Seq<u8>) -> Seq<char>
    decreases bs.len(),
{
    if bs.len() == 0 {
        Seq::empty()
    } else {
        hex_lower(bs.drop_last()) + seq![hex_digit(bs.last() >> 4u8), hex_digit(bs.last() & 0xf)]
    }
}

fn hex_digit_exec(n: u8) -> (c: char)
    requires
        n < 16,
    ensures
        c == hex_digit(n),
{
    if n < 10 {
        ((48 + n) as u8) as char
    } else {
        ((87 + n) as u8) as char
    }
}

/// Byte `i` of the padded message of `msg`.
fn padded_byte(msg: &[u8], plen: u128, bits: u64, i: u128) -> (r: u8)
    requires
        plen == md5_pad_len(msg@.len() as int),
        bits == md5_bit_len(msg@.len() as int),
        i < plen,
    ensures
        r == md5_padded_byte(msg@, i as int),
{
    let n = msg.len() as u128;
    if i < n {
        msg[i as usize]
    } else if i == n {
        0x80u8
    } else if i < plen - 8 {
        0u8
    } else {
        let j = (i - (plen - 8)) as u64;
        ((bits >> (8 * j)) & 0xff) as u8
    }
}

fn word_at(msg: &[u8], plen: u128, bits: u64, off: u128, g: u128) -> (r: u32)
    requires
        plen == md5_pad_len(msg@.len() as int),
        bits == md5_bit_len(msg@.len() as int),
        g < 16,
        off + 64 <= plen,
    ensures
        r == md5_word(msg@, off as int, g as int),
{
    let b0 = padded_byte(msg, plen, bits, off + 4 * g);
    let b1 = padded_byte(msg, plen, bits, off + 4 * g + 1);
    let b2 = padded_byte(msg, plen, bits, off + 4 * g + 2);
    let b3 = padded_byte(msg, plen, bits, off + 4 * g + 3);
    (b0 as u32) | ((b1 as u32) << 8u32) | ((b2 as u32) << 16u32) | ((b3 as u32) << 24u32)
}

fn round_f(i: usize, b: u32, c: u32, d: u32) -> (r: u32)
    ensures
        r == md5_f(i as int, b, c, d),
{
    if i < 16 {
        (b & c) | (!b & d)
    } else if i < 32 {
        (b & d) | (c & !d)
    } else if i < 48 {
        b ^ c ^ d
    } else {
        c ^ (b | !d)
    }
}

fn round_g(i: usize) -> (r: u128)
    requires
        i < 64,
    ensures
        r == md5_g(i as int),
        r < 16,
{
    let i = i as u128;
    if i < 16 {
        i
    } else if i < 32 {
        (5 * i + 1) % 16
    } else if i < 48 {
        (3 * i + 5) % 16
    } else {
        (7 * i) % 16
    }
}

fn round_s(i: usize) -> (r: u32)
    ensures
        r == md5_s(i as int),
        0 < r < 32,
{
    let j = i % 4;
    if i < 16 {
        if j == 0 { 7 } else if j == 1 { 12 } else if j == 2 { 17 } else { 22 }
    } else if i < 32 {
        if j == 0 { 5 } else if j == 1 { 9 } else if j == 2 { 14 } else { 20 }
    } else if i < 48 {
        if j == 0 { 4 } else if j == 1 { 11 } else if j == 2 { 16 } else { 23 }
    } else {
        if j == 0 { 6 } else if j == 1 { 10 } else if j == 2 { 15 } else { 21 }
    }
}

/// The MD5 digest of `msg` (16 bytes).
pub fn md5_bytes(msg: &[u8]) -> (r: Vec<u8>)
    ensures
        r@ == md5_digest(msg@),
{
    let n = msg.len() as u128;
    let bits = (msg.len() as u64).wrapping_mul(8);
    let rem = n % 64;
    let plen: u128 = if rem < 56 { n - rem + 64 } else { n - rem + 128 };
    assert(plen % 64 == 0) by {
        assert(n == 64 * (n / 64) + n % 64);
    }
    let nblocks = plen / 64;
    let k = k_table();
    let mut st: (u32, u32, u32, u32) = (0x67452301u32, 0xefcdab89u32, 0x98badcfeu32, 0x10325476u32);
    let mut blk: u128 = 0;
    while blk < nblocks
        invariant
            plen == md5_pad_len(msg@.len() as int),
            bits == md5_bit_len(msg@.len() as int),
            plen % 64 == 0,
            nblocks == plen / 64,
            blk <= nblocks,
            k@ == md5_k(),
            st == md5_state(msg@, blk as nat),
        decreases nblocks - blk,
    {
        let off = 64 * blk;
        assert(off + 64 <= plen) by {
            assert(plen == 64 * nblocks);
        }
        let st0 = st;
        let mut cur = st;
        let mut i: usize = 0;
        while i < 64
            invariant
                plen == md5_pad_len(msg@.len() as int),
                bits == md5_bit_len(msg@.len() as int),
                off + 64 <= plen,
                k@ == md5_k(),
                i <= 64,
                cur == md5_rounds(st0, msg@, off as int, i as nat),
            decreases 64 - i,
        {
            let (a, b, c, d) = cur;
            let g = round_g(i);
            let m = word_at(msg, plen, bits, off, g);
            let f = round_f(i, b, c, d).wrapping_add(a).wrapping_add(k[i]).wrapping_add(m);
            let s = round_s(i);
            let rot = (f << s) | (f >> (32 - s));
            cur = (d, b.wrapping_add(rot), b, c);
            i = i + 1;
        }
        st = (st0.0.wrapping_add(cur.0), st0.1.wrapping_add(cur.1), st0.2.wrapping_add(cur.2), st0.3.wrapping_add(cur.3));
        blk = blk + 1;
    }
    let mut out: Vec<u8> = Vec::new();
    let words = [st.0, st.1, st.2, st.3];
    let mut w: usize = 0;
    while w < 4
        invariant
            w <= 4,
            words@ == seq![st.0, st.1, st.2, st.3],
            out@ == (if w == 0 { Seq::<u8>::empty() } else if w == 1 { le32(st.0) } else if w == 2 { le32(st.0) + le32(
                st.1,
            ) } else if w == 3 { le32(st.0) + le32(st.1) + le32(st.2) } else { le32(st.0) + le32(st.1) + le32(st.2)
                + le32(st.3) }),
        decreases 4 - w,
    {
        let x = words[w];
        let ghost before = out@;
        out.push((x & 0xff) as u8);
        out.push(((x >> 8u32) & 0xff) as u8);
        out.push(((x >> 16u32) & 0xff) as u8);
        out.push(((x >> 24u32) & 0xff) as u8);
        assert(out@ =~= before + le32(x));
        w = w + 1;
    }
    out
}

/// Hexadecimal takes two digits per byte.
pub proof fn lemma_hex_len(bs: Seq<u8>)
    ensures
        hex_lower(bs).len() == 2 * bs.len(),
    decreases bs.len(),
{
    if bs.len() > 0 {
        lemma_hex_len(bs.drop_last());
    }
}

/// The MD5 digest of `msg` in lower-case hexadecimal (32 characters).
pub fn md5_hex(msg: &[u8]) -> (r: String)
    ensures
        r@ == hex_lower(md5_digest(msg@)),
        r@.len() == 32,
{
    proof {
        lemma_hex_len(md5_digest(msg@));
    }
    let d = md5_bytes(msg);
    let mut r = String::new();
    let mut i: usize = 0;
    while i < d.len()
        invariant
            i <= d.len(),
            r@ == hex_lower(d@.take(i as int)),
        decreases d.len() - i,
    {
        let b = d[i];
        assert(b >> 4u8 < 16) by (bit_vector);
        assert(b & 0xf < 16) by (bit_vector);
        crate::text::push_char(&mut r, hex_digit_exec(b >> 4u8));
        crate::text::push_char(&mut r, hex_digit_exec(b & 0xf));
        assert(d@.take(i + 1).drop_last() == d@.take(i as int));
        i = i + 1;
    }
    assert(d@.take(d.len() as int) == d@);
    r
}

} // verus!
