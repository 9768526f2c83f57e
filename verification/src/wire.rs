//! Words of the wire format: little-endian integers and four-byte alignment.

use vstd::prelude::*;

verus! {

/// Bytes of the fixed header that starts every message.
pub const HEADER_LEN: usize = 8;

/// The four bytes that carry `x`, least significant first.
pub open spec fn word_bytes(x: u32) -> Seq<u8> {
    seq![
        (x % 256) as u8,
        ((x / 256) % 256) as u8,
        ((x / 65536) % 256) as u8,
        (x / 16777216) as u8,
    ]
}

/// The 32-bit value carried by the four bytes of `s` that start at `at`.
pub open spec fn word_at(s: Seq<u8>, at: int) -> u32 {
    (s[at] as int + s[at + 1] as int * 256 + s[at + 2] as int * 65536 + s[at + 3] as int
        * 16777216) as u32
}

/// The two bytes that carry `x`, least significant first.
pub open spec fn half_bytes(x: u16) -> Seq<u8> {
    seq![(x % 256) as u8, (x / 256) as u8]
}

/// The 16-bit value carried by the two bytes of `s` that start at `at`.
pub open spec fn half_at(s: Seq<u8>, at: int) -> u16 {
    (s[at] as int + s[at + 1] as int * 256) as u16
}

/// `n` rounded up to the next multiple of four.
pub open spec fn padded(n: int) -> int {
    (n + 3) / 4 * 4
}

/// `n` zero bytes.
pub open spec fn zeros(n: int) -> Seq<u8> {
    Seq::new(if n >= 0 { n as nat } else { 0 }, |i: int| 0u8)
}

/// The word that carries the signed value `i` in two's complement.
pub open spec fn word_of_int(i: i32) -> u32 {
    if i >= 0 {
        i as u32
    } else {
        (i + 0x1_0000_0000) as u32
    }
}

/// The signed value that the word `w` carries in two's complement.
pub open spec fn int_of_word(w: u32) -> i32 {
    if w < 0x8000_0000 {
        w as i32
    } else {
        (w - 0x1_0000_0000) as i32
    }
}

/// Reading back the bytes of a word gives the word, whatever follows them.
pub proof fn lemma_word_round_trip(x: u32, rest: Seq<u8>)
    ensures
        word_bytes(x).len() == 4,
        word_at(word_bytes(x) + rest, 0) == x,
{
    let s = word_bytes(x) + rest;
    assert(s[0] == word_bytes(x)[0]);
    assert(s[1] == word_bytes(x)[1]);
    assert(s[2] == word_bytes(x)[2]);
    assert(s[3] == word_bytes(x)[3]);
}

/// Reading back the bytes of a half word gives the half word, whatever follows.
pub proof fn lemma_half_round_trip(x: u16, rest: Seq<u8>)
    ensures
        half_bytes(x).len() == 2,
        half_at(half_bytes(x) + rest, 0) == x,
{
    let s = half_bytes(x) + rest;
    assert(s[0] == half_bytes(x)[0]);
    assert(s[1] == half_bytes(x)[1]);
}

/// A signed value survives the trip through its word.
pub proof fn lemma_int_round_trip(i: i32)
    ensures
        int_of_word(word_of_int(i)) == i,
{
}

/// Appends a copy of `src` to `dst`.
pub fn extend_from<T: Copy>(dst: &mut Vec<T>, src: &[T])
    ensures
        final(dst)@ == old(dst)@ + src@,
{
    let mut i: usize = 0;
    assert(dst@ =~= old(dst)@ + src@.take(0));
    while i < src.len()
        invariant
            i <= src.len(),
            dst@ == old(dst)@ + src@.take(i as int),
        decreases src.len() - i,
    {
        dst.push(src[i]);
        assert(dst@ =~= old(dst)@ + src@.take(i as int + 1));
        i = i + 1;
    }
    assert(src@.take(i as int) =~= src@);
}

/// A copy of `src`.
pub fn copy_of<T: Copy>(src: &[T]) -> (r: Vec<T>)
    ensures
        r@ == src@,
{
    let mut out: Vec<T> = Vec::new();
    extend_from(&mut out, src);
    assert(out@ =~= src@);
    out
}

/// Reads the little-endian word at `at`.
pub fn read_word(buf: &[u8], at: usize) -> (r: u32)
    requires
        at + 4 <= buf@.len(),
    ensures
        r == word_at(buf@, at as int),
{
    let b0: u32 = buf[at] as u32;
    let b1: u32 = buf[at + 1] as u32;
    let b2: u32 = buf[at + 2] as u32;
    let b3: u32 = buf[at + 3] as u32;
    b0 + b1 * 256 + b2 * 65536 + b3 * 16777216
}

/// Reads the little-endian half word at `at`.
pub fn read_half(buf: &[u8], at: usize) -> (r: u16)
    requires
        at + 2 <= buf@.len(),
    ensures
        r == half_at(buf@, at as int),
{
    let b0: u16 = buf[at] as u16;
    let b1: u16 = buf[at + 1] as u16;
    b0 + b1 * 256
}

/// Appends the little-endian bytes of `x`.
pub fn push_word(out: &mut Vec<u8>, x: u32)
    ensures
        final(out)@ == old(out)@ + word_bytes(x),
{
    out.push((x % 256) as u8);
    out.push(((x / 256) % 256) as u8);
    out.push(((x / 65536) % 256) as u8);
    out.push((x / 16777216) as u8);
    assert(out@ =~= old(out)@ + word_bytes(x));
}

/// Appends the little-endian bytes of `x`.
pub fn push_half(out: &mut Vec<u8>, x: u16)
    ensures
        final(out)@ == old(out)@ + half_bytes(x),
{
    out.push((x % 256) as u8);
    out.push((x / 256) as u8);
    assert(out@ =~= old(out)@ + half_bytes(x));
}

/// The word that carries `i` in two's complement.
pub fn int_to_word(i: i32) -> (w: u32)
    ensures
        w == word_of_int(i),
{
    if i >= 0 {
        i as u32
    } else {
        (i as i64 + 0x1_0000_0000i64) as u32
    }
}

/// The signed value that `w` carries in two's complement.
pub fn word_to_int(w: u32) -> (i: i32)
    ensures
        i == int_of_word(w),
{
    if w < 0x8000_0000 {
        w as i32
    } else {
        (w as i64 - 0x1_0000_0000i64) as i32
    }
}

} // verus!
