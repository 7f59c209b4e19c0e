//! Little-endian decoding and encoding of integers in byte sequences.
use vstd::prelude::*;

verus! {

/// The `u16` stored little-endian at `at`.
pub open spec fn le_u16(b: Seq<u8>, at: int) -> u16 {
    (b[at] as int + b[at + 1] as int * 0x100) as u16
}

/// The `u32` stored little-endian at `at`.
pub open spec fn le_u32(b: Seq<u8>, at: int) -> u32 {
    (b[at] as int + b[at + 1] as int * 0x100 + b[at + 2] as int * 0x1_0000 + b[at + 3] as int
        * 0x100_0000) as u32
}

/// Byte `k` (0 = least significant) of the word `w`.
pub open spec fn word_byte(w: u32, k: int) -> u8 {
    if k == 0 {
        (w % 0x100) as u8
    } else if k == 1 {
        ((w / 0x100) % 0x100) as u8
    } else if k == 2 {
        ((w / 0x1_0000) % 0x100) as u8
    } else {
        (w / 0x100_0000) as u8
    }
}

/// The whole little-endian words of a byte sequence, in order.
pub open spec fn words_of(b: Seq<u8>) -> Seq<u32> {
    Seq::new(b.len() / 4, |i: int| le_u32(b, 4 * i))
}

/// The little-endian encoding of a sequence of words.
pub open spec fn bytes_of(ws: Seq<u32>) -> Seq<u8> {
    Seq::new(4 * ws.len(), |j: int| word_byte(ws[j / 4], j % 4))
}

pub fn read_u16_le(b: &[u8], at: usize) -> (r: u16)
    requires
        at + 2 <= b@.len(),
    ensures
        r == le_u16(b@, at as int),
{
    b[at] as u16 + (b[at + 1] as u16) * 0x100
}

pub fn read_u32_le(b: &[u8], at: usize) -> (r: u32)
    requires
        at + 4 <= b@.len(),
    ensures
        r == le_u32(b@, at as int),
{
    b[at] as u32 + (b[at + 1] as u32) * 0x100 + (b[at + 2] as u32) * 0x1_0000 + (b[at + 3] as u32)
        * 0x100_0000
}

/// Store `w` little-endian at `at`, leaving every other byte as it was.
pub fn write_u32_le(b: &mut [u8], at: usize, w: u32)
    requires
        at + 4 <= old(b)@.len(),
    ensures
        final(b)@.len() == old(b)@.len(),
        forall|j: int|
            0 <= j < old(b)@.len() ==> #[trigger] final(b)@[j] == if at <= j < at + 4 {
                word_byte(w, j - at)
            } else {
                old(b)@[j]
            },
{
    b[at] = (w % 0x100) as u8;
    b[at + 1] = ((w / 0x100) % 0x100) as u8;
    b[at + 2] = ((w / 0x1_0000) % 0x100) as u8;
    b[at + 3] = (w / 0x100_0000) as u8;
}

/// Decoding the four bytes of a word gives the word back.
pub proof fn lemma_word_bytes_decode(w: u32)
    ensures
        (word_byte(w, 0) as int + word_byte(w, 1) as int * 0x100 + word_byte(w, 2) as int
            * 0x1_0000 + word_byte(w, 3) as int * 0x100_0000) == w,
{
    let b0 = w % 0x100;
    let q0 = w / 0x100;
    let b1 = q0 % 0x100;
    let q1 = q0 / 0x100;
    let b2 = q1 % 0x100;
    let b3 = q1 / 0x100;
    assert(w / 0x1_0000 == q1) by (nonlinear_arith)
        requires q0 == w / 0x100, q1 == q0 / 0x100;
    assert(w / 0x100_0000 == b3) by (nonlinear_arith)
        requires q0 == w / 0x100, q1 == q0 / 0x100, b3 == q1 / 0x100;
}

/// Encoding the word read from four bytes gives those bytes back.
pub proof fn lemma_le_u32_encode(b: Seq<u8>, at: int)
    requires
        0 <= at,
        at + 4 <= b.len(),
    ensures
        forall|k: int| 0 <= k < 4 ==> #[trigger] word_byte(le_u32(b, at), k) == b[at + k],
{
    let b0 = b[at] as int;
    let b1 = b[at + 1] as int;
    let b2 = b[at + 2] as int;
    let b3 = b[at + 3] as int;
    let w = b0 + b1 * 0x100 + b2 * 0x1_0000 + b3 * 0x100_0000;
    assert(w < 0x1_0000_0000);
    assert(le_u32(b, at) == w);
    assert(w % 0x100 == b0 && (w / 0x100) % 0x100 == b1 && (w / 0x1_0000) % 0x100 == b2 && w
        / 0x100_0000 == b3) by (nonlinear_arith)
        requires
            w == b0 + b1 * 0x100 + b2 * 0x1_0000 + b3 * 0x100_0000,
            0 <= b0 < 0x100, 0 <= b1 < 0x100, 0 <= b2 < 0x100, 0 <= b3 < 0x100;
}

/// Decoding the encoding of words gives the words back.
pub proof fn lemma_words_of_bytes_of(ws: Seq<u32>)
    ensures
        words_of(bytes_of(ws)) == ws,
{
    let b = bytes_of(ws);
    assert forall|i: int| 0 <= i < ws.len() implies #[trigger] words_of(b)[i] == ws[i] by {
        lemma_word_bytes_decode(ws[i]);
        assert(b[4 * i] == word_byte(ws[i], 0));
        assert(b[4 * i + 1] == word_byte(ws[i], 1));
        assert(b[4 * i + 2] == word_byte(ws[i], 2));
        assert(b[4 * i + 3] == word_byte(ws[i], 3));
    }
    assert(words_of(b) =~= ws);
}

/// Encoding the words of a byte sequence whose length is a multiple of four
/// gives the sequence back.
pub proof fn lemma_bytes_of_words_of(b: Seq<u8>)
    requires
        b.len() % 4 == 0,
    ensures
        bytes_of(words_of(b)) == b,
{
    let ws = words_of(b);
    assert forall|j: int| 0 <= j < b.len() implies #[trigger] bytes_of(ws)[j] == b[j] by {
        let i = j / 4;
        lemma_le_u32_encode(b, 4 * i);
        assert(4 * i + j % 4 == j);
    }
    assert(bytes_of(ws) =~= b);
}

} // verus!
