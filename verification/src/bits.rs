//! The mathematical model of bit addressing: bit `i` of a byte sequence lives
//! in byte `i / 8` at position `i % 8` (LSB-first), and equivalently in
//! little-endian 64-bit word `i / 64` at position `i % 64`.

use vstd::arithmetic::div_mod::lemma_fundamental_div_mod;
use vstd::arithmetic::div_mod::lemma_fundamental_div_mod_converse;
use vstd::prelude::*;

verus! {

/// Bit `k` of the byte `b` (LSB-first), for `k < 8`.
pub open spec fn bit8(b: u8, k: u8) -> bool {
    (b >> k) & 1 == 1
}

/// Bit `k` of the word `w` (LSB-first), for `k < 64`.
pub open spec fn bit64(w: u64, k: u64) -> bool {
    (w >> k) & 1 == 1
}

/// Byte `i` of `bs`, with indices past the end reading as zero. The zero
/// padding models the construction-time obligation that bytes beyond the
/// packed data are zero.
pub open spec fn byte_at(bs: Seq<u8>, i: int) -> u8 {
    if 0 <= i < bs.len() {
        bs[i]
    } else {
        0
    }
}

/// Bit `i` of the packed byte sequence `bs` (LSB-first within each byte),
/// false at any index outside `[0, 8 * bs.len())`.
pub open spec fn bit_of_bytes(bs: Seq<u8>, i: int) -> bool {
    if i >= 0 {
        bit8(byte_at(bs, i / 8), (i % 8) as u8)
    } else {
        false
    }
}

/// The little-endian 64-bit word assembled from eight bytes.
pub open spec fn word_of(b0: u8, b1: u8, b2: u8, b3: u8, b4: u8, b5: u8, b6: u8, b7: u8) -> u64 {
    (b0 as u64) | ((b1 as u64) << 8) | ((b2 as u64) << 16) | ((b3 as u64) << 24)
        | ((b4 as u64) << 32) | ((b5 as u64) << 40) | ((b6 as u64) << 48) | ((b7 as u64) << 56)
}

/// Word `j` of the byte sequence `bs`, viewed as little-endian 64-bit words,
/// with bytes past the end reading as zero.
pub open spec fn word_at(bs: Seq<u8>, j: int) -> u64 {
    word_of(
        byte_at(bs, 8 * j),
        byte_at(bs, 8 * j + 1),
        byte_at(bs, 8 * j + 2),
        byte_at(bs, 8 * j + 3),
        byte_at(bs, 8 * j + 4),
        byte_at(bs, 8 * j + 5),
        byte_at(bs, 8 * j + 6),
        byte_at(bs, 8 * j + 7),
    )
}

/// Bit `i` of the word sequence `ws` (LSB-first within each little-endian
/// word), false at any index outside `[0, 64 * ws.len())`.
pub open spec fn wbit(ws: Seq<u64>, i: int) -> bool {
    if 0 <= i < 64 * ws.len() {
        bit64(ws[i / 64], (i % 64) as u64)
    } else {
        false
    }
}

/// Any bit of a word equals the matching bit of the byte extracted from it.
pub proof fn lemma_word_byte_bits(w: u64)
    by (bit_vector)
    ensures
        forall|k: u64| k < 64 ==> #[trigger] bit64(w, k) == bit8((w >> (8 * (k / 8))) as u8, (k % 8) as u8),
{
}

/// The eight bytes extracted from an assembled word are the assembled bytes.
pub proof fn lemma_word_of_bytes(b0: u8, b1: u8, b2: u8, b3: u8, b4: u8, b5: u8, b6: u8, b7: u8)
    by (bit_vector)
    ensures
        (word_of(b0, b1, b2, b3, b4, b5, b6, b7) >> 0) as u8 == b0,
        (word_of(b0, b1, b2, b3, b4, b5, b6, b7) >> 8) as u8 == b1,
        (word_of(b0, b1, b2, b3, b4, b5, b6, b7) >> 16) as u8 == b2,
        (word_of(b0, b1, b2, b3, b4, b5, b6, b7) >> 24) as u8 == b3,
        (word_of(b0, b1, b2, b3, b4, b5, b6, b7) >> 32) as u8 == b4,
        (word_of(b0, b1, b2, b3, b4, b5, b6, b7) >> 40) as u8 == b5,
        (word_of(b0, b1, b2, b3, b4, b5, b6, b7) >> 48) as u8 == b6,
        (word_of(b0, b1, b2, b3, b4, b5, b6, b7) >> 56) as u8 == b7,
{
}

/// Decomposition of a bit index against word boundaries: for `i == 64*j + k`
/// with `k < 64`, the byte index is `8*j + k/8` and the bit position `k % 8`.
pub proof fn lemma_bit_index(j: int, k: int)
    requires
        0 <= j,
        0 <= k < 64,
    ensures
        (64 * j + k) / 64 == j,
        (64 * j + k) % 64 == k,
        (64 * j + k) / 8 == 8 * j + k / 8,
        (64 * j + k) % 8 == k % 8,
{
    lemma_fundamental_div_mod_converse(64 * j + k, 64, j, k);
    lemma_fundamental_div_mod(k, 8);
    assert(64 * j + k == (8 * j + k / 8) * 8 + (k % 8)) by (nonlinear_arith)
        requires
            k == 8 * (k / 8) + k % 8,
    ;
    lemma_fundamental_div_mod_converse(64 * j + k, 8, 8 * j + k / 8, k % 8);
}

/// Division and remainder by 8 agree between `u64` and `int` arithmetic.
pub proof fn lemma_divmod8_u64(k: u64)
    requires
        k < 64,
    ensures
        (k / 8) as int == (k as int) / 8,
        (k % 8) as int == (k as int) % 8,
{
    assert(k == 8 * (k / 8) + (k % 8) && k % 8 < 8) by (bit_vector);
    lemma_fundamental_div_mod_converse(k as int, 8, (k / 8) as int, (k % 8) as int);
}

/// Bit `64*j + k` of a byte sequence is bit `k` of its word `j`.
pub proof fn lemma_word_bit(bs: Seq<u8>, j: int, k: int)
    requires
        0 <= j,
        0 <= k < 64,
    ensures
        bit64(word_at(bs, j), (k as u64)) == bit_of_bytes(bs, 64 * j + k),
{
    let w = word_at(bs, j);
    lemma_bit_index(j, k);
    lemma_word_byte_bits(w);
    lemma_word_of_bytes(
        byte_at(bs, 8 * j),
        byte_at(bs, 8 * j + 1),
        byte_at(bs, 8 * j + 2),
        byte_at(bs, 8 * j + 3),
        byte_at(bs, 8 * j + 4),
        byte_at(bs, 8 * j + 5),
        byte_at(bs, 8 * j + 6),
        byte_at(bs, 8 * j + 7),
    );
    let kk = k as u64;
    lemma_divmod8_u64(kk);
    assert(kk / 8 == 0 || kk / 8 == 1 || kk / 8 == 2 || kk / 8 == 3 || kk / 8 == 4 || kk / 8 == 5
        || kk / 8 == 6 || kk / 8 == 7) by (bit_vector)
        requires
            kk < 64,
    ;
    assert(byte_at(bs, 8 * j + k / 8) == (w >> (8 * (kk / 8))) as u8);
}

/// The byte sequence viewed as little-endian 64-bit words, its length
/// rounded up to the next word boundary, bytes past the end reading as zero.
pub open spec fn words_of_bytes(bs: Seq<u8>) -> Seq<u64> {
    Seq::new((((bs.len() + 7) / 8) as nat), |j: int| word_at(bs, j))
}

/// The word view of a byte sequence addresses exactly the bytes' bits: bit
/// `i` of the words is bit `i` of the bytes, as long as `i` lies within the
/// word-rounded span.
pub proof fn lemma_words_of_bytes_bit(bs: Seq<u8>, i: int)
    requires
        0 <= i,
    ensures
        wbit(words_of_bytes(bs), i) == (i < 64 * words_of_bytes(bs).len() && bit_of_bytes(bs, i)),
{
    let ws = words_of_bytes(bs);
    if i < 64 * ws.len() {
        lemma_fundamental_div_mod(i, 64);
        let j = i / 64;
        let m = i % 64;
        assert(0 <= j < ws.len()) by (nonlinear_arith)
            requires
                i == 64 * j + m,
                0 <= m < 64,
                0 <= i < 64 * ws.len(),
        ;
        lemma_wbit_index(ws, j, m);
        lemma_word_bit(bs, j, m);
    }
}

/// Bit `64*j + k` of a word sequence is bit `k` of its word `j`.
pub proof fn lemma_wbit_index(ws: Seq<u64>, j: int, k: int)
    requires
        0 <= j < ws.len(),
        0 <= k < 64,
    ensures
        wbit(ws, 64 * j + k) == bit64(ws[j], k as u64),
{
    lemma_bit_index(j, k);
    assert(64 * j + k < 64 * ws.len()) by (nonlinear_arith)
        requires
            j < ws.len(),
            k < 64,
    ;
}

} // verus!
