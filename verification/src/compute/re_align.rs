//! Realignment: shift a packed bit stream that starts at bit offset `shift`
//! (0-63) within its first word down to offset 0, by merging each pair of
//! adjacent source words into one destination word.

use crate::bits::bit64;
use vstd::prelude::*;

verus! {

/// The realignment relation: `dst[k] = (src[k] >> shift) | (src[k+1] << (64 - shift))`
/// for every output word but the last, whose high bits have no source word and
/// stay zero; `shift == 0` degenerates to a straight copy.
pub open spec fn re_aligned(src: Seq<u64>, len: int, shift: u64, dst: Seq<u64>) -> bool {
    &&& dst.len() == len
    &&& (shift == 0 ==> forall|k: int| 0 <= k < len ==> dst[k] == src[k])
    &&& (shift != 0 ==> (forall|k: int|
        0 <= k < len - 1 ==> dst[k] == (src[k] >> shift) | (src[k + 1] << ((64 - shift) as u64))))
    &&& (shift != 0 && len > 0 ==> dst[len - 1] == src[len - 1] >> shift)
}

/// Produce the byte-0-aligned stream: `len` words assembled from the source
/// words with a downward shift of `shift` bits. A single linear pass.
pub fn re_align(src: &Vec<u64>, len: usize, shift: u32) -> (dst: Vec<u64>)
    requires
        len <= src.len(),
        shift < 64,
    ensures
        re_aligned(src@, len as int, shift as u64, dst@),
{
    let mut dst: Vec<u64> = Vec::new();
    if len == 0 {
        return dst;
    }

    let sh: u64 = shift as u64;

    if sh == 0 {
        let mut k: usize = 0;
        while k < len
            invariant
                k <= len <= src.len(),
                dst@.len() == k,
                forall|t: int| 0 <= t < k ==> dst@[t] == src@[t],
            decreases len - k,
        {
            dst.push(src[k]);
            k = k + 1;
        }
        return dst;
    }

    let right_shift: u64 = 64 - sh;

    let mut left: u64 = src[0];
    let mut k: usize = 0;
    while k < len - 1
        invariant
            0 < sh < 64,
            right_shift == 64 - sh,
            k <= len - 1,
            len <= src.len(),
            dst@.len() == k,
            left == src@[k as int],
            forall|t: int| 0 <= t < k ==> dst@[t] == (src@[t] >> sh) | (src@[t + 1] << right_shift),
        decreases len - k,
    {
        let right: u64 = src[k + 1];
        dst.push((left >> sh) | (right << right_shift));
        left = right;
        k = k + 1;
    }

    dst.push(left >> sh);
    dst
}

/// Each bit of a merged word comes from the matching bit of the shifted pair:
/// bit `m` of `(a >> s) | (b << (64 - s))` is bit `m + s` of `a` while that
/// index stays within `a`, and bit `m + s - 64` of `b` beyond it.
pub proof fn lemma_merge_bits(a: u64, b: u64, s: u64)
    by (bit_vector)
    requires
        0 < s < 64,
    ensures
        forall|m: u64|
            m < 64 - s ==> (#[trigger] bit64((a >> s) | (b << ((64 - s) as u64)), m)) == bit64(
                a,
                (m + s) as u64,
            ),
        forall|m: u64|
            64 - s <= m < 64 ==> (#[trigger] bit64((a >> s) | (b << ((64 - s) as u64)), m))
                == bit64(b, (m + s - 64) as u64),
{
}

/// Realigning an all-ones source region with a non-zero shift yields all-ones
/// output words everywhere a pair of source words feeds the merge; in the last
/// word, exactly the low `64 - shift` bits are ones, and the bits addressed
/// beyond them are zero.
pub proof fn lemma_re_align_all_ones(src: Seq<u64>, len: int, shift: u64, dst: Seq<u64>)
    requires
        0 < shift < 64,
        0 < len <= src.len(),
        re_aligned(src, len, shift, dst),
        forall|j: int| 0 <= j < len ==> src[j] == u64::MAX,
    ensures
        forall|k: int| 0 <= k < len - 1 ==> dst[k] == u64::MAX,
        forall|m: u64| m < 64 - shift ==> #[trigger] bit64(dst[len - 1], m),
        forall|m: u64| 64 - shift <= m < 64 ==> !(#[trigger] bit64(dst[len - 1], m)),
{
    assert forall|k: int| 0 <= k < len - 1 implies dst[k] == u64::MAX by {
        let s = shift;
        assert((u64::MAX >> s) | (u64::MAX << ((64 - s) as u64)) == u64::MAX) by (bit_vector)
            requires
                0 < s < 64,
        ;
    }
    let w = dst[len - 1];
    let s = shift;
    assert forall|m: u64| m < 64 - s implies bit64(w, m) by {
        assert(m < 64 - s ==> bit64(u64::MAX >> s, m)) by (bit_vector)
            requires
                0 < s < 64,
        ;
    }
    assert forall|m: u64| 64 - s <= m < 64 implies !bit64(w, m) by {
        assert(64 - s <= m < 64 ==> !bit64(u64::MAX >> s, m)) by (bit_vector)
            requires
                0 < s < 64,
        ;
    }
}

} // verus!
