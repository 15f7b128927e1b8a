//! Range scanning: extract the ascending list of maximal `[start, end)` runs
//! of set bits from a packed bit stream, one word at a time, using
//! trailing-zero counts and all-zero / all-one word tests rather than
//! per-bit iteration.

use crate::bits::bit64;
use crate::bits::lemma_wbit_index;
use crate::bits::wbit;
use vstd::prelude::*;
use vstd::std_specs::bits::axiom_u64_trailing_zeros;

verus! {

/// Bit `b` lies inside one of the listed ranges.
pub open spec fn covered(rs: Seq<(usize, usize)>, b: int) -> bool {
    exists|t: int| 0 <= t < rs.len() && (#[trigger] rs[t]).0 <= b < rs[t].1
}

/// `rs` is exactly the ascending list of maximal runs of set bits of the
/// first `64 * ws.len()` bits of the word stream `ws`: every listed range is
/// in bounds, non-empty, all-set, and flanked by clear bits; ranges are
/// sorted and never touch; and every set bit lies in some listed range.
pub open spec fn scan_ok(rs: Seq<(usize, usize)>, ws: Seq<u64>) -> bool {
    let span = 64 * ws.len() as int;
    &&& forall|t: int| 0 <= t < rs.len() ==> (#[trigger] rs[t]).0 < rs[t].1 <= span
    &&& forall|t: int| 0 <= t < rs.len() - 1 ==> (#[trigger] rs[t]).1 < rs[t + 1].0
    &&& forall|t: int, b: int|
        #![trigger rs[t], wbit(ws, b)]
        0 <= t < rs.len() && rs[t].0 <= b < rs[t].1 ==> wbit(ws, b)
    &&& forall|t: int| 0 <= t < rs.len() && (#[trigger] rs[t]).0 > 0 ==> !wbit(ws, rs[t].0 - 1)
    &&& forall|t: int|
        0 <= t < rs.len() && (#[trigger] rs[t]).1 < span ==> !wbit(ws, rs[t].1 as int)
    &&& forall|b: int| 0 <= b < span && wbit(ws, b) ==> covered(rs, b)
}

/// The scanner's running state after deciding the first `cur` bits: the
/// closed ranges in `rs`, plus, when `open`, a run begun at `run_start` whose
/// end is not yet known.
spec fn scan_state(rs: Seq<(usize, usize)>, ws: Seq<u64>, cur: int, open: bool, run_start: int) -> bool {
    &&& 0 <= cur <= 64 * ws.len()
    &&& forall|t: int| 0 <= t < rs.len() ==> (#[trigger] rs[t]).0 < rs[t].1 <= cur
    &&& forall|t: int| 0 <= t < rs.len() - 1 ==> (#[trigger] rs[t]).1 < rs[t + 1].0
    &&& forall|t: int, b: int|
        #![trigger rs[t], wbit(ws, b)]
        0 <= t < rs.len() && rs[t].0 <= b < rs[t].1 ==> wbit(ws, b)
    &&& forall|t: int| 0 <= t < rs.len() && (#[trigger] rs[t]).0 > 0 ==> !wbit(ws, rs[t].0 - 1)
    &&& forall|t: int| 0 <= t < rs.len() ==> !wbit(ws, (#[trigger] rs[t]).1 as int)
    &&& (open ==> 0 <= run_start < cur)
    &&& (open ==> forall|b: int| run_start <= b < cur ==> wbit(ws, b))
    &&& (open ==> run_start == 0 || !wbit(ws, run_start - 1))
    &&& (open ==> forall|t: int| 0 <= t < rs.len() ==> (#[trigger] rs[t]).1 < run_start)
    &&& forall|b: int|
        0 <= b < cur && wbit(ws, b) ==> covered(rs, b) || (open && run_start <= b)
}

/// A zero word has no set bits; an all-ones word has every bit set; negation
/// flips each bit.
proof fn lemma_word_consts(w: u64)
    by (bit_vector)
    ensures
        forall|m: u64| m < 64 ==> !(#[trigger] bit64(0u64, m)),
        forall|m: u64| m < 64 ==> #[trigger] bit64(u64::MAX, m),
        forall|m: u64| m < 64 ==> #[trigger] bit64(!w, m) == !bit64(w, m),
{
}

/// Bits of a shifted word read the source's higher bits; bits shifted in
/// from above are zero.
proof fn lemma_shr_bit(w: u64, p: u64)
    by (bit_vector)
    requires
        p < 64,
    ensures
        forall|k: u64| k < 64 - p ==> #[trigger] bit64(w >> p, k) == bit64(w, (p + k) as u64),
{
}

/// What a trailing-zero count of `w >> p` says about the bits of `w` itself:
/// the `tz` bits from position `p` upward are clear, and the bit just past
/// them is set when it exists within the word.
proof fn lemma_tz_window(w: u64, p: u64, tz: u64)
    requires
        p < 64,
        tz == vstd::std_specs::bits::u64_trailing_zeros(w >> p),
    ensures
        forall|k: u64| p <= k < 64 && k < p + tz ==> !(#[trigger] bit64(w, k)),
        tz < 64 - p ==> bit64(w, (p + tz) as u64),
{
    axiom_u64_trailing_zeros(w >> p);
    lemma_shr_bit(w, p);
    assert forall|k: u64| p <= k < 64 && k < p + tz implies !(#[trigger] bit64(w, k)) by {
        let j = (k - p) as u64;
        assert(((w >> p) >> j) & 1u64 == 0u64);
        assert(!bit64(w >> p, j));
    }
    if tz < 64 - p {
        assert(((w >> p) >> tz) & 1u64 == 1u64);
        assert(bit64(w >> p, tz));
    }
}

/// Produce the ascending list of maximal runs of set bits across the whole
/// word stream. One linear pass: all-zero and all-one words advance in O(1),
/// and within a mixed word each run is located with trailing-zero counts, so
/// the work is proportional to words plus discovered runs, never bits.
pub fn set_ranges(words: &Vec<u64>) -> (rs: Vec<(usize, usize)>)
    requires
        64 * words@.len() <= usize::MAX,
    ensures
        scan_ok(rs@, words@),
{
    let ghost ws = words@;
    let n = words.len();
    let mut rs: Vec<(usize, usize)> = Vec::new();
    let mut open: bool = false;
    let mut run_start: usize = 0;
    let mut wi: usize = 0;

    while wi < n
        invariant
            wi <= n,
            n == ws.len(),
            64 * n <= usize::MAX,
            ws == words@,
            scan_state(rs@, ws, 64 * wi, open, run_start as int),
        decreases n - wi,
    {
        let w = words[wi];
        let base: usize = 64 * wi;
        proof {
            assert(64 * wi + 64 <= 64 * n);
            assert forall|m: int| 0 <= m < 64 implies wbit(ws, base + m) == #[trigger] bit64(
                w,
                m as u64,
            ) by {
                lemma_wbit_index(ws, wi as int, m);
            }
            lemma_word_consts(w);
        }

        if w == 0 {
            let ghost rs0 = rs@;
            let ghost rstart = run_start as int;
            let ghost was_open = open;
            if open {
                let pair = (run_start, base);
                rs.push(pair);
                open = false;
            }
            proof {
                assert forall|b: int| base <= b < base + 64 implies !wbit(ws, b) by {
                    assert(!bit64(w, (b - base) as u64));
                }
                if was_open {
                    assert forall|b: int|
                        0 <= b < base + 64 && wbit(ws, b) implies covered(rs@, b) by {
                        if covered(rs0, b) {
                            let t = choose|t: int|
                                0 <= t < rs0.len() && (#[trigger] rs0[t]).0 <= b < rs0[t].1;
                            assert(rs@[t].0 <= b < rs@[t].1);
                        } else {
                            assert(rstart <= b < base);
                            assert(rs@[rs@.len() - 1].0 <= b < rs@[rs@.len() - 1].1);
                        }
                    }
                }
            }
        } else if w == u64::MAX {
            if !open {
                proof {
                    if base > 0 && wbit(ws, base - 1) {
                        let t = choose|t: int|
                            0 <= t < rs@.len() && (#[trigger] rs@[t]).0 <= base - 1 < rs@[t].1;
                        assert(!wbit(ws, rs@[t].1 as int));
                        assert(wbit(ws, base + 0) == bit64(w, 0));
                        assert(false);
                    }
                }
                run_start = base;
                open = true;
            }
        } else {
            let mut pos: usize;
            if open {
                let tz = (!w).trailing_zeros() as usize;
                let ghost rs0 = rs@;
                let ghost rstart = run_start as int;
                proof {
                    axiom_u64_trailing_zeros(!w);
                    assert(w != u64::MAX ==> !w != 0u64) by (bit_vector);
                    assert(tz < 64);
                    assert forall|m: u64| m < tz implies #[trigger] bit64(w, m) by {
                        assert(((!w) >> m) & 1u64 == 0u64);
                        assert(!bit64(!w, m));
                    }
                    assert(!bit64(w, tz as u64)) by {
                        assert(((!w) >> (tz as u64)) & 1u64 == 1u64);
                        assert(bit64(!w, tz as u64));
                    }
                }
                let pair = (run_start, base + tz);
                rs.push(pair);
                open = false;
                pos = tz;
                proof {
                    assert forall|b: int|
                        0 <= b < base + pos && wbit(ws, b) implies covered(rs@, b) by {
                        if covered(rs0, b) {
                            let t = choose|t: int|
                                0 <= t < rs0.len() && (#[trigger] rs0[t]).0 <= b < rs0[t].1;
                            assert(rs@[t].0 <= b < rs@[t].1);
                        } else {
                            assert(rstart <= b);
                            assert(rs@[rs@.len() - 1].0 <= b < rs@[rs@.len() - 1].1);
                        }
                    }
                    assert forall|b: int| rstart <= b < base + pos implies wbit(ws, b) by {
                        if b >= base {
                            assert(bit64(w, (b - base) as u64));
                        }
                    }
                }
            } else {
                pos = 0;
            }

            while pos < 64
                invariant
                    pos <= 64,
                    wi < n,
                    n == ws.len(),
                    64 * n <= usize::MAX,
                    ws == words@,
                    base == 64 * wi,
                    w == ws[wi as int],
                    forall|m: int|
                        0 <= m < 64 ==> wbit(ws, base + m) == #[trigger] bit64(w, m as u64),
                    open ==> pos == 64,
                    scan_state(rs@, ws, base + pos, open, run_start as int),
                decreases 64 - pos,
            {
                let rest = w >> (pos as u64);
                let tz0 = rest.trailing_zeros() as usize;
                proof {
                    lemma_tz_window(w, pos as u64, tz0 as u64);
                }
                if tz0 >= 64 - pos {
                    proof {
                        assert forall|b: int|
                            base + pos <= b < base + 64 implies !wbit(ws, b) by {
                            assert(!bit64(w, (b - base) as u64));
                        }
                    }
                    pos = 64;
                } else {
                    let s0 = pos + tz0;
                    proof {
                        assert(bit64(w, s0 as u64));
                        // The bit before the new run start is clear: either it
                        // is among the zeros just skipped, or the state's
                        // completeness pins it inside a closed range whose end
                        // bit would then have to be both clear and set.
                        if base + s0 > 0 && wbit(ws, base + s0 - 1) {
                            assert(s0 == pos);
                            assert(base + pos > 0);
                            let bb = base + pos - 1;
                            assert(wbit(ws, bb));
                            let t = choose|t: int|
                                0 <= t < rs@.len() && (#[trigger] rs@[t]).0 <= bb < rs@[t].1;
                            assert(!wbit(ws, rs@[t].1 as int));
                            assert(false);
                        }
                    }
                    let tnw = ((!w) >> (s0 as u64)).trailing_zeros() as usize;
                    proof {
                        axiom_u64_trailing_zeros((!w) >> (s0 as u64));
                        lemma_word_consts(w);
                        assert forall|m: u64| s0 <= m < 64 && m < s0 + tnw implies #[trigger] bit64(
                            w,
                            m,
                        ) by {
                            lemma_shr_bit(!w, s0 as u64);
                            let k = (m - s0) as u64;
                            assert((((!w) >> (s0 as u64)) >> k) & 1u64 == 0u64);
                            assert(bit64((!w) >> (s0 as u64), k) == bit64(!w, ((s0 as u64) + k) as u64));
                            assert(!bit64(!w, m));
                        }
                        assert(tnw >= 1) by {
                            if tnw == 0 {
                                assert((((!w) >> (s0 as u64)) >> 0u64) & 1u64 == 1u64);
                                assert(((!w) >> (s0 as u64)) == (((!w) >> (s0 as u64)) >> 0u64))
                                    by (bit_vector);
                                lemma_shr_bit(!w, s0 as u64);
                                assert(bit64((!w) >> (s0 as u64), 0) == bit64(!w, ((s0 as u64) + 0) as u64));
                                assert(bit64(!w, s0 as u64));
                            }
                        }
                    }
                    if tnw >= 64 - s0 {
                        proof {
                            assert forall|b: int|
                                base + s0 <= b < base + 64 implies wbit(ws, b) by {
                                assert(bit64(w, (b - base) as u64));
                            }
                        }
                        run_start = base + s0;
                        open = true;
                        pos = 64;
                    } else {
                        let e0 = s0 + tnw;
                        let ghost rs0 = rs@;
                        proof {
                            lemma_shr_bit(!w, s0 as u64);
                            assert((((!w) >> (s0 as u64)) >> (tnw as u64)) & 1u64 == 1u64);
                            assert(bit64((!w) >> (s0 as u64), tnw as u64) == bit64(
                                !w,
                                ((s0 as u64) + (tnw as u64)) as u64,
                            ));
                            assert(!bit64(w, e0 as u64));
                            assert(!wbit(ws, base + e0));
                            assert forall|b: int|
                                base + s0 <= b < base + e0 implies wbit(ws, b) by {
                                assert(bit64(w, (b - base) as u64));
                            }
                        }
                        let pair = (base + s0, base + e0);
                        rs.push(pair);
                        proof {
                            assert forall|b: int|
                                0 <= b < base + e0 && wbit(ws, b) implies covered(rs@, b) by {
                                if b < base + pos {
                                    let t = choose|t: int|
                                        0 <= t < rs0.len() && (#[trigger] rs0[t]).0 <= b
                                            < rs0[t].1;
                                    assert(rs@[t].0 <= b < rs@[t].1);
                                } else if b < base + s0 {
                                    assert(!bit64(w, (b - base) as u64));
                                    assert(false);
                                } else {
                                    assert(rs@[rs@.len() - 1].0 <= b < rs@[rs@.len() - 1].1);
                                }
                            }
                        }
                        pos = e0;
                    }
                }
            }
        }
        wi = wi + 1;
    }

    if open {
        let end = 64 * n;
        let ghost rs0 = rs@;
        let ghost rstart = run_start as int;
        let pair = (run_start, end);
        rs.push(pair);
        proof {
            assert forall|b: int| 0 <= b < 64 * n && wbit(ws, b) implies covered(rs@, b) by {
                if covered(rs0, b) {
                    let t = choose|t: int|
                        0 <= t < rs0.len() && (#[trigger] rs0[t]).0 <= b < rs0[t].1;
                    assert(rs@[t].0 <= b < rs@[t].1);
                } else {
                    assert(rstart <= b);
                    assert(rs@[rs@.len() - 1].0 <= b < rs@[rs@.len() - 1].1);
                }
            }
        }
    }

    rs
}

} // verus!
