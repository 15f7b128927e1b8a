//! An uncompressed bitmap, optimized for dense bitmaps: one bit per logical
//! element over a shared, immutable byte buffer, with O(1) random access,
//! slicing at an arbitrary bit offset, and extraction of maximal runs of set
//! bits.

use crate::bits::bit64;
use crate::bits::bit8;
use crate::bits::bit_of_bytes;
use crate::bits::byte_at;
use crate::bits::word_at;
use crate::bits::words_of_bytes;
use crate::buffer::buffer_bytes;
use crate::buffer::buffer_len;
use crate::buffer::buffer_new;
use crate::buffer::buffer_read;
use crate::buffer::buffer_share;
use crate::buffer::buffer_write;
use arrs_buffer::Buffer;
use std::sync::Arc;
use vstd::arithmetic::div_mod::lemma_div_is_ordered;
use vstd::arithmetic::div_mod::lemma_fundamental_div_mod;
use vstd::prelude::*;

verus! {

/// An immutable packed sequence of booleans over a shared buffer. Bit `i`
/// lives in byte `i / 8` at position `i % 8` (LSB-first). The view of a
/// bitmap is its sequence of booleans.
#[derive(Clone)]
pub struct Bitmap {
    buf: Arc<Buffer>,
    num_bits: usize,
}

impl View for Bitmap {
    type V = Seq<bool>;

    closed spec fn view(&self) -> Seq<bool> {
        Seq::new(self.num_bits as nat, |i: int| bit_of_bytes(buffer_bytes(*self.buf), i))
    }
}

impl Bitmap {
    /// The byte contents of the underlying buffer.
    pub closed spec fn bytes_spec(&self) -> Seq<u8> {
        buffer_bytes(*self.buf)
    }

    /// The shared buffer handle.
    pub closed spec fn handle_spec(&self) -> Arc<Buffer> {
        self.buf
    }

    /// Well-formedness: the buffer holds at least `ceil(num_bits / 8)` bytes,
    /// and the buffer is small enough that every bit index of its word-rounded
    /// span fits in `usize`.
    pub closed spec fn wf(&self) -> bool {
        &&& (self.num_bits + 7) / 8 <= self.bytes_spec().len()
        &&& 8 * self.bytes_spec().len() + 64 <= usize::MAX
    }

    /// The bit count never exceeds the bit capacity of the buffer.
    pub proof fn lemma_wf_capacity(&self)
        requires
            self.wf(),
        ensures
            self@.len() <= 8 * self.bytes_spec().len(),
    {
        let n = self.num_bits as int;
        lemma_fundamental_div_mod(n + 7, 8);
    }

    /// Every bit of the view is the addressed bit of the buffer's bytes.
    pub proof fn lemma_view_bits(&self)
        ensures
            forall|i: int| 0 <= i < self@.len() ==> self@[i] == bit_of_bytes(self.bytes_spec(), i),
    {
    }

    /// Create a bitmap from a buffer already holding packed bits.
    ///
    /// The buffer must be able to hold the given number of bits.
    pub fn from_buf(buf: Arc<Buffer>, num_bits: usize) -> (r: Bitmap)
        requires
            num_bits + 7 <= usize::MAX,
            (num_bits + 7) / 8 <= buffer_bytes(*buf).len(),
            8 * buffer_bytes(*buf).len() + 64 <= usize::MAX,
        ensures
            r.wf(),
            r@ == Seq::new(num_bits as nat, |i: int| bit_of_bytes(buffer_bytes(*buf), i)),
            r@.len() == num_bits,
            r.bytes_spec() == buffer_bytes(*buf),
            r.handle_spec() == buf,
    {
        Bitmap { buf, num_bits }
    }

    /// Number of bits in this bitmap.
    pub fn num_bits(&self) -> (r: usize)
        ensures
            r == self@.len(),
    {
        self.num_bits
    }

    /// Returns a shared handle to the underlying buffer.
    pub fn buf(&self) -> (r: Arc<Buffer>)
        ensures
            r == self.handle_spec(),
    {
        buffer_share(&self.buf)
    }

    /// Returns the bit at `bit_index`; the caller must guarantee that the
    /// index is within the bitmap. This is the hot-path accessor without the
    /// bounds check.
    pub fn get_unchecked(&self, bit_index: usize) -> (r: bool)
        requires
            self.wf(),
            bit_index < self@.len(),
        ensures
            r == self@[bit_index as int],
    {
        proof {
            self.lemma_wf_capacity();
            lemma_fundamental_div_mod(bit_index as int, 8);
        }
        let byte_index: usize = bit_index / 8;
        let byte: u8 = buffer_read(&self.buf, byte_index);
        let k: u8 = (bit_index % 8) as u8;
        let r = byte & (1u8 << k) != 0;
        proof {
            lemma_mask_bit(byte, k);
            assert(byte_at(self.bytes_spec(), bit_index as int / 8) == byte);
        }
        r
    }

    /// Returns the bit at `bit_index`, or nothing when the index is at or
    /// beyond the bitmap's length.
    pub fn get(&self, bit_index: usize) -> (r: Option<bool>)
        requires
            self.wf(),
        ensures
            r == if bit_index < self@.len() {
                Some(self@[bit_index as int])
            } else {
                None::<bool>
            },
    {
        if bit_index >= self.num_bits {
            return None;
        }

        Some(self.get_unchecked(bit_index))
    }
}

impl Bitmap {
    /// Pack a sequence of booleans into a fresh, tightly-sized bitmap:
    /// `ceil(len / 8)` bytes, bit `i` in byte `i / 8` at position `i % 8`,
    /// LSB-first, with the unused high bits of the final byte zero.
    ///
    /// The length bound is a machine limit: a slice of booleans occupies one
    /// byte per element, so its length fits in `isize`.
    pub fn from_bools(bools: &[bool]) -> (r: Bitmap)
        requires
            bools@.len() <= usize::MAX / 2,
        ensures
            r.wf(),
            r@ == bools@,
            r.bytes_spec().len() == (bools@.len() + 7) / 8,
            forall|i: int| i >= bools@.len() ==> !bit_of_bytes(r.bytes_spec(), i),
    {
        let num_bits: usize = bools.len();
        let num_bytes: usize = num_bits / 8 + if num_bits % 8 > 0 {
            1
        } else {
            0
        };
        proof {
            lemma_fundamental_div_mod(num_bits as int, 8);
            lemma_div_is_ordered(num_bits as int, usize::MAX as int / 2, 8);
            lemma_ceil8(num_bits as int);
        }

        let mut buffer = buffer_new(num_bytes);

        let mut bi: usize = 0;
        while bi < num_bytes
            invariant
                num_bits == bools@.len(),
                num_bits <= usize::MAX / 2,
                num_bytes == (num_bits + 7) / 8,
                8 * num_bytes + 64 <= usize::MAX,
                bi <= num_bytes,
                buffer_bytes(buffer).len() == num_bytes,
                forall|i: int|
                    0 <= i < 8 * bi && i < num_bits ==> bit_of_bytes(buffer_bytes(buffer), i)
                        == bools@[i],
                forall|i: int|
                    num_bits <= i < 8 * bi ==> !bit_of_bytes(buffer_bytes(buffer), i),
            decreases num_bytes - bi,
        {
            let base: usize = 8 * bi;
            let limit: usize = if num_bits - base < 8 {
                num_bits - base
            } else {
                8
            };
            proof {
                lemma_fundamental_div_mod(num_bits as int, 8);
                lemma_zero_bits();
            }

            let mut byte: u8 = 0;
            let mut k: usize = 0;
            while k < limit
                invariant
                    num_bits == bools@.len(),
                    base + limit <= num_bits,
                    limit <= 8,
                    k <= limit,
                    forall|j: u8| j < k ==> #[trigger] bit8(byte, j) == bools@[base + j],
                    forall|j: u8| k <= j < 8 ==> !(#[trigger] bit8(byte, j)),
                decreases limit - k,
            {
                if bools[base + k] {
                    proof {
                        lemma_or_bit(byte, k as u8);
                    }
                    byte = byte | (1u8 << (k as u8));
                }
                k = k + 1;
            }

            let ghost pre = buffer_bytes(buffer);
            buffer_write(&mut buffer, bi, byte);
            proof {
                let bs = buffer_bytes(buffer);
                assert forall|i: int| 0 <= i < 8 * (bi + 1) && i < num_bits implies bit_of_bytes(
                    bs,
                    i,
                ) == bools@[i] by {
                    lemma_fundamental_div_mod(i, 8);
                    if i < 8 * bi {
                        assert(i / 8 < bi);
                        assert(byte_at(bs, i / 8) == byte_at(pre, i / 8));
                    } else {
                        crate::bits::lemma_bit_index(bi as int, i - 8 * bi);
                        assert(i / 8 == bi && i % 8 == i - 8 * bi);
                        assert(bit8(byte, (i - 8 * bi) as u8) == bools@[i]);
                    }
                }
                assert forall|i: int| num_bits <= i < 8 * (bi + 1) implies !bit_of_bytes(
                    bs,
                    i,
                ) by {
                    lemma_fundamental_div_mod(i, 8);
                    if i < 8 * bi {
                        assert(i / 8 < bi);
                        assert(byte_at(bs, i / 8) == byte_at(pre, i / 8));
                    } else {
                        crate::bits::lemma_bit_index(bi as int, i - 8 * bi);
                        assert(i - 8 * bi >= limit);
                        assert(!bit8(byte, (i - 8 * bi) as u8));
                    }
                }
            }
            bi = bi + 1;
        }

        let r = Bitmap { buf: Arc::new(buffer), num_bits };
        proof {
            lemma_fundamental_div_mod(num_bits as int, 8);
            assert forall|i: int| i >= num_bits implies !bit_of_bytes(r.bytes_spec(), i) by {
                if i < 8 * num_bytes {
                } else {
                    lemma_fundamental_div_mod(i, 8);
                    assert(i / 8 >= num_bytes);
                    assert(byte_at(r.bytes_spec(), i / 8) == 0);
                    lemma_zero_bits();
                }
            }
            assert(r@ =~= bools@);
        }
        r
    }
}

impl Bitmap {
    /// Slices the bitmap, keeping `num_bits` bits starting at `start_bit`.
    ///
    /// When `start_bit == 0` this shares the same buffer handle, O(1) and
    /// zero-copy; this is deliberately the only zero-copy case. Any non-zero
    /// start allocates a new, tightly-sized buffer and realigns the source
    /// bit stream down by `start_bit % 64`, beginning at word
    /// `start_bit / 64`.
    ///
    /// The given range must lie inside the bitmap.
    pub fn slice(&self, start_bit: usize, num_bits: usize) -> (r: Bitmap)
        requires
            self.wf(),
            start_bit + num_bits <= self@.len(),
        ensures
            r.wf(),
            r@ == self@.subrange(start_bit as int, start_bit + num_bits),
            start_bit == 0 ==> r.handle_spec() == self.handle_spec(),
            start_bit != 0 ==> r.bytes_spec().len() == (num_bits + 7) / 8,
    {
        proof {
            self.lemma_wf_capacity();
        }

        if start_bit == 0 {
            let r = Bitmap { buf: buffer_share(&self.buf), num_bits };
            proof {
                lemma_div_is_ordered(num_bits + 7, self.num_bits + 7, 8);
                assert(r@ =~= self@.subrange(0, num_bits as int));
            }
            return r;
        }

        let num_bytes: usize = num_bits / 8 + if num_bits % 8 > 0 {
            1
        } else {
            0
        };
        let start_word: usize = start_bit / 64;
        let shift: u64 = (start_bit % 64) as u64;
        let n_words: usize = (num_bits + 63) / 64 + 1;

        let ghost old_bs = self.bytes_spec();

        proof {
            lemma_ceil8(num_bits as int);
            lemma_fundamental_div_mod(num_bits as int, 8);
            lemma_fundamental_div_mod(start_bit as int, 64);
            lemma_fundamental_div_mod(num_bits + 63, 64);
            // The word walk stays within address arithmetic: every byte index
            // read stays a few words past the source length, well under
            // `usize::MAX`.
            assert(64 * (start_word + n_words) <= start_bit + num_bits + 127) by {
                assert(64 * (start_word + n_words as int) == 64 * start_word + 64 * (n_words as int));
            }
            assert(8 * (start_word + n_words) + 8 <= usize::MAX) by {
                assert(8 * (start_word + n_words as int) + 8 <= 64 * (start_word + n_words as int));
            }
        }

        // Gather the source words feeding the realignment.
        let mut src: Vec<u64> = Vec::new();
        let mut j: usize = 0;
        while j < n_words
            invariant
                j <= n_words,
                8 * (start_word + n_words) + 8 <= usize::MAX,
                src@.len() == j,
                forall|t: int| 0 <= t < j ==> src@[t] == word_at(old_bs, start_word + t),
                old_bs == self.bytes_spec(),
            decreases n_words - j,
        {
            src.push(load_word(&self.buf, start_word + j));
            j = j + 1;
        }

        let dst = crate::compute::re_align::re_align(&src, n_words, shift as u32);

        proof {
            // The new byte length fits: `ceil(num_bits/8) <= 8 * (n_words - 1)`.
            let y = (num_bits + 63) / 64;
            assert(64 * y >= num_bits) by {
                lemma_fundamental_div_mod(num_bits + 63, 64);
            }
            lemma_div_is_ordered(num_bits + 7, 64 * y + 7, 8);
            vstd::arithmetic::div_mod::lemma_fundamental_div_mod_converse(64 * y + 7, 8, 8 * y, 7);
            assert(num_bytes <= 8 * (n_words - 1));
            // And the fresh buffer is no larger than the source buffer.
            lemma_div_is_ordered(num_bits + 7, self.num_bits + 7, 8);
            assert(num_bytes + 64 <= usize::MAX / 2) by {
                lemma_div_is_ordered(8 * num_bytes as int, usize::MAX as int, 8);
                vstd::arithmetic::div_mod::lemma_fundamental_div_mod_converse(
                    8 * num_bytes as int,
                    8,
                    num_bytes as int,
                    0,
                );
            }
        }

        let mut buffer = buffer_new(num_bytes);
        let mut bi: usize = 0;
        while bi < num_bytes
            invariant
                bi <= num_bytes,
                num_bytes <= 8 * (n_words - 1),
                n_words == dst@.len(),
                buffer_bytes(buffer).len() == num_bytes,
                forall|t: int|
                    0 <= t < bi ==> buffer_bytes(buffer)[t] == (dst@[t / 8] >> ((8 * (t % 8))
                        as u64)) as u8,
            decreases num_bytes - bi,
        {
            proof {
                lemma_fundamental_div_mod(bi as int, 8);
            }
            let w = dst[bi / 8];
            let b = (w >> ((8 * (bi % 8)) as u64)) as u8;
            buffer_write(&mut buffer, bi, b);
            bi = bi + 1;
        }

        let r = Bitmap { buf: Arc::new(buffer), num_bits };

        proof {
            let new_bs = buffer_bytes(buffer);
            let s = shift;
            assert forall|i: int| 0 <= i < num_bits implies bit_of_bytes(new_bs, i)
                == bit_of_bytes(old_bs, start_bit + i) by {
                lemma_fundamental_div_mod(i, 64);
                let j = i / 64;
                let m = i % 64;
                let mm = m as u64;
                crate::bits::lemma_bit_index(j, m);
                crate::bits::lemma_divmod8_u64(mm);
                // The byte holding bit `i` of the fresh buffer is byte `m/8`
                // extracted from destination word `j`.
                let b0 = 8 * j + m / 8;
                assert(b0 == i / 8);
                assert(b0 < num_bytes) by {
                    lemma_div_is_ordered(i, num_bits - 1, 8);
                    lemma_fundamental_div_mod(num_bits as int, 8);
                }
                assert(j < n_words - 1) by {
                    lemma_div_is_ordered(i, num_bits - 1, 64);
                    vstd::arithmetic::div_mod::lemma_fundamental_div_mod_converse(
                        num_bits + 63,
                        64,
                        (num_bits - 1) / 64 + 1,
                        (num_bits - 1) % 64,
                    );
                    lemma_fundamental_div_mod(num_bits - 1, 64);
                }
                assert(new_bs[b0] == (dst@[b0 / 8] >> ((8 * (b0 % 8)) as u64)) as u8);
                assert(b0 / 8 == j && b0 % 8 == m / 8) by {
                    vstd::arithmetic::div_mod::lemma_fundamental_div_mod_converse(
                        b0,
                        8,
                        j,
                        m / 8,
                    );
                }
                crate::bits::lemma_word_byte_bits(dst@[j]);
                assert((8 * (m / 8)) as u64 == 8 * (mm / 8));
                assert(bit_of_bytes(new_bs, i) == bit64(dst@[j], mm));
                // Now chase the bit through the realignment into the source.
                if s == 0 {
                    assert(dst@[j] == src@[j]);
                    crate::bits::lemma_word_bit(old_bs, start_word + j, m);
                    assert(64 * (start_word + j) + m == start_bit + i) by {
                        assert(64 * (start_word + j) == 64 * start_word + 64 * j);
                    }
                } else {
                    crate::compute::re_align::lemma_merge_bits(src@[j], src@[j + 1], s);
                    if mm < 64 - s {
                        assert(bit64(dst@[j], mm) == bit64(src@[j], (mm + s) as u64));
                        crate::bits::lemma_word_bit(old_bs, start_word + j, m + s);
                        assert(64 * (start_word + j) + m + s == start_bit + i) by {
                            assert(64 * (start_word + j) == 64 * start_word + 64 * j);
                        }
                    } else {
                        assert(bit64(dst@[j], mm) == bit64(src@[j + 1], (mm + s - 64) as u64));
                        crate::bits::lemma_word_bit(old_bs, start_word + j + 1, m + s - 64);
                        assert(64 * (start_word + j + 1) + m + s - 64 == start_bit + i) by {
                            assert(64 * (start_word + j + 1) == 64 * start_word + 64 * j + 64);
                        }
                    }
                }
            }
            assert(r@ =~= self@.subrange(start_bit as int, start_bit + num_bits));
        }

        r
    }
}

impl Bitmap {
    /// Returns the ascending list of maximal set-bit ranges in the bitmap.
    ///
    /// The scan covers the buffer's length rounded up to the next 64-bit
    /// boundary, not clipped to the logical bit count — callers must clip;
    /// an empty bitmap yields an empty list.
    pub fn set_ranges(&self) -> (r: Vec<(usize, usize)>)
        requires
            self.wf(),
        ensures
            self@.len() == 0 ==> r@.len() == 0,
            self@.len() > 0 ==> crate::compute::set_ranges::scan_ok(
                r@,
                words_of_bytes(self.bytes_spec()),
            ),
    {
        if self.num_bits == 0 {
            return Vec::new();
        }

        let len = buffer_len(&self.buf);
        let n_words: usize = len / 8 + if len % 8 > 0 {
            1
        } else {
            0
        };
        proof {
            lemma_ceil8(len as int);
            lemma_fundamental_div_mod(len + 7, 8);
            assert(8 * n_words <= len + 7);
        }

        let mut words: Vec<u64> = Vec::new();
        let mut j: usize = 0;
        while j < n_words
            invariant
                j <= n_words,
                8 * n_words + 8 <= usize::MAX,
                words@.len() == j,
                forall|t: int| 0 <= t < j ==> words@[t] == word_at(self.bytes_spec(), t),
            decreases n_words - j,
        {
            words.push(load_word(&self.buf, j));
            j = j + 1;
        }

        proof {
            assert(words@ =~= words_of_bytes(self.bytes_spec()));
        }
        crate::compute::set_ranges::set_ranges(&words)
    }
}

impl Bitmap {
    /// Range-scan law on the view: for any range list satisfying
    /// [`Bitmap::set_ranges`]'s contract, every listed bit below the logical
    /// length is set in the view, and every set bit of the view lies in some
    /// listed range. (Listed bits at or past the logical length address the
    /// scanned padding, which callers must clip.)
    pub proof fn lemma_ranges_view(&self, rs: Seq<(usize, usize)>)
        requires
            self.wf(),
            crate::compute::set_ranges::scan_ok(rs, words_of_bytes(self.bytes_spec())),
        ensures
            forall|t: int, b: int|
                #![trigger rs[t], self@[b]]
                0 <= t < rs.len() && rs[t].0 <= b < rs[t].1 && b < self@.len() ==> self@[b],
            forall|b: int|
                0 <= b < self@.len() && self@[b] ==> crate::compute::set_ranges::covered(rs, b),
    {
        let bs = self.bytes_spec();
        let ws = words_of_bytes(bs);
        self.lemma_wf_capacity();
        assert(8 * ((bs.len() as int + 7) / 8) >= bs.len()) by {
            lemma_fundamental_div_mod(bs.len() as int + 7, 8);
        }
        assert forall|t: int, b: int|
            #![trigger rs[t], self@[b]]
            0 <= t < rs.len() && rs[t].0 <= b < rs[t].1 && b < self@.len() implies self@[b] by {
            assert(crate::bits::wbit(ws, b));
            crate::bits::lemma_words_of_bytes_bit(bs, b);
        }
        assert forall|b: int|
            0 <= b < self@.len() && self@[b] implies crate::compute::set_ranges::covered(
            rs,
            b,
        ) by {
            crate::bits::lemma_words_of_bytes_bit(bs, b);
            assert(b < 64 * ws.len());
            assert(crate::bits::wbit(ws, b));
        }
    }
}

/// Round-trip law: a bitmap whose view equals the packed booleans reads back
/// exactly those booleans at every valid index. Together with the contracts
/// of [`Bitmap::from_bools`] (the view equals its input) and [`Bitmap::get`]
/// (the result is `Some` of the viewed bit below the length and `None` at or
/// above it), this pins down `Bitmap::from_bools(b).get(i)` for every `i`.
pub proof fn lemma_round_trip(bm: Bitmap, bools: Seq<bool>)
    requires
        bm@ == bools,
    ensures
        forall|i: int| 0 <= i < bools.len() ==> bm@[i] == bools[i],
        bm@.len() == bools.len(),
{
}

/// Slice law: a bitmap whose view is the `[start, start + len)` window of a
/// source view reads, at every valid index `i`, the source bit at
/// `start + i`. Together with the contracts of [`Bitmap::slice`] and
/// [`Bitmap::get`], this pins down `b.slice(start, len).get(i)` as
/// `b.get(start + i)` for every valid `i`.
pub proof fn lemma_slice_window(orig: Seq<bool>, sliced: Seq<bool>, start: int, len: int)
    requires
        0 <= start,
        0 <= len,
        start + len <= orig.len(),
        sliced == orig.subrange(start, start + len),
    ensures
        forall|i: int| 0 <= i < len ==> sliced[i] == orig[start + i],
        sliced.len() == len,
{
}

/// Read the byte at `i`, with indices at or past the buffer's length reading
/// as zero, exactly as the model [`byte_at`] does.
fn read_byte_or_zero(b: &Buffer, i: usize) -> (r: u8)
    ensures
        r == byte_at(buffer_bytes(*b), i as int),
{
    if i < buffer_len(b) {
        buffer_read(b, i)
    } else {
        0
    }
}

/// Assemble little-endian 64-bit word `j` of the buffer from its bytes.
fn load_word(b: &Buffer, j: usize) -> (w: u64)
    requires
        8 * j + 8 <= usize::MAX,
    ensures
        w == word_at(buffer_bytes(*b), j as int),
{
    let base: usize = 8 * j;
    let b0 = read_byte_or_zero(b, base);
    let b1 = read_byte_or_zero(b, base + 1);
    let b2 = read_byte_or_zero(b, base + 2);
    let b3 = read_byte_or_zero(b, base + 3);
    let b4 = read_byte_or_zero(b, base + 4);
    let b5 = read_byte_or_zero(b, base + 5);
    let b6 = read_byte_or_zero(b, base + 6);
    let b7 = read_byte_or_zero(b, base + 7);
    (b0 as u64) | ((b1 as u64) << 8u64) | ((b2 as u64) << 16u64) | ((b3 as u64) << 24u64) | ((
    b4 as u64) << 32u64) | ((b5 as u64) << 40u64) | ((b6 as u64) << 48u64) | ((b7 as u64) << 56u64)
}

/// The ceiling of `n / 8`, written with a conditional, equals `(n + 7) / 8`.
proof fn lemma_ceil8(n: int)
    requires
        0 <= n,
    ensures
        (n + 7) / 8 == n / 8 + if n % 8 > 0 {
            1int
        } else {
            0int
        },
{
    lemma_fundamental_div_mod(n, 8);
    let q = n / 8;
    let r = n % 8;
    if r == 0 {
        vstd::arithmetic::div_mod::lemma_fundamental_div_mod_converse(n + 7, 8, q, 7);
    } else {
        vstd::arithmetic::div_mod::lemma_fundamental_div_mod_converse(n + 7, 8, q + 1, r - 1);
    }
}

/// A zero byte has no set bits.
proof fn lemma_zero_bits()
    by (bit_vector)
    ensures
        forall|k: u8| k < 8 ==> !(#[trigger] bit8(0u8, k)),
{
}

/// Setting one bit by mask leaves every other bit as it was.
proof fn lemma_or_bit(b: u8, k: u8)
    by (bit_vector)
    requires
        k < 8,
    ensures
        forall|j: u8| j < 8 && j != k ==> #[trigger] bit8(b | (1u8 << k), j) == bit8(b, j),
        bit8(b | (1u8 << k), k),
{
}

/// Testing a byte against a single-bit mask reads exactly that bit.
proof fn lemma_mask_bit(b: u8, k: u8)
    by (bit_vector)
    requires
        k < 8,
    ensures
        (b & (1u8 << k) != 0) == ((b >> k) & 1 == 1),
{
}

} // verus!
