//! A packed grid of small elements, each wholly inside one 64-bit word.
use vstd::arithmetic::div_mod::{lemma_fundamental_div_mod, lemma_fundamental_div_mod_converse};
use vstd::prelude::*;
use vstd::std_specs::bits::axiom_u64_trailing_zeros;

verus! {

/// The element widths that divide a word: 1, 2, 4, 8, 16, 32 or 64 bits.
pub open spec fn valid_elem_bits(e: u32) -> bool {
    e == 1 || e == 2 || e == 4 || e == 8 || e == 16 || e == 32 || e == 64
}

/// The mask of an element's bits.
pub open spec fn elem_mask(e: u32) -> u64 {
    if e == 64 {
        u64::MAX
    } else {
        ((1u64 << e) - 1) as u64
    }
}

/// A packed grid of `w`×`h` elements, each `elem_bits` wide, stored row by row from the low
/// end of each word.
#[derive(Debug, Clone)]
pub struct BitMatrix {
    data: Vec<u64>,
    len: usize,
    w: u32,
    h: u32,
    elem_bits: u32,
    mask: u64,
}

/// An element never straddles a word: elements `k1` and `k2` in the same word lie apart.
proof fn lemma_elem_offsets(k1: int, k2: int, e: int)
    requires
        e == 1 || e == 2 || e == 4 || e == 8 || e == 16 || e == 32 || e == 64,
        k1 >= 0,
        k2 >= 0,
    ensures
        (k1 * e) % 64 + e <= 64,
        k1 != k2 && (k1 * e) / 64 == (k2 * e) / 64 ==> (k1 * e) % 64 + e <= (k2 * e) % 64 || (k2
            * e) % 64 + e <= (k1 * e) % 64,
{
    let q = 64int / e;
    assert(q * e == 64);
    lemma_fundamental_div_mod(k1, q);
    lemma_fundamental_div_mod(k2, q);
    let r1 = k1 % q;
    let r2 = k2 % q;
    assert(0 <= r1 < q && 0 <= r2 < q);
    assert(k1 * e == 64 * (k1 / q) + r1 * e) by (nonlinear_arith)
        requires
            k1 == q * (k1 / q) + r1,
            q * e == 64,
    ;
    assert(k2 * e == 64 * (k2 / q) + r2 * e) by (nonlinear_arith)
        requires
            k2 == q * (k2 / q) + r2,
            q * e == 64,
    ;
    assert(r1 * e + e <= 64) by (nonlinear_arith)
        requires
            r1 < q,
            q * e == 64,
            e > 0,
    ;
    assert(r2 * e + e <= 64) by (nonlinear_arith)
        requires
            r2 < q,
            q * e == 64,
            e > 0,
    ;
    assert(0 <= r1 * e) by (nonlinear_arith)
        requires
            r1 >= 0,
            e > 0,
    ;
    assert(0 <= r2 * e) by (nonlinear_arith)
        requires
            r2 >= 0,
            e > 0,
    ;
    lemma_fundamental_div_mod_converse(k1 * e, 64, k1 / q, r1 * e);
    lemma_fundamental_div_mod_converse(k2 * e, 64, k2 / q, r2 * e);
    if k1 != k2 && (k1 * e) / 64 == (k2 * e) / 64 {
        assert(k1 / q == k2 / q);
        assert(r1 != r2);
        if r1 < r2 {
            assert(r1 * e + e <= r2 * e) by (nonlinear_arith)
                requires
                    r1 + 1 <= r2,
                    e > 0,
            ;
        } else {
            assert(r2 * e + e <= r1 * e) by (nonlinear_arith)
                requires
                    r2 + 1 <= r1,
                    e > 0,
            ;
        }
    }
}

/// Writing an element into a word sets it and keeps every element apart from it.
proof fn lemma_put_word(a: u64, b: u64, e: u64, o1: u64, o2: u64)
    by (bit_vector)
    requires
        1 <= e < 64,
        o1 + e <= 64,
        o2 + e <= 64,
        b >> e == 0,
    ensures
        (((a & !((((1u64 << e) - 1) as u64) << o1)) | (b << o1)) >> o1) & (((1u64 << e) - 1) as u64)
            == b,
        o1 + e <= o2 || o2 + e <= o1 ==> (((a & !((((1u64 << e) - 1) as u64) << o1)) | (b << o1))
            >> o2) & (((1u64 << e) - 1) as u64) == (a >> o2) & (((1u64 << e) - 1) as u64),
{
}

/// Bits of a word with more bits or'd in above `o`.
proof fn lemma_or_shl_word(w: u64, b: u64, o: u64, j: u64)
    by (bit_vector)
    requires
        o < 64,
        j < 64,
    ensures
        ((w | (b << o)) >> j) & 1 == 1 <==> ((w >> j) & 1 == 1 || (j >= o && (b >> ((j - o) as u64))
            & 1 == 1)),
{
}

/// Bits of a word with the high part of `b` or'd in.
proof fn lemma_or_shr_word(w: u64, b: u64, s: u64, j: u64)
    by (bit_vector)
    requires
        0 < s < 64,
        j < 64,
    ensures
        ((w | (b >> s)) >> j) & 1 == 1 <==> ((w >> j) & 1 == 1 || (s + j < 64 && (b >> ((s + j) as u64))
            & 1 == 1)),
{
}

/// A bit of the difference from a broadcast element is clear where the word holds the element.
proof fn lemma_diff_bit(word: u64, pattern: u64, e: u64, off: u64, j: u64)
    by (bit_vector)
    requires
        e <= 1,
        pattern == if e == 1 {
            u64::MAX
        } else {
            0u64
        },
        off < 64,
        off + j < 64,
    ensures
        ((((word ^ pattern) >> off) >> j) & 1 == 0) <==> ((word >> ((off + j) as u64)) & 1 == e),
{
}

/// Bits shifted in from above are clear.
proof fn lemma_shr_high_clear(v: u64, off: u64, t: u64)
    by (bit_vector)
    requires
        off < 64,
        64 - off <= t < 64,
    ensures
        ((v >> off) >> t) & 1 == 0,
{
}

/// Bits of `b` at or above `n` are clear when `b` fits in `n` bits.
proof fn lemma_high_bits_clear(b: u64, n: u64, k: u64)
    by (bit_vector)
    requires
        n < 64,
        b >> n == 0,
        n <= k < 64,
    ensures
        (b >> k) & 1 == 0,
{
}

impl BitMatrix {
    pub closed spec fn spec_w(&self) -> nat {
        self.w as nat
    }

    pub closed spec fn spec_h(&self) -> nat {
        self.h as nat
    }

    pub closed spec fn spec_elem_bits(&self) -> nat {
        self.elem_bits as nat
    }

    /// Bits pushed so far.
    pub closed spec fn spec_len(&self) -> nat {
        self.len as nat
    }

    /// The backing words.
    pub closed spec fn words(&self) -> Seq<u64> {
        self.data@
    }

    /// Bits the elements take.
    pub open spec fn total_bits(&self) -> nat {
        self.spec_w() * self.spec_h() * self.spec_elem_bits()
    }

    pub closed spec fn wf(&self) -> bool {
        &&& valid_elem_bits(self.elem_bits)
        &&& self.mask == elem_mask(self.elem_bits)
        &&& self.w * self.h * self.elem_bits + 63 <= u32::MAX
        &&& self.data@.len() == (self.w * self.h * self.elem_bits + 63) / 64
        &&& self.len <= self.w * self.h * self.elem_bits
    }

    /// Bit `i` of the backing store, counting from the low end of the first word.
    pub closed spec fn raw_bit(&self, i: int) -> bool {
        (self.data@[i / 64] >> ((i % 64) as u64)) & 1 == 1
    }

    /// Every bit from the push position on is clear, so pushes can merge by `|`.
    pub closed spec fn fresh_tail(&self) -> bool {
        forall|i: int| self.len <= i < 64 * self.data@.len() ==> !#[trigger] self.raw_bit(i)
    }

    /// The element at column `x`, row `y`.
    pub closed spec fn spec_get(&self, x: int, y: int) -> u64 {
        let f = (y * self.w + x) * self.elem_bits;
        (self.data@[f / 64] >> ((f % 64) as u64)) & self.mask
    }

    /// What a well-formed matrix tells its users.
    pub proof fn lemma_wf_facts(&self)
        requires
            self.wf(),
        ensures
            valid_elem_bits(self.spec_elem_bits() as u32),
            self.spec_len() <= self.total_bits(),
            self.total_bits() + 63 <= u32::MAX,
            self.words().len() == (self.total_bits() + 63) / 64,
    {
    }

    /// With one-bit elements, an element is its bit of the store.
    pub proof fn lemma_get_is_raw_bit(&self, x: int, y: int)
        requires
            self.wf(),
            self.spec_elem_bits() == 1,
            0 <= x < self.spec_w(),
            0 <= y < self.spec_h(),
        ensures
            self.spec_get(x, y) == if self.raw_bit(y * self.spec_w() + x) {
                1u64
            } else {
                0u64
            },
    {
        let f = y * self.w + x;
        assert(f * 1 == f);
        let a = self.data@[f / 64];
        let o = (f % 64) as u64;
        assert(((a >> o) & 1u64 == 1u64 || (a >> o) & 1u64 == 0u64) && elem_mask(1) == 1u64)
            by (bit_vector);
    }

    /// Element positions in bounds sit inside the store.
    proof fn lemma_pos_bound(&self, x: int, y: int)
        requires
            self.wf(),
            0 <= x < self.spec_w(),
            0 <= y < self.spec_h(),
        ensures
            (y * self.w + x) * self.elem_bits + self.elem_bits <= self.w * self.h * self.elem_bits,
            (y * self.w + x) < self.w * self.h,
    {
        let w = self.w as int;
        let h = self.h as int;
        let e = self.elem_bits as int;
        assert(y * w + x + 1 <= w * h) by (nonlinear_arith)
            requires
                0 <= x < w,
                0 <= y < h,
        ;
        assert((y * w + x) * e + e <= w * h * e) by (nonlinear_arith)
            requires
                y * w + x + 1 <= w * h,
                e > 0,
        ;
    }

    /// A zeroed `w`×`h` matrix of `elem_bits`-wide elements.
    pub fn new(w: u32, h: u32, elem_bits: u32) -> (r: Self)
        requires
            valid_elem_bits(elem_bits),
            w * h * elem_bits + 63 <= u32::MAX,
        ensures
            r.wf(),
            r.fresh_tail(),
            r.spec_w() == w,
            r.spec_h() == h,
            r.spec_elem_bits() == elem_bits,
            r.spec_len() == 0,
            r.words().len() == (w * h * elem_bits + 63) / 64,
            r.words() == Seq::new(r.words().len(), |i: int| 0u64),
            forall|x: int, y: int|
                0 <= x < w && 0 <= y < h ==> #[trigger] r.spec_get(x, y) == 0,
    {
        proof {
            assert(0 <= w * h) by (nonlinear_arith);
            assert(0 <= w * h * elem_bits) by (nonlinear_arith);
            assert(w * h <= w * h * elem_bits) by (nonlinear_arith)
                requires
                    elem_bits >= 1,
            ;
            if elem_bits < 64 {
                assert(elem_bits < 64 ==> (1u64 << elem_bits) >= 1) by (bit_vector);
            }
        }
        let total = w * h * elem_bits;
        let cap = ((total + 63) >> 6) as usize;
        proof {
            let t = (total + 63) as u32;
            crate::bits::lemma_u32_div_mod(t);
        }
        let mask = if elem_bits == 64 {
            u64::MAX
        } else {
            (1u64 << elem_bits) - 1
        };
        let r = Self { data: vec![0u64; cap], len: 0, w, h, elem_bits, mask };
        proof {
            assert forall|i: int| 0 <= i < 64 * r.data@.len() implies !#[trigger] r.raw_bit(i) by {
                let o = (i % 64) as u64;
                assert((0u64 >> o) & 1 == 0) by (bit_vector);
            }
            assert forall|x: int, y: int| 0 <= x < w && 0 <= y < h implies #[trigger] r.spec_get(
                x,
                y,
            ) == 0 by {
                r.lemma_pos_bound(x, y);
                let f = (y * w + x) * elem_bits;
                assert(f / 64 < r.data@.len());
                let o = (f % 64) as u64;
                let m = mask;
                assert((0u64 >> o) & m == 0) by (bit_vector);
            }
            assert(r.words() =~= Seq::new(r.words().len(), |i: int| 0u64));
        }
        r
    }

    pub fn width(&self) -> (r: u32)
        ensures
            r == self.spec_w(),
    {
        self.w
    }

    pub fn height(&self) -> (r: u32)
        ensures
            r == self.spec_h(),
    {
        self.h
    }

    /// Bits the elements take.
    pub fn capacity(&self) -> (r: usize)
        requires
            self.wf(),
        ensures
            r == self.total_bits(),
    {
        (self.w * self.h * self.elem_bits) as usize
    }

    pub fn elem_bits(&self) -> (r: u32)
        ensures
            r == self.spec_elem_bits(),
    {
        self.elem_bits
    }

    /// The backing words.
    pub fn data(&self) -> (r: &[u64])
        ensures
            r@ == self.words(),
    {
        self.data.as_slice()
    }

    /// The word and bit offset of the element at column `x`, row `y`.
    fn elem_pos(&self, x: u32, y: u32) -> (r: (usize, u32))
        requires
            self.wf(),
            x < self.spec_w(),
            y < self.spec_h(),
        ensures
            r.0 == ((y * self.spec_w() + x) * self.spec_elem_bits()) / 64,
            r.1 == ((y * self.spec_w() + x) * self.spec_elem_bits()) % 64,
            r.0 < self.words().len(),
            r.1 + self.spec_elem_bits() <= 64,
    {
        proof {
            self.lemma_pos_bound(x as int, y as int);
            assert(0 <= y * self.w) by (nonlinear_arith);
            assert(0 <= (y * self.w + x) * self.elem_bits) by (nonlinear_arith);
            lemma_elem_offsets((y * self.w + x) as int, 0, self.elem_bits as int);
        }
        let flat_pos = (y * self.w + x) * self.elem_bits;
        let idx = (flat_pos >> 6) as usize;
        let off = flat_pos & 63;
        proof {
            crate::bits::lemma_u32_div_mod(flat_pos);
        }
        (idx, off)
    }

    /// The element at column `x`, row `y`.
    pub fn get(&self, x: u32, y: u32) -> (r: u64)
        requires
            self.wf(),
            x < self.spec_w(),
            y < self.spec_h(),
        ensures
            r == self.spec_get(x as int, y as int),
    {
        let (idx, off) = self.elem_pos(x, y);
        (self.data[idx] >> off) & self.mask
    }

    /// The bit at column `x`, row `y` of a matrix of one-bit elements.
    pub fn get_bit(&self, x: u32, y: u32) -> (r: bool)
        requires
            self.wf(),
            self.spec_elem_bits() == 1,
            x < self.spec_w(),
            y < self.spec_h(),
        ensures
            r == (self.spec_get(x as int, y as int) != 0),
            r == self.raw_bit(y * self.spec_w() + x),
    {
        let (idx, off) = self.elem_pos(x, y);
        let word = self.data[idx];
        let o = off as u64;
        proof {
            self.lemma_get_is_raw_bit(x as int, y as int);
            assert((y * self.spec_w() + x) * 1 == y * self.spec_w() + x);
            assert(((word >> o) & 1 != 0) == ((word >> o) & 1 == 1)) by (bit_vector);
        }
        ((word >> o) & 1) != 0
    }

    /// Sets the element at column `x`, row `y` to `bits`; the others stay as they were.
    pub fn put(&mut self, x: u32, y: u32, bits: u64)
        requires
            old(self).wf(),
            x < old(self).spec_w(),
            y < old(self).spec_h(),
            old(self).spec_elem_bits() == 64 || bits >> old(self).spec_elem_bits() == 0,
        ensures
            final(self).wf(),
            final(self).spec_w() == old(self).spec_w(),
            final(self).spec_h() == old(self).spec_h(),
            final(self).spec_elem_bits() == old(self).spec_elem_bits(),
            final(self).spec_len() == old(self).spec_len(),
            final(self).spec_get(x as int, y as int) == bits,
            forall|x2: int, y2: int|
                0 <= x2 < old(self).spec_w() && 0 <= y2 < old(self).spec_h() && (x2 != x || y2
                    != y) ==> #[trigger] final(self).spec_get(x2, y2) == old(self).spec_get(x2, y2),
    {
        let (idx, off) = self.elem_pos(x, y);
        let word = self.data[idx];
        let nw = (word & !(self.mask << off)) | (bits << off);
        self.data.set(idx, nw);
        proof {
            let e = old(self).elem_bits as u64;
            let o1 = off as u64;
            let w = old(self).w as int;
            let k1 = y * w + x;
            if e == 64 {
                assert(o1 == 0);
                assert(((word & !(u64::MAX << 0u64)) | (bits << 0u64)) >> 0u64 & u64::MAX == bits)
                    by (bit_vector);
            } else {
                lemma_put_word(word, bits, e, o1, o1);
            }
            assert forall|x2: int, y2: int|
                0 <= x2 < old(self).spec_w() && 0 <= y2 < old(self).spec_h() && (x2 != x || y2
                    != y) implies #[trigger] final(self).spec_get(x2, y2) == old(self).spec_get(
                x2,
                y2,
            ) by {
                old(self).lemma_pos_bound(x2, y2);
                let k2 = y2 * w + x2;
                assert(0 <= y2 * w) by (nonlinear_arith)
                    requires
                        0 <= y2,
                        0 <= w,
                ;
                if k1 == k2 {
                    assert(y2 * w + x2 == y * w + x);
                    assert(y2 == y && x2 == x) by (nonlinear_arith)
                        requires
                            y2 * w + x2 == y * w + x,
                            0 <= x < w,
                            0 <= x2 < w,
                            0 <= y,
                            0 <= y2,
                    ;
                }
                lemma_elem_offsets(k1, k2, e as int);
                let f2 = k2 * (e as int);
                if f2 / 64 == idx {
                    let o2 = (f2 % 64) as u64;
                    if e == 64 {
                        assert(f2 % 64 == 0);
                        assert(k1 * 64 / 64 == k1);
                        assert(k2 * 64 / 64 == k2);
                    } else {
                        lemma_put_word(word, bits, e, o1, o2);
                    }
                }
            }
        }
    }

    /// The element at column `x`, row `y` of a matrix of one-bit elements, and the length of
    /// the run of that element from there to its first change or the end of the row.
    pub fn run(&self, x: u32, y: u32) -> (r: (bool, u32))
        requires
            self.wf(),
            self.spec_elem_bits() == 1,
            x < self.spec_w(),
            y < self.spec_h(),
        ensures
            r.0 == (self.spec_get(x as int, y as int) != 0),
            1 <= r.1 <= self.spec_w() - x,
            forall|k: int| 0 <= k < r.1 ==> (#[trigger] self.spec_get(x + k, y as int) != 0) == r.0,
            x + r.1 < self.spec_w() ==> (self.spec_get(x + r.1, y as int) != 0) != r.0,
    {
        let remaining = self.w - x;
        let (mut idx, mut off) = self.elem_pos(x, y);
        let first = self.data[idx];
        let elem = (first >> (off as u64)) & 1;
        let pattern: u64 = if elem == 1 {
            u64::MAX
        } else {
            0
        };
        let ghost w = self.w as int;
        let ghost start = y * w + x;
        let ghost row_end = y * w + w;
        proof {
            assert(elem <= 1) by (bit_vector)
                requires
                    elem == (first >> (off as u64)) & 1,
            ;
            assert(start * 1 == start);
            self.lemma_pos_bound(x as int, y as int);
            assert(row_end <= w * self.h) by (nonlinear_arith)
                requires
                    row_end == y * w + w,
                    y + 1 <= self.h,
                    w >= 0,
            ;
            assert(w * self.h * 1 == w * self.h);
            assert(self.raw_bit(start) == (elem == 1));
        }
        let mut run: u32 = 0;
        while run < remaining
            invariant_except_break
                run < remaining ==> idx < self.data@.len(),
                idx * 64 + off == start + run,
                run == 0 ==> idx * 64 + off == start,
            invariant
                self.wf(),
                self.elem_bits == 1,
                remaining == self.w - x,
                x < self.w,
                y < self.h,
                w == self.w,
                start == y * w + x,
                row_end == start + remaining,
                row_end <= self.w * self.h,
                self.data@.len() == (self.w * self.h + 63) / 64,
                self.w * self.h + 63 <= u32::MAX,
                elem <= 1,
                pattern == if elem == 1 {
                    u64::MAX
                } else {
                    0u64
                },
                self.raw_bit(start) == (elem == 1),
                off < 64,
                run < remaining + 64,
                forall|k: int|
                    0 <= k < run && start + k < row_end ==> #[trigger] self.raw_bit(start + k) == (
                    elem == 1),
            ensures
                run >= 1,
                forall|k: int|
                    0 <= k < run && start + k < row_end ==> #[trigger] self.raw_bit(start + k) == (
                    elem == 1),
                run < remaining ==> self.raw_bit(start + run) != (elem == 1),
            decreases remaining + 64 - run,
        {
            let word = self.data[idx];
            let diff = (word ^ pattern) >> (off as u64);
            if diff == 0 {
                proof {
                    assert forall|k: int| 0 <= k < run + 64 - off && start + k < row_end implies #[trigger] self.raw_bit(
                        start + k,
                    ) == (elem == 1) by {
                        if k >= run {
                            let j = (k - run) as u64;
                            lemma_diff_bit(word, pattern, elem, off as u64, j);
                            assert((0u64 >> j) & 1 == 0) by (bit_vector);
                            assert((start + k) / 64 == idx);
                            assert((start + k) % 64 == off + j);
                        }
                    }
                }
                run += 64 - off;
                idx += 1;
                off = 0;
                proof {
                    if run < remaining {
                        assert(idx * 64 < self.w * self.h);
                    }
                }
            } else {
                let tz = diff.trailing_zeros();
                proof {
                    axiom_u64_trailing_zeros(diff);
                    if tz >= 64 - off {
                        lemma_shr_high_clear(word ^ pattern, off as u64, tz as u64);
                    }
                    assert(tz < 64 - off);
                    assert forall|k: int| 0 <= k < run + tz && start + k < row_end implies #[trigger] self.raw_bit(
                        start + k,
                    ) == (elem == 1) by {
                        if k >= run {
                            let j = (k - run) as u64;
                            lemma_diff_bit(word, pattern, elem, off as u64, j);
                            assert((start + k) / 64 == idx);
                            assert((start + k) % 64 == off + j);
                        }
                    }
                    lemma_diff_bit(word, pattern, elem, off as u64, tz as u64);
                    assert((start + run + tz) / 64 == idx);
                    assert((start + run + tz) % 64 == off + tz);
                    let v = word >> ((off + tz) as u64);
                    assert(((v & 1 != elem && elem <= 1) ==> ((v & 1 == 1) != (elem == 1))) && (((
                    diff >> (tz as u64)) & 1 == 1) ==> ((diff >> (tz as u64)) & 1 != 0)))
                        by (bit_vector);
                    if run == 0 {
                        assert(tz >= 1) by {
                            if tz == 0 {
                                lemma_diff_bit(word, pattern, elem, off as u64, 0);
                                assert(start / 64 == idx && start % 64 == off);
                                let v0 = word >> (off as u64);
                                assert((((v0 & 1 == 1) == (elem == 1) && elem <= 1) ==> v0 & 1
                                    == elem) && diff >> 0u64 == diff) by (bit_vector);
                            }
                        }
                    }
                }
                run += tz;
                break;
            }
        }
        let len = if run < remaining {
            run
        } else {
            remaining
        };
        proof {
            self.lemma_get_is_raw_bit(x as int, y as int);
            assert forall|k: int| 0 <= k < len implies (#[trigger] self.spec_get(x + k, y as int)
                != 0) == (elem != 0) by {
                self.lemma_get_is_raw_bit(x + k, y as int);
                assert(start + k < row_end);
                assert(y * w + (x + k) == start + k);
            }
            if x + len < self.w {
                self.lemma_get_is_raw_bit(x + len, y as int);
                assert(y * w + (x + len) == start + len);
            }
        }
        (elem != 0, len)
    }

    /// Appends the low `n` bits of `bits` to the store, least significant first: the `i`th bit
    /// pushed lands at bit `i` of the store, which for one-bit elements is the element at
    /// column `i % w`, row `i / w`.
    pub fn push_bits(&mut self, bits: u64, n: usize)
        requires
            old(self).wf(),
            old(self).fresh_tail(),
            old(self).spec_len() + n <= old(self).total_bits(),
            n <= 64,
            n == 64 || bits >> n == 0,
        ensures
            final(self).wf(),
            final(self).fresh_tail(),
            final(self).spec_w() == old(self).spec_w(),
            final(self).spec_h() == old(self).spec_h(),
            final(self).spec_elem_bits() == old(self).spec_elem_bits(),
            final(self).spec_len() == old(self).spec_len() + n,
            final(self).words().len() == old(self).words().len(),
            forall|i: int|
                0 <= i < 64 * old(self).words().len() ==> #[trigger] final(self).raw_bit(i) == if old(
                    self,
                ).spec_len() <= i < old(self).spec_len() + n {
                    (bits >> ((i - old(self).spec_len()) as u64)) & 1 == 1
                } else {
                    old(self).raw_bit(i)
                },
    {
        if n == 0 {
            return;
        }
        let idx = self.len >> 6;
        let off = self.len & 63;
        proof {
            let l = self.len;
            crate::bits::lemma_usize_div_mod(l);
        }
        let word = self.data[idx];
        let nw = word | (bits << (off as u64));
        self.data.set(idx, nw);
        let mut second: u64 = 0;
        if off + n > 64 {
            second = self.data[idx + 1];
            let nw2 = second | (bits >> ((64 - off) as u64));
            self.data.set(idx + 1, nw2);
        }
        self.len = self.len + n;
        proof {
            let len0 = old(self).len as int;
            assert forall|i: int| 0 <= i < 64 * old(self).words().len() implies #[trigger] self.raw_bit(
                i,
            ) == if len0 <= i < len0 + n {
                (bits >> ((i - len0) as u64)) & 1 == 1
            } else {
                old(self).raw_bit(i)
            } by {
                let j = (i % 64) as u64;
                if i / 64 == idx {
                    lemma_or_shl_word(word, bits, off as u64, j);
                    if i >= len0 {
                        assert(!old(self).raw_bit(i));
                        if i >= len0 + n && n < 64 {
                            lemma_high_bits_clear(bits, n as u64, (i - len0) as u64);
                        }
                    }
                } else if off + n > 64 && i / 64 == idx + 1 {
                    lemma_or_shr_word(second, bits, (64 - off) as u64, j);
                    assert(i >= len0);
                    assert(!old(self).raw_bit(i));
                    if i >= len0 + n && n < 64 && i - len0 < 64 {
                        lemma_high_bits_clear(bits, n as u64, (i - len0) as u64);
                    }
                } else {
                    assert(self.data@[i / 64] == old(self).data@[i / 64]);
                    if i >= len0 {
                        assert(i >= len0 + n);
                    }
                }
            }
            assert forall|i: int| self.len <= i < 64 * self.data@.len() implies !#[trigger] self.raw_bit(
                i,
            ) by {
                assert(!old(self).raw_bit(i));
            }
        }
    }
}

} // verus!
