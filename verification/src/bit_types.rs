//! Packed bit containers: a write-then-read bit stream, a fixed-length bit array and a packed
//! matrix of small elements.
use crate::bits::{
    lemma_shl1_u32,
    bits_value, int_bits, lemma_bits_value_int_bits, lemma_int_bits_split, lemma_nat_bit_high_zero,
    lemma_u32_bit, lemma_u8_bit, u8_bit,
};
use vstd::arithmetic::power2::{lemma2_to64, lemma_pow2_adds, lemma_pow2_pos, lemma_pow2_strictly_increases, pow2};
use vstd::prelude::*;

verus! {

/// Bytes of backing store of a [`BitStream`] or [`BitArray`].
pub const MAX_PAYLOAD_SIZE: usize = 16384;

/// Bit `i` of a byte sequence read most significant bit first.
pub open spec fn stream_bit(bytes: Seq<u8>, i: int) -> bool {
    u8_bit(bytes[i / 8], (7 - i % 8) as u8)
}

/// Byte-level bit facts that every push and take below rests on.
proof fn lemma_or_shl_bit(old: u8, v: u8, s: u8, k: u8)
    by (bit_vector)
    requires
        s < 8,
        k < 8,
    ensures
        u8_bit(old | (v << s), k) == (u8_bit(old, k) || (s <= k && u8_bit(v, (k - s) as u8))),
        u8_bit(v << s, k) == (s <= k && u8_bit(v, (k - s) as u8)),
{
}

proof fn lemma_or_shr_bit(old: u8, v: u8, r: u8, k: u8)
    by (bit_vector)
    requires
        r < 8,
        k < 8,
    ensures
        u8_bit(old | (v >> r), k) == (u8_bit(old, k) || (k + r < 8 && u8_bit(v, (k + r) as u8))),
{
}

proof fn lemma_zero_byte_bits(k: u8)
    by (bit_vector)
    requires
        k < 8,
    ensures
        !u8_bit(0u8, k),
{
}

proof fn lemma_byte_pos(x: usize)
    by (bit_vector)
    ensures
        x >> 3usize == x / 8,
        x & 7usize == x % 8,
{
}

/// A bit of `v` at or above `size` is clear when `v` fits in `size` bits.
proof fn lemma_u8_high_clear(v: u8, size: nat, k: u8)
    requires
        (v as nat) < pow2(size),
        size <= k < 8,
    ensures
        !u8_bit(v, k),
{
    lemma_u8_bit(v, k);
    lemma_nat_bit_high_zero(v as nat, size, k as nat);
}

/// The top `n` bits of a 24-bit window assembled from three bytes, starting `off` bits in.
proof fn lemma_window_bit(b0: u32, b1: u32, b2: u32, off: u32, n: u32, t: u32)
    by (bit_vector)
    requires
        b0 < 256,
        b1 < 256,
        b2 < 256,
        off < 8,
        1 <= n <= 16,
        t < n,
    ensures
        ({
            let w = (b0 << 16u32) | (b1 << 8u32) | b2;
            let res = (w >> ((24u32 - off - n) as u32)) & (((1u32 << n) - 1u32) as u32);
            let bit = (res >> ((n - 1u32 - t) as u32)) & 1u32 == 1u32;
            &&& off + t < 8 ==> bit == ((b0 >> ((7u32 - off - t) as u32)) & 1u32 == 1u32)
            &&& 8 <= off + t < 16 ==> bit == ((b1 >> ((15u32 - off - t) as u32)) & 1u32 == 1u32)
            &&& 16 <= off + t ==> bit == ((b2 >> ((23u32 - off - t) as u32)) & 1u32 == 1u32)
            &&& res < (1u32 << n)
        }),
{
}

proof fn lemma_u8_u32_bit(b: u8, k: u8)
    by (bit_vector)
    requires
        k < 8,
    ensures
        u8_bit(b, k) == (((b as u32) >> (k as u32)) & 1u32 == 1u32),
{
}


// Bit stream
//------------------------------------------------------------------------------
/// A bit stream that is written at its end and read from a cursor, most significant bit
/// first within each byte.
#[derive(Debug, Clone)]
pub struct BitStream {
    data: Vec<u8>,
    // Bit length
    len: usize,
    // Max bit capacity
    capacity: usize,
    // Pointer to take bits
    cursor: usize,
}

impl BitStream {
    /// The backing bytes.
    pub closed spec fn bytes(&self) -> Seq<u8> {
        self.data@
    }

    pub closed spec fn spec_len(&self) -> nat {
        self.len as nat
    }

    pub closed spec fn spec_capacity(&self) -> nat {
        self.capacity as nat
    }

    pub closed spec fn spec_cursor(&self) -> nat {
        self.cursor as nat
    }

    /// The bits written so far.
    pub open spec fn bits(&self) -> Seq<bool> {
        Seq::new(self.spec_len(), |i: int| stream_bit(self.bytes(), i))
    }

    /// The bits not yet taken.
    pub open spec fn unread(&self) -> Seq<bool> {
        self.bits().subrange(self.spec_cursor() as int, self.spec_len() as int)
    }

    pub closed spec fn wf(&self) -> bool {
        &&& self.data@.len() == MAX_PAYLOAD_SIZE
        &&& self.cursor <= self.len <= 8 * MAX_PAYLOAD_SIZE
    }

    /// Every stored bit past the end is clear, so pushes can merge by `|`.
    pub closed spec fn tail_clear(&self) -> bool {
        forall|i: int| self.len <= i < 8 * MAX_PAYLOAD_SIZE ==> !#[trigger] stream_bit(self.data@, i)
    }

    /// Room for `n` more bits both by the declared capacity and by the backing store.
    pub open spec fn has_room(&self, n: nat) -> bool {
        &&& self.spec_len() + n <= self.spec_capacity()
        &&& self.spec_len() + n <= 8 * MAX_PAYLOAD_SIZE
    }

    /// What a well-formed stream tells its readers.
    pub proof fn lemma_wf_facts(&self)
        requires
            self.wf(),
        ensures
            self.spec_cursor() <= self.spec_len() <= 8 * MAX_PAYLOAD_SIZE,
            self.bytes().len() == MAX_PAYLOAD_SIZE,
    {
    }

    pub fn new(capacity: usize) -> (res: Self)
        ensures
            res.wf(),
            res.tail_clear(),
            res.bits() == Seq::<bool>::empty(),
            res.spec_len() == 0,
            res.spec_capacity() == capacity,
            res.spec_cursor() == 0,
    {
        let data = vec![0u8; MAX_PAYLOAD_SIZE];
        let res = Self { data, len: 0, capacity, cursor: 0 };
        proof {
            assert forall|i: int| 0 <= i < 8 * MAX_PAYLOAD_SIZE implies !#[trigger] stream_bit(
                res.data@,
                i,
            ) by {
                lemma_zero_byte_bits((7 - i % 8) as u8);
            }
            assert(res.bits() =~= Seq::<bool>::empty());
        }
        res
    }

    /// A stream holding the bytes of `inp`, all of them unread.
    pub fn from(inp: &[u8]) -> (res: Self)
        requires
            inp@.len() <= MAX_PAYLOAD_SIZE,
        ensures
            res.wf(),
            res.tail_clear(),
            res.spec_len() == 8 * inp@.len(),
            res.spec_capacity() == 8 * inp@.len(),
            res.spec_cursor() == 0,
            res.bytes().subrange(0, inp@.len() as int) == inp@,
            res.bits() == Seq::new(8 * inp@.len(), |i: int| stream_bit(inp@, i)),
    {
        let len = inp.len();
        proof {
            crate::bits::lemma_usize_shl3(len);
        }
        let bit_len = len << 3;
        let mut data = vec![0u8; MAX_PAYLOAD_SIZE];
        let mut i: usize = 0;
        while i < len
            invariant
                len == inp@.len() <= MAX_PAYLOAD_SIZE,
                i <= len,
                data@.len() == MAX_PAYLOAD_SIZE,
                forall|j: int| 0 <= j < i ==> data@[j] == inp@[j],
                forall|j: int| len <= j < MAX_PAYLOAD_SIZE ==> data@[j] == 0,
            decreases len - i,
        {
            data.set(i, inp[i]);
            i += 1;
        }
        let res = Self { data, len: bit_len, capacity: bit_len, cursor: 0 };
        proof {
            assert forall|i: int| bit_len <= i < 8 * MAX_PAYLOAD_SIZE implies !#[trigger] stream_bit(
                res.data@,
                i,
            ) by {
                lemma_zero_byte_bits((7 - i % 8) as u8);
            }
            assert(res.bytes().subrange(0, len as int) =~= inp@);
            assert(res.bits() =~= Seq::new(8 * inp@.len(), |i: int| stream_bit(inp@, i)));
        }
        res
    }

    pub fn len(&self) -> (r: usize)
        ensures
            r == self.spec_len(),
    {
        self.len
    }

    pub fn capacity(&self) -> (r: usize)
        ensures
            r == self.spec_capacity(),
    {
        self.capacity
    }

    pub fn bits_left(&self) -> (r: usize)
        requires
            self.wf(),
        ensures
            r == self.spec_len() - self.spec_cursor(),
    {
        self.len - self.cursor
    }

    /// The bytes that hold the written bits, the last one possibly partial.
    pub fn data(&self) -> (r: &[u8])
        requires
            self.wf(),
        ensures
            r@ == self.bytes().subrange(0, (self.spec_len() + 7) as int / 8),
            self.tail_clear() ==> forall|i: int|
                self.spec_len() <= i < 8 * r@.len() ==> !#[trigger] stream_bit(r@, i),
    {
        proof {
            lemma_byte_pos((self.len + 7) as usize);
        }
        let end = (self.len + 7) >> 3;
        let r = &self.data.as_slice()[0..end];
        proof {
            if self.tail_clear() {
                assert forall|i: int| self.spec_len() <= i < 8 * r@.len() implies !#[trigger] stream_bit(
                    r@,
                    i,
                ) by {
                    assert(r@[i / 8] == self.data@[i / 8]);
                    assert(!stream_bit(self.data@, i));
                }
            }
        }
        r
    }

    /// Drops the bits from `len` on; the stored bytes are left as they are.
    pub fn truncate(&mut self, len: usize)
        requires
            old(self).wf(),
            old(self).spec_cursor() <= len < old(self).spec_len(),
        ensures
            final(self).wf(),
            final(self).bytes() == old(self).bytes(),
            final(self).spec_len() == len,
            final(self).spec_capacity() == old(self).spec_capacity(),
            final(self).spec_cursor() == old(self).spec_cursor(),
            final(self).bits() == old(self).bits().subrange(0, len as int),
    {
        self.len = len;
        proof {
            assert(final(self).bits() =~= old(self).bits().subrange(0, len as int));
        }
    }
}

// Push bits for bit stream
//------------------------------------------------------------------------------
impl BitStream {
    /// Appends the 8 bits of `byte`.
    pub fn push_byte(&mut self, byte: u8)
        requires
            old(self).wf(),
            old(self).tail_clear(),
            old(self).has_room(8),
        ensures
            final(self).wf(),
            final(self).tail_clear(),
            final(self).bits() == old(self).bits() + int_bits(byte as nat, 8),
            final(self).spec_len() == old(self).spec_len() + 8,
            final(self).spec_capacity() == old(self).spec_capacity(),
            final(self).spec_cursor() == old(self).spec_cursor(),
    {
        proof {
            lemma_byte_pos(self.len);
        }
        let off = self.len & 7;
        let pos = self.len >> 3;

        if off == 0 {
            let ghost before = self.data@;
            self.data.set(pos, byte);
            self.len = self.len + 8;
            proof {
                let s = final(self).bits();
                let e = old(self).bits() + int_bits(byte as nat, 8);
                assert forall|i: int| 0 <= i < s.len() implies s[i] == e[i] by {
                    if i >= old(self).len {
                        assert(i / 8 == pos);
                        lemma_u8_bit(byte, (7 - i % 8) as u8);
                    } else {
                        assert(i / 8 != pos);
                    }
                }
                assert(s =~= e);
                assert forall|i: int| final(self).len <= i < 8 * MAX_PAYLOAD_SIZE implies !#[trigger] stream_bit(
                    final(self).data@,
                    i,
                ) by {
                    assert(!stream_bit(before, i));
                    assert(i / 8 != pos);
                }
            }
        } else {
            proof {
                lemma2_to64();
            }
            self.push_bits(byte as u16, 8);
        }
    }

    /// Appends the low `size` bits of `bits`, most significant first.
    pub fn push_bits(&mut self, bits: u16, size: usize)
        requires
            old(self).wf(),
            old(self).tail_clear(),
            size <= 16,
            (bits as nat) < pow2(size as nat),
            old(self).has_room(size as nat),
        ensures
            final(self).wf(),
            final(self).tail_clear(),
            final(self).bits() == old(self).bits() + int_bits(bits as nat, size as nat),
            final(self).spec_len() == old(self).spec_len() + size,
            final(self).spec_capacity() == old(self).spec_capacity(),
            final(self).spec_cursor() == old(self).spec_cursor(),
        decreases size,
    {
        if size == 0 {
            proof {
                assert(int_bits(bits as nat, 0) =~= Seq::<bool>::empty());
                assert(old(self).bits() + int_bits(bits as nat, 0) =~= old(self).bits());
            }
        } else if size <= 8 {
            proof {
                lemma_byte_pos(self.len);
                lemma2_to64();
                if size < 8 {
                    lemma_pow2_strictly_increases(size as nat, 8);
                }
            }
            let b = bits as u8;
            let off = self.len & 7;
            let pos = self.len >> 3;
            let ghost before = self.data@;
            if off + size <= 8 {
                let s = (8 - size - off) as u8;
                let nb = self.data[pos] | (b << s);
                self.data.set(pos, nb);
                self.len = self.len + size;
                proof {
                    self.lemma_push_in_byte(before, b, size, off, pos);
                    assert(Seq::new((8 * pos + off) as nat, |i: int| stream_bit(before, i))
                        =~= old(self).bits());
                }
            } else {
                let r = (size + off - 8) as u8;
                let s2 = (16 - size - off) as u8;
                let nb0 = self.data[pos] | (b >> r);
                let nb1 = b << s2;
                self.data.set(pos, nb0);
                self.data.set(pos + 1, nb1);
                self.len = self.len + size;
                proof {
                    self.lemma_push_across_bytes(before, b, size, off, pos);
                    assert(Seq::new((8 * pos + off) as nat, |i: int| stream_bit(before, i))
                        =~= old(self).bits());
                }
            }
        } else {
            proof {
                lemma2_to64();
                vstd::bits::lemma_u16_shr_is_div(bits, 8);
                assert(bits & 0xFFu16 == bits % 256) by (bit_vector);
                lemma_pow2_adds((size - 8) as nat, 8);
                lemma_pow2_pos((size - 8) as nat);
                vstd::arithmetic::div_mod::lemma_multiply_divide_lt(
                    bits as int,
                    256,
                    pow2((size - 8) as nat) as int,
                );
            }
            let ghost b0 = old(self).bits();
            self.push_bits(bits >> 8, size - 8);
            self.push_bits(bits & 0xFF, 8);
            proof {
                lemma_int_bits_split(bits as nat, size as nat, 8);
                assert(b0 + int_bits((bits >> 8) as nat, (size - 8) as nat) + int_bits(
                    (bits & 0xFF) as nat,
                    8,
                ) =~= b0 + int_bits(bits as nat, size as nat));
            }
        }
    }

    /// The facts behind a push that stays within one byte.
    proof fn lemma_push_in_byte(&self, before: Seq<u8>, b: u8, size: usize, off: usize, pos: usize)
        requires
            1 <= size <= 8,
            off + size <= 8,
            (b as nat) < pow2(size as nat),
            before.len() == MAX_PAYLOAD_SIZE,
            pos < MAX_PAYLOAD_SIZE,
            self.data@ == before.update(
                pos as int,
                before[pos as int] | (b << ((8 - size - off) as u8)),
            ),
            self.len == 8 * pos + off + size,
            self.cursor <= 8 * pos + off,
            self.len <= 8 * MAX_PAYLOAD_SIZE,
            forall|i: int| 8 * pos + off <= i < 8 * MAX_PAYLOAD_SIZE ==> !#[trigger] stream_bit(before, i),
        ensures
            self.wf(),
            self.tail_clear(),
            self.bits() == Seq::new((8 * pos + off) as nat, |i: int| stream_bit(before, i)) + int_bits(
                b as nat,
                size as nat,
            ),
    {
        let s = (8 - size - off) as u8;
        let old_len = 8 * pos + off;
        let lhs = self.bits();
        let rhs = Seq::new(old_len as nat, |i: int| stream_bit(before, i)) + int_bits(
            b as nat,
            size as nat,
        );
        assert forall|i: int| 0 <= i < self.len implies lhs[i] == rhs[i] by {
            if i / 8 == pos {
                let k = (7 - i % 8) as u8;
                assert(i % 8 == i - 8 * pos);
                lemma_or_shl_bit(before[pos as int], b, s, k);
                assert(lhs[i] == u8_bit(before[pos as int] | (b << s), k));
                if i < old_len {
                    assert(k >= s + size);
                    lemma_u8_high_clear(b, size as nat, (k - s) as u8);
                    assert(rhs[i] == stream_bit(before, i));
                } else {
                    assert(!stream_bit(before, i));
                    assert(k - s == size - 1 - (i - old_len));
                    lemma_u8_bit(b, (k - s) as u8);
                    assert(rhs[i] == int_bits(b as nat, size as nat)[i - old_len]);
                }
            } else {
                assert(i < old_len);
                assert(rhs[i] == stream_bit(before, i));
            }
        }
        assert(lhs =~= rhs);
        assert forall|i: int| self.len <= i < 8 * MAX_PAYLOAD_SIZE implies !#[trigger] stream_bit(
            self.data@,
            i,
        ) by {
            assert(!stream_bit(before, i));
            if i / 8 == pos {
                let k = (7 - i % 8) as u8;
                assert(i % 8 == i - 8 * pos);
                lemma_or_shl_bit(before[pos as int], b, s, k);
            }
        }
    }

    /// The facts behind a push that spills into the next byte.
    proof fn lemma_push_across_bytes(
        &self,
        before: Seq<u8>,
        b: u8,
        size: usize,
        off: usize,
        pos: usize,
    )
        requires
            1 <= size <= 8,
            off < 8,
            off + size > 8,
            (b as nat) < pow2(size as nat),
            before.len() == MAX_PAYLOAD_SIZE,
            pos + 1 < MAX_PAYLOAD_SIZE,
            self.data@ == before.update(
                pos as int,
                before[pos as int] | (b >> ((size + off - 8) as u8)),
            ).update(pos + 1, b << ((16 - size - off) as u8)),
            self.len == 8 * pos + off + size,
            self.cursor <= 8 * pos + off,
            self.len <= 8 * MAX_PAYLOAD_SIZE,
            forall|i: int| 8 * pos + off <= i < 8 * MAX_PAYLOAD_SIZE ==> !#[trigger] stream_bit(before, i),
        ensures
            self.wf(),
            self.tail_clear(),
            self.bits() == Seq::new((8 * pos + off) as nat, |i: int| stream_bit(before, i)) + int_bits(
                b as nat,
                size as nat,
            ),
    {
        let r = (size + off - 8) as u8;
        let s2 = (16 - size - off) as u8;
        let old_len = 8 * pos + off;
        let lhs = self.bits();
        let rhs = Seq::new(old_len as nat, |i: int| stream_bit(before, i)) + int_bits(
            b as nat,
            size as nat,
        );
        assert forall|i: int| 0 <= i < self.len implies lhs[i] == rhs[i] by {
            let k = (7 - i % 8) as u8;
            if i / 8 == pos {
                assert(i % 8 == i - 8 * pos);
                lemma_or_shr_bit(before[pos as int], b, r, k);
                assert(lhs[i] == u8_bit(before[pos as int] | (b >> r), k));
                if i < old_len {
                    assert(rhs[i] == stream_bit(before, i));
                    if k + r < 8 {
                        lemma_u8_high_clear(b, size as nat, (k + r) as u8);
                    }
                } else {
                    assert(!stream_bit(before, i));
                    assert(k + r == size - 1 - (i - old_len));
                    lemma_u8_bit(b, (k + r) as u8);
                    assert(rhs[i] == int_bits(b as nat, size as nat)[i - old_len]);
                }
            } else if i / 8 == pos + 1 {
                assert(i % 8 == i - 8 * pos - 8);
                lemma_or_shl_bit(0u8, b, s2, k);
                assert(lhs[i] == u8_bit(b << s2, k));
                assert(k - s2 == size - 1 - (i - old_len));
                lemma_u8_bit(b, (k - s2) as u8);
                assert(rhs[i] == int_bits(b as nat, size as nat)[i - old_len]);
            } else {
                assert(i < old_len);
                assert(rhs[i] == stream_bit(before, i));
            }
        }
        assert(lhs =~= rhs);
        assert forall|i: int| self.len <= i < 8 * MAX_PAYLOAD_SIZE implies !#[trigger] stream_bit(
            self.data@,
            i,
        ) by {
            assert(!stream_bit(before, i));
            let k = (7 - i % 8) as u8;
            if i / 8 == pos + 1 {
                assert(i % 8 == i - 8 * pos - 8);
                lemma_or_shl_bit(0u8, b, s2, k);
            }
        }
    }

    /// Appends one bit.
    pub fn push(&mut self, bit: bool)
        requires
            old(self).wf(),
            old(self).tail_clear(),
            old(self).has_room(1),
        ensures
            final(self).wf(),
            final(self).tail_clear(),
            final(self).bits() == old(self).bits().push(bit),
            final(self).spec_len() == old(self).spec_len() + 1,
            final(self).spec_capacity() == old(self).spec_capacity(),
            final(self).spec_cursor() == old(self).spec_cursor(),
    {
        proof {
            lemma_byte_pos(self.len);
        }
        let ghost before = self.data@;
        if bit {
            let off = self.len & 7;
            let pos = self.len >> 3;
            let nb = self.data[pos] | (0b10000000u8 >> (off as u8));
            self.data.set(pos, nb);
            proof {
                assert forall|k: u8| k < 8 implies u8_bit(
                    before[pos as int] | (0b10000000u8 >> (off as u8)),
                    k,
                ) == (u8_bit(before[pos as int], k) || k == 7 - off) by {
                    let o = off as u8;
                    let x = before[pos as int];
                    assert(o < 8 && k < 8 ==> u8_bit(x | (0b10000000u8 >> o), k) == (u8_bit(x, k)
                        || k == 7 - o)) by (bit_vector);
                }
            }
        }
        self.len = self.len + 1;
        proof {
            let lhs = final(self).bits();
            let rhs = old(self).bits().push(bit);
            let p = old(self).len / 8;
            assert forall|i: int| 0 <= i < lhs.len() implies lhs[i] == rhs[i] by {
                if i < old(self).len {
                    assert(rhs[i] == stream_bit(before, i));
                    if bit && i / 8 == p {
                        assert(i % 8 != old(self).len % 8);
                    }
                } else {
                    assert(!stream_bit(before, i));
                }
            }
            assert(lhs =~= rhs);
            assert forall|i: int| final(self).len <= i < 8 * MAX_PAYLOAD_SIZE implies !#[trigger] stream_bit(
                final(self).data@,
                i,
            ) by {
                assert(!stream_bit(before, i));
                if bit && i / 8 == p {
                    assert(i % 8 != old(self).len % 8);
                }
            }
        }
    }

    /// Appends whole bytes; the stream must end on a byte boundary.
    pub fn extend(&mut self, arr: &[u8])
        requires
            old(self).wf(),
            old(self).tail_clear(),
            old(self).spec_len() % 8 == 0,
            old(self).has_room(8 * arr@.len()),
        ensures
            final(self).wf(),
            final(self).tail_clear(),
            final(self).bits() == old(self).bits() + Seq::new(
                8 * arr@.len(),
                |i: int| stream_bit(arr@, i),
            ),
            final(self).spec_len() == old(self).spec_len() + 8 * arr@.len(),
            final(self).spec_capacity() == old(self).spec_capacity(),
            final(self).spec_cursor() == old(self).spec_cursor(),
    {
        proof {
            lemma_byte_pos(self.len);
        }
        let pos = self.len >> 3;
        let n = arr.len();
        let ghost before = self.data@;
        let mut i: usize = 0;
        while i < n
            invariant
                n == arr@.len(),
                pos == old(self).len / 8,
                pos + n <= MAX_PAYLOAD_SIZE,
                i <= n,
                self.data@.len() == MAX_PAYLOAD_SIZE,
                self.len == old(self).len,
                self.capacity == old(self).capacity,
                self.cursor == old(self).cursor,
                before == old(self).data@,
                before.len() == MAX_PAYLOAD_SIZE,
                forall|j: int| 0 <= j < pos ==> self.data@[j] == before[j],
                forall|j: int| pos <= j < pos + i ==> self.data@[j] == arr@[j - pos],
                forall|j: int| pos + i <= j < MAX_PAYLOAD_SIZE ==> self.data@[j] == before[j],
            decreases n - i,
        {
            self.data.set(pos + i, arr[i]);
            i += 1;
        }
        proof {
            crate::bits::lemma_usize_shl3(n);
        }
        self.len = self.len + (n << 3);
        proof {
            let lhs = final(self).bits();
            let rhs = old(self).bits() + Seq::new(8 * arr@.len(), |i: int| stream_bit(arr@, i));
            assert forall|i: int| 0 <= i < lhs.len() implies lhs[i] == rhs[i] by {
                if i >= old(self).len {
                    assert((i - old(self).len) / 8 == i / 8 - pos);
                    assert((i - old(self).len) % 8 == i % 8);
                } else {
                    assert(i / 8 < pos);
                }
            }
            assert(lhs =~= rhs);
            assert forall|i: int| final(self).len <= i < 8 * MAX_PAYLOAD_SIZE implies !#[trigger] stream_bit(
                final(self).data@,
                i,
            ) by {
                assert(!stream_bit(before, i));
                assert(i / 8 >= pos + n);
            }
        }
    }
}

// Take bits for bit stream
//------------------------------------------------------------------------------
impl BitStream {
    /// Reads the next `n` bits as a number, or nothing when fewer than `n` bits are left.
    pub fn take_bits(&mut self, n: usize) -> (r: Option<u16>)
        requires
            old(self).wf(),
            n <= 16,
        ensures
            final(self).wf(),
            final(self).bytes() == old(self).bytes(),
            final(self).spec_len() == old(self).spec_len(),
            final(self).spec_capacity() == old(self).spec_capacity(),
            match r {
                Some(v) => {
                    &&& old(self).spec_cursor() + n <= old(self).spec_len()
                    &&& v as nat == bits_value(
                        old(self).bits().subrange(
                            old(self).spec_cursor() as int,
                            old(self).spec_cursor() + n,
                        ),
                    )
                    &&& final(self).spec_cursor() == old(self).spec_cursor() + n
                },
                None => {
                    &&& old(self).spec_cursor() + n > old(self).spec_len()
                    &&& final(self).spec_cursor() == old(self).spec_cursor()
                },
            },
    {
        if self.cursor + n > self.len {
            return None;
        }
        if n == 0 {
            proof {
                assert(old(self).bits().subrange(self.cursor as int, self.cursor as int)
                    =~= Seq::<bool>::empty());
            }
            return Some(0);
        }
        proof {
            lemma_byte_pos(self.cursor);
        }
        let off = self.cursor & 7;
        let pos = self.cursor >> 3;

        let b0 = self.data[pos] as u32;
        let b1: u32 = if off + n > 8 {
            self.data[pos + 1] as u32
        } else {
            0
        };
        let b2: u32 = if off + n > 16 {
            self.data[pos + 2] as u32
        } else {
            0
        };
        let w = (b0 << 16u32) | (b1 << 8u32) | b2;
        proof {
            lemma_shl1_u32(n as u32);
            lemma2_to64();
            lemma_pow2_pos(n as nat);
            if n < 16 {
                lemma_pow2_strictly_increases(n as nat, 16);
            }
            lemma_window_bit(b0, b1, b2, off as u32, n as u32, 0);
        }
        let res = (w >> (24 - off as u32 - n as u32)) & ((1u32 << (n as u32)) - 1);

        self.cursor += n;
        proof {
            let c = old(self).cursor as int;
            let sub = old(self).bits().subrange(c, c + n);
            let ib = int_bits(res as nat, n as nat);
            assert forall|t: int| 0 <= t < n implies ib[t] == sub[t] by {
                let tt = t as u32;
                lemma_window_bit(b0, b1, b2, off as u32, n as u32, tt);
                lemma_u32_bit(res, (n - 1 - t) as u32);
                let i = c + t;
                assert(i == 8 * pos + off + t);
                let k = (7 - i % 8) as u8;
                assert(sub[t] == stream_bit(self.data@, i));
                if off + t < 8 {
                    assert(i / 8 == pos);
                    assert(i % 8 == off + t);
                    lemma_u8_u32_bit(self.data@[pos as int], k);
                } else if off + t < 16 {
                    assert(i / 8 == pos + 1);
                    assert(i % 8 == off + t - 8);
                    lemma_u8_u32_bit(self.data@[pos + 1], k);
                } else {
                    assert(i / 8 == pos + 2);
                    assert(i % 8 == off + t - 16);
                    lemma_u8_u32_bit(self.data@[pos + 2], k);
                }
            }
            assert(ib =~= sub);
            lemma_bits_value_int_bits(res as nat, n as nat);
        }
        Some(res as u16)
    }

    /// Reads the next bit, or nothing at the end.
    pub fn take_bit(&mut self) -> (r: Option<bool>)
        requires
            old(self).wf(),
        ensures
            final(self).wf(),
            final(self).bytes() == old(self).bytes(),
            final(self).spec_len() == old(self).spec_len(),
            final(self).spec_capacity() == old(self).spec_capacity(),
            match r {
                Some(b) => {
                    &&& old(self).spec_cursor() < old(self).spec_len()
                    &&& b == old(self).bits()[old(self).spec_cursor() as int]
                    &&& final(self).spec_cursor() == old(self).spec_cursor() + 1
                },
                None => {
                    &&& old(self).spec_cursor() == old(self).spec_len()
                    &&& final(self).spec_cursor() == old(self).spec_cursor()
                },
            },
    {
        if self.cursor == self.len {
            return None;
        }
        proof {
            lemma_byte_pos(self.cursor);
        }
        let off = self.cursor & 7;
        let pos = self.cursor >> 3;
        let byte = self.data[pos];
        let bit = (byte << (off as u8)) >> 7u8;
        self.cursor += 1;
        proof {
            let o = off as u8;
            assert(o < 8 ==> ((((byte << o) >> 7u8) != 0) == u8_bit(byte, (7 - o) as u8)))
                by (bit_vector);
        }
        Some(bit != 0)
    }
}

// Bit array
//------------------------------------------------------------------------------
/// A bit array of fixed length, most significant bit first within each byte.
#[derive(Debug, Clone)]
pub struct BitArray {
    data: Vec<u8>,
    // Fixed bit length of array
    len: usize,
}

impl BitArray {
    /// The bits of the array.
    pub closed spec fn spec_bits(&self) -> Seq<bool> {
        Seq::new(self.len as nat, |i: int| stream_bit(self.data@, i))
    }

    pub closed spec fn spec_len(&self) -> nat {
        self.len as nat
    }

    pub closed spec fn wf(&self) -> bool {
        &&& self.data@.len() == MAX_PAYLOAD_SIZE
        &&& self.len <= 8 * MAX_PAYLOAD_SIZE
        &&& forall|i: int| self.len <= i < 8 * MAX_PAYLOAD_SIZE ==> !#[trigger] stream_bit(self.data@, i)
    }

    /// An array of `len` clear bits.
    pub fn new(len: usize) -> (r: Self)
        requires
            len <= 8 * MAX_PAYLOAD_SIZE,
        ensures
            r.wf(),
            r.spec_len() == len,
            r.spec_bits() == Seq::new(len as nat, |i: int| false),
    {
        let r = Self { data: vec![0u8; MAX_PAYLOAD_SIZE], len };
        proof {
            assert forall|i: int| 0 <= i < 8 * MAX_PAYLOAD_SIZE implies !#[trigger] stream_bit(
                r.data@,
                i,
            ) by {
                lemma_zero_byte_bits((7 - i % 8) as u8);
            }
            assert(r.spec_bits() =~= Seq::new(len as nat, |i: int| false));
        }
        r
    }

    pub fn len(&self) -> (r: usize)
        ensures
            r == self.spec_len(),
    {
        self.len
    }

    /// The bytes that hold the bits, the last one possibly partial.
    pub fn data(&self) -> (r: &[u8])
        requires
            self.wf(),
        ensures
            r@.len() == (self.spec_len() + 7) / 8,
            self.spec_bits().len() == self.spec_len(),
            forall|i: int| 0 <= i < self.spec_len() ==> stream_bit(r@, i) == self.spec_bits()[i],
            forall|i: int| self.spec_len() <= i < 8 * r@.len() ==> !#[trigger] stream_bit(r@, i),
    {
        proof {
            lemma_byte_pos((self.len + 7) as usize);
        }
        let end = (self.len + 7) >> 3;
        let r = &self.data.as_slice()[0..end];
        proof {
            assert forall|i: int| 0 <= i < self.spec_len() implies stream_bit(r@, i)
                == self.spec_bits()[i] by {
                assert(r@[i / 8] == self.data@[i / 8]);
            }
            assert forall|i: int| self.spec_len() <= i < 8 * r@.len() implies !#[trigger] stream_bit(
                r@,
                i,
            ) by {
                assert(r@[i / 8] == self.data@[i / 8]);
                assert(!stream_bit(self.data@, i));
            }
        }
        r
    }

    /// Sets bit `pos` to `bit`.
    pub fn put(&mut self, pos: usize, bit: bool)
        requires
            old(self).wf(),
            pos < old(self).spec_len(),
        ensures
            final(self).wf(),
            final(self).spec_len() == old(self).spec_len(),
            old(self).spec_bits().len() == old(self).spec_len(),
            final(self).spec_bits().len() == final(self).spec_len(),
            final(self).spec_bits() == old(self).spec_bits().update(pos as int, bit),
    {
        proof {
            lemma_byte_pos(pos);
        }
        let off = pos & 7;
        let index = pos >> 3;
        let b = self.data[index];
        let o = off as u8;
        let nb = if bit {
            b | (0b10000000u8 >> o)
        } else {
            b & !(0b10000000u8 >> o)
        };
        self.data.set(index, nb);
        proof {
            assert forall|k: u8| k < 8 implies #[trigger] u8_bit(nb, k) == if k == 7 - o {
                bit
            } else {
                u8_bit(b, k)
            } by {
                assert(o < 8);
                if bit {
                    assert(o < 8 && k < 8 ==> u8_bit(b | (0b10000000u8 >> o), k) == (k == 7 - o
                        || u8_bit(b, k))) by (bit_vector);
                } else {
                    assert(o < 8 && k < 8 ==> u8_bit(b & !(0b10000000u8 >> o), k) == (k != 7 - o
                        && u8_bit(b, k))) by (bit_vector);
                }
            }
            assert forall|i: int| self.len <= i < 8 * MAX_PAYLOAD_SIZE implies !#[trigger] stream_bit(
                self.data@,
                i,
            ) by {
                assert(!stream_bit(old(self).data@, i));
                if i / 8 == index {
                    assert(u8_bit(nb, (7 - i % 8) as u8) == u8_bit(b, (7 - i % 8) as u8));
                }
            }
            let s = final(self).spec_bits();
            let e = old(self).spec_bits().update(pos as int, bit);
            assert forall|i: int| 0 <= i < s.len() implies s[i] == e[i] by {
                if i / 8 == index {
                    assert(u8_bit(nb, (7 - i % 8) as u8) == if (7 - i % 8) as u8 == 7 - o {
                        bit
                    } else {
                        u8_bit(b, (7 - i % 8) as u8)
                    });
                }
            }
            assert(s =~= e);
        }
    }
}


/// The bits of the values `vals[j].0`, each `vals[j].1` bits wide and most significant bit
/// first, one after another: what a run of pushes leaves in a stream.
pub open spec fn pushed_bits(vals: Seq<(nat, nat)>) -> Seq<bool>
    decreases vals.len(),
{
    if vals.len() == 0 {
        Seq::empty()
    } else {
        pushed_bits(vals.drop_last()) + int_bits(vals.last().0, vals.last().1)
    }
}

/// Where the bits of value `i` start among `pushed_bits(vals)`.
pub open spec fn pushed_offset(vals: Seq<(nat, nat)>, i: int) -> int {
    pushed_bits(vals.take(i)).len() as int
}

/// The bits of value `i` lie where its offset says.
proof fn lemma_pushed_slice(vals: Seq<(nat, nat)>, i: int)
    requires
        0 <= i < vals.len(),
    ensures
        pushed_offset(vals, i) + vals[i].1 <= pushed_bits(vals).len(),
        pushed_bits(vals).subrange(pushed_offset(vals, i), pushed_offset(vals, i) + vals[i].1)
            == int_bits(vals[i].0, vals[i].1),
    decreases vals.len(),
{
    let p = vals.drop_last();
    if i == vals.len() - 1 {
        assert(vals.take(i) =~= p);
        assert(pushed_bits(vals).subrange(pushed_offset(vals, i), pushed_offset(vals, i)
            + vals[i].1) =~= int_bits(vals[i].0, vals[i].1));
    } else {
        lemma_pushed_slice(p, i);
        assert(p.take(i) =~= vals.take(i));
        assert(pushed_bits(vals).subrange(pushed_offset(vals, i), pushed_offset(vals, i)
            + vals[i].1) =~= pushed_bits(p).subrange(pushed_offset(p, i), pushed_offset(p, i)
            + vals[i].1));
    }
}

/// Pushes read back: a stream read from the bytes of a stream that holds a run of pushed
/// values gives, from each value's offset on, that value again, in as many bits as it was
/// pushed with.
pub proof fn lemma_pushes_read_back(out: BitStream, vals: Seq<(nat, nat)>, d: Seq<u8>, i: int)
    requires
        out.wf(),
        out.bits() == pushed_bits(vals),
        d == out.bytes().subrange(0, (out.spec_len() + 7) as int / 8),
        0 <= i < vals.len(),
        forall|j: int| 0 <= j < vals.len() ==> #[trigger] vals[j].0 < pow2(vals[j].1),
    ensures
        pushed_offset(vals, i) + vals[i].1 <= 8 * d.len(),
        bits_value(
            Seq::new(8 * d.len(), |k: int| stream_bit(d, k)).subrange(
                pushed_offset(vals, i),
                pushed_offset(vals, i) + vals[i].1,
            ),
        ) == vals[i].0,
{
    out.lemma_wf_facts();
    lemma_pushed_slice(vals, i);
    let o = pushed_offset(vals, i);
    let n = vals[i].1;
    let rd = Seq::new(8 * d.len(), |k: int| stream_bit(d, k));
    assert(out.spec_len() <= 8 * d.len());
    assert forall|k: int| 0 <= k < n implies #[trigger] rd.subrange(o, o + n)[k] == int_bits(
        vals[i].0,
        n,
    )[k] by {
        assert(d[(o + k) / 8] == out.bytes()[(o + k) / 8]);
        assert(pushed_bits(vals)[o + k] == out.bits()[o + k]);
    }
    assert(rd.subrange(o, o + n) =~= int_bits(vals[i].0, n));
    lemma_bits_value_int_bits(vals[i].0, n);
}

/// A byte is determined by its eight bits.
proof fn lemma_byte_from_bits(x: u8, y: u8)
    by (bit_vector)
    requires
        u8_bit(x, 0) == u8_bit(y, 0),
        u8_bit(x, 1) == u8_bit(y, 1),
        u8_bit(x, 2) == u8_bit(y, 2),
        u8_bit(x, 3) == u8_bit(y, 3),
        u8_bit(x, 4) == u8_bit(y, 4),
        u8_bit(x, 5) == u8_bit(y, 5),
        u8_bit(x, 6) == u8_bit(y, 6),
        u8_bit(x, 7) == u8_bit(y, 7),
    ensures
        x == y,
{
}

/// Two well-formed streams with clear tails and the same bits hold the same bytes: what is
/// stored is determined by what was written.
pub proof fn lemma_same_bits_same_bytes(a: BitStream, b: BitStream)
    requires
        a.wf(),
        b.wf(),
        a.tail_clear(),
        b.tail_clear(),
        a.bits() == b.bits(),
    ensures
        a.bytes() == b.bytes(),
{
    a.lemma_wf_facts();
    b.lemma_wf_facts();
    assert(a.bits().len() == a.spec_len());
    assert(b.bits().len() == b.spec_len());
    assert(a.spec_len() == b.spec_len());
    let n = a.spec_len() as int;
    assert forall|p: int| 0 <= p < MAX_PAYLOAD_SIZE implies a.bytes()[p] == b.bytes()[p] by {
        assert forall|k: u8| k < 8 implies #[trigger] u8_bit(a.bytes()[p], k) == u8_bit(
            b.bytes()[p],
            k,
        ) by {
            let i: int = 8 * p + 7 - k as int;
            assert(i / 8 == p && i % 8 == 7 - k as int);
            assert(((7 - i % 8) as u8) == k);
            assert(stream_bit(a.bytes(), i) == u8_bit(a.bytes()[p], k));
            assert(stream_bit(b.bytes(), i) == u8_bit(b.bytes()[p], k));
            if i < n {
                assert(a.bits()[i] == stream_bit(a.bytes(), i));
                assert(b.bits()[i] == stream_bit(b.bytes(), i));
            } else {
                assert(n <= i < 8 * MAX_PAYLOAD_SIZE);
                assert(!stream_bit(a.bytes(), i));
                assert(!stream_bit(b.bytes(), i));
            }
        }
        lemma_byte_from_bits(a.bytes()[p], b.bytes()[p]);
    }
    assert(a.bytes() =~= b.bytes());
}

/// Appending a byte by `push_byte` or by `push_bits` with eight bits leaves the same stream,
/// stored bytes included.
pub proof fn lemma_push_byte_is_push_bits(before: BitStream, a: BitStream, b: BitStream, x: u8)
    requires
        before.wf(),
        before.tail_clear(),
        a.wf(),
        b.wf(),
        a.tail_clear(),
        b.tail_clear(),
        a.bits() == before.bits() + int_bits(x as nat, 8),
        b.bits() == before.bits() + int_bits(x as nat, 8),
    ensures
        a.bytes() == b.bytes(),
        a.spec_len() == b.spec_len(),
{
    lemma_same_bits_same_bytes(a, b);
    assert(a.bits().len() == a.spec_len());
    assert(b.bits().len() == b.spec_len());
}

/// A stream made from the data of another starts with that stream's bits.
pub proof fn lemma_from_data_prefix(out: BitStream, d: Seq<u8>)
    requires
        out.wf(),
        d == out.bytes().subrange(0, (out.spec_len() + 7) as int / 8),
    ensures
        out.spec_len() <= 8 * d.len(),
        Seq::new(8 * d.len(), |k: int| stream_bit(d, k)).take(out.spec_len() as int)
            == out.bits(),
{
    out.lemma_wf_facts();
    let rd = Seq::new(8 * d.len(), |k: int| stream_bit(d, k));
    assert forall|k: int| 0 <= k < out.spec_len() implies #[trigger] rd.take(
        out.spec_len() as int,
    )[k] == out.bits()[k] by {
        assert(d[k / 8] == out.bytes()[k / 8]);
    }
    assert(rd.take(out.spec_len() as int) =~= out.bits());
}

/// Reading a run of pushes value by value: a stream that starts with the pushed bits, read
/// from the offset of value `i`, holds value `i` in the next `vals[i].1` bits, which is what
/// `take_bits` returns, and the read ends where value `i + 1` starts.
pub proof fn lemma_take_reads_pushed(inp: BitStream, vals: Seq<(nat, nat)>, i: int)
    requires
        inp.wf(),
        pushed_bits(vals).len() <= inp.spec_len(),
        inp.bits().take(pushed_bits(vals).len() as int) == pushed_bits(vals),
        0 <= i < vals.len(),
        forall|j: int| 0 <= j < vals.len() ==> #[trigger] vals[j].0 < pow2(vals[j].1),
    ensures
        pushed_offset(vals, i) + vals[i].1 <= inp.spec_len(),
        bits_value(inp.bits().subrange(pushed_offset(vals, i), pushed_offset(vals, i) + vals[i].1))
            == vals[i].0,
        pushed_offset(vals, i + 1) == pushed_offset(vals, i) + vals[i].1,
{
    lemma_pushed_slice(vals, i);
    let o = pushed_offset(vals, i);
    let n = vals[i].1;
    let pb = pushed_bits(vals);
    assert forall|k: int| 0 <= k < n implies #[trigger] inp.bits().subrange(o, o + n)[k]
        == int_bits(vals[i].0, n)[k] by {
        assert(inp.bits().take(pb.len() as int)[o + k] == pb[o + k]);
        assert(pb.subrange(o, o + n)[k] == pb[o + k]);
    }
    assert(inp.bits().subrange(o, o + n) =~= int_bits(vals[i].0, n));
    lemma_bits_value_int_bits(vals[i].0, n);
    assert(vals.take(i + 1).drop_last() =~= vals.take(i));
    assert(vals.take(i + 1).last() == vals[i]);
}

} // verus!
