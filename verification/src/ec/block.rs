//! A Reed-Solomon block: data codewords followed by error correction codewords.
use crate::ec::decoder::valid_codeword;
use crate::ec::encoder::{ecc_per_block, rs_remainder};
use vstd::prelude::*;

verus! {

/// The most codewords a block holds.
pub const MAX_BLOCK_SIZE: usize = 256;

/// The most error correction codewords a block holds.
pub const MAX_EC_SIZE: usize = 64;

/// A block of `len` codewords, the first `dlen` of them data.
#[derive(Debug, PartialEq, Eq, Clone)]
pub struct Block {
    pub data: Vec<u8>,
    /// Block length
    pub len: usize,
    /// Data length
    pub dlen: usize,
}

impl Block {
    /// The backing store is full size and the lengths fit it.
    pub open spec fn wf(&self) -> bool {
        &&& self.data@.len() == MAX_BLOCK_SIZE
        &&& self.dlen <= self.len <= MAX_BLOCK_SIZE
        &&& self.len - self.dlen <= MAX_EC_SIZE
    }

    /// The codewords of the block, data then error correction.
    pub open spec fn codeword(&self) -> Seq<u8> {
        self.data@.take(self.len as int)
    }

    /// A block holding `raw` followed by its error correction codewords, `len` in all.
    pub fn new(raw: &[u8], len: usize) -> (r: Self)
        requires
            raw@.len() <= len <= MAX_BLOCK_SIZE,
            len - raw@.len() <= MAX_EC_SIZE,
        ensures
            r.wf(),
            r.len == len,
            r.dlen == raw@.len(),
            r.codeword() == raw@ + rs_remainder(raw@, (len - raw@.len()) as nat),
            valid_codeword(r.codeword(), (len - raw@.len()) as nat),
    {
        proof {
            crate::ec::codeword::lemma_encoded_is_codeword(raw@, (len - raw@.len()) as nat);
        }
        let dlen = raw.len();
        let ecc = ecc_per_block(raw, len - dlen);
        proof {
            crate::ec::encoder::lemma_rs_remainder_len(raw@, (len - dlen) as nat);
        }
        let mut data = vec![0u8; MAX_BLOCK_SIZE];
        let mut i: usize = 0;
        while i < dlen
            invariant
                dlen == raw@.len() <= len <= MAX_BLOCK_SIZE,
                i <= dlen,
                data@.len() == MAX_BLOCK_SIZE,
                forall|t: int| 0 <= t < i ==> #[trigger] data@[t] == raw@[t],
            decreases dlen - i,
        {
            data.set(i, raw[i]);
            i += 1;
        }
        let mut k: usize = 0;
        while k < len - dlen
            invariant
                dlen == raw@.len() <= len <= MAX_BLOCK_SIZE,
                ecc@.len() == len - dlen,
                k <= len - dlen,
                data@.len() == MAX_BLOCK_SIZE,
                forall|t: int| 0 <= t < dlen ==> #[trigger] data@[t] == raw@[t],
                forall|t: int| 0 <= t < k ==> #[trigger] data@[dlen + t] == ecc@[t],
            decreases len - dlen - k,
        {
            data.set(dlen + k, ecc[k]);
            k += 1;
        }
        let r = Self { data, len, dlen };
        proof {
            assert forall|t: int| 0 <= t < len implies #[trigger] r.codeword()[t] == (raw@
                + ecc@)[t] by {
                if t >= dlen {
                    let u = t - dlen;
                    assert(data@[dlen + u] == ecc@[u]);
                }
            }
            assert(r.codeword() =~= raw@ + ecc@);
        }
        r
    }

    /// A block holding already encoded codewords, the first `dlen` of them data.
    pub fn with_encoded(encoded: &[u8], dlen: usize) -> (r: Self)
        requires
            dlen <= encoded@.len() <= MAX_BLOCK_SIZE,
            encoded@.len() - dlen <= MAX_EC_SIZE,
        ensures
            r.wf(),
            r.len == encoded@.len(),
            r.dlen == dlen,
            r.codeword() == encoded@,
    {
        let len = encoded.len();
        let mut data = vec![0u8; MAX_BLOCK_SIZE];
        let mut i: usize = 0;
        while i < len
            invariant
                len == encoded@.len() <= MAX_BLOCK_SIZE,
                i <= len,
                data@.len() == MAX_BLOCK_SIZE,
                forall|t: int| 0 <= t < i ==> #[trigger] data@[t] == encoded@[t],
            decreases len - i,
        {
            data.set(i, encoded[i]);
            i += 1;
        }
        let r = Self { data, len, dlen };
        proof {
            assert(r.codeword() =~= encoded@);
        }
        r
    }

    pub fn len(&self) -> (r: usize)
        ensures
            r == self.len,
    {
        self.len
    }

    /// Error correction codewords.
    pub fn ec_len(&self) -> (r: usize)
        requires
            self.wf(),
        ensures
            r == self.len - self.dlen,
    {
        self.len - self.dlen
    }

    /// Data codewords.
    pub fn data_len(&self) -> (r: usize)
        ensures
            r == self.dlen,
    {
        self.dlen
    }

    /// All codewords.
    pub fn full(&self) -> (r: &[u8])
        requires
            self.wf(),
        ensures
            r@ == self.codeword(),
    {
        &self.data.as_slice()[0..self.len]
    }

    /// The data codewords.
    pub fn data(&self) -> (r: &[u8])
        requires
            self.wf(),
        ensures
            r@ == self.codeword().take(self.dlen as int),
    {
        let r = &self.data.as_slice()[0..self.dlen];
        proof {
            assert(r@ =~= self.codeword().take(self.dlen as int));
        }
        r
    }

    /// The error correction codewords.
    pub fn ecc(&self) -> (r: &[u8])
        requires
            self.wf(),
        ensures
            r@ == self.codeword().skip(self.dlen as int),
    {
        let r = &self.data.as_slice()[self.dlen..self.len];
        proof {
            assert(r@ =~= self.codeword().skip(self.dlen as int));
        }
        r
    }
}

} // verus!
