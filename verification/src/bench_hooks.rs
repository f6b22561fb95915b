//! Entry points for measuring the Reed-Solomon codec and the data region walk on their own.
use crate::ec::block::{Block, MAX_BLOCK_SIZE, MAX_EC_SIZE};
use crate::ec::correction::{corrects_one, erased_single, hamming, lemma_hamming_one_place};
use crate::ec::decoder::{flagged_count, valid_codeword};
use crate::ec::encoder::rs_remainder;
use crate::iter::{region, EncRegionIter};
use crate::metadata::Version;
use vstd::prelude::*;

verus! {

/// Systematic Reed-Solomon encoding: `data` followed by `ec_len` parity bytes.
pub fn rs_encode(data: &[u8], ec_len: usize) -> (r: Vec<u8>)
    requires
        data@.len() + ec_len <= MAX_BLOCK_SIZE,
        ec_len <= MAX_EC_SIZE,
    ensures
        r@ == data@ + rs_remainder(data@, ec_len as nat),
{
    let blk = Block::new(data, data.len() + ec_len);
    vstd::slice::slice_to_vec(blk.full())
}

/// Errors-and-erasures decoding of one received block of `dlen` data bytes; `erased` flags
/// positions of `received`. `None` when more positions are flagged than there are parity
/// bytes, or when the block cannot be corrected; the received data when the block is
/// already a codeword. In a block of at most 255 bytes with at least two parity bytes, the
/// sent data when one byte was changed and either nothing is flagged or that byte alone is.
pub fn rs_decode(received: &[u8], dlen: usize, erased: &[bool]) -> (r: Option<Vec<u8>>)
    requires
        dlen <= received@.len() <= MAX_BLOCK_SIZE,
        received@.len() - dlen <= MAX_EC_SIZE,
    ensures
        flagged_count(erased@, received@.len()) > received@.len() - dlen ==> r is None,
        flagged_count(erased@, received@.len()) <= received@.len() - dlen && valid_codeword(
            received@,
            (received@.len() - dlen) as nat,
        ) ==> r is Some && r->0@ == received@.take(dlen as int),
        flagged_count(erased@, received@.len()) == 0 && received@.len() <= 255 && 2
            <= received@.len() - dlen ==> forall|cw: Seq<u8>|
            #![trigger valid_codeword(cw, (received@.len() - dlen) as nat)]
            cw.len() == received@.len() && valid_codeword(cw, (received@.len() - dlen) as nat)
                && hamming(received@, cw, received@.len()) <= 1 ==> r is Some && r->0@ == cw.take(
                dlen as int,
            ),
        forall|cw: Seq<u8>, p0: int|
            #![trigger valid_codeword(cw, (received@.len() - dlen) as nat), erased@[p0]]
            received@.len() <= 255 && 2 <= received@.len() - dlen && cw.len() == received@.len()
                && valid_codeword(cw, (received@.len() - dlen) as nat) && flagged_count(
                erased@,
                received@.len(),
            ) == 1 && 0 <= p0 < received@.len() && p0 < erased@.len() && erased@[p0] && (forall|
                i: int,
            |
                0 <= i < received@.len() && i != p0 ==> #[trigger] received@[i] == cw[i])
                ==> r is Some && r->0@ == cw.take(dlen as int),
        r matches Some(d) ==> exists|cw: Seq<u8>|
            #![trigger valid_codeword(cw, (received@.len() - dlen) as nat)]
            cw.len() == received@.len() && valid_codeword(cw, (received@.len() - dlen) as nat)
                && d@ == cw.take(dlen as int),
{
    let mut blk = Block::with_encoded(received, dlen);
    let ghost b0 = blk;
    let res = blk.rectify_with_erasures(erased);
    proof {
        assert forall|cw: Seq<u8>|
            #![trigger valid_codeword(cw, (received@.len() - dlen) as nat)]
            flagged_count(erased@, received@.len()) == 0 && received@.len() <= 255 && 2
                <= received@.len() - dlen && cw.len() == received@.len() && valid_codeword(
                cw,
                (received@.len() - dlen) as nat,
            ) && hamming(received@, cw, received@.len()) <= 1 implies corrects_one(b0, cw) by {}
        assert forall|cw: Seq<u8>, p0: int|
            #![trigger valid_codeword(cw, (received@.len() - dlen) as nat), erased@[p0]]
            received@.len() <= 255 && 2 <= received@.len() - dlen && cw.len() == received@.len()
                && valid_codeword(cw, (received@.len() - dlen) as nat) && flagged_count(
                erased@,
                received@.len(),
            ) == 1 && 0 <= p0 < received@.len() && p0 < erased@.len() && erased@[p0] && (forall|
                i: int,
            |
                0 <= i < received@.len() && i != p0 ==> #[trigger] received@[i] == cw[i])
                implies erased_single(b0, erased@, cw, p0) by {
            lemma_hamming_one_place(received@, cw, received@.len(), p0);
        }
    }
    match res {
        Ok(d) => {
            proof {
                let cw = blk.codeword();
                assert(valid_codeword(cw, (received@.len() - dlen) as nat));
            }
            Some(d)
        },
        Err(_) => None,
    }
}

/// The module coordinates that carry a channel's codeword bits, in the order they are
/// placed; the remainder bits are left out.
pub fn data_region(ver: Version) -> (r: Vec<(i32, i32)>)
    requires
        ver.valid(),
    ensures
        r@ == region(ver).take(
            if region(ver).len() < 8 * ver.spec_channel_codewords() {
                region(ver).len() as int
            } else {
                8 * ver.spec_channel_codewords() as int
            },
        ),
{
    let cc = ver.channel_codewords();
    proof {
        assert(cc <= 5386);
    }
    let n = cc * 8;
    let mut coords = EncRegionIter::new(ver);
    let mut out: Vec<(i32, i32)> = Vec::new();
    let ghost all = region(ver);
    while out.len() < n
        invariant_except_break
            out@.len() <= n,
        invariant
            coords.wf(),
            coords.spec_ver() == ver,
            coords.spec_w() == ver.spec_width(),
            n == 8 * ver.spec_channel_codewords(),
            all == region(ver),
            out@.len() <= all.len(),
            out@ == all.take(out@.len() as int),
            coords.rest() == all.skip(out@.len() as int),
        ensures
            out@ == all.take(
                if all.len() < n {
                    all.len() as int
                } else {
                    n as int
                },
            ),
        decreases n - out@.len(),
    {
        let ghost before = coords.rest();
        match coords.next() {
            Some(p) => {
                proof {
                    assert(before.len() > 0);
                    assert(p == all[out@.len() as int]);
                }
                out.push(p);
                proof {
                    assert(out@ =~= all.take(out@.len() as int));
                    assert(coords.rest() =~= all.skip(out@.len() as int));
                }
            },
            None => {
                proof {
                    assert(before.len() == 0);
                    assert(out@.len() == all.len());
                    assert(out@ =~= all.take(all.len() as int));
                }
                break ;
            },
        }
    }
    out
}

} // verus!
