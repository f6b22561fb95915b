//! Reading module colours from an image several pixels per module wide.
use super::{DeQR, Module};
use crate::builder::qr::{lemma_cell_div_mod, lemma_cell_in_range};
use crate::metadata::{Color, ECLevel, Version};
use vstd::prelude::*;

verus! {

/// The module of a grid `w` modules wide that pixel `k` of a square image `side` pixels
/// wide, row by row, falls in, with modules `ms` pixels wide.
pub open spec fn pixel_module_index(side: int, ms: int, w: int, k: int) -> int {
    (k / side) / ms * w + (k % side) / ms
}

/// The number of the first `n` pixels that fall in module `m` and have a luma below 128.
pub open spec fn dark_pixels(luma: Seq<u8>, side: int, ms: int, w: int, m: int, n: int) -> nat
    decreases n,
{
    if n <= 0 {
        0
    } else {
        dark_pixels(luma, side, ms, w, m, n - 1) + if pixel_module_index(side, ms, w, n - 1) == m
            && luma[n - 1] < 128 {
            1nat
        } else {
            0nat
        }
    }
}

/// Pixel `(i, j)` falls in a module of the grid, the one its row and column give.
proof fn lemma_pixel_module(side: int, ms: int, w: int, i: int, j: int)
    requires
        side == w * ms,
        w >= 1,
        0 <= i < side,
        0 <= j < side,
        (i * side + j) / side == i,
        (i * side + j) % side == j,
    ensures
        pixel_module_index(side, ms, w, i * side + j) == (i / ms) * w + j / ms,
        0 <= i / ms < w,
        0 <= j / ms < w,
        0 <= (i / ms) * w + j / ms < w * w,
{
    assert(ms > 0) by (nonlinear_arith)
        requires
            side == w * ms,
            w >= 1,
            side > 0,
    ;
    vstd::arithmetic::div_mod::lemma_fundamental_div_mod(i, ms);
    vstd::arithmetic::div_mod::lemma_fundamental_div_mod(j, ms);
    assert(0 <= i / ms < w) by (nonlinear_arith)
        requires
            ms > 0,
            0 <= i < w * ms,
            i == ms * (i / ms) + i % ms,
            0 <= i % ms < ms,
    ;
    assert(0 <= j / ms < w) by (nonlinear_arith)
        requires
            ms > 0,
            0 <= j < w * ms,
            j == ms * (j / ms) + j % ms,
            0 <= j % ms < ms,
    ;
    lemma_cell_in_range(w, i / ms, j / ms);
}

impl DeQR {
    /// Reads a symbol of `version` from a square image `side` pixels wide, row by row, whose
    /// modules are `side / width` pixels wide: a module is black when more than half of its
    /// pixels have a luma below 128.
    pub fn from_luma_scaled(luma: &[u8], side: usize, version: Version) -> (r: Self)
        requires
            version.valid(),
            side as int % version.spec_width() == 0,
            luma@.len() == side * side,
        ensures
            r.wf(),
            r.spec_ver() == version,
            r.spec_ecl() == None::<ECLevel>,
            forall|m: int|
                0 <= m < r.spec_grid().len() ==> #[trigger] r.spec_grid()[m] == Module::Unmarked(
                    if dark_pixels(
                        luma@,
                        side as int,
                        side as int / version.spec_width(),
                        version.spec_width(),
                        m,
                        luma@.len() as int,
                    ) > (side as int / version.spec_width()) * (side as int
                        / version.spec_width()) / 2 {
                        Color::Black
                    } else {
                        Color::White
                    },
                ),
    {
        let w = version.width();
        let ms = side / w;
        let ghost lv = luma@;
        proof {
            assert(w * w <= 177 * 177) by (nonlinear_arith)
                requires
                    w <= 177,
            ;
            vstd::arithmetic::div_mod::lemma_fundamental_div_mod(side as int, w as int);
            assert(side == w * ms) by (nonlinear_arith)
                requires
                    side == w * (side as int / w as int) + side as int % w as int,
                    side as int % w as int == 0,
                    ms == side as int / w as int,
            ;
            assert(ms * ms <= side * side) by (nonlinear_arith)
                requires
                    side == w * ms,
                    w >= 1,
            ;
        }
        assert(luma@.len() == luma.len());
        let mut count: Vec<usize> = vec![0usize; w * w];
        let mut i: usize = 0;
        while i < side
            invariant
                lv == luma@,
                lv.len() == side * side,
                side * side <= usize::MAX,
                side == w * ms,
                11 <= w <= 177,
                w * w <= 177 * 177,
                i <= side,
                count@.len() == w * w,
                forall|m: int|
                    0 <= m < w * w ==> #[trigger] count@[m] == dark_pixels(
                        lv,
                        side as int,
                        ms as int,
                        w as int,
                        m,
                        i * side,
                    ),
                forall|m: int| 0 <= m < w * w ==> #[trigger] count@[m] <= i * side,
            decreases side - i,
        {
            let mut j: usize = 0;
            while j < side
                invariant
                    lv == luma@,
                    lv.len() == side * side,
                    side * side <= usize::MAX,
                    side == w * ms,
                    11 <= w <= 177,
                w * w <= 177 * 177,
                    i < side,
                    j <= side,
                    count@.len() == w * w,
                    forall|m: int|
                        0 <= m < w * w ==> #[trigger] count@[m] == dark_pixels(
                            lv,
                            side as int,
                            ms as int,
                            w as int,
                            m,
                            i * side + j,
                        ),
                    forall|m: int| 0 <= m < w * w ==> #[trigger] count@[m] <= i * side + j,
                decreases side - j,
            {
                proof {
                    assert(i * side + j < side * side) by (nonlinear_arith)
                        requires
                            i < side,
                            j < side,
                    ;
                    lemma_cell_div_mod(side as int, i as int, j as int);
                    lemma_pixel_module(side as int, ms as int, w as int, i as int, j as int);
                    assert((i / ms) * w + j / ms < w * w);
                    assert((i / ms) * w <= w * w);
                }
                let k = i * side + j;
                let idx = (i / ms) * w + j / ms;
                if luma[k] < 128 {
                    let v = count[idx] + 1;
                    count.set(idx, v);
                }
                j += 1;
            }
            proof {
                assert(i * side + side == (i + 1) * side) by (nonlinear_arith);
            }
            i += 1;
        }
        proof {
            assert(ms * ms <= side * side) by (nonlinear_arith)
                requires
                    side == w * ms,
                    w >= 1,
            ;
        }
        let half = ms * ms / 2;
        let mut grid: Vec<Module> = Vec::new();
        let mut m: usize = 0;
        while m < w * w
            invariant
                lv == luma@,
                i == side,
                side == w * ms,
                11 <= w <= 177,
                w * w <= 177 * 177,
                count@.len() == w * w,
                half == ms * ms / 2,
                m <= w * w,
                grid@.len() == m,
                forall|t: int|
                    0 <= t < w * w ==> #[trigger] count@[t] == dark_pixels(
                        lv,
                        side as int,
                        ms as int,
                        w as int,
                        t,
                        i * side,
                    ),
                forall|t: int|
                    0 <= t < m ==> #[trigger] grid@[t] == Module::Unmarked(
                        if count@[t] > half {
                            Color::Black
                        } else {
                            Color::White
                        },
                    ),
            decreases w * w - m,
        {
            let clr = if count[m] > half {
                Color::Black
            } else {
                Color::White
            };
            grid.push(Module::Unmarked(clr));
            m += 1;
        }
        Self { width: w, grid, version, ec_level: None }
    }

}

} // verus!
