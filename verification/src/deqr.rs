//! A symbol as a reader sees it: a grid of module colours in which whatever has been read,
//! or belongs to a function pattern, is marked so that only the data modules are left.
use crate::bit_types::BitStream;
use crate::builder::builds;
use crate::builder::qr;
use crate::builder::qr::{
    alignment_cell, alignment_skipped, finder_cell, lemma_cell_in_range, lemma_cell_index,
    lemma_format_coords, lemma_near_index, lemma_version_coords, near, near_index, on_coords,
    timing_cell, wrap,
};
use crate::ec::decoder::{popcount, rectify_info};
use crate::error::{QRError, QRResult};
use crate::iter::{region, EncRegionIter};
use crate::mask::{mask_condition, MaskingPattern};
use crate::metadata::{
    color_of_bits, lemma_alignment_positions, Color, ECLevel, Version, FORMAT_INFOS_QR,
    FORMAT_INFO_COORDS_QR_MAIN, FORMAT_INFO_COORDS_QR_SIDE, FORMAT_MASK, VERSION_INFOS,
    VERSION_INFO_COORDS_BL, VERSION_INFO_COORDS_TR,
};
use vstd::prelude::*;

mod scan;

pub use scan::{dark_pixels, pixel_module_index};

verus! {

/// A module of a symbol being read: a colour still to be read, or marked as done with.
#[derive(Debug, PartialEq, Eq, Clone, Copy, Structural)]
pub enum Module {
    Unmarked(Color),
    Marked,
}

impl Module {
    /// The colour the module shows; a marked module reads as black.
    pub open spec fn spec_color(self) -> Color {
        match self {
            Module::Unmarked(c) => c,
            Module::Marked => Color::Black,
        }
    }

    /// The colour the module shows; a marked module reads as black.
    pub fn color(&self) -> (r: Color)
        ensures
            r == self.spec_color(),
    {
        match *self {
            Module::Unmarked(c) => c,
            Module::Marked => Color::Black,
        }
    }

    /// Whether the module is still to be read.
    pub fn is_unmarked(&self) -> (r: bool)
        ensures
            r == (*self is Unmarked),
    {
        match *self {
            Module::Unmarked(_) => true,
            Module::Marked => false,
        }
    }

    /// An unmarked module with the complementary colour; a marked one stays marked.
    pub open spec fn spec_flip(self) -> Module {
        match self {
            Module::Unmarked(c) => Module::Unmarked(color_of_bits((7 - c.rgb()) as u8)),
            Module::Marked => Module::Marked,
        }
    }

    /// An unmarked module with the complementary colour; a marked one stays marked.
    pub fn flip(self) -> (r: Module)
        ensures
            r == self.spec_flip(),
    {
        match self {
            Module::Unmarked(c) => Module::Unmarked(c.invert()),
            Module::Marked => Module::Marked,
        }
    }
}

/// The bit a module stands for: 1 where the red channel is off, so 1 for black.
pub open spec fn module_bit(m: Module) -> nat {
    if m.spec_color().rgb() >= 4 {
        0
    } else {
        1
    }
}

/// The module at row `r` and column `c` of a row-major grid of width `w`.
pub open spec fn read_cell(g: Seq<Module>, w: int, r: int, c: int) -> Module {
    g[r * w + c]
}

/// The number of modules of `g` that show black.
pub open spec fn dark_modules(g: Seq<Module>) -> nat
    decreases g.len(),
{
    if g.len() == 0 {
        0
    } else {
        dark_modules(g.drop_last()) + if g.last().spec_color() == Color::Black {
            1nat
        } else {
            0nat
        }
    }
}

/// The bits of the modules at the first `n` of `coords`, most significant first, as a
/// number.
pub open spec fn coords_number(g: Seq<Module>, w: int, coords: Seq<(i32, i32)>, n: int) -> nat
    decreases n,
{
    if n <= 0 {
        0
    } else {
        2 * coords_number(g, w, coords, n - 1) + module_bit(
            read_cell(g, w, wrap(coords[n - 1].0 as int, w), wrap(coords[n - 1].1 as int, w)),
        )
    }
}

/// `k` is the first of `valid` at the least number of differing bits from `info`.
pub open spec fn is_nearest(info: u32, valid: Seq<u32>, k: int) -> bool {
    &&& 0 <= k < valid.len()
    &&& forall|j: int|
        0 <= j < valid.len() ==> popcount(info ^ valid[k]) <= popcount(
            #[trigger] (info ^ valid[j]),
        )
    &&& forall|j: int| 0 <= j < k ==> popcount(info ^ valid[k]) < popcount(#[trigger] (info ^ valid[j]))
}

/// The entry of `valid` nearest to `info`, if it differs from it in at most `cap` bits.
pub open spec fn corrected(info: u32, valid: Seq<u32>, cap: nat) -> Option<u32> {
    let k = choose|k: int| is_nearest(info, valid, k);
    if popcount(info ^ valid[k]) <= cap {
        Some(valid[k])
    } else {
        None
    }
}

/// Only one entry is the first nearest.
proof fn lemma_nearest_unique(info: u32, valid: Seq<u32>, k1: int, k2: int)
    requires
        is_nearest(info, valid, k1),
        is_nearest(info, valid, k2),
    ensures
        k1 == k2,
{
    if k1 < k2 {
        assert(popcount(info ^ valid[k2]) < popcount(info ^ valid[k1]));
        assert(popcount(info ^ valid[k1]) <= popcount(info ^ valid[k2]));
    } else if k2 < k1 {
        assert(popcount(info ^ valid[k1]) < popcount(info ^ valid[k2]));
        assert(popcount(info ^ valid[k2]) <= popcount(info ^ valid[k1]));
    }
}

/// Corrects `info` to the nearest of `valid`, at most three bits away.
fn correct_info(info: u32, valid: &[u32]) -> (r: Option<u32>)
    requires
        valid@.len() > 0,
    ensures
        r == corrected(info, valid@, 3),
{
    let res = rectify_info(info, valid, 3);
    proof {
        let k0 = choose|k: int|
            0 <= k < valid@.len() && (forall|j: int|
                0 <= j < valid@.len() ==> popcount(info ^ valid@[k]) <= popcount(
                    #[trigger] (info ^ valid@[j]),
                )) && (forall|j: int|
                0 <= j < k ==> popcount(info ^ valid@[k]) < popcount(
                    #[trigger] (info ^ valid@[j]),
                )) && res == if popcount(info ^ valid@[k]) <= 3 {
                Ok::<(u32, u32), QRError>((valid@[k], popcount(info ^ valid@[k]) as u32))
            } else {
                Err::<(u32, u32), QRError>(QRError::InvalidInfo)
            };
        assert(is_nearest(info, valid@, k0));
        let k = choose|k: int| is_nearest(info, valid@, k);
        lemma_nearest_unique(info, valid@, k0, k);
    }
    match res {
        Ok(f) => Some(f.0),
        Err(_) => None,
    }
}

/// A symbol being read.
#[derive(Debug, Clone)]
pub struct DeQR {
    width: usize,
    grid: Vec<Module>,
    version: Version,
    ec_level: Option<ECLevel>,
}

impl DeQR {
    pub closed spec fn spec_grid(&self) -> Seq<Module> {
        self.grid@
    }

    pub closed spec fn spec_w(&self) -> int {
        self.width as int
    }

    pub closed spec fn spec_ver(&self) -> Version {
        self.version
    }

    pub closed spec fn spec_ecl(&self) -> Option<ECLevel> {
        self.ec_level
    }

    /// The grid is square, as wide as the version says.
    pub open spec fn wf(&self) -> bool {
        &&& self.spec_ver().valid()
        &&& self.spec_w() == self.spec_ver().spec_width()
        &&& self.spec_grid().len() == self.spec_w() * self.spec_w()
    }

    /// The module at row `r`, column `c`, both in `[0, w)`.
    #[verifier::inline]
    pub open spec fn module_at(&self, r: int, c: int) -> Module {
        read_cell(self.spec_grid(), self.spec_w(), r, c)
    }

    /// A coordinate pair that `get` and `set` accept.
    pub open spec fn in_range(&self, r: int, c: int) -> bool {
        &&& -self.spec_w() <= r < self.spec_w()
        &&& -self.spec_w() <= c < self.spec_w()
    }

    /// `self` and `other` differ at most in their grids.
    pub open spec fn same_header(&self, other: &DeQR) -> bool {
        &&& self.spec_w() == other.spec_w()
        &&& self.spec_ver() == other.spec_ver()
        &&& self.spec_ecl() == other.spec_ecl()
    }

    /// Reads a symbol of `version` from the luma of its modules, row by row: a module is
    /// black when its luma is below 128.
    pub fn from_luma(luma: &[u8], version: Version) -> (r: Self)
        requires
            version.valid(),
            luma@.len() == version.spec_width() * version.spec_width(),
        ensures
            r.wf(),
            r.spec_ver() == version,
            r.spec_ecl() == None::<ECLevel>,
            forall|i: int|
                0 <= i < r.spec_grid().len() ==> #[trigger] r.spec_grid()[i] == Module::Unmarked(
                    if luma@[i] < 128 {
                        Color::Black
                    } else {
                        Color::White
                    },
                ),
    {
        let qr_width = version.width();
        let mut grid: Vec<Module> = Vec::new();
        let mut i: usize = 0;
        while i < luma.len()
            invariant
                i <= luma@.len(),
                grid@.len() == i,
                forall|t: int|
                    0 <= t < i ==> #[trigger] grid@[t] == Module::Unmarked(
                        if luma@[t] < 128 {
                            Color::Black
                        } else {
                            Color::White
                        },
                    ),
            decreases luma@.len() - i,
        {
            let clr = if luma[i] < 128 {
                Color::Black
            } else {
                Color::White
            };
            grid.push(Module::Unmarked(clr));
            i += 1;
        }
        Self { width: qr_width, grid, version, ec_level: None }
    }

    /// The number of modules that show black, marked ones included.
    pub fn count_dark_modules(&self) -> (r: usize)
        ensures
            r == dark_modules(self.spec_grid()),
    {
        let mut n: usize = 0;
        let mut i: usize = 0;
        while i < self.grid.len()
            invariant
                i <= self.grid@.len(),
                n == dark_modules(self.grid@.take(i as int)),
                n <= i,
            decreases self.grid@.len() - i,
        {
            proof {
                assert(self.grid@.take(i + 1).drop_last() =~= self.grid@.take(i as int));
            }
            if self.grid[i].color() == Color::Black {
                n += 1;
            }
            i += 1;
        }
        proof {
            assert(self.grid@.take(i as int) =~= self.grid@);
        }
        n
    }

    /// Position of a coordinate pair in a grid of width `width`; negative coordinates count
    /// from the far edge.
    fn coord_to_index(r: i32, c: i32, width: usize) -> (i: usize)
        requires
            11 <= width <= 177,
            -width <= r < width,
            -width <= c < width,
        ensures
            i == wrap(r as int, width as int) * width + wrap(c as int, width as int),
            i < width * width,
    {
        let w = width as i32;
        let r = if r < 0 {
            r + w
        } else {
            r
        };
        let c = if c < 0 {
            c + w
        } else {
            c
        };
        proof {
            lemma_cell_in_range(w as int, r as int, c as int);
            assert(w * w <= 177 * 177) by (nonlinear_arith)
                requires
                    0 <= w <= 177,
            ;
            assert(0 <= r * w) by (nonlinear_arith)
                requires
                    0 <= r,
                    0 <= w,
            ;
        }
        (r * w + c) as usize
    }

    /// The module at `(r, c)`; negative coordinates count from the far edge.
    fn get(&self, r: i32, c: i32) -> (m: Module)
        requires
            self.wf(),
            self.in_range(r as int, c as int),
        ensures
            m == self.module_at(wrap(r as int, self.spec_w()), wrap(c as int, self.spec_w())),
    {
        self.grid[Self::coord_to_index(r, c, self.width)]
    }

    /// Puts `module` at `(r, c)`.
    fn set(&mut self, r: i32, c: i32, module: Module)
        requires
            old(self).wf(),
            old(self).in_range(r as int, c as int),
        ensures
            final(self).wf(),
            final(self).same_header(old(self)),
            final(self).spec_grid() == old(self).spec_grid().update(
                wrap(r as int, old(self).spec_w()) * old(self).spec_w() + wrap(
                    c as int,
                    old(self).spec_w(),
                ),
                module,
            ),
            forall|rr: int, cc: int|
                0 <= rr < old(self).spec_w() && 0 <= cc < old(self).spec_w()
                    ==> #[trigger] final(self).module_at(rr, cc) == if rr == wrap(
                    r as int,
                    old(self).spec_w(),
                ) && cc == wrap(c as int, old(self).spec_w()) {
                    module
                } else {
                    old(self).module_at(rr, cc)
                },
    {
        let index = Self::coord_to_index(r, c, self.width);
        let ghost w = self.spec_w();
        let ghost g = self.spec_grid();
        self.grid.set(index, module);
        proof {
            let r0 = wrap(r as int, w);
            let c0 = wrap(c as int, w);
            assert forall|rr: int, cc: int| 0 <= rr < w && 0 <= cc < w implies #[trigger] self.module_at(
                rr,
                cc,
            ) == if rr == r0 && cc == c0 {
                module
            } else {
                read_cell(g, w, rr, cc)
            } by {
                lemma_cell_in_range(w, rr, cc);
                if rr * w + cc == r0 * w + c0 {
                    lemma_cell_index(w, rr, cc, r0, c0);
                }
            }
        }
    }
}


/// Shifting a bit into a 32-bit number keeps it the low 32 bits of the unbounded value.
proof fn lemma_shift_in(v: nat, b: nat)
    ensures
        (2 * (v % 0x1_0000_0000) + b) % 0x1_0000_0000 == (2 * v + b) % 0x1_0000_0000,
{
    let m: int = 0x1_0000_0000;
    vstd::arithmetic::div_mod::lemma_fundamental_div_mod(v as int, m);
    vstd::arithmetic::div_mod::lemma_mod_multiples_vanish(
        2 * (v as int / m),
        2 * (v as int % m) + b,
        m,
    );
    assert(m * (2 * (v as int / m)) + (2 * (v as int % m) + b) == 2 * v + b) by (nonlinear_arith)
        requires
            v == m * (v as int / m) + v as int % m,
    ;
}

/// `g2` is `g` with every module on one of `coords` marked, and nothing else changed.
pub open spec fn marked_on(g: Seq<Module>, g2: Seq<Module>, w: int, coords: Seq<(i32, i32)>) -> bool {
    &&& g2.len() == g.len()
    &&& forall|r: int, c: int|
        0 <= r < w && 0 <= c < w ==> #[trigger] read_cell(g2, w, r, c) == if on_coords(
            coords,
            w,
            r,
            c,
        ) {
            Module::Marked
        } else {
            read_cell(g, w, r, c)
        }
}

impl DeQR {
    /// Reads the modules at `coords` as the bits of a number, most significant first; only
    /// the last 32 of them are kept.
    pub fn get_number(&mut self, coords: &[(i32, i32)]) -> (r: u32)
        requires
            old(self).wf(),
            forall|k: int|
                0 <= k < coords@.len() ==> old(self).in_range(
                    #[trigger] coords@[k].0 as int,
                    coords@[k].1 as int,
                ),
        ensures
            final(self).wf(),
            final(self).same_header(old(self)),
            final(self).spec_grid() == old(self).spec_grid(),
            r == coords_number(
                old(self).spec_grid(),
                old(self).spec_w(),
                coords@,
                coords@.len() as int,
            ) % 0x1_0000_0000,
    {
        let ghost g = self.spec_grid();
        let ghost w = self.spec_w();
        let mut number: u32 = 0;
        let mut k: usize = 0;
        while k < coords.len()
            invariant
                self.wf(),
                g == self.spec_grid(),
                w == self.spec_w(),
                k <= coords@.len(),
                forall|t: int|
                    0 <= t < coords@.len() ==> self.in_range(
                        #[trigger] coords@[t].0 as int,
                        coords@[t].1 as int,
                    ),
                number == coords_number(g, w, coords@, k as int) % 0x1_0000_0000,
            decreases coords@.len() - k,
        {
            let (r, c) = coords[k];
            assert(self.in_range(coords@[k as int].0 as int, coords@[k as int].1 as int));
            let m = self.get(r, c);
            let b = m.color().to_u32();
            let ghost v = coords_number(g, w, coords@, k as int);
            proof {
                assert(b == module_bit(m));
                assert(b <= 1 ==> ((number << 1u32) | b) as int == (2 * (number as int) + b as int)
                    % 0x1_0000_0000) by (bit_vector);
                lemma_shift_in(v, b as nat);
            }
            number = (number << 1) | b;
            k += 1;
        }
        number
    }

    /// Marks the modules at `coords`.
    pub fn mark_coords(&mut self, coords: &[(i32, i32)])
        requires
            old(self).wf(),
            forall|k: int|
                0 <= k < coords@.len() ==> old(self).in_range(
                    #[trigger] coords@[k].0 as int,
                    coords@[k].1 as int,
                ),
        ensures
            final(self).wf(),
            final(self).same_header(old(self)),
            marked_on(old(self).spec_grid(), final(self).spec_grid(), old(self).spec_w(), coords@),
    {
        let ghost g = self.spec_grid();
        let ghost w = self.spec_w();
        let ghost q0 = *self;
        let mut k: usize = 0;
        while k < coords.len()
            invariant
                self.wf(),
                self.same_header(&q0),
                w == self.spec_w(),
                g.len() == self.spec_grid().len(),
                k <= coords@.len(),
                forall|t: int|
                    0 <= t < coords@.len() ==> self.in_range(
                        #[trigger] coords@[t].0 as int,
                        coords@[t].1 as int,
                    ),
                marked_on(g, self.spec_grid(), w, coords@.take(k as int)),
            decreases coords@.len() - k,
        {
            let (r, c) = coords[k];
            assert(self.in_range(coords@[k as int].0 as int, coords@[k as int].1 as int));
            let ghost g1 = self.spec_grid();
            self.set(r, c, Module::Marked);
            proof {
                let pre = coords@.take(k as int);
                let post = coords@.take(k + 1);
                assert forall|rr: int, cc: int| 0 <= rr < w && 0 <= cc < w implies #[trigger] read_cell(
                    self.spec_grid(),
                    w,
                    rr,
                    cc,
                ) == if on_coords(post, w, rr, cc) {
                    Module::Marked
                } else {
                    read_cell(g, w, rr, cc)
                } by {
                    assert(read_cell(g1, w, rr, cc) == read_cell(g1, w, rr, cc));
                    if on_coords(pre, w, rr, cc) {
                        let t = choose|t: int|
                            0 <= t < pre.len() && wrap(#[trigger] pre[t].0 as int, w) == rr && wrap(
                                pre[t].1 as int,
                                w,
                            ) == cc;
                        assert(post[t] == pre[t]);
                    }
                    if on_coords(post, w, rr, cc) && !on_coords(pre, w, rr, cc) {
                        let t = choose|t: int|
                            0 <= t < post.len() && wrap(#[trigger] post[t].0 as int, w) == rr
                                && wrap(post[t].1 as int, w) == cc;
                        if t < k {
                            assert(pre[t] == post[t]);
                        }
                    }
                    if rr == wrap(r as int, w) && cc == wrap(c as int, w) {
                        assert(post[k as int] == (r, c));
                    }
                }
            }
            k += 1;
        }
        proof {
            assert(coords@.take(k as int) =~= coords@);
        }
    }
}

/// The format and version information coordinates lie within every grid.
proof fn lemma_info_coords_in_range(q: DeQR)
    requires
        q.wf(),
    ensures
        forall|k: int|
            0 <= k < FORMAT_INFO_COORDS_QR_MAIN@.len() ==> q.in_range(
                #[trigger] FORMAT_INFO_COORDS_QR_MAIN@[k].0 as int,
                FORMAT_INFO_COORDS_QR_MAIN@[k].1 as int,
            ),
        forall|k: int|
            0 <= k < FORMAT_INFO_COORDS_QR_SIDE@.len() ==> q.in_range(
                #[trigger] FORMAT_INFO_COORDS_QR_SIDE@[k].0 as int,
                FORMAT_INFO_COORDS_QR_SIDE@[k].1 as int,
            ),
        forall|k: int|
            0 <= k < VERSION_INFO_COORDS_BL@.len() ==> q.in_range(
                #[trigger] VERSION_INFO_COORDS_BL@[k].0 as int,
                VERSION_INFO_COORDS_BL@[k].1 as int,
            ),
        forall|k: int|
            0 <= k < VERSION_INFO_COORDS_TR@.len() ==> q.in_range(
                #[trigger] VERSION_INFO_COORDS_TR@[k].0 as int,
                VERSION_INFO_COORDS_TR@[k].1 as int,
            ),
{
    lemma_format_coords(q.spec_w());
    lemma_version_coords(q.spec_w());
    assert(q.spec_w() >= 11);
}

/// What reading the format information gives: the main copy corrected if it can be, else
/// the side copy, unmasked.
pub open spec fn format_reading(g: Seq<Module>, w: int) -> Option<u32> {
    let main = (coords_number(g, w, FORMAT_INFO_COORDS_QR_MAIN@, 15) % 0x1_0000_0000) as u32;
    let side = (coords_number(g, w, FORMAT_INFO_COORDS_QR_SIDE@, 15) % 0x1_0000_0000) as u32;
    match corrected(main, FORMAT_INFOS_QR@, 3) {
        Some(f) => Some(f ^ FORMAT_MASK),
        None => match corrected(side, FORMAT_INFOS_QR@, 3) {
            Some(f) => Some(f ^ FORMAT_MASK),
            None => None,
        },
    }
}

/// What reading the version information gives: the bottom left copy corrected if it can
/// be, else the top right copy.
pub open spec fn version_reading(g: Seq<Module>, w: int) -> Option<u32> {
    let bl = (coords_number(g, w, VERSION_INFO_COORDS_BL@, 18) % 0x1_0000_0000) as u32;
    let tr = (coords_number(g, w, VERSION_INFO_COORDS_TR@, 18) % 0x1_0000_0000) as u32;
    match corrected(bl, VERSION_INFOS@, 3) {
        Some(v) => Some(v),
        None => corrected(tr, VERSION_INFOS@, 3),
    }
}

impl DeQR {
    /// Reads the format information, from the main copy or else the side copy, and marks
    /// both copies; fails when neither is within three bits of a valid word.
    pub fn identify_format_info(&mut self) -> (r: QRResult<u32>)
        requires
            old(self).wf(),
        ensures
            final(self).wf(),
            final(self).same_header(old(self)),
            match format_reading(old(self).spec_grid(), old(self).spec_w()) {
                Some(f) => r == Ok::<u32, QRError>(f) && marked_on(
                    old(self).spec_grid(),
                    final(self).spec_grid(),
                    old(self).spec_w(),
                    FORMAT_INFO_COORDS_QR_MAIN@ + FORMAT_INFO_COORDS_QR_SIDE@,
                ),
                None => r == Err::<u32, QRError>(QRError::InvalidFormatInfo) && final(self).spec_grid() == old(self).spec_grid(),
            },
    {
        proof {
            lemma_info_coords_in_range(*self);
        }
        let ghost g = self.spec_grid();
        let ghost w = self.spec_w();
        let main = self.get_number(&FORMAT_INFO_COORDS_QR_MAIN);
        let f = match correct_info(main, &FORMAT_INFOS_QR) {
            Some(f) => f,
            None => {
                let side = self.get_number(&FORMAT_INFO_COORDS_QR_SIDE);
                match correct_info(side, &FORMAT_INFOS_QR) {
                    Some(f) => f,
                    None => {
                        return Err(QRError::InvalidFormatInfo);
                    },
                }
            },
        };
        self.mark_coords(&FORMAT_INFO_COORDS_QR_MAIN);
        let ghost g1 = self.spec_grid();
        self.mark_coords(&FORMAT_INFO_COORDS_QR_SIDE);
        proof {
            lemma_marked_twice(g, g1, self.spec_grid(), w, FORMAT_INFO_COORDS_QR_MAIN@, FORMAT_INFO_COORDS_QR_SIDE@);
        }
        Ok(f ^ FORMAT_MASK)
    }

    /// Reads the version information, from the bottom left copy or else the top right copy,
    /// and marks both copies; fails when neither is within three bits of a valid word. The
    /// version returned carries the corrected information word itself.
    pub fn verify_version_info(&mut self) -> (r: QRResult<Version>)
        requires
            old(self).wf(),
        ensures
            final(self).wf(),
            final(self).same_header(old(self)),
            match version_reading(old(self).spec_grid(), old(self).spec_w()) {
                Some(v) => r == Ok::<Version, QRError>(Version::Normal(v as usize)) && marked_on(
                    old(self).spec_grid(),
                    final(self).spec_grid(),
                    old(self).spec_w(),
                    VERSION_INFO_COORDS_BL@ + VERSION_INFO_COORDS_TR@,
                ),
                None => r == Err::<Version, QRError>(QRError::InvalidVersionInfo) && final(self).spec_grid() == old(self).spec_grid(),
            },
    {
        proof {
            lemma_info_coords_in_range(*self);
        }
        let ghost g = self.spec_grid();
        let ghost w = self.spec_w();
        let bl = self.get_number(&VERSION_INFO_COORDS_BL);
        let v = match correct_info(bl, &VERSION_INFOS) {
            Some(v) => v,
            None => {
                let tr = self.get_number(&VERSION_INFO_COORDS_TR);
                match correct_info(tr, &VERSION_INFOS) {
                    Some(v) => v,
                    None => {
                        return Err(QRError::InvalidVersionInfo);
                    },
                }
            },
        };
        self.mark_coords(&VERSION_INFO_COORDS_BL);
        let ghost g1 = self.spec_grid();
        self.mark_coords(&VERSION_INFO_COORDS_TR);
        proof {
            lemma_marked_twice(g, g1, self.spec_grid(), w, VERSION_INFO_COORDS_BL@, VERSION_INFO_COORDS_TR@);
        }
        Ok(Version::Normal(v as usize))
    }
}

/// Marking two lists of coordinates in turn marks their concatenation.
proof fn lemma_marked_twice(
    g0: Seq<Module>,
    g1: Seq<Module>,
    g2: Seq<Module>,
    w: int,
    a: Seq<(i32, i32)>,
    b: Seq<(i32, i32)>,
)
    requires
        marked_on(g0, g1, w, a),
        marked_on(g1, g2, w, b),
    ensures
        marked_on(g0, g2, w, a + b),
{
    assert forall|r: int, c: int| 0 <= r < w && 0 <= c < w implies #[trigger] read_cell(g2, w, r, c)
        == if on_coords(a + b, w, r, c) {
        Module::Marked
    } else {
        read_cell(g0, w, r, c)
    } by {
        assert(read_cell(g1, w, r, c) == read_cell(g1, w, r, c));
        let ab = a + b;
        if on_coords(a, w, r, c) {
            let t = choose|t: int|
                0 <= t < a.len() && wrap(#[trigger] a[t].0 as int, w) == r && wrap(a[t].1 as int, w)
                    == c;
            assert(ab[t] == a[t]);
        }
        if on_coords(b, w, r, c) {
            let t = choose|t: int|
                0 <= t < b.len() && wrap(#[trigger] b[t].0 as int, w) == r && wrap(b[t].1 as int, w)
                    == c;
            assert(ab[a.len() + t] == b[t]);
        }
        if on_coords(ab, w, r, c) {
            let t = choose|t: int|
                0 <= t < ab.len() && wrap(#[trigger] ab[t].0 as int, w) == r && wrap(
                    ab[t].1 as int,
                    w,
                ) == c;
            if t < a.len() {
                assert(a[t] == ab[t]);
            } else {
                assert(b[t - a.len()] == ab[t]);
            }
        }
    }
}

/// `g2` is `g` with the rectangle of rows `[r0, r1]` and columns `[c0, c1]` marked, and
/// nothing else changed.
pub open spec fn box_marked(g: Seq<Module>, g2: Seq<Module>, w: int, r0: int, r1: int, c0: int, c1: int) -> bool {
    &&& g2.len() == g.len()
    &&& forall|r: int, c: int|
        0 <= r < w && 0 <= c < w ==> #[trigger] read_cell(g2, w, r, c) == if r0 <= r <= r1 && c0
            <= c <= c1 {
            Module::Marked
        } else {
            read_cell(g, w, r, c)
        }
}

/// `g2` is `g` with the modules where `region` holds marked, and nothing else changed.
pub open spec fn marked_where(g: Seq<Module>, g2: Seq<Module>, w: int, region: spec_fn(int, int) -> bool) -> bool {
    &&& g2.len() == g.len()
    &&& forall|r: int, c: int|
        0 <= r < w && 0 <= c < w ==> #[trigger] read_cell(g2, w, r, c) == if region(r, c) {
            Module::Marked
        } else {
            read_cell(g, w, r, c)
        }
}

// Finder patterns
//------------------------------------------------------------------------------
impl DeQR {
    /// Marks the finder patterns, with their separators.
    pub fn mark_finder_patterns(&mut self)
        requires
            old(self).wf(),
        ensures
            final(self).wf(),
            final(self).same_header(old(self)),
            marked_where(
                old(self).spec_grid(),
                final(self).spec_grid(),
                old(self).spec_w(),
                |r: int, c: int| finder_cell(old(self).spec_ver(), old(self).spec_w(), r, c) is Some,
            ),
    {
        let ghost w = self.spec_w();
        let ghost g0 = self.spec_grid();
        let ghost ver = self.spec_ver();
        self.mark_finder_pattern_at(3, 3);
        let ghost g1 = self.spec_grid();
        match self.version {
            Version::Micro(_) => {},
            Version::Normal(_) => {
                self.mark_finder_pattern_at(3, -4);
                let ghost g2 = self.spec_grid();
                self.mark_finder_pattern_at(-4, 3);
                proof {
                    assert forall|r: int, c: int| 0 <= r < w && 0 <= c < w implies #[trigger] read_cell(
                        self.spec_grid(),
                        w,
                        r,
                        c,
                    ) == if finder_cell(ver, w, r, c) is Some {
                        Module::Marked
                    } else {
                        read_cell(g0, w, r, c)
                    } by {
                        assert(read_cell(g1, w, r, c) == read_cell(g1, w, r, c));
                        assert(read_cell(g2, w, r, c) == read_cell(g2, w, r, c));
                    }
                }
            },
        }
    }

    /// Marks the finder pattern centred on `(r, c)`, each of them 3 or -4, with its
    /// separator on the sides that face the inside of the symbol.
    pub fn mark_finder_pattern_at(&mut self, r: i32, c: i32)
        requires
            old(self).wf(),
            r == 3 || r == -4,
            c == 3 || c == -4,
        ensures
            final(self).wf(),
            final(self).same_header(old(self)),
            box_marked(
                old(self).spec_grid(),
                final(self).spec_grid(),
                old(self).spec_w(),
                wrap(r as int, old(self).spec_w()) + if r > 0 {
                    -3int
                } else {
                    -4int
                },
                wrap(r as int, old(self).spec_w()) + if r > 0 {
                    4int
                } else {
                    3int
                },
                wrap(c as int, old(self).spec_w()) + if c > 0 {
                    -3int
                } else {
                    -4int
                },
                wrap(c as int, old(self).spec_w()) + if c > 0 {
                    4int
                } else {
                    3int
                },
            ),
    {
        let ghost w = self.spec_w();
        let ghost g0 = self.spec_grid();
        let ghost q0 = *self;
        let ghost cr = wrap(r as int, w);
        let ghost cc = wrap(c as int, w);
        let (dr_left, dr_right) = if r > 0 {
            (-3i32, 4i32)
        } else {
            (-4i32, 3i32)
        };
        let (dc_top, dc_bottom) = if c > 0 {
            (-3i32, 4i32)
        } else {
            (-4i32, 3i32)
        };
        let mut i = dr_left;
        while i <= dr_right
            invariant
                self.wf(),
                self.same_header(&q0),
                self.spec_w() == w,
                w >= 11,
                r == 3 || r == -4,
                c == 3 || c == -4,
                cr == wrap(r as int, w),
                cc == wrap(c as int, w),
                dr_left == (if r > 0 { -3i32 } else { -4i32 }),
                dr_right == (if r > 0 { 4i32 } else { 3i32 }),
                dc_top == (if c > 0 { -3i32 } else { -4i32 }),
                dc_bottom == (if c > 0 { 4i32 } else { 3i32 }),
                dr_left <= i <= dr_right + 1,
                g0.len() == self.spec_grid().len(),
                forall|rr: int, ccc: int|
                    0 <= rr < w && 0 <= ccc < w ==> #[trigger] self.module_at(rr, ccc) == if cr
                        + dr_left <= rr < cr + i && cc + dc_top <= ccc <= cc + dc_bottom {
                        Module::Marked
                    } else {
                        read_cell(g0, w, rr, ccc)
                    },
            decreases dr_right + 1 - i,
        {
            let mut j = dc_top;
            while j <= dc_bottom
                invariant
                    self.wf(),
                    self.same_header(&q0),
                    self.spec_w() == w,
                    w >= 11,
                    r == 3 || r == -4,
                    c == 3 || c == -4,
                    cr == wrap(r as int, w),
                    cc == wrap(c as int, w),
                    dr_left == (if r > 0 { -3i32 } else { -4i32 }),
                    dr_right == (if r > 0 { 4i32 } else { 3i32 }),
                    dc_top == (if c > 0 { -3i32 } else { -4i32 }),
                    dc_bottom == (if c > 0 { 4i32 } else { 3i32 }),
                    dr_left <= i <= dr_right,
                    dc_top <= j <= dc_bottom + 1,
                    g0.len() == self.spec_grid().len(),
                    forall|rr: int, ccc: int|
                        0 <= rr < w && 0 <= ccc < w ==> #[trigger] self.module_at(rr, ccc) == if (cr
                            + dr_left <= rr < cr + i && cc + dc_top <= ccc <= cc + dc_bottom) || (
                        rr == cr + i && cc + dc_top <= ccc < cc + j) {
                            Module::Marked
                        } else {
                            read_cell(g0, w, rr, ccc)
                        },
                decreases dc_bottom + 1 - j,
            {
                assert(wrap((r + i) as int, w) == cr + i);
                assert(wrap((c + j) as int, w) == cc + j);
                self.set(r + i, c + j, Module::Marked);
                j += 1;
            }
            i += 1;
        }
    }
}

// Timing patterns
//------------------------------------------------------------------------------
impl DeQR {
    /// Marks the two timing patterns.
    pub fn mark_timing_patterns(&mut self)
        requires
            old(self).wf(),
        ensures
            final(self).wf(),
            final(self).same_header(old(self)),
            marked_where(
                old(self).spec_grid(),
                final(self).spec_grid(),
                old(self).spec_w(),
                |r: int, c: int| timing_cell(old(self).spec_ver(), old(self).spec_w(), r, c) is Some,
            ),
    {
        let ghost g0 = self.spec_grid();
        let ghost w0 = self.spec_w();
        let ghost ver = self.spec_ver();
        let w = self.width as i32;
        let (offset, last) = match self.version {
            Version::Micro(_) => (0i32, w - 1),
            Version::Normal(_) => (6i32, w - 9),
        };
        self.mark_line(offset, 8, offset, last);
        let ghost g1 = self.spec_grid();
        self.mark_line(8, offset, last, offset);
        proof {
            assert forall|r: int, c: int| 0 <= r < w0 && 0 <= c < w0 implies #[trigger] read_cell(
                self.spec_grid(),
                w0,
                r,
                c,
            ) == if timing_cell(ver, w0, r, c) is Some {
                Module::Marked
            } else {
                read_cell(g0, w0, r, c)
            } by {
                assert(read_cell(g1, w0, r, c) == read_cell(g1, w0, r, c));
            }
        }
    }

    /// Marks a horizontal or vertical line of modules.
    pub fn mark_line(&mut self, r1: i32, c1: i32, r2: i32, c2: i32)
        requires
            old(self).wf(),
            r1 == r2 || c1 == c2,
            0 <= r1 < old(self).spec_w(),
            0 <= c1 < old(self).spec_w(),
            0 <= r2 < old(self).spec_w(),
            0 <= c2 < old(self).spec_w(),
        ensures
            final(self).wf(),
            final(self).same_header(old(self)),
            r1 == r2 ==> box_marked(
                old(self).spec_grid(),
                final(self).spec_grid(),
                old(self).spec_w(),
                r1 as int,
                r1 as int,
                c1 as int,
                c2 as int,
            ),
            r1 != r2 ==> box_marked(
                old(self).spec_grid(),
                final(self).spec_grid(),
                old(self).spec_w(),
                r1 as int,
                r2 as int,
                c1 as int,
                c1 as int,
            ),
    {
        let ghost w = self.spec_w();
        let ghost g0 = self.spec_grid();
        let ghost q0 = *self;
        if r1 == r2 {
            let mut j = c1;
            while j <= c2
                invariant
                    self.wf(),
                    self.same_header(&q0),
                    self.spec_w() == w,
                    0 <= r1 < w,
                    0 <= c1 < w,
                    0 <= c2 < w,
                    c1 <= c2 + 1 ==> c1 <= j <= c2 + 1,
                    c1 > c2 + 1 ==> j == c1,
                    g0.len() == self.spec_grid().len(),
                    forall|rr: int, cc: int|
                        0 <= rr < w && 0 <= cc < w ==> #[trigger] self.module_at(rr, cc) == if rr
                            == r1 && c1 <= cc < j {
                            Module::Marked
                        } else {
                            read_cell(g0, w, rr, cc)
                        },
                decreases c2 + 1 - j,
            {
                self.set(r1, j, Module::Marked);
                j += 1;
            }
        } else {
            let mut i = r1;
            while i <= r2
                invariant
                    self.wf(),
                    self.same_header(&q0),
                    self.spec_w() == w,
                    0 <= r1 < w,
                    0 <= c1 < w,
                    0 <= r2 < w,
                    r1 <= r2 + 1 ==> r1 <= i <= r2 + 1,
                    r1 > r2 + 1 ==> i == r1,
                    g0.len() == self.spec_grid().len(),
                    forall|rr: int, cc: int|
                        0 <= rr < w && 0 <= cc < w ==> #[trigger] self.module_at(rr, cc) == if cc
                            == c1 && r1 <= rr < i {
                            Module::Marked
                        } else {
                            read_cell(g0, w, rr, cc)
                        },
                decreases r2 + 1 - i,
            {
                self.set(i, c1, Module::Marked);
                i += 1;
            }
        }
    }
}

// Alignment patterns
//------------------------------------------------------------------------------
impl DeQR {
    /// Marks the alignment patterns.
    pub fn mark_alignment_patterns(&mut self)
        requires
            old(self).wf(),
        ensures
            final(self).wf(),
            final(self).same_header(old(self)),
            marked_where(
                old(self).spec_grid(),
                final(self).spec_grid(),
                old(self).spec_w(),
                |r: int, c: int| alignment_cell(old(self).spec_ver(), old(self).spec_w(), r, c) is Some,
            ),
    {
        let ghost w = self.spec_w();
        let ghost g0 = self.spec_grid();
        let ghost q0 = *self;
        let ghost ver = self.spec_ver();
        let positions = self.version.alignment_pattern();
        let ghost p = ver.spec_alignment_pattern();
        proof {
            lemma_alignment_positions(ver);
        }
        let mut a: usize = 0;
        while a < positions.len()
            invariant
                self.wf(),
                self.same_header(&q0),
                self.spec_w() == w,
                ver == self.spec_ver(),
                ver.valid(),
                w == ver.spec_width(),
                positions@ == p,
                p == ver.spec_alignment_pattern(),
                p.len() <= 7,
                forall|k: int| 0 <= k < p.len() ==> 6 <= #[trigger] p[k] <= w - 7,
                a <= p.len(),
                g0.len() == self.spec_grid().len(),
                forall|r: int, c: int|
                    0 <= r < w && 0 <= c < w ==> #[trigger] self.module_at(r, c) == if near(p, r)
                        && near(p, c) && !alignment_skipped(
                        w,
                        p[near_index(p, r)] as int,
                        p[near_index(p, c)] as int,
                    ) && near_index(p, r) < a {
                        Module::Marked
                    } else {
                        read_cell(g0, w, r, c)
                    },
            decreases p.len() - a,
        {
            let mut b: usize = 0;
            while b < positions.len()
                invariant
                    self.wf(),
                    self.same_header(&q0),
                    self.spec_w() == w,
                    ver == self.spec_ver(),
                    ver.valid(),
                    w == ver.spec_width(),
                    positions@ == p,
                    p == ver.spec_alignment_pattern(),
                    p.len() <= 7,
                    forall|k: int| 0 <= k < p.len() ==> 6 <= #[trigger] p[k] <= w - 7,
                    a < p.len(),
                    b <= p.len(),
                    g0.len() == self.spec_grid().len(),
                    forall|r: int, c: int|
                        0 <= r < w && 0 <= c < w ==> #[trigger] self.module_at(r, c) == if near(
                            p,
                            r,
                        ) && near(p, c) && !alignment_skipped(
                            w,
                            p[near_index(p, r)] as int,
                            p[near_index(p, c)] as int,
                        ) && (near_index(p, r) < a || (near_index(p, r) == a && near_index(p, c)
                            < b)) {
                            Module::Marked
                        } else {
                            read_cell(g0, w, r, c)
                        },
                decreases p.len() - b,
            {
                let ghost g1 = self.spec_grid();
                let pr = positions[a];
                let pc = positions[b];
                assert(6 <= p[a as int] <= w - 7);
                assert(6 <= p[b as int] <= w - 7);
                self.mark_alignment_pattern_at(pr, pc);
                proof {
                    assert forall|r: int, c: int| 0 <= r < w && 0 <= c < w implies #[trigger] self.module_at(
                        r,
                        c,
                    ) == if near(p, r) && near(p, c) && !alignment_skipped(
                        w,
                        p[near_index(p, r)] as int,
                        p[near_index(p, c)] as int,
                    ) && (near_index(p, r) < a || (near_index(p, r) == a && near_index(p, c) < b
                        + 1)) {
                        Module::Marked
                    } else {
                        read_cell(g0, w, r, c)
                    } by {
                        assert(read_cell(g1, w, r, c) == read_cell(g1, w, r, c));
                        if pr - 2 <= r <= pr + 2 && pc - 2 <= c <= pc + 2 {
                            lemma_near_index(ver, r, a as int);
                            lemma_near_index(ver, c, b as int);
                        } else if near(p, r) && near(p, c) && near_index(p, r) == a && near_index(
                            p,
                            c,
                        ) == b {
                            assert(p[near_index(p, c)] - 2 <= c <= p[near_index(p, c)] + 2);
                            assert(p[near_index(p, r)] - 2 <= r <= p[near_index(p, r)] + 2);
                        }
                    }
                }
                b += 1;
            }
            a += 1;
        }
        proof {
            assert forall|r: int, c: int| 0 <= r < w && 0 <= c < w implies #[trigger] self.module_at(
                r,
                c,
            ) == if alignment_cell(ver, w, r, c) is Some {
                Module::Marked
            } else {
                read_cell(g0, w, r, c)
            } by {
                if near(p, r) {
                    assert(near_index(p, r) < p.len());
                }
            }
        }
    }

    /// Marks the alignment pattern centred on `(r, c)`, unless a finder pattern is there.
    pub fn mark_alignment_pattern_at(&mut self, r: i32, c: i32)
        requires
            old(self).wf(),
            2 <= r <= old(self).spec_w() - 3,
            2 <= c <= old(self).spec_w() - 3,
        ensures
            final(self).wf(),
            final(self).same_header(old(self)),
            alignment_skipped(old(self).spec_w(), r as int, c as int) ==> final(self).spec_grid()
                == old(self).spec_grid(),
            !alignment_skipped(old(self).spec_w(), r as int, c as int) ==> box_marked(
                old(self).spec_grid(),
                final(self).spec_grid(),
                old(self).spec_w(),
                r - 2,
                r + 2,
                c - 2,
                c + 2,
            ),
    {
        let wi = self.width as i32;
        if (r == 6 && (c == 6 || c - wi == -7)) || (r - wi == -7 && c == 6) {
            return ;
        }
        let ghost w = self.spec_w();
        let ghost g0 = self.spec_grid();
        let ghost q0 = *self;
        let mut i: i32 = -2;
        while i <= 2
            invariant
                self.wf(),
                self.same_header(&q0),
                self.spec_w() == w,
                2 <= r <= w - 3,
                2 <= c <= w - 3,
                -2 <= i <= 3,
                g0.len() == self.spec_grid().len(),
                forall|rr: int, cc: int|
                    0 <= rr < w && 0 <= cc < w ==> #[trigger] self.module_at(rr, cc) == if r - 2
                        <= rr < r + i && c - 2 <= cc <= c + 2 {
                        Module::Marked
                    } else {
                        read_cell(g0, w, rr, cc)
                    },
            decreases 3 - i,
        {
            let mut j: i32 = -2;
            while j <= 2
                invariant
                    self.wf(),
                    self.same_header(&q0),
                    self.spec_w() == w,
                    2 <= r <= w - 3,
                    2 <= c <= w - 3,
                    -2 <= i <= 2,
                    -2 <= j <= 3,
                    g0.len() == self.spec_grid().len(),
                    forall|rr: int, cc: int|
                        0 <= rr < w && 0 <= cc < w ==> #[trigger] self.module_at(rr, cc) == if (r - 2
                            <= rr < r + i && c - 2 <= cc <= c + 2) || (rr == r + i && c - 2 <= cc < c
                            + j) {
                            Module::Marked
                        } else {
                            read_cell(g0, w, rr, cc)
                        },
                decreases 3 - j,
            {
                self.set(r + i, c + j, Module::Marked);
                j += 1;
            }
            i += 1;
        }
    }

    /// Marks the finder, timing and alignment patterns, so that reading skips them.
    pub fn mark_all_function_patterns(&mut self)
        requires
            old(self).wf(),
        ensures
            final(self).wf(),
            final(self).same_header(old(self)),
            marked_where(
                old(self).spec_grid(),
                final(self).spec_grid(),
                old(self).spec_w(),
                |r: int, c: int| is_function_module(old(self).spec_ver(), old(self).spec_w(), r, c),
            ),
    {
        let ghost w = self.spec_w();
        let ghost g0 = self.spec_grid();
        let ghost ver = self.spec_ver();
        self.mark_finder_patterns();
        let ghost g1 = self.spec_grid();
        self.mark_timing_patterns();
        let ghost g2 = self.spec_grid();
        self.mark_alignment_patterns();
        proof {
            assert forall|r: int, c: int| 0 <= r < w && 0 <= c < w implies #[trigger] read_cell(
                self.spec_grid(),
                w,
                r,
                c,
            ) == if is_function_module(ver, w, r, c) {
                Module::Marked
            } else {
                read_cell(g0, w, r, c)
            } by {
                assert(read_cell(g1, w, r, c) == read_cell(g1, w, r, c));
                assert(read_cell(g2, w, r, c) == read_cell(g2, w, r, c));
            }
        }
    }
}

/// `(r, c)` belongs to a finder, timing or alignment pattern of `ver`.
pub open spec fn is_function_module(ver: Version, w: int, r: int, c: int) -> bool {
    ||| finder_cell(ver, w, r, c) is Some
    ||| timing_cell(ver, w, r, c) is Some
    ||| alignment_cell(ver, w, r, c) is Some
}

// Unmasking
//------------------------------------------------------------------------------
/// `g` with every module where mask pattern `pattern` holds flipped.
pub open spec fn unmasked(g: Seq<Module>, w: int, pattern: nat) -> Seq<Module> {
    Seq::new(
        g.len(),
        |i: int|
            if mask_condition(pattern, i / w, i % w) {
                g[i].spec_flip()
            } else {
                g[i]
            },
    )
}

impl DeQR {
    /// Flips every module where `pattern` holds, undoing the mask.
    pub fn unmask(&mut self, pattern: MaskingPattern)
        requires
            old(self).wf(),
        ensures
            final(self).wf(),
            final(self).same_header(old(self)),
            final(self).spec_grid() == unmasked(
                old(self).spec_grid(),
                old(self).spec_w(),
                pattern.spec_value(),
            ),
    {
        let ghost g0 = self.spec_grid();
        let ghost wd = self.spec_w();
        let ghost q0 = *self;
        let ghost p = pattern.spec_value();
        let w = self.width as i32;
        let mut r: i32 = 0;
        while r < w
            invariant
                self.wf(),
                self.same_header(&q0),
                self.spec_w() == wd,
                w == wd,
                11 <= w <= 177,
                0 <= r <= w,
                p == pattern.spec_value(),
                g0.len() == self.spec_grid().len(),
                forall|rr: int, cc: int|
                    0 <= rr < w && 0 <= cc < w ==> #[trigger] self.module_at(rr, cc) == if rr < r
                        && mask_condition(p, rr, cc) {
                        read_cell(g0, w as int, rr, cc).spec_flip()
                    } else {
                        read_cell(g0, w as int, rr, cc)
                    },
            decreases w - r,
        {
            let mut c: i32 = 0;
            while c < w
                invariant
                    self.wf(),
                    self.same_header(&q0),
                    self.spec_w() == wd,
                    w == wd,
                    11 <= w <= 177,
                    0 <= r < w,
                    0 <= c <= w,
                    p == pattern.spec_value(),
                    g0.len() == self.spec_grid().len(),
                    forall|rr: int, cc: int|
                        0 <= rr < w && 0 <= cc < w ==> #[trigger] self.module_at(rr, cc) == if (rr
                            < r || (rr == r && cc < c)) && mask_condition(p, rr, cc) {
                            read_cell(g0, w as int, rr, cc).spec_flip()
                        } else {
                            read_cell(g0, w as int, rr, cc)
                        },
                decreases w - c,
            {
                if pattern.get_mask_functions(r, c) {
                    let m = self.get(r, c);
                    self.set(r, c, m.flip());
                }
                c += 1;
            }
            r += 1;
        }
        proof {
            let u = unmasked(g0, wd, p);
            assert forall|i: int| 0 <= i < g0.len() implies self.spec_grid()[i] == u[i] by {
                vstd::arithmetic::div_mod::lemma_fundamental_div_mod(i, wd);
                assert(0 <= i % wd < wd);
                assert(0 <= i / wd < wd) by (nonlinear_arith)
                    requires
                        0 <= i < wd * wd,
                        wd > 0,
                        i == wd * (i / wd) + i % wd,
                        0 <= i % wd,
                ;
                assert(i / wd * wd + i % wd == i) by (nonlinear_arith)
                    requires
                        i == wd * (i / wd) + i % wd,
                ;
                assert(self.module_at(i / wd, i % wd) == self.spec_grid()[i]);
            }
            assert(self.spec_grid() =~= u);
        }
    }
}

/// Unmasking twice with the same pattern gives back the grid: flipping a module twice
/// restores it.
pub proof fn lemma_unmask_twice(g: Seq<Module>, w: int, pattern: nat)
    ensures
        unmasked(unmasked(g, w, pattern), w, pattern) == g,
{
    let u = unmasked(g, w, pattern);
    assert forall|i: int| 0 <= i < g.len() implies #[trigger] unmasked(u, w, pattern)[i] == g[i] by {
        match g[i] {
            Module::Unmarked(c) => {
                assert(color_of_bits((7 - color_of_bits((7 - c.rgb()) as u8).rgb()) as u8) == c);
            },
            Module::Marked => {},
        }
    }
    assert(unmasked(u, w, pattern) =~= g);
}

// Encoding region
//------------------------------------------------------------------------------
/// The byte read from module `m`: each of its eight bits is the module's bit.
pub open spec fn module_byte(m: Module) -> u8 {
    if module_bit(m) == 1 {
        0xFF
    } else {
        0
    }
}

/// What reading gives of the modules at `pos`: a byte for each unmarked one, in order;
/// marked ones are passed over.
pub open spec fn read_payload(g: Seq<Module>, w: int, pos: Seq<(i32, i32)>) -> Seq<u8>
    decreases pos.len(),
{
    if pos.len() == 0 {
        Seq::empty()
    } else {
        let front = read_payload(g, w, pos.drop_last());
        let m = read_cell(g, w, pos.last().0 as int, pos.last().1 as int);
        match m {
            Module::Unmarked(_) => front.push(module_byte(m)),
            Module::Marked => front,
        }
    }
}

/// The value after shifting in `k` one bits.
pub open spec fn ones(k: nat) -> nat
    decreases k,
{
    if k == 0 {
        0
    } else {
        2 * ones((k - 1) as nat) + 1
    }
}

impl DeQR {
    /// Walks the encoding region of `version` and reads a byte for each unmarked module on
    /// it: for each of the byte's eight bits the walk passes over marked modules and reads
    /// the module it stops at, which is the same module for all eight.
    pub fn extract_payload(&mut self, version: Version) -> (r: Vec<u8>)
        requires
            old(self).wf(),
            version.valid(),
            version.spec_width() <= old(self).spec_w(),
        ensures
            final(self).wf(),
            final(self).same_header(old(self)),
            final(self).spec_grid() == old(self).spec_grid(),
            r@ == read_payload(old(self).spec_grid(), old(self).spec_w(), region(version)),
    {
        let ghost g = self.spec_grid();
        let ghost w = self.spec_w();
        let ghost all = region(version);
        let mut codewords: Vec<u8> = Vec::new();
        let mut coords = EncRegionIter::new(version);
        let ghost mut n: int = 0;
        loop
            invariant
                self.wf(),
                g == self.spec_grid(),
                w == self.spec_w(),
                version.spec_width() <= w,
                coords.wf(),
                coords.spec_ver() == version,
                coords.spec_w() == version.spec_width(),
                all == region(version),
                0 <= n <= all.len(),
                coords.rest() == all.skip(n),
                codewords@ == read_payload(g, w, all.take(n)),
            ensures
                n == all.len(),
                codewords@ == read_payload(g, w, all.take(n)),
            decreases all.len() - n,
        {
            let ghost before = coords.rest();
            let first = coords.next();
            let (mut r, mut c) = match first {
                Some(p) => p,
                None => {
                    proof {
                        assert(before.len() == 0);
                    }
                    break ;
                },
            };
            proof {
                assert(before.len() > 0);
                assert(all.skip(n)[0] == all[n]);
                n = n + 1;
                assert(coords.rest() =~= all.skip(n));
            }
            let ghost n_start = n;
            assert(ones(8) == 255) by {
                reveal_with_fuel(ones, 9);
            }
            let mut codeword: u8 = 0;
            let mut k: usize = 0;
            while k < 8
                invariant
                    self.wf(),
                    g == self.spec_grid(),
                    w == self.spec_w(),
                    version.spec_width() <= w,
                    coords.wf(),
                    coords.spec_ver() == version,
                    coords.spec_w() == version.spec_width(),
                    all == region(version),
                    1 <= n <= all.len(),
                    n_start <= n,
                    ones(8) == 255,
                    coords.rest() == all.skip(n),
                    all[n - 1] == (r, c),
                    0 <= r < version.spec_width(),
                    0 <= c < version.spec_width(),
                    k <= 8,
                    k == 0 ==> codewords@ == read_payload(g, w, all.take(n - 1)) && codeword == 0,
                    k > 0 ==> read_cell(g, w, r as int, c as int) is Unmarked && codewords@.push(
                        module_byte(read_cell(g, w, r as int, c as int)),
                    ) == read_payload(g, w, all.take(n)) && codeword == if module_bit(
                        read_cell(g, w, r as int, c as int),
                    ) == 1 {
                        ones(k as nat)
                    } else {
                        0
                    },
                ensures
                    k == 8,
                    read_cell(g, w, r as int, c as int) is Unmarked,
                    codewords@.push(module_byte(read_cell(g, w, r as int, c as int)))
                        == read_payload(g, w, all.take(n)),
                    codeword == module_byte(read_cell(g, w, r as int, c as int)),
                decreases 8 - k,
            {
                while !self.get(r, c).is_unmarked()
                    invariant
                        self.wf(),
                        g == self.spec_grid(),
                        w == self.spec_w(),
                        version.spec_width() <= w,
                        coords.wf(),
                        coords.spec_ver() == version,
                        coords.spec_w() == version.spec_width(),
                        all == region(version),
                        1 <= n <= all.len(),
                        n_start <= n,
                        coords.rest() == all.skip(n),
                        all[n - 1] == (r, c),
                        0 <= r < version.spec_width(),
                        0 <= c < version.spec_width(),
                        k < 8,
                        k == 0 ==> codewords@ == read_payload(g, w, all.take(n - 1)) && codeword
                            == 0,
                        k > 0 ==> read_cell(g, w, r as int, c as int) is Unmarked && codewords@.push(
                            module_byte(read_cell(g, w, r as int, c as int)),
                        ) == read_payload(g, w, all.take(n)) && codeword == if module_bit(
                            read_cell(g, w, r as int, c as int),
                        ) == 1 {
                            ones(k as nat)
                        } else {
                            0
                        },
                    decreases all.len() - n,
                {
                    proof {
                        assert(all.take(n).drop_last() =~= all.take(n - 1));
                        assert(read_payload(g, w, all.take(n)) == read_payload(g, w, all.take(n - 1)));
                    }
                    let ghost before2 = coords.rest();
                    match coords.next() {
                        Some(next) => {
                            proof {
                                assert(before2.len() > 0);
                                assert(all.skip(n)[0] == all[n]);
                                n = n + 1;
                                assert(coords.rest() =~= all.skip(n));
                            }
                            r = next.0;
                            c = next.1;
                        },
                        None => {
                            proof {
                                assert(before2.len() == 0);
                                assert(n == all.len());
                                assert(all.take(n) =~= all);
                            }
                            return codewords;
                        },
                    }
                }
                let m = self.get(r, c);
                let b = m.color().to_u32() as u8;
                proof {
                    assert(all.take(n).drop_last() =~= all.take(n - 1));
                    assert(all.take(n).last() == all[n - 1]);
                    assert(b as nat == module_bit(m));
                    if k > 0 {
                        assert(codeword == 0 || codeword == ones(k as nat));
                    }
                    assert(ones(k as nat) < 128) by {
                        reveal_with_fuel(ones, 9);
                    }
                    assert(codeword < 128 ==> ((codeword << 1u8) | 1u8) == 2 * codeword + 1)
                        by (bit_vector);
                    assert(((0u8 << 1u8) | 0u8) == 0u8) by (bit_vector);
                }
                let ghost prev = codeword;
                codeword = (codeword << 1) | b;
                k += 1;
                proof {
                    assert(ones(k as nat) == 2 * ones((k - 1) as nat) + 1);
                    if b == 1 {
                        assert(prev == ones((k - 1) as nat));
                        assert(codeword == ones(k as nat));
                    } else {
                        assert(prev == 0);
                        assert(codeword == 0);
                    }
                }
            }
            codewords.push(codeword);
        }
        proof {
            assert(all.take(n) =~= all);
        }
        codewords
    }
}

// Reading back what was drawn
//------------------------------------------------------------------------------
/// The format information words are distinct, and fit in fifteen bits.
proof fn lemma_format_table()
    ensures
        FORMAT_INFOS_QR@.len() == 32,
        forall|j: int| 0 <= j < 32 ==> #[trigger] FORMAT_INFOS_QR@[j] < 0x8000,
        forall|j: int, k: int|
            0 <= j < 32 && 0 <= k < 32 && j != k ==> #[trigger] FORMAT_INFOS_QR@[j]
                != #[trigger] FORMAT_INFOS_QR@[k],
{
    assert(FORMAT_INFOS_QR@ =~= seq![
        0x5412u32, 0x5125, 0x5e7c, 0x5b4b, 0x45f9, 0x40ce, 0x4f97, 0x4aa0, 0x77c4, 0x72f3,
        0x7daa, 0x789d, 0x662f, 0x6318, 0x6c41, 0x6976, 0x1689, 0x13be, 0x1ce7, 0x19d0, 0x0762,
        0x0255, 0x0d0c, 0x083b, 0x355f, 0x3068, 0x3f31, 0x3a06, 0x24b4, 0x2183, 0x2eda, 0x2bed,
    ]);
}

/// The colours of a symbol's modules, as a reader first sees them: nothing marked.
pub open spec fn read_of(g: Seq<qr::Module>) -> Seq<Module> {
    Seq::new(g.len(), |i: int| Module::Unmarked(g[i].spec_color()))
}

proof fn lemma_shift_bits(x: u32, s: u32, t: u32)
    by (bit_vector)
    requires
        s < 31,
        t == s + 1,
    ensures
        2 * (x >> t) + ((x >> s) & 1) == x >> s,
        (x >> s) & 1 <= 1,
{
}

proof fn lemma_xor_facts(x: u32, y: u32)
    by (bit_vector)
    ensures
        x ^ x == 0,
        x ^ y == 0 ==> x == y,
        x < 0x8000 ==> x >> 15u32 == 0,
        x < 0x40000 ==> x >> 18u32 == 0,
        x >> 0u32 == x,
{
}

/// A word with a bit set has a nonzero count of set bits.
proof fn lemma_popcount_nonzero(x: u32)
    requires
        x != 0,
    ensures
        popcount(x) > 0,
    decreases x,
{
    if x % 2 == 0 {
        lemma_popcount_nonzero(x / 2);
    }
}

/// The first `n` bits read from the main copy of drawn format information are its top `n`.
proof fn lemma_read_main(g: Seq<qr::Module>, w: int, hi_cap: bool, info: u32, n: int)
    requires
        w >= 21,
        g.len() == w * w,
        info < 0x8000,
        0 <= n <= 15,
        forall|r: int, c: int|
            0 <= r < w && 0 <= c < w && qr::format_cell(w, hi_cap, info, r, c) is Some
                ==> #[trigger] qr::cell(g, w, r, c) == qr::format_cell(w, hi_cap, info, r, c)->0,
    ensures
        coords_number(read_of(g), w, FORMAT_INFO_COORDS_QR_MAIN@, n) == (info >> ((15 - n) as u32)),
    decreases n,
{
    let main = FORMAT_INFO_COORDS_QR_MAIN@;
    let side = FORMAT_INFO_COORDS_QR_SIDE@;
    if n == 0 {
        lemma_xor_facts(info, info);
    } else {
        lemma_read_main(g, w, hi_cap, info, n - 1);
        let k = n - 1;
        lemma_format_coords(w);
        let r = main[k].0 as int;
        let c = main[k].1 as int;
        assert(0 <= r <= 8 && 0 <= c <= 8);
        qr::lemma_coords_index(main, w, k);
        if on_coords(side, w, r, c) {
            let t = choose|t: int|
                0 <= t < side.len() && wrap(#[trigger] side[t].0 as int, w) == r && wrap(
                    side[t].1 as int,
                    w,
                ) == c;
            assert(-8 <= side[t].0 <= 8 && -8 <= side[t].1 <= 8 && (side[t].0 < 0 || side[t].1
                < 0));
        }
        let off = qr::Module::Format(Color::White);
        let on = qr::Module::Format(Color::Black);
        assert(qr::format_cell(w, hi_cap, info, r, c) == Some(qr::number_module(info, 15, k, off, on)));
        lemma_cell_in_range(w, r, c);
        assert(qr::cell(g, w, r, c) == qr::number_module(info, 15, k, off, on));
        assert(read_of(g)[r * w + c] == Module::Unmarked(g[r * w + c].spec_color()));
        lemma_shift_bits(info, (15 - n) as u32, (16 - n) as u32);
        assert(wrap(main[k].0 as int, w) == r && wrap(main[k].1 as int, w) == c);
    }
}

/// Format information drawn with word `k` of the table reads back as that word, unmasked:
/// the main copy alone gives it, with no bit to correct.
#[verifier::rlimit(40)]
pub proof fn lemma_format_reads_back(g: Seq<qr::Module>, w: int, hi_cap: bool, k: int)
    requires
        w >= 21,
        g.len() == w * w,
        0 <= k < 32,
        forall|r: int, c: int|
            0 <= r < w && 0 <= c < w && qr::format_cell(w, hi_cap, FORMAT_INFOS_QR@[k], r, c) is Some
                ==> #[trigger] qr::cell(g, w, r, c) == qr::format_cell(
                w,
                hi_cap,
                FORMAT_INFOS_QR@[k],
                r,
                c,
            )->0,
    ensures
        format_reading(read_of(g), w) == Some(FORMAT_INFOS_QR@[k] ^ FORMAT_MASK),
{
    lemma_format_table();
    let valid = FORMAT_INFOS_QR@;
    let info = valid[k];
    lemma_read_main(g, w, hi_cap, info, 15);
    lemma_xor_facts(info, info);
    assert(coords_number(read_of(g), w, FORMAT_INFO_COORDS_QR_MAIN@, 15) == info);
    assert(popcount(0u32) == 0);
    assert forall|j: int| 0 <= j < k implies popcount(info ^ valid[k]) < #[trigger] popcount(
        info ^ valid[j],
    ) by {
        lemma_xor_facts(info, valid[j]);
        lemma_popcount_nonzero(info ^ valid[j]);
    }
    assert(is_nearest(info, valid, k));
    let kk = choose|kk: int| is_nearest(info, valid, kk);
    lemma_nearest_unique(info, valid, k, kk);
}

/// A built symbol's format information reads back: reading the colours of its modules gives
/// the format word of its error correction level and mask pattern, unmasked.
#[verifier::rlimit(40)]
pub proof fn lemma_built_format_reads_back(
    data: Seq<u8>,
    set_ver: Option<Version>,
    ecl: ECLevel,
    hi_cap: bool,
    set_mask: Option<MaskingPattern>,
    q: qr::QR,
    bs: BitStream,
)
    requires
        builds(data, set_ver, ecl, hi_cap, set_mask, q, bs),
    ensures
        format_reading(read_of(q.spec_grid()), q.spec_w()) == Some(
            FORMAT_INFOS_QR@[qr::format_code(ecl, q.spec_mask()->0.spec_value())] ^ FORMAT_MASK,
        ),
{
    let ver = q.spec_ver();
    let w = q.spec_w();
    let p = q.spec_mask()->0.spec_value();
    let k = qr::format_code(ecl, p);
    assert(w >= 21);
    assert forall|r: int, c: int|
        0 <= r < w && 0 <= c < w && qr::format_cell(w, hi_cap, FORMAT_INFOS_QR@[k], r, c) is Some
            implies #[trigger] qr::cell(q.spec_grid(), w, r, c) == qr::format_cell(
            w,
            hi_cap,
            FORMAT_INFOS_QR@[k],
            r,
            c,
        )->0 by {
        crate::builder::qr::lemma_cell_div_mod(w, r, c);
        lemma_cell_in_range(w, r, c);
    }
    lemma_format_reads_back(q.spec_grid(), w, hi_cap, k);
}
/// The version information words are distinct, and fit in eighteen bits.
proof fn lemma_version_table()
    ensures
        VERSION_INFOS@.len() == 34,
        forall|j: int| 0 <= j < 34 ==> #[trigger] VERSION_INFOS@[j] < 0x40000,
        forall|j: int, k: int|
            0 <= j < 34 && 0 <= k < 34 && j != k ==> #[trigger] VERSION_INFOS@[j]
                != #[trigger] VERSION_INFOS@[k],
{
    assert(VERSION_INFOS@ =~= seq![
        0x07c94u32, 0x085bc, 0x09a99, 0x0a4d3, 0x0bbf6, 0x0c762, 0x0d847, 0x0e60d, 0x0f928,
        0x10b78, 0x1145d, 0x12a17, 0x13532, 0x149a6, 0x15683, 0x168c9, 0x177ec, 0x18ec4,
        0x191e1, 0x1afab, 0x1b08e, 0x1cc1a, 0x1d33f, 0x1ed75, 0x1f250, 0x209d5, 0x216f0,
        0x228ba, 0x2379f, 0x24b0b, 0x2542e, 0x26a64, 0x27541, 0x28c69,
    ]);
}

/// The first `n` bits read from the bottom left copy of drawn version information are its
/// top `n`.
proof fn lemma_read_bl(g: Seq<qr::Module>, ver: Version, w: int, info: u32, n: int)
    requires
        w >= 45,
        g.len() == w * w,
        info < 0x40000,
        0 <= n <= 18,
        forall|r: int, c: int|
            0 <= r < w && 0 <= c < w && qr::version_cell(ver, w, info, r, c) is Some
                ==> #[trigger] qr::cell(g, w, r, c) == qr::version_cell(ver, w, info, r, c)->0,
        ver matches Version::Normal(v) && v >= 7,
    ensures
        coords_number(read_of(g), w, VERSION_INFO_COORDS_BL@, n) == (info >> ((18 - n) as u32)),
    decreases n,
{
    let bl = VERSION_INFO_COORDS_BL@;
    let tr = VERSION_INFO_COORDS_TR@;
    if n == 0 {
        lemma_xor_facts(info, info);
    } else {
        lemma_read_bl(g, ver, w, info, n - 1);
        let k = n - 1;
        lemma_version_coords(w);
        let r = bl[k].0 as int;
        let c = w + bl[k].1;
        assert(0 <= r <= 5 && w - 11 <= c <= w - 9);
        qr::lemma_coords_index(bl, w, k);
        if on_coords(tr, w, r, c) {
            let t = choose|t: int|
                0 <= t < tr.len() && wrap(#[trigger] tr[t].0 as int, w) == r && wrap(
                    tr[t].1 as int,
                    w,
                ) == c;
            assert(-11 <= tr[t].0 <= -9 && 0 <= tr[t].1 <= 5);
        }
        let off = qr::Module::Version(Color::White);
        let on = qr::Module::Version(Color::Black);
        assert(qr::version_cell(ver, w, info, r, c) == Some(qr::number_module(info, 18, k, off, on)));
        lemma_cell_in_range(w, r, c);
        assert(qr::cell(g, w, r, c) == qr::number_module(info, 18, k, off, on));
        assert(read_of(g)[r * w + c] == Module::Unmarked(g[r * w + c].spec_color()));
        lemma_shift_bits(info, (18 - n) as u32, (19 - n) as u32);
        assert(wrap(bl[k].0 as int, w) == r && wrap(bl[k].1 as int, w) == c);
    }
}

/// Version information drawn for a version from seven on reads back as that version's
/// information word: the bottom left copy alone gives it, with no bit to correct.
#[verifier::rlimit(40)]
pub proof fn lemma_version_reads_back(g: Seq<qr::Module>, ver: Version)
    requires
        ver.valid(),
        ver matches Version::Normal(v) && v >= 7,
        g.len() == ver.spec_width() * ver.spec_width(),
        forall|r: int, c: int|
            0 <= r < ver.spec_width() && 0 <= c < ver.spec_width() && qr::version_cell(
                ver,
                ver.spec_width(),
                qr::version_info(ver),
                r,
                c,
            ) is Some ==> #[trigger] qr::cell(g, ver.spec_width(), r, c) == qr::version_cell(
                ver,
                ver.spec_width(),
                qr::version_info(ver),
                r,
                c,
            )->0,
    ensures
        version_reading(read_of(g), ver.spec_width()) == Some(qr::version_info(ver)),
{
    lemma_version_table();
    let w = ver.spec_width();
    let v = ver->Normal_0;
    let k = v - 7;
    let valid = VERSION_INFOS@;
    let info = valid[k];
    assert(qr::version_info(ver) == info);
    assert(w >= 45);
    lemma_read_bl(g, ver, w, info, 18);
    lemma_xor_facts(info, info);
    assert(coords_number(read_of(g), w, VERSION_INFO_COORDS_BL@, 18) == info);
    assert(popcount(0u32) == 0);
    assert forall|j: int| 0 <= j < k implies popcount(info ^ valid[k]) < #[trigger] popcount(
        info ^ valid[j],
    ) by {
        lemma_xor_facts(info, valid[j]);
        lemma_popcount_nonzero(info ^ valid[j]);
    }
    assert(is_nearest(info, valid, k));
    let kk = choose|kk: int| is_nearest(info, valid, kk);
    lemma_nearest_unique(info, valid, k, kk);
}

} // verus!
