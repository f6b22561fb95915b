//! The symbol grid: function patterns, format and version information, the encoding region
//! and masking.
use crate::bit_types::BitStream;
use crate::iter::{region, EncRegionIter};
use crate::mask::{mask_condition, MaskingPattern};
use crate::metadata::{
    color_of_bits, generate_format_info_qr, FORMAT_INFOS_QR, lemma_alignment_positions, lemma_normal_blocks, Color, ECLevel, Metadata, Version, FORMAT_INFO_BIT_LEN,
    FORMAT_INFO_COORDS_QR_MAIN, FORMAT_INFO_COORDS_QR_SIDE, VERSION_INFO_BIT_LEN,
    VERSION_INFO_COORDS_BL, VERSION_INFO_COORDS_TR,
};
use vstd::prelude::*;
use vstd::string::StringExecFns;

verus! {

/// One module of the grid, tagged with the part of the symbol it belongs to.
#[derive(Debug, PartialEq, Eq, Clone, Copy, Structural)]
pub enum Module {
    Empty,
    Func(Color),
    Version(Color),
    Format(Color),
    Data(Color),
}

impl Module {
    /// The colour of the module; an empty module reads as white.
    pub open spec fn spec_color(self) -> Color {
        match self {
            Module::Empty => Color::White,
            Module::Func(c) => c,
            Module::Version(c) => c,
            Module::Format(c) => c,
            Module::Data(c) => c,
        }
    }

    pub fn color(&self) -> (r: Color)
        ensures
            r == self.spec_color(),
    {
        match *self {
            Module::Empty => Color::White,
            Module::Func(c) => c,
            Module::Version(c) => c,
            Module::Format(c) => c,
            Module::Data(c) => c,
        }
    }
}

/// A coordinate in `[-w, w)` taken modulo `w`: negative coordinates count from the far edge.
pub open spec fn wrap(x: int, w: int) -> int {
    if x < 0 {
        x + w
    } else {
        x
    }
}

/// The module at row `r` and column `c` of a row-major grid of width `w`.
pub open spec fn cell(g: Seq<Module>, w: int, r: int, c: int) -> Module {
    g[r * w + c]
}

/// Row-major positions of distinct cells are distinct.
pub proof fn lemma_cell_index(w: int, r: int, c: int, r2: int, c2: int)
    requires
        0 <= r,
        0 <= r2,
        0 <= c < w,
        0 <= c2 < w,
        r * w + c == r2 * w + c2,
    ensures
        r == r2,
        c == c2,
{
    if r < r2 {
        assert(r * w + c < r2 * w + c2) by (nonlinear_arith)
            requires
                r < r2,
                0 <= c < w,
                0 <= c2,
        ;
    } else if r > r2 {
        assert(r2 * w + c2 < r * w + c) by (nonlinear_arith)
            requires
                r2 < r,
                0 <= c2 < w,
                0 <= c,
        ;
    }
}

/// A cell of the grid lies inside it.
pub proof fn lemma_cell_in_range(w: int, r: int, c: int)
    requires
        0 <= r < w,
        0 <= c < w,
    ensures
        0 <= r * w + c < w * w,
{
    assert(0 <= r * w + c < w * w) by (nonlinear_arith)
        requires
            0 <= r < w,
            0 <= c < w,
    ;
}

/// `g2` is `g` with the cell at `(r0, c0)` replaced by `m`, cell by cell.
pub open spec fn one_cell_changed(g: Seq<Module>, g2: Seq<Module>, w: int, r0: int, c0: int, m: Module) -> bool {
    &&& g2.len() == g.len()
    &&& forall|r: int, c: int|
        0 <= r < w && 0 <= c < w ==> #[trigger] cell(g2, w, r, c) == if r == r0 && c == c0 {
            m
        } else {
            cell(g, w, r, c)
        }
}

proof fn lemma_update_cell(g: Seq<Module>, w: int, r0: int, c0: int, m: Module)
    requires
        g.len() == w * w,
        0 <= r0 < w,
        0 <= c0 < w,
    ensures
        one_cell_changed(g, g.update(r0 * w + c0, m), w, r0, c0, m),
{
    lemma_cell_in_range(w, r0, c0);
    assert forall|r: int, c: int| 0 <= r < w && 0 <= c < w implies #[trigger] cell(
        g.update(r0 * w + c0, m),
        w,
        r,
        c,
    ) == if r == r0 && c == c0 {
        m
    } else {
        cell(g, w, r, c)
    } by {
        lemma_cell_in_range(w, r, c);
        if r * w + c == r0 * w + c0 {
            lemma_cell_index(w, r, c, r0, c0);
        }
    }
}

/// A symbol under construction.
#[derive(Debug, Clone)]
pub struct QR {
    grid: Vec<Module>,
    w: usize,
    ver: Version,
    ecl: ECLevel,
    hi_cap: bool,
    mask: Option<MaskingPattern>,
}

impl QR {
    /// The modules, row by row.
    pub closed spec fn spec_grid(&self) -> Seq<Module> {
        self.grid@
    }

    pub closed spec fn spec_w(&self) -> int {
        self.w as int
    }

    pub closed spec fn spec_ver(&self) -> Version {
        self.ver
    }

    pub closed spec fn spec_ecl(&self) -> ECLevel {
        self.ecl
    }

    pub closed spec fn spec_hi_cap(&self) -> bool {
        self.hi_cap
    }

    pub closed spec fn spec_mask(&self) -> Option<MaskingPattern> {
        self.mask
    }

    /// The grid is square, as wide as the version says.
    pub open spec fn wf(&self) -> bool {
        &&& self.spec_ver().valid()
        &&& self.spec_w() == self.spec_ver().spec_width()
        &&& self.spec_grid().len() == self.spec_w() * self.spec_w()
    }

    /// The module at row `r`, column `c`, both in `[0, w)`.
    #[verifier::inline]
    pub open spec fn module_at(&self, r: int, c: int) -> Module {
        cell(self.spec_grid(), self.spec_w(), r, c)
    }

    /// A coordinate pair that `get` and `set` accept.
    pub open spec fn in_range(&self, r: int, c: int) -> bool {
        &&& -self.spec_w() <= r < self.spec_w()
        &&& -self.spec_w() <= c < self.spec_w()
    }

    /// `self` and `other` differ at most in their grids.
    pub open spec fn same_header(&self, other: &QR) -> bool {
        &&& self.spec_w() == other.spec_w()
        &&& self.spec_ver() == other.spec_ver()
        &&& self.spec_ecl() == other.spec_ecl()
        &&& self.spec_hi_cap() == other.spec_hi_cap()
        &&& self.spec_mask() == other.spec_mask()
    }

    /// An empty grid for `ver`.
    pub fn new(ver: Version, ecl: ECLevel, hi_cap: bool) -> (r: Self)
        requires
            ver.valid(),
        ensures
            r.wf(),
            r.spec_ver() == ver,
            r.spec_ecl() == ecl,
            r.spec_hi_cap() == hi_cap,
            r.spec_mask() == None::<MaskingPattern>,
            forall|i: int| 0 <= i < r.spec_grid().len() ==> #[trigger] r.spec_grid()[i]
                == Module::Empty,
    {
        let w = ver.width();
        proof {
            assert(w * w <= 177 * 177) by (nonlinear_arith)
                requires
                    w <= 177,
            ;
        }
        let grid = vec![Module::Empty; w * w];
        Self { grid, w, ver, ecl, hi_cap, mask: None }
    }

    /// The modules, row by row.
    pub fn grid(&self) -> (r: &[Module])
        ensures
            r@ == self.spec_grid(),
    {
        self.grid.as_slice()
    }

    pub fn version(&self) -> (r: Version)
        ensures
            r == self.spec_ver(),
    {
        self.ver
    }

    pub fn width(&self) -> (r: usize)
        ensures
            r == self.spec_w(),
    {
        self.w
    }

    pub fn ec_level(&self) -> (r: ECLevel)
        ensures
            r == self.spec_ecl(),
    {
        self.ecl
    }

    /// Whether the symbol carries three channels of data in colour.
    pub fn palette(&self) -> (r: bool)
        ensures
            r == self.spec_hi_cap(),
    {
        self.hi_cap
    }

    pub fn mask(&self) -> (r: Option<MaskingPattern>)
        ensures
            r == self.spec_mask(),
    {
        self.mask
    }

    pub fn metadata(&self) -> (r: Metadata)
        ensures
            r.ver == Some(self.spec_ver()),
            r.ecl == Some(self.spec_ecl()),
            r.mask == self.spec_mask(),
    {
        Metadata::new(Some(self.ver), Some(self.ecl), self.mask)
    }

    /// The number of modules whose colour is black.
    pub fn count_dark_modules(&self) -> (r: usize)
        ensures
            r == dark_count(self.spec_grid()),
    {
        let mut n: usize = 0;
        let mut i: usize = 0;
        while i < self.grid.len()
            invariant
                i <= self.grid@.len(),
                n == dark_count(self.grid@.take(i as int)),
                n <= i,
            decreases self.grid@.len() - i,
        {
            proof {
                assert(self.grid@.take(i + 1).drop_last() =~= self.grid@.take(i as int));
            }
            if self.grid[i].color() == Color::Black {
                n += 1;
            }
            i += 1;
        }
        proof {
            assert(self.grid@.take(i as int) =~= self.grid@);
        }
        n
    }

    /// Position of a coordinate pair in the grid.
    fn coord_to_index(&self, r: i32, c: i32) -> (i: usize)
        requires
            self.wf(),
            self.in_range(r as int, c as int),
        ensures
            i == wrap(r as int, self.spec_w()) * self.spec_w() + wrap(c as int, self.spec_w()),
            i < self.spec_grid().len(),
    {
        let w = self.w as i32;
        let r = if r < 0 {
            r + w
        } else {
            r
        };
        let c = if c < 0 {
            c + w
        } else {
            c
        };
        proof {
            lemma_cell_in_range(w as int, r as int, c as int);
            assert(w * w <= 177 * 177) by (nonlinear_arith)
                requires
                    0 <= w <= 177,
            ;
            assert(0 <= r * w) by (nonlinear_arith)
                requires
                    0 <= r,
                    0 <= w,
            ;
        }
        (r * w + c) as usize
    }

    /// The module at `(r, c)`; negative coordinates count from the far edge.
    pub fn get(&self, r: i32, c: i32) -> (m: Module)
        requires
            self.wf(),
            self.in_range(r as int, c as int),
        ensures
            m == self.module_at(wrap(r as int, self.spec_w()), wrap(c as int, self.spec_w())),
    {
        self.grid[self.coord_to_index(r, c)]
    }

    /// The module at `(r, c)`, to change in place.
    pub fn get_mut(&mut self, r: i32, c: i32) -> (m: &mut Module)
        requires
            old(self).wf(),
            old(self).in_range(r as int, c as int),
        ensures
            *m == old(self).module_at(
                wrap(r as int, old(self).spec_w()),
                wrap(c as int, old(self).spec_w()),
            ),
            final(self).same_header(old(self)),
            final(self).spec_grid() == old(self).spec_grid().update(
                wrap(r as int, old(self).spec_w()) * old(self).spec_w() + wrap(
                    c as int,
                    old(self).spec_w(),
                ),
                *final(m),
            ),
    {
        let index = self.coord_to_index(r, c);
        &mut self.grid[index]
    }

    /// Puts `module` at `(r, c)`.
    pub fn set(&mut self, r: i32, c: i32, module: Module)
        requires
            old(self).wf(),
            old(self).in_range(r as int, c as int),
        ensures
            final(self).wf(),
            final(self).same_header(old(self)),
            one_cell_changed(
                old(self).spec_grid(),
                final(self).spec_grid(),
                old(self).spec_w(),
                wrap(r as int, old(self).spec_w()),
                wrap(c as int, old(self).spec_w()),
                module,
            ),
            final(self).spec_grid() == old(self).spec_grid().update(
                wrap(r as int, old(self).spec_w()) * old(self).spec_w() + wrap(
                    c as int,
                    old(self).spec_w(),
                ),
                module,
            ),
    {
        let index = self.coord_to_index(r, c);
        proof {
            lemma_update_cell(
                self.grid@,
                self.w as int,
                wrap(r as int, self.w as int),
                wrap(c as int, self.w as int),
                module,
            );
        }
        self.grid.set(index, module);
    }
}

/// The number of black modules in `g`.
pub open spec fn dark_count(g: Seq<Module>) -> nat
    decreases g.len(),
{
    if g.len() == 0 {
        0
    } else {
        dark_count(g.drop_last()) + if g.last().spec_color() == Color::Black {
            1nat
        } else {
            0nat
        }
    }
}

// Finder patterns
//------------------------------------------------------------------------------
/// Colour of the finder pattern module `dr` rows and `dc` columns from its centre: dark
/// rings at distance 0, 1 and 3, light at 2, and the light separator at 4.
pub open spec fn finder_color(dr: int, dc: int) -> Color {
    let ar = if dr < 0 {
        -dr
    } else {
        dr
    };
    let ac = if dc < 0 {
        -dc
    } else {
        dc
    };
    let d = if ar < ac {
        ac
    } else {
        ar
    };
    if d == 2 || d == 4 {
        Color::White
    } else {
        Color::Black
    }
}

/// The finder pattern colour of `(r, c)`, if the module belongs to one: the top left for
/// every symbol, the top right and bottom left for normal symbols.
pub open spec fn finder_cell(ver: Version, w: int, r: int, c: int) -> Option<Color> {
    if r <= 7 && c <= 7 {
        Some(finder_color(r - 3, c - 3))
    } else if ver is Normal && r <= 7 && c >= w - 8 {
        Some(finder_color(r - 3, c - (w - 4)))
    } else if ver is Normal && r >= w - 8 && c <= 7 {
        Some(finder_color(r - (w - 4), c - 3))
    } else {
        None
    }
}

/// `g2` is `g` with the rectangle of rows `[r0, r1]` and columns `[c0, c1]` painted
/// with `paint`, and nothing else changed.
pub open spec fn box_painted(
    g: Seq<Module>,
    g2: Seq<Module>,
    w: int,
    r0: int,
    r1: int,
    c0: int,
    c1: int,
    paint: spec_fn(int, int) -> Module,
) -> bool {
    &&& g2.len() == g.len()
    &&& forall|r: int, c: int|
        0 <= r < w && 0 <= c < w ==> #[trigger] cell(g2, w, r, c) == if r0 <= r <= r1 && c0 <= c
            <= c1 {
            paint(r, c)
        } else {
            cell(g, w, r, c)
        }
}

/// Timing pattern colour: dark on even positions.
pub open spec fn timing_color(k: int) -> Color {
    if k % 2 == 0 {
        Color::Black
    } else {
        Color::White
    }
}

/// The timing pattern colour of `(r, c)`, if the module belongs to one: the row and the
/// column of index `off` between the finder patterns.
pub open spec fn timing_cell(ver: Version, w: int, r: int, c: int) -> Option<Color> {
    let off: int = if ver is Micro {
        0
    } else {
        6
    };
    let last: int = if ver is Micro {
        w - 1
    } else {
        w - 9
    };
    if r == off && 8 <= c <= last {
        Some(timing_color(c))
    } else if c == off && 8 <= r <= last {
        Some(timing_color(r))
    } else {
        None
    }
}

impl QR {
    /// Draws the finder patterns, with their separators.
    pub fn draw_finder_patterns(&mut self)
        requires
            old(self).wf(),
        ensures
            final(self).wf(),
            final(self).same_header(old(self)),
            forall|r: int, c: int|
                0 <= r < old(self).spec_w() && 0 <= c < old(self).spec_w()
                    ==> #[trigger] final(self).module_at(r, c) == match finder_cell(
                    old(self).spec_ver(),
                    old(self).spec_w(),
                    r,
                    c,
                ) {
                    Some(clr) => Module::Func(clr),
                    None => old(self).module_at(r, c),
                },
    {
        let ghost w = self.spec_w();
        let ghost g0 = self.spec_grid();
        self.draw_finder_pattern_at(3, 3);
        let ghost g1 = self.spec_grid();
        match self.ver {
            Version::Micro(_) => {},
            Version::Normal(_) => {
                self.draw_finder_pattern_at(3, -4);
                let ghost g2 = self.spec_grid();
                self.draw_finder_pattern_at(-4, 3);
                proof {
                    assert forall|r: int, c: int| 0 <= r < w && 0 <= c < w implies #[trigger] self.module_at(
                        r,
                        c,
                    ) == match finder_cell(self.spec_ver(), w, r, c) {
                        Some(clr) => Module::Func(clr),
                        None => cell(g0, w, r, c),
                    } by {
                        assert(cell(g1, w, r, c) == cell(g1, w, r, c));
                        assert(cell(g2, w, r, c) == cell(g2, w, r, c));
                    }
                }
            },
        }
    }

    /// Draws one finder pattern centred on `(r, c)`, each of them 3 or -4, with its separator
    /// on the sides that face the inside of the symbol.
    fn draw_finder_pattern_at(&mut self, r: i32, c: i32)
        requires
            old(self).wf(),
            r == 3 || r == -4,
            c == 3 || c == -4,
            r == -4 || c == -4 ==> old(self).spec_ver() is Normal,
        ensures
            final(self).wf(),
            final(self).same_header(old(self)),
            box_painted(
                old(self).spec_grid(),
                final(self).spec_grid(),
                old(self).spec_w(),
                wrap(r as int, old(self).spec_w()) + if r > 0 {
                    -3int
                } else {
                    -4int
                },
                wrap(r as int, old(self).spec_w()) + if r > 0 {
                    4int
                } else {
                    3int
                },
                wrap(c as int, old(self).spec_w()) + if c > 0 {
                    -3int
                } else {
                    -4int
                },
                wrap(c as int, old(self).spec_w()) + if c > 0 {
                    4int
                } else {
                    3int
                },
                |rr: int, cc: int|
                    Module::Func(
                        finder_color(
                            rr - wrap(r as int, old(self).spec_w()),
                            cc - wrap(c as int, old(self).spec_w()),
                        ),
                    ),
            ),
    {
        let ghost w = self.spec_w();
        let ghost g0 = self.spec_grid();
        let ghost q0 = *self;
        let ghost cr = wrap(r as int, w);
        let ghost cc = wrap(c as int, w);
        let ghost paint = |rr: int, ccc: int| Module::Func(finder_color(rr - cr, ccc - cc));
        let (dr_left, dr_right) = if r > 0 {
            (-3i32, 4i32)
        } else {
            (-4i32, 3i32)
        };
        let (dc_top, dc_bottom) = if c > 0 {
            (-3i32, 4i32)
        } else {
            (-4i32, 3i32)
        };
        let mut i = dr_left;
        while i <= dr_right
            invariant
                self.wf(),
                self.same_header(&q0),
                self.spec_w() == w,
                w >= 11,
                w == self.spec_ver().spec_width(),
                r == 3 || r == -4,
                c == 3 || c == -4,
                cr == wrap(r as int, w),
                cc == wrap(c as int, w),
                dr_left == (if r > 0 { -3i32 } else { -4i32 }),
                dr_right == (if r > 0 { 4i32 } else { 3i32 }),
                dc_top == (if c > 0 { -3i32 } else { -4i32 }),
                dc_bottom == (if c > 0 { 4i32 } else { 3i32 }),
                dr_left <= i <= dr_right + 1,
                paint == (|rr: int, ccc: int| Module::Func(finder_color(rr - cr, ccc - cc))),
                g0.len() == self.spec_grid().len(),
                forall|rr: int, ccc: int|
                    0 <= rr < w && 0 <= ccc < w ==> #[trigger] self.module_at(rr, ccc) == if cr
                        + dr_left <= rr < cr + i && cc + dc_top <= ccc <= cc + dc_bottom {
                        paint(rr, ccc)
                    } else {
                        cell(g0, w, rr, ccc)
                    },
            decreases dr_right + 1 - i,
        {
            let mut j = dc_top;
            while j <= dc_bottom
                invariant
                    self.wf(),
                    self.same_header(&q0),
                    self.spec_w() == w,
                    w >= 11,
                    w == self.spec_ver().spec_width(),
                    r == 3 || r == -4,
                    c == 3 || c == -4,
                    cr == wrap(r as int, w),
                    cc == wrap(c as int, w),
                    dr_left == (if r > 0 { -3i32 } else { -4i32 }),
                    dr_right == (if r > 0 { 4i32 } else { 3i32 }),
                    dc_top == (if c > 0 { -3i32 } else { -4i32 }),
                    dc_bottom == (if c > 0 { 4i32 } else { 3i32 }),
                    dr_left <= i <= dr_right,
                    dc_top <= j <= dc_bottom + 1,
                    paint == (|rr: int, ccc: int| Module::Func(finder_color(rr - cr, ccc - cc))),
                    g0.len() == self.spec_grid().len(),
                    forall|rr: int, ccc: int|
                        0 <= rr < w && 0 <= ccc < w ==> #[trigger] self.module_at(rr, ccc) == if (cr
                            + dr_left <= rr < cr + i && cc + dc_top <= ccc <= cc + dc_bottom) || (
                        rr == cr + i && cc + dc_top <= ccc < cc + j) {
                            paint(rr, ccc)
                        } else {
                            cell(g0, w, rr, ccc)
                        },
                decreases dc_bottom + 1 - j,
            {
                let m = match (i, j) {
                    (4, _) | (-4, _) | (_, 4) | (_, -4) => Module::Func(Color::White),
                    (3, _) | (-3, _) | (_, 3) | (_, -3) => Module::Func(Color::Black),
                    (2, _) | (-2, _) | (_, 2) | (_, -2) => Module::Func(Color::White),
                    _ => Module::Func(Color::Black),
                };
                assert(m == paint(cr + i, cc + j));
                assert(wrap((r + i) as int, w) == cr + i);
                assert(wrap((c + j) as int, w) == cc + j);
                self.set(r + i, c + j, m);
                j += 1;
            }
            i += 1;
        }
    }
}

// Timing patterns
//------------------------------------------------------------------------------
impl QR {
    /// Draws the two timing patterns.
    pub fn draw_timing_pattern(&mut self)
        requires
            old(self).wf(),
        ensures
            final(self).wf(),
            final(self).same_header(old(self)),
            forall|r: int, c: int|
                0 <= r < old(self).spec_w() && 0 <= c < old(self).spec_w()
                    ==> #[trigger] final(self).module_at(r, c) == match timing_cell(
                    old(self).spec_ver(),
                    old(self).spec_w(),
                    r,
                    c,
                ) {
                    Some(clr) => Module::Func(clr),
                    None => old(self).module_at(r, c),
                },
    {
        let ghost g0 = self.spec_grid();
        let w = self.w as i32;
        let (off, last) = match self.ver {
            Version::Micro(_) => (0i32, w - 1),
            Version::Normal(_) => (6i32, w - 9),
        };
        self.draw_line(off, 8, off, last);
        self.draw_line(8, off, last, off);
    }

    /// Draws a horizontal or vertical line of alternating modules, dark on even positions.
    fn draw_line(&mut self, r1: i32, c1: i32, r2: i32, c2: i32)
        requires
            old(self).wf(),
            r1 == r2 || c1 == c2,
            0 <= r1 < old(self).spec_w(),
            0 <= c1 < old(self).spec_w(),
            0 <= r2 < old(self).spec_w(),
            0 <= c2 < old(self).spec_w(),
            r1 <= r2,
            c1 <= c2,
        ensures
            final(self).wf(),
            final(self).same_header(old(self)),
            r1 == r2 ==> box_painted(
                old(self).spec_grid(),
                final(self).spec_grid(),
                old(self).spec_w(),
                r1 as int,
                r1 as int,
                c1 as int,
                c2 as int,
                |rr: int, cc: int| Module::Func(timing_color(cc)),
            ),
            r1 != r2 ==> box_painted(
                old(self).spec_grid(),
                final(self).spec_grid(),
                old(self).spec_w(),
                r1 as int,
                r2 as int,
                c1 as int,
                c1 as int,
                |rr: int, cc: int| Module::Func(timing_color(rr)),
            ),
    {
        let ghost w = self.spec_w();
        let ghost g0 = self.spec_grid();
        let ghost q0 = *self;
        if r1 == r2 {
            let mut j = c1;
            while j <= c2
                invariant
                    self.wf(),
                    self.same_header(&q0),
                    self.spec_w() == w,
                    0 <= r1 < w,
                    0 <= c1 < w,
                    0 <= c2 < w,
                    c1 <= j <= c2 + 1,
                    g0.len() == self.spec_grid().len(),
                    forall|rr: int, cc: int|
                        0 <= rr < w && 0 <= cc < w ==> #[trigger] self.module_at(rr, cc) == if rr
                            == r1 && c1 <= cc < j {
                            Module::Func(timing_color(cc))
                        } else {
                            cell(g0, w, rr, cc)
                        },
                decreases c2 + 1 - j,
            {
                let m = if j % 2 == 0 {
                    Color::Black
                } else {
                    Color::White
                };
                self.set(r1, j, Module::Func(m));
                j += 1;
            }
        } else {
            let mut i = r1;
            while i <= r2
                invariant
                    self.wf(),
                    self.same_header(&q0),
                    self.spec_w() == w,
                    0 <= r1 < w,
                    0 <= c1 < w,
                    0 <= r2 < w,
                    r1 <= i <= r2 + 1,
                    g0.len() == self.spec_grid().len(),
                    forall|rr: int, cc: int|
                        0 <= rr < w && 0 <= cc < w ==> #[trigger] self.module_at(rr, cc) == if cc
                            == c1 && r1 <= rr < i {
                            Module::Func(timing_color(rr))
                        } else {
                            cell(g0, w, rr, cc)
                        },
                decreases r2 + 1 - i,
            {
                let m = if i % 2 == 0 {
                    Color::Black
                } else {
                    Color::White
                };
                self.set(i, c1, Module::Func(m));
                i += 1;
            }
        }
    }
}

// Alignment patterns
//------------------------------------------------------------------------------
/// Colour of the alignment pattern module `dr` rows and `dc` columns from its centre: a dark
/// centre inside a light ring inside a dark ring.
pub open spec fn alignment_color(dr: int, dc: int) -> Color {
    if (dr == 0 && dc == 0) || dr == 2 || dr == -2 || dc == 2 || dc == -2 {
        Color::Black
    } else {
        Color::White
    }
}

/// Centre pairs that fall on a finder pattern, where no alignment pattern is drawn.
pub open spec fn alignment_skipped(w: int, r: int, c: int) -> bool {
    (r == 6 && (c == 6 || c == w - 7)) || (r == w - 7 && c == 6)
}

/// `x` is within two of one of the coordinates `p`.
pub open spec fn near(p: Seq<i32>, x: int) -> bool {
    exists|k: int| 0 <= k < p.len() && #[trigger] p[k] - 2 <= x <= p[k] + 2
}

/// The coordinate of `p` that `x` is near.
pub open spec fn near_index(p: Seq<i32>, x: int) -> int {
    choose|k: int| 0 <= k < p.len() && #[trigger] p[k] - 2 <= x <= p[k] + 2
}

/// The alignment pattern colour of `(r, c)`, if the module belongs to one.
pub open spec fn alignment_cell(ver: Version, w: int, r: int, c: int) -> Option<Color> {
    let p = ver.spec_alignment_pattern();
    let a = p[near_index(p, r)] as int;
    let b = p[near_index(p, c)] as int;
    if near(p, r) && near(p, c) && !alignment_skipped(w, a, b) {
        Some(alignment_color(r - a, c - b))
    } else {
        None
    }
}

/// Alignment coordinates are far enough apart that each module is near at most one.
pub proof fn lemma_near_index(ver: Version, x: int, k: int)
    requires
        ver.valid(),
        0 <= k < ver.spec_alignment_pattern().len(),
        ver.spec_alignment_pattern()[k] - 2 <= x <= ver.spec_alignment_pattern()[k] + 2,
    ensures
        near(ver.spec_alignment_pattern(), x),
        near_index(ver.spec_alignment_pattern(), x) == k,
{
    let p = ver.spec_alignment_pattern();
    lemma_alignment_positions(ver);
    assert(p[k] - 2 <= x <= p[k] + 2);
    let k2 = near_index(p, x);
    if k2 < k {
        assert(p[k2] + 5 <= p[k]);
    } else if k2 > k {
        assert(p[k] + 5 <= p[k2]);
    }
}

impl QR {
    /// Draws the alignment patterns.
    pub fn draw_alignment_patterns(&mut self)
        requires
            old(self).wf(),
        ensures
            final(self).wf(),
            final(self).same_header(old(self)),
            forall|r: int, c: int|
                0 <= r < old(self).spec_w() && 0 <= c < old(self).spec_w()
                    ==> #[trigger] final(self).module_at(r, c) == match alignment_cell(
                    old(self).spec_ver(),
                    old(self).spec_w(),
                    r,
                    c,
                ) {
                    Some(clr) => Module::Func(clr),
                    None => old(self).module_at(r, c),
                },
    {
        let ghost w = self.spec_w();
        let ghost g0 = self.spec_grid();
        let ghost q0 = *self;
        let ghost ver = self.spec_ver();
        let poses = self.ver.alignment_pattern();
        let ghost p = ver.spec_alignment_pattern();
        proof {
            lemma_alignment_positions(ver);
        }
        let mut a: usize = 0;
        while a < poses.len()
            invariant
                self.wf(),
                self.same_header(&q0),
                self.spec_w() == w,
                ver == self.spec_ver(),
                ver.valid(),
                w == ver.spec_width(),
                poses@ == p,
                p == ver.spec_alignment_pattern(),
                p.len() <= 7,
                forall|k: int| 0 <= k < p.len() ==> 6 <= #[trigger] p[k] <= w - 7,
                a <= p.len(),
                g0.len() == self.spec_grid().len(),
                forall|r: int, c: int|
                    0 <= r < w && 0 <= c < w ==> #[trigger] self.module_at(r, c) == if near(p, r)
                        && near(p, c) && !alignment_skipped(
                        w,
                        p[near_index(p, r)] as int,
                        p[near_index(p, c)] as int,
                    ) && near_index(p, r) < a {
                        Module::Func(
                            alignment_color(
                                r - p[near_index(p, r)],
                                c - p[near_index(p, c)],
                            ),
                        )
                    } else {
                        cell(g0, w, r, c)
                    },
            decreases p.len() - a,
        {
            let mut b: usize = 0;
            while b < poses.len()
                invariant
                    self.wf(),
                    self.same_header(&q0),
                    self.spec_w() == w,
                    ver == self.spec_ver(),
                    ver.valid(),
                    w == ver.spec_width(),
                    poses@ == p,
                    p == ver.spec_alignment_pattern(),
                    p.len() <= 7,
                    forall|k: int| 0 <= k < p.len() ==> 6 <= #[trigger] p[k] <= w - 7,
                    a < p.len(),
                    b <= p.len(),
                    g0.len() == self.spec_grid().len(),
                    forall|r: int, c: int|
                        0 <= r < w && 0 <= c < w ==> #[trigger] self.module_at(r, c) == if near(
                            p,
                            r,
                        ) && near(p, c) && !alignment_skipped(
                            w,
                            p[near_index(p, r)] as int,
                            p[near_index(p, c)] as int,
                        ) && (near_index(p, r) < a || (near_index(p, r) == a && near_index(p, c)
                            < b)) {
                            Module::Func(
                                alignment_color(
                                    r - p[near_index(p, r)],
                                    c - p[near_index(p, c)],
                                ),
                            )
                        } else {
                            cell(g0, w, r, c)
                        },
                decreases p.len() - b,
            {
                let ghost g1 = self.spec_grid();
                let pr = poses[a];
                let pc = poses[b];
                assert(6 <= p[a as int] <= w - 7);
                assert(6 <= p[b as int] <= w - 7);
                self.draw_alignment_pattern_at(pr, pc);
                proof {
                    assert forall|r: int, c: int| 0 <= r < w && 0 <= c < w implies #[trigger] self.module_at(
                        r,
                        c,
                    ) == if near(p, r) && near(p, c) && !alignment_skipped(
                        w,
                        p[near_index(p, r)] as int,
                        p[near_index(p, c)] as int,
                    ) && (near_index(p, r) < a || (near_index(p, r) == a && near_index(p, c) < b
                        + 1)) {
                        Module::Func(
                            alignment_color(
                                r - p[near_index(p, r)],
                                c - p[near_index(p, c)],
                            ),
                        )
                    } else {
                        cell(g0, w, r, c)
                    } by {
                        assert(cell(g1, w, r, c) == cell(g1, w, r, c));
                        if pr - 2 <= r <= pr + 2 && pc - 2 <= c <= pc + 2 {
                            lemma_near_index(ver, r, a as int);
                            lemma_near_index(ver, c, b as int);
                        } else if near(p, r) && near(p, c) && near_index(p, r) == a && near_index(
                            p,
                            c,
                        ) == b {
                            assert(p[near_index(p, c)] - 2 <= c <= p[near_index(p, c)] + 2);
                            assert(p[near_index(p, r)] - 2 <= r <= p[near_index(p, r)] + 2);
                        }
                    }
                }
                b += 1;
            }
            a += 1;
        }
        proof {
            assert forall|r: int, c: int| 0 <= r < w && 0 <= c < w implies #[trigger] self.module_at(
                r,
                c,
            ) == match alignment_cell(ver, w, r, c) {
                Some(clr) => Module::Func(clr),
                None => cell(g0, w, r, c),
            } by {
                if near(p, r) {
                    assert(near_index(p, r) < p.len());
                }
            }
        }
    }

    /// Draws the alignment pattern centred on `(r, c)`, unless a finder pattern is there.
    fn draw_alignment_pattern_at(&mut self, r: i32, c: i32)
        requires
            old(self).wf(),
            2 <= r <= old(self).spec_w() - 3,
            2 <= c <= old(self).spec_w() - 3,
        ensures
            final(self).wf(),
            final(self).same_header(old(self)),
            alignment_skipped(old(self).spec_w(), r as int, c as int) ==> final(self).spec_grid()
                == old(self).spec_grid(),
            !alignment_skipped(old(self).spec_w(), r as int, c as int) ==> box_painted(
                old(self).spec_grid(),
                final(self).spec_grid(),
                old(self).spec_w(),
                r - 2,
                r + 2,
                c - 2,
                c + 2,
                |rr: int, cc: int| Module::Func(alignment_color(rr - r, cc - c)),
            ),
    {
        let wi = self.w as i32;
        if (r == 6 && (c == 6 || c - wi == -7)) || (r - wi == -7 && c == 6) {
            return ;
        }
        let ghost w = self.spec_w();
        let ghost g0 = self.spec_grid();
        let ghost q0 = *self;
        let ghost paint = |rr: int, cc: int| Module::Func(alignment_color(rr - r, cc - c));
        let mut i: i32 = -2;
        while i <= 2
            invariant
                self.wf(),
                self.same_header(&q0),
                self.spec_w() == w,
                2 <= r <= w - 3,
                2 <= c <= w - 3,
                -2 <= i <= 3,
                paint == (|rr: int, cc: int| Module::Func(alignment_color(rr - r, cc - c))),
                g0.len() == self.spec_grid().len(),
                forall|rr: int, cc: int|
                    0 <= rr < w && 0 <= cc < w ==> #[trigger] self.module_at(rr, cc) == if r - 2
                        <= rr < r + i && c - 2 <= cc <= c + 2 {
                        paint(rr, cc)
                    } else {
                        cell(g0, w, rr, cc)
                    },
            decreases 3 - i,
        {
            let mut j: i32 = -2;
            while j <= 2
                invariant
                    self.wf(),
                    self.same_header(&q0),
                    self.spec_w() == w,
                    2 <= r <= w - 3,
                    2 <= c <= w - 3,
                    -2 <= i <= 2,
                    -2 <= j <= 3,
                    paint == (|rr: int, cc: int| Module::Func(alignment_color(rr - r, cc - c))),
                    g0.len() == self.spec_grid().len(),
                    forall|rr: int, cc: int|
                        0 <= rr < w && 0 <= cc < w ==> #[trigger] self.module_at(rr, cc) == if (r - 2
                            <= rr < r + i && c - 2 <= cc <= c + 2) || (rr == r + i && c - 2 <= cc < c
                            + j) {
                            paint(rr, cc)
                        } else {
                            cell(g0, w, rr, cc)
                        },
                decreases 3 - j,
            {
                let m = match (i, j) {
                    (-2, _) | (2, _) | (_, -2) | (_, 2) | (0, 0) => Module::Func(Color::Black),
                    _ => Module::Func(Color::White),
                };
                assert(m == paint(r + i, c + j));
                self.set(r + i, c + j, m);
                j += 1;
            }
            i += 1;
        }
    }

    /// Draws finder, timing and alignment patterns, in that order.
    pub fn draw_all_function_patterns(&mut self)
        requires
            old(self).wf(),
        ensures
            final(self).wf(),
            final(self).same_header(old(self)),
            forall|r: int, c: int|
                0 <= r < old(self).spec_w() && 0 <= c < old(self).spec_w()
                    ==> #[trigger] final(self).module_at(r, c) == function_module(
                    old(self).spec_ver(),
                    old(self).spec_w(),
                    r,
                    c,
                    old(self).module_at(r, c),
                ),
    {
        let ghost w = self.spec_w();
        let ghost g0 = self.spec_grid();
        self.draw_finder_patterns();
        let ghost g1 = self.spec_grid();
        self.draw_timing_pattern();
        let ghost g2 = self.spec_grid();
        self.draw_alignment_patterns();
        proof {
            assert forall|r: int, c: int| 0 <= r < w && 0 <= c < w implies #[trigger] self.module_at(
                r,
                c,
            ) == function_module(self.spec_ver(), w, r, c, cell(g0, w, r, c)) by {
                assert(cell(g1, w, r, c) == cell(g1, w, r, c));
                assert(cell(g2, w, r, c) == cell(g2, w, r, c));
            }
        }
    }
}

/// The module at `(r, c)` once the function patterns are drawn over `m`: alignment patterns
/// over timing patterns over finder patterns.
pub open spec fn function_module(ver: Version, w: int, r: int, c: int, m: Module) -> Module {
    match alignment_cell(ver, w, r, c) {
        Some(clr) => Module::Func(clr),
        None => match timing_cell(ver, w, r, c) {
            Some(clr) => Module::Func(clr),
            None => match finder_cell(ver, w, r, c) {
                Some(clr) => Module::Func(clr),
                None => m,
            },
        },
    }
}

// Format and version information
//------------------------------------------------------------------------------
/// `(r, c)` is one of `coords`, each taken modulo `w`.
pub open spec fn on_coords(coords: Seq<(i32, i32)>, w: int, r: int, c: int) -> bool {
    exists|k: int|
        0 <= k < coords.len() && wrap(#[trigger] coords[k].0 as int, w) == r && wrap(
            coords[k].1 as int,
            w,
        ) == c
}

/// Which of `coords` is `(r, c)`.
pub open spec fn coords_index(coords: Seq<(i32, i32)>, w: int, r: int, c: int) -> int {
    choose|k: int|
        0 <= k < coords.len() && wrap(#[trigger] coords[k].0 as int, w) == r && wrap(
            coords[k].1 as int,
            w,
        ) == c
}

/// No two of `coords` name the same module of a grid of width `w`.
pub open spec fn distinct_cells(coords: Seq<(i32, i32)>, w: int) -> bool {
    forall|k1: int, k2: int|
        0 <= k1 < coords.len() && 0 <= k2 < coords.len() && k1 != k2 ==> (wrap(
            #[trigger] coords[k1].0 as int,
            w,
        ) != wrap(#[trigger] coords[k2].0 as int, w) || wrap(coords[k1].1 as int, w) != wrap(
            coords[k2].1 as int,
            w,
        ))
}

/// The module that `draw_number` puts at the `k`-th of `len` coordinates: bit `len - 1 - k`
/// of `number`, most significant first.
pub open spec fn number_module(number: u32, len: nat, k: int, off: Module, on: Module) -> Module {
    if (number >> ((len - 1 - k) as u32)) & 1u32 == 1u32 {
        on
    } else {
        off
    }
}

pub proof fn lemma_coords_index(coords: Seq<(i32, i32)>, w: int, k: int)
    requires
        distinct_cells(coords, w),
        0 <= k < coords.len(),
    ensures
        on_coords(coords, w, wrap(coords[k].0 as int, w), wrap(coords[k].1 as int, w)),
        coords_index(coords, w, wrap(coords[k].0 as int, w), wrap(coords[k].1 as int, w)) == k,
{
    let r = wrap(coords[k].0 as int, w);
    let c = wrap(coords[k].1 as int, w);
    assert(0 <= k < coords.len() && wrap(coords[k].0 as int, w) == r && wrap(coords[k].1 as int, w)
        == c);
    let k2 = coords_index(coords, w, r, c);
    assert(wrap(coords[k2].0 as int, w) == r);
}

/// The format information coordinates, about the top left finder and along the two far
/// finders, name distinct modules.
pub proof fn lemma_format_coords(w: int)
    ensures
        w >= 21 ==> distinct_cells(FORMAT_INFO_COORDS_QR_MAIN@, w),
        w >= 21 ==> distinct_cells(FORMAT_INFO_COORDS_QR_SIDE@, w),
        forall|k: int|
            0 <= k < 15 ==> 0 <= #[trigger] FORMAT_INFO_COORDS_QR_MAIN@[k].0 <= 8
                && 0 <= FORMAT_INFO_COORDS_QR_MAIN@[k].1 <= 8,
        forall|k: int|
            0 <= k < 15 ==> -8 <= #[trigger] FORMAT_INFO_COORDS_QR_SIDE@[k].0 <= 8 && -8
                <= FORMAT_INFO_COORDS_QR_SIDE@[k].1 <= 8 && (FORMAT_INFO_COORDS_QR_SIDE@[k].0 < 0
                || FORMAT_INFO_COORDS_QR_SIDE@[k].1 < 0) && (FORMAT_INFO_COORDS_QR_SIDE@[k].0 == 8
                || FORMAT_INFO_COORDS_QR_SIDE@[k].1 == 8),
{
    assert(FORMAT_INFO_COORDS_QR_MAIN@ =~= seq![
        (0i32, 8i32),
        (1i32, 8i32),
        (2i32, 8i32),
        (3i32, 8i32),
        (4i32, 8i32),
        (5i32, 8i32),
        (7i32, 8i32),
        (8i32, 8i32),
        (8i32, 7i32),
        (8i32, 5i32),
        (8i32, 4i32),
        (8i32, 3i32),
        (8i32, 2i32),
        (8i32, 1i32),
        (8i32, 0i32),
    ]);
    assert(FORMAT_INFO_COORDS_QR_SIDE@ =~= seq![
        (8i32, -1i32),
        (8i32, -2i32),
        (8i32, -3i32),
        (8i32, -4i32),
        (8i32, -5i32),
        (8i32, -6i32),
        (8i32, -7i32),
        (8i32, -8i32),
        (-7i32, 8i32),
        (-6i32, 8i32),
        (-5i32, 8i32),
        (-4i32, 8i32),
        (-3i32, 8i32),
        (-2i32, 8i32),
        (-1i32, 8i32),
    ]);
}

/// The version information coordinates name distinct modules, away from the far edges.
pub proof fn lemma_version_coords(w: int)
    ensures
        w >= 45 ==> distinct_cells(VERSION_INFO_COORDS_BL@, w),
        w >= 45 ==> distinct_cells(VERSION_INFO_COORDS_TR@, w),
        forall|k: int|
            0 <= k < 18 ==> 0 <= #[trigger] VERSION_INFO_COORDS_BL@[k].0 <= 5 && -11
                <= VERSION_INFO_COORDS_BL@[k].1 <= -9,
        forall|k: int|
            0 <= k < 18 ==> -11 <= #[trigger] VERSION_INFO_COORDS_TR@[k].0 <= -9 && 0
                <= VERSION_INFO_COORDS_TR@[k].1 <= 5,
{
    assert(VERSION_INFO_COORDS_BL@ =~= seq![
        (5i32, -9i32),
        (5i32, -10i32),
        (5i32, -11i32),
        (4i32, -9i32),
        (4i32, -10i32),
        (4i32, -11i32),
        (3i32, -9i32),
        (3i32, -10i32),
        (3i32, -11i32),
        (2i32, -9i32),
        (2i32, -10i32),
        (2i32, -11i32),
        (1i32, -9i32),
        (1i32, -10i32),
        (1i32, -11i32),
        (0i32, -9i32),
        (0i32, -10i32),
        (0i32, -11i32),
    ]);
    assert(VERSION_INFO_COORDS_TR@ =~= seq![
        (-9i32, 5i32),
        (-10i32, 5i32),
        (-11i32, 5i32),
        (-9i32, 4i32),
        (-10i32, 4i32),
        (-11i32, 4i32),
        (-9i32, 3i32),
        (-10i32, 3i32),
        (-11i32, 3i32),
        (-9i32, 2i32),
        (-10i32, 2i32),
        (-11i32, 2i32),
        (-9i32, 1i32),
        (-10i32, 1i32),
        (-11i32, 1i32),
        (-9i32, 0i32),
        (-10i32, 0i32),
        (-11i32, 0i32),
    ]);
}

/// The format module at `(r, c)`, if any, once `info` is drawn: the always-dark module
/// (light in a high capacity symbol) above the bottom left finder, and the two copies of
/// the fifteen bits.
pub open spec fn format_cell(w: int, hi_cap: bool, info: u32, r: int, c: int) -> Option<Module> {
    let main = FORMAT_INFO_COORDS_QR_MAIN@;
    let side = FORMAT_INFO_COORDS_QR_SIDE@;
    let off = Module::Format(Color::White);
    let on = Module::Format(Color::Black);
    if r == w - 8 && c == 8 {
        Some(
            if hi_cap {
                off
            } else {
                on
            },
        )
    } else if on_coords(side, w, r, c) {
        Some(number_module(info, 15, coords_index(side, w, r, c), off, on))
    } else if on_coords(main, w, r, c) {
        Some(number_module(info, 15, coords_index(main, w, r, c), off, on))
    } else {
        None
    }
}

/// The version module at `(r, c)`, if any, once the version information of `ver` is drawn.
pub open spec fn version_cell(ver: Version, w: int, info: u32, r: int, c: int) -> Option<Module> {
    let bl = VERSION_INFO_COORDS_BL@;
    let tr = VERSION_INFO_COORDS_TR@;
    let off = Module::Version(Color::White);
    let on = Module::Version(Color::Black);
    if !(ver matches Version::Normal(v) && v >= 7) {
        None
    } else if on_coords(tr, w, r, c) {
        Some(number_module(info, 18, coords_index(tr, w, r, c), off, on))
    } else if on_coords(bl, w, r, c) {
        Some(number_module(info, 18, coords_index(bl, w, r, c), off, on))
    } else {
        None
    }
}

/// The version information of `ver`, or nothing for a version that has none.
pub open spec fn version_info(ver: Version) -> u32 {
    match ver {
        Version::Normal(v) => if 7 <= v <= 40 {
            crate::metadata::VERSION_INFOS[v - 7]
        } else {
            0
        },
        _ => 0,
    }
}

impl QR {
    /// Marks the format information modules, all dark, so that data goes around them.
    pub fn reserve_format_area(&mut self)
        requires
            old(self).wf(),
            old(self).spec_ver() is Normal,
        ensures
            final(self).wf(),
            final(self).same_header(old(self)),
            forall|r: int, c: int|
                0 <= r < old(self).spec_w() && 0 <= c < old(self).spec_w()
                    ==> #[trigger] final(self).module_at(r, c) == match format_cell(
                    old(self).spec_w(),
                    old(self).spec_hi_cap(),
                    0x7fff,
                    r,
                    c,
                ) {
                    Some(m) => m,
                    None => old(self).module_at(r, c),
                },
    {
        // All fifteen bits set.
        self.draw_format_info(0x7fff);
    }

    /// Draws the format information `info` in both places.
    pub fn draw_format_info(&mut self, format_info: u32)
        requires
            old(self).wf(),
            old(self).spec_ver() is Normal,
        ensures
            final(self).wf(),
            final(self).same_header(old(self)),
            forall|r: int, c: int|
                0 <= r < old(self).spec_w() && 0 <= c < old(self).spec_w()
                    ==> #[trigger] final(self).module_at(r, c) == match format_cell(
                    old(self).spec_w(),
                    old(self).spec_hi_cap(),
                    format_info,
                    r,
                    c,
                ) {
                    Some(m) => m,
                    None => old(self).module_at(r, c),
                },
    {
        let ghost w = self.spec_w();
        let ghost g0 = self.spec_grid();
        proof {
            lemma_format_coords(w);
        }
        self.draw_number(
            format_info,
            FORMAT_INFO_BIT_LEN,
            Module::Format(Color::White),
            Module::Format(Color::Black),
            &FORMAT_INFO_COORDS_QR_MAIN,
        );
        let ghost g1 = self.spec_grid();
        self.draw_number(
            format_info,
            FORMAT_INFO_BIT_LEN,
            Module::Format(Color::White),
            Module::Format(Color::Black),
            &FORMAT_INFO_COORDS_QR_SIDE,
        );
        let ghost g2 = self.spec_grid();
        let unused_mod = if !self.hi_cap {
            Module::Format(Color::Black)
        } else {
            Module::Format(Color::White)
        };
        self.set(-8, 8, unused_mod);
        proof {
            assert forall|r: int, c: int| 0 <= r < w && 0 <= c < w implies #[trigger] self.module_at(
                r,
                c,
            ) == match format_cell(w, self.spec_hi_cap(), format_info, r, c) {
                Some(m) => m,
                None => cell(g0, w, r, c),
            } by {
                assert(cell(g1, w, r, c) == cell(g1, w, r, c));
                assert(cell(g2, w, r, c) == cell(g2, w, r, c));
            }
        }
    }

    /// Draws the version information in both places, for versions 7 and up.
    pub fn draw_version_info(&mut self)
        requires
            old(self).wf(),
        ensures
            final(self).wf(),
            final(self).same_header(old(self)),
            forall|r: int, c: int|
                0 <= r < old(self).spec_w() && 0 <= c < old(self).spec_w()
                    ==> #[trigger] final(self).module_at(r, c) == match version_cell(
                    old(self).spec_ver(),
                    old(self).spec_w(),
                    version_info(old(self).spec_ver()),
                    r,
                    c,
                ) {
                    Some(m) => m,
                    None => old(self).module_at(r, c),
                },
    {
        let ghost w = self.spec_w();
        let ghost g0 = self.spec_grid();
        match self.ver {
            Version::Normal(v) => {
                if v >= 7 {
                    proof {
                        lemma_version_coords(w);
                    }
                    let ver_info = self.ver.info();
                    self.draw_number(
                        ver_info,
                        VERSION_INFO_BIT_LEN,
                        Module::Version(Color::White),
                        Module::Version(Color::Black),
                        &VERSION_INFO_COORDS_BL,
                    );
                    let ghost g1 = self.spec_grid();
                    self.draw_number(
                        ver_info,
                        VERSION_INFO_BIT_LEN,
                        Module::Version(Color::White),
                        Module::Version(Color::Black),
                        &VERSION_INFO_COORDS_TR,
                    );
                    proof {
                        assert forall|r: int, c: int| 0 <= r < w && 0 <= c < w implies #[trigger] self.module_at(
                            r,
                            c,
                        ) == match version_cell(self.spec_ver(), w, ver_info, r, c) {
                            Some(m) => m,
                            None => cell(g0, w, r, c),
                        } by {
                            assert(cell(g1, w, r, c) == cell(g1, w, r, c));
                        }
                    }
                }
            },
            Version::Micro(_) => {},
        }
    }

    /// Draws the `bit_len` bits of `number`, most significant first, at `coords`: `on_clr`
    /// for a one, `off_clr` for a zero.
    fn draw_number(
        &mut self,
        number: u32,
        bit_len: usize,
        off_clr: Module,
        on_clr: Module,
        coords: &[(i32, i32)],
    )
        requires
            old(self).wf(),
            1 <= bit_len <= 32,
            coords@.len() == bit_len,
            distinct_cells(coords@, old(self).spec_w()),
            forall|k: int|
                0 <= k < coords@.len() ==> old(self).in_range(
                    #[trigger] coords@[k].0 as int,
                    coords@[k].1 as int,
                ),
        ensures
            final(self).wf(),
            final(self).same_header(old(self)),
            forall|r: int, c: int|
                0 <= r < old(self).spec_w() && 0 <= c < old(self).spec_w()
                    ==> #[trigger] final(self).module_at(r, c) == if on_coords(
                    coords@,
                    old(self).spec_w(),
                    r,
                    c,
                ) {
                    number_module(
                        number,
                        bit_len as nat,
                        coords_index(coords@, old(self).spec_w(), r, c),
                        off_clr,
                        on_clr,
                    )
                } else {
                    old(self).module_at(r, c)
                },
    {
        let ghost w = self.spec_w();
        let ghost g0 = self.spec_grid();
        let ghost q0 = *self;
        let mut i: usize = 0;
        while i < coords.len()
            invariant
                self.wf(),
                self.same_header(&q0),
                self.spec_w() == w,
                1 <= bit_len <= 32,
                coords@.len() == bit_len,
                distinct_cells(coords@, w),
                forall|k: int|
                    0 <= k < coords@.len() ==> self.in_range(
                        #[trigger] coords@[k].0 as int,
                        coords@[k].1 as int,
                    ),
                i <= bit_len,
                g0.len() == self.spec_grid().len(),
                forall|r: int, c: int|
                    0 <= r < w && 0 <= c < w ==> #[trigger] self.module_at(r, c) == if on_coords(
                        coords@,
                        w,
                        r,
                        c,
                    ) && coords_index(coords@, w, r, c) < i {
                        number_module(
                            number,
                            bit_len as nat,
                            coords_index(coords@, w, r, c),
                            off_clr,
                            on_clr,
                        )
                    } else {
                        cell(g0, w, r, c)
                    },
            decreases bit_len - i,
        {
            let ghost g1 = self.spec_grid();
            let (r, c) = coords[i];
            let shift = (bit_len - 1 - i) as u32;
            let m = if (number >> shift) & 1 == 1 {
                on_clr
            } else {
                off_clr
            };
            assert(self.in_range(coords@[i as int].0 as int, coords@[i as int].1 as int));
            self.set(r, c, m);
            proof {
                lemma_coords_index(coords@, w, i as int);
                assert forall|rr: int, cc: int| 0 <= rr < w && 0 <= cc < w implies #[trigger] self.module_at(
                    rr,
                    cc,
                ) == if on_coords(coords@, w, rr, cc) && coords_index(coords@, w, rr, cc) < i + 1 {
                    number_module(
                        number,
                        bit_len as nat,
                        coords_index(coords@, w, rr, cc),
                        off_clr,
                        on_clr,
                    )
                } else {
                    cell(g0, w, rr, cc)
                } by {
                    assert(cell(g1, w, rr, cc) == cell(g1, w, rr, cc));
                    if on_coords(coords@, w, rr, cc) && coords_index(coords@, w, rr, cc) == i {
                        let k = coords_index(coords@, w, rr, cc);
                        assert(wrap(coords@[k].0 as int, w) == rr);
                    }
                }
            }
            i += 1;
        }
    }
}

// Encoding region
//------------------------------------------------------------------------------
/// The data module for a bit of a one-channel symbol: dark for one, light for zero.
pub open spec fn bit_module(bit: bool) -> Module {
    Module::Data(
        if bit {
            Color::Black
        } else {
            Color::White
        },
    )
}

/// Places `bits` in order in the empty modules among `pos`: the grid that results and the
/// positions not yet visited.
pub open spec fn place_bits(g: Seq<Module>, w: int, pos: Seq<(i32, i32)>, bits: Seq<bool>) -> (
    Seq<Module>,
    Seq<(i32, i32)>,
)
    decreases pos.len(),
{
    if bits.len() == 0 || pos.len() == 0 {
        (g, pos)
    } else if cell(g, w, pos[0].0 as int, pos[0].1 as int) == Module::Empty {
        place_bits(
            g.update(pos[0].0 * w + pos[0].1, bit_module(bits[0])),
            w,
            pos.drop_first(),
            bits.drop_first(),
        )
    } else {
        place_bits(g, w, pos.drop_first(), bits)
    }
}

/// Turns the empty modules among the first `n` of `pos` into light data modules: the grid
/// that results and the positions not yet visited.
pub open spec fn fill_remainder(g: Seq<Module>, w: int, pos: Seq<(i32, i32)>, n: nat) -> (
    Seq<Module>,
    Seq<(i32, i32)>,
)
    decreases n,
{
    if n == 0 || pos.len() == 0 {
        (g, pos)
    } else {
        let g2 = if cell(g, w, pos[0].0 as int, pos[0].1 as int) == Module::Empty {
            g.update(pos[0].0 * w + pos[0].1, Module::Data(Color::White))
        } else {
            g
        };
        fill_remainder(g2, w, pos.drop_first(), (n - 1) as nat)
    }
}

/// The grid once a one-channel payload `bits` is placed in the encoding region of `ver`
/// and the remainder modules are filled.
pub open spec fn mono_payload_grid(ver: Version, g: Seq<Module>, bits: Seq<bool>) -> Seq<Module> {
    let w = ver.spec_width();
    let placed = place_bits(g, w, region(ver), bits);
    fill_remainder(placed.0, w, placed.1, ver.spec_remainder_bits()).0
}

impl QR {
    /// Places the payload of a one-channel symbol, dark modules for ones.
    fn draw_payload(&mut self, payload: BitStream)
        requires
            old(self).wf(),
            payload.wf(),
        ensures
            final(self).wf(),
            final(self).same_header(old(self)),
            final(self).spec_grid() == mono_payload_grid(
                old(self).spec_ver(),
                old(self).spec_grid(),
                payload.unread(),
            ),
    {
        let ghost w = self.spec_w();
        let ghost ver = self.spec_ver();
        let ghost q0 = *self;
        let ghost target = place_bits(self.spec_grid(), w, region(ver), payload.unread());
        let mut payload = payload;
        let mut coords = EncRegionIter::new(self.ver);
        loop
            invariant
                self.wf(),
                self.same_header(&q0),
                self.spec_w() == w,
                self.spec_ver() == ver,
                coords.wf(),
                coords.spec_ver() == ver,
                coords.spec_w() == w,
                payload.wf(),
                place_bits(self.spec_grid(), w, coords.rest(), payload.unread()) == target,
            ensures
                payload.unread().len() == 0,
            decreases payload.spec_len() - payload.spec_cursor(),
        {
            let ghost before = payload.unread();
            let ghost pbits = payload.bits();
            let bit = match payload.take_bit() {
                Some(b) => b,
                None => break,
            };
            proof {
                assert(pbits == payload.bits());
                assert(before =~= seq![bit] + payload.unread());
            }
            let module = Module::Data(
                if bit {
                    Color::Black
                } else {
                    Color::White
                },
            );
            loop
                invariant_except_break
                    place_bits(self.spec_grid(), w, coords.rest(), seq![bit] + payload.unread())
                        == target,
                invariant
                    self.wf(),
                    self.same_header(&q0),
                    self.spec_w() == w,
                    self.spec_ver() == ver,
                    coords.wf(),
                    coords.spec_ver() == ver,
                    coords.spec_w() == w,
                    module == bit_module(bit),
                ensures
                    place_bits(self.spec_grid(), w, coords.rest(), payload.unread()) == target,
                decreases coords.rest().len(),
            {
                let ghost g1 = self.spec_grid();
                let ghost rest1 = coords.rest();
                match coords.next() {
                    None => {
                        assert(place_bits(g1, w, rest1, payload.unread()) == (g1, rest1));
                        break;
                    },
                    Some((r, c)) => {
                        assert((seq![bit] + payload.unread()).drop_first() =~= payload.unread());
                        if self.get(r, c) == Module::Empty {
                            self.set(r, c, module);
                            break;
                        }
                    },
                }
            }
        }
        proof {
            assert(place_bits(self.spec_grid(), w, coords.rest(), payload.unread()) == (
            self.spec_grid(), coords.rest()));
        }
        self.fill_remainder_bits(&mut coords);
    }

    /// Turns the empty modules among the next remainder-bit positions into light data
    /// modules.
    fn fill_remainder_bits(&mut self, coords: &mut EncRegionIter)
        requires
            old(self).wf(),
            old(coords).wf(),
            old(coords).spec_ver() == old(self).spec_ver(),
            old(coords).spec_w() == old(self).spec_w(),
        ensures
            final(self).wf(),
            final(self).same_header(old(self)),
            final(coords).wf(),
            final(coords).spec_ver() == old(coords).spec_ver(),
            final(coords).spec_w() == old(coords).spec_w(),
            (final(self).spec_grid(), final(coords).rest()) == fill_remainder(
                old(self).spec_grid(),
                old(self).spec_w(),
                old(coords).rest(),
                old(self).spec_ver().spec_remainder_bits(),
            ),
    {
        let ghost w = self.spec_w();
        let ghost ver = self.spec_ver();
        let ghost q0 = *self;
        let ghost target = fill_remainder(
            self.spec_grid(),
            w,
            coords.rest(),
            ver.spec_remainder_bits(),
        );
        let n = self.ver.remainder_bits();
        let mut i: usize = 0;
        while i < n
            invariant_except_break
                fill_remainder(self.spec_grid(), w, coords.rest(), (n - i) as nat) == target,
            invariant
                self.wf(),
                self.same_header(&q0),
                self.spec_w() == w,
                self.spec_ver() == ver,
                coords.wf(),
                coords.spec_ver() == ver,
                coords.spec_w() == w,
                n == ver.spec_remainder_bits(),
                i <= n,
            ensures
                (self.spec_grid(), coords.rest()) == target,
            decreases n - i,
        {
            let ghost g1 = self.spec_grid();
            let ghost rest1 = coords.rest();
            match coords.next() {
                None => {
                    assert(fill_remainder(g1, w, rest1, (n - i) as nat) == (g1, rest1));
                    break;
                },
                Some((r, c)) => {
                    if self.get(r, c) == Module::Empty {
                        self.set(r, c, Module::Data(Color::White));
                    }
                },
            }
            i += 1;
        }
    }
}

// Colour payload
//------------------------------------------------------------------------------
/// A module a colour payload bit can go in: empty, or data of an earlier channel.
pub open spec fn writable(m: Module) -> bool {
    m == Module::Empty || m is Data
}

/// Some module of `t` is writable.
pub open spec fn has_writable(g: Seq<Module>, w: int, t: Seq<(i32, i32)>) -> bool {
    exists|j: int| 0 <= j < t.len() && writable(cell(g, w, #[trigger] t[j].0 as int, t[j].1 as int))
}

/// Index in `s` of the first writable module; `s.len()` when there is none.
pub open spec fn first_writable(g: Seq<Module>, w: int, s: Seq<(i32, i32)>) -> int
    decreases s.len(),
{
    if s.len() == 0 {
        0
    } else if writable(cell(g, w, s[0].0 as int, s[0].1 as int)) {
        0
    } else {
        1 + first_writable(g, w, s.drop_first())
    }
}

/// The colour bit of channel `chan`: 2 red, 1 green, 0 blue.
pub open spec fn channel_bit(chan: int) -> u8 {
    if chan == 2 {
        4
    } else if chan == 1 {
        2
    } else {
        1
    }
}

/// What a payload bit of channel `chan` makes of module `m`: an empty module becomes dark
/// for a one and red for a zero; a data module gains the channel's colour bit on a zero.
pub open spec fn color_module(m: Module, bit: bool, chan: int) -> Module {
    if m == Module::Empty {
        Module::Data(
            if bit {
                Color::Black
            } else {
                Color::Red
            },
        )
    } else if bit {
        Module::Data(color_of_bits(m.spec_color().rgb()))
    } else {
        Module::Data(color_of_bits(m.spec_color().rgb() | channel_bit(chan)))
    }
}

/// The position a cycling walk visits next, and the positions left after it: `rest`, then
/// `region` over again.
pub open spec fn cycle_step(rest: Seq<(i32, i32)>, region: Seq<(i32, i32)>) -> ((i32, i32), Seq<
    (i32, i32),
>) {
    if rest.len() > 0 {
        (rest[0], rest.drop_first())
    } else {
        (region[0], region.drop_first())
    }
}

/// Places the bits of channel `chan`, each in the next writable module of the cycling walk
/// `rest`, `region`, `region`, ...: the grid that results and the walk's remainder.
pub open spec fn place_color(
    g: Seq<Module>,
    w: int,
    rest: Seq<(i32, i32)>,
    region: Seq<(i32, i32)>,
    bits: Seq<bool>,
    chan: int,
) -> (Seq<Module>, Seq<(i32, i32)>)
    decreases bits.len(),
{
    if bits.len() == 0 {
        (g, rest)
    } else {
        let comb = rest + region;
        let k = first_writable(g, w, comb);
        if k >= comb.len() {
            (g, rest)
        } else {
            let p = comb[k];
            let m = color_module(cell(g, w, p.0 as int, p.1 as int), bits[0], chan);
            let rest2 = if k < rest.len() {
                rest.skip(k + 1)
            } else {
                region.skip(k - rest.len() + 1)
            };
            place_color(g.update(p.0 * w + p.1, m), w, rest2, region, bits.drop_first(), chan)
        }
    }
}

/// Turns the empty modules among the next `n` positions of the cycling walk into light data
/// modules.
pub open spec fn fill_cycle(
    g: Seq<Module>,
    w: int,
    rest: Seq<(i32, i32)>,
    region: Seq<(i32, i32)>,
    n: nat,
) -> (Seq<Module>, Seq<(i32, i32)>)
    decreases n,
{
    if n == 0 || region.len() == 0 {
        (g, rest)
    } else {
        let (p, rest2) = cycle_step(rest, region);
        let g2 = if cell(g, w, p.0 as int, p.1 as int) == Module::Empty {
            g.update(p.0 * w + p.1, Module::Data(Color::White))
        } else {
            g
        };
        fill_cycle(g2, w, rest2, region, (n - 1) as nat)
    }
}

/// At most `n` leading elements of `s`.
pub open spec fn take_at_most<T>(s: Seq<T>, n: int) -> Seq<T> {
    if n <= s.len() {
        s.take(n)
    } else {
        s
    }
}

/// One channel of a colour payload: its bits placed, then the remainder modules filled.
pub open spec fn color_round(
    ver: Version,
    g: Seq<Module>,
    rest: Seq<(i32, i32)>,
    bits: Seq<bool>,
    chan: int,
) -> (Seq<Module>, Seq<(i32, i32)>) {
    let w = ver.spec_width();
    let placed = place_color(g, w, rest, region(ver), bits, chan);
    fill_cycle(placed.0, w, placed.1, region(ver), ver.spec_remainder_bits())
}

/// The grid once a three-channel payload `bits` is placed: red channel first, then green,
/// then blue, each taking the next channel's worth of bits.
pub open spec fn color_payload_grid(ver: Version, g: Seq<Module>, bits: Seq<bool>) -> Seq<Module> {
    let cap = 8 * ver.spec_channel_codewords();
    let b2 = take_at_most(bits, cap as int);
    let bits1 = bits.skip(b2.len() as int);
    let b1 = take_at_most(bits1, cap as int);
    let bits0 = bits1.skip(b1.len() as int);
    let b0 = take_at_most(bits0, cap as int);
    let r2 = color_round(ver, g, region(ver), b2, 2);
    let r1 = color_round(ver, r2.0, r2.1, b1, 1);
    color_round(ver, r1.0, r1.1, b0, 0).0
}

proof fn lemma_first_writable_bound(g: Seq<Module>, w: int, s: Seq<(i32, i32)>)
    ensures
        0 <= first_writable(g, w, s) <= s.len(),
        first_writable(g, w, s) < s.len() ==> writable(
            cell(
                g,
                w,
                s[first_writable(g, w, s)].0 as int,
                s[first_writable(g, w, s)].1 as int,
            ),
        ),
        has_writable(g, w, s) ==> first_writable(g, w, s) < s.len(),
    decreases s.len(),
{
    if s.len() > 0 {
        lemma_first_writable_bound(g, w, s.drop_first());
        if has_writable(g, w, s) && !writable(cell(g, w, s[0].0 as int, s[0].1 as int)) {
            let j = choose|j: int|
                0 <= j < s.len() && writable(cell(g, w, #[trigger] s[j].0 as int, s[j].1 as int));
            assert(s.drop_first()[j - 1] == s[j]);
        }
    }
}

proof fn lemma_first_writable_concat(g: Seq<Module>, w: int, s: Seq<(i32, i32)>, t: Seq<(i32, i32)>)
    ensures
        first_writable(g, w, s + t) == if first_writable(g, w, s) < s.len() {
            first_writable(g, w, s)
        } else {
            s.len() + first_writable(g, w, t)
        },
    decreases s.len(),
{
    lemma_first_writable_bound(g, w, s);
    if s.len() == 0 {
        assert(s + t =~= t);
    } else {
        assert((s + t)[0] == s[0]);
        assert((s + t).drop_first() =~= s.drop_first() + t);
        lemma_first_writable_concat(g, w, s.drop_first(), t);
    }
}

/// Writing a data module keeps some module of the region writable.
proof fn lemma_has_writable_update(g: Seq<Module>, w: int, t: Seq<(i32, i32)>, i: int, m: Module)
    requires
        has_writable(g, w, t),
        m is Data,
        0 <= i < g.len(),
        g.len() == w * w,
        forall|j: int| 0 <= j < t.len() ==> 0 <= #[trigger] t[j].0 < w && 0 <= t[j].1 < w,
    ensures
        has_writable(g.update(i, m), w, t),
{
    let j = choose|j: int|
        0 <= j < t.len() && writable(cell(g, w, #[trigger] t[j].0 as int, t[j].1 as int));
    lemma_cell_in_range(w, t[j].0 as int, t[j].1 as int);
    assert(writable(cell(g.update(i, m), w, t[j].0 as int, t[j].1 as int)));
}

/// One step of the cycling walk past a module that is not writable leaves the placement
/// unchanged; one onto a writable module places the first bit there.
proof fn lemma_place_color_step(
    g: Seq<Module>,
    w: int,
    rest: Seq<(i32, i32)>,
    region: Seq<(i32, i32)>,
    bits: Seq<bool>,
    chan: int,
)
    requires
        has_writable(g, w, region),
        bits.len() > 0,
    ensures
        first_writable(g, w, rest + region) < (rest + region).len(),
        !writable(
            cell(g, w, cycle_step(rest, region).0.0 as int, cycle_step(rest, region).0.1 as int),
        ) ==> first_writable(g, w, cycle_step(rest, region).1 + region) + 1 == first_writable(
            g,
            w,
            rest + region,
        ),
        ({
            let (p, rest2) = cycle_step(rest, region);
            let m = cell(g, w, p.0 as int, p.1 as int);
            if writable(m) {
                place_color(g, w, rest, region, bits, chan) == place_color(
                    g.update(p.0 * w + p.1, color_module(m, bits[0], chan)),
                    w,
                    rest2,
                    region,
                    bits.drop_first(),
                    chan,
                )
            } else {
                place_color(g, w, rest, region, bits, chan) == place_color(
                    g,
                    w,
                    rest2,
                    region,
                    bits,
                    chan,
                )
            }
        }),
{
    lemma_first_writable_bound(g, w, region);
    lemma_first_writable_bound(g, w, rest);
    let comb = rest + region;
    let (p, rest2) = cycle_step(rest, region);
    lemma_first_writable_bound(g, w, rest2);
    lemma_first_writable_concat(g, w, rest, region);
    lemma_first_writable_concat(g, w, rest2, region);
    assert(comb[0] == p);
    let k = first_writable(g, w, comb);
    if writable(cell(g, w, p.0 as int, p.1 as int)) {
        assert(k == 0);
        if rest.len() > 0 {
            assert(rest.skip(1) =~= rest.drop_first());
        } else {
            assert(region.skip(1) =~= region.drop_first());
        }
    } else {
        let comb2 = rest2 + region;
        let k2 = first_writable(g, w, comb2);
        if rest.len() > 0 {
            assert(comb2 =~= comb.drop_first());
            assert(k == 1 + k2);
            assert(comb2[k2] == comb[k]);
            if k2 < rest2.len() {
                assert(rest2.skip(k2 + 1) =~= rest.skip(k + 1));
            } else {
                assert(k2 - rest2.len() == k - rest.len());
            }
        } else {
            assert(comb =~= region);
            lemma_first_writable_bound(g, w, region.drop_first());
            assert(region[0] == p);
            assert(k == 1 + first_writable(g, w, region.drop_first()));
            assert(has_writable(g, w, region.drop_first())) by {
                let j = choose|j: int|
                    0 <= j < region.len() && writable(
                        cell(g, w, #[trigger] region[j].0 as int, region[j].1 as int),
                    );
                assert(j != 0);
                assert(region.drop_first()[j - 1] == region[j]);
            }
            assert(k2 == first_writable(g, w, region.drop_first()));
            assert(comb2[k2] == region.drop_first()[k2]);
            assert(region.drop_first()[k2] == region[k]);
            assert(rest2.skip(k2 + 1) =~= region.skip(k + 1));
        }
    }
}

impl QR {
    /// The next position of the cycling walk: the rest of `coords`, then the whole region
    /// again.
    fn cycle_next(&self, coords: &mut EncRegionIter) -> (p: (i32, i32))
        requires
            self.wf(),
            old(coords).wf(),
            old(coords).spec_ver() == self.spec_ver(),
            old(coords).spec_w() == self.spec_w(),
            region(self.spec_ver()).len() > 0,
        ensures
            final(coords).wf(),
            final(coords).spec_ver() == self.spec_ver(),
            final(coords).spec_w() == self.spec_w(),
            (p, final(coords).rest()) == cycle_step(old(coords).rest(), region(self.spec_ver())),
            0 <= p.0 < self.spec_w(),
            0 <= p.1 < self.spec_w(),
    {
        match coords.next() {
            Some(p) => p,
            None => {
                *coords = EncRegionIter::new(self.ver);
                match coords.next() {
                    Some(p) => p,
                    None => (0, 0),
                }
            },
        }
    }

    /// Places the payload of a three-channel symbol: each channel's bits in turn, red first,
    /// each module's colour collecting one bit per channel.
    fn draw_color_payload(&mut self, payload: BitStream)
        requires
            old(self).wf(),
            old(self).spec_ver() is Normal,
            payload.wf(),
            payload.spec_len() / 8 == 3 * old(self).spec_ver().spec_channel_codewords(),
            has_writable(old(self).spec_grid(), old(self).spec_w(), region(old(self).spec_ver())),
        ensures
            final(self).wf(),
            final(self).same_header(old(self)),
            final(self).spec_grid() == color_payload_grid(
                old(self).spec_ver(),
                old(self).spec_grid(),
                payload.unread(),
            ),
    {
        let ghost w = self.spec_w();
        let ghost ver = self.spec_ver();
        let ghost q0 = *self;
        let ghost reg = region(ver);
        let ghost g0 = self.spec_grid();
        let ghost bits = payload.unread();
        let mut payload = payload;
        proof {
            lemma_normal_blocks(ver, ECLevel::L);
            lemma_first_writable_bound(g0, w, reg);
            crate::iter::lemma_region(ver);
        }
        let chan_cap = self.ver.channel_codewords();
        let chan_bit_cap = chan_cap * 8;
        let mut coords = EncRegionIter::new(self.ver);
        let ghost cap = chan_bit_cap as int;
        let ghost b2 = take_at_most(bits, cap);
        let ghost bits1 = bits.skip(b2.len() as int);
        let ghost b1 = take_at_most(bits1, cap);
        let ghost bits0 = bits1.skip(b1.len() as int);
        let ghost b0 = take_at_most(bits0, cap);
        let ghost r2 = color_round(ver, g0, reg, b2, 2);
        let ghost r1 = color_round(ver, r2.0, r2.1, b1, 1);
        let ghost r0 = color_round(ver, r1.0, r1.1, b0, 0);
        let mut chan: i32 = 2;
        while chan >= 0
            invariant
                self.wf(),
                self.same_header(&q0),
                self.spec_w() == w,
                self.spec_ver() == ver,
                w == ver.spec_width(),
                reg == region(ver),
                reg.len() > 0,
                forall|j: int| 0 <= j < reg.len() ==> 0 <= #[trigger] reg[j].0 < w && 0 <= reg[j].1 < w,
                coords.wf(),
                coords.spec_ver() == ver,
                coords.spec_w() == w,
                payload.wf(),
                has_writable(self.spec_grid(), w, reg),
                chan_bit_cap == cap,
                -1 <= chan <= 2,
                chan == 2 ==> self.spec_grid() == g0 && coords.rest() == reg && payload.unread()
                    == bits,
                chan == 1 ==> (self.spec_grid(), coords.rest()) == r2 && payload.unread() == bits1,
                chan == 0 ==> (self.spec_grid(), coords.rest()) == r1 && payload.unread() == bits0,
                chan == -1 ==> self.spec_grid() == r0.0,
                b2 == take_at_most(bits, cap),
                bits1 == bits.skip(b2.len() as int),
                b1 == take_at_most(bits1, cap),
                bits0 == bits1.skip(b1.len() as int),
                b0 == take_at_most(bits0, cap),
                r2 == color_round(ver, g0, reg, b2, 2),
                r1 == color_round(ver, r2.0, r2.1, b1, 1),
                r0 == color_round(ver, r1.0, r1.1, b0, 0),
            decreases chan + 1,
        {
            let ghost gs = self.spec_grid();
            let ghost rs = coords.rest();
            let ghost us = payload.unread();
            let ghost cb = take_at_most(us, cap);
            let ghost target = place_color(gs, w, rs, reg, cb, chan as int);
            proof {
                assert(us.skip(0) =~= us);
            }
            let mut taken: usize = 0;
            while taken < chan_bit_cap
                invariant_except_break
                    place_color(
                        self.spec_grid(),
                        w,
                        coords.rest(),
                        reg,
                        take_at_most(payload.unread(), cap - taken),
                        chan as int,
                    ) == target,
                    payload.unread() == us.skip(taken as int),
                    taken <= us.len(),
                invariant
                    self.wf(),
                    self.same_header(&q0),
                    self.spec_w() == w,
                    self.spec_ver() == ver,
                    reg == region(ver),
                    reg.len() > 0,
                    forall|j: int| 0 <= j < reg.len() ==> 0 <= #[trigger] reg[j].0 < w && 0 <= reg[j].1 < w,
                    coords.wf(),
                    coords.spec_ver() == ver,
                    coords.spec_w() == w,
                    payload.wf(),
                    has_writable(self.spec_grid(), w, reg),
                    0 <= chan <= 2,
                    chan_bit_cap == cap,
                    taken <= cap,
                    cb == take_at_most(us, cap),
                ensures
                    (self.spec_grid(), coords.rest()) == target,
                    payload.unread() == us.skip(cb.len() as int),
                decreases cap - taken,
            {
                let ghost before = payload.unread();
                let ghost pbits = payload.bits();
                let bit = match payload.take_bit() {
                    Some(b) => b,
                    None => {
                        proof {
                            assert(take_at_most(before, cap - taken).len() == 0);
                            assert(taken == us.len());
                            assert(cap > us.len());
                            assert(cb == us);
                        }
                        break;
                    },
                };
                let ghost tail = take_at_most(before, cap - taken);
                proof {
                    assert(pbits == payload.bits());
                    assert(before =~= seq![bit] + payload.unread());
                    assert(tail.len() > 0);
                    assert(tail[0] == bit);
                    if cap - taken <= before.len() {
                        assert(tail =~= before.take(cap - taken));
                        assert(tail.drop_first() =~= payload.unread().take(cap - taken - 1));
                    } else {
                        assert(tail == before);
                        assert(tail.drop_first() =~= payload.unread());
                    }
                    assert(tail.drop_first() =~= take_at_most(payload.unread(), cap - taken - 1));
                    assert(payload.unread() =~= before.drop_first());
                    assert(before.drop_first() =~= us.skip(taken + 1));
                }
                loop
                    invariant_except_break
                        place_color(self.spec_grid(), w, coords.rest(), reg, tail, chan as int)
                            == target,
                    invariant
                        self.wf(),
                        self.same_header(&q0),
                        self.spec_w() == w,
                        self.spec_ver() == ver,
                        reg == region(ver),
                        reg.len() > 0,
                        forall|j: int| 0 <= j < reg.len() ==> 0 <= #[trigger] reg[j].0 < w && 0 <= reg[j].1 < w,
                        coords.wf(),
                        coords.spec_ver() == ver,
                        coords.spec_w() == w,
                        has_writable(self.spec_grid(), w, reg),
                        0 <= chan <= 2,
                        tail.len() > 0,
                        tail[0] == bit,
                    ensures
                        place_color(
                            self.spec_grid(),
                            w,
                            coords.rest(),
                            reg,
                            tail.drop_first(),
                            chan as int,
                        ) == target,
                    decreases first_writable(self.spec_grid(), w, coords.rest() + reg),
                {
                    let ghost g1 = self.spec_grid();
                    let ghost rest1 = coords.rest();
                    proof {
                        lemma_place_color_step(g1, w, rest1, reg, tail, chan as int);
                        lemma_first_writable_bound(g1, w, reg);
                        lemma_first_writable_concat(g1, w, rest1, reg);
                    }
                    let (r, c) = self.cycle_next(&mut coords);
                    proof {
                        lemma_first_writable_concat(g1, w, coords.rest(), reg);
                        lemma_first_writable_bound(g1, w, coords.rest() + reg);
                        assert((rest1 + reg)[0] == (r, c));
                    }
                    match self.get(r, c) {
                        Module::Empty => {
                            let clr = if bit {
                                Color::Black
                            } else {
                                Color::Red
                            };
                            self.set(r, c, Module::Data(clr));
                            proof {
                                lemma_cell_in_range(w, r as int, c as int);
                                lemma_has_writable_update(g1, w, reg, r * w + c, Module::Data(clr));
                            }
                            break;
                        },
                        Module::Data(clr) => {
                            let mut byte = clr.bits();
                            if !bit {
                                let cbit: u8 = if chan == 2 {
                                    4
                                } else if chan == 1 {
                                    2
                                } else {
                                    1
                                };
                                byte = byte | cbit;
                            }
                            let nclr = Color::from_bits(byte);
                            self.set(r, c, Module::Data(nclr));
                            proof {
                                lemma_cell_in_range(w, r as int, c as int);
                                lemma_has_writable_update(g1, w, reg, r * w + c, Module::Data(nclr));
                            }
                            break;
                        },
                        _ => {},
                    }
                }
                taken += 1;
            }
            let ghost gp = self.spec_grid();
            let ghost rp = coords.rest();
            self.fill_remainder_cycle(&mut coords);
            proof {
                assert(color_round(ver, gs, rs, cb, chan as int) == (
                self.spec_grid(),
                coords.rest(),
                ));
                if chan == 2 {
                    assert(cb == b2);
                    assert(payload.unread() == bits1);
                } else if chan == 1 {
                    assert(cb == b1);
                    assert(payload.unread() == bits0);
                } else {
                    assert(cb == b0);
                }
            }
            chan -= 1;
        }
    }

    /// Turns the empty modules among the next remainder-bit positions of the cycling walk
    /// into light data modules.
    fn fill_remainder_cycle(&mut self, coords: &mut EncRegionIter)
        requires
            old(self).wf(),
            old(coords).wf(),
            old(coords).spec_ver() == old(self).spec_ver(),
            old(coords).spec_w() == old(self).spec_w(),
            region(old(self).spec_ver()).len() > 0,
            has_writable(old(self).spec_grid(), old(self).spec_w(), region(old(self).spec_ver())),
        ensures
            final(self).wf(),
            final(self).same_header(old(self)),
            final(coords).wf(),
            final(coords).spec_ver() == old(coords).spec_ver(),
            final(coords).spec_w() == old(coords).spec_w(),
            has_writable(final(self).spec_grid(), old(self).spec_w(), region(old(self).spec_ver())),
            (final(self).spec_grid(), final(coords).rest()) == fill_cycle(
                old(self).spec_grid(),
                old(self).spec_w(),
                old(coords).rest(),
                region(old(self).spec_ver()),
                old(self).spec_ver().spec_remainder_bits(),
            ),
    {
        let ghost w = self.spec_w();
        let ghost ver = self.spec_ver();
        let ghost reg = region(ver);
        let ghost q0 = *self;
        let ghost target = fill_cycle(
            self.spec_grid(),
            w,
            coords.rest(),
            reg,
            ver.spec_remainder_bits(),
        );
        proof {
            crate::iter::lemma_region(ver);
        }
        let n = self.ver.remainder_bits();
        let mut i: usize = 0;
        while i < n
            invariant
                self.wf(),
                self.same_header(&q0),
                self.spec_w() == w,
                self.spec_ver() == ver,
                reg == region(ver),
                reg.len() > 0,
                forall|j: int| 0 <= j < reg.len() ==> 0 <= #[trigger] reg[j].0 < w && 0 <= reg[j].1 < w,
                coords.wf(),
                coords.spec_ver() == ver,
                coords.spec_w() == w,
                has_writable(self.spec_grid(), w, reg),
                n == ver.spec_remainder_bits(),
                i <= n,
                fill_cycle(self.spec_grid(), w, coords.rest(), reg, (n - i) as nat) == target,
            decreases n - i,
        {
            let ghost g1 = self.spec_grid();
            let (r, c) = self.cycle_next(coords);
            if self.get(r, c) == Module::Empty {
                self.set(r, c, Module::Data(Color::White));
                proof {
                    lemma_cell_in_range(w, r as int, c as int);
                    lemma_has_writable_update(g1, w, reg, r * w + c, Module::Data(Color::White));
                }
            }
            i += 1;
        }
    }
}

// Encoding region as a whole
//------------------------------------------------------------------------------
/// The grid `g` with the format area reserved and the version information drawn.
pub open spec fn info_grid(ver: Version, w: int, hi_cap: bool, g: Seq<Module>) -> Seq<Module> {
    Seq::new(
        g.len(),
        |i: int|
            match version_cell(ver, w, version_info(ver), i / w, i % w) {
                Some(m) => m,
                None => match format_cell(w, hi_cap, 0x7fff, i / w, i % w) {
                    Some(m) => m,
                    None => g[i],
                },
            },
    )
}

/// Two grids of width `w` that agree cell by cell are equal.
pub proof fn lemma_grid_ext(g1: Seq<Module>, g2: Seq<Module>, w: int)
    requires
        w > 0,
        g1.len() == w * w,
        g2.len() == w * w,
        forall|r: int, c: int| 0 <= r < w && 0 <= c < w ==> #[trigger] cell(g1, w, r, c) == cell(g2, w, r, c),
    ensures
        g1 == g2,
{
    assert forall|i: int| 0 <= i < g1.len() implies g1[i] == g2[i] by {
        let r = i / w;
        let c = i % w;
        vstd::arithmetic::div_mod::lemma_fundamental_div_mod(i, w);
        assert(0 <= r < w) by (nonlinear_arith)
            requires
                0 <= i < w * w,
                r == i / w,
                w > 0,
        ;
        assert(r * w + c == i) by (nonlinear_arith)
            requires
                i == w * (i / w) + i % w,
                r == i / w,
                c == i % w,
        ;
        assert(cell(g1, w, r, c) == cell(g2, w, r, c));
    }
    assert(g1 =~= g2);
}

/// Cell `(r, c)` of a grid built index by index is what the index gives.
pub proof fn lemma_cell_div_mod(w: int, r: int, c: int)
    requires
        0 <= r < w,
        0 <= c < w,
    ensures
        (r * w + c) / w == r,
        (r * w + c) % w == c,
{
    vstd::arithmetic::div_mod::lemma_fundamental_div_mod_converse(r * w + c, w, r, c);
}

impl QR {
    /// Reserves the format area, draws the version information and places the payload:
    /// one channel for an ordinary symbol, three for a high capacity one.
    pub fn draw_encoding_region(&mut self, payload: BitStream)
        requires
            old(self).wf(),
            old(self).spec_ver() is Normal,
            payload.wf(),
            old(self).spec_hi_cap() ==> payload.spec_len() / 8 == 3
                * old(self).spec_ver().spec_channel_codewords(),
            old(self).spec_hi_cap() ==> has_writable(
                info_grid(
                    old(self).spec_ver(),
                    old(self).spec_w(),
                    true,
                    old(self).spec_grid(),
                ),
                old(self).spec_w(),
                region(old(self).spec_ver()),
            ),
        ensures
            final(self).wf(),
            final(self).same_header(old(self)),
            final(self).spec_grid() == if old(self).spec_hi_cap() {
                color_payload_grid(
                    old(self).spec_ver(),
                    info_grid(
                        old(self).spec_ver(),
                        old(self).spec_w(),
                        true,
                        old(self).spec_grid(),
                    ),
                    payload.unread(),
                )
            } else {
                mono_payload_grid(
                    old(self).spec_ver(),
                    info_grid(
                        old(self).spec_ver(),
                        old(self).spec_w(),
                        false,
                        old(self).spec_grid(),
                    ),
                    payload.unread(),
                )
            },
    {
        let ghost w = self.spec_w();
        let ghost g0 = self.spec_grid();
        let ghost ver = self.spec_ver();
        self.reserve_format_area();
        let ghost g1 = self.spec_grid();
        self.draw_version_info();
        proof {
            let ig = info_grid(ver, w, self.spec_hi_cap(), g0);
            assert forall|r: int, c: int| 0 <= r < w && 0 <= c < w implies #[trigger] cell(
                self.spec_grid(),
                w,
                r,
                c,
            ) == cell(ig, w, r, c) by {
                lemma_cell_div_mod(w, r, c);
                lemma_cell_in_range(w, r, c);
                assert(cell(g1, w, r, c) == cell(g1, w, r, c));
            }
            lemma_grid_ext(self.spec_grid(), ig, w);
        }
        if self.hi_cap {
            self.draw_color_payload(payload);
        } else {
            self.draw_payload(payload);
        }
    }
}

// Masking
//------------------------------------------------------------------------------
/// The five data bits of the format information for level `ecl` and mask pattern `pattern`.
pub open spec fn format_code(ecl: ECLevel, pattern: nat) -> int {
    (if ecl.ord() % 2 == 0 {
        ecl.ord() + 1
    } else {
        ecl.ord() - 1
    }) * 8 + pattern
}

/// What masking with pattern number `pattern` makes of module `m` at `(r, c)`: a data
/// module where the pattern's condition holds takes the complementary colour.
pub open spec fn masked_module(m: Module, pattern: nat, r: int, c: int) -> Module {
    match m {
        Module::Data(clr) => if mask_condition(pattern, r, c) {
            Module::Data(color_of_bits((7 - clr.rgb()) as u8))
        } else {
            m
        },
        _ => m,
    }
}

/// The module at `(r, c)` once `m` is masked with `pattern` and the format information
/// for `ecl` and `pattern` is drawn.
pub open spec fn mask_result(
    w: int,
    hi_cap: bool,
    ecl: ECLevel,
    pattern: nat,
    r: int,
    c: int,
    m: Module,
) -> Module {
    match format_cell(w, hi_cap, FORMAT_INFOS_QR[format_code(ecl, pattern)], r, c) {
        Some(f) => f,
        None => masked_module(m, pattern, r, c),
    }
}

/// The grid `g` masked with `pattern`, with the matching format information drawn.
pub open spec fn masked_grid(
    g: Seq<Module>,
    w: int,
    hi_cap: bool,
    ecl: ECLevel,
    pattern: nat,
) -> Seq<Module> {
    Seq::new(g.len(), |i: int| mask_result(w, hi_cap, ecl, pattern, i / w, i % w, g[i]))
}

/// Masking a module twice with the same pattern gives it back: a data module's colour is
/// complemented twice or not at all, and other modules are left alone.
pub proof fn lemma_mask_module_twice(m: Module, pattern: nat, r: int, c: int)
    ensures
        masked_module(masked_module(m, pattern, r, c), pattern, r, c) == m,
{
    if let Module::Data(clr) = m {
        assert(color_of_bits((7 - color_of_bits((7 - clr.rgb()) as u8).rgb()) as u8) == clr);
    }
}

/// Masking a grid twice with the same pattern restores its data modules; the format
/// information is drawn either way.
pub proof fn lemma_mask_grid_twice(g: Seq<Module>, w: int, hi_cap: bool, ecl: ECLevel, pattern: nat)
    requires
        w > 0,
    ensures
        masked_grid(masked_grid(g, w, hi_cap, ecl, pattern), w, hi_cap, ecl, pattern) == Seq::new(
            g.len(),
            |i: int|
                match format_cell(
                    w,
                    hi_cap,
                    FORMAT_INFOS_QR[format_code(ecl, pattern)],
                    i / w,
                    i % w,
                ) {
                    Some(f) => f,
                    None => g[i],
                },
        ),
{
    let m1 = masked_grid(g, w, hi_cap, ecl, pattern);
    let m2 = masked_grid(m1, w, hi_cap, ecl, pattern);
    let target = Seq::new(
        g.len(),
        |i: int|
            match format_cell(w, hi_cap, FORMAT_INFOS_QR[format_code(ecl, pattern)], i / w, i % w) {
                Some(f) => f,
                None => g[i],
            },
    );
    assert forall|i: int| 0 <= i < g.len() implies #[trigger] m2[i] == target[i] by {
        lemma_mask_module_twice(g[i], pattern, i / w, i % w);
    }
    assert(m2 =~= target);
}

/// Applying the same mask to a symbol twice gives back every module outside the format
/// information: `q1` is `q0` masked with `pattern`, as `apply_mask` leaves it, and `q2` is
/// `q1` masked again.
pub proof fn lemma_apply_mask_twice(q0: QR, q1: QR, q2: QR, pattern: MaskingPattern)
    requires
        q0.wf(),
        q1.spec_w() == q0.spec_w(),
        q1.spec_hi_cap() == q0.spec_hi_cap(),
        q1.spec_ecl() == q0.spec_ecl(),
        q2.spec_w() == q0.spec_w(),
        q1.spec_grid() == masked_grid(
            q0.spec_grid(),
            q0.spec_w(),
            q0.spec_hi_cap(),
            q0.spec_ecl(),
            pattern.spec_value(),
        ),
        q2.spec_grid() == masked_grid(
            q1.spec_grid(),
            q1.spec_w(),
            q1.spec_hi_cap(),
            q1.spec_ecl(),
            pattern.spec_value(),
        ),
    ensures
        forall|r: int, c: int|
            0 <= r < q0.spec_w() && 0 <= c < q0.spec_w() && format_cell(
                q0.spec_w(),
                q0.spec_hi_cap(),
                FORMAT_INFOS_QR[format_code(q0.spec_ecl(), pattern.spec_value())],
                r,
                c,
            ) is None ==> #[trigger] q2.module_at(r, c) == q0.module_at(r, c),
{
    let w = q0.spec_w();
    let g = q0.spec_grid();
    lemma_mask_grid_twice(g, w, q0.spec_hi_cap(), q0.spec_ecl(), pattern.spec_value());
    assert forall|r: int, c: int|
        0 <= r < w && 0 <= c < w && format_cell(
            w,
            q0.spec_hi_cap(),
            FORMAT_INFOS_QR[format_code(q0.spec_ecl(), pattern.spec_value())],
            r,
            c,
        ) is None implies #[trigger] q2.module_at(r, c) == q0.module_at(r, c) by {
        lemma_cell_div_mod(w, r, c);
        assert(0 <= r * w + c < w * w) by (nonlinear_arith)
            requires
                0 <= r < w,
                0 <= c < w,
        ;
    }
}

impl QR {
    /// Masks the data modules with `pattern` and draws the matching format information.
    pub fn apply_mask(&mut self, pattern: MaskingPattern)
        requires
            old(self).wf(),
            old(self).spec_ver() is Normal,
        ensures
            final(self).wf(),
            final(self).spec_w() == old(self).spec_w(),
            final(self).spec_ver() == old(self).spec_ver(),
            final(self).spec_ecl() == old(self).spec_ecl(),
            final(self).spec_hi_cap() == old(self).spec_hi_cap(),
            final(self).spec_mask() == Some(pattern),
            pattern.spec_value() < 8,
            forall|r: int, c: int|
                0 <= r < old(self).spec_w() && 0 <= c < old(self).spec_w()
                    ==> #[trigger] final(self).module_at(r, c) == mask_result(
                    old(self).spec_w(),
                    old(self).spec_hi_cap(),
                    old(self).spec_ecl(),
                    pattern.spec_value(),
                    r,
                    c,
                    old(self).module_at(r, c),
                ),
            final(self).spec_grid() == masked_grid(
                old(self).spec_grid(),
                old(self).spec_w(),
                old(self).spec_hi_cap(),
                old(self).spec_ecl(),
                pattern.spec_value(),
            ),
    {
        let ghost g0 = self.spec_grid();
        let ghost w = self.spec_w();
        self.mask = Some(pattern);
        let ghost q0 = *self;
        let wi = self.w as i32;
        let mut r: i32 = 0;
        while r < wi
            invariant
                self.wf(),
                self.same_header(&q0),
                self.spec_w() == w,
                wi == w,
                w <= 177,
                0 <= r <= wi,
                g0.len() == self.spec_grid().len(),
                forall|rr: int, cc: int|
                    0 <= rr < w && 0 <= cc < w ==> #[trigger] self.module_at(rr, cc) == if rr < r {
                        masked_module(cell(g0, w, rr, cc), pattern.spec_value(), rr, cc)
                    } else {
                        cell(g0, w, rr, cc)
                    },
            decreases wi - r,
        {
            let mut c: i32 = 0;
            while c < wi
                invariant
                    self.wf(),
                    self.same_header(&q0),
                    self.spec_w() == w,
                    wi == w,
                    w <= 177,
                    0 <= r < wi,
                    0 <= c <= wi,
                    g0.len() == self.spec_grid().len(),
                    forall|rr: int, cc: int|
                        0 <= rr < w && 0 <= cc < w ==> #[trigger] self.module_at(rr, cc) == if rr < r
                            || (rr == r && cc < c) {
                            masked_module(cell(g0, w, rr, cc), pattern.spec_value(), rr, cc)
                        } else {
                            cell(g0, w, rr, cc)
                        },
                decreases wi - c,
            {
                if pattern.get_mask_functions(r, c) {
                    if let Module::Data(clr) = self.get(r, c) {
                        self.set(r, c, Module::Data(clr.invert()));
                    }
                }
                c += 1;
            }
            r += 1;
        }
        let ghost g1 = self.spec_grid();
        let format_info = generate_format_info_qr(self.ecl, pattern);
        self.draw_format_info(format_info);
        proof {
            assert forall|rr: int, cc: int| 0 <= rr < w && 0 <= cc < w implies #[trigger] self.module_at(
                rr,
                cc,
            ) == mask_result(w, self.spec_hi_cap(), self.spec_ecl(), pattern.spec_value(), rr, cc, cell(g0, w, rr, cc)) by {
                assert(cell(g1, w, rr, cc) == cell(g1, w, rr, cc));
            }
            let mg = masked_grid(g0, w, self.spec_hi_cap(), self.spec_ecl(), pattern.spec_value());
            assert forall|rr: int, cc: int| 0 <= rr < w && 0 <= cc < w implies #[trigger] cell(
                self.spec_grid(),
                w,
                rr,
                cc,
            ) == cell(mg, w, rr, cc) by {
                lemma_cell_div_mod(w, rr, cc);
                lemma_cell_in_range(w, rr, cc);
            }
            lemma_grid_ext(self.spec_grid(), mg, w);
        }
    }
}

impl QR {
    /// A copy of the symbol.
    pub fn duplicate(&self) -> (r: QR)
        ensures
            r.spec_grid() == self.spec_grid(),
            r.same_header(self),
    {
        let mut grid: Vec<Module> = Vec::new();
        let mut i: usize = 0;
        while i < self.grid.len()
            invariant
                i <= self.grid@.len(),
                grid@ == self.grid@.take(i as int),
            decreases self.grid@.len() - i,
        {
            grid.push(self.grid[i]);
            i += 1;
            proof {
                assert(grid@ =~= self.grid@.take(i as int));
            }
        }
        proof {
            assert(grid@ =~= self.grid@);
        }
        QR { grid, w: self.w, ver: self.ver, ecl: self.ecl, hi_cap: self.hi_cap, mask: self.mask }
    }
}

/// The grid of `ver` before masking: function patterns drawn on an empty grid, the format
/// area reserved, the version information drawn and the payload `bits` placed.
pub open spec fn unmasked_grid(ver: Version, hi_cap: bool, bits: Seq<bool>) -> Seq<Module> {
    let w = ver.spec_width();
    let g = Seq::new((w * w) as nat, |i: int| function_module(ver, w, i / w, i % w, Module::Empty));
    let g2 = info_grid(ver, w, hi_cap, g);
    if hi_cap {
        color_payload_grid(ver, g2, bits)
    } else {
        mono_payload_grid(ver, g2, bits)
    }
}

/// The grid of a new symbol with its function patterns drawn.
pub open spec fn function_grid(ver: Version) -> Seq<Module> {
    let w = ver.spec_width();
    Seq::new((w * w) as nat, |i: int| function_module(ver, w, i / w, i % w, Module::Empty))
}

/// The bottom right module, where placement starts, is free of function patterns and of
/// format and version information, so a colour payload always finds room.
pub proof fn lemma_region_start_writable(ver: Version)
    requires
        ver.valid(),
        ver is Normal,
    ensures
        has_writable(
            info_grid(ver, ver.spec_width(), true, function_grid(ver)),
            ver.spec_width(),
            region(ver),
        ),
{
    let w = ver.spec_width();
    let g = function_grid(ver);
    let ig = info_grid(ver, w, true, g);
    let p = ver.spec_alignment_pattern();
    lemma_alignment_positions(ver);
    lemma_format_coords(w);
    crate::iter::lemma_region(ver);
    let rg = region(ver);
    assert(rg[0] == ((w - 1) as i32, (w - 1) as i32));
    lemma_cell_div_mod(w, w - 1, w - 1);
    lemma_cell_in_range(w, w - 1, w - 1);
    let i = (w - 1) * w + (w - 1);
    if near(p, w - 1) {
        let k = near_index(p, w - 1);
        assert(p[k] <= w - 7);
    }
    assert(!on_coords(FORMAT_INFO_COORDS_QR_SIDE@, w, w - 1, w - 1)) by {
        if on_coords(FORMAT_INFO_COORDS_QR_SIDE@, w, w - 1, w - 1) {
            let k = coords_index(FORMAT_INFO_COORDS_QR_SIDE@, w, w - 1, w - 1);
            assert(FORMAT_INFO_COORDS_QR_SIDE@[k].0 == 8 || FORMAT_INFO_COORDS_QR_SIDE@[k].1 == 8);
        }
    }
    assert(!on_coords(FORMAT_INFO_COORDS_QR_MAIN@, w, w - 1, w - 1)) by {
        if on_coords(FORMAT_INFO_COORDS_QR_MAIN@, w, w - 1, w - 1) {
            let k = coords_index(FORMAT_INFO_COORDS_QR_MAIN@, w, w - 1, w - 1);
            assert(0 <= FORMAT_INFO_COORDS_QR_MAIN@[k].0 <= 8);
        }
    }
    if ver matches Version::Normal(v) && v >= 7 {
        lemma_version_coords(w);
        assert(!on_coords(VERSION_INFO_COORDS_TR@, w, w - 1, w - 1)) by {
            if on_coords(VERSION_INFO_COORDS_TR@, w, w - 1, w - 1) {
                let k = coords_index(VERSION_INFO_COORDS_TR@, w, w - 1, w - 1);
                assert(0 <= VERSION_INFO_COORDS_TR@[k].1 <= 5);
            }
        }
        assert(!on_coords(VERSION_INFO_COORDS_BL@, w, w - 1, w - 1)) by {
            if on_coords(VERSION_INFO_COORDS_BL@, w, w - 1, w - 1) {
                let k = coords_index(VERSION_INFO_COORDS_BL@, w, w - 1, w - 1);
                assert(0 <= VERSION_INFO_COORDS_BL@[k].0 <= 5);
            }
        }
    }
    assert(ig[i] == Module::Empty);
    assert(writable(cell(ig, w, rg[0].0 as int, rg[0].1 as int)));
}

// Debug text
//------------------------------------------------------------------------------
/// The character that stands for a module in the debug text: `.` for empty, a letter for the
/// kind of module, lower case when black and upper case otherwise.
pub open spec fn debug_char(m: Module) -> char {
    match m {
        Module::Empty => '.',
        Module::Func(c) => if c == Color::Black {
            'f'
        } else {
            'F'
        },
        Module::Version(c) => if c == Color::Black {
            'v'
        } else {
            'V'
        },
        Module::Format(c) => if c == Color::Black {
            'm'
        } else {
            'M'
        },
        Module::Data(c) => if c == Color::Black {
            'd'
        } else {
            'D'
        },
    }
}

/// Row `r` of the debug text, with its line break.
pub open spec fn debug_row(g: Seq<Module>, w: int, r: int) -> Seq<char> {
    Seq::new(w as nat, |c: int| debug_char(cell(g, w, r, c))) + seq!['\n']
}

/// The debug text of the first `n` rows: a line break, then one line per row.
pub open spec fn debug_text(g: Seq<Module>, w: int, n: int) -> Seq<char>
    decreases n,
{
    if n <= 0 {
        seq!['\n']
    } else {
        debug_text(g, w, n - 1) + debug_row(g, w, n - 1)
    }
}

/// The one-character text for module `m`.
fn debug_str(m: Module) -> (s: &'static str)
    ensures
        s@ == seq![debug_char(m)],
{
    proof {
        reveal_strlit(".");
        reveal_strlit("f");
        reveal_strlit("F");
        reveal_strlit("v");
        reveal_strlit("V");
        reveal_strlit("m");
        reveal_strlit("M");
        reveal_strlit("d");
        reveal_strlit("D");
    }
    match m {
        Module::Empty => ".",
        Module::Func(Color::Black) => "f",
        Module::Func(_) => "F",
        Module::Version(Color::Black) => "v",
        Module::Version(_) => "V",
        Module::Format(Color::Black) => "m",
        Module::Format(_) => "M",
        Module::Data(Color::Black) => "d",
        Module::Data(_) => "D",
    }
}

impl QR {
    /// The grid as text, one line per row after a leading line break.
    pub fn to_debug_str(&self) -> (r: String)
        requires
            self.wf(),
        ensures
            r@ == debug_text(self.spec_grid(), self.spec_w(), self.spec_w()),
    {
        let ghost g = self.spec_grid();
        let ghost wg = self.spec_w();
        let w = self.w as i32;
        let mut res = String::new();
        proof {
            reveal_strlit("\n");
        }
        res.append("\n");
        let mut i: i32 = 0;
        while i < w
            invariant
                self.wf(),
                g == self.spec_grid(),
                wg == self.spec_w(),
                w == wg,
                w <= 177,
                0 <= i <= w,
                res@ == debug_text(g, wg, i as int),
            decreases w - i,
        {
            let ghost before = res@;
            let mut j: i32 = 0;
            while j < w
                invariant
                    self.wf(),
                    g == self.spec_grid(),
                    wg == self.spec_w(),
                    w == wg,
                    w <= 177,
                    0 <= i < w,
                    0 <= j <= w,
                    res@ == before + Seq::new(j as nat, |c: int| debug_char(cell(g, wg, i as int, c))),
                decreases w - j,
            {
                let m = self.get(i, j);
                res.append(debug_str(m));
                proof {
                    assert(res@ =~= before + Seq::new((j + 1) as nat, |c: int| debug_char(cell(g, wg, i as int, c))));
                }
                j += 1;
            }
            proof {
                reveal_strlit("\n");
            }
            res.append("\n");
            proof {
                assert(res@ =~= debug_text(g, wg, i + 1));
            }
            i += 1;
        }
        res
    }
}

} // verus!
