//! Mask patterns.
use crate::builder::qr::{cell, dark_count, masked_grid, Module, QR};
use crate::metadata::Color;
use vstd::prelude::*;

verus! {

/// One of the eight mask patterns.
#[derive(Debug, PartialEq, Eq, Copy, Clone, PartialOrd, Ord, Structural)]
pub struct MaskingPattern(u8);

impl MaskingPattern {
    #[verifier::type_invariant]
    spec fn inv(self) -> bool {
        self.0 < 8
    }

    /// The pattern number, 0 to 7.
    pub closed spec fn spec_value(self) -> nat {
        self.0 as nat
    }

    pub fn new(pattern: u8) -> (r: Self)
        requires
            pattern < 8,
        ensures
            r.spec_value() == pattern,
    {
        MaskingPattern(pattern)
    }

    pub fn value(self) -> (r: u8)
        ensures
            r == self.spec_value(),
            r < 8,
    {
        proof {
            use_type_invariant(&self);
        }
        self.0
    }
}

/// The eight mask conditions of the standard, on row `r` and column `c`: a module is
/// inverted where its pattern's condition holds.
pub open spec fn mask_condition(pattern: nat, r: int, c: int) -> bool {
    if pattern == 0 {
        (r + c) % 2 == 0
    } else if pattern == 1 {
        r % 2 == 0
    } else if pattern == 2 {
        c % 3 == 0
    } else if pattern == 3 {
        (r + c) % 3 == 0
    } else if pattern == 4 {
        (r / 2 + c / 3) % 2 == 0
    } else if pattern == 5 {
        (r * c) % 2 + (r * c) % 3 == 0
    } else if pattern == 6 {
        ((r * c) % 2 + (r * c) % 3) % 2 == 0
    } else {
        ((r + c) % 2 + (r * c) % 3) % 2 == 0
    }
}

/// Coordinates the mask conditions take: those of a grid, as far as their products fit.
pub open spec fn mask_coords(r: i32, c: i32) -> bool {
    0 <= r <= 32767 && 0 <= c <= 32767
}

proof fn lemma_mask_product(r: i32, c: i32)
    requires
        mask_coords(r, c),
    ensures
        0 <= r * c <= 32767 * 32767,
{
    assert(0 <= r * c <= 32767 * 32767) by (nonlinear_arith)
        requires
            0 <= r <= 32767,
            0 <= c <= 32767,
    ;
}

/// Pattern 0.
pub fn checkerboard(r: i32, c: i32) -> (b: bool)
    requires
        mask_coords(r, c),
    ensures
        b == mask_condition(0, r as int, c as int),
{
    (r + c) % 2 == 0
}

/// Pattern 1.
pub fn horizontal_lines(r: i32, c: i32) -> (b: bool)
    requires
        mask_coords(r, c),
    ensures
        b == mask_condition(1, r as int, c as int),
{
    r % 2 == 0
}

/// Pattern 2.
pub fn vertical_lines(r: i32, c: i32) -> (b: bool)
    requires
        mask_coords(r, c),
    ensures
        b == mask_condition(2, r as int, c as int),
{
    c % 3 == 0
}

/// Pattern 3.
pub fn diagonal_lines(r: i32, c: i32) -> (b: bool)
    requires
        mask_coords(r, c),
    ensures
        b == mask_condition(3, r as int, c as int),
{
    (r + c) % 3 == 0
}

/// Pattern 4.
pub fn large_checkerboard(r: i32, c: i32) -> (b: bool)
    requires
        mask_coords(r, c),
    ensures
        b == mask_condition(4, r as int, c as int),
{
    (r / 2 + c / 3) % 2 == 0
}

/// Pattern 5.
pub fn fields(r: i32, c: i32) -> (b: bool)
    requires
        mask_coords(r, c),
    ensures
        b == mask_condition(5, r as int, c as int),
{
    proof {
        lemma_mask_product(r, c);
    }
    (r * c) % 2 + (r * c) % 3 == 0
}

/// Pattern 6.
pub fn diamonds(r: i32, c: i32) -> (b: bool)
    requires
        mask_coords(r, c),
    ensures
        b == mask_condition(6, r as int, c as int),
{
    proof {
        lemma_mask_product(r, c);
    }
    ((r * c) % 2 + (r * c) % 3) % 2 == 0
}

/// Pattern 7.
pub fn meadow(r: i32, c: i32) -> (b: bool)
    requires
        mask_coords(r, c),
    ensures
        b == mask_condition(7, r as int, c as int),
{
    proof {
        lemma_mask_product(r, c);
    }
    ((r + c) % 2 + (r * c) % 3) % 2 == 0
}

impl MaskingPattern {
    /// Evaluates this pattern's mask condition at `(r, c)`.
    pub fn get_mask_functions(self, r: i32, c: i32) -> (b: bool)
        requires
            mask_coords(r, c),
        ensures
            b == mask_condition(self.spec_value(), r as int, c as int),
    {
        match self.value() {
            0 => checkerboard(r, c),
            1 => horizontal_lines(r, c),
            2 => vertical_lines(r, c),
            3 => diagonal_lines(r, c),
            4 => large_checkerboard(r, c),
            5 => fields(r, c),
            6 => diamonds(r, c),
            _ => meadow(r, c),
        }
    }
}

// Penalties
//------------------------------------------------------------------------------
/// Colour of the `k`-th module of line `i` of the grid: row `i` when `horizontal`,
/// column `i` otherwise.
pub open spec fn line_color(g: Seq<Module>, w: int, i: int, k: int, horizontal: bool) -> Color {
    if horizontal {
        cell(g, w, i, k).spec_color()
    } else {
        cell(g, w, k, i).spec_color()
    }
}

/// Length of the run of equal colours that ends at module `k` of line `i`.
pub open spec fn run_len(g: Seq<Module>, w: int, i: int, k: int, horizontal: bool) -> int
    decreases k,
{
    if k <= 0 {
        1
    } else if line_color(g, w, i, k, horizontal) == line_color(g, w, i, k - 1, horizontal) {
        run_len(g, w, i, k - 1, horizontal) + 1
    } else {
        1
    }
}

/// Adjacency penalty of the first `n` modules of line `i`: every module that makes its run
/// five or longer adds the run's length so far, less two.
pub open spec fn line_penalty(g: Seq<Module>, w: int, i: int, n: int, horizontal: bool) -> int
    decreases n,
{
    if n <= 0 {
        0
    } else {
        line_penalty(g, w, i, n - 1, horizontal) + if run_len(g, w, i, n - 1, horizontal) >= 5 {
            run_len(g, w, i, n - 1, horizontal) - 2
        } else {
            0
        }
    }
}

/// Adjacency penalty of the first `n` lines.
pub open spec fn lines_penalty(g: Seq<Module>, w: int, n: int, horizontal: bool) -> int
    decreases n,
{
    if n <= 0 {
        0
    } else {
        lines_penalty(g, w, n - 1, horizontal) + line_penalty(g, w, n - 1, w, horizontal)
    }
}

/// Adjacency penalty of the grid: every row and every column.
pub open spec fn adjacent_penalty(g: Seq<Module>, w: int) -> int {
    lines_penalty(g, w, w, true) + lines_penalty(g, w, w, false)
}

/// The 2x2 square with top left corner `(r, c)` is of one colour.
pub open spec fn same_square(g: Seq<Module>, w: int, r: int, c: int) -> bool {
    let clr = cell(g, w, r, c).spec_color();
    &&& clr == cell(g, w, r + 1, c).spec_color()
    &&& clr == cell(g, w, r, c + 1).spec_color()
    &&& clr == cell(g, w, r + 1, c + 1).spec_color()
}

/// One-colour 2x2 squares with their corner in row `r`, among the first `n` columns.
pub open spec fn row_squares(g: Seq<Module>, w: int, r: int, n: int) -> int
    decreases n,
{
    if n <= 0 {
        0
    } else {
        row_squares(g, w, r, n - 1) + if same_square(g, w, r, n - 1) {
            1int
        } else {
            0
        }
    }
}

/// One-colour 2x2 squares with their corner in the first `n` rows.
pub open spec fn squares(g: Seq<Module>, w: int, n: int) -> int
    decreases n,
{
    if n <= 0 {
        0
    } else {
        squares(g, w, n - 1) + row_squares(g, w, n - 1, w - 1)
    }
}

/// The dark-light-dark-dark-dark-light-dark pattern of a finder pattern's middle line.
pub open spec fn finder_line_color(k: int) -> Color {
    if k == 1 || k == 5 {
        Color::White
    } else {
        Color::Black
    }
}

/// Modules `j` to `j + 6` of line `i` show the finder pattern line.
pub open spec fn finder_like(g: Seq<Module>, w: int, i: int, j: int, horizontal: bool) -> bool {
    forall|k: int| 0 <= k < 7 ==> #[trigger] line_color(g, w, i, j + k, horizontal) == finder_line_color(k)
}

/// A dark module of line `i` lies among the four before `j` or the four after `j + 6`.
pub open spec fn dark_beside(g: Seq<Module>, w: int, i: int, j: int, horizontal: bool) -> bool {
    exists|x: int|
        ((j - 4 <= x < j) || (j + 7 <= x < j + 11)) && 0 <= x < w && #[trigger] line_color(
            g,
            w,
            i,
            x,
            horizontal,
        ) == Color::Black
}

/// Finder-like stretches with a dark neighbour on line `i` that start among the first `n`
/// positions.
pub open spec fn line_finders(g: Seq<Module>, w: int, i: int, n: int, horizontal: bool) -> int
    decreases n,
{
    if n <= 0 {
        0
    } else {
        line_finders(g, w, i, n - 1, horizontal) + if finder_like(g, w, i, n - 1, horizontal)
            && dark_beside(g, w, i, n - 1, horizontal) {
            1int
        } else {
            0
        }
    }
}

/// Finder-like stretches with a dark neighbour on the first `n` lines.
pub open spec fn finders(g: Seq<Module>, w: int, n: int, horizontal: bool) -> int
    decreases n,
{
    if n <= 0 {
        0
    } else {
        finders(g, w, n - 1, horizontal) + line_finders(g, w, n - 1, w - 6, horizontal)
    }
}

/// Distance of the share of dark modules, in half percent, from one half.
pub open spec fn balance_penalty(g: Seq<Module>, w: int) -> int {
    let ratio = (dark_count(g) as int) * 200 / (w * w);
    if ratio < 100 {
        100 - ratio
    } else {
        ratio - 100
    }
}

/// The penalty score of a grid: adjacent runs, one-colour squares, finder-like patterns
/// along rows and along columns, and colour balance.
pub open spec fn total_penalty(g: Seq<Module>, w: int) -> int {
    adjacent_penalty(g, w) + 3 * squares(g, w, w - 1) + 40 * finders(g, w, w, true) + 40 * finders(
        g,
        w,
        w,
        false,
    ) + balance_penalty(g, w)
}

proof fn lemma_run_len_bound(g: Seq<Module>, w: int, i: int, k: int, horizontal: bool)
    requires
        k >= 0,
    ensures
        1 <= run_len(g, w, i, k, horizontal) <= k + 1,
    decreases k,
{
    if k > 0 {
        lemma_run_len_bound(g, w, i, k - 1, horizontal);
    }
}

proof fn lemma_line_penalty_bound(g: Seq<Module>, w: int, i: int, n: int, horizontal: bool)
    requires
        n >= 0,
    ensures
        0 <= line_penalty(g, w, i, n, horizontal) <= n * n,
    decreases n,
{
    if n > 0 {
        lemma_line_penalty_bound(g, w, i, n - 1, horizontal);
        lemma_run_len_bound(g, w, i, n - 1, horizontal);
        assert((n - 1) * (n - 1) + n <= n * n) by (nonlinear_arith)
            requires
                n >= 1,
        ;
    }
}

proof fn lemma_lines_penalty_bound(g: Seq<Module>, w: int, n: int, horizontal: bool)
    requires
        n >= 0,
        w >= 0,
    ensures
        0 <= lines_penalty(g, w, n, horizontal) <= n * (w * w),
    decreases n,
{
    if n > 0 {
        lemma_lines_penalty_bound(g, w, n - 1, horizontal);
        lemma_line_penalty_bound(g, w, n - 1, w, horizontal);
        assert((n - 1) * (w * w) + w * w == n * (w * w)) by (nonlinear_arith);
    }
}

proof fn lemma_row_squares_bound(g: Seq<Module>, w: int, r: int, n: int)
    requires
        n >= 0,
    ensures
        0 <= row_squares(g, w, r, n) <= n,
    decreases n,
{
    if n > 0 {
        lemma_row_squares_bound(g, w, r, n - 1);
    }
}

proof fn lemma_squares_bound(g: Seq<Module>, w: int, n: int)
    requires
        n >= 0,
        w >= 1,
    ensures
        0 <= squares(g, w, n) <= n * w,
    decreases n,
{
    if n > 0 {
        lemma_squares_bound(g, w, n - 1);
        lemma_row_squares_bound(g, w, n - 1, w - 1);
        assert((n - 1) * w + w == n * w) by (nonlinear_arith);
    }
}

proof fn lemma_line_finders_bound(g: Seq<Module>, w: int, i: int, n: int, horizontal: bool)
    requires
        n >= 0,
    ensures
        0 <= line_finders(g, w, i, n, horizontal) <= n,
    decreases n,
{
    if n > 0 {
        lemma_line_finders_bound(g, w, i, n - 1, horizontal);
    }
}

proof fn lemma_finders_bound(g: Seq<Module>, w: int, n: int, horizontal: bool)
    requires
        n >= 0,
        w >= 7,
    ensures
        0 <= finders(g, w, n, horizontal) <= n * w,
    decreases n,
{
    if n > 0 {
        lemma_finders_bound(g, w, n - 1, horizontal);
        lemma_line_finders_bound(g, w, n - 1, w - 6, horizontal);
        assert((n - 1) * w + w == n * w) by (nonlinear_arith);
    }
}

pub(crate) proof fn lemma_dark_count_bound(g: Seq<Module>)
    ensures
        dark_count(g) <= g.len(),
    decreases g.len(),
{
    if g.len() > 0 {
        lemma_dark_count_bound(g.drop_last());
    }
}

/// Facts about the grid of a well-formed normal symbol that the penalty loops rely on.
proof fn lemma_grid_size(qr: &QR)
    requires
        qr.wf(),
        qr.spec_ver() is Normal,
    ensures
        21 <= qr.spec_w() <= 177,
        qr.spec_w() * qr.spec_w() <= 177 * 177,
        qr.spec_w() * (qr.spec_w() * qr.spec_w()) <= 177 * (177 * 177),
{
    let w = qr.spec_w();
    assert(w * w <= 177 * 177) by (nonlinear_arith)
        requires
            0 <= w <= 177,
    ;
    assert(w * (w * w) <= 177 * (177 * 177)) by (nonlinear_arith)
        requires
            0 <= w <= 177,
            w * w <= 177 * 177,
    ;
}

/// Adjacency penalty: runs of five or more modules of one colour along rows and columns.
pub fn compute_adjacent_penalty(qr: &QR) -> (p: u32)
    requires
        qr.wf(),
        qr.spec_ver() is Normal,
    ensures
        p == adjacent_penalty(qr.spec_grid(), qr.spec_w()),
{
    proof {
        lemma_grid_size(qr);
        lemma_lines_penalty_bound(qr.spec_grid(), qr.spec_w(), qr.spec_w(), true);
        lemma_lines_penalty_bound(qr.spec_grid(), qr.spec_w(), qr.spec_w(), false);
    }
    let h = lines_penalty_exec(qr, true);
    let v = lines_penalty_exec(qr, false);
    h + v
}

/// Adjacency penalty of every row, or of every column.
fn lines_penalty_exec(qr: &QR, horizontal: bool) -> (p: u32)
    requires
        qr.wf(),
        qr.spec_ver() is Normal,
    ensures
        p == lines_penalty(qr.spec_grid(), qr.spec_w(), qr.spec_w(), horizontal),
{
    let ghost g = qr.spec_grid();
    let ghost wg = qr.spec_w();
    proof {
        lemma_grid_size(qr);
    }
    let w = qr.width() as i32;
    let mut penalty: u32 = 0;
    let mut i: i32 = 0;
    while i < w
        invariant
            qr.wf(),
            g == qr.spec_grid(),
            wg == qr.spec_w(),
            w == wg,
            21 <= w <= 177,
            wg * (wg * wg) <= 177 * (177 * 177),
            0 <= i <= w,
            penalty == lines_penalty(g, wg, i as int, horizontal),
        decreases w - i,
    {
        proof {
            lemma_lines_penalty_bound(g, wg, i as int, horizontal);
            assert(i * (wg * wg) + wg * wg <= wg * (wg * wg)) by (nonlinear_arith)
                requires
                    i < wg,
                    wg >= 0,
            ;
        }
        let mut last = Color::Black;
        let mut run: u32 = 0;
        let mut line: u32 = 0;
        let mut k: i32 = 0;
        while k < w
            invariant
                qr.wf(),
                g == qr.spec_grid(),
                wg == qr.spec_w(),
                w == wg,
                21 <= w <= 177,
                0 <= i < w,
                0 <= k <= w,
                k == 0 ==> run == 0 && last == Color::Black,
                k > 0 ==> run == run_len(g, wg, i as int, k - 1, horizontal) && last == line_color(
                    g,
                    wg,
                    i as int,
                    k - 1,
                    horizontal,
                ),
                line == line_penalty(g, wg, i as int, k as int, horizontal),
            decreases w - k,
        {
            proof {
                lemma_line_penalty_bound(g, wg, i as int, k as int, horizontal);
                if k > 0 {
                    lemma_run_len_bound(g, wg, i as int, k - 1, horizontal);
                }
                assert(k * k + k + 1 <= 177 * 178) by (nonlinear_arith)
                    requires
                        0 <= k < 177,
                ;
            }
            let clr = if horizontal {
                qr.get(i, k).color()
            } else {
                qr.get(k, i).color()
            };
            if clr != last {
                last = clr;
                run = 0;
            }
            run += 1;
            if run >= 5 {
                line += run - 2;
            }
            k += 1;
        }
        proof {
            lemma_lines_penalty_bound(g, wg, i as int, horizontal);
            lemma_line_penalty_bound(g, wg, i as int, wg, horizontal);
            assert(i * (wg * wg) + wg * wg <= wg * (wg * wg)) by (nonlinear_arith)
                requires
                    i < wg,
                    wg >= 0,
            ;
        }
        penalty += line;
        i += 1;
    }
    penalty
}

/// Block penalty: three for every 2x2 square of one colour.
pub fn compute_block_penalty(qr: &QR) -> (p: u32)
    requires
        qr.wf(),
        qr.spec_ver() is Normal,
    ensures
        p == 3 * squares(qr.spec_grid(), qr.spec_w(), qr.spec_w() - 1),
{
    let ghost g = qr.spec_grid();
    let ghost wg = qr.spec_w();
    proof {
        lemma_grid_size(qr);
    }
    let w = qr.width() as i32;
    let mut count: u32 = 0;
    let mut r: i32 = 0;
    while r < w - 1
        invariant
            qr.wf(),
            g == qr.spec_grid(),
            wg == qr.spec_w(),
            w == wg,
            21 <= w <= 177,
            0 <= r <= w - 1,
            count == squares(g, wg, r as int),
        decreases w - 1 - r,
    {
        proof {
            lemma_squares_bound(g, wg, r as int);
            assert(r * wg + wg <= 177 * 177) by (nonlinear_arith)
                requires
                    0 <= r < wg,
                    wg <= 177,
            ;
        }
        let mut row: u32 = 0;
        let mut c: i32 = 0;
        while c < w - 1
            invariant
                qr.wf(),
                g == qr.spec_grid(),
                wg == qr.spec_w(),
                w == wg,
                21 <= w <= 177,
                0 <= r < w - 1,
                0 <= c <= w - 1,
                row == row_squares(g, wg, r as int, c as int),
            decreases w - 1 - c,
        {
            proof {
                lemma_row_squares_bound(g, wg, r as int, c as int);
            }
            let clr = qr.get(r, c).color();
            if clr == qr.get(r + 1, c).color() && clr == qr.get(r, c + 1).color() && clr == qr.get(
                r + 1,
                c + 1,
            ).color() {
                row += 1;
            }
            c += 1;
        }
        proof {
            lemma_squares_bound(g, wg, r as int);
            lemma_row_squares_bound(g, wg, r as int, wg - 1);
            assert(r * wg + wg <= 177 * 177) by (nonlinear_arith)
                requires
                    0 <= r < wg,
                    wg <= 177,
            ;
        }
        count += row;
        r += 1;
    }
    proof {
        lemma_squares_bound(g, wg, wg - 1);
        assert((wg - 1) * wg <= 177 * 177) by (nonlinear_arith)
            requires
                1 <= wg <= 177,
        ;
    }
    3 * count
}

/// Finder pattern penalty along rows (`is_horizontal`) or columns: forty for every
/// stretch that looks like a finder pattern's middle line and has a dark module among the
/// four modules on either side.
pub fn compute_finder_pattern_penalty(qr: &QR, is_horizontal: bool) -> (p: u32)
    requires
        qr.wf(),
        qr.spec_ver() is Normal,
    ensures
        p == 40 * finders(qr.spec_grid(), qr.spec_w(), qr.spec_w(), is_horizontal),
{
    let ghost g = qr.spec_grid();
    let ghost wg = qr.spec_w();
    proof {
        lemma_grid_size(qr);
    }
    let w = qr.width() as i32;
    let mut count: u32 = 0;
    let mut i: i32 = 0;
    while i < w
        invariant
            qr.wf(),
            g == qr.spec_grid(),
            wg == qr.spec_w(),
            w == wg,
            21 <= w <= 177,
            0 <= i <= w,
            count == finders(g, wg, i as int, is_horizontal),
        decreases w - i,
    {
        proof {
            lemma_finders_bound(g, wg, i as int, is_horizontal);
            assert(i * wg + wg <= 177 * 177) by (nonlinear_arith)
                requires
                    0 <= i < wg,
                    wg <= 177,
            ;
        }
        let mut line: u32 = 0;
        let mut j: i32 = 0;
        while j < w - 6
            invariant
                qr.wf(),
                g == qr.spec_grid(),
                wg == qr.spec_w(),
                w == wg,
                21 <= w <= 177,
                0 <= i < w,
                0 <= j <= w - 6,
                line == line_finders(g, wg, i as int, j as int, is_horizontal),
            decreases w - 6 - j,
        {
            proof {
                lemma_line_finders_bound(g, wg, i as int, j as int, is_horizontal);
            }
            if finder_like_at(qr, i, j, is_horizontal) && dark_beside_at(qr, i, j, is_horizontal) {
                line += 1;
            }
            j += 1;
        }
        proof {
            lemma_finders_bound(g, wg, i as int, is_horizontal);
            lemma_line_finders_bound(g, wg, i as int, wg - 6, is_horizontal);
            assert(i * wg + wg <= 177 * 177) by (nonlinear_arith)
                requires
                    0 <= i < wg,
                    wg <= 177,
            ;
        }
        count += line;
        i += 1;
    }
    proof {
        lemma_finders_bound(g, wg, wg, is_horizontal);
        assert(wg * wg <= 177 * 177) by (nonlinear_arith)
            requires
                1 <= wg <= 177,
        ;
    }
    40 * count
}

/// Colour of module `k` of line `i`.
fn line_color_at(qr: &QR, i: i32, k: i32, horizontal: bool) -> (clr: Color)
    requires
        qr.wf(),
        0 <= i < qr.spec_w(),
        0 <= k < qr.spec_w(),
    ensures
        clr == line_color(qr.spec_grid(), qr.spec_w(), i as int, k as int, horizontal),
{
    if horizontal {
        qr.get(i, k).color()
    } else {
        qr.get(k, i).color()
    }
}

fn finder_like_at(qr: &QR, i: i32, j: i32, horizontal: bool) -> (b: bool)
    requires
        qr.wf(),
        0 <= i < qr.spec_w(),
        0 <= j <= qr.spec_w() - 7,
    ensures
        b == finder_like(qr.spec_grid(), qr.spec_w(), i as int, j as int, horizontal),
{
    let mut k: i32 = 0;
    while k < 7
        invariant
            qr.wf(),
            0 <= i < qr.spec_w(),
            0 <= j <= qr.spec_w() - 7,
            0 <= k <= 7,
            forall|t: int|
                0 <= t < k ==> #[trigger] line_color(qr.spec_grid(), qr.spec_w(), i as int, j + t, horizontal)
                    == finder_line_color(t),
        decreases 7 - k,
    {
        let expected = if k == 1 || k == 5 {
            Color::White
        } else {
            Color::Black
        };
        if line_color_at(qr, i, j + k, horizontal) != expected {
            return false;
        }
        k += 1;
    }
    true
}

fn dark_beside_at(qr: &QR, i: i32, j: i32, horizontal: bool) -> (b: bool)
    requires
        qr.wf(),
        qr.spec_w() <= 177,
        0 <= i < qr.spec_w(),
        0 <= j <= qr.spec_w() - 7,
    ensures
        b == dark_beside(qr.spec_grid(), qr.spec_w(), i as int, j as int, horizontal),
{
    let w = qr.width() as i32;
    let mut x: i32 = j - 4;
    while x < j + 11
        invariant
            qr.wf(),
            w == qr.spec_w(),
            w <= 177,
            0 <= i < w,
            0 <= j <= w - 7,
            j - 4 <= x <= j + 11,
            forall|y: int|
                j - 4 <= y < x && ((j - 4 <= y < j) || (j + 7 <= y < j + 11)) && 0 <= y < w
                    ==> #[trigger] line_color(qr.spec_grid(), qr.spec_w(), i as int, y, horizontal)
                    != Color::Black,
        decreases j + 11 - x,
    {
        if (x < j || x >= j + 7) && 0 <= x && x < w {
            if line_color_at(qr, i, x, horizontal) == Color::Black {
                return true;
            }
        }
        x += 1;
    }
    false
}

/// Balance penalty: how far the share of dark modules, in half percent, is from one half.
pub fn compute_balance_penalty(qr: &QR) -> (p: u32)
    requires
        qr.wf(),
        qr.spec_ver() is Normal,
    ensures
        p == balance_penalty(qr.spec_grid(), qr.spec_w()),
        p <= 100,
{
    proof {
        lemma_grid_size(qr);
        lemma_dark_count_bound(qr.spec_grid());
    }
    let dark_count = qr.count_dark_modules();
    let w = qr.width();
    let total_count = w * w;
    proof {
        assert(total_count > 0) by (nonlinear_arith)
            requires
                w >= 21,
                total_count == w * w,
        ;
    }
    let ratio = dark_count * 200 / total_count;
    proof {
        assert(ratio <= 200) by (nonlinear_arith)
            requires
                dark_count <= total_count,
                total_count > 0,
                ratio as int == (dark_count as int) * 200 / (total_count as int),
        ;
    }
    if ratio < 100 {
        (100 - ratio) as u32
    } else {
        (ratio - 100) as u32
    }
}

/// The penalty score of a normal symbol.
pub fn compute_total_penalty(qr: &QR) -> (p: u32)
    requires
        qr.wf(),
        qr.spec_ver() is Normal,
    ensures
        p == total_penalty(qr.spec_grid(), qr.spec_w()),
{
    proof {
        lemma_grid_size(qr);
        let g = qr.spec_grid();
        let w = qr.spec_w();
        lemma_lines_penalty_bound(g, w, w, true);
        lemma_lines_penalty_bound(g, w, w, false);
        lemma_squares_bound(g, w, w - 1);
        lemma_finders_bound(g, w, w, true);
        lemma_finders_bound(g, w, w, false);
        assert((w - 1) * w <= 177 * 177) by (nonlinear_arith)
            requires
                1 <= w <= 177,
        ;
        assert(w * w <= 177 * 177) by (nonlinear_arith)
            requires
                1 <= w <= 177,
        ;
    }
    let adjacent_penalty = compute_adjacent_penalty(qr);
    let block_penalty = compute_block_penalty(qr);
    let finder_penalty_hor = compute_finder_pattern_penalty(qr, true);
    let finder_penalty_ver = compute_finder_pattern_penalty(qr, false);
    let balance_penalty = compute_balance_penalty(qr);
    adjacent_penalty + block_penalty + finder_penalty_hor + finder_penalty_ver + balance_penalty
}

/// The penalty of `qr` masked with pattern `m`.
pub open spec fn mask_penalty(qr: &QR, m: nat) -> int {
    total_penalty(
        masked_grid(
            qr.spec_grid(),
            qr.spec_w(),
            qr.spec_hi_cap(),
            qr.spec_ecl(),
            m,
        ),
        qr.spec_w(),
    )
}

/// Masks `qr` with the pattern of least penalty, the first of them on a tie, and returns
/// that pattern.
pub fn apply_best_mask(qr: &mut QR) -> (best: MaskingPattern)
    requires
        old(qr).wf(),
        old(qr).spec_ver() is Normal,
    ensures
        best.spec_value() < 8,
        forall|m: nat| m < 8 ==> mask_penalty(old(qr), best.spec_value()) <= #[trigger] mask_penalty(old(qr), m),
        forall|m: nat| m < best.spec_value() ==> mask_penalty(old(qr), best.spec_value()) < #[trigger] mask_penalty(old(qr), m),
        final(qr).wf(),
        final(qr).spec_w() == old(qr).spec_w(),
        final(qr).spec_ver() == old(qr).spec_ver(),
        final(qr).spec_ecl() == old(qr).spec_ecl(),
        final(qr).spec_hi_cap() == old(qr).spec_hi_cap(),
        final(qr).spec_mask() == Some(best),
        final(qr).spec_grid() == masked_grid(
            old(qr).spec_grid(),
            old(qr).spec_w(),
            old(qr).spec_hi_cap(),
            old(qr).spec_ecl(),
            best.spec_value(),
        ),
{
    let ghost q0 = *qr;
    let mut best_mask: u8 = 0;
    let mut best_penalty: u32 = 0;
    let mut m: u8 = 0;
    while m < 8
        invariant
            *qr == q0,
            q0.wf(),
            q0.spec_ver() is Normal,
            m <= 8,
            best_mask < 8,
            m > 0 ==> best_mask < m,
            m > 0 ==> best_penalty == mask_penalty(&q0, best_mask as nat),
            forall|k: nat| k < m ==> mask_penalty(&q0, best_mask as nat) <= #[trigger] mask_penalty(&q0, k),
            forall|k: nat| k < best_mask ==> mask_penalty(&q0, best_mask as nat) < #[trigger] mask_penalty(&q0, k),
        decreases 8 - m,
    {
        let mut candidate = qr.duplicate();
        let pattern = MaskingPattern::new(m);
        candidate.apply_mask(pattern);
        let penalty = compute_total_penalty(&candidate);
        proof {
            assert(penalty == mask_penalty(&q0, m as nat));
        }
        if m == 0 || penalty < best_penalty {
            best_mask = m;
            best_penalty = penalty;
        }
        m += 1;
    }
    let best = MaskingPattern::new(best_mask);
    qr.apply_mask(best);
    best
}

} // verus!
