//! What the mask conditions and the penalty score are, stated from the outside.
use crate::builder::qr::{dark_count, lemma_cell_div_mod, lemma_cell_in_range, Module};
use crate::mask::{
    adjacent_penalty, balance_penalty, dark_beside, finder_like, finder_line_color, finders,
    lemma_dark_count_bound, line_color, line_finders, line_penalty, lines_penalty,
    mask_condition, row_squares, run_len, squares, total_penalty,
};
use crate::metadata::Color;
use vstd::arithmetic::div_mod::{lemma_fundamental_div_mod, lemma_fundamental_div_mod_converse};
use vstd::prelude::*;

verus! {

/// The table of the eight mask patterns of the QR standard, for row `r` and column `c`:
/// a module is inverted exactly when its pattern's entry holds.
///
/// - 0: `r` and `c` have the same parity;
/// - 1: `r` is even;
/// - 2: `c` is a multiple of three;
/// - 3: `r + c` is a multiple of three;
/// - 4: `r / 2` and `c / 3` have the same parity;
/// - 5: `r * c` is a multiple of six;
/// - 6: `r * c` leaves a remainder below three on division by six;
/// - 7: `(r * c) mod 3 + (r + c) mod 2` is even, that is, the parity of `(r * c) mod 3`
///   is that of `r + c`.
pub proof fn lemma_mask_table(p: nat, r: int, c: int)
    requires
        p < 8,
    ensures
        p == 0 ==> (mask_condition(p, r, c) <==> r % 2 == c % 2),
        p == 1 ==> (mask_condition(p, r, c) <==> r % 2 == 0),
        p == 2 ==> (mask_condition(p, r, c) <==> c % 3 == 0),
        p == 3 ==> (mask_condition(p, r, c) <==> (r % 3 + c % 3) % 3 == 0),
        p == 4 ==> (mask_condition(p, r, c) <==> (r / 2) % 2 == (c / 3) % 2),
        p == 5 ==> (mask_condition(p, r, c) <==> (r * c) % 6 == 0),
        p == 6 ==> (mask_condition(p, r, c) <==> (r * c) % 6 < 3),
        p == 7 ==> (mask_condition(p, r, c) <==> ((r * c) % 3 + (r + c) % 2) % 2 == 0),
        p == 7 ==> (mask_condition(p, r, c) <==> ((r * c) % 3) % 2 == (r + c) % 2),
{
    let x = r * c;
    assert(x % 6 == 0 <==> (x % 2 == 0 && x % 3 == 0));
    assert(x % 6 < 3 <==> (x % 2 + x % 3) % 2 == 0);
}

/// The balance penalty is the distance, in half percent, of the share of dark modules
/// from one half: with `n` modules of which `d` are dark, the penalty `p` is the one
/// number in `0..=100` for which `200 * d / n` is `100 + p` or `100 - p`. It is zero
/// exactly when between one half and one half plus half a percent of the modules are
/// dark, and positive in every other case.
pub proof fn lemma_balance_penalty_share(g: Seq<Module>, w: int)
    requires
        w > 0,
        g.len() == w * w,
    ensures
        ({
            let n = w * w;
            let d = dark_count(g) as int;
            let p = balance_penalty(g, w);
            &&& 0 <= p <= 100
            &&& ((100 + p) * n <= 200 * d < (101 + p) * n || (100 - p) * n <= 200 * d < (101
                - p) * n)
            &&& (p == 0 <==> 100 * n <= 200 * d < 101 * n)
        }),
{
    let n = w * w;
    let d = dark_count(g) as int;
    let p = balance_penalty(g, w);
    lemma_dark_count_bound(g);
    assert(n > 0) by (nonlinear_arith)
        requires
            w > 0,
            n == w * w,
    ;
    let q = (200 * d) / n;
    let r = (200 * d) % n;
    lemma_fundamental_div_mod(200 * d, n);
    assert(0 <= r < n);
    assert(200 * d == n * q + r);
    assert(0 <= q <= 200) by (nonlinear_arith)
        requires
            200 * d == n * q + r,
            0 <= r < n,
            0 <= d <= n,
    ;
    assert(q * n <= 200 * d < (q + 1) * n) by (nonlinear_arith)
        requires
            200 * d == n * q + r,
            0 <= r < n,
    ;
    if 100 * n <= 200 * d < 101 * n {
        assert(q == 100) by (nonlinear_arith)
            requires
                q * n <= 200 * d < (q + 1) * n,
                100 * n <= 200 * d < 101 * n,
                n > 0,
        ;
    }
    if p == 0 {
        assert(q == 100);
    }
}

/// Two grids of the same size whose dark counts add up to the number of modules, such as
/// a grid and its negative, get balance penalties at most one apart: the penalty looks
/// at dark and light modules alike, up to the rounding of the share.
pub proof fn lemma_balance_penalty_complement(g1: Seq<Module>, g2: Seq<Module>, w: int)
    requires
        w > 0,
        g1.len() == w * w,
        g2.len() == w * w,
        dark_count(g1) + dark_count(g2) == w * w,
    ensures
        -1 <= balance_penalty(g1, w) - balance_penalty(g2, w) <= 1,
{
    let n = w * w;
    lemma_balance_penalty_share(g1, w);
    lemma_balance_penalty_share(g2, w);
    assert(n > 0) by (nonlinear_arith)
        requires
            w > 0,
            n == w * w,
    ;
    let d1 = dark_count(g1) as int;
    let d2 = dark_count(g2) as int;
    let q1 = (200 * d1) / n;
    let q2 = (200 * d2) / n;
    lemma_fundamental_div_mod(200 * d1, n);
    lemma_fundamental_div_mod(200 * d2, n);
    assert(199 <= q1 + q2 <= 200) by (nonlinear_arith)
        requires
            200 * d1 == n * q1 + (200 * d1) % n,
            200 * d2 == n * q2 + (200 * d2) % n,
            0 <= (200 * d1) % n < n,
            0 <= (200 * d2) % n < n,
            d1 + d2 == n,
            n > 0,
    ;
}

/// Every module of `g` has colour `col`.
pub open spec fn uniform(g: Seq<Module>, col: Color) -> bool {
    forall|j: int| 0 <= j < g.len() ==> (#[trigger] g[j]).spec_color() == col
}

proof fn lemma_uniform_line_color(
    g: Seq<Module>,
    w: int,
    col: Color,
    i: int,
    k: int,
    horizontal: bool,
)
    requires
        uniform(g, col),
        g.len() == w * w,
        0 <= i < w,
        0 <= k < w,
    ensures
        line_color(g, w, i, k, horizontal) == col,
{
    if horizontal {
        lemma_cell_in_range(w, i, k);
        assert(g[i * w + k].spec_color() == col);
    } else {
        lemma_cell_in_range(w, k, i);
        assert(g[k * w + i].spec_color() == col);
    }
}

proof fn lemma_uniform_run_len(g: Seq<Module>, w: int, col: Color, i: int, k: int, horizontal: bool)
    requires
        uniform(g, col),
        g.len() == w * w,
        0 <= i < w,
        0 <= k < w,
    ensures
        run_len(g, w, i, k, horizontal) == k + 1,
    decreases k,
{
    if k > 0 {
        lemma_uniform_line_color(g, w, col, i, k, horizontal);
        lemma_uniform_line_color(g, w, col, i, k - 1, horizontal);
        lemma_uniform_run_len(g, w, col, i, k - 1, horizontal);
    }
}

proof fn lemma_uniform_line_penalty(
    g: Seq<Module>,
    w: int,
    col: Color,
    i: int,
    n: int,
    horizontal: bool,
)
    requires
        uniform(g, col),
        g.len() == w * w,
        0 <= i < w,
        0 <= n <= w,
    ensures
        n < 5 ==> line_penalty(g, w, i, n, horizontal) == 0,
        n >= 5 ==> 2 * line_penalty(g, w, i, n, horizontal) == (n - 2) * (n - 1) - 6,
    decreases n,
{
    if n > 0 {
        lemma_uniform_line_penalty(g, w, col, i, n - 1, horizontal);
        lemma_uniform_run_len(g, w, col, i, n - 1, horizontal);
        if n == 5 {
            assert((n - 2) * (n - 1) == 12) by (nonlinear_arith)
                requires
                    n == 5,
            ;
        } else if n >= 6 {
            assert((n - 2) * (n - 1) - 6 == (n - 3) * (n - 2) - 6 + 2 * (n - 2))
                by (nonlinear_arith);
        }
    }
}

proof fn lemma_uniform_lines_penalty(g: Seq<Module>, w: int, col: Color, n: int, horizontal: bool)
    requires
        uniform(g, col),
        g.len() == w * w,
        w >= 5,
        0 <= n <= w,
    ensures
        2 * lines_penalty(g, w, n, horizontal) == n * ((w - 2) * (w - 1) - 6),
    decreases n,
{
    if n > 0 {
        lemma_uniform_lines_penalty(g, w, col, n - 1, horizontal);
        lemma_uniform_line_penalty(g, w, col, n - 1, w, horizontal);
        let k = (w - 2) * (w - 1) - 6;
        assert((n - 1) * k + k == n * k) by (nonlinear_arith);
    }
}

proof fn lemma_uniform_row_squares(g: Seq<Module>, w: int, col: Color, r: int, n: int)
    requires
        uniform(g, col),
        g.len() == w * w,
        0 <= r < w - 1,
        0 <= n <= w - 1,
    ensures
        row_squares(g, w, r, n) == n,
    decreases n,
{
    if n > 0 {
        lemma_uniform_row_squares(g, w, col, r, n - 1);
        let c = n - 1;
        lemma_cell_in_range(w, r, c);
        lemma_cell_in_range(w, r + 1, c);
        lemma_cell_in_range(w, r, c + 1);
        lemma_cell_in_range(w, r + 1, c + 1);
        assert(g[r * w + c].spec_color() == col);
        assert(g[(r + 1) * w + c].spec_color() == col);
        assert(g[r * w + (c + 1)].spec_color() == col);
        assert(g[(r + 1) * w + (c + 1)].spec_color() == col);
    }
}

proof fn lemma_uniform_squares(g: Seq<Module>, w: int, col: Color, n: int)
    requires
        uniform(g, col),
        g.len() == w * w,
        0 <= n <= w - 1,
    ensures
        squares(g, w, n) == n * (w - 1),
    decreases n,
{
    if n > 0 {
        lemma_uniform_squares(g, w, col, n - 1);
        lemma_uniform_row_squares(g, w, col, n - 1, w - 1);
        assert((n - 1) * (w - 1) + (w - 1) == n * (w - 1)) by (nonlinear_arith);
    }
}

proof fn lemma_uniform_line_finders(
    g: Seq<Module>,
    w: int,
    col: Color,
    i: int,
    n: int,
    horizontal: bool,
)
    requires
        uniform(g, col),
        g.len() == w * w,
        0 <= i < w,
        0 <= n <= w - 6,
    ensures
        line_finders(g, w, i, n, horizontal) == 0,
    decreases n,
{
    if n > 0 {
        lemma_uniform_line_finders(g, w, col, i, n - 1, horizontal);
        let j = n - 1;
        lemma_uniform_line_color(g, w, col, i, j + 1, horizontal);
        lemma_uniform_line_color(g, w, col, i, j + 2, horizontal);
        if finder_like(g, w, i, j, horizontal) {
            assert(line_color(g, w, i, j + 1, horizontal) == Color::White);
            assert(line_color(g, w, i, j + 2, horizontal) == Color::Black);
        }
    }
}

proof fn lemma_uniform_finders(g: Seq<Module>, w: int, col: Color, n: int, horizontal: bool)
    requires
        uniform(g, col),
        g.len() == w * w,
        w >= 6,
        0 <= n <= w,
    ensures
        finders(g, w, n, horizontal) == 0,
    decreases n,
{
    if n > 0 {
        lemma_uniform_finders(g, w, col, n - 1, horizontal);
        lemma_uniform_line_finders(g, w, col, n - 1, w - 6, horizontal);
    }
}

proof fn lemma_uniform_dark_count(g: Seq<Module>, col: Color)
    requires
        uniform(g, col),
    ensures
        col == Color::White ==> dark_count(g) == 0,
        col == Color::Black ==> dark_count(g) == g.len(),
    decreases g.len(),
{
    if g.len() > 0 {
        let h = g.drop_last();
        assert forall|j: int| 0 <= j < h.len() implies (#[trigger] h[j]).spec_color() == col by {
            assert(h[j] == g[j]);
        }
        lemma_uniform_dark_count(h, col);
        assert(g[g.len() - 1].spec_color() == col);
    }
}

/// The penalty score of a grid all of one colour, dark or light, of width `w`: every row
/// and every column is one run, whose `k`-th module adds `k - 2` from the fifth on, so
/// the runs cost `w * ((w - 2) * (w - 1) - 6)`; each of the `(w - 1) * (w - 1)` 2x2
/// squares costs three; nothing looks like a finder pattern; and the share of dark
/// modules is as far from one half as it can be, which costs a hundred.
pub proof fn lemma_uniform_grid_penalty(g: Seq<Module>, w: int, col: Color)
    requires
        w >= 7,
        g.len() == w * w,
        uniform(g, col),
        col == Color::Black || col == Color::White,
    ensures
        adjacent_penalty(g, w) == w * ((w - 2) * (w - 1) - 6),
        squares(g, w, w - 1) == (w - 1) * (w - 1),
        finders(g, w, w, true) == 0,
        finders(g, w, w, false) == 0,
        balance_penalty(g, w) == 100,
        total_penalty(g, w) == w * ((w - 2) * (w - 1) - 6) + 3 * ((w - 1) * (w - 1)) + 100,
{
    lemma_uniform_lines_penalty(g, w, col, w, true);
    lemma_uniform_lines_penalty(g, w, col, w, false);
    lemma_uniform_squares(g, w, col, w - 1);
    lemma_uniform_finders(g, w, col, w, true);
    lemma_uniform_finders(g, w, col, w, false);
    lemma_uniform_dark_count(g, col);
    let n = w * w;
    assert(n > 0) by (nonlinear_arith)
        requires
            w > 0,
            n == w * w,
    ;
    if col == Color::White {
        assert((dark_count(g) as int) * 200 / n == 0);
    } else {
        lemma_fundamental_div_mod_converse(n * 200, n, 200, 0);
        assert((dark_count(g) as int) * 200 / n == 200);
    }
}

/// `g` with rows and columns exchanged: its cell `(r, c)` is cell `(c, r)` of `g`.
pub open spec fn transpose(g: Seq<Module>, w: int) -> Seq<Module> {
    Seq::new(g.len(), |k: int| g[(k % w) * w + k / w])
}

/// Every line of `g1`, read as rows when `h1` and as columns otherwise, shows the colours
/// of the same line of `g2`, read as rows when `h2` and as columns otherwise.
spec fn lines_agree(g1: Seq<Module>, h1: bool, g2: Seq<Module>, h2: bool, w: int) -> bool {
    forall|i: int, k: int|
        0 <= i < w && 0 <= k < w ==> #[trigger] line_color(g1, w, i, k, h1)
            == #[trigger] line_color(g2, w, i, k, h2)
}

proof fn lemma_agree_run_len(
    g1: Seq<Module>,
    h1: bool,
    g2: Seq<Module>,
    h2: bool,
    w: int,
    i: int,
    k: int,
)
    requires
        lines_agree(g1, h1, g2, h2, w),
        0 <= i < w,
        0 <= k < w,
    ensures
        run_len(g1, w, i, k, h1) == run_len(g2, w, i, k, h2),
    decreases k,
{
    if k > 0 {
        lemma_agree_run_len(g1, h1, g2, h2, w, i, k - 1);
        assert(line_color(g1, w, i, k, h1) == line_color(g2, w, i, k, h2));
        assert(line_color(g1, w, i, k - 1, h1) == line_color(g2, w, i, k - 1, h2));
    }
}

proof fn lemma_agree_line_penalty(
    g1: Seq<Module>,
    h1: bool,
    g2: Seq<Module>,
    h2: bool,
    w: int,
    i: int,
    n: int,
)
    requires
        lines_agree(g1, h1, g2, h2, w),
        0 <= i < w,
        0 <= n <= w,
    ensures
        line_penalty(g1, w, i, n, h1) == line_penalty(g2, w, i, n, h2),
    decreases n,
{
    if n > 0 {
        lemma_agree_line_penalty(g1, h1, g2, h2, w, i, n - 1);
        lemma_agree_run_len(g1, h1, g2, h2, w, i, n - 1);
    }
}

proof fn lemma_agree_lines_penalty(
    g1: Seq<Module>,
    h1: bool,
    g2: Seq<Module>,
    h2: bool,
    w: int,
    n: int,
)
    requires
        lines_agree(g1, h1, g2, h2, w),
        0 <= n <= w,
    ensures
        lines_penalty(g1, w, n, h1) == lines_penalty(g2, w, n, h2),
    decreases n,
{
    if n > 0 {
        lemma_agree_lines_penalty(g1, h1, g2, h2, w, n - 1);
        lemma_agree_line_penalty(g1, h1, g2, h2, w, n - 1, w);
    }
}

proof fn lemma_agree_line_finders(
    g1: Seq<Module>,
    h1: bool,
    g2: Seq<Module>,
    h2: bool,
    w: int,
    i: int,
    n: int,
)
    requires
        lines_agree(g1, h1, g2, h2, w),
        0 <= i < w,
        0 <= n <= w - 6,
    ensures
        line_finders(g1, w, i, n, h1) == line_finders(g2, w, i, n, h2),
    decreases n,
{
    if n > 0 {
        lemma_agree_line_finders(g1, h1, g2, h2, w, i, n - 1);
        let j = n - 1;
        assert(finder_like(g1, w, i, j, h1) == finder_like(g2, w, i, j, h2)) by {
            if finder_like(g1, w, i, j, h1) {
                assert forall|k: int| 0 <= k < 7 implies #[trigger] line_color(g2, w, i, j + k, h2)
                    == finder_line_color(k) by {
                    assert(line_color(g1, w, i, j + k, h1) == finder_line_color(k));
                }
            }
            if finder_like(g2, w, i, j, h2) {
                assert forall|k: int| 0 <= k < 7 implies #[trigger] line_color(g1, w, i, j + k, h1)
                    == finder_line_color(k) by {
                    assert(line_color(g2, w, i, j + k, h2) == finder_line_color(k));
                }
            }
        }
        assert(dark_beside(g1, w, i, j, h1) == dark_beside(g2, w, i, j, h2)) by {
            if dark_beside(g1, w, i, j, h1) {
                let x = choose|x: int|
                    ((j - 4 <= x < j) || (j + 7 <= x < j + 11)) && 0 <= x < w
                        && #[trigger] line_color(g1, w, i, x, h1) == Color::Black;
                assert(line_color(g2, w, i, x, h2) == Color::Black);
            }
            if dark_beside(g2, w, i, j, h2) {
                let x = choose|x: int|
                    ((j - 4 <= x < j) || (j + 7 <= x < j + 11)) && 0 <= x < w
                        && #[trigger] line_color(g2, w, i, x, h2) == Color::Black;
                assert(line_color(g1, w, i, x, h1) == Color::Black);
            }
        }
    }
}

proof fn lemma_agree_finders(g1: Seq<Module>, h1: bool, g2: Seq<Module>, h2: bool, w: int, n: int)
    requires
        lines_agree(g1, h1, g2, h2, w),
        w >= 6,
        0 <= n <= w,
    ensures
        finders(g1, w, n, h1) == finders(g2, w, n, h2),
    decreases n,
{
    if n > 0 {
        lemma_agree_finders(g1, h1, g2, h2, w, n - 1);
        lemma_agree_line_finders(g1, h1, g2, h2, w, n - 1, w - 6);
    }
}

/// Rows of the transposed grid are the columns of `g`, and its columns are the rows of
/// `g`.
proof fn lemma_transpose_lines(g: Seq<Module>, w: int)
    requires
        w > 0,
        g.len() == w * w,
    ensures
        lines_agree(transpose(g, w), true, g, false, w),
        lines_agree(transpose(g, w), false, g, true, w),
{
    let t = transpose(g, w);
    assert forall|i: int, k: int| 0 <= i < w && 0 <= k < w implies #[trigger] line_color(
        t,
        w,
        i,
        k,
        true,
    ) == #[trigger] line_color(g, w, i, k, false) by {
        lemma_cell_in_range(w, i, k);
        lemma_cell_div_mod(w, i, k);
    }
    assert forall|i: int, k: int| 0 <= i < w && 0 <= k < w implies #[trigger] line_color(
        t,
        w,
        i,
        k,
        false,
    ) == #[trigger] line_color(g, w, i, k, true) by {
        lemma_cell_in_range(w, k, i);
        lemma_cell_div_mod(w, k, i);
    }
}

/// Exchanging rows and columns leaves the run penalty alone and swaps the finder-like
/// stretches found along rows with those found along columns: the score reads rows and
/// columns by one rule.
pub proof fn lemma_transpose_penalties(g: Seq<Module>, w: int)
    requires
        w >= 7,
        g.len() == w * w,
    ensures
        adjacent_penalty(transpose(g, w), w) == adjacent_penalty(g, w),
        finders(transpose(g, w), w, w, true) == finders(g, w, w, false),
        finders(transpose(g, w), w, w, false) == finders(g, w, w, true),
{
    let t = transpose(g, w);
    lemma_transpose_lines(g, w);
    lemma_agree_lines_penalty(t, true, g, false, w, w);
    lemma_agree_lines_penalty(t, false, g, true, w, w);
    lemma_agree_finders(t, true, g, false, w, w);
    lemma_agree_finders(t, false, g, true, w, w);
}

} // verus!
