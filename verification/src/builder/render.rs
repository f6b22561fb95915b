//! Rendering a symbol: each module becomes a square of pixels, inside a light quiet zone.
use crate::builder::qr::{cell, lemma_cell_div_mod, Module, QR};
use crate::metadata::{Color, Version};
use vstd::prelude::*;
use vstd::string::StringExecFns;

verus! {

/// The quiet zone is four modules wide around a normal symbol and two around a micro one.
pub open spec fn quiet_modules(ver: Version) -> int {
    if ver is Normal {
        4
    } else {
        2
    }
}

/// The module that pixel row `i`, column `j` shows, or `None` in the quiet zone `qz` pixels
/// wide, for modules `ms` pixels wide in a grid of width `w`.
pub open spec fn pixel_module(g: Seq<Module>, w: int, qz: int, ms: int, i: int, j: int) -> Option<
    Module,
> {
    if i < qz || i >= qz + w * ms || j < qz || j >= qz + w * ms {
        None
    } else {
        Some(cell(g, w, (i - qz) / ms, (j - qz) / ms))
    }
}

/// The side in pixels of the rendering of `q` with modules `ms` pixels wide.
pub open spec fn render_side(q: QR, ms: int) -> int {
    2 * quiet_modules(q.spec_ver()) * ms + q.spec_w() * ms
}

/// The grey level of a pixel: white for the quiet zone and white modules, otherwise 35
/// levels per unit of the colour's code.
pub open spec fn gray_level(m: Option<Module>) -> u8 {
    match m {
        None => 255,
        Some(m) => if m.spec_color() == Color::White {
            255
        } else {
            (m.spec_color().rgb() * 35) as u8
        },
    }
}

/// The red, green and blue levels of a pixel: full where the colour has the channel.
pub open spec fn rgb_level(m: Option<Module>, ch: int) -> u8 {
    match m {
        None => 255,
        Some(m) => {
            let bit: u8 = if ch == 0 {
                4
            } else if ch == 1 {
                2
            } else {
                1
            };
            if m.spec_color().rgb() & bit != 0 {
                255
            } else {
                0
            }
        },
    }
}

/// The character of a pixel in the text rendering: a full block for light, a space for
/// dark.
pub open spec fn text_char(m: Option<Module>) -> char {
    match m {
        None => '█',
        Some(m) => if m.spec_color() == Color::White {
            '█'
        } else {
            ' '
        },
    }
}

/// The first `n` rows of the text rendering, each `side` characters and a line break.
pub open spec fn text_rows(g: Seq<Module>, w: int, qz: int, ms: int, side: int, n: int) -> Seq<char>
    decreases n,
{
    if n <= 0 {
        Seq::empty()
    } else {
        text_rows(g, w, qz, ms, side, n - 1) + Seq::new(
            side as nat,
            |j: int| text_char(pixel_module(g, w, qz, ms, n - 1, j)),
        ) + seq!['\n']
    }
}

/// A pixel inside the symbol shows a module of the grid.
proof fn lemma_pixel_cell(w: int, ms: int, x: int)
    requires
        ms > 0,
        0 <= x < w * ms,
    ensures
        0 <= x / ms < w,
{
    vstd::arithmetic::div_mod::lemma_fundamental_div_mod(x, ms);
    assert(0 <= x / ms < w) by (nonlinear_arith)
        requires
            ms > 0,
            0 <= x < w * ms,
            x == ms * (x / ms) + x % ms,
            0 <= x % ms < ms,
    ;
}

impl QR {
    /// The module that pixel `(i, j)` shows, `None` in the quiet zone `qz` pixels wide.
    fn pixel_at(&self, qz: usize, ms: usize, i: usize, j: usize) -> (r: Option<Module>)
        requires
            self.wf(),
            ms > 0,
            qz + self.spec_w() * ms <= usize::MAX,
        ensures
            r == pixel_module(self.spec_grid(), self.spec_w(), qz as int, ms as int, i as int, j as int),
    {
        let w = self.width();
        proof {
            assert(w * ms >= 0) by (nonlinear_arith)
                requires
                    w >= 0,
                    ms > 0,
            ;
        }
        let qr_sz = w * ms;
        if i < qz || i >= qz + qr_sz || j < qz || j >= qz + qr_sz {
            return None;
        }
        let r = (i - qz) / ms;
        let c = (j - qz) / ms;
        proof {
            lemma_pixel_cell(w as int, ms as int, (i - qz) as int);
            lemma_pixel_cell(w as int, ms as int, (j - qz) as int);
        }
        Some(self.get(r as i32, c as i32))
    }

    /// The grey levels of the rendering with modules `module_sz` pixels wide, row by row.
    pub fn to_gray_pixels(&self, module_sz: u32) -> (r: Vec<u8>)
        requires
            self.wf(),
            forall|t: int| 0 <= t < self.spec_grid().len() ==> #[trigger] self.spec_grid()[t]
                != Module::Empty,
            render_side(*self, module_sz as int) * render_side(*self, module_sz as int)
                <= usize::MAX,
            render_side(*self, module_sz as int) <= u32::MAX,
        ensures
            r@.len() == render_side(*self, module_sz as int) * render_side(*self, module_sz as int),
            forall|k: int|
                0 <= k < r@.len() ==> #[trigger] r@[k] == gray_level(
                    pixel_module(
                        self.spec_grid(),
                        self.spec_w(),
                        quiet_modules(self.spec_ver()) * module_sz,
                        module_sz as int,
                        k / render_side(*self, module_sz as int),
                        k % render_side(*self, module_sz as int),
                    ),
                ),
    {
        let ms = module_sz as usize;
        let qzm: usize = match self.version() {
            Version::Normal(_) => 4,
            Version::Micro(_) => 2,
        };
        let ghost side = render_side(*self, module_sz as int);
        proof {
            assert(qzm * ms + qzm * ms + self.spec_w() * ms == side) by (nonlinear_arith)
                requires
                    side == 2 * qzm * ms + self.spec_w() * ms,
            ;
            assert(qzm * ms <= side) by (nonlinear_arith)
                requires
                    side == qzm * ms + qzm * ms + self.spec_w() * ms,
                    self.spec_w() * ms >= 0,
            ;
        }
        let qz = qzm * ms;
        let total = qz + self.width() * ms + qz;
        let ghost g = self.spec_grid();
        let ghost w = self.spec_w();
        proof {
            if ms == 0 {
                assert(self.spec_w() * ms == 0) by (nonlinear_arith)
                    requires
                        ms == 0,
                ;
            }
        }
        let mut out: Vec<u8> = Vec::new();
        let mut i: usize = 0;
        while i < total
            invariant
                self.wf(),
                g == self.spec_grid(),
                w == self.spec_w(),
                ms == module_sz,
                ms > 0 || total == 0,
                qz == quiet_modules(self.spec_ver()) * ms,
                total == side,
                qz + w * ms <= total,
                total * total <= usize::MAX,
                i <= total,
                out@.len() == i * total,
                forall|k: int|
                    0 <= k < out@.len() ==> #[trigger] out@[k] == gray_level(
                        pixel_module(g, w, qz as int, ms as int, k / side, k % side),
                    ),
            decreases total - i,
        {
            let mut j: usize = 0;
            while j < total
                invariant
                    self.wf(),
                    g == self.spec_grid(),
                    w == self.spec_w(),
                    ms > 0,
                    total == side,
                    qz + w * ms <= total,
                    total * total <= usize::MAX,
                    i < total,
                    j <= total,
                    out@.len() == i * total + j,
                    forall|k: int|
                        0 <= k < out@.len() ==> #[trigger] out@[k] == gray_level(
                            pixel_module(g, w, qz as int, ms as int, k / side, k % side),
                        ),
                decreases total - j,
            {
                let m = self.pixel_at(qz, ms, i, j);
                let level: u8 = match m {
                    None => 255,
                    Some(md) => {
                        let clr = md.color();
                        if clr == Color::White {
                            255
                        } else {
                            clr.bits() * 35
                        }
                    },
                };
                proof {
                    lemma_cell_div_mod(total as int, i as int, j as int);
                    assert(i * total + j + 1 <= total * total) by (nonlinear_arith)
                        requires
                            i < total,
                            j < total,
                    ;
                }
                out.push(level);
                j += 1;
            }
            proof {
                assert(i * total + total == (i + 1) * total) by (nonlinear_arith);
            }
            i += 1;
        }
        out
    }

    /// The red, green and blue levels of the rendering with modules `module_sz` pixels
    /// wide, pixel by pixel, row by row.
    pub fn to_rgb_pixels(&self, module_sz: u32) -> (r: Vec<u8>)
        requires
            self.wf(),
            forall|t: int| 0 <= t < self.spec_grid().len() ==> #[trigger] self.spec_grid()[t]
                != Module::Empty,
            3 * render_side(*self, module_sz as int) * render_side(*self, module_sz as int)
                <= usize::MAX,
            render_side(*self, module_sz as int) <= u32::MAX,
        ensures
            r@.len() == 3 * render_side(*self, module_sz as int) * render_side(
                *self,
                module_sz as int,
            ),
            forall|k: int|
                0 <= k < r@.len() ==> #[trigger] r@[k] == rgb_level(
                    pixel_module(
                        self.spec_grid(),
                        self.spec_w(),
                        quiet_modules(self.spec_ver()) * module_sz,
                        module_sz as int,
                        (k / 3) / render_side(*self, module_sz as int),
                        (k / 3) % render_side(*self, module_sz as int),
                    ),
                    k % 3,
                ),
    {
        let ms = module_sz as usize;
        let qzm: usize = match self.version() {
            Version::Normal(_) => 4,
            Version::Micro(_) => 2,
        };
        let ghost side = render_side(*self, module_sz as int);
        proof {
            assert(qzm * ms + qzm * ms + self.spec_w() * ms == side) by (nonlinear_arith)
                requires
                    side == 2 * qzm * ms + self.spec_w() * ms,
            ;
            assert(0 <= self.spec_w() * ms) by (nonlinear_arith)
                requires
                    0 <= self.spec_w(),
                    0 <= ms,
            ;
            if ms == 0 {
                assert(self.spec_w() * ms == 0) by (nonlinear_arith)
                    requires
                        ms == 0,
                ;
            }
            assert(side * side <= 3 * side * side) by (nonlinear_arith)
                requires
                    side >= 0,
            ;
        }
        let qz = qzm * ms;
        let total = qz + self.width() * ms + qz;
        let ghost g = self.spec_grid();
        let ghost w = self.spec_w();
        let mut out: Vec<u8> = Vec::new();
        let mut i: usize = 0;
        while i < total
            invariant
                self.wf(),
                g == self.spec_grid(),
                w == self.spec_w(),
                ms == module_sz,
                ms > 0 || total == 0,
                qz == quiet_modules(self.spec_ver()) * ms,
                total == side,
                qz + w * ms <= total,
                3 * total * total <= usize::MAX,
                i <= total,
                out@.len() == 3 * (i * total),
                forall|k: int|
                    0 <= k < out@.len() ==> #[trigger] out@[k] == rgb_level(
                        pixel_module(g, w, qz as int, ms as int, (k / 3) / side, (k / 3) % side),
                        k % 3,
                    ),
            decreases total - i,
        {
            let mut j: usize = 0;
            while j < total
                invariant
                    self.wf(),
                    g == self.spec_grid(),
                    w == self.spec_w(),
                    ms > 0,
                    total == side,
                    qz + w * ms <= total,
                    3 * total * total <= usize::MAX,
                    i < total,
                    j <= total,
                    out@.len() == 3 * (i * total + j),
                    forall|k: int|
                        0 <= k < out@.len() ==> #[trigger] out@[k] == rgb_level(
                            pixel_module(g, w, qz as int, ms as int, (k / 3) / side, (k / 3) % side),
                            k % 3,
                        ),
                decreases total - j,
            {
                let m = self.pixel_at(qz, ms, i, j);
                let (red, green, blue): (u8, u8, u8) = match m {
                    None => (255, 255, 255),
                    Some(md) => {
                        let b = md.color().bits();
                        (
                            if b & 4 != 0 {
                                255
                            } else {
                                0
                            },
                            if b & 2 != 0 {
                                255
                            } else {
                                0
                            },
                            if b & 1 != 0 {
                                255
                            } else {
                                0
                            },
                        )
                    },
                };
                proof {
                    lemma_cell_div_mod(total as int, i as int, j as int);
                    assert(3 * (i * total + j) + 3 <= 3 * (total * total)) by (nonlinear_arith)
                        requires
                            i < total,
                            j < total,
                    ;
                }
                let ghost p = (i * total + j) as int;
                out.push(red);
                out.push(green);
                out.push(blue);
                proof {
                    assert((3 * p) / 3 == p && (3 * p) % 3 == 0);
                    assert((3 * p + 1) / 3 == p && (3 * p + 1) % 3 == 1);
                    assert((3 * p + 2) / 3 == p && (3 * p + 2) % 3 == 2);
                }
                j += 1;
            }
            proof {
                assert(i * total + total == (i + 1) * total) by (nonlinear_arith);
            }
            i += 1;
        }
        proof {
            assert(3 * (total * total) == 3 * total * total) by (nonlinear_arith);
        }
        out
    }

    /// The rendering as text, one line per pixel row: a full block for light pixels and
    /// the quiet zone, a space for dark ones.
    pub fn to_str(&self, module_sz: usize) -> (r: String)
        requires
            self.wf(),
            forall|t: int| 0 <= t < self.spec_grid().len() ==> #[trigger] self.spec_grid()[t]
                != Module::Empty,
            render_side(*self, module_sz as int) <= usize::MAX,
        ensures
            r@ == text_rows(
                self.spec_grid(),
                self.spec_w(),
                quiet_modules(self.spec_ver()) * module_sz,
                module_sz as int,
                render_side(*self, module_sz as int),
                render_side(*self, module_sz as int),
            ),
    {
        let ms = module_sz;
        let qzm: usize = match self.version() {
            Version::Normal(_) => 4,
            Version::Micro(_) => 2,
        };
        let ghost side = render_side(*self, module_sz as int);
        proof {
            assert(qzm * ms + qzm * ms + self.spec_w() * ms == side) by (nonlinear_arith)
                requires
                    side == 2 * qzm * ms + self.spec_w() * ms,
            ;
            assert(0 <= self.spec_w() * ms) by (nonlinear_arith)
                requires
                    0 <= self.spec_w(),
                    0 <= ms,
            ;
            if ms == 0 {
                assert(self.spec_w() * ms == 0) by (nonlinear_arith)
                    requires
                        ms == 0,
                ;
            }
            reveal_strlit("█");
            reveal_strlit(" ");
            reveal_strlit("\n");
        }
        let qz = qzm * ms;
        let total = qz + self.width() * ms + qz;
        let ghost g = self.spec_grid();
        let ghost w = self.spec_w();
        let mut canvas = String::new();
        let mut i: usize = 0;
        while i < total
            invariant
                self.wf(),
                g == self.spec_grid(),
                w == self.spec_w(),
                ms == module_sz,
                ms > 0 || total == 0,
                qz == quiet_modules(self.spec_ver()) * ms,
                total == side,
                qz + w * ms <= total,
                i <= total,
                canvas@ == text_rows(g, w, qz as int, ms as int, side, i as int),
            decreases total - i,
        {
            let ghost before = canvas@;
            let mut j: usize = 0;
            while j < total
                invariant
                    self.wf(),
                    g == self.spec_grid(),
                    w == self.spec_w(),
                    ms > 0,
                    total == side,
                    qz + w * ms <= total,
                    i < total,
                    j <= total,
                    canvas@ == before + Seq::new(
                        j as nat,
                        |jj: int| text_char(pixel_module(g, w, qz as int, ms as int, i as int, jj)),
                    ),
                decreases total - j,
            {
                let m = self.pixel_at(qz, ms, i, j);
                let light = match m {
                    None => true,
                    Some(md) => md.color() == Color::White,
                };
                proof {
                    reveal_strlit("█");
                    reveal_strlit(" ");
                }
                if light {
                    canvas.append("█");
                } else {
                    canvas.append(" ");
                }
                proof {
                    assert(canvas@ =~= before + Seq::new(
                        (j + 1) as nat,
                        |jj: int| text_char(pixel_module(g, w, qz as int, ms as int, i as int, jj)),
                    ));
                }
                j += 1;
            }
            proof {
                reveal_strlit("\n");
            }
            canvas.append("\n");
            proof {
                assert(canvas@ =~= text_rows(g, w, qz as int, ms as int, side, i + 1));
            }
            i += 1;
        }
        canvas
    }
}

} // verus!
