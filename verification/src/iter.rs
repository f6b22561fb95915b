//! The order in which data modules are placed in the encoding region: pairs of columns from
//! the right edge, zigzagging up and down, stepping over the vertical timing pattern and over
//! every module that a function pattern or the format and version information reserves.
use crate::builder::qr::alignment_skipped;
use crate::metadata::{lemma_alignment_positions, Version};
use vstd::prelude::*;

verus! {

/// The column of the vertical timing pattern, which the placement order steps over.
pub open spec fn timing_col(ver: Version) -> int {
    if ver is Micro {
        0
    } else {
        6
    }
}

/// Modules reserved for finder patterns with their format areas, timing patterns, version
/// information and alignment patterns.
pub open spec fn reserved(ver: Version, w: int, x: int, y: int) -> bool {
    let ap = ver.spec_alignment_pattern();
    ||| x < 9 && y < 9
    ||| x >= w - 8 && y < 9
    ||| x < 9 && y >= w - 8
    ||| x == 6 || y == 6
    ||| (ver matches Version::Normal(v) && 7 <= v) && ((w - 11 <= x <= w - 9 && 0 <= y <= 5) || (0
        <= x <= 5 && w - 11 <= y <= w - 9))
    ||| exists|a: int, b: int|
        0 <= a < ap.len() && 0 <= b < ap.len() && !alignment_skipped(
            w,
            #[trigger] ap[a] as int,
            #[trigger] ap[b] as int,
        ) && ap[a] - 2 <= x <= ap[a] + 2 && ap[b] - 2 <= y <= ap[b] + 2
}

/// Column `x` renumbered as if the timing column were not there.
pub open spec fn adjusted(x: int, vtc: int) -> int {
    if x <= vtc {
        x + 1
    } else {
        x
    }
}

/// One step of the zigzag: up or down the current pair of columns, right column first, then
/// on to the next pair.
pub open spec fn raw_step(w: int, vtc: int, x: int, y: int) -> (int, int) {
    let ct = (w - adjusted(x, vtc)) % 4;
    if ct == 2 && y > 0 {
        (x + 1, y - 1)
    } else if ct == 0 && y < w - 1 {
        (x + 1, y + 1)
    } else if (ct == 0 || ct == 2) && x == vtc + 1 {
        (x - 2, y)
    } else {
        (x - 1, y)
    }
}

/// How far into the zigzag `(x, y)` lies.
pub open spec fn zigzag_rank(w: int, vtc: int, x: int, y: int) -> int {
    let d = w - 1 - adjusted(x, vtc);
    let p = d / 2;
    let pos = if p % 2 == 0 {
        (w - 1 - y) * 2
    } else {
        y * 2
    };
    p * (2 * w) + pos + d % 2
}

/// Steps of the zigzag left from `(x, y)`.
pub open spec fn remaining(w: int, vtc: int, x: int, y: int) -> int {
    if x < 0 {
        0
    } else {
        ((w - 1) / 2) * (2 * w) - zigzag_rank(w, vtc, x, y)
    }
}

/// A position the zigzag can be at: in the grid and off the timing column, or just past the
/// left edge when it is done.
pub open spec fn state_ok(w: int, vtc: int, x: int, y: int) -> bool {
    &&& 11 <= w <= 177
    &&& w % 2 == 1
    &&& (vtc == 0 || vtc == 6)
    &&& vtc + 1 < w
    &&& -1 <= x < w
    &&& x != vtc
    &&& 0 <= y < w
}

/// A step of the zigzag moves one place on, or ends it.
#[verifier::rlimit(50)]
pub proof fn lemma_raw_step(w: int, vtc: int, x: int, y: int)
    requires
        state_ok(w, vtc, x, y),
        x >= 0,
    ensures
        remaining(w, vtc, x, y) >= 1,
        state_ok(w, vtc, raw_step(w, vtc, x, y).0, raw_step(w, vtc, x, y).1),
        raw_step(w, vtc, x, y).0 >= 0 ==> zigzag_rank(
            w,
            vtc,
            raw_step(w, vtc, x, y).0,
            raw_step(w, vtc, x, y).1,
        ) == zigzag_rank(w, vtc, x, y) + 1,
{
    let ax = adjusted(x, vtc);
    let d = w - 1 - ax;
    let p = d / 2;
    let np = (w - 1) / 2;
    assert(1 <= ax <= w - 1);
    assert(0 <= p < np);
    assert(p * (2 * w) + 2 * w <= np * (2 * w)) by (nonlinear_arith)
        requires
            p + 1 <= np,
            w >= 0,
    ;
    assert((p + 1) * (2 * w) == p * (2 * w) + 2 * w) by (nonlinear_arith);
    let (x2, y2) = raw_step(w, vtc, x, y);
    if x2 >= 0 {
        let ax2 = adjusted(x2, vtc);
        let d2 = w - 1 - ax2;
        if x2 == x + 1 {
            assert(x + 1 != vtc);
            assert(ax2 == ax + 1);
        } else if x2 == x - 2 {
            assert(ax2 == ax - 1);
        } else {
            assert(x2 == x - 1);
            assert(x - 1 != vtc);
            assert(ax2 == ax - 1);
        }
    }
}

/// The next position after `(x, y)` that is not reserved, or the end.
pub open spec fn advance(ver: Version, w: int, x: int, y: int) -> (int, int)
    decreases remaining(w, timing_col(ver), x, y),
    when state_ok(w, timing_col(ver), x, y) && x >= 0
{
    let s = raw_step(w, timing_col(ver), x, y);
    proof {
        lemma_raw_step(w, timing_col(ver), x, y);
    }
    if s.0 < 0 || !reserved(ver, w, s.0, s.1) {
        s
    } else {
        advance(ver, w, s.0, s.1)
    }
}

/// Advancing moves forward and keeps the position valid.
pub proof fn lemma_advance(ver: Version, w: int, x: int, y: int)
    requires
        state_ok(w, timing_col(ver), x, y),
        x >= 0,
    ensures
        state_ok(w, timing_col(ver), advance(ver, w, x, y).0, advance(ver, w, x, y).1),
        0 <= remaining(w, timing_col(ver), advance(ver, w, x, y).0, advance(ver, w, x, y).1)
            < remaining(w, timing_col(ver), x, y),
        advance(ver, w, x, y).0 >= 0 ==> !reserved(
            ver,
            w,
            advance(ver, w, x, y).0,
            advance(ver, w, x, y).1,
        ),
    decreases remaining(w, timing_col(ver), x, y),
{
    let s = raw_step(w, timing_col(ver), x, y);
    lemma_raw_step(w, timing_col(ver), x, y);
    if !(s.0 < 0 || !reserved(ver, w, s.0, s.1)) {
        lemma_advance(ver, w, s.0, s.1);
    }
}

/// The positions that placement visits from `(x, y)` on, in order.
pub open spec fn region_from(ver: Version, w: int, x: int, y: int) -> Seq<(i32, i32)>
    decreases remaining(w, timing_col(ver), x, y),
    when state_ok(w, timing_col(ver), x, y)
{
    if x < 0 {
        Seq::empty()
    } else {
        let n = advance(ver, w, x, y);
        proof {
            lemma_advance(ver, w, x, y);
        }
        seq![(x as i32, y as i32)] + region_from(ver, w, n.0, n.1)
    }
}

/// The positions of the encoding region in placement order, starting at the bottom right.
pub open spec fn region(ver: Version) -> Seq<(i32, i32)> {
    region_from(ver, ver.spec_width(), ver.spec_width() - 1, ver.spec_width() - 1)
}

/// Every position of the walk lies in the grid, and a walk that has not ended has one.
pub proof fn lemma_region_in_range(ver: Version, w: int, x: int, y: int)
    requires
        state_ok(w, timing_col(ver), x, y),
    ensures
        forall|j: int|
            0 <= j < region_from(ver, w, x, y).len() ==> 0 <= #[trigger] region_from(
                ver,
                w,
                x,
                y,
            )[j].0 < w && 0 <= region_from(ver, w, x, y)[j].1 < w,
        x >= 0 ==> region_from(ver, w, x, y).len() > 0,
    decreases remaining(w, timing_col(ver), x, y),
{
    if x >= 0 {
        let n = advance(ver, w, x, y);
        lemma_advance(ver, w, x, y);
        lemma_region_in_range(ver, w, n.0, n.1);
        let rf = region_from(ver, w, x, y);
        let tail = region_from(ver, w, n.0, n.1);
        assert(rf == seq![(x as i32, y as i32)] + tail);
        assert forall|j: int| 0 <= j < rf.len() implies 0 <= #[trigger] rf[j].0 < w && 0 <= rf[j].1
            < w by {
            if j > 0 {
                assert(rf[j] == tail[j - 1]);
            }
        }
    }
}

/// The walk over the encoding region visits positions in the grid, and at least one.
pub proof fn lemma_region(ver: Version)
    requires
        ver.valid(),
    ensures
        region(ver).len() > 0,
        forall|j: int|
            0 <= j < region(ver).len() ==> 0 <= #[trigger] region(ver)[j].0 < ver.spec_width()
                && 0 <= region(ver)[j].1 < ver.spec_width(),
{
    let w = ver.spec_width();
    lemma_region_in_range(ver, w, w - 1, w - 1);
}

/// Along the walk the steps left strictly decrease, and every position after the first is
/// off the reserved modules.
proof fn lemma_region_order(ver: Version, w: int, x: int, y: int)
    requires
        state_ok(w, timing_col(ver), x, y),
    ensures
        forall|j: int|
            0 <= j < region_from(ver, w, x, y).len() ==> {
                let q = #[trigger] region_from(ver, w, x, y)[j];
                &&& state_ok(w, timing_col(ver), q.0 as int, q.1 as int)
                &&& q.0 >= 0
                &&& remaining(w, timing_col(ver), q.0 as int, q.1 as int) <= remaining(
                    w,
                    timing_col(ver),
                    x,
                    y,
                )
                &&& (j > 0 ==> remaining(w, timing_col(ver), q.0 as int, q.1 as int) < remaining(
                    w,
                    timing_col(ver),
                    x,
                    y,
                ))
                &&& (j > 0 ==> !reserved(ver, w, q.0 as int, q.1 as int))
                &&& (j == 0 ==> q.0 == x && q.1 == y)
            },
        forall|i: int, j: int|
            0 <= i < j < region_from(ver, w, x, y).len() ==> remaining(
                w,
                timing_col(ver),
                (#[trigger] region_from(ver, w, x, y)[i]).0 as int,
                region_from(ver, w, x, y)[i].1 as int,
            ) > remaining(
                w,
                timing_col(ver),
                (#[trigger] region_from(ver, w, x, y)[j]).0 as int,
                region_from(ver, w, x, y)[j].1 as int,
            ),
    decreases remaining(w, timing_col(ver), x, y),
{
    if x >= 0 {
        let n = advance(ver, w, x, y);
        lemma_advance(ver, w, x, y);
        lemma_region_order(ver, w, n.0, n.1);
        lemma_region_in_range(ver, w, n.0, n.1);
        let rf = region_from(ver, w, x, y);
        let tail = region_from(ver, w, n.0, n.1);
        assert(rf == seq![(x as i32, y as i32)] + tail);
        if tail.len() > 0 {
            assert(tail[0].0 == n.0 && tail[0].1 == n.1);
        }
        assert forall|j: int| 0 <= j < rf.len() implies {
            let q = #[trigger] rf[j];
            &&& state_ok(w, timing_col(ver), q.0 as int, q.1 as int)
            &&& q.0 >= 0
            &&& remaining(w, timing_col(ver), q.0 as int, q.1 as int) <= remaining(
                w,
                timing_col(ver),
                x,
                y,
            )
            &&& (j > 0 ==> remaining(w, timing_col(ver), q.0 as int, q.1 as int) < remaining(
                w,
                timing_col(ver),
                x,
                y,
            ))
            &&& (j > 0 ==> !reserved(ver, w, q.0 as int, q.1 as int))
            &&& (j == 0 ==> q.0 == x && q.1 == y)
        } by {
            if j > 0 {
                assert(rf[j] == tail[j - 1]);
                if j - 1 == 0 {
                    assert(n.0 >= 0);
                }
            }
        }
        assert forall|i: int, j: int| 0 <= i < j < rf.len() implies remaining(
            w,
            timing_col(ver),
            (#[trigger] rf[i]).0 as int,
            rf[i].1 as int,
        ) > remaining(w, timing_col(ver), (#[trigger] rf[j]).0 as int, rf[j].1 as int) by {
            assert(rf[j] == tail[j - 1]);
            if i > 0 {
                assert(rf[i] == tail[i - 1]);
            }
        }
    }
}

/// The walk over the encoding region visits distinct positions of the grid, none of them
/// reserved for a function pattern or for format or version information.
pub proof fn lemma_region_positions(ver: Version)
    requires
        ver.valid(),
    ensures
        forall|j: int|
            0 <= j < region(ver).len() ==> 0 <= (#[trigger] region(ver)[j]).0 < ver.spec_width() && 0
                <= region(ver)[j].1 < ver.spec_width() && !reserved(
                ver,
                ver.spec_width(),
                region(ver)[j].0 as int,
                region(ver)[j].1 as int,
            ),
        forall|i: int, j: int|
            0 <= i < j < region(ver).len() ==> #[trigger] region(ver)[i] != #[trigger] region(ver)[j],
{
    let w = ver.spec_width();
    lemma_region(ver);
    lemma_region_order(ver, w, w - 1, w - 1);
    lemma_alignment_positions(ver);
    let rg = region(ver);
    let ap = ver.spec_alignment_pattern();
    assert(!reserved(ver, w, w - 1, w - 1)) by {
        if exists|a: int, b: int|
            0 <= a < ap.len() && 0 <= b < ap.len() && !alignment_skipped(
                w,
                #[trigger] ap[a] as int,
                #[trigger] ap[b] as int,
            ) && ap[a] - 2 <= w - 1 <= ap[a] + 2 && ap[b] - 2 <= w - 1 <= ap[b] + 2 {
            let (a, b) = choose|a: int, b: int|
                0 <= a < ap.len() && 0 <= b < ap.len() && !alignment_skipped(
                    w,
                    #[trigger] ap[a] as int,
                    #[trigger] ap[b] as int,
                ) && ap[a] - 2 <= w - 1 <= ap[a] + 2 && ap[b] - 2 <= w - 1 <= ap[b] + 2;
            assert(ap[a] <= w - 7);
        }
    }
    assert forall|i: int, j: int| 0 <= i < j < rg.len() implies #[trigger] rg[i] != #[trigger] rg[j] by {
        let a = rg[i];
        let b = rg[j];
        assert(remaining(w, timing_col(ver), a.0 as int, a.1 as int) > remaining(
            w,
            timing_col(ver),
            b.0 as int,
            b.1 as int,
        ));
    }
}

/// Walks the encoding region in placement order.
#[derive(Clone)]
pub struct EncRegionIter {
    x: i32,
    y: i32,
    w: i32,
    ap: Vec<i32>,
    ver: Version,
    vert_timing_col: i32,
}

impl EncRegionIter {
    pub closed spec fn spec_x(&self) -> int {
        self.x as int
    }

    pub closed spec fn spec_y(&self) -> int {
        self.y as int
    }

    pub closed spec fn spec_ver(&self) -> Version {
        self.ver
    }

    pub closed spec fn spec_w(&self) -> int {
        self.w as int
    }

    /// The positions still to come.
    pub open spec fn rest(&self) -> Seq<(i32, i32)> {
        region_from(self.spec_ver(), self.spec_w(), self.spec_x(), self.spec_y())
    }

    pub closed spec fn wf(&self) -> bool {
        &&& self.ver.valid()
        &&& self.w == self.ver.spec_width()
        &&& self.ap@ == self.ver.spec_alignment_pattern()
        &&& self.vert_timing_col == timing_col(self.ver)
        &&& state_ok(self.w as int, self.vert_timing_col as int, self.x as int, self.y as int)
    }

    /// A walk over the encoding region of `ver` from its start.
    pub fn new(ver: Version) -> (r: Self)
        requires
            ver.valid(),
        ensures
            r.wf(),
            r.spec_ver() == ver,
            r.spec_w() == ver.spec_width(),
            r.rest() == region(ver),
    {
        let w = ver.width() as i32;
        let ap = ver.alignment_pattern();
        let vert_timing_col = match ver {
            Version::Micro(_) => 0,
            Version::Normal(_) => 6,
        };
        Self { x: w - 1, y: w - 1, w, ap, ver, vert_timing_col }
    }

    /// Whether the module at `(x, y)` is reserved for a function pattern or for format or
    /// version information.
    pub fn is_reserved(&self, x: i32, y: i32) -> (r: bool)
        requires
            self.wf(),
        ensures
            r == reserved(self.spec_ver(), self.spec_w(), x as int, y as int),
    {
        let w = self.w;
        if x < 9 && y < 9 {
            return true;
        }
        if x >= w - 8 && y < 9 {
            return true;
        }
        if x < 9 && y >= w - 8 {
            return true;
        }
        if x == 6 || y == 6 {
            return true;
        }
        if let Version::Normal(v) = self.ver {
            if v >= 7 {
                if w - 11 <= x && x <= w - 9 && 0 <= y && y <= 5 {
                    return true;
                }
                if 0 <= x && x <= 5 && w - 11 <= y && y <= w - 9 {
                    return true;
                }
            }
        }
        let ghost ap = self.ap@;
        proof {
            lemma_alignment_positions(self.ver);
        }
        let n = self.ap.len();
        let mut i: usize = 0;
        while i < n
            invariant
                n == ap.len(),
                ap == self.ap@,
                ap == self.spec_ver().spec_alignment_pattern(),
                w as int == self.spec_w(),
                ap.len() <= 7,
                forall|k: int| 0 <= k < ap.len() ==> 6 <= #[trigger] ap[k] <= w - 7,
                w == self.w,
                w <= 177,
                i <= n,
                forall|a: int, b: int|
                    0 <= a < i && 0 <= b < ap.len() ==> !(!alignment_skipped(
                        w as int,
                        #[trigger] ap[a] as int,
                        #[trigger] ap[b] as int,
                    ) && ap[a] - 2 <= x <= ap[a] + 2 && ap[b] - 2 <= y <= ap[b] + 2),
            decreases n - i,
        {
            let ax = self.ap[i];
            let mut j: usize = 0;
            while j < n
                invariant
                    n == ap.len(),
                    ap == self.ap@,
                    ap == self.spec_ver().spec_alignment_pattern(),
                    w as int == self.spec_w(),
                    ap.len() <= 7,
                    forall|k: int| 0 <= k < ap.len() ==> 6 <= #[trigger] ap[k] <= w - 7,
                    w == self.w,
                    w <= 177,
                    i < n,
                    ax == ap[i as int],
                    j <= n,
                    forall|a: int, b: int|
                        0 <= a < i && 0 <= b < ap.len() ==> !(!alignment_skipped(
                            w as int,
                            #[trigger] ap[a] as int,
                            #[trigger] ap[b] as int,
                        ) && ap[a] - 2 <= x <= ap[a] + 2 && ap[b] - 2 <= y <= ap[b] + 2),
                    forall|b: int|
                        0 <= b < j ==> !(!alignment_skipped(
                            w as int,
                            ax as int,
                            #[trigger] ap[b] as int,
                        ) && ax - 2 <= x <= ax + 2 && ap[b] - 2 <= y <= ap[b] + 2),
                decreases n - j,
            {
                let ay = self.ap[j];
                assert(6 <= ap[j as int] <= w - 7);
                if !((ax == 6 && (ay == 6 || ay == w - 7)) || (ax == w - 7 && ay == 6)) {
                    if ax - 2 <= x && x <= ax + 2 && ay - 2 <= y && y <= ay + 2 {
                        proof {
                            assert(ap[i as int] == ax && ap[j as int] == ay);
                        }
                        return true;
                    }
                }
                j += 1;
            }
            i += 1;
        }
        false
    }

    /// The next position of the encoding region, or `None` once it is done.
    pub fn next(&mut self) -> (r: Option<(i32, i32)>)
        requires
            old(self).wf(),
        ensures
            final(self).wf(),
            final(self).spec_ver() == old(self).spec_ver(),
            final(self).spec_w() == old(self).spec_w(),
            old(self).rest().len() == 0 ==> r is None && final(self).rest().len() == 0,
            r matches Some(p) ==> 0 <= p.0 < old(self).spec_w() && 0 <= p.1 < old(self).spec_w(),
            old(self).rest().len() > 0 ==> r == Some(old(self).rest()[0]) && final(self).rest()
                == old(self).rest().drop_first(),
    {
        let ghost w = self.w as int;
        let ghost vtc = self.vert_timing_col as int;
        let ghost ver = self.ver;
        if self.x < 0 {
            return None;
        }
        let res = (self.x, self.y);
        let ghost target = advance(ver, w, self.x as int, self.y as int);
        proof {
            lemma_advance(ver, w, self.x as int, self.y as int);
            assert(self.rest() =~= seq![res] + region_from(ver, w, target.0, target.1));
        }
        loop
            invariant_except_break
                self.x >= 0,
                advance(ver, w, self.x as int, self.y as int) == target,
            invariant
                self.wf(),
                self.ver == ver,
                self.w == w,
                self.vert_timing_col == vtc,
                vtc == timing_col(ver),
            ensures
                self.x == target.0,
                self.y == target.1,
            decreases remaining(w, vtc, self.x as int, self.y as int),
        {
            proof {
                lemma_raw_step(w, vtc, self.x as int, self.y as int);
            }
            let adjusted_x = if self.x <= self.vert_timing_col {
                self.x + 1
            } else {
                self.x
            };
            let col_type = (self.w - adjusted_x) % 4;
            if col_type == 2 && self.y > 0 {
                self.y -= 1;
                self.x += 1;
            } else if col_type == 0 && self.y < self.w - 1 {
                self.y += 1;
                self.x += 1;
            } else if (col_type == 0 || col_type == 2) && self.x == self.vert_timing_col + 1 {
                self.x -= 2;
            } else {
                self.x -= 1;
            }
            if self.x < 0 || !self.is_reserved(self.x, self.y) {
                break;
            }
        }
        Some(res)
    }
}

} // verus!
