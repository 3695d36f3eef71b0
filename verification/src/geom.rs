//! Points, circles and axis-aligned rectangles on an integer plane.

use vstd::prelude::*;

verus! {

/// Coordinates and radii are kept within this bound so that squared
/// distances and areas fit in an `i64`.
pub const COORD_BOUND: i64 = 536870912;

/// A point on the plane
#[derive(Clone, Copy, PartialEq, Eq, Structural, Debug)]
pub struct Point {
    pub x: i64,
    pub y: i64,
}

/// A circle given by its center and radius
#[derive(Clone, Copy, PartialEq, Eq, Structural, Debug)]
pub struct Circle {
    pub x: i64,
    pub y: i64,
    pub r: i64,
}

/// An axis-aligned rectangle given by two opposite corners
#[derive(Clone, Copy, PartialEq, Eq, Structural, Debug)]
pub struct Rect {
    pub min_x: i64,
    pub min_y: i64,
    pub max_x: i64,
    pub max_y: i64,
}

impl Point {
    /// All coordinates lie within the working bound.
    pub open spec fn bounded(&self) -> bool {
        -COORD_BOUND <= self.x <= COORD_BOUND && -COORD_BOUND <= self.y <= COORD_BOUND
    }
}

impl Circle {
    /// All coordinates and the radius lie within the working bound.
    pub open spec fn bounded(&self) -> bool {
        -COORD_BOUND <= self.x <= COORD_BOUND && -COORD_BOUND <= self.y <= COORD_BOUND
            && -COORD_BOUND <= self.r <= COORD_BOUND
    }
}

impl Rect {
    /// All coordinates lie within the working bound.
    pub open spec fn bounded(&self) -> bool {
        -COORD_BOUND <= self.min_x <= COORD_BOUND && -COORD_BOUND <= self.min_y <= COORD_BOUND
            && -COORD_BOUND <= self.max_x <= COORD_BOUND && -COORD_BOUND <= self.max_y
            <= COORD_BOUND
    }
}

/// The product of two values bounded by `2 * COORD_BOUND` stays well inside `i64`.
proof fn lemma_square_bounded(a: int, b: int)
    requires
        -2 * COORD_BOUND <= a <= 2 * COORD_BOUND,
        -2 * COORD_BOUND <= b <= 2 * COORD_BOUND,
    ensures
        -0x1000_0000_0000_0000 <= a * b <= 0x1000_0000_0000_0000,
{
    assert(-0x1000_0000_0000_0000 <= a * b <= 0x1000_0000_0000_0000) by (nonlinear_arith)
        requires
            -0x4000_0000 <= a <= 0x4000_0000,
            -0x4000_0000 <= b <= 0x4000_0000,
    ;
}

/// A circle strictly contains a point when the squared distance of the point
/// from the center is below the squared radius.
pub open spec fn circle_contains_point(c: Circle, p: Point) -> bool {
    (c.x - p.x) * (c.x - p.x) + (c.y - p.y) * (c.y - p.y) < c.r * c.r
}

/// Two circles overlap when their centers are closer than the sum of
/// their radii.
pub open spec fn circles_overlap(a: Circle, b: Circle) -> bool {
    (a.x - b.x) * (a.x - b.x) + (a.y - b.y) * (a.y - b.y) < (a.r + b.r) * (a.r + b.r)
}

/// A rectangle overlaps a circle when the point of the rectangle closest to
/// the circle's center lies strictly inside the circle.  The closest point is
/// the center clamped to the rectangle's coordinate ranges.
pub open spec fn rect_overlaps_circle(rect: Rect, c: Circle) -> bool {
    clamped_dist_squared(rect, c) < c.r * c.r
}

/// The squared distance between a circle's center and the rectangle point
/// closest to it.
pub open spec fn clamped_dist_squared(rect: Rect, c: Circle) -> int {
    let x = max_spec(rect.min_x as int, min_spec(rect.max_x as int, c.x as int));
    let y = max_spec(rect.min_y as int, min_spec(rect.max_y as int, c.y as int));
    (x - c.x) * (x - c.x) + (y - c.y) * (y - c.y)
}

/// The larger of two integers.
pub open spec fn max_spec(a: int, b: int) -> int {
    if a < b {
        b
    } else {
        a
    }
}

/// The smaller of two integers.
pub open spec fn min_spec(a: int, b: int) -> int {
    if a < b {
        a
    } else {
        b
    }
}

impl Rect {
    /// The rectangle's width
    pub fn width(&self) -> (r: i64)
        requires
            self.bounded(),
        ensures
            r == self.max_x - self.min_x,
    {
        self.max_x - self.min_x
    }

    /// The rectangle's height
    pub fn height(&self) -> (r: i64)
        requires
            self.bounded(),
        ensures
            r == self.max_y - self.min_y,
    {
        self.max_y - self.min_y
    }

    /// The rectangle's signed area
    pub fn area(&self) -> (r: i64)
        requires
            self.bounded(),
        ensures
            r == (self.max_x - self.min_x) * (self.max_y - self.min_y),
    {
        proof {
            lemma_square_bounded(
                self.max_x - self.min_x,
                self.max_y - self.min_y,
            );
        }
        self.width() * self.height()
    }

    /// Check whether this rectangle overlaps the given circle
    pub fn overlaps(&self, other: &Circle) -> (r: bool)
        requires
            self.bounded(),
            other.bounded(),
        ensures
            r == rect_overlaps_circle(*self, *other),
    {
        let cx = if self.max_x < other.x {
            self.max_x
        } else {
            other.x
        };
        let x = if self.min_x < cx {
            cx
        } else {
            self.min_x
        };
        let cy = if self.max_y < other.y {
            self.max_y
        } else {
            other.y
        };
        let y = if self.min_y < cy {
            cy
        } else {
            self.min_y
        };
        let dx = x - other.x;
        let dy = y - other.y;
        proof {
            lemma_square_bounded(dx as int, dx as int);
            lemma_square_bounded(dy as int, dy as int);
            lemma_square_bounded(other.r as int, other.r as int);
        }
        dx * dx + dy * dy < other.r * other.r
    }
}

impl Circle {
    /// Check whether this circle strictly contains the given point
    pub fn contains(&self, other: &Point) -> (r: bool)
        requires
            self.bounded(),
            other.bounded(),
        ensures
            r == circle_contains_point(*self, *other),
    {
        let dx = self.x - other.x;
        let dy = self.y - other.y;
        proof {
            lemma_square_bounded(dx as int, dx as int);
            lemma_square_bounded(dy as int, dy as int);
            lemma_square_bounded(self.r as int, self.r as int);
        }
        let squared_dist = dx * dx + dy * dy;
        squared_dist < self.r * self.r
    }

    /// Check whether this circle overlaps the given circle
    pub fn overlaps(&self, other: &Circle) -> (r: bool)
        requires
            self.bounded(),
            other.bounded(),
        ensures
            r == circles_overlap(*self, *other),
    {
        let dx = self.x - other.x;
        let dy = self.y - other.y;
        proof {
            lemma_square_bounded(dx as int, dx as int);
            lemma_square_bounded(dy as int, dy as int);
            lemma_square_bounded(self.r + other.r, self.r + other.r);
        }
        let squared_dist = dx * dx + dy * dy;
        squared_dist < (self.r + other.r) * (self.r + other.r)
    }
}

/// A point inside the half-open extent of a rectangle.
pub open spec fn in_rect(r: Rect, p: Point) -> bool {
    r.min_x <= p.x < r.max_x && r.min_y <= p.y < r.max_y
}

/// How many circles of the sequence strictly contain the point.
pub open spec fn count_containing(cs: Seq<Circle>, p: Point) -> nat
    decreases cs.len(),
{
    if cs.len() == 0 {
        0
    } else {
        count_containing(cs.drop_last(), p) + (if circle_contains_point(cs.last(), p) {
            1nat
        } else {
            0nat
        })
    }
}

/// How many circles of the sequence the rectangle overlaps.
pub open spec fn count_overlapping(cs: Seq<Circle>, r: Rect) -> nat
    decreases cs.len(),
{
    if cs.len() == 0 {
        0
    } else {
        count_overlapping(cs.drop_last(), r) + (if rect_overlaps_circle(r, cs.last()) {
            1nat
        } else {
            0nat
        })
    }
}

/// A circle that contains a point of a rectangle overlaps the rectangle:
/// the clamped center is at least as close to the center as that point.
proof fn lemma_contain_implies_overlap(r: Rect, c: Circle, p: Point)
    requires
        in_rect(r, p),
        circle_contains_point(c, p),
    ensures
        rect_overlaps_circle(r, c),
{
    let cx = max_spec(r.min_x as int, min_spec(r.max_x as int, c.x as int));
    let cy = max_spec(r.min_y as int, min_spec(r.max_y as int, c.y as int));
    assert((cx - c.x) * (cx - c.x) <= (p.x - c.x) * (p.x - c.x)) by (nonlinear_arith)
        requires
            r.min_x <= p.x <= r.max_x,
            (c.x < r.min_x && cx == r.min_x) || (c.x > r.max_x && cx == r.max_x) || (r.min_x <= c.x
                <= r.max_x && cx == c.x),
    ;
    assert((cy - c.y) * (cy - c.y) <= (p.y - c.y) * (p.y - c.y)) by (nonlinear_arith)
        requires
            r.min_y <= p.y <= r.max_y,
            (c.y < r.min_y && cy == r.min_y) || (c.y > r.max_y && cy == r.max_y) || (r.min_y <= c.y
                <= r.max_y && cy == c.y),
    ;
    assert((p.x - c.x) * (p.x - c.x) == (c.x - p.x) * (c.x - p.x)) by (nonlinear_arith);
    assert((p.y - c.y) * (p.y - c.y) == (c.y - p.y) * (c.y - p.y)) by (nonlinear_arith);
}

/// A rectangle overlaps at least as many circles as contain any one of its
/// points.
proof fn lemma_count_mono(cs: Seq<Circle>, r: Rect, p: Point)
    requires
        in_rect(r, p),
    ensures
        count_overlapping(cs, r) >= count_containing(cs, p),
    decreases cs.len(),
{
    if cs.len() > 0 {
        lemma_count_mono(cs.drop_last(), r, p);
        if circle_contains_point(cs.last(), p) {
            lemma_contain_implies_overlap(r, cs.last(), p);
        }
    }
}

/// Count the circles that strictly contain the given point.
fn count_at(circles: &[Circle], p: &Point) -> (r: usize)
    requires
        forall|k: int| 0 <= k < circles@.len() ==> (#[trigger] circles@[k]).bounded(),
        p.bounded(),
    ensures
        r == count_containing(circles@, *p),
{
    let mut count: usize = 0;
    let mut k: usize = 0;
    while k < circles.len()
        invariant
            forall|t: int| 0 <= t < circles@.len() ==> (#[trigger] circles@[t]).bounded(),
            p.bounded(),
            k <= circles@.len(),
            count == count_containing(circles@.subrange(0, k as int), *p),
            count <= k,
        decreases circles@.len() - k,
    {
        let ghost pre = circles@.subrange(0, k as int);
        let c = circles[k];
        proof {
            assert(circles@.subrange(0, k as int + 1).drop_last() =~= pre);
            assert(circles@.subrange(0, k as int + 1).last() == circles@[k as int]);
        }
        if c.contains(p) {
            count = count + 1;
        }
        k = k + 1;
    }
    proof {
        assert(circles@.subrange(0, circles@.len() as int) =~= circles@);
    }
    count
}

/// Search the rectangle by subdivision for a single point that exactly
/// `min_overlaps` circles contain, pruning quarters that too few circles
/// overlap.  The result, if any, is the product of such a point's
/// coordinates.
pub fn dfs(rect: &Rect, circles: &[Circle], min_overlaps: usize) -> (r: Option<i64>)
    requires
        rect.bounded(),
        rect.min_x <= rect.max_x,
        rect.min_y <= rect.max_y,
        forall|k: int| 0 <= k < circles@.len() ==> (#[trigger] circles@[k]).bounded(),
        min_overlaps >= 1,
    ensures
        r matches Some(v) ==> exists|p: Point|
            in_rect(*rect, p) && p.bounded() && count_containing(circles@, p) == min_overlaps && v
                == p.x * p.y,
        r is None ==> forall|p: Point|
            in_rect(*rect, p) ==> count_containing(circles@, p) != min_overlaps,
    decreases (rect.max_x - rect.min_x) * (rect.max_y - rect.min_y),
{
    let w = rect.max_x - rect.min_x;
    let h = rect.max_y - rect.min_y;
    proof {
        assert(w * h >= 0) by (nonlinear_arith)
            requires
                w >= 0,
                h >= 0,
        ;
    }
    if w == 1 && h == 1 {
        // a single point: check whether it is the one we're looking for
        let p = Point { x: rect.min_x, y: rect.min_y };
        let count = count_at(circles, &p);
        if count == min_overlaps {
            proof {
                lemma_square_bounded(p.x as int, p.y as int);
                assert(in_rect(*rect, p) && p.bounded() && count_containing(circles@, p)
                    == min_overlaps && rect.min_x * rect.min_y == p.x * p.y);
            }
            return Option::Some(rect.min_x * rect.min_y);
        }
        proof {
            assert forall|p: Point| in_rect(*rect, p) implies count_containing(circles@, p)
                != min_overlaps by {
                assert(p == (Point { x: rect.min_x, y: rect.min_y }));
            }
        }
        return Option::None;
    }
    if w < 1 || h < 1 {
        proof {
            assert forall|p: Point| in_rect(*rect, p) implies count_containing(circles@, p)
                != min_overlaps by {
                assert(false);
            }
        }
        return Option::None;
    }

    // subdivide the rectangle into quarters
    let mid_x = rect.min_x + (rect.max_x - rect.min_x) / 2;
    let mid_y = rect.min_y + (rect.max_y - rect.min_y) / 2;
    proof {
        assert(rect.min_x <= mid_x <= rect.max_x);
        assert(rect.min_y <= mid_y <= rect.max_y);
    }
    let quarters: [Rect; 4] = [
        Rect { min_x: rect.min_x, min_y: rect.min_y, max_x: mid_x, max_y: mid_y },
        Rect { min_x: mid_x, min_y: rect.min_y, max_x: rect.max_x, max_y: mid_y },
        Rect { min_x: rect.min_x, min_y: mid_y, max_x: mid_x, max_y: rect.max_y },
        Rect { min_x: mid_x, min_y: mid_y, max_x: rect.max_x, max_y: rect.max_y },
    ];
    let mut q: usize = 0;
    while q < 4
        invariant
            rect.bounded(),
            rect.min_x <= mid_x <= rect.max_x,
            rect.min_y <= mid_y <= rect.max_y,
            mid_x == rect.min_x + (rect.max_x - rect.min_x) / 2,
            mid_y == rect.min_y + (rect.max_y - rect.min_y) / 2,
            rect.max_x - rect.min_x >= 1,
            rect.max_y - rect.min_y >= 1,
            !(rect.max_x - rect.min_x == 1 && rect.max_y - rect.min_y == 1),
            forall|k: int| 0 <= k < circles@.len() ==> (#[trigger] circles@[k]).bounded(),
            min_overlaps >= 1,
            q <= 4,
            quarters@[0] == (Rect {
                min_x: rect.min_x,
                min_y: rect.min_y,
                max_x: mid_x,
                max_y: mid_y,
            }),
            quarters@[1] == (Rect {
                min_x: mid_x,
                min_y: rect.min_y,
                max_x: rect.max_x,
                max_y: mid_y,
            }),
            quarters@[2] == (Rect {
                min_x: rect.min_x,
                min_y: mid_y,
                max_x: mid_x,
                max_y: rect.max_y,
            }),
            quarters@[3] == (Rect {
                min_x: mid_x,
                min_y: mid_y,
                max_x: rect.max_x,
                max_y: rect.max_y,
            }),
            forall|qq: int, p: Point|
                0 <= qq < q && #[trigger] in_rect(quarters@[qq], p) ==> count_containing(
                    circles@,
                    p,
                ) != min_overlaps,
        decreases 4 - q,
    {
        let sub = quarters[q];
        let sw = sub.max_x - sub.min_x;
        let sh = sub.max_y - sub.min_y;
        if sw >= 1 && sh >= 1 {
            // count how many circles overlap this quarter
            let mut count: usize = 0;
            let mut k: usize = 0;
            while k < circles.len()
                invariant
                    sub.bounded(),
                    forall|t: int|
                        0 <= t < circles@.len() ==> (#[trigger] circles@[t]).bounded(),
                    k <= circles@.len(),
                    count <= k,
                    count == count_overlapping(circles@.subrange(0, k as int), sub),
                decreases circles@.len() - k,
            {
                let ghost pre = circles@.subrange(0, k as int);
                proof {
                    assert(circles@.subrange(0, k as int + 1).drop_last() =~= pre);
                    assert(circles@.subrange(0, k as int + 1).last() == circles@[k as int]);
                }
                if sub.overlaps(&circles[k]) {
                    count = count + 1;
                }
                k = k + 1;
            }
            proof {
                assert(circles@.subrange(0, circles@.len() as int) =~= circles@);
            }
            // only a quarter that enough circles overlap can hold the point
            if count >= min_overlaps {
                proof {
                    lemma_quarter_shrinks(*rect, sub, mid_x as int, mid_y as int);
                }
                match dfs(&sub, circles, min_overlaps) {
                    Option::Some(v) => {
                        proof {
                            let p = choose|p: Point|
                                in_rect(sub, p) && p.bounded() && count_containing(circles@, p)
                                    == min_overlaps && v == p.x * p.y;
                            assert(in_rect(*rect, p));
                        }
                        return Option::Some(v);
                    },
                    Option::None => {
                        proof {
                            assert forall|p: Point| in_rect(quarters@[q as int], p) implies
                                count_containing(circles@, p) != min_overlaps by {}
                        }
                    },
                }
            } else {
                proof {
                    assert forall|p: Point| in_rect(quarters@[q as int], p) implies
                        count_containing(circles@, p) != min_overlaps by {
                        lemma_count_mono(circles@, sub, p);
                    }
                }
            }
        } else {
            proof {
                assert forall|p: Point| in_rect(quarters@[q as int], p) implies count_containing(
                    circles@,
                    p,
                ) != min_overlaps by {
                    assert(false);
                }
            }
        }
        q = q + 1;
    }
    proof {
        assert forall|p: Point| in_rect(*rect, p) implies count_containing(circles@, p)
            != min_overlaps by {
            if p.x < mid_x {
                if p.y < mid_y {
                    assert(in_rect(quarters@[0], p));
                } else {
                    assert(in_rect(quarters@[2], p));
                }
            } else {
                if p.y < mid_y {
                    assert(in_rect(quarters@[1], p));
                } else {
                    assert(in_rect(quarters@[3], p));
                }
            }
        }
    }
    Option::None
}

/// A proper quarter of a rectangle of extent beyond one point covers
/// strictly less area.
proof fn lemma_quarter_shrinks(r: Rect, sub: Rect, mid_x: int, mid_y: int)
    requires
        r.min_x <= mid_x <= r.max_x,
        r.min_y <= mid_y <= r.max_y,
        r.max_x - r.min_x >= 1,
        r.max_y - r.min_y >= 1,
        !(r.max_x - r.min_x == 1 && r.max_y - r.min_y == 1),
        sub.max_x - sub.min_x >= 1,
        sub.max_y - sub.min_y >= 1,
        (sub.min_x == r.min_x && sub.max_x == mid_x) || (sub.min_x == mid_x && sub.max_x
            == r.max_x),
        (sub.min_y == r.min_y && sub.max_y == mid_y) || (sub.min_y == mid_y && sub.max_y
            == r.max_y),
        // the midpoints split properly: each side is at most the whole
        mid_x - r.min_x <= r.max_x - r.min_x,
        r.max_x - mid_x <= r.max_x - r.min_x,
        (r.max_x - r.min_x >= 2) ==> (mid_x - r.min_x < r.max_x - r.min_x && r.max_x - mid_x
            < r.max_x - r.min_x),
        (r.max_y - r.min_y >= 2) ==> (mid_y - r.min_y < r.max_y - r.min_y && r.max_y - mid_y
            < r.max_y - r.min_y),
    ensures
        0 <= (sub.max_x - sub.min_x) * (sub.max_y - sub.min_y) < (r.max_x - r.min_x) * (r.max_y
            - r.min_y),
{
    let sw = sub.max_x - sub.min_x;
    let sh = sub.max_y - sub.min_y;
    let w = r.max_x - r.min_x;
    let h = r.max_y - r.min_y;
    assert(sw <= w);
    assert(sh <= h);
    if w >= 2 {
        assert(sw < w);
        assert(sw * sh < w * h) by (nonlinear_arith)
            requires
                1 <= sw < w,
                1 <= sh <= h,
        ;
    } else {
        assert(h >= 2);
        assert(sh < h);
        assert(sw * sh < w * h) by (nonlinear_arith)
            requires
                1 <= sw <= w,
                1 <= sh < h,
        ;
    }
    assert(sw * sh >= 0) by (nonlinear_arith)
        requires
            sw >= 1,
            sh >= 1,
    ;
}

} // verus!
