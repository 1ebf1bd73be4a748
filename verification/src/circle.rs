//! The rings of the loss animation: circles drawn on the cell raster by the
//! midpoint method, in whole numbers throughout.

use vstd::prelude::*;

verus! {

/// The largest coordinate and the largest radius that the circles are
/// drawn for.
pub const REACH: i64 = 0x7fff_ffff;

/// The positions that one step of the method marks: the point `(x, y)` of
/// the first octant mirrored into the others, each position once but for
/// those on the axes where `y` is zero.
pub open spec fn circle_points_of(cx: int, cy: int, x: int, y: int) -> Seq<(int, int)> {
    (if x == 0 {
        seq![(cx, cy + y), (cx, cy - y), (cx + y, cy), (cx - y, cy)]
    } else {
        Seq::empty()
    }) + (if x == y {
        seq![(cx + x, cy + y), (cx - x, cy + y), (cx + x, cy - y), (cx - x, cy - y)]
    } else if x < y {
        seq![
            (cx + x, cy + y),
            (cx - x, cy + y),
            (cx + x, cy - y),
            (cx - x, cy - y),
            (cx + y, cy + x),
            (cx - y, cy + x),
            (cx + y, cy - x),
            (cx - y, cy - x),
        ]
    } else {
        Seq::empty()
    })
}

/// The positions that the method marks after the point `(x, y)`, where `p`
/// is four times its decision value: `x` grows by one a step, and `y`
/// shrinks by one where the decision value is not negative.
pub open spec fn arc_of(cx: int, cy: int, x: int, y: int, p: int) -> Seq<(int, int)>
    decreases y - x + 1,
{
    if x < y {
        let x1 = x + 1;
        let y1 = if p < 0 {
            y
        } else {
            y - 1
        };
        let p1 = p + 4 * (2 * (if p < 0 {
            x1
        } else {
            x1 - y1
        }) + 1);
        circle_points_of(cx, cy, x1, y1) + arc_of(cx, cy, x1, y1, p1)
    } else {
        Seq::empty()
    }
}

/// The ring round `(cx, cy)` whose radius is `quarters` quarters of a
/// cell: the method starts at the top of the circle, with the radius
/// rounded down to whole cells and the decision value five quarters less
/// the radius.
pub open spec fn perimeter_of(cx: int, cy: int, quarters: int) -> Seq<(int, int)> {
    circle_points_of(cx, cy, 0, quarters / 4) + arc_of(cx, cy, 0, quarters / 4, 5 - quarters)
}

/// Every position lies within `REACH` of a coordinate between zero and
/// `REACH`.
pub open spec fn in_reach(points: Seq<(i64, i64)>) -> bool {
    forall|k: int|
        0 <= k < points.len() ==> -REACH <= (#[trigger] points[k]).0 <= 2 * REACH && -REACH <= points[k].1 <= 2
            * REACH
}

/// The positions as pairs of integers.
pub open spec fn as_points(v: Seq<(i64, i64)>) -> Seq<(int, int)> {
    v.map_values(|c: (i64, i64)| (c.0 as int, c.1 as int))
}

pub fn circle_points(center: (usize, usize), x: i64, y: i64) -> (points: Vec<(i64, i64)>)
    requires
        center.0 <= REACH,
        center.1 <= REACH,
        -REACH <= x <= REACH,
        -REACH <= y <= REACH,
    ensures
        as_points(points@) == circle_points_of(center.0 as int, center.1 as int, x as int, y as int),
        in_reach(points@),
{
    let cx = center.0 as i64;
    let cy = center.1 as i64;
    let mut points: Vec<(i64, i64)> = Vec::new();
    if x == 0 {
        points.push((cx, cy + y));
        points.push((cx, cy - y));
        points.push((cx + y, cy));
        points.push((cx - y, cy));
    }
    if x == y {
        points.push((cx + x, cy + y));
        points.push((cx - x, cy + y));
        points.push((cx + x, cy - y));
        points.push((cx - x, cy - y));
    } else if x < y {
        points.push((cx + x, cy + y));
        points.push((cx - x, cy + y));
        points.push((cx + x, cy - y));
        points.push((cx - x, cy - y));

        points.push((cx + y, cy + x));
        points.push((cx - y, cy + x));
        points.push((cx + y, cy - x));
        points.push((cx - y, cy - x));
    }
    assert(as_points(points@) =~= circle_points_of(center.0 as int, center.1 as int, x as int, y as int));
    points
}

pub fn circle_perimeter(center: (usize, usize), quarters: u32) -> (points: Vec<(i64, i64)>)
    requires
        center.0 <= REACH,
        center.1 <= REACH,
    ensures
        as_points(points@) == perimeter_of(center.0 as int, center.1 as int, quarters as int),
        in_reach(points@),
{
    let ghost cx = center.0 as int;
    let ghost cy = center.1 as int;
    let radius: i64 = (quarters / 4) as i64;
    let mut x: i64 = 0;
    let mut y: i64 = radius;
    let mut p: i64 = 5 - quarters as i64;

    let mut points = circle_points(center, x, y);
    assert(as_points(points@) + arc_of(cx, cy, x as int, y as int, p as int) =~= perimeter_of(
        cx,
        cy,
        quarters as int,
    ));
    while x < y
        invariant
            center.0 <= REACH,
            center.1 <= REACH,
            cx == center.0,
            cy == center.1,
            0 <= x,
            0 <= y <= radius <= REACH / 2,
            x <= y + 1,
            -8 * radius - 8 <= p <= 12 * x + 8,
            in_reach(points@),
            as_points(points@) + arc_of(cx, cy, x as int, y as int, p as int) == perimeter_of(
                cx,
                cy,
                quarters as int,
            ),
        decreases y - x + 1,
    {
        let ghost before = as_points(points@);
        let ghost rest = arc_of(cx, cy, x as int, y as int, p as int);
        x += 1;
        if p < 0 {
            p += 4 * (2 * x + 1);
        } else {
            y -= 1;
            p += 4 * (2 * (x - y) + 1);
        }
        let mut marked = circle_points(center, x, y);
        let ghost step = as_points(marked@);
        let ghost held = points@;
        let ghost fresh = marked@;
        points.append(&mut marked);
        assert(in_reach(points@)) by {
            assert forall|k: int| 0 <= k < points@.len() implies -REACH <= (#[trigger] points@[k]).0 <= 2
                * REACH && -REACH <= points@[k].1 <= 2 * REACH by {
                if k < held.len() {
                    assert(points@[k] == held[k]);
                } else {
                    assert(points@[k] == fresh[k - held.len()]);
                }
            }
        }
        proof {
            assert(as_points(points@) =~= before + step);
            assert(rest == step + arc_of(cx, cy, x as int, y as int, p as int));
            assert(as_points(points@) + arc_of(cx, cy, x as int, y as int, p as int) =~= before + rest);
        }
    }
    assert(arc_of(cx, cy, x as int, y as int, p as int) =~= Seq::empty());
    assert(as_points(points@) + Seq::<(int, int)>::empty() =~= as_points(points@));
    points
}

} // verus!
