//! Grid geometry: line rasterisation, circle sampling and facing sectors.
use vstd::prelude::*;

use crate::grid::{out_of_bounds, spec_out_of_bounds, Bounds};

verus! {

/// A cell of the board, with a layer `z`.
#[derive(Clone, Copy, Debug, PartialEq, Eq, Structural, Hash)]
pub struct GridPos {
    pub x: i32,
    pub y: i32,
    pub z: i32,
}

impl GridPos {
    pub fn new(x: i32, y: i32, z: i32) -> (r: GridPos)
        ensures
            r.x == x,
            r.y == y,
            r.z == z,
    {
        GridPos { x, y, z }
    }
}

pub open spec fn abs(v: int) -> int {
    if v < 0 {
        -v
    } else {
        v
    }
}

/// Chebyshev distance in the plane: `max(|dx|, |dy|)`.
pub open spec fn chebyshev_2d(p0: GridPos, p1: GridPos) -> int {
    let dx = abs(p1.x - p0.x);
    let dy = abs(p1.y - p0.y);
    if dx >= dy {
        dx
    } else {
        dy
    }
}

/// `num / n` rounded toward zero, for a positive `n`.
pub open spec fn trunc_div(num: int, n: int) -> int {
    if num >= 0 {
        num / n
    } else {
        -((-num) / n)
    }
}

/// The point `step / n` of the way from `a` to `b`, truncated toward zero.
pub open spec fn lerp_trunc(a: int, b: int, step: int, n: int) -> int {
    trunc_div(a * n + (b - a) * step, n)
}

fn distance_between_2d(p0: GridPos, p1: GridPos) -> (r: i64)
    ensures
        r == chebyshev_2d(p0, p1),
{
    let dx = p1.x as i64 - p0.x as i64;
    let dy = p1.y as i64 - p0.y as i64;
    let ax = if dx < 0 {
        -dx
    } else {
        dx
    };
    let ay = if dy < 0 {
        -dy
    } else {
        dy
    };
    if ax >= ay {
        ax
    } else {
        ay
    }
}

proof fn lemma_lerp_between(a: int, b: int, step: int, n: int)
    requires
        0 <= step < n,
    ensures
        a <= b ==> a <= lerp_trunc(a, b, step, n) <= b,
        b <= a ==> b <= lerp_trunc(a, b, step, n) <= a,
        step == 0 ==> lerp_trunc(a, b, step, n) == a,
{
    let lo = if a <= b { a } else { b };
    let hi = if a <= b { b } else { a };
    let num = a * n + (b - a) * step;
    assert(lo * n <= num <= hi * n) by (nonlinear_arith)
        requires
            0 <= step < n,
            num == a * n + (b - a) * step,
            lo == (if a <= b { a } else { b }),
            hi == (if a <= b { b } else { a }),
    ;
    vstd::arithmetic::div_mod::lemma_div_multiples_vanish(lo, n);
    vstd::arithmetic::div_mod::lemma_div_multiples_vanish(hi, n);
    vstd::arithmetic::div_mod::lemma_div_multiples_vanish(-lo, n);
    vstd::arithmetic::div_mod::lemma_div_multiples_vanish(-hi, n);
    vstd::arithmetic::div_mod::lemma_div_multiples_vanish(a, n);
    vstd::arithmetic::div_mod::lemma_div_multiples_vanish(-a, n);
    assert(n * lo == lo * n && n * hi == hi * n && n * (-lo) == -(lo * n) && n * (-hi) == -(hi
        * n) && n * a == a * n && n * (-a) == -(a * n)) by (nonlinear_arith);
    if num >= 0 {
        vstd::arithmetic::div_mod::lemma_div_is_ordered(num, hi * n, n);
        if lo >= 0 {
            vstd::arithmetic::div_mod::lemma_div_is_ordered(lo * n, num, n);
        } else {
            vstd::arithmetic::div_mod::lemma_div_is_ordered(0, num, n);
        }
    } else {
        vstd::arithmetic::div_mod::lemma_div_is_ordered(-num, -(lo * n), n);
        if hi <= 0 {
            vstd::arithmetic::div_mod::lemma_div_is_ordered(-(hi * n), -num, n);
        } else {
            vstd::arithmetic::div_mod::lemma_div_is_ordered(0, -num, n);
        }
    }
    if step == 0 {
        assert(num == a * n) by (nonlinear_arith)
            requires
                step == 0,
                num == a * n + (b - a) * step,
        ;
    }
}

/// One coordinate of a rasterised line: `a + (b - a) * step / n`, truncated.
fn lerp_coord(a: i32, b: i32, step: i64, n: i64) -> (r: i32)
    requires
        0 <= step < n <= 0x1_0000_0000,
    ensures
        r == lerp_trunc(a as int, b as int, step as int, n as int),
{
    let ai = a as i128;
    let bi = b as i128;
    proof {
        assert(-0x8000_0000_0000_0000 <= ai * n <= 0x8000_0000_0000_0000) by (nonlinear_arith)
            requires
                -0x8000_0000 <= ai <= 0x8000_0000,
                0 <= n <= 0x1_0000_0000,
        ;
        assert(-0x1_0000_0000_0000_0000 <= (bi - ai) * step <= 0x1_0000_0000_0000_0000) by (nonlinear_arith)
            requires
                -0x1_0000_0000 <= bi - ai <= 0x1_0000_0000,
                0 <= step <= 0x1_0000_0000,
        ;
        lemma_lerp_between(a as int, b as int, step as int, n as int);
    }
    let num: i128 = ai * (n as i128) + (bi - ai) * (step as i128);
    let q: i128 = if num >= 0 {
        num / (n as i128)
    } else {
        -((-num) / (n as i128))
    };
    q as i32
}

/// The cells along the segment from `p0` toward `p1`: one per step of the
/// Chebyshev distance `n`, the cell at step `i` being `p0 + (p1 - p0) * i / n`
/// truncated toward zero. The list starts at `p0` and stops one step short of
/// `p1`.
pub fn line(p0: GridPos, p1: GridPos) -> (points: Vec<GridPos>)
    ensures
        points@.len() == chebyshev_2d(p0, p1),
        forall|i: int|
            0 <= i < points@.len() ==> {
                let n = chebyshev_2d(p0, p1);
                &&& (#[trigger] points@[i]).x == lerp_trunc(p0.x as int, p1.x as int, i, n)
                &&& points@[i].y == lerp_trunc(p0.y as int, p1.y as int, i, n)
                &&& points@[i].z == lerp_trunc(p0.z as int, p1.z as int, i, n)
            },
        points@.len() > 0 ==> points@[0] == p0,
{
    let mut points: Vec<GridPos> = Vec::new();
    let n = distance_between_2d(p0, p1);
    let mut step: i64 = 0;
    while step < n
        invariant
            n == chebyshev_2d(p0, p1),
            0 <= step <= n,
            n <= 0x1_0000_0000,
            points@.len() == step,
            forall|i: int|
                0 <= i < points@.len() ==> {
                    &&& (#[trigger] points@[i]).x == lerp_trunc(p0.x as int, p1.x as int, i, n as int)
                    &&& points@[i].y == lerp_trunc(p0.y as int, p1.y as int, i, n as int)
                    &&& points@[i].z == lerp_trunc(p0.z as int, p1.z as int, i, n as int)
                },
        decreases n - step,
    {
        let p = GridPos {
            x: lerp_coord(p0.x, p1.x, step, n),
            y: lerp_coord(p0.y, p1.y, step, n),
            z: lerp_coord(p0.z, p1.z, step, n),
        };
        points.push(p);
        step = step + 1;
    }
    proof {
        if n > 0 {
            lemma_lerp_between(p0.x as int, p1.x as int, 0, n as int);
            lemma_lerp_between(p0.y as int, p1.y as int, 0, n as int);
            lemma_lerp_between(p0.z as int, p1.z as int, 0, n as int);
        }
    }
    points
}

/// Whether `p` is one of the cells that a circle of nonzero `radius` around
/// `centre` covers. Rows run over `[cy - r, cy + r)`; in the row at offset
/// `dy` the columns run over `[ceil(cx - w), floor(cx + w))` with
/// `w = sqrt(r * r - dy * dy)`, which for integers reads as below.
pub open spec fn in_disc(centre: GridPos, radius: int, p: GridPos) -> bool {
    let dx = p.x - centre.x;
    let dy = p.y - centre.y;
    &&& p.z == centre.z
    &&& -radius <= dy < radius
    &&& dx < 0 ==> dx * dx + dy * dy <= radius * radius
    &&& dx >= 0 ==> (dx + 1) * (dx + 1) + dy * dy <= radius * radius
}

/// Whether `p` is one of the cells that the circle of `radius` around
/// `centre` samples on the board: the centre alone for radius zero, the disc
/// otherwise (empty for a negative radius).
pub open spec fn in_circle(centre: GridPos, radius: int, bounds: Bounds, p: GridPos) -> bool {
    &&& if radius == 0 {
        p == centre
    } else {
        in_disc(centre, radius, p)
    }
    &&& !spec_out_of_bounds(bounds, p.x as int, p.y as int)
}

/// A circle never shrinks as its radius grows: with the same centre and
/// board, every cell sampled at `r1` is sampled at any `r2 >= r1`.
pub proof fn lemma_circle_grows(centre: GridPos, r1: int, r2: int, bounds: Bounds, p: GridPos)
    requires
        r1 <= r2,
        in_circle(centre, r1, bounds, p),
    ensures
        in_circle(centre, r2, bounds, p),
{
    if r1 == 0 {
        if r2 != 0 {
            assert((p.x - centre.x + 1) * (p.x - centre.x + 1) + (p.y - centre.y) * (p.y
                - centre.y) <= r2 * r2) by (nonlinear_arith)
                requires
                    1 <= r2,
                    p.x == centre.x,
                    p.y == centre.y,
            ;
        }
    } else {
        assert(r1 * r1 <= r2 * r2) by (nonlinear_arith)
            requires
                0 <= r1 <= r2,
        ;
    }
}

fn in_circle_exec(centre: &GridPos, radius: i32, x: i32, y: i32) -> (r: bool)
    ensures
        r == ({
            let dx = x - centre.x;
            let dy = y - centre.y;
            &&& -radius <= dy < radius
            &&& dx < 0 ==> dx * dx + dy * dy <= radius * radius
            &&& dx >= 0 ==> (dx + 1) * (dx + 1) + dy * dy <= radius * radius
        }),
{
    let dx = x as i128 - centre.x as i128;
    let dy = y as i128 - centre.y as i128;
    let r = radius as i128;
    proof {
        assert(0 <= dx * dx <= 0x4_0000_0000_0000_0000 && 0 <= (dx + 1) * (dx + 1)
            <= 0x4_0000_0000_0000_0000 && 0 <= dy * dy <= 0x4_0000_0000_0000_0000 && 0 <= r * r
            <= 0x4_0000_0000_0000_0000) by (nonlinear_arith)
            requires
                -0x1_0000_0000 <= dx <= 0x1_0000_0000,
                -0x1_0000_0000 <= dy <= 0x1_0000_0000,
                -0x8000_0000 <= r <= 0x8000_0000,
        ;
    }
    let in_rows = -r <= dy && dy < r;
    let left_ok = dx >= 0 || dx * dx + dy * dy <= r * r;
    let right_ok = dx < 0 || (dx + 1) * (dx + 1) + dy * dy <= r * r;
    in_rows && left_ok && right_ok
}

/// The cells of the board sampled by the circle of `radius` around `centre`,
/// each once. A radius of zero samples the centre alone, when it is on the
/// board; a negative radius samples nothing.
pub fn circle(centre: GridPos, radius: i32, bounds: &Bounds) -> (cells: Vec<GridPos>)
    ensures
        forall|p: GridPos| cells@.contains(p) <==> in_circle(centre, radius as int, *bounds, p),
        cells@.no_duplicates(),
{
    let mut cells: Vec<GridPos> = Vec::new();
    if radius == 0 {
        if !out_of_bounds(bounds, centre.x, centre.y) {
            cells.push(centre);
            assert(cells@[0] == centre);
        }
        return cells;
    }
    let r = radius as i64;
    let y_lo: i64 = if centre.y as i64 - r > 0 { centre.y as i64 - r } else { 0 };
    let y_hi: i64 = if (centre.y as i64 + r - 1) < bounds.max_y as i64 { centre.y as i64 + r - 1 } else { bounds.max_y as i64 };
    let x_lo: i64 = if centre.x as i64 - r > 0 { centre.x as i64 - r } else { 0 };
    let x_hi: i64 = if (centre.x as i64 + r - 1) < bounds.max_x as i64 { centre.x as i64 + r - 1 } else { bounds.max_x as i64 };
    assert forall|p: GridPos| in_circle(centre, radius as int, *bounds, p) implies x_lo <= p.x
        <= x_hi && y_lo <= p.y <= y_hi by {
        let dx = p.x - centre.x;
        let dy = p.y - centre.y;
        if dx < 0 {
            assert(dx >= -radius) by (nonlinear_arith)
                requires
                    dx < 0,
                    dx * dx + dy * dy <= radius * radius,
                    radius > 0,
            ;
        } else {
            assert(dx + 1 <= radius) by (nonlinear_arith)
                requires
                    dx >= 0,
                    (dx + 1) * (dx + 1) + dy * dy <= radius * radius,
                    radius > 0,
            ;
        }
    }
    let mut y = y_lo;
    while y <= y_hi
        invariant
            radius != 0,
            y_lo <= y,
            y <= y_hi + 1 || y == y_lo,
            0 <= y_lo,
            y_hi <= bounds.max_y,
            0 <= x_lo,
            x_hi <= bounds.max_x,
            forall|p: GridPos| in_circle(centre, radius as int, *bounds, p) ==> x_lo <= p.x
                <= x_hi && y_lo <= p.y <= y_hi,
            forall|p: GridPos| cells@.contains(p) <==> (in_circle(centre, radius as int, *bounds, p) && p.y < y),
            forall|i: int| 0 <= i < cells@.len() ==> (#[trigger] cells@[i]).y < y,
            cells@.no_duplicates(),
        decreases y_hi + 1 - y,
    {
        let mut x = x_lo;
        while x <= x_hi
            invariant
                radius != 0,
                y_lo <= y <= y_hi,
                x_lo <= x,
                x <= x_hi + 1 || x == x_lo,
                0 <= y_lo,
                y_hi <= bounds.max_y,
                0 <= x_lo,
                x_hi <= bounds.max_x,
                forall|p: GridPos| in_circle(centre, radius as int, *bounds, p) ==> x_lo <= p.x
                    <= x_hi && y_lo <= p.y <= y_hi,
                forall|p: GridPos| cells@.contains(p) <==> (in_circle(centre, radius as int, *bounds, p) && (p.y < y || (p.y == y && p.x < x))),
                forall|i: int| 0 <= i < cells@.len() ==> (#[trigger] cells@[i]).y < y || (cells@[i].y == y && cells@[i].x < x),
                cells@.no_duplicates(),
            decreases x_hi + 1 - x,
        {
            let xi = x as i32;
            let yi = y as i32;
            let p = GridPos { x: xi, y: yi, z: centre.z };
            let old_cells = Ghost(cells@);
            if in_circle_exec(&centre, radius, xi, yi) {
                cells.push(p);
                proof {
                    assert(in_circle(centre, radius as int, *bounds, p));
                    assert forall|q: GridPos| cells@.contains(q) implies (in_circle(centre, radius as int, *bounds, q) && (q.y < y || (q.y == y && q.x < x + 1))) by {
                        let k = choose|k: int| 0 <= k < cells@.len() && cells@[k] == q;
                        if k < old_cells@.len() {
                            assert(old_cells@[k] == q);
                            assert(old_cells@.contains(q));
                        } else {
                            assert(q == p);
                        }
                    }
                    assert forall|q: GridPos| (in_circle(centre, radius as int, *bounds, q) && (q.y < y || (q.y == y && q.x < x + 1))) implies cells@.contains(q) by {
                        if q.y < y || (q.y == y && q.x < x) {
                            assert(old_cells@.contains(q));
                            let k = choose|k: int| 0 <= k < old_cells@.len() && old_cells@[k] == q;
                            assert(cells@[k] == q);
                        } else {
                            assert(q == p);
                            assert(cells@[cells@.len() - 1] == q);
                        }
                    }
                    assert forall|i: int, j: int| 0 <= i < cells@.len() && 0 <= j < cells@.len() && i != j implies cells@[i] != cells@[j] by {
                        if i < old_cells@.len() && j < old_cells@.len() {
                            assert(old_cells@[i] != old_cells@[j]);
                        }
                    }
                }
            } else {
                proof {
                    assert forall|q: GridPos| cells@.contains(q) <==> (in_circle(centre, radius as int, *bounds, q) && (q.y < y || (q.y == y && q.x < x + 1))) by {
                        if q.y == y && q.x == x && q.z == centre.z {
                            assert(q == p);
                        }
                    }
                }
            }
            x = x + 1;
        }
        proof {
            assert forall|q: GridPos| cells@.contains(q) <==> (in_circle(centre, radius as int, *bounds, q) && q.y < y + 1) by {
                if in_circle(centre, radius as int, *bounds, q) && q.y == y {
                    assert(q.x < x);
                }
            }
        }
        y = y + 1;
    }
    proof {
        assert forall|q: GridPos| cells@.contains(q) <==> in_circle(centre, radius as int, *bounds, q) by {
            if in_circle(centre, radius as int, *bounds, q) {
                assert(q.y < y);
            }
        }
    }
    cells
}

/// The eight compass headings.
#[derive(Clone, Copy, Debug, PartialEq, Eq, Structural)]
pub enum Direction {
    North,
    NorthEast,
    East,
    SouthEast,
    South,
    SouthWest,
    West,
    NorthWest,
}

/// A heading in degrees, clockwise from North (`+y`) toward East (`+x`).
pub open spec fn spec_compass_degrees(d: Direction) -> int {
    match d {
        Direction::North => 0,
        Direction::NorthEast => 45,
        Direction::East => 90,
        Direction::SouthEast => 135,
        Direction::South => 180,
        Direction::SouthWest => 225,
        Direction::West => 270,
        Direction::NorthWest => 315,
    }
}

/// A heading in degrees, clockwise from North (`+y`) toward East (`+x`).
pub fn compass_degrees(d: Direction) -> (r: i32)
    ensures
        r == spec_compass_degrees(d),
{
    match d {
        Direction::North => 0,
        Direction::NorthEast => 45,
        Direction::East => 90,
        Direction::SouthEast => 135,
        Direction::South => 180,
        Direction::SouthWest => 225,
        Direction::West => 270,
        Direction::NorthWest => 315,
    }
}

/// Whether the bearing from `centre` to `p` lies within 45 degrees either side
/// of the heading of `facing`. The bearing `a` is `atan2(dx, dy)` in degrees in
/// `[0, 360)`, zero for `p == centre`, and is compared with
/// `[heading - 45, heading + 45]` without wrapping round: a North sector
/// covers bearings `[0, 45]` only, and a North-West one stops short of 360.
/// Since every bound is a multiple of 45 degrees, each test reduces to signs
/// and to comparing `|dx|` with `|dy|`.
pub open spec fn in_facing_sector(facing: Direction, centre: GridPos, p: GridPos) -> bool {
    let dx = p.x - centre.x;
    let dy = p.y - centre.y;
    match facing {
        Direction::North => 0 <= dx && dx <= dy,
        Direction::NorthEast => 0 <= dx && 0 <= dy,
        Direction::East => 0 < dx && -dx <= dy && dy <= dx,
        Direction::SouthEast => 0 <= dx && dy <= 0 && !(dx == 0 && dy == 0),
        Direction::South => dy < 0 && dy <= dx && dx <= -dy,
        Direction::SouthWest => dx <= 0 && dy <= 0 && !(dx == 0 && dy == 0),
        Direction::West => dx < 0 && dx <= dy && dy <= -dx,
        Direction::NorthWest => dx < 0 && 0 <= dy,
    }
}

fn in_facing_sector_exec(facing: Direction, centre: &GridPos, p: &GridPos) -> (r: bool)
    ensures
        r == in_facing_sector(facing, *centre, *p),
{
    let dx = p.x as i64 - centre.x as i64;
    let dy = p.y as i64 - centre.y as i64;
    match facing {
        Direction::North => 0 <= dx && dx <= dy,
        Direction::NorthEast => 0 <= dx && 0 <= dy,
        Direction::East => 0 < dx && -dx <= dy && dy <= dx,
        Direction::SouthEast => 0 <= dx && dy <= 0 && !(dx == 0 && dy == 0),
        Direction::South => dy < 0 && dy <= dx && dx <= -dy,
        Direction::SouthWest => dx <= 0 && dy <= 0 && !(dx == 0 && dy == 0),
        Direction::West => dx < 0 && dx <= dy && dy <= -dx,
        Direction::NorthWest => dx < 0 && 0 <= dy,
    }
}

/// The cells of `cells` that lie in the sector, in their order.
pub open spec fn sector_of(facing: Direction, centre: GridPos, cells: Seq<GridPos>) -> Seq<GridPos>
    decreases cells.len(),
{
    if cells.len() == 0 {
        Seq::empty()
    } else {
        let rest = sector_of(facing, centre, cells.drop_last());
        if in_facing_sector(facing, centre, cells.last()) {
            rest.push(cells.last())
        } else {
            rest
        }
    }
}

/// A sector keeps only cells of the region it filters, and only cells that
/// lie in the sector.
pub proof fn lemma_sector_subset(facing: Direction, centre: GridPos, cells: Seq<GridPos>)
    ensures
        forall|i: int|
            0 <= i < sector_of(facing, centre, cells).len() ==> cells.contains(
                #[trigger] sector_of(facing, centre, cells)[i],
            ) && in_facing_sector(facing, centre, sector_of(facing, centre, cells)[i]),
    decreases cells.len(),
{
    if cells.len() > 0 {
        let rest = cells.drop_last();
        lemma_sector_subset(facing, centre, rest);
        let s = sector_of(facing, centre, cells);
        assert forall|i: int| 0 <= i < s.len() implies cells.contains(#[trigger] s[i])
            && in_facing_sector(facing, centre, s[i]) by {
            let r = sector_of(facing, centre, rest);
            if i < r.len() {
                assert(s[i] == r[i]);
                assert(rest.contains(r[i]));
                let k = choose|k: int| 0 <= k < rest.len() && rest[k] == r[i];
                assert(cells[k] == rest[k]);
            } else {
                assert(s[i] == cells.last());
                assert(cells[cells.len() - 1] == cells.last());
            }
        }
    }
}

/// The cells of `region` within the 90-degree sector centred on the heading
/// of `facing`, as seen from `centre`, in the order of `region`.
pub fn sector_facing(facing: Direction, centre: &GridPos, region: Vec<GridPos>) -> (cells: Vec<
    GridPos,
>)
    ensures
        cells@ == sector_of(facing, *centre, region@),
        forall|i: int|
            0 <= i < cells@.len() ==> region@.contains(#[trigger] cells@[i]) && in_facing_sector(
                facing,
                *centre,
                cells@[i],
            ),
{
    let mut cells: Vec<GridPos> = Vec::new();
    let mut i: usize = 0;
    while i < region.len()
        invariant
            0 <= i <= region.len(),
            cells@ == sector_of(facing, *centre, region@.subrange(0, i as int)),
        decreases region.len() - i,
    {
        let p = region[i];
        assert(region@.subrange(0, i as int + 1).drop_last() == region@.subrange(0, i as int));
        if in_facing_sector_exec(facing, centre, &p) {
            cells.push(p);
        }
        i = i + 1;
    }
    assert(region@.subrange(0, region@.len() as int) == region@);
    proof {
        lemma_sector_subset(facing, *centre, region@);
    }
    cells
}

} // verus!
