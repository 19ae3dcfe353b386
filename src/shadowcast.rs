//! Symmetric recursive shadowcasting.
//!
//! Each of the four quadrants is scanned outward from the origin one row at a
//! time. A row is a depth together with an interval of slopes; slopes are kept
//! as exact fractions, so rounding and the symmetry test are decided without
//! loss.
use vstd::prelude::*;

use crate::grid::{is_obstructed, out_of_bounds, spec_is_obstructed, spec_out_of_bounds, Bounds};

verus! {

/// The deepest row that a scan reaches.
pub const VIEW_DEPTH: i32 = 15;

/// Largest origin coordinate magnitude for which no cell of a scan overflows.
pub open spec fn origin_limit() -> int {
    0x4000_0000
}

/// The four quarter-planes a scan is split into.
#[derive(Clone, Copy, Debug, PartialEq, Eq)]
pub enum Cardinal {
    North,
    East,
    South,
    West,
}

/// Maps a quadrant's local `(depth, column)` coordinates to board cells.
#[derive(Clone, Copy, Debug)]
pub struct Quadrant {
    pub cardinal: Cardinal,
    pub ox: i32,
    pub oy: i32,
}

/// The board cell at `depth` and `col` in the quadrant facing `c` around
/// `(ox, oy)`.
pub open spec fn spec_transform(c: Cardinal, ox: int, oy: int, depth: int, col: int) -> (int, int) {
    match c {
        Cardinal::North => (ox + col, oy - depth),
        Cardinal::South => (ox + col, oy + depth),
        Cardinal::East => (ox + depth, oy + col),
        Cardinal::West => (ox - depth, oy + col),
    }
}

pub open spec fn fits_i32(v: int) -> bool {
    i32::MIN <= v <= i32::MAX
}

impl Quadrant {
    pub open spec fn spec_cell(&self, depth: int, col: int) -> (int, int) {
        spec_transform(self.cardinal, self.ox as int, self.oy as int, depth, col)
    }

    /// Maps a `[depth, column]` tile to the board cell `(x, y)`.
    pub fn transform(&self, tile: &[i32; 2]) -> (r: (i32, i32))
        requires
            fits_i32(self.spec_cell(tile[0] as int, tile[1] as int).0),
            fits_i32(self.spec_cell(tile[0] as int, tile[1] as int).1),
        ensures
            (r.0 as int, r.1 as int) == self.spec_cell(tile[0] as int, tile[1] as int),
    {
        let row = tile[0];
        let col = tile[1];
        match self.cardinal {
            Cardinal::North => (self.ox + col, self.oy - row),
            Cardinal::South => (self.ox + col, self.oy + row),
            Cardinal::East => (self.ox + row, self.oy + col),
            Cardinal::West => (self.ox - row, self.oy + col),
        }
    }

    /// The quadrant facing `cardinal` around `origin`.
    pub fn new(cardinal: Cardinal, origin: &[i32; 2]) -> (r: Self)
        ensures
            r.cardinal == cardinal,
            r.ox == origin[0],
            r.oy == origin[1],
    {
        Quadrant { cardinal, ox: origin[0], oy: origin[1] }
    }
}

/// A slope `num / den` with a positive denominator.
#[derive(Clone, Copy, Debug)]
pub struct Slope {
    pub num: i64,
    pub den: i64,
}

/// The slopes that can occur in a row at depth `d`: at most 1, and not below
/// `-2 * d`.
spec fn slope_ok(s: Slope, d: int) -> bool {
    1 <= s.den <= 32 && -2 * d * s.den <= s.num <= s.den
}

/// One row of a quadrant scan: the tiles at `depth` whose columns fall
/// between the two slopes.
#[derive(Clone, Copy, Debug)]
pub struct Row {
    pub depth: i32,
    pub start_slope: Slope,
    pub end_slope: Slope,
}

/// The first column of a row: `depth * start_slope` rounded, ties upward.
pub open spec fn spec_min_col(row: Row) -> int {
    (2 * row.depth * row.start_slope.num + row.start_slope.den) / (2 * row.start_slope.den)
}

/// The last column of a row: `depth * end_slope` rounded, ties downward.
pub open spec fn spec_max_col(row: Row) -> int {
    -((row.end_slope.den - 2 * row.depth * row.end_slope.num) / (2 * row.end_slope.den))
}

/// The slope through the near edge of a tile: `(2 * col - 1) / (2 * depth)`.
pub open spec fn spec_tile_slope(depth: int, col: int) -> Slope {
    Slope { num: (2 * col - 1) as i64, den: (2 * depth) as i64 }
}

/// Whether the centre of column `col` lies within the row's slopes.
pub open spec fn spec_symmetric(row: Row, col: int) -> bool {
    col * row.start_slope.den >= row.depth * row.start_slope.num && col * row.end_slope.den
        <= row.depth * row.end_slope.num
}

/// A cell blocks sight when it is obstructed or off the board.
pub open spec fn spec_blocks(walls: Seq<[i32; 2]>, b: Bounds, c: (int, int)) -> bool {
    spec_is_obstructed(walls, c.0, c.1) || spec_out_of_bounds(b, c.0, c.1)
}

/// A cell is floor when it does not block sight.
pub open spec fn spec_floor(walls: Seq<[i32; 2]>, b: Bounds, c: (int, int)) -> bool {
    !spec_blocks(walls, b, c)
}

/// A row whose start slope is not below its end slope holds no tiles.
pub open spec fn spec_row_empty(row: Row) -> bool {
    row.start_slope.num * row.end_slope.den >= row.end_slope.num * row.start_slope.den
}

/// What the scan of `row` reports, beginning with the tile after `prev`. A
/// row whose start slope is not below its end slope holds no tiles.
pub open spec fn spec_scan(
    row: Row,
    prev: Option<[i32; 2]>,
    q: Quadrant,
    walls: Seq<[i32; 2]>,
    b: Bounds,
) -> Seq<[i32; 2]>
    decreases VIEW_DEPTH - row.depth, 1int, 0int,
{
    if spec_row_empty(row) {
        spec_scan_from(row, prev, 1, 0, q, walls, b)
    } else {
        spec_scan_from(row, prev, spec_min_col(row), spec_max_col(row), q, walls, b)
    }
}

/// What the scan of `row` reports from column `col` to `last`, and beyond.
///
/// Each tile is reported when it blocks sight or passes the symmetry test;
/// off-board tiles block sight. Going from a blocking tile to floor moves the
/// row's start slope up to the new tile; going from floor to a blocking tile
/// first scans the next row, its end slope cut at that tile. After the last
/// tile (or, in a row without tiles, after `prev`), if that tile is floor,
/// the next row is scanned with the row's slopes. Rows stop at `VIEW_DEPTH`.
pub open spec fn spec_scan_from(
    row: Row,
    prev: Option<[i32; 2]>,
    col: int,
    last: int,
    q: Quadrant,
    walls: Seq<[i32; 2]>,
    b: Bounds,
) -> Seq<[i32; 2]>
    decreases VIEW_DEPTH - row.depth, 0int, last + 1 - col,
{
    if col > last {
        match prev {
            Some(p) => if spec_floor(walls, b, q.spec_cell(p[0] as int, p[1] as int)) && row.depth
                < VIEW_DEPTH {
                spec_scan(
                    Row {
                        depth: (row.depth + 1) as i32,
                        start_slope: row.start_slope,
                        end_slope: row.end_slope,
                    },
                    prev,
                    q,
                    walls,
                    b,
                )
            } else {
                Seq::empty()
            },
            None => Seq::empty(),
        }
    } else {
        let d = row.depth as int;
        let cell = q.spec_cell(d, col);
        let wall = spec_blocks(walls, b, cell);
        let shown: Seq<[i32; 2]> = if wall || spec_symmetric(row, col) {
            seq![[cell.0 as i32, cell.1 as i32]]
        } else {
            Seq::empty()
        };
        let tile = [row.depth, col as i32];
        match prev {
            Some(p) => {
                let pc = q.spec_cell(p[0] as int, p[1] as int);
                let row1 = if spec_blocks(walls, b, pc) && spec_floor(walls, b, cell) {
                    Row {
                        depth: row.depth,
                        start_slope: spec_tile_slope(d, col),
                        end_slope: row.end_slope,
                    }
                } else {
                    row
                };
                let deeper = if spec_floor(walls, b, pc) && wall && row.depth < VIEW_DEPTH {
                    spec_scan(
                        Row {
                            depth: (row.depth + 1) as i32,
                            start_slope: row1.start_slope,
                            end_slope: spec_tile_slope(d, col),
                        },
                        prev,
                        q,
                        walls,
                        b,
                    )
                } else {
                    Seq::empty()
                };
                shown + deeper + spec_scan_from(row1, Some(tile), col + 1, last, q, walls, b)
            },
            None => shown + spec_scan_from(row, Some(tile), col + 1, last, q, walls, b),
        }
    }
}

spec fn row_ok(r: Row) -> bool {
    1 <= r.depth <= VIEW_DEPTH && slope_ok(r.start_slope, r.depth as int) && slope_ok(
        r.end_slope,
        r.depth as int,
    )
}

/// A tile as it may be handed on between rows.
spec fn tile_ok(t: [i32; 2]) -> bool {
    1 <= t[0] <= VIEW_DEPTH && -t[0] <= t[1] <= t[0]
}

proof fn lemma_slope_widen(s: Slope, d: int)
    requires
        slope_ok(s, d),
        d >= 1,
    ensures
        slope_ok(s, d + 1),
{
    assert(-2 * (d + 1) * s.den <= -2 * d * s.den) by (nonlinear_arith)
        requires
            s.den >= 1,
            d >= 1,
    ;
}

proof fn lemma_slope_bounds(s: Slope, d: int)
    requires
        1 <= d <= VIEW_DEPTH + 1,
        slope_ok(s, d),
    ensures
        -1024 <= s.num <= 32,
        -16384 <= d * s.num <= 512,
{
    assert(d * s.den <= 512) by (nonlinear_arith)
        requires
            1 <= d <= 16,
            1 <= s.den <= 32,
    ;
    assert(d * s.num <= d * s.den) by (nonlinear_arith)
        requires
            1 <= d,
            s.num <= s.den,
    ;
    assert(d * s.num >= d * (-2 * d * s.den)) by (nonlinear_arith)
        requires
            1 <= d,
            -2 * d * s.den <= s.num,
    ;
    assert(d * (-2 * d * s.den) == -2 * (d * (d * s.den))) by (nonlinear_arith);
    assert(-2 * d * s.den == -2 * (d * s.den)) by (nonlinear_arith);
    assert(d * (d * s.den) <= 16 * 512) by (nonlinear_arith)
        requires
            1 <= d <= 16,
            0 <= d * s.den <= 512,
    ;
}

/// `floor(a / b)` for a positive `b`.
fn floor_div(a: i64, b: i64) -> (q: i64)
    requires
        1 <= b <= 0x1_0000,
        -0x1_0000_0000 <= a <= 0x1_0000_0000,
    ensures
        q == a / b,
        q * b <= a < q * b + b,
{
    if a >= 0 {
        let q = a / b;
        assert(q * b <= a < q * b + b) by (nonlinear_arith)
            requires
                q == a / b,
                b >= 1,
                a >= 0,
        ;
        q
    } else {
        let m = (-a - 1) / b;
        proof {
            let n: int = -a - 1;
            let r = n % (b as int);
            assert(n == m * b + r) by (nonlinear_arith)
                requires
                    m == n / (b as int),
                    r == n % (b as int),
                    b >= 1,
            ;
            assert(0 <= r < b);
            assert(a == (-m - 1) * b + (b - 1 - r)) by (nonlinear_arith)
                requires
                    -a - 1 == m * b + r,
                    n == -a - 1,
            ;
            vstd::arithmetic::div_mod::lemma_fundamental_div_mod_converse(
                a as int,
                b as int,
                -m - 1,
                b - 1 - r,
            );
            assert(m * b >= 0) by (nonlinear_arith)
                requires
                    m >= 0,
                    b >= 1,
            ;
            assert(m * b <= -a) by (nonlinear_arith)
                requires
                    n == m * b + r,
                    n == -a - 1,
                    r >= 0,
            ;
        }
        -m - 1
    }
}

/// The exact slope through the near edge of a tile: `(2 * col - 1) / (2 * depth)`.
fn tile_slope(depth: i32, col: i32) -> (s: Slope)
    requires
        1 <= depth <= VIEW_DEPTH,
        -depth <= col <= depth,
    ensures
        slope_ok(s, depth + 1),
        s.num == 2 * col - 1,
        s.den == 2 * depth,
        s == spec_tile_slope(depth as int, col as int),
        col > -depth ==> s.num >= -s.den,
{
    let s = Slope { num: 2 * col as i64 - 1, den: 2 * depth as i64 };
    assert(-2 * (depth + 1) * (2 * depth) <= 2 * col - 1) by (nonlinear_arith)
        requires
            1 <= depth,
            -depth <= col,
    ;
    s
}

/// The first column of a row: `depth * start_slope` rounded, ties upward.
fn min_col(row: &Row) -> (c: i32)
    requires
        row_ok(*row),
    ensures
        c == spec_min_col(*row),
        -2 * row.depth * row.depth <= c,
        row.start_slope.num >= -row.start_slope.den ==> c >= -row.depth,
        c * 2 * row.start_slope.den <= 2 * row.depth * row.start_slope.num + row.start_slope.den,
        2 * row.depth * row.start_slope.num + row.start_slope.den < (c + 1) * 2
            * row.start_slope.den,
{
    let d = row.depth as i64;
    let s = row.start_slope;
    proof {
        lemma_slope_bounds(s, d as int);
    }
    let p = d * s.num;
    let a = 2 * p + s.den;
    let b = 2 * s.den;
    let q = floor_div(a, b);
    assert(p >= -2 * (d * d) * s.den) by (nonlinear_arith)
        requires
            p == d * s.num,
            1 <= d,
            -2 * d * s.den <= s.num,
    ;
    assert(q >= -2 * (d * d)) by (nonlinear_arith)
        requires
            1 <= s.den,
            b == 2 * s.den,
            a == 2 * p + s.den,
            p >= -2 * (d * d) * s.den,
            a < q * b + b,
    ;
    assert(q <= 1024) by (nonlinear_arith)
        requires
            1 <= s.den,
            b == 2 * s.den,
            a == 2 * p + s.den,
            q * b <= a,
            p <= 512,
    ;
    assert(d * d <= 225) by (nonlinear_arith)
        requires
            1 <= d <= 15,
    ;
    assert(2 * row.depth * row.start_slope.num + row.start_slope.den == a) by (nonlinear_arith)
        requires
            d == row.depth,
            s == row.start_slope,
            p == d * s.num,
            a == 2 * p + s.den,
    ;
    assert(s.num >= -s.den ==> q >= -d) by (nonlinear_arith)
        requires
            1 <= s.den,
            1 <= d,
            p == d * s.num,
            b == 2 * s.den,
            a == 2 * p + s.den,
            a < q * b + b,
    ;
    let c = q as i32;
    assert(-2 * row.depth * row.depth <= c && c * 2 * row.start_slope.den <= 2 * row.depth
        * row.start_slope.num + row.start_slope.den && 2 * row.depth * row.start_slope.num
        + row.start_slope.den < (c + 1) * 2 * row.start_slope.den) by (nonlinear_arith)
        requires
            d == row.depth,
            s == row.start_slope,
            c == q,
            p == d * s.num,
            b == 2 * s.den,
            a == 2 * p + s.den,
            q >= -2 * (d * d),
            q * b <= a < q * b + b,
    ;
    c
}

/// The last column of a row: `depth * end_slope` rounded, ties downward.
fn max_col(row: &Row) -> (c: i32)
    requires
        row_ok(*row),
    ensures
        c == spec_max_col(*row),
        c <= row.depth,
        (c - 1) * 2 * row.end_slope.den < 2 * row.depth * row.end_slope.num - row.end_slope.den,
        2 * row.depth * row.end_slope.num - row.end_slope.den <= c * 2 * row.end_slope.den,
{
    let d = row.depth as i64;
    let s = row.end_slope;
    proof {
        lemma_slope_bounds(s, d as int);
    }
    let p = d * s.num;
    let a = s.den - 2 * p;
    let b = 2 * s.den;
    let q = floor_div(a, b);
    assert(p <= d * s.den) by (nonlinear_arith)
        requires
            p == d * s.num,
            1 <= d,
            s.num <= s.den,
    ;
    assert(-q <= d) by (nonlinear_arith)
        requires
            1 <= s.den,
            b == 2 * s.den,
            a == s.den - 2 * p,
            p <= d * s.den,
            a < q * b + b,
    ;
    assert(-q >= -20000) by (nonlinear_arith)
        requires
            1 <= s.den,
            b == 2 * s.den,
            a == s.den - 2 * p,
            q * b <= a,
            p >= -16384,
    ;
    assert(row.end_slope.den - 2 * row.depth * row.end_slope.num == a) by (nonlinear_arith)
        requires
            d == row.depth,
            s == row.end_slope,
            p == d * s.num,
            a == s.den - 2 * p,
    ;
    let c = (-q) as i32;
    assert(c <= row.depth && (c - 1) * 2 * row.end_slope.den < 2 * row.depth * row.end_slope.num
        - row.end_slope.den && 2 * row.depth * row.end_slope.num - row.end_slope.den <= c * 2
        * row.end_slope.den) by (nonlinear_arith)
        requires
            d == row.depth,
            s == row.end_slope,
            c == -q,
            -q <= d,
            p == d * s.num,
            b == 2 * s.den,
            a == s.den - 2 * p,
            q * b <= a < q * b + b,
    ;
    c
}

proof fn lemma_product_bound(a: int, b: int, la: int, lb: int)
    requires
        -la <= a <= la,
        -lb <= b <= lb,
    ensures
        -(la * lb) <= a * b <= la * lb,
{
    assert(-(la * lb) <= a * b <= la * lb) by (nonlinear_arith)
        requires
            -la <= a <= la,
            -lb <= b <= lb,
    ;
}

/// Whether the centre of column `col` lies inside the row's slope interval,
/// so that the origin would see this tile as the tile sees the origin.
fn is_symmetric(row: &Row, col: i32) -> (r: bool)
    requires
        1 <= row.depth <= VIEW_DEPTH,
        slope_ok(row.start_slope, row.depth + 1),
        slope_ok(row.end_slope, row.depth + 1),
        -VIEW_DEPTH <= col <= VIEW_DEPTH,
    ensures
        r == (col * row.start_slope.den >= row.depth * row.start_slope.num && col
            * row.end_slope.den <= row.depth * row.end_slope.num),
{
    let d = row.depth as i64;
    let c = col as i64;
    let s = row.start_slope;
    let e = row.end_slope;
    proof {
        lemma_slope_bounds(s, d + 1);
        lemma_slope_bounds(e, d + 1);
        lemma_product_bound(c as int, s.den as int, 450, 32);
        lemma_product_bound(c as int, e.den as int, 450, 32);
        lemma_product_bound(d as int, s.num as int, 16, 1024);
        lemma_product_bound(d as int, e.num as int, 16, 1024);
    }
    c * s.den >= d * s.num && c * e.den <= d * e.num
}

impl Row {
    /// The row one step further out, with the same slopes, unless the scan
    /// has reached `VIEW_DEPTH`.
    fn next(&self) -> (r: Option<Row>)
        ensures
            r.is_some() == (self.depth < VIEW_DEPTH),
            r.is_some() ==> r.unwrap().depth == self.depth + 1 && r.unwrap().start_slope
                == self.start_slope && r.unwrap().end_slope == self.end_slope,
    {
        if self.depth < VIEW_DEPTH {
            Some(Row { depth: self.depth + 1, start_slope: self.start_slope, end_slope: self.end_slope })
        } else {
            None
        }
    }
}

/// Whether `c` lies within `VIEW_DEPTH` steps of `(ox, oy)` in Chebyshev
/// distance.
pub open spec fn in_view(ox: int, oy: int, c: [i32; 2]) -> bool {
    let dx = c[0] - ox;
    let dy = c[1] - oy;
    -VIEW_DEPTH <= dx <= VIEW_DEPTH && -VIEW_DEPTH <= dy <= VIEW_DEPTH
}

pub open spec fn origin_ok(ox: int, oy: int) -> bool {
    -origin_limit() <= ox <= origin_limit() && -origin_limit() <= oy <= origin_limit()
}

proof fn lemma_tile_cell(q: Quadrant, t: [i32; 2])
    requires
        origin_ok(q.ox as int, q.oy as int),
        tile_ok(t),
    ensures
        fits_i32(q.spec_cell(t[0] as int, t[1] as int).0),
        fits_i32(q.spec_cell(t[0] as int, t[1] as int).1),
        in_view(
            q.ox as int,
            q.oy as int,
            [q.spec_cell(t[0] as int, t[1] as int).0 as i32, q.spec_cell(t[0] as int, t[1] as int).1 as i32],
        ),
{
}

/// Whether the row's start slope is not below its end slope.
fn row_empty(row: &Row) -> (r: bool)
    requires
        1 <= row.depth <= VIEW_DEPTH,
        slope_ok(row.start_slope, row.depth as int),
        slope_ok(row.end_slope, row.depth as int),
    ensures
        r == spec_row_empty(*row),
{
    let s = row.start_slope;
    let e = row.end_slope;
    proof {
        lemma_slope_bounds(s, row.depth as int);
        lemma_slope_bounds(e, row.depth as int);
        lemma_product_bound(s.num as int, e.den as int, 1024, 32);
        lemma_product_bound(e.num as int, s.den as int, 1024, 32);
    }
    s.num * e.den >= e.num * s.den
}

/// Whether the cell blocks sight: obstructed, or off the board.
fn is_wall(walls: &Vec<[i32; 2]>, bounds: &Bounds, x: i32, y: i32) -> (r: bool)
    ensures
        r == (spec_is_obstructed(walls@, x as int, y as int) || spec_out_of_bounds(*bounds, x as int, y as int)),
{
    is_obstructed(walls, x, y) || out_of_bounds(bounds, x, y)
}

/// Scans one row of a quadrant and, recursively, the rows beyond it that can
/// still be seen. `prev_tile` is the tile scanned just before this row.
fn scan_row_recur(
    first_row: Row,
    prev_tile: Option<[i32; 2]>,
    quadrant: &Quadrant,
    walls: &Vec<[i32; 2]>,
    bounds: &Bounds,
) -> (visible: Vec<[i32; 2]>)
    requires
        row_ok(first_row),
        first_row.start_slope.num >= -first_row.start_slope.den,
        origin_ok(quadrant.ox as int, quadrant.oy as int),
        prev_tile.is_some() ==> tile_ok(prev_tile.unwrap()),
        prev_tile.is_some() ==> spec_floor(
            walls@,
            *bounds,
            quadrant.spec_cell(prev_tile.unwrap()[0] as int, prev_tile.unwrap()[1] as int),
        ),
    ensures
        visible@ == spec_scan(first_row, prev_tile, *quadrant, walls@, *bounds),
        forall|i: int| 0 <= i < visible@.len() ==> in_view(quadrant.ox as int, quadrant.oy as int, #[trigger] visible@[i]),
    decreases VIEW_DEPTH - first_row.depth,
{
    let ghost target = spec_scan(first_row, prev_tile, *quadrant, walls@, *bounds);
    let mut row = first_row;
    let mut prev_tile = prev_tile;
    let mut visible: Vec<[i32; 2]> = Vec::new();
    let depth = row.depth;
    let empty = row_empty(&row);
    let (first, last) = if empty {
        (1i32, 0i32)
    } else {
        (min_col(&row), max_col(&row))
    };
    proof {
        lemma_slope_widen(row.start_slope, depth as int);
        lemma_slope_widen(row.end_slope, depth as int);
        assert(visible@ + spec_scan_from(row, prev_tile, first as int, last as int, *quadrant, walls@, *bounds) =~= target);
    }
    let mut col = first;
    while col <= last
        invariant
            row.depth == depth,
            row.end_slope == first_row.end_slope,
            depth == first_row.depth,
            1 <= depth <= VIEW_DEPTH,
            slope_ok(row.start_slope, depth + 1),
            slope_ok(row.end_slope, depth as int),
            slope_ok(row.end_slope, depth + 1),
            row.start_slope.num >= -row.start_slope.den,
            -depth <= first,
            last <= depth,
            first <= col,
            col <= last + 1 || col == first,
            origin_ok(quadrant.ox as int, quadrant.oy as int),
            prev_tile.is_some() ==> tile_ok(prev_tile.unwrap()),
            col == first ==> (prev_tile.is_some() ==> spec_floor(
                walls@,
                *bounds,
                quadrant.spec_cell(prev_tile.unwrap()[0] as int, prev_tile.unwrap()[1] as int),
            )),
            forall|i: int| 0 <= i < visible@.len() ==> in_view(quadrant.ox as int, quadrant.oy as int, #[trigger] visible@[i]),
            visible@ + spec_scan_from(row, prev_tile, col as int, last as int, *quadrant, walls@, *bounds) == target,
        decreases last + 1 - col,
    {
        let ghost before = visible@;
        let ghost row0 = row;
        let ghost prev0 = prev_tile;
        let tile: [i32; 2] = [depth, col];
        assert(tile[0] == depth && tile[1] == col);
        proof {
            lemma_tile_cell(*quadrant, tile);
        }
        let (x, y) = quadrant.transform(&tile);
        let wall = is_wall(walls, bounds, x, y);
        if wall || is_symmetric(&row, col) {
            visible.push([x, y]);
        }
        let ghost after_shown = visible@;
        match prev_tile {
            Some(prev) => {
                proof {
                    lemma_tile_cell(*quadrant, prev);
                }
                let (px, py) = quadrant.transform(&prev);
                let prev_wall = is_wall(walls, bounds, px, py);
                let prev_floor = !prev_wall;
                let floor = !wall;
                if prev_wall && floor {
                    row.start_slope = tile_slope(depth, col);
                }
                if prev_floor && wall {
                    if let Some(next_row) = row.next() {
                        let mut next_row = next_row;
                        next_row.end_slope = tile_slope(depth, col);
                        assert(next_row.depth == depth + 1);
                        let mut deeper = scan_row_recur(next_row, prev_tile, quadrant, walls, bounds);
                        visible.append(&mut deeper);
                    }
                }
            },
            None => {},
        }
        prev_tile = Some(tile);
        col = col + 1;
        proof {
            let rest = spec_scan_from(row, prev_tile, col as int, last as int, *quadrant, walls@, *bounds);
            let whole = spec_scan_from(row0, prev0, col - 1, last as int, *quadrant, walls@, *bounds);
            let shown = after_shown.subrange(before.len() as int, after_shown.len() as int);
            let deeper = visible@.subrange(after_shown.len() as int, visible@.len() as int);
            assert(after_shown =~= before + shown);
            assert(visible@ =~= after_shown + deeper);
            assert(whole =~= shown + deeper + rest);
            assert(visible@ + rest =~= before + whole);
        }
    }
    proof {
        assert(col > last);
    }
    if let Some(prev) = prev_tile {
        proof {
            lemma_tile_cell(*quadrant, prev);
        }
        let (px, py) = quadrant.transform(&prev);
        if !is_wall(walls, bounds, px, py) {
            if let Some(next_row) = row.next() {
                assert(next_row.depth == depth + 1);
                let mut deeper = scan_row_recur(next_row, prev_tile, quadrant, walls, bounds);
                visible.append(&mut deeper);
            }
        }
    }
    proof {
        assert(visible@ =~= target);
    }
    visible
}

/// The row a quadrant scan starts from: depth 1, slopes -1 to 1.
pub open spec fn spec_first_row() -> Row {
    Row {
        depth: 1i32,
        start_slope: Slope { num: -1i64, den: 1i64 },
        end_slope: Slope { num: 1i64, den: 1i64 },
    }
}

/// What the scan of the quadrant facing `c` around `origin` reports.
pub open spec fn spec_quadrant_scan(
    c: Cardinal,
    origin: [i32; 2],
    walls: Seq<[i32; 2]>,
    b: Bounds,
) -> Seq<[i32; 2]> {
    spec_scan(spec_first_row(), None, Quadrant { cardinal: c, ox: origin[0], oy: origin[1] }, walls, b)
}

/// The origin, then what the North, East, South and West scans report.
pub open spec fn spec_fov(origin: [i32; 2], walls: Seq<[i32; 2]>, b: Bounds) -> Seq<[i32; 2]> {
    seq![origin] + spec_quadrant_scan(Cardinal::North, origin, walls, b) + spec_quadrant_scan(
        Cardinal::East,
        origin,
        walls,
        b,
    ) + spec_quadrant_scan(Cardinal::South, origin, walls, b) + spec_quadrant_scan(
        Cardinal::West,
        origin,
        walls,
        b,
    )
}

/// The board cell of column `col` in the first row of the quadrant facing `c`.
pub open spec fn first_row_cell(c: Cardinal, origin: [i32; 2], col: int) -> [i32; 2] {
    let cell = Quadrant { cardinal: c, ox: origin[0], oy: origin[1] }.spec_cell(1, col);
    [cell.0 as i32, cell.1 as i32]
}

/// Whether `c` is the origin or one of the eight cells around it.
pub open spec fn next_to(origin: [i32; 2], c: [i32; 2]) -> bool {
    -1 <= c[0] - origin[0] <= 1 && -1 <= c[1] - origin[1] <= 1
}

proof fn lemma_first_row_seen(c: Cardinal, origin: [i32; 2], walls: Seq<[i32; 2]>, b: Bounds)
    requires
        origin_ok(origin[0] as int, origin[1] as int),
    ensures
        forall|col: int|
            -1 <= col <= 1 ==> spec_quadrant_scan(c, origin, walls, b).contains(
                #[trigger] first_row_cell(c, origin, col),
            ),
{
    let q = Quadrant { cardinal: c, ox: origin[0], oy: origin[1] };
    let row = spec_first_row();
    vstd::arithmetic::div_mod::lemma_fundamental_div_mod_converse(-1, 2, -1, 1);
    assert(spec_min_col(row) == -1);
    assert(spec_max_col(row) == 1);
    let cm = q.spec_cell(1, -1);
    let c0 = q.spec_cell(1, 0);
    let cp = q.spec_cell(1, 1);
    let am: [i32; 2] = [cm.0 as i32, cm.1 as i32];
    let a0: [i32; 2] = [c0.0 as i32, c0.1 as i32];
    let ap: [i32; 2] = [cp.0 as i32, cp.1 as i32];
    let s0 = spec_scan_from(row, None, -1, 1, q, walls, b);
    assert(spec_quadrant_scan(c, origin, walls, b) == s0);
    let t0: [i32; 2] = [1i32, -1i32];
    let s1 = spec_scan_from(row, Some(t0), 0, 1, q, walls, b);
    assert(spec_symmetric(row, -1));
    assert(s0 == seq![am] + s1);
    assert(s0[0] == am);
    let pc0 = q.spec_cell(t0[0] as int, t0[1] as int);
    let row1 = if spec_blocks(walls, b, pc0) && spec_floor(walls, b, c0) {
        Row { depth: row.depth, start_slope: spec_tile_slope(1, 0), end_slope: row.end_slope }
    } else {
        row
    };
    let deeper0 = if spec_floor(walls, b, pc0) && spec_blocks(walls, b, c0) && row.depth < VIEW_DEPTH {
        spec_scan(
            Row { depth: (row.depth + 1) as i32, start_slope: row1.start_slope, end_slope: spec_tile_slope(1, 0) },
            Some(t0),
            q,
            walls,
            b,
        )
    } else {
        Seq::empty()
    };
    let t1: [i32; 2] = [1i32, 0i32];
    let s2 = spec_scan_from(row1, Some(t1), 1, 1, q, walls, b);
    assert(spec_symmetric(row, 0));
    assert(s1 == seq![a0] + deeper0 + s2);
    assert(s1[0] == a0);
    assert(s0[1] == a0);
    assert(spec_symmetric(row1, 1));
    let pc1 = q.spec_cell(t1[0] as int, t1[1] as int);
    let row2 = if spec_blocks(walls, b, pc1) && spec_floor(walls, b, cp) {
        Row { depth: row1.depth, start_slope: spec_tile_slope(1, 1), end_slope: row1.end_slope }
    } else {
        row1
    };
    let deeper1 = if spec_floor(walls, b, pc1) && spec_blocks(walls, b, cp) && row1.depth < VIEW_DEPTH {
        spec_scan(
            Row { depth: (row1.depth + 1) as i32, start_slope: row2.start_slope, end_slope: spec_tile_slope(1, 1) },
            Some(t1),
            q,
            walls,
            b,
        )
    } else {
        Seq::empty()
    };
    let t2: [i32; 2] = [1i32, 1i32];
    let s3 = spec_scan_from(row2, Some(t2), 2, 1, q, walls, b);
    assert(s2 == seq![ap] + deeper1 + s3);
    assert(s2[0] == ap);
    let k: int = 1 + deeper0.len() as int;
    assert(s1[k] == ap);
    assert(s0[k + 1] == ap);
    assert(s0.contains(am));
    assert(s0.contains(a0));
    assert(s0.contains(ap));
    assert(first_row_cell(c, origin, -1) == am);
    assert(first_row_cell(c, origin, 0) == a0);
    assert(first_row_cell(c, origin, 1) == ap);
}

/// Every cell next to the origin is reported, whatever blocks sight: the
/// first row of each quadrant is seen whole.
pub proof fn lemma_fov_sees_neighbours(origin: [i32; 2], walls: Seq<[i32; 2]>, b: Bounds)
    requires
        origin_ok(origin[0] as int, origin[1] as int),
    ensures
        forall|c: [i32; 2]| next_to(origin, c) ==> #[trigger] spec_fov(origin, walls, b).contains(c),
{
    let f = spec_fov(origin, walls, b);
    let n = spec_quadrant_scan(Cardinal::North, origin, walls, b);
    let e = spec_quadrant_scan(Cardinal::East, origin, walls, b);
    let s = spec_quadrant_scan(Cardinal::South, origin, walls, b);
    let w = spec_quadrant_scan(Cardinal::West, origin, walls, b);
    lemma_first_row_seen(Cardinal::North, origin, walls, b);
    lemma_first_row_seen(Cardinal::East, origin, walls, b);
    lemma_first_row_seen(Cardinal::South, origin, walls, b);
    lemma_first_row_seen(Cardinal::West, origin, walls, b);
    assert forall|want: [i32; 2]| next_to(origin, want) implies #[trigger] f.contains(want) by {
        let dx = want[0] - origin[0];
        let dy = want[1] - origin[1];
        let parts = seq![origin] + n + e + s;
        assert(f == parts + w);
        if dx == 0 && dy == 0 {
            assert(want =~= origin);
            assert(f[0] == origin);
        } else if dy == -1 {
            assert(want =~= first_row_cell(Cardinal::North, origin, dx));
            assert(n.contains(want));
            let k = choose|k: int| 0 <= k < n.len() && n[k] == want;
            assert(f[1 + k] == want);
        } else if dy == 1 {
            assert(want =~= first_row_cell(Cardinal::South, origin, dx));
            assert(s.contains(want));
            let k = choose|k: int| 0 <= k < s.len() && s[k] == want;
            assert(f[1 + n.len() + e.len() + k] == want);
        } else if dx == 1 {
            assert(want =~= first_row_cell(Cardinal::East, origin, dy));
            assert(e.contains(want));
            let k = choose|k: int| 0 <= k < e.len() && e[k] == want;
            assert(f[1 + n.len() + k] == want);
        } else {
            assert(want =~= first_row_cell(Cardinal::West, origin, dy));
            assert(w.contains(want));
            let k = choose|k: int| 0 <= k < w.len() && w[k] == want;
            assert(f[1 + n.len() + e.len() + s.len() + k] == want);
        }
    }
}

/// Scans one quadrant outward from its origin.
fn scan_quadrant(
    cardinal: Cardinal,
    origin: &[i32; 2],
    walls: &Vec<[i32; 2]>,
    bounds: &Bounds,
) -> (visible: Vec<[i32; 2]>)
    requires
        origin_ok(origin[0] as int, origin[1] as int),
    ensures
        visible@ == spec_quadrant_scan(cardinal, *origin, walls@, *bounds),
        forall|i: int| 0 <= i < visible@.len() ==> in_view(origin[0] as int, origin[1] as int, #[trigger] visible@[i]),
{
    let quadrant = Quadrant::new(cardinal, origin);
    let first_row = Row {
        depth: 1,
        start_slope: Slope { num: -1, den: 1 },
        end_slope: Slope { num: 1, den: 1 },
    };
    scan_row_recur(first_row, None, &quadrant, walls, bounds)
}

fn same_cell(a: &[i32; 2], b: &[i32; 2]) -> (r: bool)
    ensures
        r == (*a == *b),
{
    let r = a[0] == b[0] && a[1] == b[1];
    proof {
        if r {
            assert(*a =~= *b);
        }
    }
    r
}

/// The cells of `cells`, each once, in order of first appearance.
fn distinct_cells(cells: &Vec<[i32; 2]>) -> (out: Vec<[i32; 2]>)
    ensures
        out@.no_duplicates(),
        forall|c: [i32; 2]| out@.contains(c) <==> cells@.contains(c),
        cells@.len() > 0 ==> out@.len() > 0 && out@[0] == cells@[0],
{
    let mut out: Vec<[i32; 2]> = Vec::new();
    let mut i: usize = 0;
    while i < cells.len()
        invariant
            0 <= i <= cells.len(),
            out@.no_duplicates(),
            forall|c: [i32; 2]| out@.contains(c) <==> cells@.subrange(0, i as int).contains(c),
            i > 0 ==> out@.len() > 0 && out@[0] == cells@[0],
        decreases cells.len() - i,
    {
        let c = cells[i];
        let mut seen = false;
        let mut j: usize = 0;
        while j < out.len()
            invariant
                0 <= j <= out.len(),
                0 <= i < cells.len(),
                c == cells@[i as int],
                out@.no_duplicates(),
                forall|d: [i32; 2]| out@.contains(d) <==> cells@.subrange(0, i as int).contains(d),
                i > 0 ==> out@.len() > 0 && out@[0] == cells@[0],
                seen == (exists|k: int| 0 <= k < j && out@[k] == c),
            decreases out.len() - j,
        {
            if same_cell(&out[j], &c) {
                seen = true;
            }
            j += 1;
        }
        let ghost before = out@;
        proof {
            if i == 0 && out@.len() > 0 {
                assert(out@.contains(out@[0]));
                assert(!cells@.subrange(0, 0).contains(out@[0]));
            }
        }
        if !seen {
            out.push(c);
            proof {
                assert forall|a: int, b: int| 0 <= a < out@.len() && 0 <= b < out@.len() && a
                    != b implies out@[a] != out@[b] by {
                    if a < before.len() && b < before.len() {
                        assert(before[a] != before[b]);
                    }
                }
            }
        }
        proof {
            let prefix = cells@.subrange(0, i as int + 1);
            assert forall|d: [i32; 2]| out@.contains(d) <==> prefix.contains(d) by {
                if out@.contains(d) {
                    let k = choose|k: int| 0 <= k < out@.len() && out@[k] == d;
                    if k < before.len() {
                        assert(before.contains(d));
                        let m = choose|m: int| 0 <= m < i && cells@.subrange(0, i as int)[m] == d;
                        assert(prefix[m] == d);
                    } else {
                        assert(prefix[i as int] == d);
                    }
                }
                if prefix.contains(d) {
                    let m = choose|m: int| 0 <= m <= i && prefix[m] == d;
                    if m < i {
                        assert(cells@.subrange(0, i as int)[m] == d);
                        assert(before.contains(d));
                        let k = choose|k: int| 0 <= k < before.len() && before[k] == d;
                        assert(out@[k] == d);
                    } else if seen {
                        let k = choose|k: int| 0 <= k < before.len() && before[k] == c;
                        assert(out@[k] == d);
                    } else {
                        assert(out@[out@.len() - 1] == d);
                    }
                }
            }
        }
        i += 1;
    }
    assert(cells@.subrange(0, cells@.len() as int) =~= cells@);
    out
}

/// Numbers the cells within `VIEW_DEPTH` of the origin row by row from zero.
spec fn square_index(origin: [i32; 2], c: [i32; 2]) -> int {
    (c[0] - origin[0] + VIEW_DEPTH) * (2 * VIEW_DEPTH + 1) + (c[1] - origin[1] + VIEW_DEPTH)
}

/// Distinct cells within `VIEW_DEPTH` of the origin number at most
/// `(2 * VIEW_DEPTH + 1)^2`, the square that the depth limit allows.
pub proof fn lemma_view_square_count(origin: [i32; 2], cells: Seq<[i32; 2]>)
    requires
        cells.no_duplicates(),
        forall|i: int| 0 <= i < cells.len() ==> in_view(origin[0] as int, origin[1] as int, #[trigger] cells[i]),
    ensures
        cells.len() <= (2 * VIEW_DEPTH + 1) * (2 * VIEW_DEPTH + 1),
{
    let keys = cells.map_values(|c: [i32; 2]| square_index(origin, c));
    assert forall|i: int| 0 <= i < keys.len() implies 0 <= #[trigger] keys[i] < 961 by {
        let c = cells[i];
        assert(in_view(origin[0] as int, origin[1] as int, c));
        let a = c[0] - origin[0] + 15;
        let b = c[1] - origin[1] + 15;
        assert(0 <= a * 31 + b < 961) by (nonlinear_arith)
            requires
                0 <= a <= 30,
                0 <= b <= 30,
        ;
    }
    assert forall|i: int, j: int| 0 <= i < keys.len() && 0 <= j < keys.len() && i != j implies keys[i] != keys[j] by {
        let ci = cells[i];
        let cj = cells[j];
        assert(in_view(origin[0] as int, origin[1] as int, ci));
        assert(in_view(origin[0] as int, origin[1] as int, cj));
        let ai = ci[0] - origin[0] + 15;
        let bi = ci[1] - origin[1] + 15;
        let aj = cj[0] - origin[0] + 15;
        let bj = cj[1] - origin[1] + 15;
        if keys[i] == keys[j] {
            assert(ai == aj && bi == bj) by (nonlinear_arith)
                requires
                    0 <= ai <= 30,
                    0 <= bi <= 30,
                    0 <= aj <= 30,
                    0 <= bj <= 30,
                    ai * 31 + bi == aj * 31 + bj,
            ;
            assert(ci =~= cj);
            assert(cells[i] != cells[j]);
        }
    }
    assert(keys.no_duplicates());
    keys.unique_seq_to_set();
    vstd::set_lib::lemma_int_range(0, 961);
    assert forall|k: int| keys.to_set().contains(k) implies vstd::set_lib::set_int_range(0, 961).contains(k) by {
        let i = choose|i: int| 0 <= i < keys.len() && keys[i] == k;
        assert(0 <= keys[i] < 961);
    }
    vstd::set_lib::lemma_len_subset(keys.to_set(), vstd::set_lib::set_int_range(0, 961));
}

/// The cells visible from `origin`, each once, by symmetric shadowcasting
/// over the four quadrants, with the cells listed in `walls` and those off
/// the board blocking sight. The origin comes first. Obstructed and off-board
/// cells that the scans reach are reported too.
pub fn compute_fov_2d_recursive(
    origin: [i32; 2],
    walls: &Vec<[i32; 2]>,
    bounds: &Bounds,
) -> (visible: Vec<[i32; 2]>)
    requires
        origin_ok(origin[0] as int, origin[1] as int),
    ensures
        forall|c: [i32; 2]| visible@.contains(c) <==> spec_fov(origin, walls@, *bounds).contains(c),
        visible@.no_duplicates(),
        visible@.len() >= 1,
        visible@[0] == origin,
        visible@.contains(origin),
        visible@.len() <= (2 * VIEW_DEPTH + 1) * (2 * VIEW_DEPTH + 1),
        forall|c: [i32; 2]| next_to(origin, c) ==> #[trigger] visible@.contains(c),
        forall|i: int| 0 <= i < visible@.len() ==> in_view(origin[0] as int, origin[1] as int, #[trigger] visible@[i]),
{
    let mut scanned: Vec<[i32; 2]> = Vec::new();
    scanned.push(origin);
    let mut north = scan_quadrant(Cardinal::North, &origin, walls, bounds);
    scanned.append(&mut north);
    let mut east = scan_quadrant(Cardinal::East, &origin, walls, bounds);
    scanned.append(&mut east);
    let mut south = scan_quadrant(Cardinal::South, &origin, walls, bounds);
    scanned.append(&mut south);
    let mut west = scan_quadrant(Cardinal::West, &origin, walls, bounds);
    scanned.append(&mut west);
    assert(scanned@ =~= spec_fov(origin, walls@, *bounds));
    assert(scanned@[0] == origin);
    let visible = distinct_cells(&scanned);
    proof {
        assert forall|i: int| 0 <= i < visible@.len() implies in_view(origin[0] as int, origin[1] as int, #[trigger] visible@[i]) by {
            assert(scanned@.contains(visible@[i]));
            let k = choose|k: int| 0 <= k < scanned@.len() && scanned@[k] == visible@[i];
            if k == 0 {
                assert(visible@[0] == visible@[i]);
            }
        }
        assert(visible@[0] == origin);
        lemma_fov_sees_neighbours(origin, walls@, *bounds);
        lemma_view_square_count(origin, visible@);
    }
    visible
}

} // verus!
