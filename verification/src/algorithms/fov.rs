use crate::data_structures::cell::{cell_key, key, lemma_key_injective};
use crate::data_structures::graph::Graph;
use std::collections::HashSet;
use vstd::prelude::*;

verus! {

/// The deepest row that a scan can come to: `2^64`, one beyond the
/// greatest range.
pub const MAX_DEPTH: i128 = 0x1_0000_0000_0000_0000;

/// A node that may stop the line of sight.
pub trait FovNode {
    /// Whether the node is opaque.
    spec fn opaque(&self) -> bool;

    fn blocks_view(&self) -> (blocks: bool)
        ensures
            blocks == self.opaque(),
    ;
}

/// The four ways in which a quadrant can face.
#[derive(Clone, Copy, Debug, PartialEq, Eq, Structural)]
pub enum Direction {
    North,
    East,
    South,
    West,
}

/// A quarter of the plane around `origin`. A point of it is named by its
/// depth, the distance from the origin along `direction`, and its column,
/// the offset across.
#[derive(Clone, Copy, Debug)]
pub struct Quadrant {
    pub direction: Direction,
    pub origin: (usize, usize),
}

impl Quadrant {
    /// Where the point at column `col` and depth `row` lies on the plane.
    pub open spec fn place(&self, col: int, row: int) -> (int, int) {
        match self.direction {
            Direction::North => (self.origin.0 + col, self.origin.1 - row),
            Direction::East => (self.origin.0 + row, self.origin.1 + col),
            Direction::South => (self.origin.0 + col, self.origin.1 + row),
            Direction::West => (self.origin.0 - row, self.origin.1 + col),
        }
    }

    /// Whether the point lies where cell ids exist: neither coordinate is
    /// negative or beyond `usize::MAX`.
    pub open spec fn lands(&self, col: int, row: int) -> bool {
        let (x, y) = self.place(col, row);
        0 <= x <= usize::MAX && 0 <= y <= usize::MAX
    }

    /// The cell id of a point that `lands`.
    pub open spec fn target(&self, col: int, row: int) -> (usize, usize) {
        let (x, y) = self.place(col, row);
        (x as usize, y as usize)
    }

    /// Turns the point `(column, depth)` of this quadrant into a cell id;
    /// `None` where the point lies outside the plane of cell ids.
    pub fn transform(&self, point: (i128, i128)) -> (cell: Option<(usize, usize)>)
        ensures
            match cell {
                Some(id) => self.lands(point.0 as int, point.1 as int) && id == self.target(
                    point.0 as int,
                    point.1 as int,
                ),
                None => !self.lands(point.0 as int, point.1 as int),
            },
    {
        let (col, row) = point;
        if col < -MAX_DEPTH || col > MAX_DEPTH || row < -MAX_DEPTH || row > MAX_DEPTH {
            return None;
        }
        let (o_col, o_row) = self.origin;
        let o_col: i128 = o_col as i128;
        let o_row: i128 = o_row as i128;
        let (x, y): (i128, i128) = match self.direction {
            Direction::North => (o_col + col, o_row - row),
            Direction::East => (o_col + row, o_row + col),
            Direction::South => (o_col + col, o_row + row),
            Direction::West => (o_col - row, o_row + col),
        };
        if 0 <= x && x <= usize::MAX as i128 && 0 <= y && y <= usize::MAX as i128 {
            Some((x as usize, y as usize))
        } else {
            None
        }
    }
}

/// The slope `num / den` of a line through the origin of a quadrant: how far
/// the line moves across for each step of depth.
#[derive(Clone, Copy, Debug)]
pub struct Slope {
    pub num: i128,
    pub den: i128,
}

impl Slope {
    /// The slope lies between -1 and 1, and its parts are those of a slope
    /// that a row up to `MAX_DEPTH` can have.
    pub open spec fn wf(self) -> bool {
        0 < self.den <= 2 * MAX_DEPTH && -self.den <= self.num <= self.den
    }
}

/// The slope of the line that passes the tile at `(col, depth)` on its near
/// edge: `(2 * col - 1) / (2 * depth)`.
pub open spec fn slope_at(col: int, depth: int) -> Slope {
    Slope { num: (2 * col - 1) as i128, den: (2 * depth) as i128 }
}

/// The first column of the row at `depth` whose start is `start`: the
/// product `depth * start`, rounded to the nearest integer, a half upwards.
pub open spec fn first_col(depth: int, start: Slope) -> int {
    (2 * depth * start.num + start.den) / (2 * start.den)
}

/// The last column of the row at `depth` whose end is `end`: the product
/// `depth * end`, rounded to the nearest integer, a half downwards.
pub open spec fn last_col(depth: int, end: Slope) -> int {
    (2 * depth * end.num + end.den - 1) / (2 * end.den)
}

/// Whether the centre of the tile at `(col, depth)` lies between the two
/// slopes: `depth * start <= col <= depth * end`.
pub open spec fn symmetric(depth: int, start: Slope, end: Slope, col: int) -> bool {
    col * start.den >= depth * start.num && col * end.den <= depth * end.num
}

/// One row of a scan: the tiles at `depth` between two slopes.
#[derive(Clone, Copy, Debug)]
pub struct Row {
    pub depth: i128,
    pub start_slope: Slope,
    pub end_slope: Slope,
}

impl Row {
    pub open spec fn wf(self) -> bool {
        1 <= self.depth <= MAX_DEPTH && self.start_slope.wf() && self.end_slope.wf()
    }

    /// The row one step further out, between the same slopes.
    pub fn next(&self) -> (row: Row)
        requires
            self.depth < i128::MAX,
        ensures
            row.depth == self.depth + 1,
            row.start_slope == self.start_slope,
            row.end_slope == self.end_slope,
    {
        Row { depth: self.depth + 1, start_slope: self.start_slope, end_slope: self.end_slope }
    }

    /// The tiles of the row, from its first column to its last, each as
    /// `(column, depth)`.
    pub fn tiles(&self) -> (tiles: Vec<(i128, i128)>)
        requires
            self.wf(),
        ensures
            tiles@.len() == if first_col(self.depth as int, self.start_slope) <= last_col(
                self.depth as int,
                self.end_slope,
            ) {
                last_col(self.depth as int, self.end_slope) - first_col(
                    self.depth as int,
                    self.start_slope,
                ) + 1
            } else {
                0
            },
            forall|k: int|
                0 <= k < tiles@.len() ==> #[trigger] tiles@[k] == ((first_col(
                    self.depth as int,
                    self.start_slope,
                ) + k) as i128, self.depth),
            -self.depth <= first_col(self.depth as int, self.start_slope) <= self.depth,
            -self.depth <= last_col(self.depth as int, self.end_slope) <= self.depth,
    {
        let min_col: i128 = round_ties_up(self.depth, self.start_slope);
        let max_col: i128 = round_ties_down(self.depth, self.end_slope);
        let mut tiles: Vec<(i128, i128)> = Vec::new();
        let mut col: i128 = min_col;
        while col <= max_col
            invariant
                min_col <= col,
                min_col <= max_col ==> col <= max_col + 1,
                max_col <= self.depth <= MAX_DEPTH,
                tiles@.len() == if min_col <= max_col {
                    col - min_col
                } else {
                    0
                },
                forall|k: int|
                    0 <= k < tiles@.len() ==> #[trigger] tiles@[k] == (
                        (min_col + k) as i128,
                        self.depth,
                    ),
            decreases max_col + 1 - col,
        {
            tiles.push((col, self.depth));
            col = col + 1;
        }
        tiles
    }
}

/// `(depth * num + add) / den`, rounded down, for a fraction `num / den`
/// between -1 and 1. The product can be wider than 128 bits, so the depth
/// is divided in two halves of 32 bits, as in a long division.
fn floor_of_product(depth: i128, num: i128, den: i128, add: i128) -> (quotient: i128)
    requires
        0 <= depth <= MAX_DEPTH,
        0 < den <= 4 * MAX_DEPTH,
        -den <= num <= den,
        0 <= add < den,
    ensures
        quotient == (depth * num + add) / (den as int),
        -depth <= quotient <= depth,
{
    let shifted: i128 = num + den;
    let high: i128 = depth / 0x1_0000_0000;
    let low: i128 = depth % 0x1_0000_0000;
    assert(0 <= shifted * high <= 2 * den * high && 0 <= shifted * low <= 2 * den * low)
        by (nonlinear_arith)
        requires
            0 <= shifted <= 2 * den,
            0 <= high,
            0 <= low,
    ;
    assert(2 * den * high <= 0x8_0000_0000_0000_0000 * 0x1_0000_0000 && 2 * den * low
        <= 0x8_0000_0000_0000_0000 * 0x1_0000_0000) by (nonlinear_arith)
        requires
            0 < den <= 0x4_0000_0000_0000_0000,
            0 <= high <= 0x1_0000_0000,
            0 <= low <= 0x1_0000_0000,
    ;
    let upper: i128 = shifted * high;
    let upper_quotient: i128 = upper / den;
    let upper_rest: i128 = upper % den;
    proof {
        assert((2 * high + 1) * den == 2 * den * high + den) by (nonlinear_arith);
        lemma_quotient_bounds(upper as int, den as int, 2 * high);
        vstd::arithmetic::div_mod::lemma_fundamental_div_mod(upper as int, den as int);
        assert(upper_rest * 0x1_0000_0000 <= 0x4_0000_0000_0000_0000 * 0x1_0000_0000)
            by (nonlinear_arith)
            requires
                0 <= upper_rest <= 0x4_0000_0000_0000_0000,
        ;
    }
    let lower: i128 = upper_rest * 0x1_0000_0000 + shifted * low + add;
    let lower_quotient: i128 = lower / den;
    let moved: i128 = upper_quotient * 0x1_0000_0000 + lower_quotient;
    proof {
        let whole = depth * shifted + add;
        assert(whole == (upper_quotient * 0x1_0000_0000) * den + lower) by (nonlinear_arith)
            requires
                whole == depth * shifted + add,
                depth == high * 0x1_0000_0000 + low,
                upper == shifted * high,
                upper == den * upper_quotient + upper_rest,
                lower == upper_rest * 0x1_0000_0000 + shifted * low + add,
        ;
        lemma_shifted_quotient(lower as int, den as int, upper_quotient * 0x1_0000_0000);
        assert(moved == whole / (den as int));
        assert(whole == depth * num + add + depth * den) by (nonlinear_arith)
            requires
                whole == depth * shifted + add,
                shifted == num + den,
        ;
        lemma_shifted_quotient(depth * num + add, den as int, depth as int);
        assert(0 <= whole < (2 * depth + 1) * den) by (nonlinear_arith)
            requires
                whole == depth * shifted + add,
                0 <= shifted <= 2 * den,
                0 <= add < den,
                0 <= depth,
        ;
        lemma_quotient_bounds(whole, den as int, 2 * depth);
    }
    moved - depth
}

/// `depth * slope`, rounded to the nearest integer, a half upwards.
fn round_ties_up(depth: i128, slope: Slope) -> (col: i128)
    requires
        1 <= depth <= MAX_DEPTH,
        slope.wf(),
    ensures
        col == first_col(depth as int, slope),
        -depth <= col <= depth,
{
    assert(depth * (2 * slope.num) == 2 * depth * slope.num) by (nonlinear_arith);
    floor_of_product(depth, 2 * slope.num, 2 * slope.den, slope.den)
}

/// `depth * slope`, rounded to the nearest integer, a half downwards.
fn round_ties_down(depth: i128, slope: Slope) -> (col: i128)
    requires
        1 <= depth <= MAX_DEPTH,
        slope.wf(),
    ensures
        col == last_col(depth as int, slope),
        -depth <= col <= depth,
{
    assert(depth * (2 * slope.num) == 2 * depth * slope.num) by (nonlinear_arith);
    floor_of_product(depth, 2 * slope.num, 2 * slope.den, slope.den - 1)
}

/// Adding `shift` times the divisor moves the quotient by `shift`.
proof fn lemma_shifted_quotient(x: int, d: int, shift: int)
    requires
        d > 0,
    ensures
        (x + shift * d) / d == x / d + shift,
{
    vstd::arithmetic::div_mod::lemma_hoist_over_denominator(x, shift, d as nat);
}

/// A dividend from `0` to below `(bound + 1) * d` has a quotient from `0`
/// to `bound`.
proof fn lemma_quotient_bounds(x: int, d: int, bound: int)
    requires
        d > 0,
        0 <= x < (bound + 1) * d,
    ensures
        0 <= x / d <= bound,
{
    vstd::arithmetic::div_mod::lemma_fundamental_div_mod(x, d);
    assert(x / d <= bound) by (nonlinear_arith)
        requires
            d > 0,
            x < (bound + 1) * d,
            x == d * (x / d) + x % d,
            0 <= x % d < d,
    ;
    assert(0 <= x / d) by (nonlinear_arith)
        requires
            d > 0,
            0 <= x,
            x == d * (x / d) + x % d,
            0 <= x % d < d,
    ;
}

/// A column times a divisor is at most `x` exactly if the column is at most
/// `x` divided by it, rounded down.
proof fn lemma_at_most(col: int, d: int, x: int)
    requires
        d > 0,
    ensures
        col * d <= x <==> col <= x / d,
{
    vstd::arithmetic::div_mod::lemma_fundamental_div_mod(x, d);
    let q = x / d;
    if col <= q {
        assert(col * d <= q * d) by (nonlinear_arith)
            requires
                col <= q,
                d > 0,
        ;
        assert(d * q == q * d) by (nonlinear_arith);
    } else {
        assert(col * d >= (q + 1) * d) by (nonlinear_arith)
            requires
                col >= q + 1,
                d > 0,
        ;
        assert((q + 1) * d == d * q + d) by (nonlinear_arith);
    }
}

/// The slope at the near edge of `tile`.
fn slope(tile: (i128, i128)) -> (slope: Slope)
    requires
        1 <= tile.1 <= MAX_DEPTH,
        -tile.1 < tile.0 <= tile.1,
    ensures
        slope == slope_at(tile.0 as int, tile.1 as int),
        slope.wf(),
{
    let (col, row) = tile;
    Slope { num: 2 * col - 1, den: 2 * row }
}

/// Whether the centre of `tile` lies between the slopes of its row.
fn is_symmetric(row: &Row, tile: (i128, i128)) -> (inside: bool)
    requires
        row.wf(),
        -row.depth <= tile.0 <= row.depth,
    ensures
        inside == symmetric(row.depth as int, row.start_slope, row.end_slope, tile.0 as int),
{
    let col = tile.0;
    let start = row.start_slope;
    let end = row.end_slope;
    let least: i128 = floor_of_product(row.depth, start.num, start.den, start.den - 1);
    let most: i128 = floor_of_product(row.depth, end.num, end.den, 0);
    proof {
        lemma_at_most(col as int, start.den as int, row.depth * start.num - 1);
        lemma_shifted_quotient(row.depth * start.num - 1, start.den as int, 1);
        lemma_at_most(col as int, end.den as int, row.depth * end.num);
    }
    least <= col && col <= most
}

/// Whether the tile at `(col, depth)` of quadrant `q` is a cell of `map`.
pub open spec fn in_view<N: FovNode, G: Graph<(usize, usize), N>>(
    map: &G,
    q: Quadrant,
    col: int,
    depth: int,
) -> bool {
    q.lands(col, depth) && map.has(q.target(col, depth))
}

/// Whether the tile at `(col, depth)` of quadrant `q` stops the sight.
pub open spec fn is_wall<N: FovNode, G: Graph<(usize, usize), N>>(
    map: &G,
    q: Quadrant,
    col: int,
    depth: int,
) -> bool {
    map.node_at(q.target(col, depth)).opaque()
}

/// What the scan of one row reveals, this row and every row behind it that
/// the scan goes on to: nothing beyond depth `limit`, else what
/// [`scan_cols`] reveals from the row's first column on.
pub open spec fn scan_row<N: FovNode, G: Graph<(usize, usize), N>>(
    map: &G,
    q: Quadrant,
    depth: int,
    start: Slope,
    end: Slope,
    limit: int,
) -> Seq<(usize, usize)>
    decreases limit + 1 - depth, 1int, 0int,
{
    if depth > limit {
        Seq::empty()
    } else {
        scan_cols(
            map,
            q,
            depth,
            first_col(depth, start),
            last_col(depth, end),
            None,
            start,
            end,
            limit,
        )
    }
}

/// What the scan of a row reveals from column `col` to column `last`, when
/// the row's slopes have become `start` and `end`. `previous` tells whether
/// the last cell of the map that the row has passed was a wall; it is `None`
/// before the first such cell.
///
/// A tile that is no cell of the map is passed over. A cell is revealed if
/// its centre lies between the slopes. Where a wall is followed by an open
/// cell, the row's start moves to the slope at that cell. Where an open cell
/// is followed by a wall, the rows behind are scanned at once, up to the
/// slope at the wall. Behind the row's last column the rows behind are
/// scanned if the last cell was open.
pub open spec fn scan_cols<N: FovNode, G: Graph<(usize, usize), N>>(
    map: &G,
    q: Quadrant,
    depth: int,
    col: int,
    last: int,
    previous: Option<bool>,
    start: Slope,
    end: Slope,
    limit: int,
) -> Seq<(usize, usize)>
    decreases limit + 1 - depth, 0int, last + 1 - col,
{
    if depth > limit {
        Seq::empty()
    } else if col > last {
        if previous == Some(false) {
            scan_row(map, q, depth + 1, start, end, limit)
        } else {
            Seq::empty()
        }
    } else if !in_view(map, q, col, depth) {
        scan_cols(map, q, depth, col + 1, last, previous, start, end, limit)
    } else {
        let shown = if symmetric(depth, start, end, col) {
            seq![q.target(col, depth)]
        } else {
            Seq::empty()
        };
        let wall = is_wall(map, q, col, depth);
        if previous == Some(true) && !wall {
            shown + scan_cols(
                map,
                q,
                depth,
                col + 1,
                last,
                Some(false),
                slope_at(col, depth),
                end,
                limit,
            )
        } else if previous == Some(false) && wall {
            shown + scan_row(map, q, depth + 1, start, slope_at(col, depth), limit) + scan_cols(
                map,
                q,
                depth,
                col + 1,
                last,
                Some(true),
                start,
                end,
                limit,
            )
        } else {
            shown + scan_cols(map, q, depth, col + 1, last, Some(wall), start, end, limit)
        }
    }
}

/// Whether the cell `id` of `map` stops the sight.
fn blocks<N: FovNode, G: Graph<(usize, usize), N>>(map: &G, id: &(usize, usize)) -> (wall: bool)
    requires
        map.has(*id),
    ensures
        wall == map.node_at(*id).opaque(),
{
    match map.node(id) {
        Ok(node) => node.blocks_view(),
        Err(_) => vstd::pervasive::unreached(),
    }
}

/// Scans `row` and the rows behind it, up to depth `limit`, and returns the
/// cells that it reveals in the order in which it meets them.
fn scan<N: FovNode, G: Graph<(usize, usize), N>>(
    row: Row,
    quadrant: &Quadrant,
    map: &G,
    limit: i128,
) -> (visible_tiles: Vec<(usize, usize)>)
    requires
        row.wf(),
        limit < MAX_DEPTH,
    ensures
        visible_tiles@ == scan_row(
            map,
            *quadrant,
            row.depth as int,
            row.start_slope,
            row.end_slope,
            limit as int,
        ),
    decreases limit + 1 - row.depth,
{
    let mut visible_tiles: Vec<(usize, usize)> = Vec::new();
    if row.depth > limit {
        return visible_tiles;
    }
    let tiles = row.tiles();
    let ghost first = first_col(row.depth as int, row.start_slope);
    let ghost last = last_col(row.depth as int, row.end_slope);
    let ghost whole = scan_row(
        map,
        *quadrant,
        row.depth as int,
        row.start_slope,
        row.end_slope,
        limit as int,
    );
    let mut current = row;
    let mut previous: Option<bool> = None;
    let mut k: usize = 0;
    while k < tiles.len()
        invariant
            k <= tiles@.len(),
            tiles@.len() == if first <= last {
                last - first + 1
            } else {
                0
            },
            forall|j: int|
                0 <= j < tiles@.len() ==> #[trigger] tiles@[j] == (
                    (first + j) as i128,
                    current.depth,
                ),
            -current.depth <= first <= current.depth,
            -current.depth <= last <= current.depth,
            current.wf(),
            current.depth == row.depth,
            current.depth <= limit < MAX_DEPTH,
            previous.is_some() ==> k >= 1,
            visible_tiles@ + scan_cols(
                map,
                *quadrant,
                current.depth as int,
                first + k,
                last,
                previous,
                current.start_slope,
                current.end_slope,
                limit as int,
            ) == whole,
        decreases tiles@.len() - k,
    {
        let tile = tiles[k];
        let ghost col = first + k;
        let ghost seen = visible_tiles@;
        let ghost rest = scan_cols(
            map,
            *quadrant,
            current.depth as int,
            col,
            last,
            previous,
            current.start_slope,
            current.end_slope,
            limit as int,
        );
        let mut in_map: Option<(usize, usize)> = None;
        if let Some(abs_tile) = quadrant.transform(tile) {
            if map.contains(&abs_tile) {
                in_map = Some(abs_tile);
            }
        }
        if let Some(abs_tile) = in_map {
            if is_symmetric(&current, tile) {
                visible_tiles.push(abs_tile);
            }
            let ghost shown = visible_tiles@;
            let wall = blocks(map, &abs_tile);
            if previous == Some(true) && !wall {
                current.start_slope = slope(tile);
                proof {
                    assert(shown + scan_cols(
                        map,
                        *quadrant,
                        current.depth as int,
                        col + 1,
                        last,
                        Some(false),
                        current.start_slope,
                        current.end_slope,
                        limit as int,
                    ) =~= seen + rest);
                }
            } else if previous == Some(false) && wall {
                let mut next_row = current.next();
                next_row.end_slope = slope(tile);
                let mut behind = scan(next_row, quadrant, map, limit);
                visible_tiles.append(&mut behind);
                proof {
                    assert(visible_tiles@ + scan_cols(
                        map,
                        *quadrant,
                        current.depth as int,
                        col + 1,
                        last,
                        Some(true),
                        current.start_slope,
                        current.end_slope,
                        limit as int,
                    ) =~= seen + rest);
                }
            } else {
                proof {
                    assert(shown + scan_cols(
                        map,
                        *quadrant,
                        current.depth as int,
                        col + 1,
                        last,
                        Some(wall),
                        current.start_slope,
                        current.end_slope,
                        limit as int,
                    ) =~= seen + rest);
                }
            }
            previous = Some(wall);
        }
        k = k + 1;
    }
    if previous == Some(false) {
        let mut behind = scan(current.next(), quadrant, map, limit);
        visible_tiles.append(&mut behind);
    }
    proof {
        assert(visible_tiles@ =~= whole);
    }
    visible_tiles
}

/// The distance between two cells in steps along the axes.
pub open spec fn manhattan(a: (usize, usize), b: (usize, usize)) -> int {
    (if a.0 > b.0 {
        a.0 - b.0
    } else {
        b.0 - a.0
    }) + (if a.1 > b.1 {
        a.1 - b.1
    } else {
        b.1 - a.1
    })
}

/// Whether `point` is fewer than `range` steps along the axes from `origin`.
pub fn is_in_range(point: (usize, usize), origin: (usize, usize), range: usize) -> (inside: bool)
    ensures
        inside == (manhattan(point, origin) < range),
{
    let (x, y) = point;
    let (o_x, o_y) = origin;
    let x_dist: usize = if x > o_x {
        x - o_x
    } else {
        o_x - x
    };
    let y_dist: usize = if y > o_y {
        y - o_y
    } else {
        o_y - y
    };
    x_dist < range && y_dist < range - x_dist
}

/// The slope of a quadrant's left edge.
pub open spec fn left_edge() -> Slope {
    Slope { num: -1i128, den: 1i128 }
}

/// The slope of a quadrant's right edge.
pub open spec fn right_edge() -> Slope {
    Slope { num: 1i128, den: 1i128 }
}

/// What the scan of the whole quadrant that faces `direction` reveals.
pub open spec fn scan_quadrant<N: FovNode, G: Graph<(usize, usize), N>>(
    map: &G,
    origin: (usize, usize),
    direction: Direction,
    limit: int,
) -> Seq<(usize, usize)> {
    scan_row(map, (Quadrant { direction, origin }), 1, left_edge(), right_edge(), limit)
}

/// The origin, then what the scans of the four quadrants reveal: north,
/// east, south, west.
pub open spec fn revealed<N: FovNode, G: Graph<(usize, usize), N>>(
    map: &G,
    origin: (usize, usize),
    limit: int,
) -> Seq<(usize, usize)> {
    seq![origin] + scan_quadrant(map, origin, Direction::North, limit) + scan_quadrant(
        map,
        origin,
        Direction::East,
        limit,
    ) + scan_quadrant(map, origin, Direction::South, limit) + scan_quadrant(
        map,
        origin,
        Direction::West,
        limit,
    )
}

/// Of the cells that the four scans reveal up to depth `range`, those fewer
/// than `range` steps from the origin, in the order of the scans. A cell on
/// the diagonal between two quadrants stands here once for each.
pub open spec fn sighted<N: FovNode, G: Graph<(usize, usize), N>>(
    map: &G,
    origin: (usize, usize),
    range: int,
) -> Seq<(usize, usize)> {
    revealed(map, origin, range).filter(|point: (usize, usize)| manhattan(point, origin) < range)
}

/// `cells` without repeats: each cell stays where it first stands.
pub open spec fn distinct(cells: Seq<(usize, usize)>) -> Seq<(usize, usize)>
    decreases cells.len(),
{
    if cells.len() == 0 {
        cells
    } else {
        let before = distinct(cells.drop_last());
        if before.contains(cells.last()) {
            before
        } else {
            before.push(cells.last())
        }
    }
}

/// The field of view from `origin`: the cells sighted, each once, in the
/// order in which the scans first meet them.
pub open spec fn fov<N: FovNode, G: Graph<(usize, usize), N>>(
    map: &G,
    origin: (usize, usize),
    range: int,
) -> Seq<(usize, usize)> {
    distinct(sighted(map, origin, range))
}

/// A sequence without its repeats holds the same cells, none of them twice,
/// and starts with the same cell.
pub proof fn lemma_distinct(cells: Seq<(usize, usize)>)
    ensures
        distinct(cells).no_duplicates(),
        forall|cell: (usize, usize)| #[trigger]
            distinct(cells).contains(cell) <==> cells.contains(cell),
        cells.len() > 0 ==> distinct(cells).len() > 0 && distinct(cells)[0] == cells[0],
    decreases cells.len(),
{
    if cells.len() > 0 {
        let rest = cells.drop_last();
        let last = cells.last();
        lemma_distinct(rest);
        let before = distinct(rest);
        assert forall|cell: (usize, usize)| #[trigger]
            distinct(cells).contains(cell) <==> cells.contains(cell) by {
            if cells.contains(cell) {
                let i = choose|i: int| 0 <= i < cells.len() && cells[i] == cell;
                if i < cells.len() - 1 {
                    assert(rest[i] == cell);
                    assert(rest.contains(cell));
                    assert(before.contains(cell));
                    let j = choose|j: int| 0 <= j < before.len() && before[j] == cell;
                    assert(distinct(cells)[j] == cell);
                } else if !before.contains(last) {
                    assert(distinct(cells)[before.len() as int] == cell);
                }
            }
            if distinct(cells).contains(cell) {
                let j = choose|j: int| 0 <= j < distinct(cells).len() && distinct(cells)[j] == cell;
                if j < before.len() {
                    assert(before[j] == cell);
                    assert(before.contains(cell));
                    assert(rest.contains(cell));
                    let i = choose|i: int| 0 <= i < rest.len() && rest[i] == cell;
                    assert(cells[i] == cell);
                } else {
                    assert(cell == last);
                    assert(cells[cells.len() - 1] == cell);
                }
            }
        }
        if rest.len() > 0 {
            assert(rest[0] == cells[0]);
        }
    }
}

/// Scans the quadrant that faces `direction` from its first row on.
fn scan_from<N: FovNode, G: Graph<(usize, usize), N>>(
    origin: (usize, usize),
    direction: Direction,
    map: &G,
    limit: i128,
) -> (visible_tiles: Vec<(usize, usize)>)
    requires
        limit < MAX_DEPTH,
    ensures
        visible_tiles@ == scan_quadrant(map, origin, direction, limit as int),
{
    let quadrant = Quadrant { direction, origin };
    let first_row = Row {
        depth: 1,
        start_slope: Slope { num: -1, den: 1 },
        end_slope: Slope { num: 1, den: 1 },
    };
    scan(first_row, &quadrant, map, limit)
}

/// Computes the cells that can be seen from `origin` by symmetric
/// shadowcasting. The origin comes first. A cell of the map is seen if a
/// scan reaches it and its centre lies between the slopes of the row that
/// the scan has then; walls decide only where rows are split. Of the cells
/// seen, those fewer than `range` steps along the axes from the origin are
/// returned, so no row deeper than `range` is scanned. Each cell is
/// returned once, where the scans first meet it: north, east, south, west.
pub fn compute_fov<N: FovNode, G: Graph<(usize, usize), N>>(
    origin: (usize, usize),
    map: &G,
    range: usize,
) -> (visible: Vec<(usize, usize)>)
    ensures
        visible@ == fov(map, origin, range as int),
        visible@.no_duplicates(),
        range >= 1 ==> visible@.len() > 0 && visible@[0] == origin,
        forall|i: int|
            0 <= i < visible@.len() ==> manhattan(#[trigger] visible@[i], origin) < range && (
            visible@[i] == origin || map.has(visible@[i])),
{
    broadcast use vstd::std_specs::hash::group_hash_axioms;

    proof {
        lemma_fov_no_duplicates(map, origin, range as int);
        if range >= 1 {
            lemma_fov_starts_at_origin(map, origin, range as int);
        }
        assert forall|i: int| 0 <= i < fov(map, origin, range as int).len() implies manhattan(
            #[trigger] fov(map, origin, range as int)[i],
            origin,
        ) < range && (fov(map, origin, range as int)[i] == origin || map.has(
            fov(map, origin, range as int)[i],
        )) by {
            let cell = fov(map, origin, range as int)[i];
            assert(fov(map, origin, range as int).contains(cell));
            lemma_fov_within_map_and_range(map, origin, range as int, cell);
        }
    }
    let limit: i128 = range as i128;
    let mut revealed_tiles: Vec<(usize, usize)> = Vec::new();
    revealed_tiles.push(origin);
    let mut north = scan_from(origin, Direction::North, map, limit);
    revealed_tiles.append(&mut north);
    let mut east = scan_from(origin, Direction::East, map, limit);
    revealed_tiles.append(&mut east);
    let mut south = scan_from(origin, Direction::South, map, limit);
    revealed_tiles.append(&mut south);
    let mut west = scan_from(origin, Direction::West, map, limit);
    revealed_tiles.append(&mut west);
    assert(revealed_tiles@ =~= revealed(map, origin, range as int));

    let ghost near = |point: (usize, usize)| manhattan(point, origin) < range as int;
    let mut visible: Vec<(usize, usize)> = Vec::new();
    let mut listed: HashSet<u128> = HashSet::new();
    let mut k: usize = 0;
    assert(revealed_tiles@.take(0) =~= Seq::<(usize, usize)>::empty());
    assert(Seq::<(usize, usize)>::empty().filter(near) =~= Seq::<(usize, usize)>::empty()) by {
        reveal(Seq::filter);
    }
    while k < revealed_tiles.len()
        invariant
            k <= revealed_tiles@.len(),
            near == |point: (usize, usize)| manhattan(point, origin) < range as int,
            visible@ == distinct(revealed_tiles@.take(k as int).filter(near)),
            forall|cell: (usize, usize)|
                listed@.contains(#[trigger] key(cell)) <==> visible@.contains(cell),
        decreases revealed_tiles@.len() - k,
    {
        let point = revealed_tiles[k];
        let ghost before = visible@;
        let ghost earlier = revealed_tiles@.take(k as int).filter(near);
        proof {
            assert(revealed_tiles@.take(k + 1) =~= revealed_tiles@.take(k as int).push(point));
            revealed_tiles@.take(k as int).lemma_filter_push(point, near);
            assert(earlier.push(point).drop_last() =~= earlier);
        }
        if is_in_range(point, origin, range) {
            if listed.insert(cell_key(&point)) {
                visible.push(point);
                proof {
                    assert forall|cell: (usize, usize)|
                        listed@.contains(#[trigger] key(cell)) <==> visible@.contains(cell) by {
                        lemma_key_injective(cell, point);
                        if cell == point {
                            assert(visible@[before.len() as int] == point);
                        } else if before.contains(cell) {
                            let i = choose|i: int| 0 <= i < before.len() && before[i] == cell;
                            assert(visible@[i] == cell);
                        } else if visible@.contains(cell) {
                            let i = choose|i: int| 0 <= i < visible@.len() && visible@[i] == cell;
                            assert(before[i] == cell);
                        }
                    }
                }
            }
        }
        k = k + 1;
    }
    assert(revealed_tiles@.take(k as int) =~= revealed_tiles@);
    visible
}

/// The field of view of a range of at least 1 starts with the origin.
pub proof fn lemma_fov_starts_at_origin<N: FovNode, G: Graph<(usize, usize), N>>(
    map: &G,
    origin: (usize, usize),
    range: int,
)
    requires
        range >= 1,
    ensures
        fov(map, origin, range).len() > 0,
        fov(map, origin, range)[0] == origin,
        fov(map, origin, range).contains(origin),
{
    let near = |point: (usize, usize)| manhattan(point, origin) < range;
    let rest = scan_quadrant(map, origin, Direction::North, range) + scan_quadrant(
        map,
        origin,
        Direction::East,
        range,
    ) + scan_quadrant(map, origin, Direction::South, range) + scan_quadrant(
        map,
        origin,
        Direction::West,
        range,
    );
    assert(revealed(map, origin, range) =~= seq![origin] + rest);
    Seq::filter_distributes_over_add(seq![origin], rest, near);
    assert(seq![origin] =~= Seq::<(usize, usize)>::empty().push(origin));
    Seq::<(usize, usize)>::empty().lemma_filter_push(origin, near);
    assert(Seq::<(usize, usize)>::empty().filter(near) =~= Seq::<(usize, usize)>::empty()) by {
        reveal(Seq::filter);
    }
    assert(near(origin));
    assert(sighted(map, origin, range)[0] == origin);
    lemma_distinct(sighted(map, origin, range));
    assert(fov(map, origin, range)[0] == origin);
}

/// No cell stands twice in a field of view.
pub proof fn lemma_fov_no_duplicates<N: FovNode, G: Graph<(usize, usize), N>>(
    map: &G,
    origin: (usize, usize),
    range: int,
)
    ensures
        fov(map, origin, range).no_duplicates(),
{
    lemma_distinct(sighted(map, origin, range));
}

/// The field of view is a function of the origin, the map and the range:
/// what is computed twice from the same three is the same.
pub proof fn lemma_fov_is_repeatable<N: FovNode, G: Graph<(usize, usize), N>>(
    map: &G,
    origin: (usize, usize),
    range: int,
    first: Seq<(usize, usize)>,
    second: Seq<(usize, usize)>,
)
    requires
        first == fov(map, origin, range),
        second == fov(map, origin, range),
    ensures
        first == second,
{
}

/// Every cell that a scan reveals is a cell of the map.
pub proof fn lemma_scan_row_in_map<N: FovNode, G: Graph<(usize, usize), N>>(
    map: &G,
    q: Quadrant,
    depth: int,
    start: Slope,
    end: Slope,
    limit: int,
    cell: (usize, usize),
)
    requires
        scan_row(map, q, depth, start, end, limit).contains(cell),
    ensures
        map.has(cell),
    decreases limit + 1 - depth, 1int, 0int,
{
    if depth <= limit {
        lemma_scan_cols_in_map(
            map,
            q,
            depth,
            first_col(depth, start),
            last_col(depth, end),
            None,
            start,
            end,
            limit,
            cell,
        );
    }
}

/// Every cell that the scan of a part of a row reveals is a cell of the
/// map.
pub proof fn lemma_scan_cols_in_map<N: FovNode, G: Graph<(usize, usize), N>>(
    map: &G,
    q: Quadrant,
    depth: int,
    col: int,
    last: int,
    previous: Option<bool>,
    start: Slope,
    end: Slope,
    limit: int,
    cell: (usize, usize),
)
    requires
        scan_cols(map, q, depth, col, last, previous, start, end, limit).contains(cell),
    ensures
        map.has(cell),
    decreases limit + 1 - depth, 0int, last + 1 - col,
{
    broadcast use vstd::seq_lib::lemma_seq_concat_contains_all_elements;

    if depth > limit {
    } else if col > last {
        if previous == Some(false) {
            lemma_scan_row_in_map(map, q, depth + 1, start, end, limit, cell);
        }
    } else if !in_view(map, q, col, depth) {
        lemma_scan_cols_in_map(map, q, depth, col + 1, last, previous, start, end, limit, cell);
    } else {
        let shown = if symmetric(depth, start, end, col) {
            seq![q.target(col, depth)]
        } else {
            Seq::empty()
        };
        let wall = is_wall(map, q, col, depth);
        if shown.contains(cell) {
            assert(cell == q.target(col, depth));
        } else if previous == Some(true) && !wall {
            lemma_scan_cols_in_map(
                map,
                q,
                depth,
                col + 1,
                last,
                Some(false),
                slope_at(col, depth),
                end,
                limit,
                cell,
            );
        } else if previous == Some(false) && wall {
            let behind = scan_row(map, q, depth + 1, start, slope_at(col, depth), limit);
            if behind.contains(cell) {
                lemma_scan_row_in_map(map, q, depth + 1, start, slope_at(col, depth), limit, cell);
            } else {
                lemma_scan_cols_in_map(
                    map,
                    q,
                    depth,
                    col + 1,
                    last,
                    Some(true),
                    start,
                    end,
                    limit,
                    cell,
                );
            }
        } else {
            lemma_scan_cols_in_map(
                map,
                q,
                depth,
                col + 1,
                last,
                Some(wall),
                start,
                end,
                limit,
                cell,
            );
        }
    }
}

/// Every cell of a field of view is fewer than `range` steps from the
/// origin, and is the origin or a cell of the map.
pub proof fn lemma_fov_within_map_and_range<N: FovNode, G: Graph<(usize, usize), N>>(
    map: &G,
    origin: (usize, usize),
    range: int,
    cell: (usize, usize),
)
    requires
        fov(map, origin, range).contains(cell),
    ensures
        manhattan(cell, origin) < range,
        cell == origin || map.has(cell),
{
    broadcast use vstd::seq_lib::lemma_seq_concat_contains_all_elements;

    let near = |point: (usize, usize)| manhattan(point, origin) < range;
    let all = revealed(map, origin, range);
    lemma_distinct(sighted(map, origin, range));
    assert(all.filter(near).contains(cell));
    let i = choose|i: int| 0 <= i < all.filter(near).len() && all.filter(near)[i] == cell;
    all.lemma_filter_pred(near, i);
    all.lemma_filter_contains_rev(near, cell);
    if cell != origin {
        assert(!seq![origin].contains(cell));
        let north = Quadrant { direction: Direction::North, origin };
        let east = Quadrant { direction: Direction::East, origin };
        let south = Quadrant { direction: Direction::South, origin };
        let west = Quadrant { direction: Direction::West, origin };
        if scan_quadrant(map, origin, Direction::North, range).contains(cell) {
            lemma_scan_row_in_map(map, north, 1, left_edge(), right_edge(), range, cell);
        } else if scan_quadrant(map, origin, Direction::East, range).contains(cell) {
            lemma_scan_row_in_map(map, east, 1, left_edge(), right_edge(), range, cell);
        } else if scan_quadrant(map, origin, Direction::South, range).contains(cell) {
            lemma_scan_row_in_map(map, south, 1, left_edge(), right_edge(), range, cell);
        } else {
            assert(scan_quadrant(map, origin, Direction::West, range).contains(cell));
            lemma_scan_row_in_map(map, west, 1, left_edge(), right_edge(), range, cell);
        }
    }
}

/// No cell of the map stops the sight.
pub open spec fn unobstructed<N: FovNode, G: Graph<(usize, usize), N>>(map: &G) -> bool {
    forall|cell: (usize, usize)| #[trigger] map.has(cell) ==> !map.node_at(cell).opaque()
}

/// The cells of the map are those of a grid of `width` columns and
/// `height` rows.
pub open spec fn is_grid<N: FovNode, G: Graph<(usize, usize), N>>(
    map: &G,
    width: int,
    height: int,
) -> bool {
    forall|cell: (usize, usize)| #[trigger] map.has(cell) <==> cell.0 < width && cell.1 < height
}

/// On a map without walls, the scan of a row between the edges of the
/// quadrant reveals each cell of the row that is a cell of the map.
proof fn lemma_open_cols<N: FovNode, G: Graph<(usize, usize), N>>(
    map: &G,
    q: Quadrant,
    depth: int,
    col: int,
    last: int,
    previous: Option<bool>,
    limit: int,
    c: int,
)
    requires
        unobstructed(map),
        depth <= limit,
        previous != Some(true),
        col <= c <= last,
        -depth <= c <= depth,
        in_view(map, q, c, depth),
    ensures
        scan_cols(map, q, depth, col, last, previous, left_edge(), right_edge(), limit).contains(
            q.target(c, depth),
        ),
    decreases c - col,
{
    broadcast use vstd::seq_lib::lemma_seq_concat_contains_all_elements;

    if in_view(map, q, col, depth) {
        assert(!is_wall(map, q, col, depth));
        let rest = scan_cols(
            map,
            q,
            depth,
            col + 1,
            last,
            Some(false),
            left_edge(),
            right_edge(),
            limit,
        );
        if c == col {
            assert(symmetric(depth, left_edge(), right_edge(), c));
            let shown = seq![q.target(col, depth)];
            assert(shown[0] == q.target(c, depth));
            assert(shown.contains(q.target(c, depth)));
            assert((shown + rest).contains(q.target(c, depth)));
        } else {
            lemma_open_cols(map, q, depth, col + 1, last, Some(false), limit, c);
        }
    } else {
        lemma_open_cols(map, q, depth, col + 1, last, previous, limit, c);
    }
}

/// On a map without walls, the scan of a row that holds a cell of the map
/// goes on to the next row.
proof fn lemma_open_cols_descend<N: FovNode, G: Graph<(usize, usize), N>>(
    map: &G,
    q: Quadrant,
    depth: int,
    col: int,
    last: int,
    previous: Option<bool>,
    limit: int,
    c: int,
    cell: (usize, usize),
)
    requires
        unobstructed(map),
        depth <= limit,
        previous != Some(true),
        previous == Some(false) || (col <= c <= last && in_view(map, q, c, depth)),
        scan_row(map, q, depth + 1, left_edge(), right_edge(), limit).contains(cell),
    ensures
        scan_cols(map, q, depth, col, last, previous, left_edge(), right_edge(), limit).contains(
            cell,
        ),
    decreases
            if col <= last {
                last + 1 - col
            } else {
                0
            },
{
    broadcast use vstd::seq_lib::lemma_seq_concat_contains_all_elements;

    if col > last {
    } else if in_view(map, q, col, depth) {
        assert(!is_wall(map, q, col, depth));
        lemma_open_cols_descend(map, q, depth, col + 1, last, Some(false), limit, c, cell);
    } else {
        lemma_open_cols_descend(map, q, depth, col + 1, last, previous, limit, c, cell);
    }
}

/// On a map without walls, the scan of a quadrant from row `depth` on
/// reveals the cell at `(c, far)` if the rows in between each hold a cell
/// of the map on the quadrant's axis.
proof fn lemma_open_rows<N: FovNode, G: Graph<(usize, usize), N>>(
    map: &G,
    q: Quadrant,
    depth: int,
    far: int,
    c: int,
    limit: int,
)
    requires
        unobstructed(map),
        1 <= depth <= far <= limit,
        forall|d: int| depth <= d < far ==> #[trigger] in_view(map, q, 0, d),
        in_view(map, q, c, far),
        -far <= c <= far,
    ensures
        scan_row(map, q, depth, left_edge(), right_edge(), limit).contains(q.target(c, far)),
    decreases far - depth,
{
    assert(first_col(depth, left_edge()) == -depth && last_col(depth, right_edge()) == depth) by {
        lemma_shifted_quotient(1, 2, -depth);
        lemma_shifted_quotient(0, 2, depth);
        assert(2 * depth * (-1) + 1 == 1 + (-depth) * 2);
        assert(2 * depth * 1 + 1 - 1 == 0 + depth * 2);
    }
    if depth == far {
        lemma_open_cols(map, q, far, -far, far, None, limit, c);
    } else {
        lemma_open_rows(map, q, depth + 1, far, c, limit);
        assert(in_view(map, q, 0, depth));
        lemma_open_cols_descend(map, q, depth, -depth, depth, None, limit, 0, q.target(c, far));
    }
}

/// On a grid without walls the field of view is the diamond around the
/// origin: exactly the cells of the grid that are fewer than `range` steps
/// along the axes from the origin.
pub proof fn lemma_fov_of_open_grid<N: FovNode, G: Graph<(usize, usize), N>>(
    map: &G,
    origin: (usize, usize),
    range: int,
    width: int,
    height: int,
)
    requires
        is_grid(map, width, height),
        unobstructed(map),
        map.has(origin),
    ensures
        forall|cell: (usize, usize)| #[trigger]
            fov(map, origin, range).contains(cell) <==> map.has(cell) && manhattan(cell, origin)
                < range,
{
    assert forall|cell: (usize, usize)| #[trigger]
        fov(map, origin, range).contains(cell) <==> map.has(cell) && manhattan(cell, origin)
        < range by {
        if fov(map, origin, range).contains(cell) {
            lemma_fov_within_map_and_range(map, origin, range, cell);
        }
        if map.has(cell) && manhattan(cell, origin) < range {
            lemma_open_cell_is_seen(map, origin, range, width, height, cell);
        }
    }
}

/// On a grid without walls each cell of the diamond is in the field of
/// view.
proof fn lemma_open_cell_is_seen<N: FovNode, G: Graph<(usize, usize), N>>(
    map: &G,
    origin: (usize, usize),
    range: int,
    width: int,
    height: int,
    cell: (usize, usize),
)
    requires
        is_grid(map, width, height),
        unobstructed(map),
        map.has(origin),
        map.has(cell),
        manhattan(cell, origin) < range,
    ensures
        fov(map, origin, range).contains(cell),
{
    broadcast use vstd::seq_lib::lemma_seq_concat_contains_all_elements;

    let near = |point: (usize, usize)| manhattan(point, origin) < range;
    let all = revealed(map, origin, range);
    if cell == origin {
        lemma_fov_starts_at_origin(map, origin, range);
    } else {
        let dx = cell.0 - origin.0;
        let dy = cell.1 - origin.1;
        let across = if dx < 0 {
            -dx
        } else {
            dx
        };
        let along = if dy < 0 {
            -dy
        } else {
            dy
        };
        let direction = if along >= across {
            if dy < 0 {
                Direction::North
            } else {
                Direction::South
            }
        } else if dx > 0 {
            Direction::East
        } else {
            Direction::West
        };
        let far = if along >= across {
            along
        } else {
            across
        };
        let c = if along >= across {
            dx
        } else {
            dy
        };
        let q = Quadrant { direction, origin };
        assert(q.target(c, far) == cell);
        assert(in_view(map, q, c, far));
        assert forall|d: int| 1 <= d < far implies #[trigger] in_view(map, q, 0, d) by {
            assert(map.has(q.target(0, d)));
        }
        lemma_open_rows(map, q, 1, far, c, range);
        assert(scan_quadrant(map, origin, direction, range).contains(cell));
        assert(all.contains(cell));
        let i = choose|i: int| 0 <= i < all.len() && all[i] == cell;
        all.lemma_filter_contains(near, i);
        lemma_distinct(sighted(map, origin, range));
    }
}

} // verus!
