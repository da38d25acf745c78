use tilegraph::algorithms::fov::{compute_fov, FovNode};
use tilegraph::data_structures::Graph;
use tilegraph::error::Error;

struct Tile {
    wall: bool,
}

impl FovNode for Tile {
    fn opaque(&self) -> bool {
        self.wall
    }

    fn blocks_view(&self) -> bool {
        self.wall
    }
}

struct Grid {
    width: usize,
    height: usize,
    tiles: Vec<Tile>,
}

impl Graph<(usize, usize), Tile> for Grid {
    fn has(&self, id: (usize, usize)) -> bool {
        self.contains(&id)
    }

    fn node_at(&self, id: (usize, usize)) -> Tile {
        Tile { wall: self.tiles[id.1 * self.width + id.0].wall }
    }

    fn linked(&self, _from: (usize, usize), _to: (usize, usize)) -> bool {
        false
    }

    fn step_cost(&self, _from: (usize, usize), _to: (usize, usize)) -> u64 {
        1
    }

    fn contains(&self, id: &(usize, usize)) -> bool {
        id.0 < self.width && id.1 < self.height
    }

    fn node(&self, id: &(usize, usize)) -> Result<&Tile, Error> {
        if self.contains(id) {
            Ok(&self.tiles[id.1 * self.width + id.0])
        } else {
            Err(Error::OutOfBounds)
        }
    }

    fn neighbors(&self, _id: &(usize, usize)) -> Vec<(usize, usize)> {
        Vec::new()
    }

    fn cost(&self, _from: &(usize, usize), _to: &(usize, usize)) -> u64 {
        1
    }
}

/// A row whose slopes are held as doubles.
struct FloatRow {
    depth: i64,
    start: f64,
    end: f64,
}

fn place(dir: usize, origin: (usize, usize), tile: (i64, i64)) -> (usize, usize) {
    let (col, row) = tile;
    let (oc, or) = (origin.0 as i64, origin.1 as i64);
    match dir {
        0 => ((oc + col) as usize, (or - row) as usize),
        1 => ((oc + row) as usize, (or + col) as usize),
        2 => ((oc + col) as usize, (or + row) as usize),
        _ => ((oc - row) as usize, (or + col) as usize),
    }
}

fn slope(tile: (i64, i64)) -> f64 {
    (2 * tile.0 - 1) as f64 / (2 * tile.1) as f64
}

/// The scan in floating point. With `gate` off it shows every cell that it
/// passes, whether or not the centre of the cell lies between the slopes.
fn float_scan(
    row: &mut FloatRow,
    dir: usize,
    origin: (usize, usize),
    map: &Grid,
    limit: i64,
    gate: bool,
    out: &mut Vec<(usize, usize)>,
) {
    if row.depth > limit {
        return;
    }
    let min_col = (row.depth as f64 * row.start + 0.5).floor() as i64;
    let max_col = (row.depth as f64 * row.end - 0.5).ceil() as i64;
    let mut previous: Option<(i64, i64)> = None;
    for col in min_col..=max_col {
        let tile = (col, row.depth);
        let abs = place(dir, origin, tile);
        if map.contains(&abs) {
            let symmetric = (col as f64) >= row.depth as f64 * row.start
                && (col as f64) <= row.depth as f64 * row.end;
            if !gate || symmetric {
                out.push(abs);
            }
            let wall = map.node(&abs).unwrap().wall;
            if let Some(prev) = previous {
                let prev_wall = map.node(&place(dir, origin, prev)).unwrap().wall;
                if prev_wall && !wall {
                    row.start = slope(tile);
                } else if !prev_wall && wall {
                    let mut next =
                        FloatRow { depth: row.depth + 1, start: row.start, end: slope(tile) };
                    float_scan(&mut next, dir, origin, map, limit, gate, out);
                }
            }
            previous = Some(tile);
        }
    }
    if let Some(prev) = previous {
        if !map.node(&place(dir, origin, prev)).unwrap().wall {
            let mut next = FloatRow { depth: row.depth + 1, start: row.start, end: row.end };
            float_scan(&mut next, dir, origin, map, limit, gate, out);
        }
    }
}

fn float_fov(origin: (usize, usize), map: &Grid, range: usize, gate: bool) -> Vec<(usize, usize)> {
    let mut all = vec![origin];
    for dir in 0..4 {
        let mut row = FloatRow { depth: 1, start: -1.0, end: 1.0 };
        float_scan(&mut row, dir, origin, map, range as i64, gate, &mut all);
    }
    let mut once = Vec::new();
    for cell in all {
        let near = cell.0.abs_diff(origin.0) + cell.1.abs_diff(origin.1) < range;
        if near && !once.contains(&cell) {
            once.push(cell);
        }
    }
    once
}

#[test]
fn exact_slopes_agree_with_floating_point_on_small_maps() {
    let mut seed: u64 = 7;
    let mut next = move || {
        seed = (seed * 31792125 + 9005) % 2684435399;
        seed
    };
    let mut cases = 0;
    let mut gated_away = 0;
    for round in 0..400 {
        let width = 3 + (next() % 20) as usize;
        let height = 3 + (next() % 20) as usize;
        let density = 1 + next() % 6;
        let mut tiles = Vec::new();
        for _ in 0..width * height {
            tiles.push(Tile { wall: next() % 10 < density });
        }
        let grid = Grid { width, height, tiles };
        let origin = ((next() as usize) % width, (next() as usize) % height);
        let range = (next() % 30) as usize;
        let got = compute_fov(origin, &grid, range);
        let want = float_fov(origin, &grid, range, true);
        assert_eq!(got, want, "round {}", round);
        let loose = float_fov(origin, &grid, range, false);
        for cell in got.iter() {
            assert!(loose.contains(cell));
        }
        gated_away += loose.len() - got.len();
        cases += 1;
    }
    assert_eq!(cases, 400);
    assert!(gated_away > 0);
}
