use tilegraph::algorithms::pathfinding::find_path;
use tilegraph::data_structures::queue::COST_LIMIT;
use tilegraph::data_structures::Graph;
use tilegraph::error::Error;

struct Grid {
    width: usize,
    height: usize,
    walls: Vec<(usize, usize)>,
}

impl Grid {
    fn open(width: usize, height: usize) -> Grid {
        Grid { width, height, walls: Vec::new() }
    }

    fn passable(&self, id: &(usize, usize)) -> bool {
        id.0 < self.width && id.1 < self.height && !self.walls.contains(id)
    }
}

impl Graph<(usize, usize), bool> for Grid {
    fn has(&self, id: (usize, usize)) -> bool {
        self.contains(&id)
    }

    fn node_at(&self, id: (usize, usize)) -> bool {
        self.walls.contains(&id)
    }

    fn linked(&self, from: (usize, usize), to: (usize, usize)) -> bool {
        self.neighbors(&from).contains(&to)
    }

    fn step_cost(&self, from: (usize, usize), to: (usize, usize)) -> u64 {
        self.cost(&from, &to)
    }

    fn contains(&self, id: &(usize, usize)) -> bool {
        id.0 < self.width && id.1 < self.height
    }

    fn node(&self, id: &(usize, usize)) -> Result<&bool, Error> {
        if !self.contains(id) {
            Err(Error::OutOfBounds)
        } else if self.walls.contains(id) {
            Ok(&true)
        } else {
            Ok(&false)
        }
    }

    fn neighbors(&self, id: &(usize, usize)) -> Vec<(usize, usize)> {
        let mut next = Vec::new();
        if id.0 > 0 {
            next.push((id.0 - 1, id.1));
        }
        next.push((id.0 + 1, id.1));
        if id.1 > 0 {
            next.push((id.0, id.1 - 1));
        }
        next.push((id.0, id.1 + 1));
        next.retain(|cell| self.passable(cell));
        next
    }

    fn cost(&self, _from: &(usize, usize), _to: &(usize, usize)) -> u64 {
        1
    }
}

struct Net {
    edges: Vec<((usize, usize), (usize, usize), u64)>,
}

impl Graph<(usize, usize), ()> for Net {
    fn has(&self, id: (usize, usize)) -> bool {
        self.contains(&id)
    }

    fn node_at(&self, _id: (usize, usize)) {}

    fn linked(&self, from: (usize, usize), to: (usize, usize)) -> bool {
        self.neighbors(&from).contains(&to)
    }

    fn step_cost(&self, from: (usize, usize), to: (usize, usize)) -> u64 {
        self.cost(&from, &to)
    }

    fn contains(&self, id: &(usize, usize)) -> bool {
        self.edges.iter().any(|edge| edge.0 == *id || edge.1 == *id)
    }

    fn node(&self, id: &(usize, usize)) -> Result<&(), Error> {
        if self.contains(id) {
            Ok(&())
        } else {
            Err(Error::OutOfBounds)
        }
    }

    fn neighbors(&self, id: &(usize, usize)) -> Vec<(usize, usize)> {
        let mut next = Vec::new();
        for edge in self.edges.iter() {
            if edge.0 == *id && !next.contains(&edge.1) {
                next.push(edge.1);
            }
        }
        next
    }

    fn cost(&self, from: &(usize, usize), to: &(usize, usize)) -> u64 {
        let mut least = u64::MAX;
        for edge in self.edges.iter() {
            if edge.0 == *from && edge.1 == *to && edge.2 < least {
                least = edge.2;
            }
        }
        least
    }
}

fn cost_of<N, G: Graph<(usize, usize), N>>(
    map: &G,
    start: (usize, usize),
    path: &[(usize, usize)],
) -> u64 {
    let mut total = 0;
    for i in 0..path.len() {
        let from = if i + 1 < path.len() { path[i + 1] } else { start };
        assert!(map.neighbors(&from).contains(&path[i]));
        total += map.cost(&from, &path[i]);
    }
    total
}

const A: (usize, usize) = (0, 0);
const B: (usize, usize) = (1, 0);
const C: (usize, usize) = (2, 0);
const D: (usize, usize) = (3, 0);
const E: (usize, usize) = (4, 0);

#[test]
fn open_grid_path_has_the_length_of_the_distance() {
    let grid = Grid::open(5, 5);
    let path = find_path((0, 0), (2, 2), &grid).unwrap();
    assert_eq!(path.len(), 4);
    assert_eq!(path[0], (2, 2));
    assert!(!path.contains(&(0, 0)));
    assert_eq!(cost_of(&grid, (0, 0), &path), 4);
}

#[test]
fn path_lists_cells_from_the_goal_back() {
    let grid = Grid::open(4, 1);
    assert_eq!(find_path((0, 0), (3, 0), &grid), Ok(vec![(3, 0), (2, 0), (1, 0)]));
    assert_eq!(find_path((3, 0), (0, 0), &grid), Ok(vec![(0, 0), (1, 0), (2, 0)]));
}

#[test]
fn walled_in_goal_has_no_path() {
    let mut grid = Grid::open(5, 5);
    grid.walls = vec![(2, 1), (1, 2), (3, 2), (2, 3)];
    assert_eq!(find_path((0, 0), (2, 2), &grid), Err(Error::NoPathFound));
}

#[test]
fn goal_outside_the_grid_has_no_path() {
    let grid = Grid::open(3, 3);
    assert_eq!(find_path((0, 0), (7, 7), &grid), Err(Error::NoPathFound));
}

#[test]
fn path_from_a_cell_to_itself_is_empty() {
    let grid = Grid::open(3, 3);
    assert_eq!(find_path((1, 1), (1, 1), &grid), Ok(vec![]));
    let net = Net { edges: vec![(A, B, 0), (B, A, 0)] };
    assert_eq!(find_path(A, A, &net), Ok(vec![]));
    let lonely = Net { edges: vec![] };
    assert_eq!(find_path(C, C, &lonely), Ok(vec![]));
}

#[test]
fn path_goes_around_a_wall() {
    let mut grid = Grid::open(3, 3);
    grid.walls = vec![(1, 0), (1, 1)];
    let path = find_path((0, 0), (2, 0), &grid).unwrap();
    assert_eq!(path, vec![(2, 0), (2, 1), (2, 2), (1, 2), (0, 2), (0, 1)]);
    assert_eq!(cost_of(&grid, (0, 0), &path), 6);
}

#[test]
fn cheaper_detour_beats_the_direct_step() {
    let net = Net { edges: vec![(A, D, 10), (A, B, 2), (B, C, 3), (C, D, 4)] };
    assert_eq!(find_path(A, D, &net), Ok(vec![D, C, B]));
    let net = Net { edges: vec![(A, D, 9), (A, B, 2), (B, C, 3), (C, D, 4)] };
    let path = find_path(A, D, &net).unwrap();
    assert_eq!(cost_of(&net, A, &path), 9);
    let net = Net { edges: vec![(A, D, 8), (A, B, 2), (B, C, 3), (C, D, 4)] };
    assert_eq!(find_path(A, D, &net), Ok(vec![D]));
}

#[test]
fn later_discovery_lowers_a_cost() {
    let net = Net { edges: vec![(A, B, 1), (A, C, 5), (B, C, 1), (C, D, 1), (B, D, 7), (D, E, 1)] };
    assert_eq!(find_path(A, E, &net), Ok(vec![E, D, C, B]));
}

#[test]
fn steps_are_followed_in_their_direction_only() {
    let net = Net { edges: vec![(B, A, 1), (C, B, 1)] };
    assert_eq!(find_path(A, C, &net), Err(Error::NoPathFound));
    assert_eq!(find_path(C, A, &net), Ok(vec![A, B]));
}

#[test]
fn steps_that_cost_nothing_are_taken() {
    let net = Net { edges: vec![(A, B, 0), (B, A, 0), (B, C, 0), (C, B, 0), (C, D, 0)] };
    assert_eq!(find_path(A, D, &net), Ok(vec![D, C, B]));
}

#[test]
fn goal_is_reached_at_any_cost() {
    let net = Net { edges: vec![(A, B, COST_LIMIT)] };
    assert_eq!(find_path(A, B, &net), Ok(vec![B]));
    let net = Net { edges: vec![(A, B, u64::MAX)] };
    assert_eq!(find_path(A, B, &net), Ok(vec![B]));
    let net = Net { edges: vec![(A, B, COST_LIMIT - 1), (B, C, 1)] };
    assert_eq!(find_path(A, C, &net), Ok(vec![C, B]));
    let net = Net { edges: vec![(A, B, u64::MAX), (B, C, u64::MAX), (C, D, u64::MAX)] };
    assert_eq!(find_path(A, D, &net), Ok(vec![D, C, B]));
    assert_eq!(find_path(D, A, &net), Err(Error::NoPathFound));
}

#[test]
fn path_below_the_limit_beats_one_beyond_it() {
    let net = Net { edges: vec![(A, B, u64::MAX), (A, C, 3), (C, B, COST_LIMIT - 4)] };
    assert_eq!(find_path(A, B, &net), Ok(vec![B, C]));
    let net = Net { edges: vec![(A, B, COST_LIMIT), (A, C, 3), (C, B, COST_LIMIT - 4)] };
    assert_eq!(find_path(A, B, &net), Ok(vec![B, C]));
}

#[test]
fn path_lists_no_cell_twice() {
    let net = Net {
        edges: vec![(A, A, 0), (A, B, 0), (B, B, 0), (B, A, 0), (B, C, 0), (C, C, 0), (C, B, 0)],
    };
    assert_eq!(find_path(A, C, &net), Ok(vec![C, B]));
    let grid = Grid::open(6, 6);
    let path = find_path((0, 0), (5, 5), &grid).unwrap();
    for i in 0..path.len() {
        for j in 0..i {
            assert_ne!(path[i], path[j]);
        }
    }
}

#[test]
fn large_costs_are_told_apart_exactly() {
    let big = 1u64 << 52;
    let net = Net { edges: vec![(A, B, big), (B, D, big - 1), (A, C, big), (C, D, big - 2)] };
    assert_eq!(find_path(A, D, &net), Ok(vec![D, C]));
    let net = Net { edges: vec![(A, B, big), (B, D, big - 2), (A, C, big), (C, D, big - 1)] };
    assert_eq!(find_path(A, D, &net), Ok(vec![D, B]));
}

#[test]
fn long_corridor() {
    let grid = Grid::open(200, 1);
    let path = find_path((0, 0), (199, 0), &grid).unwrap();
    assert_eq!(path.len(), 199);
    for (i, cell) in path.iter().enumerate() {
        assert_eq!(*cell, (199 - i, 0));
    }
}

fn cell(n: u64) -> (usize, usize) {
    ((n % 4) as usize, (n / 4) as usize)
}

#[test]
fn path_costs_what_the_cheapest_route_costs() {
    let mut seed: u64 = 11;
    let mut next = move || {
        seed = (seed * 31792125 + 9005) % 2684435399;
        seed
    };
    let mut found = 0;
    let mut missing = 0;
    for _ in 0..300 {
        let cells = 2 + next() % 14;
        let count = next() % (3 * cells);
        let mut edges = Vec::new();
        for _ in 0..count {
            let from = next() % cells;
            let to = next() % cells;
            let cost = match next() % 5 {
                0 => 0,
                1 => COST_LIMIT / 2,
                _ => next() % 20,
            };
            edges.push((cell(from), cell(to), cost));
        }
        let net = Net { edges };
        let start = next() % cells;
        let goal = next() % cells;

        let mut least: Vec<Option<u64>> = vec![None; cells as usize];
        least[start as usize] = Some(0);
        for _ in 0..cells {
            for from in 0..cells {
                for to in 0..cells {
                    if !net.neighbors(&cell(from)).contains(&cell(to)) {
                        continue;
                    }
                    if let Some(so_far) = least[from as usize] {
                        let sum = so_far + net.cost(&cell(from), &cell(to));
                        let through = sum.min(COST_LIMIT);
                        if least[to as usize].map_or(true, |known| through < known) {
                            least[to as usize] = Some(through);
                        }
                    }
                }
            }
        }

        match find_path(cell(start), cell(goal), &net) {
            Ok(path) => {
                let counted = cost_of(&net, cell(start), &path).min(COST_LIMIT);
                assert_eq!(Some(counted), least[goal as usize]);
                for i in 0..path.len() {
                    for j in 0..i {
                        assert_ne!(path[i], path[j]);
                    }
                }
                if start == goal {
                    assert!(path.is_empty());
                } else {
                    assert_eq!(path[0], cell(goal));
                }
                assert!(!path.contains(&cell(start)));
                found += 1;
            }
            Err(error) => {
                assert_eq!(error, Error::NoPathFound);
                assert_eq!(least[goal as usize], None);
                missing += 1;
            }
        }
    }
    assert!(found > 50);
    assert!(missing > 50);
}
