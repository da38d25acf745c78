use crate::data_structures::cell::{cell_key, key, lemma_key_injective, same_cell, Cell};
use crate::data_structures::graph::Graph;
use crate::data_structures::queue::{
    is_finite, lemma_cost_order_strict_total, lemma_whole_cost, lemma_whole_cost_increases,
    lemma_whole_cost_limit, lemma_whole_cost_zero, whole_bits, whole_bits_of, whole_cost, Cost,
    MinPriorityItem, MinPriorityQueue, COST_LIMIT,
};
use crate::error::Error;
use std::collections::HashMap;
use vstd::prelude::*;

verus! {

/// An entry of the frontier.
type Entry = MinPriorityItem<Cell>;

/// What the search has written down, cell by cell.
type Marks = Map<Cell, Mark>;

/// The entries that the search has added to its frontier, each a cell and
/// a cost.
type Pushes = Set<(Cell, u64)>;

/// The cell from which a path steps to its `i`-th cell. A path lists its
/// cells from the goal back and leaves the start out, so the step to the
/// last cell listed comes from the start.
pub open spec fn source(start: Cell, path: Seq<Cell>, i: int) -> Cell {
    if i + 1 < path.len() {
        path[i + 1]
    } else {
        start
    }
}

/// Whether `path` leads from `start` to `goal` along steps of `map`. The
/// empty path leads from a cell to itself.
pub open spec fn is_route<N, G: Graph<Cell, N>>(
    map: &G,
    start: Cell,
    goal: Cell,
    path: Seq<Cell>,
) -> bool {
    if path.len() == 0 {
        goal == start
    } else {
        path[0] == goal && forall|i: int|
            0 <= i < path.len() ==> map.linked(source(start, path, i), #[trigger] path[i])
    }
}

/// The sum of the costs of the steps of `path`.
pub open spec fn route_cost<N, G: Graph<Cell, N>>(map: &G, start: Cell, path: Seq<Cell>) -> nat
    decreases path.len(),
{
    if path.len() == 0 {
        0
    } else {
        map.step_cost(source(start, path, 0), path[0]) as nat + route_cost(
            map,
            start,
            path.drop_first(),
        )
    }
}

/// A cost as the search counts it: exactly up to `COST_LIMIT`, and as
/// `COST_LIMIT` beyond.
pub open spec fn counted(cost: int) -> int {
    if cost >= COST_LIMIT {
        COST_LIMIT as int
    } else {
        cost
    }
}

/// The empty path leads from a cell to itself and costs nothing.
pub proof fn lemma_route_to_self<N, G: Graph<Cell, N>>(map: &G, start: Cell)
    ensures
        is_route(map, start, start, Seq::empty()),
        route_cost(map, start, Seq::empty()) == 0,
{
}

/// What the search knows of a cell that it has reached: the least cost
/// found so far, the cell from which that cost was reached, and when it was
/// written down.
struct Mark {
    cost: u64,
    from: Option<Cell>,
    stamp: nat,
}

/// The table of costs holds the costs that `marks` says.
#[verifier::opaque]
spec fn costs_agree(marks: Marks, costs: Map<u128, u64>) -> bool {
    &&& forall|c: Cell| costs.contains_key(#[trigger] key(c)) <==> marks.contains_key(c)
    &&& forall|c: Cell| marks.contains_key(c) ==> costs[#[trigger] key(c)] == marks[c].cost
}

/// The table of the cells reached holds for each the cell before it, as
/// `marks` says.
spec fn reached_agree(marks: Marks, reached: Map<u128, Option<Cell>>) -> bool {
    forall|c: Cell|
        marks.contains_key(c) ==> reached.contains_key(#[trigger] key(c)) && reached[key(c)]
            == marks[c].from
}

proof fn lemma_costs_lookup(marks: Marks, costs: Map<u128, u64>, c: Cell)
    requires
        costs_agree(marks, costs),
    ensures
        costs.contains_key(key(c)) <==> marks.contains_key(c),
        marks.contains_key(c) ==> costs[key(c)] == marks[c].cost,
{
    reveal(costs_agree);
}

proof fn lemma_tables_insert(
    marks: Marks,
    costs: Map<u128, u64>,
    reached: Map<u128, Option<Cell>>,
    x: Cell,
    mark: Mark,
)
    requires
        costs_agree(marks, costs),
        reached_agree(marks, reached),
    ensures
        costs_agree(marks.insert(x, mark), costs.insert(key(x), mark.cost)),
        reached_agree(marks.insert(x, mark), reached.insert(key(x), mark.from)),
{
    reveal(costs_agree);
    let marks2 = marks.insert(x, mark);
    let costs2 = costs.insert(key(x), mark.cost);
    let reached2 = reached.insert(key(x), mark.from);
    assert forall|c: Cell| costs2.contains_key(#[trigger] key(c)) <==> marks2.contains_key(c) by {
        lemma_key_injective(c, x);
    }
    assert forall|c: Cell| marks2.contains_key(c) implies costs2[#[trigger] key(c)]
        == marks2[c].cost by {
        lemma_key_injective(c, x);
    }
    assert forall|c: Cell| marks2.contains_key(c) implies reached2.contains_key(
        #[trigger] key(c),
    ) && reached2[key(c)] == marks2[c].from by {
        lemma_key_injective(c, x);
    }
}

/// The whole number that the cost `c` stands for.
spec fn units(c: Cost) -> nat {
    choose|n: nat| n <= COST_LIMIT && whole_cost(n) == c
}

spec fn is_whole(c: Cost) -> bool {
    exists|n: nat| n <= COST_LIMIT && whole_cost(n) == c
}

proof fn lemma_units(n: nat)
    requires
        n <= COST_LIMIT,
    ensures
        is_whole(whole_cost(n)),
        units(whole_cost(n)) == n,
        is_finite(whole_bits_of(n)),
{
    let m = units(whole_cost(n));
    if m < n {
        lemma_whole_cost_increases(m, n);
    } else if n < m {
        lemma_whole_cost_increases(n, m);
    }
    if n == 0 {
        lemma_whole_cost_zero();
    } else if n == COST_LIMIT {
        lemma_whole_cost_limit();
    } else {
        lemma_whole_cost(n);
    }
}

proof fn lemma_units_ordered(a: Cost, b: Cost)
    requires
        is_whole(a),
        is_whole(b),
        a.le(b),
    ensures
        units(a) <= units(b),
{
    if units(b) < units(a) {
        lemma_whole_cost_increases(units(b), units(a));
        lemma_cost_order_strict_total(a, b, a);
    }
}

/// `u` was marked at a lower cost than `v`, or at the same cost and
/// earlier.
spec fn ahead(marks: Marks, u: Cell, v: Cell) -> bool {
    marks[u].cost < marks[v].cost || (marks[u].cost == marks[v].cost && marks[u].stamp
        < marks[v].stamp)
}

/// The step that led to `v` is a step of the map, and the cost of `v` is
/// at least the cost of the cell before it plus the step, as the search
/// counts it.
spec fn link_ok<N, G: Graph<Cell, N>>(map: &G, marks: Marks, v: Cell) -> bool {
    match marks[v].from {
        Some(u) => marks.contains_key(u) && map.linked(u, v) && counted(
            marks[u].cost + map.step_cost(u, v),
        ) <= marks[v].cost && ahead(marks, u, v),
        None => false,
    }
}

spec fn tree_ok<N, G: Graph<Cell, N>>(map: &G, start: Cell, marks: Marks) -> bool {
    &&& marks.contains_key(start)
    &&& marks[start].cost == 0
    &&& marks[start].from == None::<Cell>
    &&& forall|v: Cell| #[trigger] marks.contains_key(v) ==> marks[v].cost <= COST_LIMIT
    &&& forall|v: Cell| #[trigger]
        marks.contains_key(v) && v != start ==> link_ok(map, marks, v)
}

spec fn entry_ok(marks: Marks, e: Entry) -> bool {
    marks.contains_key(e.item) && is_whole(e.cost) && marks[e.item].cost <= units(e.cost)
}

spec fn frontier_ok(marks: Marks, frontier: Seq<Entry>) -> bool {
    forall|e: Entry| #[trigger] frontier.contains(e) ==> entry_ok(marks, e)
}

/// The frontier holds `v` at the cost that is written down for it.
spec fn live(marks: Marks, frontier: Seq<Entry>, v: Cell) -> bool {
    frontier.contains((MinPriorityItem { item: v, cost: whole_cost(marks[v].cost as nat) }))
}

/// The step from `v` to `x` cannot lower the cost of `x`.
spec fn relaxed<N, G: Graph<Cell, N>>(map: &G, marks: Marks, v: Cell, x: Cell) -> bool {
    marks.contains_key(x) && marks[x].cost <= counted(marks[v].cost + map.step_cost(v, x))
}

spec fn settled<N, G: Graph<Cell, N>>(map: &G, marks: Marks, v: Cell) -> bool {
    forall|x: Cell| #[trigger] map.linked(v, x) ==> relaxed(map, marks, v, x)
}

spec fn closed_ok<N, G: Graph<Cell, N>>(
    map: &G,
    marks: Marks,
    frontier: Seq<Entry>,
    skip: Option<Cell>,
) -> bool {
    forall|v: Cell| #[trigger]
        marks.contains_key(v) && Some(v) != skip ==> live(marks, frontier, v) || settled(
            map,
            marks,
            v,
        )
}

/// What holds of the search between two steps. While the steps from the
/// cell `skip` are being tried, that cell alone may be neither in the
/// frontier nor done with.
#[verifier::opaque]
spec fn search_ok<N, G: Graph<Cell, N>>(
    map: &G,
    start: Cell,
    goal: Cell,
    marks: Marks,
    frontier: Seq<Entry>,
    skip: Option<Cell>,
) -> bool {
    &&& tree_ok(map, start, marks)
    &&& frontier_ok(marks, frontier)
    &&& closed_ok(map, marks, frontier, skip)
    &&& marks.contains_key(goal) ==> live(marks, frontier, goal)
}

/// Every route from the start ends in a cell that is marked at no more than
/// the route costs, unless the route costs at least `bound`, below which no
/// entry of the frontier lies.
proof fn lemma_routes_bounded<N, G: Graph<Cell, N>>(
    map: &G,
    start: Cell,
    goal: Cell,
    marks: Marks,
    frontier: Seq<Entry>,
    bound: nat,
    x: Cell,
    route: Seq<Cell>,
)
    requires
        search_ok(map, start, goal, marks, frontier, None),
        forall|e: Entry| #[trigger]
            frontier.contains(e) ==> bound <= units(e.cost),
        is_route(map, start, x, route),
    ensures
        (marks.contains_key(x) && marks[x].cost <= route_cost(map, start, route)) || bound
            <= route_cost(map, start, route),
    decreases route.len(),
{
    reveal(search_ok);
    if route.len() > 0 {
        let u = source(start, route, 0);
        let rest = route.drop_first();
        assert(is_route(map, start, u, rest)) by {
            if rest.len() > 0 {
                assert forall|i: int| 0 <= i < rest.len() implies map.linked(
                    source(start, rest, i),
                    #[trigger] rest[i],
                ) by {
                    assert(rest[i] == route[i + 1]);
                    assert(source(start, rest, i) == source(start, route, i + 1));
                }
            }
        }
        lemma_routes_bounded(map, start, goal, marks, frontier, bound, u, rest);
        assert(map.linked(u, route[0]));
        if marks.contains_key(u) && marks[u].cost <= route_cost(map, start, rest) {
            if live(marks, frontier, u) {
                lemma_units(marks[u].cost as nat);
            } else {
                assert(settled(map, marks, u));
                assert(relaxed(map, marks, u, x));
            }
        }
    }
}

/// The chain of marks from `goal` back to the start is a route that lists
/// no cell twice and is counted at no more than is written down for `goal`.
proof fn lemma_chain_is_route<N, G: Graph<Cell, N>>(
    map: &G,
    start: Cell,
    marks: Marks,
    goal: Cell,
    path: Seq<Cell>,
)
    requires
        tree_ok(map, start, marks),
        marks.contains_key(goal),
        path.len() == 0 ==> goal == start,
        path.len() > 0 ==> path[0] == goal,
        forall|i: int|
            0 <= i < path.len() ==> marks.contains_key(#[trigger] path[i]) && path[i] != start
                && marks[path[i]].from == Some(source(start, path, i)),
    ensures
        is_route(map, start, goal, path),
        counted(route_cost(map, start, path) as int) <= marks[goal].cost,
        forall|i: int| 0 < i < path.len() ==> ahead(marks, #[trigger] path[i], goal),
        path.no_duplicates(),
    decreases path.len(),
{
    if path.len() > 0 {
        let u = source(start, path, 0);
        let rest = path.drop_first();
        assert(link_ok(map, marks, path[0]));
        assert forall|i: int| 0 <= i < rest.len() implies marks.contains_key(#[trigger] rest[i])
            && rest[i] != start && marks[rest[i]].from == Some(source(start, rest, i)) by {
            assert(rest[i] == path[i + 1]);
            assert(source(start, rest, i) == source(start, path, i + 1));
        }
        lemma_chain_is_route(map, start, marks, u, rest);
        assert forall|i: int| 0 <= i < path.len() implies map.linked(
            source(start, path, i),
            #[trigger] path[i],
        ) by {
            assert(link_ok(map, marks, path[i]));
        }
        assert forall|i: int| 0 < i < path.len() implies ahead(marks, #[trigger] path[i], goal) by {
            assert(path[i] == rest[i - 1]);
            if i > 1 {
                assert(ahead(marks, rest[i - 1], u));
            }
        }
        assert forall|i: int, j: int| 0 <= i < j < path.len() implies path[i] != path[j] by {
            if i == 0 {
                assert(ahead(marks, path[j], goal));
            } else {
                assert(rest[i - 1] == path[i] && rest[j - 1] == path[j]);
            }
        }
    }
}

/// Follows the marks from `end` back to `start` and lists the cells passed,
/// `end` first and `start` left out.
fn trace<N, G: Graph<Cell, N>>(
    start: Cell,
    end: Cell,
    map: &G,
    reached: &HashMap<u128, Option<Cell>>,
    Ghost(marks): Ghost<Marks>,
) -> (path: Vec<Cell>)
    requires
        tree_ok(map, start, marks),
        marks.contains_key(end),
        reached_agree(marks, reached@),
    ensures
        is_route(map, start, end, path@),
        counted(route_cost(map, start, path@) as int) <= marks[end].cost,
        forall|i: int| 0 <= i < path@.len() ==> path@[i] != start,
        path@.no_duplicates(),
{
    broadcast use vstd::std_specs::hash::group_hash_axioms;

    let mut current_tile = end;
    let mut path: Vec<Cell> = Vec::new();
    while !same_cell(&current_tile, &start)
        invariant
            tree_ok(map, start, marks),
            marks.contains_key(current_tile),
            reached_agree(marks, reached@),
            path@.len() == 0 ==> current_tile == end,
            path@.len() > 0 ==> path@[0] == end && marks[path@.last()].from == Some(current_tile),
            forall|i: int|
                0 <= i < path@.len() ==> marks.contains_key(#[trigger] path@[i]) && path@[i]
                    != start,
            forall|i: int|
                0 <= i < path@.len() - 1 ==> marks[#[trigger] path@[i]].from == Some(path@[i + 1]),
        decreases marks[current_tile].cost, marks[current_tile].stamp,
    {
        path.push(current_tile);
        assert(link_ok(map, marks, current_tile));
        let k = cell_key(&current_tile);
        assert(reached@.contains_key(key(current_tile)));
        match reached.get(&k) {
            Some(Some(previous)) => {
                current_tile = *previous;
            },
            _ => {
                return vstd::pervasive::unreached();
            },
        }
    }
    proof {
        lemma_chain_is_route(map, start, marks, end, path@);
    }
    path
}

/// What a push adds to the entries that a queue holds.
proof fn lemma_pushed_contains<T>(before: Seq<T>, after: Seq<T>, entry: T)
    requires
        after.to_multiset() == before.to_multiset().insert(entry),
    ensures
        forall|e: T| #[trigger] after.contains(e) <==> before.contains(e) || e == entry,
{
    broadcast use vstd::seq_lib::group_to_multiset_ensures;

    assert forall|e: T| #[trigger] after.contains(e) <==> before.contains(e) || e == entry by {
        assert(after.contains(e) <==> after.to_multiset().count(e) > 0);
        assert(before.contains(e) <==> before.to_multiset().count(e) > 0);
    }
}

/// What a pop leaves of the entries that a queue holds.
proof fn lemma_popped_contains<T>(before: Seq<T>, after: Seq<T>)
    requires
        before.len() > 0,
        after.to_multiset() == before.to_multiset().remove(before[0]),
    ensures
        forall|e: T| #[trigger] after.contains(e) ==> before.contains(e),
        forall|e: T| #[trigger] before.contains(e) && e != before[0] ==> after.contains(e),
{
    broadcast use vstd::seq_lib::group_to_multiset_ensures;

    assert(before.contains(before[0]));
    assert(before.to_multiset().count(before[0]) > 0);
    assert forall|e: T| #[trigger] after.contains(e) implies before.contains(e) by {
        assert(after.to_multiset().count(e) > 0);
        assert(before.to_multiset().count(e) > 0);
    }
    assert forall|e: T| #[trigger] before.contains(e) && e != before[0] implies after.contains(
        e,
    ) by {
        assert(before.to_multiset().count(e) > 0);
        assert(after.to_multiset().count(e) > 0);
    }
}

/// The search starts in order: the start is marked at no cost and is the
/// one entry of the frontier.
proof fn lemma_search_begins<N, G: Graph<Cell, N>>(
    map: &G,
    start: Cell,
    goal: Cell,
    frontier: Seq<Entry>,
    costs: Map<u128, u64>,
    reached: Map<u128, Option<Cell>>,
)
    requires
        frontier.to_multiset() == Seq::<Entry>::empty().to_multiset().insert(
            (MinPriorityItem { item: start, cost: whole_cost(0) }),
        ),
        costs == Map::<u128, u64>::empty().insert(key(start), 0u64),
        reached == Map::<u128, Option<Cell>>::empty().insert(key(start), None),
    ensures
        search_ok(map, start, goal, first_marks(start), frontier, None),
        costs_agree(first_marks(start), costs),
        reached_agree(first_marks(start), reached),
        pushed_ok(set![(start, 0u64)], first_marks(start)),
        stamps_ok(first_marks(start), 1),
{
    reveal(search_ok);
    reveal(costs_agree);
    reveal(pushed_ok);
    reveal(stamps_ok);
    let marks = first_marks(start);
    let entry = MinPriorityItem { item: start, cost: whole_cost(0) };
    lemma_units(0);
    lemma_pushed_contains(Seq::<Entry>::empty(), frontier, entry);
    assert(frontier.contains(entry));
    assert forall|c: Cell| costs.contains_key(#[trigger] key(c)) <==> marks.contains_key(c) by {
        lemma_key_injective(c, start);
    }
    assert forall|e: Entry| #[trigger] frontier.contains(e) implies entry_ok(marks, e) by {
        assert(e == entry);
    }
}

/// The marks with which a search starts.
spec fn first_marks(start: Cell) -> Marks {
    Map::<Cell, Mark>::empty().insert(start, (Mark { cost: 0, from: None, stamp: 0 }))
}

/// Every mark was written before `clock`.
#[verifier::opaque]
spec fn stamps_ok(marks: Marks, clock: nat) -> bool {
    forall|v: Cell| #[trigger] marks.contains_key(v) ==> marks[v].stamp < clock
}

/// Once its first entry has been taken, the frontier lacks only the cell of
/// that entry.
proof fn lemma_after_pop<N, G: Graph<Cell, N>>(
    map: &G,
    start: Cell,
    goal: Cell,
    marks: Marks,
    before: Seq<Entry>,
    after: Seq<Entry>,
)
    requires
        search_ok(map, start, goal, marks, before, None),
        before.len() > 0,
        after.to_multiset() == before.to_multiset().remove(before[0]),
        before[0].item != goal,
    ensures
        search_ok(map, start, goal, marks, after, Some(before[0].item)),
        marks.contains_key(before[0].item),
{
    reveal(search_ok);
    lemma_popped_contains(before, after);
    assert(before.contains(before[0]));
    assert(entry_ok(marks, before[0]));
    assert forall|v: Cell| #[trigger]
        marks.contains_key(v) && Some(v) != Some(before[0].item) implies live(marks, after, v)
        || settled(map, marks, v) by {
        if live(marks, before, v) {
            let e = MinPriorityItem { item: v, cost: whole_cost(marks[v].cost as nat) };
            assert(e != before[0]);
        }
    }
    if marks.contains_key(goal) {
        let e = MinPriorityItem { item: goal, cost: whole_cost(marks[goal].cost as nat) };
        assert(e != before[0]);
    }
}

/// When the goal is the first entry of the frontier, it is marked at the
/// least cost at which any route reaches it.
proof fn lemma_goal_is_cheapest<N, G: Graph<Cell, N>>(
    map: &G,
    start: Cell,
    goal: Cell,
    marks: Marks,
    before: Seq<Entry>,
)
    requires
        search_ok(map, start, goal, marks, before, None),
        before.len() > 0,
        before[0].item == goal,
        forall|i: int| 0 <= i < before.len() ==> before[0].cost.le(#[trigger] before[i].cost),
    ensures
        tree_ok(map, start, marks),
        marks.contains_key(goal),
        marks[goal].cost <= COST_LIMIT,
        forall|other: Seq<Cell>|
            is_route(map, start, goal, other) ==> marks[goal].cost <= #[trigger] route_cost(
                map,
                start,
                other,
            ),
{
    reveal(search_ok);
    assert(before.contains(before[0]));
    assert(entry_ok(marks, before[0]));
    let least = units(before[0].cost);
    assert forall|e: Entry| #[trigger] before.contains(e) implies least
        <= units(e.cost) by {
        let i = choose|i: int| 0 <= i < before.len() && before[i] == e;
        assert(before[0].cost.le(before[i].cost));
        assert(entry_ok(marks, e));
        lemma_units_ordered(before[0].cost, e.cost);
    }
    assert forall|other: Seq<Cell>| is_route(map, start, goal, other) implies marks[goal].cost
        <= #[trigger] route_cost(map, start, other) by {
        lemma_routes_bounded(map, start, goal, marks, before, least, goal, other);
    }
}

/// When the frontier is empty and the goal was never taken from it, no
/// route leads to the goal.
proof fn lemma_exhausted<N, G: Graph<Cell, N>>(
    map: &G,
    start: Cell,
    goal: Cell,
    marks: Marks,
    frontier: Seq<Entry>,
)
    requires
        search_ok(map, start, goal, marks, frontier, None),
        frontier.len() == 0,
    ensures
        forall|other: Seq<Cell>| !#[trigger] is_route(map, start, goal, other),
{
    assert forall|other: Seq<Cell>| !#[trigger] is_route(map, start, goal, other) by {
        if is_route(map, start, goal, other) {
            let beyond = route_cost(map, start, other) + 1;
            lemma_routes_bounded(map, start, goal, marks, frontier, beyond, goal, other);
            reveal(search_ok);
            let e = MinPriorityItem { item: goal, cost: whole_cost(marks[goal].cost as nat) };
            assert(frontier.contains(e));
        }
    }
}

/// Once every step from `current` has been tried, `current` is done with.
proof fn lemma_settle<N, G: Graph<Cell, N>>(
    map: &G,
    start: Cell,
    goal: Cell,
    marks: Marks,
    frontier: Seq<Entry>,
    current: Cell,
)
    requires
        search_ok(map, start, goal, marks, frontier, Some(current)),
        forall|x: Cell| #[trigger] map.linked(current, x) ==> relaxed(map, marks, current, x),
    ensures
        search_ok(map, start, goal, marks, frontier, None),
{
    reveal(search_ok);
    assert(settled(map, marks, current));
}

/// Marking `x` at a lower cost, reached from `current`, and adding it to
/// the frontier at that cost keeps the search in order.
proof fn lemma_relax<N, G: Graph<Cell, N>>(
    map: &G,
    start: Cell,
    goal: Cell,
    marks: Marks,
    frontier: Seq<Entry>,
    after: Seq<Entry>,
    current: Cell,
    x: Cell,
    cost: u64,
    clock: nat,
)
    requires
        search_ok(map, start, goal, marks, frontier, Some(current)),
        stamps_ok(marks, clock),
        marks.contains_key(current),
        map.linked(current, x),
        cost == counted(marks[current].cost + map.step_cost(current, x)),
        !marks.contains_key(x) || cost < marks[x].cost,
        after.to_multiset() == frontier.to_multiset().insert(
            (MinPriorityItem { item: x, cost: whole_cost(cost as nat) }),
        ),
    ensures
        search_ok(
            map,
            start,
            goal,
            marks.insert(x, (Mark { cost, from: Some(current), stamp: clock })),
            after,
            Some(current),
        ),
        stamps_ok(marks.insert(x, (Mark { cost, from: Some(current), stamp: clock })), clock + 1),
        x != current,
        forall|y: Cell|
            relaxed(map, marks, current, y) ==> #[trigger] relaxed(
                map,
                marks.insert(x, (Mark { cost, from: Some(current), stamp: clock })),
                current,
                y,
            ),
        relaxed(
            map,
            marks.insert(x, (Mark { cost, from: Some(current), stamp: clock })),
            current,
            x,
        ),
{
    reveal(search_ok);
    reveal(stamps_ok);
    let entry = MinPriorityItem { item: x, cost: whole_cost(cost as nat) };
    let next = marks.insert(x, Mark { cost, from: Some(current), stamp: clock });
    lemma_pushed_contains(frontier, after, entry);
    lemma_units(cost as nat);
    assert(x != current);
    assert(x != start);
    assert forall|v: Cell| #[trigger] next.contains_key(v) && v != start implies link_ok(
        map,
        next,
        v,
    ) by {
        if v != x {
            assert(link_ok(map, marks, v));
        }
    }
    assert(tree_ok(map, start, next));
    assert forall|e: Entry| #[trigger] after.contains(e) implies entry_ok(next, e) by {
        if e != entry {
            assert(frontier.contains(e));
            assert(entry_ok(marks, e));
        }
    }
    assert forall|v: Cell| #[trigger]
        next.contains_key(v) && Some(v) != Some(current) implies live(next, after, v) || settled(
        map,
        next,
        v,
    ) by {
        if v == x {
            assert(after.contains(entry));
        } else if live(marks, frontier, v) {
            let e = MinPriorityItem { item: v, cost: whole_cost(marks[v].cost as nat) };
            assert(after.contains(e));
        } else {
            assert(settled(map, marks, v));
            assert forall|y: Cell| #[trigger] map.linked(v, y) implies relaxed(map, next, v, y) by {
                assert(relaxed(map, marks, v, y));
            }
        }
    }
    if next.contains_key(goal) {
        if goal == x {
            assert(after.contains(entry));
        } else {
            let e = MinPriorityItem { item: goal, cost: whole_cost(marks[goal].cost as nat) };
            assert(after.contains(e));
        }
    }
}

/// The greatest number of entries that a search can ever add to its
/// frontier: one for each cell and each cost up to `COST_LIMIT`.
spec fn push_limit() -> int {
    0x1_0000_0000_0000_0000 * 0x1_0000_0000_0000_0000 * (COST_LIMIT + 1)
}

spec fn push_code(p: (Cell, u64)) -> int {
    (p.0.0 * 0x1_0000_0000_0000_0000 + p.0.1) * (COST_LIMIT + 1) + p.1
}

/// The entries added so far: each at a cost that its cell has since kept
/// or improved on.
#[verifier::opaque]
spec fn pushed_ok(pushed: Pushes, marks: Marks) -> bool {
    &&& pushed.finite()
    &&& forall|p: (Cell, u64)| #[trigger]
        pushed.contains(p) ==> marks.contains_key(p.0) && marks[p.0].cost <= p.1 <= COST_LIMIT
}

/// No search adds more entries than there are pairs of a cell and a cost.
proof fn lemma_pushed_bound(pushed: Pushes, marks: Marks)
    requires
        pushed_ok(pushed, marks),
    ensures
        pushed.len() <= push_limit(),
{
    reveal(pushed_ok);
    let code = |p: (Cell, u64)| push_code(p);
    let image = pushed.map(code);
    assert(vstd::relations::injective_on(code, pushed)) by {
        assert forall|a: (Cell, u64), b: (Cell, u64)|
            pushed.contains(a) && pushed.contains(b) && #[trigger] code(a) == #[trigger] code(
                b,
            ) implies a == b by {
            assert(push_code(a) == push_code(b));
        }
    }
    vstd::set_lib::lemma_map_size(pushed, image, code);
    vstd::set_lib::lemma_int_range(0, push_limit());
    assert(image.subset_of(vstd::set_lib::set_int_range(0, push_limit()))) by {
        assert forall|n: int| image.contains(n) implies vstd::set_lib::set_int_range(
            0,
            push_limit(),
        ).contains(n) by {
            let p = choose|p: (Cell, u64)| pushed.contains(p) && n == code(p);
            assert(n == push_code(p));
        }
    }
    vstd::set_lib::lemma_len_subset(image, vstd::set_lib::set_int_range(0, push_limit()));
}

/// An entry at a lower cost than its cell had is one that was not added
/// before.
proof fn lemma_pushed_insert(pushed: Pushes, marks: Marks, x: Cell, mark: Mark)
    requires
        pushed_ok(pushed, marks),
        mark.cost <= COST_LIMIT,
        !marks.contains_key(x) || mark.cost < marks[x].cost,
    ensures
        pushed_ok(pushed.insert((x, mark.cost)), marks.insert(x, mark)),
        pushed.insert((x, mark.cost)).len() == pushed.len() + 1,
{
    reveal(pushed_ok);
    assert(!pushed.contains((x, mark.cost)));
}

/// Tries every step from `current_tile`, which has just left the frontier:
/// a neighbor that the step reaches for the first time, or at a lower cost
/// than before, is marked and joins the frontier.
fn expand<N, G: Graph<Cell, N>>(
    current_tile: Cell,
    map: &G,
    frontier: &mut MinPriorityQueue<Cell>,
    reached: &mut HashMap<u128, Option<Cell>>,
    costs: &mut HashMap<u128, u64>,
    Ghost(start): Ghost<Cell>,
    Ghost(goal): Ghost<Cell>,
    Ghost(marks_before): Ghost<Marks>,
    Ghost(pushed_before): Ghost<Pushes>,
    Ghost(clock_before): Ghost<nat>,
) -> (state: Ghost<(Marks, Pushes, nat)>)
    requires
        old(frontier).capacity() == 0,
        costs_agree(marks_before, old(costs)@),
        reached_agree(marks_before, old(reached)@),
        search_ok(map, start, goal, marks_before, old(frontier)@, Some(current_tile)),
        pushed_ok(pushed_before, marks_before),
        stamps_ok(marks_before, clock_before),
        marks_before.contains_key(current_tile),
    ensures
        final(frontier).capacity() == 0,
        costs_agree(state@.0, final(costs)@),
        reached_agree(state@.0, final(reached)@),
        search_ok(map, start, goal, state@.0, final(frontier)@, None),
        pushed_ok(state@.1, state@.0),
        stamps_ok(state@.0, state@.2),
        state@.1.len() - pushed_before.len() == final(frontier)@.len() - old(frontier)@.len(),
        state@.1.len() >= pushed_before.len(),
{
    broadcast use vstd::std_specs::hash::group_hash_axioms;

    let ghost mut marks = marks_before;
    let ghost mut pushed = pushed_before;
    let ghost mut clock = clock_before;
    let current_key = cell_key(&current_tile);
    proof {
        lemma_costs_lookup(marks, costs@, current_tile);
    }
    let base: u64 = match costs.get(&current_key) {
        Some(known) => *known,
        None => {
            return vstd::pervasive::unreached();
        },
    };
    proof {
        reveal(search_ok);
        assert(base <= COST_LIMIT);
    }
    let neighbors = map.neighbors(&current_tile);
    let mut i: usize = 0;
    while i < neighbors.len()
        invariant
            i <= neighbors@.len(),
            frontier.capacity() == 0,
            costs_agree(marks, costs@),
            reached_agree(marks, reached@),
            search_ok(map, start, goal, marks, frontier@, Some(current_tile)),
            pushed_ok(pushed, marks),
            stamps_ok(marks, clock),
            marks.contains_key(current_tile),
            marks[current_tile].cost == base,
            base <= COST_LIMIT,
            forall|to: Cell| neighbors@.contains(to) <==> map.linked(current_tile, to),
            forall|j: int|
                0 <= j < i ==> relaxed(map, marks, current_tile, #[trigger] neighbors@[j]),
            pushed.len() - pushed_before.len() == frontier@.len() - old(frontier)@.len(),
            pushed.len() >= pushed_before.len(),
        decreases neighbors@.len() - i,
    {
        let next_tile = neighbors[i];
        assert(neighbors@.contains(next_tile));
        let step = map.cost(&current_tile, &next_tile);
        let cost: u64 = if step < COST_LIMIT - base {
            base + step
        } else {
            COST_LIMIT
        };
        let next_key = cell_key(&next_tile);
        proof {
            lemma_costs_lookup(marks, costs@, next_tile);
        }
        let better = match costs.get(&next_key) {
            Some(known) => cost < *known,
            None => true,
        };
        if better {
            let ghost frontier_before = frontier@;
            let ghost earlier = marks;
            let ghost mark = Mark { cost, from: Some(current_tile), stamp: clock };
            proof {
                lemma_units(cost as nat);
                lemma_tables_insert(marks, costs@, reached@, next_tile, mark);
            }
            let _ = costs.insert(next_key, cost);
            let _ = frontier.push(next_tile, whole_bits(cost));
            let _ = reached.insert(next_key, Some(current_tile));
            proof {
                lemma_relax(
                    map,
                    start,
                    goal,
                    marks,
                    frontier_before,
                    frontier@,
                    current_tile,
                    next_tile,
                    cost,
                    clock,
                );
                lemma_pushed_insert(pushed, marks, next_tile, mark);
                marks = marks.insert(next_tile, mark);
                clock = clock + 1;
                pushed = pushed.insert((next_tile, cost));
                assert forall|j: int| 0 <= j < i + 1 implies relaxed(
                    map,
                    marks,
                    current_tile,
                    #[trigger] neighbors@[j],
                ) by {
                    if j < i {
                        assert(relaxed(map, earlier, current_tile, neighbors@[j]));
                    }
                }
            }
        }
        i = i + 1;
    }
    proof {
        assert forall|x: Cell| #[trigger] map.linked(current_tile, x) implies relaxed(
            map,
            marks,
            current_tile,
            x,
        ) by {
            assert(neighbors@.contains(x));
            let j = choose|j: int| 0 <= j < neighbors@.len() && neighbors@[j] == x;
            assert(relaxed(map, marks, current_tile, neighbors@[j]));
        }
        lemma_settle(map, start, goal, marks, frontier@, current_tile);
    }
    Ghost((marks, pushed, clock))
}

/// Finds a cheapest path from `start` to `end` by uniform-cost search.
///
/// The path lists the cells passed from `end` back to `start`, which is
/// left out, and lists none of them twice: from a cell to itself the path
/// is empty. A path is returned exactly if steps of the map lead from
/// `start` to `end`; otherwise the answer is `Error::NoPathFound`.
///
/// Costs are whole units and are counted exactly up to `COST_LIMIT`; what
/// costs more is counted as `COST_LIMIT`. No path is counted cheaper than
/// the one returned. So where some path costs less than `COST_LIMIT`, the
/// path returned costs least of all.
pub fn find_path<N, G: Graph<Cell, N>>(
    start: Cell,
    end: Cell,
    map: &G,
) -> (found: Result<Vec<Cell>, Error>)
    ensures
        match found {
            Ok(path) => {
                &&& is_route(map, start, end, path@)
                &&& forall|other: Seq<Cell>|
                    is_route(map, start, end, other) ==> counted(
                        route_cost(map, start, path@) as int,
                    ) <= counted(#[trigger] route_cost(map, start, other) as int)
                &&& forall|other: Seq<Cell>|
                    is_route(map, start, end, other) && #[trigger] route_cost(map, start, other)
                        < COST_LIMIT ==> route_cost(map, start, path@) <= route_cost(
                        map,
                        start,
                        other,
                    )
                &&& forall|i: int| 0 <= i < path@.len() ==> path@[i] != start
                &&& path@.no_duplicates()
            },
            Err(e) => {
                &&& e == Error::NoPathFound
                &&& forall|other: Seq<Cell>| !#[trigger] is_route(map, start, end, other)
            },
        },
        start == end ==> (found matches Ok(path) && path@.len() == 0),
{
    broadcast use vstd::std_specs::hash::group_hash_axioms;

    // A queue made with a `max_size` of 0 keeps every entry until it is
    // popped.
    let mut frontier: MinPriorityQueue<Cell> = MinPriorityQueue::new(0);
    let mut reached: HashMap<u128, Option<Cell>> = HashMap::new();
    let mut costs: HashMap<u128, u64> = HashMap::new();

    proof {
        lemma_units(0);
    }
    let _ = frontier.push(start, whole_bits(0));
    let _ = reached.insert(cell_key(&start), None);
    let _ = costs.insert(cell_key(&start), 0);

    let ghost mut marks: Marks = first_marks(start);
    let ghost mut pushed: Pushes = set![(start, 0u64)];
    let ghost mut clock: nat = 1;
    proof {
        lemma_search_begins(map, start, end, frontier@, costs@, reached@);
    }

    while frontier.len() > 0
        invariant
            frontier.capacity() == 0,
            costs_agree(marks, costs@),
            reached_agree(marks, reached@),
            search_ok(map, start, end, marks, frontier@, None),
            pushed_ok(pushed, marks),
            stamps_ok(marks, clock),
        decreases push_limit() - pushed.len(), frontier@.len(),
    {
        let ghost before = frontier@;
        proof {
            lemma_pushed_bound(pushed, marks);
        }
        let current_tile = match frontier.pop() {
            Some(tile) => tile,
            None => {
                return vstd::pervasive::unreached();
            },
        };
        if same_cell(&current_tile, &end) {
            proof {
                lemma_goal_is_cheapest(map, start, end, marks, before);
            }
            let path = trace(start, end, map, &reached, Ghost(marks));
            return Ok(path);
        }
        proof {
            lemma_after_pop(map, start, end, marks, before, frontier@);
        }
        let state = expand(
            current_tile,
            map,
            &mut frontier,
            &mut reached,
            &mut costs,
            Ghost(start),
            Ghost(end),
            Ghost(marks),
            Ghost(pushed),
            Ghost(clock),
        );
        proof {
            marks = state@.0;
            pushed = state@.1;
            clock = state@.2;
            lemma_pushed_bound(pushed, marks);
        }
    }
    proof {
        lemma_exhausted(map, start, end, marks, frontier@);
        if start == end {
            lemma_route_to_self(map, start);
        }
    }
    Err(Error::NoPathFound)
}

} // verus!
