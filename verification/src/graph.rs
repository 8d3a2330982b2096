//! Shortest routes over graphs that are walked on demand.
use vstd::prelude::*;

verus! {

/// A place in a grid, or a numbered node in its first coordinate.
pub type Cell = (i32, i32, i32);

/// A graph with a goal: where one can go from a node, at what cost, and how far
/// the goal is guessed to be.
pub trait Graph {
    /// The nodes next to `n`, each with the cost of going there.
    spec fn steps(&self, n: Cell) -> Seq<(Cell, i64)>;

    /// A guess of the cost from `n` to the goal.
    spec fn guess(&self, n: Cell) -> int;

    spec fn goal(&self) -> Cell;

    fn successors(&self, n: Cell) -> (r: Vec<(Cell, i64)>)
        ensures
            r@ == self.steps(n),
    ;

    fn heuristic(&self, n: Cell) -> (r: i64)
        ensures
            r == self.guess(n),
    ;

    fn is_goal(&self, n: Cell) -> (r: bool)
        ensures
            r == (n == self.goal()),
    ;
}

/// Whether one can go from `a` to `b` in one step.
pub open spec fn next<G: Graph>(g: G, a: Cell, b: Cell) -> bool {
    exists|k: int| 0 <= k < g.steps(a).len() && (#[trigger] g.steps(a)[k]).0 == b
}

/// Whether `p` leads from `start` to the goal, step by step.
pub open spec fn is_route<G: Graph>(g: G, start: Cell, p: Seq<Cell>) -> bool {
    &&& p.len() > 0
    &&& p[0] == start
    &&& p.last() == g.goal()
    &&& forall|i: int| 0 <= i < p.len() - 1 ==> #[trigger] next(g, p[i], p[i + 1])
}

/// The least cost of one step from `a` to `b`.
pub open spec fn hop<G: Graph>(g: G, a: Cell, b: Cell) -> i64 {
    choose|c: i64|
        #[trigger] g.steps(a).contains((b, c)) && forall|e: i64| #[trigger]
            g.steps(a).contains((b, e)) ==> c <= e
}

/// The cost of a route.
pub open spec fn route_cost<G: Graph>(g: G, p: Seq<Cell>) -> int
    decreases p.len(),
{
    if p.len() <= 1 {
        0
    } else {
        route_cost(g, p.drop_last()) + hop(g, p[p.len() - 2], p.last())
    }
}

/// Along `q` no guess exceeds what is left of `q` by more than `e`.
pub open spec fn over_by<G: Graph>(g: G, q: Seq<Cell>, e: int) -> bool {
    forall|i: int|
        0 <= i < q.len() ==> #[trigger] g.guess(q[i]) <= route_cost(g, q.skip(i)) + e
}

/// What is left of a route is a route.
pub proof fn lemma_rest<G: Graph>(g: G, start: Cell, q: Seq<Cell>, i: int)
    requires
        is_route(g, start, q),
        0 <= i < q.len(),
    ensures
        is_route(g, q[i], q.skip(i)),
{
    let rest = q.skip(i);
    assert forall|k: int| 0 <= k < rest.len() - 1 implies #[trigger] next(
        g,
        rest[k],
        rest[k + 1],
    ) by {
        assert(next(g, q[i + k], q[i + k + 1]));
    }
}

/// The cost of a route is that of its first step and of what is left.
pub proof fn lemma_first_step<G: Graph>(g: G, p: Seq<Cell>)
    requires
        p.len() > 1,
    ensures
        route_cost(g, p) == hop(g, p[0], p[1]) + route_cost(g, p.drop_first()),
    decreases p.len(),
{
    let rest = p.drop_first();
    if p.len() == 2 {
        assert(route_cost(g, p.drop_last()) == 0);
        assert(route_cost(g, rest) == 0);
    } else {
        lemma_first_step(g, p.drop_last());
        assert(p.drop_last().drop_first() =~= rest.drop_last());
    }
}

/// The search stays within `cells` and within the numbers: every step leads to one
/// of them, costs at most `c`, and no guess exceeds `h`.
pub open spec fn within<G: Graph>(g: G, start: Cell, cells: Seq<Cell>, c: int, h: int) -> bool {
    &&& cells.contains(start)
    &&& forall|n: Cell, k: int|
        cells.contains(n) && 0 <= k < g.steps(n).len() ==> cells.contains(
            (#[trigger] g.steps(n)[k]).0,
        ) && 0 <= g.steps(n)[k].1 <= c
    &&& forall|n: Cell| cells.contains(n) ==> 0 <= #[trigger] g.guess(n) <= h
    &&& cells.len() * c + h <= i64::MAX
}

/// `pathfinding::prelude::astar` over the graph's own functions. The path it finds
/// begins at `start`, ends at the goal, goes step by step and visits no node twice;
/// it finds none exactly where there is none. It opens nodes in the order of their
/// cost so far plus their guess, and opens a node again once it is reached for less:
/// so the route found costs no more than any other by more than the guesses along
/// that other one exceed its cost.
#[verifier::external_body]
pub(crate) fn astar<G: Graph>(g: &G, start: Cell) -> (r: Option<Vec<Cell>>)
    requires
        exists|cells: Seq<Cell>, c: int, h: int| #[trigger] within(*g, start, cells, c, h),
    ensures
        match r {
            Some(p) => is_route(*g, start, p@) && p@.no_duplicates() && forall|q: Seq<Cell>, e: int|
                e >= 0 && #[trigger] is_route(*g, start, q) && #[trigger] over_by(*g, q, e)
                    ==> route_cost(*g, p@) <= route_cost(*g, q) + e,
            None => forall|q: Seq<Cell>| !#[trigger] is_route(*g, start, q),
        },
{
    pathfinding::prelude::astar(
        &start,
        |n: &Cell| g.successors(*n),
        |n: &Cell| g.heuristic(*n),
        |n: &Cell| g.is_goal(*n),
    ).map(|found| found.0)
}

} // verus!
