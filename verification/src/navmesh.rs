//! Routes over a mesh of triangles: which triangles touch, the corridor between two
//! of them, and the pulling of a string through it.
use crate::graph;
use crate::graph::{astar, Cell, Graph};
use vstd::prelude::*;

verus! {

/// A neighbour: the triangle behind an edge, and the edge's two vertices.
#[derive(Clone, Copy, PartialEq, Eq, Structural, Debug)]
pub struct Link {
    pub to: usize,
    pub a: i64,
    pub b: i64,
}

pub struct NavMesh {
    pub tris: Vec<[i64; 3]>,
    pub neighbors: Vec<Vec<Link>>,
}

/// Whether a triangle has a vertex.
pub open spec fn has_vertex(t: Seq<i64>, v: i64) -> bool {
    t[0] == v || t[1] == v || t[2] == v
}

/// The first `n` vertices of `a` that `b` has too.
pub open spec fn shared(a: Seq<i64>, b: Seq<i64>, n: int) -> Seq<i64>
    decreases n,
{
    if n <= 0 {
        Seq::empty()
    } else if has_vertex(b, a[n - 1]) {
        shared(a, b, n - 1).push(a[n - 1])
    } else {
        shared(a, b, n - 1)
    }
}

/// The edge two triangles share, where they share exactly two vertices. It is read
/// off the earlier one.
pub open spec fn edge(tris: Seq<[i64; 3]>, t: int, u: int) -> Option<(i64, i64)> {
    let lo = if t < u {
        t
    } else {
        u
    };
    let hi = if t < u {
        u
    } else {
        t
    };
    let s = shared(tris[lo]@, tris[hi]@, 3);
    if t != u && s.len() == 2 {
        Some((s[0], s[1]))
    } else {
        None
    }
}

/// The neighbours of `t` among the first `n` triangles, in order.
pub open spec fn links(tris: Seq<[i64; 3]>, t: int, n: int) -> Seq<Link>
    decreases n,
{
    if n <= 0 {
        Seq::empty()
    } else {
        match edge(tris, t, n - 1) {
            Some(e) => links(tris, t, n - 1).push(Link { to: (n - 1) as usize, a: e.0, b: e.1 }),
            None => links(tris, t, n - 1),
        }
    }
}

fn has(t: &[i64; 3], v: i64) -> (r: bool)
    ensures
        r == has_vertex(t@, v),
{
    t[0] == v || t[1] == v || t[2] == v
}

fn shared_of(a: &[i64; 3], b: &[i64; 3]) -> (r: Vec<i64>)
    ensures
        r@ == shared(a@, b@, 3),
{
    let mut r: Vec<i64> = Vec::new();
    let mut i: usize = 0;
    while i < 3
        invariant
            i <= 3,
            r@ == shared(a@, b@, i as int),
        decreases 3 - i,
    {
        let v: i64 = a[i];
        if has(b, v) {
            r.push(v);
        }
        i += 1;
    }
    r
}

/// A vertex number as the mesh reads it: a negative one counts as the first.
pub open spec fn vertex(i: i64) -> int {
    if i > 0 {
        i as int
    } else {
        0
    }
}

impl NavMesh {
    pub open spec fn wf(self) -> bool {
        &&& self.neighbors@.len() == self.tris@.len() <= usize::MAX
        &&& forall|t: int|
            0 <= t < self.tris@.len() ==> (#[trigger] self.neighbors@[t])@ == links(
                self.tris@,
                t,
                self.tris@.len() as int,
            )
    }

    /// Build a mesh of the triangles that `indices` lists, three numbers each; what
    /// is left over is dropped. Without a vertex or a whole triangle there is none.
    pub fn navmesh_build(vcount: i64, indices: &[i64]) -> (r: Option<NavMesh>)
        requires
            forall|i: int|
                0 <= i < indices@.len() / 3 * 3 ==> vertex(#[trigger] indices@[i]) < vcount,
        ensures
            match r {
                None => vcount <= 0 || indices@.len() < 3,
                Some(m) => {
                    &&& vcount > 0 && indices@.len() >= 3
                    &&& m.wf()
                    &&& m.tris@.len() == indices@.len() / 3
                    &&& forall|t: int|
                        0 <= t < m.tris@.len() ==> (#[trigger] m.tris@[t])@ == indices@.subrange(
                            3 * t,
                            3 * t + 3,
                        )
                },
            },
    {
        if vcount <= 0 || indices.len() < 3 {
            return None;
        }
        let len: usize = indices.len();
        let n: usize = len / 3;
        let mut tris: Vec<[i64; 3]> = Vec::new();
        let mut t: usize = 0;
        while t < n
            invariant
                t <= n,
                n == indices@.len() / 3,
                indices@.len() <= usize::MAX,
                tris@.len() == t,
                forall|k: int|
                    0 <= k < t ==> (#[trigger] tris@[k])@ == indices@.subrange(3 * k, 3 * k + 3),
            decreases n - t,
        {
            let tri: [i64; 3] = [indices[3 * t], indices[3 * t + 1], indices[3 * t + 2]];
            assert(tri@ =~= indices@.subrange(3 * t, 3 * t + 3));
            tris.push(tri);
            t += 1;
        }
        let mut neighbors: Vec<Vec<Link>> = Vec::new();
        let mut a: usize = 0;
        while a < n
            invariant
                a <= n,
                n == tris@.len(),
                neighbors@.len() == a,
                forall|k: int|
                    0 <= k < a ==> (#[trigger] neighbors@[k])@ == links(tris@, k, n as int),
            decreases n - a,
        {
            let mut v: Vec<Link> = Vec::new();
            let mut b: usize = 0;
            while b < n
                invariant
                    a < n,
                    b <= n,
                    n == tris@.len(),
                    v@ == links(tris@, a as int, b as int),
                decreases n - b,
            {
                if b != a {
                    let s = if a < b {
                        shared_of(&tris[a], &tris[b])
                    } else {
                        shared_of(&tris[b], &tris[a])
                    };
                    if s.len() == 2 {
                        v.push(Link { to: b, a: s[0], b: s[1] });
                    }
                }
                b += 1;
            }
            neighbors.push(v);
            a += 1;
        }
        Some(NavMesh { tris, neighbors })
    }

    /// Find the corridor of triangles from one to another. `costs` gives for each
    /// triangle what going to each of its neighbours costs, `far` how far each
    /// triangle is guessed to be from the goal. No corridor costs less by more than the
    /// guesses along it are over its cost.
    pub fn corridor(
        &self,
        from: usize,
        to: usize,
        costs: &Vec<Vec<i64>>,
        far: &Vec<i64>,
    ) -> (r: Option<Vec<usize>>)
        requires
            self.wf(),
            self.tris@.len() <= i32::MAX,
            from < self.tris@.len(),
            to < self.tris@.len(),
            far@.len() == self.tris@.len(),
            costs@.len() == self.tris@.len(),
            forall|t: int|
                0 <= t < costs@.len() ==> (#[trigger] costs@[t])@.len()
                    == self.neighbors@[t]@.len(),
            exists|c: int, h: int| #[trigger] priced(costs@, far@, c, h),
        ensures
            match r {
                Some(c) => {
                    let s = MeshSearch { mesh: self, costs, far, to };
                    &&& self.leads(from, to, c@)
                    &&& c@.no_duplicates()
                    &&& forall|d: Seq<usize>, e: int|
                        e >= 0 && #[trigger] self.leads(from, to, d) && #[trigger] graph::over_by(
                            s,
                            as_cells(d),
                            e,
                        ) ==> s.cost(c@) <= s.cost(d) + e
                },
                None => forall|c: Seq<usize>| !#[trigger] self.leads(from, to, c),
            },
    {
        let s = MeshSearch { mesh: self, costs, far, to };
        proof {
            lemma_mesh_within(s, from as int);
        }
        match astar(&s, (from as i32, 0, 0)) {
            None => {
                proof {
                    assert forall|c: Seq<usize>| !#[trigger] self.leads(from, to, c) by {
                        if self.leads(from, to, c) {
                            let q = as_cells(c);
                            lemma_leads(s, from, c);
                            assert(graph::is_route(s, (from as i32, 0i32, 0i32), q));
                        }
                    }
                }
                None
            },
            Some(p) => {
                let mut c: Vec<usize> = Vec::new();
                let mut i: usize = 0;
                proof {
                    lemma_in_mesh(s, (from as i32, 0i32, 0i32), p@);
                }
                while i < p.len()
                    invariant
                        i <= p@.len(),
                        c@.len() == i,
                        forall|k: int|
                            0 <= k < p@.len() ==> 0 <= (#[trigger] p@[k]).0 && p@[k].1 == 0
                                && p@[k].2 == 0,
                        forall|k: int| 0 <= k < i ==> #[trigger] c@[k] == p@[k].0,
                    decreases p@.len() - i,
                {
                    c.push(p[i].0 as usize);
                    i += 1;
                }
                proof {
                    lemma_route_leads(s, from, p@, c@);
                    assert(as_cells(c@) =~= p@);
                    assert forall|d: Seq<usize>, e: int|
                        e >= 0 && #[trigger] self.leads(from, to, d) && #[trigger] graph::over_by(
                            s,
                            as_cells(d),
                            e,
                        ) implies s.cost(c@) <= s.cost(d) + e by {
                        lemma_leads(s, from, d);
                    }
                }
                Some(c)
            },
        }
    }

    /// Whether `c` goes from one triangle to another over neighbours.
    pub open spec fn leads(self, from: usize, to: usize, c: Seq<usize>) -> bool {
        &&& c.len() > 0
        &&& c[0] == from
        &&& c.last() == to
        &&& forall|i: int| 0 <= i < c.len() ==> #[trigger] c[i] < self.tris@.len()
        &&& forall|i: int| 0 <= i < c.len() - 1 ==> edge(self.tris@, #[trigger] c[i] as int, c[i + 1] as int) is Some
    }

    /// The edges a corridor crosses, in order.
    pub fn crossings(&self, c: &Vec<usize>) -> (r: Vec<(i64, i64)>)
        requires
            self.wf(),
            forall|i: int| 0 <= i < c@.len() ==> #[trigger] c@[i] < self.tris@.len(),
            forall|i: int|
                0 <= i < c@.len() - 1 ==> edge(self.tris@, #[trigger] c@[i] as int, c@[i + 1] as int) is Some,
        ensures
            r@.len() == (if c@.len() == 0 {
                0
            } else {
                c@.len() - 1
            }),
            forall|i: int|
                0 <= i < r@.len() ==> Some(#[trigger] r@[i]) == edge(
                    self.tris@,
                    c@[i] as int,
                    c@[i + 1] as int,
                ),
    {
        let mut r: Vec<(i64, i64)> = Vec::new();
        if c.len() == 0 {
            return r;
        }
        let mut i: usize = 0;
        while i < c.len() - 1
            invariant
                self.wf(),
                i <= c@.len() - 1,
                c@.len() > 0,
                forall|k: int| 0 <= k < c@.len() ==> #[trigger] c@[k] < self.tris@.len(),
                forall|k: int|
                    0 <= k < c@.len() - 1 ==> edge(self.tris@, #[trigger] c@[k] as int, c@[k + 1] as int) is Some,
                r@.len() == i,
                forall|k: int|
                    0 <= k < i ==> Some(#[trigger] r@[k]) == edge(
                        self.tris@,
                        c@[k] as int,
                        c@[k + 1] as int,
                    ),
            decreases c@.len() - i,
        {
            let (a, b): (usize, usize) = (c[i], c[i + 1]);
            assert(edge(self.tris@, c@[i as int] as int, c@[i + 1] as int) is Some);
            let list = &self.neighbors[a];
            proof {
                lemma_links(self.tris@, a as int, self.tris@.len() as int);
                lemma_linked(self.tris@, a as int, b as int, self.tris@.len() as int);
            }
            let ghost w = choose|k: int| 0 <= k < list@.len() && (#[trigger] list@[k]).to == b;
            let mut j: usize = 0;
            while j < list.len() && list[j].to != b
                invariant
                    j <= list@.len(),
                    0 <= w < list@.len(),
                    list@[w].to == b,
                    forall|k: int| 0 <= k < j ==> (#[trigger] list@[k]).to != b,
                decreases list@.len() - j,
            {
                j += 1;
            }
            let l = list[j];
            r.push((l.a, l.b));
            i += 1;
        }
        r
    }
}

/// The neighbours of a triangle are those it shares an edge with, each with the
/// edge.
proof fn lemma_links(tris: Seq<[i64; 3]>, t: int, n: int)
    requires
        0 <= n <= tris.len(),
        n <= usize::MAX,
    ensures
        forall|k: int|
            0 <= k < links(tris, t, n).len() ==> (#[trigger] links(tris, t, n)[k]).to < n && edge(
                tris,
                t,
                links(tris, t, n)[k].to as int,
            ) == Some((links(tris, t, n)[k].a, links(tris, t, n)[k].b)),
        links(tris, t, n).len() <= n,
    decreases n,
{
    if n > 0 {
        lemma_links(tris, t, n - 1);
    }
}

proof fn lemma_linked(tris: Seq<[i64; 3]>, t: int, u: int, n: int)
    requires
        0 <= u < n <= tris.len(),
        n <= usize::MAX,
        edge(tris, t, u) is Some,
    ensures
        exists|k: int| 0 <= k < links(tris, t, n).len() && (#[trigger] links(tris, t, n)[k]).to == u,
    decreases n,
{
    if u == n - 1 {
        let k = links(tris, t, n).len() - 1;
        assert(links(tris, t, n)[k].to == u);
    } else {
        lemma_linked(tris, t, u, n - 1);
        let k = choose|k: int|
            0 <= k < links(tris, t, n - 1).len() && (#[trigger] links(tris, t, n - 1)[k]).to == u;
        assert(links(tris, t, n)[k] == links(tris, t, n - 1)[k]);
    }
}

/// Two triangles that touch name each other as neighbours, over the same edge.
pub proof fn law_neighbours_are_mutual(tris: Seq<[i64; 3]>, t: int, u: int)
    ensures
        edge(tris, t, u) == edge(tris, u, t),
{
}

/// No cost is negative or above `c`, no guess negative or above `h`, and a corridor
/// through every triangle still costs what an integer holds.
pub open spec fn priced(costs: Seq<Vec<i64>>, far: Seq<i64>, c: int, h: int) -> bool {
    &&& 0 <= c && 0 <= h
    &&& forall|t: int, k: int|
        0 <= t < costs.len() && 0 <= k < costs[t]@.len() ==> 0 <= #[trigger] costs[t]@[k] <= c
    &&& forall|t: int| 0 <= t < far.len() ==> 0 <= #[trigger] far[t] <= h
    &&& costs.len() * c + h <= i64::MAX
}

/// A search of a mesh.
pub struct MeshSearch<'a> {
    pub mesh: &'a NavMesh,
    pub costs: &'a Vec<Vec<i64>>,
    pub far: &'a Vec<i64>,
    pub to: usize,
}

impl<'a> MeshSearch<'a> {
    pub open spec fn wf(self) -> bool {
        &&& self.mesh.wf()
        &&& self.mesh.tris@.len() <= i32::MAX
        &&& self.to < self.mesh.tris@.len()
        &&& self.far@.len() == self.mesh.tris@.len()
        &&& self.costs@.len() == self.mesh.tris@.len()
        &&& forall|t: int|
            0 <= t < self.costs@.len() ==> (#[trigger] self.costs@[t])@.len()
                == self.mesh.neighbors@[t]@.len()
        &&& exists|c: int, h: int| #[trigger] priced(self.costs@, self.far@, c, h)
    }

    /// Whether a node stands for a triangle.
    pub open spec fn stands(self, n: Cell) -> bool {
        0 <= n.0 < self.mesh.tris@.len() && n.1 == 0 && n.2 == 0
    }

    /// What a corridor costs.
    pub open spec fn cost(self, c: Seq<usize>) -> int {
        graph::route_cost(self, as_cells(c))
    }

    /// The first `k` steps from triangle `t`.
    pub open spec fn list(self, t: int, k: int) -> Seq<(Cell, i64)> {
        Seq::new(
            k as nat,
            |j: int|
                (
                    (self.mesh.neighbors@[t]@[j].to as i32, 0i32, 0i32),
                    self.costs@[t]@[j],
                ),
        )
    }

    pub open spec fn shape_ok(self, n: Cell) -> bool {
        &&& self.stands(n)
        &&& n.0 < self.mesh.neighbors@.len()
        &&& n.0 < self.costs@.len()
        &&& n.0 < self.far@.len()
        &&& self.costs@[n.0 as int]@.len() == self.mesh.neighbors@[n.0 as int]@.len()
    }

    fn shaped(&self, n: Cell) -> (r: bool)
        ensures
            r == self.shape_ok(n),
    {
        n.0 >= 0 && n.1 == 0 && n.2 == 0 && (n.0 as usize) < self.mesh.tris.len() && (n.0 as usize)
            < self.mesh.neighbors.len() && (n.0 as usize) < self.costs.len() && (n.0 as usize)
            < self.far.len() && self.costs[n.0 as usize].len()
            == self.mesh.neighbors[n.0 as usize].len()
    }
}

impl<'a> Graph for MeshSearch<'a> {
    open spec fn steps(&self, n: Cell) -> Seq<(Cell, i64)> {
        if self.shape_ok(n) {
            self.list(n.0 as int, self.mesh.neighbors@[n.0 as int]@.len() as int)
        } else {
            Seq::empty()
        }
    }

    open spec fn guess(&self, n: Cell) -> int {
        if self.shape_ok(n) {
            self.far@[n.0 as int] as int
        } else {
            0
        }
    }

    open spec fn goal(&self) -> Cell {
        (self.to as i32, 0i32, 0i32)
    }

    fn successors(&self, n: Cell) -> (r: Vec<(Cell, i64)>) {
        let mut out: Vec<(Cell, i64)> = Vec::new();
        if !self.shaped(n) {
            return out;
        }
        let t: usize = n.0 as usize;
        let all: usize = self.mesh.neighbors[t].len();
        let mut j: usize = 0;
        while j < all
            invariant
                j <= all,
                self.shape_ok(n),
                t == n.0,
                all == self.mesh.neighbors@[t as int]@.len(),
                out@ == self.list(t as int, j as int),
            decreases all - j,
        {
            let to: usize = self.mesh.neighbors[t][j].to;
            let ghost before = out@;
            out.push(
                (
                    (
                        #[verifier::truncate]
                        (to as i32),
                        0,
                        0,
                    ),
                    self.costs[t][j],
                ),
            );
            j += 1;
            assert(out@ =~= self.list(t as int, j as int));
        }
        out
    }

    fn heuristic(&self, n: Cell) -> (r: i64) {
        if self.shaped(n) {
            self.far[n.0 as usize]
        } else {
            0
        }
    }

    fn is_goal(&self, n: Cell) -> (r: bool) {
        let g: i32 = #[verifier::truncate]
        (self.to as i32);
        n.0 == g && n.1 == 0 && n.2 == 0
    }
}

pub open spec fn as_cells(c: Seq<usize>) -> Seq<Cell> {
    Seq::new(c.len(), |i: int| (c[i] as i32, 0i32, 0i32))
}

proof fn lemma_steps(s: MeshSearch, n: Cell, k: int)
    requires
        s.wf(),
        0 <= k < s.steps(n).len(),
    ensures
        s.stands(n),
        s.stands(s.steps(n)[k].0),
        forall|c: int, h: int| #[trigger]
            priced(s.costs@, s.far@, c, h) ==> 0 <= s.steps(n)[k].1 <= c,
        edge(s.mesh.tris@, n.0 as int, s.steps(n)[k].0.0 as int) is Some,
{
    lemma_links(s.mesh.tris@, n.0 as int, s.mesh.tris@.len() as int);
    let l = s.mesh.neighbors@[n.0 as int]@[k];
    assert(l == links(s.mesh.tris@, n.0 as int, s.mesh.tris@.len() as int)[k]);
}

proof fn lemma_mesh_within(s: MeshSearch, from: int)
    requires
        s.wf(),
        0 <= from < s.mesh.tris@.len(),
    ensures
        exists|cells: Seq<Cell>, c: int, h: int| #[trigger]
            graph::within(s, (from as i32, 0i32, 0i32), cells, c, h),
{
    let n = s.mesh.tris@.len();
    let (c, h) = choose|c: int, h: int| #[trigger] priced(s.costs@, s.far@, c, h);
    let start: Cell = (from as i32, 0i32, 0i32);
    let cells = Seq::new(n, |i: int| (i as i32, 0i32, 0i32));
    assert(cells[from] == start);
    assert forall|m: Cell, k: int|
        cells.contains(m) && 0 <= k < s.steps(m).len() implies cells.contains(
        (#[trigger] s.steps(m)[k]).0,
    ) && 0 <= s.steps(m)[k].1 <= c by {
        lemma_steps(s, m, k);
        let t = s.steps(m)[k].0;
        assert(cells[t.0 as int] == t);
    }
    assert(graph::within(s, start, cells, c, h));
}

/// Every node of a route stands for a triangle.
proof fn lemma_in_mesh(s: MeshSearch, start: Cell, p: Seq<Cell>)
    requires
        s.wf(),
        s.stands(start),
        graph::is_route(s, start, p),
    ensures
        forall|k: int| 0 <= k < p.len() ==> s.stands(#[trigger] p[k]),
{
    assert forall|k: int| 0 <= k < p.len() implies s.stands(#[trigger] p[k]) by {
        if k > 0 {
            assert(graph::next(s, p[k - 1], p[k - 1 + 1]));
            let a = p[k - 1];
            let j = choose|j: int| 0 <= j < s.steps(a).len() && (#[trigger] s.steps(a)[j]).0 == p[k];
            lemma_steps(s, a, j);
        }
    }
}

proof fn lemma_route_leads(s: MeshSearch, from: usize, p: Seq<Cell>, c: Seq<usize>)
    requires
        s.wf(),
        from < s.mesh.tris@.len(),
        graph::is_route(s, (from as i32, 0i32, 0i32), p),
        p.no_duplicates(),
        c.len() == p.len(),
        forall|k: int| 0 <= k < c.len() ==> #[trigger] c[k] == p[k].0,
    ensures
        s.mesh.leads(from, s.to, c),
        c.no_duplicates(),
{
    lemma_in_mesh(s, (from as i32, 0i32, 0i32), p);
    assert forall|i: int| 0 <= i < c.len() implies #[trigger] c[i] < s.mesh.tris@.len() by {
        assert(s.stands(p[i]));
    }
    assert forall|i: int| 0 <= i < c.len() - 1 implies edge(
        s.mesh.tris@,
        #[trigger] c[i] as int,
        c[i + 1] as int,
    ) is Some by {
        assert(graph::next(s, p[i], p[i + 1]));
        let a = p[i];
        let j = choose|j: int| 0 <= j < s.steps(a).len() && (#[trigger] s.steps(a)[j]).0 == p[i + 1];
        lemma_steps(s, a, j);
        assert(c[i + 1] == p[i + 1].0);
    }
    assert forall|i: int, j: int| 0 <= i < c.len() && 0 <= j < c.len() && i != j implies c[i]
        != c[j] by {
        assert(s.stands(p[i]) && s.stands(p[j]));
        assert(p[i] != p[j]);
    }
    assert(c.last() == p.last().0);
}

proof fn lemma_leads(s: MeshSearch, from: usize, c: Seq<usize>)
    requires
        s.wf(),
        s.mesh.leads(from, s.to, c),
    ensures
        graph::is_route(s, (from as i32, 0i32, 0i32), as_cells(c)),
{
    let q = as_cells(c);
    assert forall|i: int| 0 <= i < q.len() - 1 implies #[trigger] graph::next(s, q[i], q[i + 1]) by {
        let t = c[i] as int;
        let u = c[i + 1] as int;
        assert(edge(s.mesh.tris@, c[i] as int, c[i + 1] as int) is Some);
        lemma_linked(s.mesh.tris@, t, u, s.mesh.tris@.len() as int);
        let k = choose|k: int|
            0 <= k < links(s.mesh.tris@, t, s.mesh.tris@.len() as int).len() && (#[trigger] links(
                s.mesh.tris@,
                t,
                s.mesh.tris@.len() as int,
            )[k]).to == u;
        assert(s.shape_ok(q[i]));
        assert(s.steps(q[i])[k].0 == q[i + 1]);
    }
}

/// A point the string can touch.
#[derive(Clone, Copy, PartialEq, Eq, Structural, Debug)]
pub enum Point {
    Start,
    Goal,
    Vertex(i64),
}

/// On which side of a line a point lies.
#[derive(Clone, Copy, PartialEq, Eq, Structural, Debug)]
pub enum Turn {
    Below,
    On,
    Above,
}

/// The portals of a corridor: the start, each edge as its left and right end, and
/// the goal. `keep` says of each edge whether its first vertex is on the left: below
/// the line of travel, as `funnel` is told of turns.
pub fn portals(edges: &Vec<(i64, i64)>, keep: &Vec<bool>) -> (r: Vec<(Point, Point)>)
    requires
        keep@.len() == edges@.len(),
        edges@.len() + 2 <= usize::MAX,
    ensures
        r@.len() == edges@.len() + 2,
        r@[0] == (Point::Start, Point::Start),
        r@.last() == (Point::Goal, Point::Goal),
        forall|i: int|
            0 <= i < edges@.len() ==> #[trigger] r@[i + 1] == (if keep@[i] {
                (Point::Vertex(edges@[i].0), Point::Vertex(edges@[i].1))
            } else {
                (Point::Vertex(edges@[i].1), Point::Vertex(edges@[i].0))
            }),
{
    let mut r: Vec<(Point, Point)> = Vec::new();
    r.push((Point::Start, Point::Start));
    let mut i: usize = 0;
    while i < edges.len()
        invariant
            i <= edges@.len() == keep@.len(),
            r@.len() == i + 1,
            r@[0] == (Point::Start, Point::Start),
            forall|k: int|
                0 <= k < i ==> #[trigger] r@[k + 1] == (if keep@[k] {
                    (Point::Vertex(edges@[k].0), Point::Vertex(edges@[k].1))
                } else {
                    (Point::Vertex(edges@[k].1), Point::Vertex(edges@[k].0))
                }),
        decreases edges@.len() - i,
    {
        let e = edges[i];
        if keep[i] {
            r.push((Point::Vertex(e.0), Point::Vertex(e.1)));
        } else {
            r.push((Point::Vertex(e.1), Point::Vertex(e.0)));
        }
        i += 1;
    }
    r.push((Point::Goal, Point::Goal));
    r
}

/// The funnel: its apex and sides, the portals they come from, the portal looked at
/// next, and the string so far.
pub struct Funnel {
    pub apex: Point,
    pub left: Point,
    pub right: Point,
    pub apex_i: int,
    pub left_i: int,
    pub right_i: int,
    pub i: int,
    pub pts: Seq<Point>,
}

/// The funnel begun again from a corner the string turns round.
pub open spec fn turned(f: Funnel, at: Point, at_i: int) -> Funnel {
    Funnel {
        apex: at,
        left: at,
        right: at,
        apex_i: at_i,
        left_i: at_i,
        right_i: at_i,
        i: at_i + 1,
        pts: f.pts.push(at),
    }
}

/// What becomes of one side of the funnel at a portal.
#[derive(Clone, Copy, PartialEq, Eq, Structural, Debug)]
pub enum Move {
    /// The portal lies outside it.
    Keep,
    /// It moves to the portal.
    Narrow,
    /// The string turns round the other side's corner.
    Round,
}

/// The answers for which the right side moves so at portal `r`.
#[verifier::opaque]
pub open spec fn right_move<A: Fn(Point, Point, Point) -> Turn, S: Fn(Point, Point) -> bool>(
    area: A,
    same: S,
    apex: Point,
    left: Point,
    right: Point,
    r: Point,
    mv: Move,
) -> bool {
    let inward = area.ensures((apex, right, r), Turn::On) || area.ensures(
        (apex, right, r),
        Turn::Below,
    );
    match mv {
        Move::Keep => area.ensures((apex, right, r), Turn::Above),
        Move::Narrow => inward && (same.ensures((apex, right), true) || same.ensures(
            (apex, right),
            false,
        ) && area.ensures((apex, left, r), Turn::Above)),
        Move::Round => inward && same.ensures((apex, right), false) && (area.ensures(
            (apex, left, r),
            Turn::On,
        ) || area.ensures((apex, left, r), Turn::Below)),
    }
}

/// The answers for which the left side moves so at portal `l`.
#[verifier::opaque]
pub open spec fn left_move<A: Fn(Point, Point, Point) -> Turn, S: Fn(Point, Point) -> bool>(
    area: A,
    same: S,
    apex: Point,
    left: Point,
    right: Point,
    l: Point,
    mv: Move,
) -> bool {
    let inward = area.ensures((apex, left, l), Turn::On) || area.ensures(
        (apex, left, l),
        Turn::Above,
    );
    match mv {
        Move::Keep => area.ensures((apex, left, l), Turn::Below),
        Move::Narrow => inward && (same.ensures((apex, left), true) || same.ensures(
            (apex, left),
            false,
        ) && area.ensures((apex, right, l), Turn::Below)),
        Move::Round => inward && same.ensures((apex, left), false) && (area.ensures(
            (apex, right, l),
            Turn::On,
        ) || area.ensures((apex, right, l), Turn::Above)),
    }
}

/// The funnel after its right side moved inward to `r`.
pub open spec fn right_at(f: Funnel, mv: Move, r: Point) -> Funnel {
    if mv == Move::Narrow {
        Funnel { right: r, right_i: f.i, ..f }
    } else {
        f
    }
}

/// The funnel after its left side moved inward to `l`.
pub open spec fn left_at(f: Funnel, mv: Move, l: Point) -> Funnel {
    if mv == Move::Narrow {
        Funnel { left: l, left_i: f.i, ..f }
    } else {
        f
    }
}

/// What one look at a portal makes of a funnel whose right side moves as `a` says
/// and, unless the string turned, whose left side moves as `b` says.
pub open spec fn after(portals: Seq<(Point, Point)>, f: Funnel, a: Move, b: Move) -> Funnel {
    let m = right_at(f, a, portals[f.i].1);
    if a == Move::Round {
        turned(f, f.left, f.left_i)
    } else if b == Move::Round {
        turned(m, m.right, m.right_i)
    } else {
        let h = left_at(m, b, portals[f.i].0);
        Funnel { i: h.i + 1, ..h }
    }
}

/// Whether the answers allow these two moves.
pub open spec fn allowed<A: Fn(Point, Point, Point) -> Turn, S: Fn(Point, Point) -> bool>(
    area: A,
    same: S,
    portals: Seq<(Point, Point)>,
    f: Funnel,
    a: Move,
    b: Move,
) -> bool {
    let m = right_at(f, a, portals[f.i].1);
    &&& right_move(area, same, f.apex, f.left, f.right, portals[f.i].1, a)
    &&& a != Move::Round ==> left_move(area, same, m.apex, m.left, m.right, portals[f.i].0, b)
}

/// One look at a portal: the right side, then the left unless the string turned.
#[verifier::opaque]
pub open spec fn looked<A: Fn(Point, Point, Point) -> Turn, S: Fn(Point, Point) -> bool>(
    area: A,
    same: S,
    portals: Seq<(Point, Point)>,
    f: Funnel,
    g: Funnel,
) -> bool {
    exists|a: Move, b: Move|
        #[trigger] allowed(area, same, portals, f, a, b) && g == after(portals, f, a, b)
}

fn look_right<A: Fn(Point, Point, Point) -> Turn, S: Fn(Point, Point) -> bool>(
    area: &A,
    same: &S,
    apex: Point,
    left: Point,
    right: Point,
    r: Point,
) -> (mv: Move)
    requires
        forall|a: Point, b: Point, c: Point| #[trigger] area.requires((a, b, c)),
        forall|a: Point, b: Point| #[trigger] same.requires((a, b)),
    ensures
        right_move(*area, *same, apex, left, right, r, mv),
{
    proof {
        reveal(right_move);
    }
    let t = area(apex, right, r);
    match t {
        Turn::Above => Move::Keep,
        _ => {
            if same(apex, right) {
                return Move::Narrow;
            }
            let u = area(apex, left, r);
            match u {
                Turn::Above => Move::Narrow,
                _ => Move::Round,
            }
        },
    }
}

fn look_left<A: Fn(Point, Point, Point) -> Turn, S: Fn(Point, Point) -> bool>(
    area: &A,
    same: &S,
    apex: Point,
    left: Point,
    right: Point,
    l: Point,
) -> (mv: Move)
    requires
        forall|a: Point, b: Point, c: Point| #[trigger] area.requires((a, b, c)),
        forall|a: Point, b: Point| #[trigger] same.requires((a, b)),
    ensures
        left_move(*area, *same, apex, left, right, l, mv),
{
    proof {
        reveal(left_move);
    }
    let t = area(apex, left, l);
    match t {
        Turn::Below => Move::Keep,
        _ => {
            if same(apex, left) {
                return Move::Narrow;
            }
            let u = area(apex, right, l);
            match u {
                Turn::Below => Move::Narrow,
                _ => Move::Round,
            }
        },
    }
}

/// The funnel before the first look.
pub open spec fn begun(portals: Seq<(Point, Point)>) -> Funnel {
    Funnel {
        apex: portals[0].0,
        left: portals[0].0,
        right: portals[0].1,
        apex_i: 0,
        left_i: 0,
        right_i: 0,
        i: 1,
        pts: seq![portals[0].0],
    }
}

/// `run` is a funnel's life from its beginning, look by look.
#[verifier::opaque]
pub open spec fn is_life<A: Fn(Point, Point, Point) -> Turn, S: Fn(Point, Point) -> bool>(
    area: A,
    same: S,
    portals: Seq<(Point, Point)>,
    run: Seq<Funnel>,
) -> bool {
    &&& run.len() > 0
    &&& run[0] == begun(portals)
    &&& forall|k: int|
        0 <= k < run.len() - 1 ==> looked(area, same, portals, #[trigger] run[k], run[k + 1])
    &&& forall|k: int| 0 <= k < run.len() - 1 ==> (#[trigger] run[k]).i < portals.len()
}

/// The string when the funnel is through: the goal is added unless it ends there.
pub open spec fn ended<S: Fn(Point, Point) -> bool>(
    same: S,
    pts: Seq<Point>,
    goal: Point,
    out: Seq<Point>,
) -> bool {
    ||| same.ensures((pts.last(), goal), true) && out == pts
    ||| same.ensures((pts.last(), goal), false) && out == pts.push(goal)
}

/// Pull the string through the portals; no portals give no path. `area` says on
/// which side of the line through its first two points the third lies, `same` whether
/// two points coincide.
pub fn funnel<A: Fn(Point, Point, Point) -> Turn, S: Fn(Point, Point) -> bool>(
    portals: &Vec<(Point, Point)>,
    area: A,
    same: S,
) -> (out: Vec<Point>)
    requires
        portals@.len() > 0 ==> portals@[0].0 == portals@[0].1,
        forall|a: Point, b: Point, c: Point| #[trigger] area.requires((a, b, c)),
        forall|a: Point, b: Point| #[trigger] same.requires((a, b)),
        forall|a: Point, c: Point, t: Turn| #[trigger] area.ensures((a, a, c), t) ==> t == Turn::On,
        forall|a: Point, e: bool| #[trigger] same.ensures((a, a), e) ==> e,
    ensures
        portals@.len() == 0 ==> out@.len() == 0,
        portals@.len() > 0 ==> exists|run: Seq<Funnel>|
            #[trigger] is_life(area, same, portals@, run) && run.last().i >= portals@.len()
                && ended(same, run.last().pts, portals@.last().0, out@),
        portals@.len() > 0 ==> out@.len() > 0 && out@[0] == portals@[0].0,
        forall|k: int| 0 <= k < out@.len() ==> touches(portals@, #[trigger] out@[k]),
{
    let n: usize = portals.len();
    if n == 0 {
        return Vec::new();
    }
    let mut apex: Point = portals[0].0;
    let mut left: Point = portals[0].0;
    let mut right: Point = portals[0].1;
    let mut apex_i: usize = 0;
    let mut left_i: usize = 0;
    let mut right_i: usize = 0;
    let mut i: usize = 1;
    let mut pts: Vec<Point> = Vec::new();
    pts.push(apex);
    let ghost f0 = begun(portals@);
    let ghost mut run: Seq<Funnel> = seq![f0];
    proof {
        reveal(is_life);
        assert(pts@ =~= f0.pts);
        assert(touches_at(portals@, apex, 0));
    }
    while i < n
        invariant
            n == portals@.len(),
            n > 0,
            forall|a: Point, b: Point, c: Point| #[trigger] area.requires((a, b, c)),
            forall|a: Point, b: Point| #[trigger] same.requires((a, b)),
            forall|a: Point, c: Point, t: Turn| #[trigger]
                area.ensures((a, a, c), t) ==> t == Turn::On,
            forall|a: Point, e: bool| #[trigger] same.ensures((a, a), e) ==> e,
            apex_i <= left_i < n,
            apex_i <= right_i < n,
            apex_i < i,
            (left == apex && right == apex && left_i == apex_i && right_i == apex_i && i == apex_i
                + 1) || (left_i > apex_i && right_i > apex_i),
            touches_at(portals@, apex, apex_i as int),
            touches_at(portals@, left, left_i as int),
            touches_at(portals@, right, right_i as int),
            is_life(area, same, portals@, run),
            run.last() == (Funnel {
                apex,
                left,
                right,
                apex_i: apex_i as int,
                left_i: left_i as int,
                right_i: right_i as int,
                i: i as int,
                pts: pts@,
            }),
            pts@.len() > 0,
            pts@[0] == portals@[0].0,
            forall|k: int| 0 <= k < pts@.len() ==> touches(portals@, #[trigger] pts@[k]),
        decreases n - apex_i, n - i,
    {
        let (l, r): (Point, Point) = portals[i];
        let ghost f = run.last();
        let ghost old_run = run;
        let a = look_right(&area, &same, apex, left, right, r);
        if a == Move::Narrow {
            right = r;
            right_i = i;
        }
        let mut b: Move = Move::Keep;
        if a != Move::Round {
            b = look_left(&area, &same, apex, left, right, l);
            if b == Move::Narrow {
                left = l;
                left_i = i;
            }
        }
        let ghost g = after(portals@, f, a, b);
        proof {
            assert(allowed(area, same, portals@, f, a, b));
            assert(looked(area, same, portals@, f, g)) by {
                reveal(looked);
            }
            lemma_life_grows(area, same, portals@, old_run, g);
            run = old_run.push(g);
            if f.left == f.apex && f.right == f.apex {
                lemma_opens(area, same, f.apex, l, r, a, b);
            }
        }
        if a == Move::Round {
            apex = left;
            apex_i = left_i;
        } else if b == Move::Round {
            apex = right;
            apex_i = right_i;
        } else {
            i += 1;
            continue;
        }
        proof {
            assert(touches_at(portals@, apex, apex_i as int));
            assert(touches(portals@, apex));
        }
        pts.push(apex);
        left = apex;
        right = apex;
        left_i = apex_i;
        right_i = apex_i;
        i = apex_i + 1;
        assert(pts@ =~= g.pts);
    }
    let goal: Point = portals[n - 1].0;
    let ghost whole = pts@;
    let last: Point = pts[pts.len() - 1];
    if !same(last, goal) {
        pts.push(goal);
        proof {
            assert(touches_at(portals@, goal, n - 1));
        }
    }
    proof {
        assert(ended(same, whole, portals@.last().0, pts@));
    }
    pts
}

/// Whether a point is an end of portal `i`.
pub open spec fn touches_at(portals: Seq<(Point, Point)>, p: Point, i: int) -> bool {
    0 <= i < portals.len() && (portals[i].0 == p || portals[i].1 == p)
}

/// Whether it is an end of some portal.
pub open spec fn touches(portals: Seq<(Point, Point)>, p: Point) -> bool {
    exists|i: int| #[trigger] touches_at(portals, p, i)
}

/// A funnel whose sides lie at its apex opens to the next portal.
proof fn lemma_opens<A: Fn(Point, Point, Point) -> Turn, S: Fn(Point, Point) -> bool>(
    area: A,
    same: S,
    apex: Point,
    l: Point,
    r: Point,
    a: Move,
    b: Move,
)
    requires
        forall|p: Point, c: Point, t: Turn| #[trigger] area.ensures((p, p, c), t) ==> t == Turn::On,
        forall|p: Point, e: bool| #[trigger] same.ensures((p, p), e) ==> e,
        right_move(area, same, apex, apex, apex, r, a),
        a == Move::Narrow ==> left_move(area, same, apex, apex, r, l, b),
    ensures
        a == Move::Narrow,
        b == Move::Narrow,
{
    reveal(right_move);
    reveal(left_move);
}

proof fn lemma_life_grows<A: Fn(Point, Point, Point) -> Turn, S: Fn(Point, Point) -> bool>(
    area: A,
    same: S,
    portals: Seq<(Point, Point)>,
    run: Seq<Funnel>,
    g: Funnel,
)
    requires
        is_life(area, same, portals, run),
        run.last().i < portals.len(),
        looked(area, same, portals, run.last(), g),
    ensures
        is_life(area, same, portals, run.push(g)),
{
    reveal(is_life);
    let longer = run.push(g);
    assert forall|k: int| 0 <= k < longer.len() - 1 implies looked(
        area,
        same,
        portals,
        #[trigger] longer[k],
        longer[k + 1],
    ) by {
        if k < run.len() - 1 {
            assert(looked(area, same, portals, run[k], run[k + 1]));
        }
    }
    assert forall|k: int| 0 <= k < longer.len() - 1 implies (#[trigger] longer[k]).i
        < portals.len() by {
        if k < run.len() - 1 {
            assert(run[k].i < portals.len());
        }
    }
}

/// What two triangles share is what both have, in the order of the first.
pub proof fn law_shared_vertices_are_in_both(a: Seq<i64>, b: Seq<i64>, n: int, v: i64)
    requires
        0 <= n <= a.len(),
    ensures
        shared(a, b, n).contains(v) <==> has_vertex(b, v) && exists|i: int|
            0 <= i < n && #[trigger] a[i] == v,
        shared(a, b, n).len() <= n,
    decreases n,
{
    if n > 0 {
        law_shared_vertices_are_in_both(a, b, n - 1, v);
        let (all, less) = (shared(a, b, n), shared(a, b, n - 1));
        if less.contains(v) {
            let k = choose|k: int| 0 <= k < less.len() && less[k] == v;
            assert(all[k] == v);
        }
        if all.contains(v) && !less.contains(v) {
            let k = choose|k: int| 0 <= k < all.len() && all[k] == v;
            if k < less.len() {
                assert(less[k] == v);
            }
            assert(a[n - 1] == v);
        }
        if a[n - 1] == v && has_vertex(b, v) {
            assert(all[all.len() - 1] == v);
        }
    }
}

/// Two triangles are neighbours exactly where they have two vertices in common and not all
/// three, and the edge between them is made of those two.
pub proof fn law_neighbours_have_an_edge_in_common(tris: Seq<[i64; 3]>, t: int, u: int)
    requires
        t != u,
        tris[t]@[0] != tris[t]@[1] && tris[t]@[0] != tris[t]@[2] && tris[t]@[1] != tris[t]@[2],
        tris[u]@[0] != tris[u]@[1] && tris[u]@[0] != tris[u]@[2] && tris[u]@[1] != tris[u]@[2],
    ensures
        ({
            let (a, b) = (tris[t]@, tris[u]@);
            match edge(tris, t, u) {
                Some((x, y)) => {
                    &&& x != y
                    &&& has_vertex(a, x) && has_vertex(b, x) && has_vertex(a, y) && has_vertex(b, y)
                    &&& forall|v: i64| #[trigger]
                        has_vertex(a, v) && has_vertex(b, v) ==> v == x || v == y
                },
                None => forall|v: i64, w: i64|
                    v != w && #[trigger] has_vertex(a, v) && has_vertex(b, v) && #[trigger] has_vertex(
                        a,
                        w,
                    ) && has_vertex(b, w) ==> has_vertex(b, a[0]) && has_vertex(b, a[1])
                        && has_vertex(b, a[2]),
            }
        }),
{
    let (lo, hi) = if t < u {
        (tris[t]@, tris[u]@)
    } else {
        (tris[u]@, tris[t]@)
    };
    reveal_with_fuel(shared, 4);
    lemma_all_three(lo, hi);
}

/// Two triangles of distinct vertices that have all three of one have all of the other.
proof fn lemma_all_three(a: Seq<i64>, b: Seq<i64>)
    requires
        a[0] != a[1] && a[0] != a[2] && a[1] != a[2],
        b[0] != b[1] && b[0] != b[2] && b[1] != b[2],
    ensures
        has_vertex(b, a[0]) && has_vertex(b, a[1]) && has_vertex(b, a[2]) <==> has_vertex(a, b[0])
            && has_vertex(a, b[1]) && has_vertex(a, b[2]),
{
}

/// A triangle names another as its neighbour exactly where they have an edge in common,
/// once, and over that edge; the neighbours stand in the order of the triangles.
pub proof fn law_links_are_the_edges(tris: Seq<[i64; 3]>, t: int, n: int, k: int)
    requires
        0 <= n <= usize::MAX,
        0 <= k < links(tris, t, n).len(),
    ensures
        ({
            let l = links(tris, t, n)[k];
            &&& l.to < n
            &&& edge(tris, t, l.to as int) == Some((l.a, l.b))
            &&& forall|m: int|
                0 <= m < k ==> (#[trigger] links(tris, t, n)[m]).to < l.to
        }),
    decreases n,
{
    if n > 0 {
        let (all, less) = (links(tris, t, n), links(tris, t, n - 1));
        if k < less.len() {
            law_links_are_the_edges(tris, t, n - 1, k);
            assert(all[k] == less[k]);
            assert forall|m: int| 0 <= m < k implies (#[trigger] all[m]).to < all[k].to by {
                assert(all[m] == less[m]);
            }
        } else {
            assert forall|m: int| 0 <= m < k implies (#[trigger] all[m]).to < all[k].to by {
                law_links_are_the_edges(tris, t, n - 1, m);
                assert(all[m] == less[m]);
            }
        }
    }
}

/// A vertex is the number given where it is one, and the first where it is negative.
pub proof fn law_vertices_are_not_negative(i: i64)
    ensures
        i >= 0 ==> vertex(i) == i,
        i < 0 ==> vertex(i) == vertex(0),
        vertex(0) == 0,
{
}

/// A turn seen in a mirror.
pub open spec fn mirrored(t: Turn) -> Turn {
    match t {
        Turn::Below => Turn::Above,
        Turn::On => Turn::On,
        Turn::Above => Turn::Below,
    }
}

/// The two sides of a funnel move by one rule: seen in a mirror, the left side moves as
/// the right one does.
pub proof fn law_the_sides_mirror_each_other<
    A: Fn(Point, Point, Point) -> Turn,
    B: Fn(Point, Point, Point) -> Turn,
    S: Fn(Point, Point) -> bool,
>(area: A, mirror: B, same: S, apex: Point, left: Point, right: Point, p: Point, mv: Move)
    requires
        forall|a: Point, b: Point, c: Point, t: Turn| #[trigger]
            mirror.ensures((a, b, c), t) <==> area.ensures((a, b, c), mirrored(t)),
    ensures
        right_move(area, same, apex, left, right, p, mv) <==> left_move(
            mirror,
            same,
            apex,
            right,
            left,
            p,
            mv,
        ),
{
    reveal(right_move);
    reveal(left_move);
    assert(mirrored(Turn::Above) == Turn::Below && mirrored(Turn::Below) == Turn::Above);
    assert(mirror.ensures((apex, right, p), Turn::On) <==> area.ensures(
        (apex, right, p),
        Turn::On,
    ));
    assert(mirror.ensures((apex, right, p), Turn::Above) <==> area.ensures(
        (apex, right, p),
        Turn::Below,
    ));
    assert(mirror.ensures((apex, right, p), Turn::Below) <==> area.ensures(
        (apex, right, p),
        Turn::Above,
    ));
    assert(mirror.ensures((apex, left, p), Turn::On) <==> area.ensures((apex, left, p), Turn::On));
    assert(mirror.ensures((apex, left, p), Turn::Above) <==> area.ensures(
        (apex, left, p),
        Turn::Below,
    ));
    assert(mirror.ensures((apex, left, p), Turn::Below) <==> area.ensures(
        (apex, left, p),
        Turn::Above,
    ));
}

/// The right side never widens: a portal end above it leaves it where it is. One that lies
/// on or below it is taken as long as it is still above the left side, and where it is
/// not, the string turns round the left corner.
pub proof fn law_the_right_side_only_narrows<
    A: Fn(Point, Point, Point) -> Turn,
    S: Fn(Point, Point) -> bool,
>(area: A, same: S, apex: Point, left: Point, right: Point, r: Point, mv: Move, t: Turn, u: Turn)
    requires
        right_move(area, same, apex, left, right, r, mv),
        forall|x: Turn| area.ensures((apex, right, r), x) <==> x == t,
        forall|x: Turn| area.ensures((apex, left, r), x) <==> x == u,
        same.ensures((apex, right), false),
        !same.ensures((apex, right), true),
    ensures
        mv == Move::Keep <==> t == Turn::Above,
        mv == Move::Narrow <==> t != Turn::Above && u == Turn::Above,
        mv == Move::Round <==> t != Turn::Above && u != Turn::Above,
{
    reveal(right_move);
    assert(area.ensures((apex, right, r), t));
    assert(area.ensures((apex, left, r), u));
}

/// A look at a portal adds a corner to the string only where the string turns, and then
/// the corner it turns round; the funnel begins again there. Otherwise the string stays and
/// the next portal is looked at.
pub proof fn law_corners_are_where_the_string_turns(
    portals: Seq<(Point, Point)>,
    f: Funnel,
    a: Move,
    b: Move,
)
    ensures
        ({
            let g = after(portals, f, a, b);
            &&& a == Move::Round ==> g.pts == f.pts.push(f.left) && g.apex == f.left && g.i
                == f.left_i + 1
            &&& a != Move::Round && b == Move::Round ==> {
                let corner = if a == Move::Narrow {
                    portals[f.i].1
                } else {
                    f.right
                };
                g.pts == f.pts.push(corner) && g.apex == corner
            }
            &&& a == Move::Round || b == Move::Round ==> g.left == g.apex && g.right == g.apex
                && g.left_i == g.apex_i && g.right_i == g.apex_i && g.i == g.apex_i + 1
            &&& a != Move::Round && b != Move::Round ==> {
                &&& g.pts == f.pts && g.apex == f.apex && g.apex_i == f.apex_i
                &&& g.i == f.i + 1
                &&& a == Move::Narrow ==> g.right == portals[f.i].1 && g.right_i == f.i
                &&& a == Move::Keep ==> g.right == f.right && g.right_i == f.right_i
                &&& b == Move::Narrow ==> g.left == portals[f.i].0 && g.left_i == f.i
                &&& b == Move::Keep ==> g.left == f.left && g.left_i == f.left_i
            }
        }),
{
}

/// A search goes from a triangle to its neighbours at the costs given for them, guesses
/// what is given for each triangle, and is over at the triangle it looks for.
pub proof fn law_a_search_goes_over_neighbours(s: MeshSearch, t: usize, u: usize)
    requires
        s.wf(),
        t < s.mesh.tris@.len(),
        u < s.mesh.tris@.len(),
    ensures
        graph::next(s, (t as i32, 0, 0), (u as i32, 0, 0)) <==> edge(
            s.mesh.tris@,
            t as int,
            u as int,
        ) is Some,
        s.guess((t as i32, 0, 0)) == s.far@[t as int],
        s.goal() == (s.to as i32, 0i32, 0i32),
{
    let n = s.mesh.tris@.len() as int;
    let l = links(s.mesh.tris@, t as int, n);
    let a: Cell = (t as i32, 0, 0);
    let b: Cell = (u as i32, 0, 0);
    assert(s.mesh.neighbors@[t as int]@ == l);
    assert(s.shape_ok(a));
    if edge(s.mesh.tris@, t as int, u as int) is Some {
        lemma_linked(s.mesh.tris@, t as int, u as int, n);
        let k = choose|k: int| 0 <= k < l.len() && (#[trigger] l[k]).to == u;
        assert(s.steps(a)[k].0 == b);
    }
    if graph::next(s, a, b) {
        let k = choose|k: int| 0 <= k < s.steps(a).len() && (#[trigger] s.steps(a)[k]).0 == b;
        law_links_are_the_edges(s.mesh.tris@, t as int, n, k);
        assert(l[k].to as i32 == u as i32);
    }
}

/// Unless the string has turned, the left side is looked at with the apex and the left side
/// the funnel has, against the right side as it is after its own move.
pub proof fn law_the_right_side_moves_first<
    A: Fn(Point, Point, Point) -> Turn,
    S: Fn(Point, Point) -> bool,
>(area: A, same: S, portals: Seq<(Point, Point)>, f: Funnel, a: Move, b: Move)
    requires
        allowed(area, same, portals, f, a, b),
    ensures
        right_move(area, same, f.apex, f.left, f.right, portals[f.i].1, a),
        a == Move::Keep ==> left_move(area, same, f.apex, f.left, f.right, portals[f.i].0, b),
        a == Move::Narrow ==> left_move(
            area,
            same,
            f.apex,
            f.left,
            portals[f.i].1,
            portals[f.i].0,
            b,
        ),
{
}

/// A string ends at the goal, once: the goal is added exactly where the string does not end
/// there already.
pub proof fn law_a_string_ends_at_its_goal<S: Fn(Point, Point) -> bool>(
    same: S,
    pts: Seq<Point>,
    goal: Point,
    out: Seq<Point>,
    there: bool,
)
    requires
        ended(same, pts, goal, out),
        forall|x: bool| same.ensures((pts.last(), goal), x) <==> x == there,
    ensures
        there ==> out == pts,
        !there ==> out == pts + seq![goal],
{
    assert(same.ensures((pts.last(), goal), there));
}

/// The ends of a portal, and only they, touch it.
pub proof fn law_portals_are_touched_by_their_ends(
    portals: Seq<(Point, Point)>,
    p: Point,
    i: int,
)
    requires
        0 <= i < portals.len(),
    ensures
        touches(portals, portals[i].0),
        touches(portals, portals[i].1),
        touches(portals, p) ==> exists|k: int|
            0 <= k < portals.len() && ((#[trigger] portals[k]).0 == p || portals[k].1 == p),
{
    assert(touches_at(portals, portals[i].0, i));
    assert(touches_at(portals, portals[i].1, i));
    if touches(portals, p) {
        let k = choose|k: int| #[trigger] touches_at(portals, p, k);
        assert(portals[k].0 == p || portals[k].1 == p);
    }
}

/// A funnel begins at the first portal: its apex and its left side are the portal's left
/// end, its right side the right end, and the string so far is the apex.
pub proof fn law_a_funnel_begins_at_the_first_portal(portals: Seq<(Point, Point)>)
    requires
        portals.len() > 0,
    ensures
        ({
            let f = begun(portals);
            &&& f.apex == portals[0].0 && f.left == portals[0].0 && f.right == portals[0].1
            &&& f.apex_i == 0 && f.left_i == 0 && f.right_i == 0
            &&& f.pts.len() == 1 && f.pts[0] == f.apex
            &&& f.i == f.apex_i + 1
        }),
{
}

/// The edge between two triangles is read off the earlier one: its first end stands before
/// its second there.
pub proof fn law_edges_are_read_off_the_earlier_triangle(tris: Seq<[i64; 3]>, t: int, u: int)
    requires
        t < u,
    ensures
        edge(tris, t, u) matches Some(e) ==> exists|i: int, j: int|
            0 <= i < j < 3 && #[trigger] tris[t]@[i] == e.0 && #[trigger] tris[t]@[j] == e.1,
{
    reveal_with_fuel(shared, 4);
    let a = tris[t]@;
    if let Some(e) = edge(tris, t, u) {
        if a[0] == e.0 && a[1] == e.1 {
            assert(tris[t]@[0] == e.0 && tris[t]@[1] == e.1);
        } else if a[0] == e.0 && a[2] == e.1 {
            assert(tris[t]@[0] == e.0 && tris[t]@[2] == e.1);
        } else {
            assert(tris[t]@[1] == e.0 && tris[t]@[2] == e.1);
        }
    }
}

/// A corridor begins at one triangle, ends at the other, and goes from each triangle to one
/// it has an edge in common with.
pub proof fn law_corridors_go_over_edges(m: NavMesh, from: usize, to: usize, c: Seq<usize>, i: int)
    requires
        m.leads(from, to, c),
    ensures
        c.len() > 0,
        c[0] == from,
        c[c.len() - 1] == to,
        0 <= i < c.len() ==> c[i] < m.tris@.len(),
        0 <= i < c.len() - 1 ==> edge(m.tris@, c[i] as int, c[i + 1] as int) is Some,
        from == to ==> m.leads(from, to, seq![from]),
{
    if 0 <= i < c.len() {
        assert(c[i] < m.tris@.len());
    }
    assert(c[0] < m.tris@.len());
}

} // verus!
