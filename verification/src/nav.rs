//! Routes over grids with walls: flat ones, where one goes along the axes, and
//! solid ones, where one goes to any touching cell.
use crate::graph;
use crate::graph::{astar, Cell, Graph};
use vstd::arithmetic::div_mod::*;
use vstd::prelude::*;

verus! {

/// A grid of cells, some of them walls.
pub struct Grid {
    pub w: i32,
    pub h: i32,
    pub d: i32,
    pub walls: Vec<bool>,
    /// Only the four steps along the first two axes, each of cost one.
    pub flat: bool,
}

/// How many steps are tried from a cell.
pub open spec fn tries(flat: bool) -> int {
    if flat {
        4
    } else {
        27
    }
}

/// The offset of step `k`. The middle one of a solid grid goes nowhere.
pub open spec fn offset(flat: bool, k: int) -> (int, int, int) {
    if flat {
        if k == 0 {
            (1, 0, 0)
        } else if k == 1 {
            (-1, 0, 0)
        } else if k == 2 {
            (0, 1, 0)
        } else {
            (0, -1, 0)
        }
    } else {
        (k % 3 - 1, k / 3 % 3 - 1, k / 9 - 1)
    }
}

/// What a step costs: one in a flat grid; in a solid one the length of the step in
/// thousandths, the fraction cut off.
pub open spec fn price(flat: bool, o: (int, int, int)) -> i64 {
    let far = o.0 * o.0 + o.1 * o.1 + o.2 * o.2;
    if flat {
        1
    } else if far == 1 {
        1000
    } else if far == 2 {
        1414
    } else {
        1732
    }
}

/// The largest whole number whose square is not above `n`.
pub open spec fn is_root(n: int, r: int) -> bool {
    0 <= r && r * r <= n && n < (r + 1) * (r + 1)
}

pub open spec fn root_of(n: int) -> int {
    choose|r: int| is_root(n, r)
}

pub open spec fn abs(n: int) -> int {
    if n < 0 {
        -n
    } else {
        n
    }
}

/// The square of the distance between two cells.
pub open spec fn apart(a: Cell, b: Cell) -> int {
    (a.0 - b.0) * (a.0 - b.0) + (a.1 - b.1) * (a.1 - b.1) + (a.2 - b.2) * (a.2 - b.2)
}

impl Grid {
    pub open spec fn wf(self) -> bool {
        &&& self.w > 0 && self.h > 0 && self.d > 0 ==> self.walls@.len() == self.w * self.h
            * self.d && self.w * self.h <= i32::MAX && self.w * self.h * self.d <= i32::MAX
        &&& self.flat ==> self.d == 1
    }

    pub open spec fn inside(self, x: int, y: int, z: int) -> bool {
        0 <= x < self.w && 0 <= y < self.h && 0 <= z < self.d
    }

    pub open spec fn index(self, x: int, y: int, z: int) -> int {
        (z * self.h + y) * self.w + x
    }

    /// Whether a cell can be entered.
    pub open spec fn is_open(self, x: int, y: int, z: int) -> bool {
        self.inside(x, y, z) && !self.walls@[self.index(x, y, z)]
    }

    /// Where step `k` from `c` leads.
    pub open spec fn target(self, c: Cell, k: int) -> (int, int, int) {
        let o = offset(self.flat, k);
        (c.0 + o.0, c.1 + o.1, c.2 + o.2)
    }

    pub open spec fn can_go(self, c: Cell, k: int) -> bool {
        let t = self.target(c, k);
        offset(self.flat, k) != (0int, 0int, 0int) && self.is_open(t.0, t.1, t.2)
    }

    /// The cells the first `k` steps from `c` lead to, with their costs.
    pub open spec fn steps_to(self, c: Cell, k: int) -> Seq<(Cell, i64)>
        decreases k,
    {
        if k <= 0 {
            Seq::empty()
        } else if self.can_go(c, k - 1) {
            let t = self.target(c, k - 1);
            self.steps_to(c, k - 1).push(
                ((t.0 as i32, t.1 as i32, t.2 as i32), price(self.flat, offset(self.flat, k - 1))),
            )
        } else {
            self.steps_to(c, k - 1)
        }
    }

    proof fn lemma_index(self, x: int, y: int, z: int)
        requires
            self.wf(),
            self.inside(x, y, z),
        ensures
            0 <= z * self.h,
            0 <= z * self.h + y < self.d * self.h,
            0 <= (z * self.h + y) * self.w,
            0 <= self.index(x, y, z) < self.w * self.h * self.d,
            self.index(x, y, z) < self.walls@.len(),
    {
        let (w, h, d) = (self.w as int, self.h as int, self.d as int);
        assert(0 <= z * h + y < d * h) by (nonlinear_arith)
            requires
                0 <= z < d,
                0 <= y < h,
        ;
        assert(0 <= z * h) by (nonlinear_arith)
            requires
                0 <= z,
                0 < h,
        ;
        let r = z * h + y;
        assert(0 <= r * w && 0 <= r * w + x < d * h * w) by (nonlinear_arith)
            requires
                0 <= r < d * h,
                0 <= x < w,
        ;
        assert(d * h * w == w * h * d) by (nonlinear_arith);
    }

    /// Whether a cell can be entered.
    fn open_at(&self, x: i64, y: i64, z: i64) -> (r: bool)
        requires
            self.wf(),
        ensures
            r == self.is_open(x as int, y as int, z as int),
    {
        if x < 0 || y < 0 || z < 0 || x >= self.w as i64 || y >= self.h as i64 || z
            >= self.d as i64 {
            return false;
        }
        proof {
            self.lemma_index(x as int, y as int, z as int);
            assert(self.d * self.h <= i32::MAX) by {
                let (w, h, d) = (self.w as int, self.h as int, self.d as int);
                assert(d * h <= w * h * d) by (nonlinear_arith)
                    requires
                        w >= 1,
                        h >= 1,
                        d >= 1,
                ;
            }
        }
        let i: i64 = (z * self.h as i64 + y) * self.w as i64 + x;
        !self.walls[i as usize]
    }

    /// Set or clear a wall. Outside the grid nothing happens.
    fn set_wall(&mut self, x: i32, y: i32, z: i32, blocked: bool)
        requires
            old(self).wf(),
        ensures
            final(self).wf(),
            *final(self) == (Grid { walls: final(self).walls, ..*old(self) }),
            final(self).walls@ == (if old(self).inside(x as int, y as int, z as int) {
                old(self).walls@.update(
                    old(self).index(x as int, y as int, z as int),
                    blocked,
                )
            } else {
                old(self).walls@
            }),
    {
        if x >= 0 && y >= 0 && z >= 0 && x < self.w && y < self.h && z < self.d {
            proof {
                self.lemma_index(x as int, y as int, z as int);
                assert(self.d * self.h <= i32::MAX) by {
                    let (w, h, d) = (self.w as int, self.h as int, self.d as int);
                    assert(d * h <= w * h * d) by (nonlinear_arith)
                        requires
                            w >= 1,
                            h >= 1,
                            d >= 1,
                    ;
                }
            }
            let i: i64 = (z as i64 * self.h as i64 + y as i64) * self.w as i64 + x as i64;
            self.walls[i as usize] = blocked;
        }
    }
}

/// A search for a goal in a grid.
pub struct Search<'a> {
    pub grid: &'a Grid,
    pub goal: Cell,
}

impl<'a> Search<'a> {
    pub open spec fn wf(self) -> bool {
        self.grid.wf()
    }
}

/// The largest whole number whose square is not above `n`.
fn root(n: u128) -> (r: u64)
    requires
        n < 0x1_0000_0000_0000_0000_0000_0000,
    ensures
        is_root(n as int, r as int),
        r < 0x1_0000_0000_0000,
{
    let mut lo: u128 = 0;
    let mut hi: u128 = 0x1_0000_0000_0000;
    assert(0x1_0000_0000_0000int * 0x1_0000_0000_0000int == 0x1_0000_0000_0000_0000_0000_0000int)
        by (nonlinear_arith);
    while hi - lo > 1
        invariant
            lo < hi <= 0x1_0000_0000_0000,
            lo * lo <= n < hi * hi,
        decreases hi - lo,
    {
        let mid: u128 = lo + (hi - lo) / 2;
        assert(mid * mid <= 0x1_0000_0000_0000_0000_0000_0000) by (nonlinear_arith)
            requires
                mid <= 0x1_0000_0000_0000,
        ;
        if mid * mid <= n {
            lo = mid;
        } else {
            hi = mid;
        }
    }
    assert(hi == lo + 1);
    lo as u64
}

fn off(flat: bool, k: i64) -> (r: (i64, i64, i64))
    requires
        0 <= k < tries(flat),
    ensures
        r.0 == offset(flat, k as int).0,
        r.1 == offset(flat, k as int).1,
        r.2 == offset(flat, k as int).2,
{
    if flat {
        match k {
            0 => (1, 0, 0),
            1 => (-1, 0, 0),
            2 => (0, 1, 0),
            _ => (0, -1, 0),
        }
    } else {
        (k % 3 - 1, k / 3 % 3 - 1, k / 9 - 1)
    }
}

proof fn lemma_offsets(flat: bool, k: int)
    requires
        0 <= k < tries(flat),
    ensures
        -1 <= offset(flat, k).0 <= 1,
        -1 <= offset(flat, k).1 <= 1,
        -1 <= offset(flat, k).2 <= 1,
        flat ==> abs(offset(flat, k).0) + abs(offset(flat, k).1) == 1 && offset(flat, k).2 == 0,
{
}

/// What a guess is: along the axes in a flat grid; as the crow flies in a solid one,
/// in thousandths, the fraction cut off.
pub open spec fn guess_of(flat: bool, n: Cell, goal: Cell) -> int {
    if flat {
        abs(n.0 - goal.0) + abs(n.1 - goal.1)
    } else {
        root_of(1000000 * apart(n, goal))
    }
}

proof fn lemma_root_unique(n: int, a: int, b: int)
    requires
        is_root(n, a),
        is_root(n, b),
    ensures
        a == b,
{
    if a < b {
        assert((a + 1) * (a + 1) <= b * b) by (nonlinear_arith)
            requires
                0 <= a < b,
        ;
    } else if b < a {
        assert((b + 1) * (b + 1) <= a * a) by (nonlinear_arith)
            requires
                0 <= b < a,
        ;
    }
}

proof fn lemma_apart(a: Cell, b: Cell)
    ensures
        0 <= 1000000 * apart(a, b) < 0x1_0000_0000_0000_0000_0000_0000,
{
    let (x, y, z) = (a.0 - b.0, a.1 - b.1, a.2 - b.2);
    assert(0 <= x * x <= 0x1_0000_0000 * 0x1_0000_0000) by (nonlinear_arith)
        requires
            -0x1_0000_0000 <= x <= 0x1_0000_0000,
    ;
    assert(0 <= y * y <= 0x1_0000_0000 * 0x1_0000_0000) by (nonlinear_arith)
        requires
            -0x1_0000_0000 <= y <= 0x1_0000_0000,
    ;
    assert(0 <= z * z <= 0x1_0000_0000 * 0x1_0000_0000) by (nonlinear_arith)
        requires
            -0x1_0000_0000 <= z <= 0x1_0000_0000,
    ;
}

impl<'a> Graph for Search<'a> {
    open spec fn steps(&self, n: Cell) -> Seq<(Cell, i64)> {
        if self.wf() {
            self.grid.steps_to(n, tries(self.grid.flat))
        } else {
            Seq::empty()
        }
    }

    open spec fn guess(&self, n: Cell) -> int {
        guess_of(self.grid.flat, n, self.goal)
    }

    open spec fn goal(&self) -> Cell {
        self.goal
    }

    fn successors(&self, n: Cell) -> (r: Vec<(Cell, i64)>) {
        let mut out: Vec<(Cell, i64)> = Vec::new();
        if !self.grid.fits() {
            return out;
        }
        let flat: bool = self.grid.flat;
        let all: i64 = if flat {
            4
        } else {
            27
        };
        let mut k: i64 = 0;
        while k < all
            invariant
                0 <= k <= all == tries(flat),
                flat == self.grid.flat,
                self.wf(),
                out@ == self.grid.steps_to(n, k as int),
            decreases all - k,
        {
            let o = off(flat, k);
            proof {
                lemma_offsets(flat, k as int);
            }
            let (x, y, z): (i64, i64, i64) = (n.0 as i64 + o.0, n.1 as i64 + o.1, n.2 as i64 + o.2);
            if !(o.0 == 0 && o.1 == 0 && o.2 == 0) && self.grid.open_at(x, y, z) {
                let far: i64 = (if o.0 == 0 {
                    0i64
                } else {
                    1
                }) + (if o.1 == 0 {
                    0i64
                } else {
                    1
                }) + (if o.2 == 0 {
                    0i64
                } else {
                    1
                });
                proof {
                    assert(o.0 * o.0 == (if o.0 == 0 {
                        0int
                    } else {
                        1
                    })) by (nonlinear_arith)
                        requires
                            -1 <= o.0 <= 1,
                    ;
                    assert(o.1 * o.1 == (if o.1 == 0 {
                        0int
                    } else {
                        1
                    })) by (nonlinear_arith)
                        requires
                            -1 <= o.1 <= 1,
                    ;
                    assert(o.2 * o.2 == (if o.2 == 0 {
                        0int
                    } else {
                        1
                    })) by (nonlinear_arith)
                        requires
                            -1 <= o.2 <= 1,
                    ;
                }
                let cost: i64 = if flat {
                    1
                } else if far == 1 {
                    1000
                } else if far == 2 {
                    1414
                } else {
                    1732
                };
                out.push(((x as i32, y as i32, z as i32), cost));
            }
            k += 1;
        }
        out
    }

    fn heuristic(&self, n: Cell) -> (r: i64) {
        let x: i64 = n.0 as i64 - self.goal.0 as i64;
        let y: i64 = n.1 as i64 - self.goal.1 as i64;
        let z: i64 = n.2 as i64 - self.goal.2 as i64;
        if self.grid.flat {
            (if x < 0 {
                -x
            } else {
                x
            }) + (if y < 0 {
                -y
            } else {
                y
            })
        } else {
            proof {
                lemma_apart(n, self.goal);
                assert(0 <= x * x && 0 <= y * y && 0 <= z * z) by (nonlinear_arith);
                assert(x * x <= 0x1_0000_0000 * 0x1_0000_0000) by (nonlinear_arith)
                    requires
                        -0x1_0000_0000 <= x <= 0x1_0000_0000,
                ;
                assert(y * y <= 0x1_0000_0000 * 0x1_0000_0000) by (nonlinear_arith)
                    requires
                        -0x1_0000_0000 <= y <= 0x1_0000_0000,
                ;
                assert(z * z <= 0x1_0000_0000 * 0x1_0000_0000) by (nonlinear_arith)
                    requires
                        -0x1_0000_0000 <= z <= 0x1_0000_0000,
                ;
            }
            let xx: i128 = (x as i128) * (x as i128);
            let yy: i128 = (y as i128) * (y as i128);
            let zz: i128 = (z as i128) * (z as i128);
            let r: u64 = root(1000000u128 * ((xx + yy + zz) as u128));
            proof {
                let m = 1000000 * apart(n, self.goal);
                lemma_root_unique(m, r as int, root_of(m));
            }
            r as i64
        }
    }

    fn is_goal(&self, n: Cell) -> (r: bool) {
        n.0 == self.goal.0 && n.1 == self.goal.1 && n.2 == self.goal.2
    }
}

impl Grid {
    /// Whether the grid's parts fit together.
    fn fits(&self) -> (r: bool)
        ensures
            r == self.wf(),
    {
        if self.flat && self.d != 1 {
            return false;
        }
        if self.w > 0 && self.h > 0 && self.d > 0 {
            let a: i64 = self.w as i64;
            let b: i64 = self.h as i64;
            let c: i64 = self.d as i64;
            proof {
                assert(0 <= a * b <= 0x7fff_ffff * 0x7fff_ffff) by (nonlinear_arith)
                    requires
                        0 <= a <= 0x7fff_ffff,
                        0 <= b <= 0x7fff_ffff,
                ;
            }
            if a * b > 0x7fff_ffff {
                return false;
            }
            proof {
                let p = a * b;
                assert(0 <= p * c <= 0x7fff_ffff * 0x7fff_ffff) by (nonlinear_arith)
                    requires
                        0 <= p <= 0x7fff_ffff,
                        0 <= c <= 0x7fff_ffff,
                ;
            }
            if a * b * c > 0x7fff_ffff {
                return false;
            }
            self.walls.len() as u64 == (a * b * c) as u64
        } else {
            true
        }
    }
}

/// Cell number `i` of a grid.
spec fn cell_at(g: Grid, i: int) -> Cell {
    ((i % g.w as int) as i32, (i / g.w as int % g.h as int) as i32, (i / g.w as int / g.h as int) as i32)
}

spec fn all_cells(g: Grid, start: Cell) -> Seq<Cell> {
    Seq::new(
        (if g.w > 0 && g.h > 0 && g.d > 0 {
            (g.w * g.h * g.d) as nat
        } else {
            0
        }),
        |i: int| cell_at(g, i),
    ).push(start)
}

proof fn lemma_step(g: Grid, c: Cell, k: int, j: int) -> (o: int)
    requires
        g.wf(),
        0 <= k <= tries(g.flat),
        0 <= j < g.steps_to(c, k).len(),
    ensures
        0 <= o < k,
        g.can_go(c, o),
        g.steps_to(c, k)[j].0.0 == g.target(c, o).0,
        g.steps_to(c, k)[j].0.1 == g.target(c, o).1,
        g.steps_to(c, k)[j].0.2 == g.target(c, o).2,
        g.steps_to(c, k)[j].1 == price(g.flat, offset(g.flat, o)),
        0 <= g.steps_to(c, k)[j].1 <= 1732,
        g.flat ==> g.steps_to(c, k)[j].1 == 1,
    decreases k,
{
    if g.can_go(c, k - 1) && j == g.steps_to(c, k).len() - 1 {
        k - 1
    } else {
        lemma_step(g, c, k - 1, j)
    }
}

proof fn lemma_within(s: Search, start: Cell)
    requires
        s.wf(),
    ensures
        exists|cells: Seq<Cell>, c: int, h: int| #[trigger] graph::within(s, start, cells, c, h),
{
    let g = *s.grid;
    let cells = all_cells(g, start);
    assert(cells[cells.len() - 1] == start);
    assert forall|n: Cell, k: int|
        cells.contains(n) && 0 <= k < s.steps(n).len() implies cells.contains(
        (#[trigger] s.steps(n)[k]).0,
    ) && 0 <= s.steps(n)[k].1 <= 1732 by {
        let o = lemma_step(g, n, tries(g.flat), k);
        let t = s.steps(n)[k].0;
        let (x, y, z) = (t.0 as int, t.1 as int, t.2 as int);
        g.lemma_index(x, y, z);
        let i = g.index(x, y, z);
        let r = z * g.h + y;
        lemma_fundamental_div_mod_converse(i, g.w as int, r, x);
        lemma_fundamental_div_mod_converse(r, g.h as int, z, y);
        assert(cells[i] == cell_at(g, i));
        assert(cell_at(g, i) == t);
    }
    assert forall|n: Cell| cells.contains(n) implies 0 <= #[trigger] s.guess(n)
        <= 0x1_0000_0000_0000 by {
        lemma_guess(g.flat, n, s.goal);
    }
    assert(graph::within(s, start, cells, 1732, 0x1_0000_0000_0000));
}

proof fn lemma_guess(flat: bool, n: Cell, goal: Cell)
    ensures
        0 <= guess_of(flat, n, goal) <= 0x1_0000_0000_0000,
        !flat ==> is_root(1000000 * apart(n, goal), guess_of(flat, n, goal)),
{
    if !flat {
        lemma_apart(n, goal);
        let m = 1000000 * apart(n, goal);
        let r = lemma_root_exists(m, 0x1_0000_0000_0000);
        assert(is_root(m, r));
        lemma_root_unique(m, r, root_of(m));
    }
}

proof fn lemma_root_exists(n: int, top: int) -> (r: int)
    requires
        0 <= n,
        0 < top,
        n < top * top,
    ensures
        is_root(n, r),
        r < top,
    decreases top,
{
    if (top - 1) * (top - 1) <= n {
        top - 1
    } else {
        assert(top > 1) by (nonlinear_arith)
            requires
                (top - 1) * (top - 1) > n,
                n >= 0,
                top > 0,
        ;
        lemma_root_exists(n, top - 1)
    }
}

/// One step of a flat grid changes the way along the axes by at most one, so that a
/// guess never exceeds what is left.
proof fn lemma_flat_never_over(s: Search, start: Cell, q: Seq<Cell>)
    requires
        s.wf(),
        s.grid.flat,
        graph::is_route(s, start, q),
    ensures
        graph::over_by(s, q, 0),
{
    assert forall|i: int| 0 <= i < q.len() implies #[trigger] s.guess(q[i]) <= graph::route_cost(
        s,
        q.skip(i),
    ) by {
        let rest = q.skip(i);
        graph::lemma_rest(s, start, q, i);
        lemma_flat_cost(s, q[i], rest);
        lemma_flat_reach(s, rest, rest.len() as int);
    }
}

proof fn lemma_cross(a: int, b: int, c: int, d: int)
    ensures
        (a * a) * (d * d) + (b * b) * (c * c) >= 2 * ((a * c) * (b * d)),
        (a * c) * (a * c) == (a * a) * (c * c),
        (b * d) * (b * d) == (b * b) * (d * d),
{
    let (x, y) = (a * d, b * c);
    assert((a * a) * (d * d) == x * x) by (nonlinear_arith)
        requires
            x == a * d,
    ;
    assert((b * b) * (c * c) == y * y) by (nonlinear_arith)
        requires
            y == b * c,
    ;
    assert((a * c) * (b * d) == x * y) by (nonlinear_arith)
        requires
            x == a * d,
            y == b * c,
    ;
    assert(x * x + y * y >= 2 * (x * y)) by (nonlinear_arith);
    assert((a * c) * (a * c) == (a * a) * (c * c)) by (nonlinear_arith);
    assert((b * d) * (b * d) == (b * b) * (d * d)) by (nonlinear_arith);
}

/// The way over a corner is no shorter than the straight one: `a` and `b` bound the
/// lengths of two vectors in thousandths, and together that of their sum.
proof fn lemma_corner(u: (int, int, int), v: (int, int, int), a: int, b: int)
    requires
        a >= 0,
        b >= 0,
        a * a >= 1000000 * (u.0 * u.0 + u.1 * u.1 + u.2 * u.2),
        b * b >= 1000000 * (v.0 * v.0 + v.1 * v.1 + v.2 * v.2),
    ensures
        (a + b) * (a + b) >= 1000000 * ((u.0 + v.0) * (u.0 + v.0) + (u.1 + v.1) * (u.1 + v.1) + (u.2
            + v.2) * (u.2 + v.2)),
{
    let p = u.0 * u.0 + u.1 * u.1 + u.2 * u.2;
    let q = v.0 * v.0 + v.1 * v.1 + v.2 * v.2;
    let d = u.0 * v.0 + u.1 * v.1 + u.2 * v.2;
    let (u0, u1, u2) = u;
    let (v0, v1, v2) = v;
    lemma_cross(u0, u1, v0, v1);
    lemma_cross(u1, u2, v1, v2);
    lemma_cross(u2, u0, v2, v0);
    let (a0, a1, a2) = (u0 * u0, u1 * u1, u2 * u2);
    let (b0, b1, b2) = (v0 * v0, v1 * v1, v2 * v2);
    let (d0, d1, d2) = (u0 * v0, u1 * v1, u2 * v2);
    assert(p * q == a0 * b0 + a0 * b1 + a0 * b2 + a1 * b0 + a1 * b1 + a1 * b2 + a2 * b0 + a2 * b1
        + a2 * b2) by (nonlinear_arith)
        requires
            p == a0 + a1 + a2,
            q == b0 + b1 + b2,
    ;
    assert(d * d == d0 * d0 + d1 * d1 + d2 * d2 + 2 * (d0 * d1) + 2 * (d1 * d2) + 2 * (d2 * d0))
        by (nonlinear_arith)
        requires
            d == d0 + d1 + d2,
    ;
    assert(p * q >= d * d);
    assert(p >= 0 && q >= 0) by (nonlinear_arith)
        requires
            p == u0 * u0 + u1 * u1 + u2 * u2,
            q == v0 * v0 + v1 * v1 + v2 * v2,
    ;
    let (m, n) = (a * a, b * b);
    assert(m * n >= (1000000 * p) * (1000000 * q)) by (nonlinear_arith)
        requires
            m >= 1000000 * p,
            n >= 1000000 * q,
            p >= 0,
            q >= 0,
    ;
    let c = a * b;
    let e = 1000000 * d;
    assert((1000000 * p) * (1000000 * q) == 1000000000000 * (p * q)) by (nonlinear_arith);
    assert(e * e == 1000000000000 * (d * d)) by (nonlinear_arith)
        requires
            e == 1000000 * d,
    ;
    assert(c * c == m * n) by (nonlinear_arith)
        requires
            c == a * b,
            m == a * a,
            n == b * b,
    ;
    assert(c >= 0) by (nonlinear_arith)
        requires
            c == a * b,
            a >= 0,
            b >= 0,
    ;
    assert(c >= e) by (nonlinear_arith)
        requires
            c * c >= e * e,
            c >= 0,
    ;
    assert((a + b) * (a + b) == m + n + 2 * c) by (nonlinear_arith)
        requires
            c == a * b,
            m == a * a,
            n == b * b,
    ;
    assert((u0 + v0) * (u0 + v0) + (u1 + v1) * (u1 + v1) + (u2 + v2) * (u2 + v2) == p + q + 2 * d)
        by (nonlinear_arith)
        requires
            p == u0 * u0 + u1 * u1 + u2 * u2,
            q == v0 * v0 + v1 * v1 + v2 * v2,
            d == u0 * v0 + u1 * v1 + u2 * v2,
    ;
}

/// A step of a solid grid costs its length in thousandths, less than one too little.
proof fn lemma_solid_hop(s: Search, a: Cell, b: Cell)
    requires
        s.wf(),
        !s.grid.flat,
        graph::next(s, a, b),
    ensures
        graph::hop(s, a, b) >= 0,
        (graph::hop(s, a, b) + 1) * (graph::hop(s, a, b) + 1) >= 1000000 * apart(a, b),
{
    let k = choose|k: int| 0 <= k < s.steps(a).len() && (#[trigger] s.steps(a)[k]).0 == b;
    let o = lemma_step(*s.grid, a, 27, k);
    let off = offset(false, o);
    lemma_offsets(false, o);
    let far = off.0 * off.0 + off.1 * off.1 + off.2 * off.2;
    let c = price(false, off);
    assert(s.steps(a).contains((b, c)));
    assert forall|e: i64| #[trigger] s.steps(a).contains((b, e)) implies e == c by {
        let j = choose|j: int| 0 <= j < s.steps(a).len() && s.steps(a)[j] == (b, e);
        let o2 = lemma_step(*s.grid, a, 27, j);
        assert(offset(false, o2) == off);
    }
    assert(graph::hop(s, a, b) == c);
    let (x, y, z) = (a.0 - b.0, a.1 - b.1, a.2 - b.2);
    assert(x * x == off.0 * off.0) by (nonlinear_arith)
        requires
            x == -off.0,
    ;
    assert(y * y == off.1 * off.1) by (nonlinear_arith)
        requires
            y == -off.1,
    ;
    assert(z * z == off.2 * off.2) by (nonlinear_arith)
        requires
            z == -off.2,
    ;
    assert(apart(a, b) == far);
    assert(off.0 * off.0 <= 1 && off.1 * off.1 <= 1 && off.2 * off.2 <= 1) by (nonlinear_arith)
        requires
            -1 <= off.0 <= 1,
            -1 <= off.1 <= 1,
            -1 <= off.2 <= 1,
    ;
    assert(far != 0) by (nonlinear_arith)
        requires
            far == off.0 * off.0 + off.1 * off.1 + off.2 * off.2,
            off != (0int, 0int, 0int),
    ;
    assert(1001 * 1001 >= 1000000 && 1415 * 1415 >= 2000000 && 1733 * 1733 >= 3000000);
}

/// One more thousandth per step covers the straight line to the goal.
proof fn lemma_solid_reach(s: Search, q: Seq<Cell>)
    requires
        s.wf(),
        !s.grid.flat,
        q.len() > 0,
        q.last() == s.goal,
        forall|i: int| 0 <= i < q.len() - 1 ==> #[trigger] graph::next(s, q[i], q[i + 1]),
    ensures
        graph::route_cost(s, q) >= 0,
        (graph::route_cost(s, q) + q.len() - 1) * (graph::route_cost(s, q) + q.len() - 1) >= 1000000
            * apart(q[0], s.goal),
    decreases q.len(),
{
    if q.len() > 1 {
        let rest = q.drop_first();
        assert forall|i: int| 0 <= i < rest.len() - 1 implies #[trigger] graph::next(
            s,
            rest[i],
            rest[i + 1],
        ) by {
            assert(graph::next(s, q[i + 1], q[i + 1 + 1]));
        }
        lemma_solid_reach(s, rest);
        assert(graph::next(s, q[0int], q[0int + 1]));
        lemma_solid_hop(s, q[0], q[1]);
        graph::lemma_first_step(s, q);
        let a = graph::route_cost(s, rest) + rest.len() - 1;
        let b = graph::hop(s, q[0], q[1]) + 1;
        let u = (q[1].0 - s.goal.0, q[1].1 - s.goal.1, q[1].2 - s.goal.2);
        let v = (q[0].0 - q[1].0, q[0].1 - q[1].1, q[0].2 - q[1].2);
        lemma_corner(u, v, a, b);
        assert(graph::route_cost(s, q) + q.len() - 1 == a + b);
    } else {
        assert(graph::route_cost(s, q) == 0);
        assert(apart(q[0], s.goal) == 0);
    }
}

/// The cut fractions make a guess of a solid grid exceed what is left by less than
/// one thousandth for every step.
proof fn lemma_solid_over(s: Search, start: Cell, q: Seq<Cell>)
    requires
        s.wf(),
        !s.grid.flat,
        graph::is_route(s, start, q),
    ensures
        graph::over_by(s, q, q.len() - 1),
{
    assert forall|i: int| 0 <= i < q.len() implies #[trigger] s.guess(q[i]) <= graph::route_cost(
        s,
        q.skip(i),
    ) + (q.len() - 1) by {
        let rest = q.skip(i);
        graph::lemma_rest(s, start, q, i);
        lemma_solid_reach(s, rest);
        lemma_guess(false, q[i], s.goal);
        let r = s.guess(q[i]);
        let far = graph::route_cost(s, rest) + rest.len() - 1;
        assert(r <= far) by (nonlinear_arith)
            requires
                r * r <= far * far,
                far >= 0,
        ;
    }
}

/// A flat route costs one per step.
proof fn lemma_flat_cost(s: Search, n: Cell, q: Seq<Cell>)
    requires
        s.wf(),
        s.grid.flat,
        q.len() > 0,
        forall|i: int| 0 <= i < q.len() - 1 ==> #[trigger] graph::next(s, q[i], q[i + 1]),
    ensures
        graph::route_cost(s, q) == q.len() - 1,
    decreases q.len(),
{
    if q.len() > 1 {
        let p = q.drop_last();
        assert forall|i: int| 0 <= i < p.len() - 1 implies #[trigger] graph::next(
            s,
            p[i],
            p[i + 1],
        ) by {
            assert(graph::next(s, q[i], q[i + 1]));
        }
        lemma_flat_cost(s, n, p);
        let (a, b) = (q[q.len() - 2], q.last());
        assert(graph::next(s, q[q.len() - 2], q[q.len() - 2 + 1]));
        let k = choose|k: int| 0 <= k < s.steps(a).len() && (#[trigger] s.steps(a)[k]).0 == b;
        let o = lemma_step(*s.grid, a, 4, k);
        assert(s.steps(a)[k] == (b, 1i64));
        assert(s.steps(a).contains((b, 1i64)));
        assert forall|e: i64| #[trigger] s.steps(a).contains((b, e)) implies e == 1 by {
            let j = choose|j: int| 0 <= j < s.steps(a).len() && s.steps(a)[j] == (b, e);
            let o2 = lemma_step(*s.grid, a, 4, j);
        }
        let c = graph::hop(s, a, b);
        assert(s.steps(a).contains((b, 1i64)) && forall|e: i64| #[trigger]
            s.steps(a).contains((b, e)) ==> 1 <= e);
        assert(s.steps(a).contains((b, c)));
    }
}

/// After `m` cells of a flat route one is no further from its start than steps were
/// taken.
proof fn lemma_flat_reach(s: Search, q: Seq<Cell>, m: int)
    requires
        s.wf(),
        s.grid.flat,
        0 < m <= q.len(),
        forall|i: int| 0 <= i < q.len() - 1 ==> #[trigger] graph::next(s, q[i], q[i + 1]),
    ensures
        abs(q[0].0 - q[m - 1].0) + abs(q[0].1 - q[m - 1].1) <= m - 1,
    decreases m,
{
    if m > 1 {
        lemma_flat_reach(s, q, m - 1);
        let (a, b) = (q[m - 2], q[m - 1]);
        assert(graph::next(s, q[m - 2], q[m - 2 + 1]));
        let k = choose|k: int| 0 <= k < s.steps(a).len() && (#[trigger] s.steps(a)[k]).0 == b;
        let o = lemma_step(*s.grid, a, 4, k);
        lemma_offsets(true, o);
    }
}

/// The part of a number that a 32-bit one keeps.
fn narrow(n: i64) -> (r: i32)
    ensures
        r == n as i32,
{
    #[verifier::truncate]
    (n as i32)
}

/// A side length as a grid takes it.
pub open spec fn side(n: i64) -> i32 {
    (if n > 0 {
        n
    } else {
        0
    }) as i32
}

fn side_of(n: i64) -> (r: i32)
    ensures
        r == side(n),
{
    narrow(
        if n > 0 {
            n
        } else {
            0
        },
    )
}

/// A flat grid and the last route found in it.
pub struct Nav {
    pub grid: Grid,
    pub path: Vec<Cell>,
}

/// A solid grid and the last route found in it.
pub struct Grid3 {
    pub grid: Grid,
    pub path: Vec<Cell>,
}

fn filled(n: usize) -> (v: Vec<bool>)
    ensures
        v@.len() == n,
        forall|i: int| 0 <= i < n ==> !v@[i],
{
    vec![false; n]
}

impl Nav {
    pub open spec fn wf(self) -> bool {
        self.grid.wf() && self.grid.flat
    }

    /// Whether `p` is a route in the grid as it is.
    pub open spec fn is_route(self, start: Cell, goal: Cell, p: Seq<Cell>) -> bool {
        graph::is_route(Search { grid: &self.grid, goal }, start, p)
    }

    /// A grid without walls. A negative side counts as none.
    pub fn nav_init(w: i64, h: i64) -> (n: Nav)
        requires
            i32::MIN <= side(w) * side(h) <= i32::MAX,
        ensures
            n.wf(),
            n.grid.w == side(w),
            n.grid.h == side(h),
            forall|i: int| 0 <= i < n.grid.walls@.len() ==> !n.grid.walls@[i],
            n.path@.len() == 0,
    {
        let w: i32 = side_of(w);
        let h: i32 = side_of(h);
        let n: i32 = w * h;
        let count: usize = if n > 0 {
            n as usize
        } else {
            0
        };
        proof {
            assert(w * h * 1 == w * h);
            if w > 0 && h > 0 {
                assert(w * h > 0) by (nonlinear_arith)
                    requires
                        w > 0,
                        h > 0,
                ;
            }
        }
        Nav { grid: Grid { w, h, d: 1, walls: filled(count), flat: true }, path: Vec::new() }
    }

    /// Set or clear a wall. Outside the grid nothing happens.
    pub fn nav_wall(&mut self, x: i64, y: i64, blocked: bool)
        requires
            old(self).wf(),
        ensures
            final(self).wf(),
            final(self).path == old(self).path,
            final(self).grid == (Grid { walls: final(self).grid.walls, ..old(self).grid }),
            final(self).grid.walls@ == (if x >= 0 && y >= 0 && old(self).grid.inside(
                x as i32 as int,
                y as i32 as int,
                0,
            ) {
                old(self).grid.walls@.update(
                    old(self).grid.index(x as i32 as int, y as i32 as int, 0),
                    blocked,
                )
            } else {
                old(self).grid.walls@
            }),
    {
        if x >= 0 && y >= 0 {
            self.grid.set_wall(narrow(x), narrow(y), 0, blocked);
        }
    }

    /// Find a shortest route and keep it. Returns how many cells it has, or -1 where
    /// there is none.
    pub fn nav_find(&mut self, sx: i64, sy: i64, gx: i64, gy: i64) -> (r: i64)
        requires
            old(self).wf(),
        ensures
            final(self).wf(),
            final(self).grid == old(self).grid,
            ({
                let start: Cell = (sx as i32, sy as i32, 0);
                let goal: Cell = (gx as i32, gy as i32, 0);
                if exists|p: Seq<Cell>| old(self).is_route(start, goal, p) {
                    &&& old(self).is_route(start, goal, final(self).path@)
                    &&& r == final(self).path@.len()
                    &&& final(self).path@.no_duplicates()
                    &&& forall|q: Seq<Cell>| #[trigger]
                        old(self).is_route(start, goal, q) ==> r <= q.len()
                } else {
                    r == -1 && final(self).path@.len() == 0
                }
            }),
    {
        let start: Cell = (narrow(sx), narrow(sy), 0);
        let goal: Cell = (narrow(gx), narrow(gy), 0);
        let s = Search { grid: &self.grid, goal };
        proof {
            lemma_within(s, start);
        }
        match astar(&s, start) {
            Some(path) => {
                let ghost p = path@;
                proof {
                    assert(self.is_route(start, goal, p));
                    lemma_flat_cost(s, start, p);
                    assert forall|q: Seq<Cell>| #[trigger] self.is_route(start, goal, q) implies p.len()
                        <= q.len() by {
                        lemma_flat_never_over(s, start, q);
                        lemma_flat_cost(s, start, q);
                    }
                    lemma_route_fits(s, start, p);
                }
                let len: i64 = path.len() as i64;
                self.path = path;
                len
            },
            None => {
                proof {
                    assert forall|p: Seq<Cell>| !self.is_route(start, goal, p) by {}
                }
                self.path.clear();
                -1
            },
        }
    }

    /// The first coordinate of cell `i` of the route, or -1 where there is none. A
    /// negative `i` counts as the first.
    pub fn nav_x(&self, i: i64) -> (r: i64)
        ensures
            r == path_cell(self.path@, i, 0),
    {
        cell_of(&self.path, i, 0)
    }

    /// The second coordinate.
    pub fn nav_y(&self, i: i64) -> (r: i64)
        ensures
            r == path_cell(self.path@, i, 1),
    {
        cell_of(&self.path, i, 1)
    }
}

/// A route that visits no cell twice has no more cells than a grid and a start.
proof fn lemma_route_fits(s: Search, start: Cell, p: Seq<Cell>)
    requires
        s.wf(),
        graph::is_route(s, start, p),
        p.no_duplicates(),
    ensures
        p.len() <= i32::MAX + 1,
{
    let g = *s.grid;
    let cells = all_cells(g, start);
    assert forall|i: int| 0 <= i < p.len() implies cells.contains(#[trigger] p[i]) by {
        if i == 0 {
            assert(cells[cells.len() - 1] == start);
        } else {
            assert(graph::next(s, p[i - 1], p[i - 1 + 1]));
            let a = p[i - 1];
            let k = choose|k: int| 0 <= k < s.steps(a).len() && (#[trigger] s.steps(a)[k]).0 == p[i];
            let o = lemma_step(g, a, tries(g.flat), k);
            let t = p[i];
            let (x, y, z) = (t.0 as int, t.1 as int, t.2 as int);
            g.lemma_index(x, y, z);
            let m = g.index(x, y, z);
            let r = z * g.h + y;
            lemma_fundamental_div_mod_converse(m, g.w as int, r, x);
            lemma_fundamental_div_mod_converse(r, g.h as int, z, y);
            assert(cells[m] == cell_at(g, m));
        }
    }
    p.unique_seq_to_set();
    assert(p.to_set().subset_of(cells.to_set()));
    vstd::set_lib::lemma_len_subset(p.to_set(), cells.to_set());
    vstd::seq_lib::seq_to_set_is_finite(cells);
    cells.lemma_cardinality_of_set();
}

/// Coordinate `axis` of cell `i` of a route, or -1 where there is none. A negative
/// `i` counts as the first.
pub open spec fn path_cell(p: Seq<Cell>, i: i64, axis: int) -> int {
    let at = if i > 0 {
        i as int
    } else {
        0
    };
    if at < p.len() {
        if axis == 0 {
            p[at].0 as int
        } else if axis == 1 {
            p[at].1 as int
        } else {
            p[at].2 as int
        }
    } else {
        -1
    }
}

fn cell_of(p: &Vec<Cell>, i: i64, axis: i64) -> (r: i64)
    ensures
        r == path_cell(p@, i, axis as int),
{
    let at: u64 = if i > 0 {
        i as u64
    } else {
        0
    };
    if at < p.len() as u64 {
        let c = p[at as usize];
        if axis == 0 {
            c.0 as i64
        } else if axis == 1 {
            c.1 as i64
        } else {
            c.2 as i64
        }
    } else {
        -1
    }
}

impl Grid3 {
    pub open spec fn wf(self) -> bool {
        self.grid.wf() && !self.grid.flat
    }

    /// Whether `p` is a route in the grid as it is.
    pub open spec fn is_route(self, start: Cell, goal: Cell, p: Seq<Cell>) -> bool {
        graph::is_route(Search { grid: &self.grid, goal }, start, p)
    }

    /// What a route costs: the lengths of its steps in thousandths, the fractions cut
    /// off.
    pub open spec fn cost(self, goal: Cell, p: Seq<Cell>) -> int {
        graph::route_cost(Search { grid: &self.grid, goal }, p)
    }

    /// A grid without walls. A negative side counts as none.
    pub fn nav3d_init(w: i64, h: i64, d: i64) -> (n: Grid3)
        requires
            i32::MIN <= side(w) * side(h) <= i32::MAX,
            i32::MIN <= side(w) * side(h) * side(d) <= i32::MAX,
        ensures
            n.wf(),
            n.grid.w == side(w),
            n.grid.h == side(h),
            n.grid.d == side(d),
            forall|i: int| 0 <= i < n.grid.walls@.len() ==> !n.grid.walls@[i],
            n.path@.len() == 0,
    {
        let w: i32 = side_of(w);
        let h: i32 = side_of(h);
        let d: i32 = side_of(d);
        let n: i32 = w * h * d;
        let count: usize = if n > 0 {
            n as usize
        } else {
            0
        };
        proof {
            if w > 0 && h > 0 && d > 0 {
                let p = w * h;
                assert(p > 0) by (nonlinear_arith)
                    requires
                        p == w * h,
                        w > 0,
                        h > 0,
                ;
                assert(p * d > 0) by (nonlinear_arith)
                    requires
                        p > 0,
                        d > 0,
                ;
            }
        }
        Grid3 { grid: Grid { w, h, d, walls: filled(count), flat: false }, path: Vec::new() }
    }

    /// Set or clear a wall. Outside the grid nothing happens.
    pub fn nav3d_wall(&mut self, x: i64, y: i64, z: i64, blocked: bool)
        requires
            old(self).wf(),
        ensures
            final(self).wf(),
            final(self).path == old(self).path,
            final(self).grid == (Grid { walls: final(self).grid.walls, ..old(self).grid }),
            final(self).grid.walls@ == (if old(self).grid.inside(
                x as i32 as int,
                y as i32 as int,
                z as i32 as int,
            ) {
                old(self).grid.walls@.update(
                    old(self).grid.index(x as i32 as int, y as i32 as int, z as i32 as int),
                    blocked,
                )
            } else {
                old(self).grid.walls@
            }),
    {
        self.grid.set_wall(narrow(x), narrow(y), narrow(z), blocked);
    }

    /// Find a route and keep it. Returns how many cells it has, or -1 where there is
    /// none. The fractions cut off the costs can make the search pass over the shortest
    /// route, but no route is shorter by more than a thousandth of a cell for every
    /// step of it.
    pub fn nav3d_find(&mut self, sx: i64, sy: i64, sz: i64, gx: i64, gy: i64, gz: i64) -> (r: i64)
        requires
            old(self).wf(),
        ensures
            final(self).wf(),
            final(self).grid == old(self).grid,
            ({
                let start: Cell = (sx as i32, sy as i32, sz as i32);
                let goal: Cell = (gx as i32, gy as i32, gz as i32);
                if exists|p: Seq<Cell>| old(self).is_route(start, goal, p) {
                    &&& old(self).is_route(start, goal, final(self).path@)
                    &&& r == final(self).path@.len()
                    &&& final(self).path@.no_duplicates()
                    &&& forall|q: Seq<Cell>| #[trigger]
                        old(self).is_route(start, goal, q) ==> old(self).cost(
                            goal,
                            final(self).path@,
                        ) <= old(self).cost(goal, q) + q.len() - 1
                } else {
                    r == -1 && final(self).path@.len() == 0
                }
            }),
    {
        let start: Cell = (narrow(sx), narrow(sy), narrow(sz));
        let goal: Cell = (narrow(gx), narrow(gy), narrow(gz));
        let s = Search { grid: &self.grid, goal };
        proof {
            lemma_within(s, start);
        }
        match astar(&s, start) {
            Some(path) => {
                proof {
                    assert(self.is_route(start, goal, path@));
                    assert forall|q: Seq<Cell>| #[trigger]
                        self.is_route(start, goal, q) implies self.cost(goal, path@) <= self.cost(
                        goal,
                        q,
                    ) + q.len() - 1 by {
                        lemma_solid_over(s, start, q);
                    }
                    lemma_route_fits(s, start, path@);
                }
                let len: i64 = path.len() as i64;
                self.path = path;
                len
            },
            None => {
                proof {
                    assert forall|p: Seq<Cell>| !self.is_route(start, goal, p) by {}
                }
                self.path.clear();
                -1
            },
        }
    }

    /// The first coordinate of cell `i` of the route, or -1 where there is none. A
    /// negative `i` counts as the first.
    pub fn nav3d_x(&self, i: i64) -> (r: i64)
        ensures
            r == path_cell(self.path@, i, 0),
    {
        cell_of(&self.path, i, 0)
    }

    /// The second coordinate.
    pub fn nav3d_y(&self, i: i64) -> (r: i64)
        ensures
            r == path_cell(self.path@, i, 1),
    {
        cell_of(&self.path, i, 1)
    }

    /// The third coordinate.
    pub fn nav3d_z(&self, i: i64) -> (r: i64)
        ensures
            r == path_cell(self.path@, i, 2),
    {
        cell_of(&self.path, i, 2)
    }
}

/// A route enters open cells only: every cell but its first is inside the grid and
/// no wall.
pub proof fn law_routes_keep_out_of_walls(s: Search, start: Cell, p: Seq<Cell>, i: int)
    requires
        s.wf(),
        graph::is_route(s, start, p),
        0 < i < p.len(),
    ensures
        s.grid.is_open(p[i].0 as int, p[i].1 as int, p[i].2 as int),
{
    assert(graph::next(s, p[i - 1], p[i - 1 + 1]));
    let a = p[i - 1];
    let k = choose|k: int| 0 <= k < s.steps(a).len() && (#[trigger] s.steps(a)[k]).0 == p[i];
    let o = lemma_step(*s.grid, a, tries(s.grid.flat), k);
}

/// No route of a flat grid is shorter than the way along the axes.
pub proof fn law_no_route_beats_the_axes(s: Search, start: Cell, p: Seq<Cell>)
    requires
        s.wf(),
        s.grid.flat,
        graph::is_route(s, start, p),
    ensures
        abs(start.0 - s.goal.0) + abs(start.1 - s.goal.1) <= p.len() - 1,
{
    lemma_flat_reach(s, p, p.len() as int);
}

/// One can go from a cell to another exactly where the other is inside the grid, is no
/// wall, and touches the first: in a flat grid along one of the first two axes, in a
/// solid one along any axis or across an edge or a corner.
pub proof fn law_steps_reach_every_neighbour(s: Search, a: Cell, b: Cell)
    requires
        s.wf(),
    ensures
        graph::next(s, a, b) <==> {
            &&& 0 <= b.0 < s.grid.w && 0 <= b.1 < s.grid.h && 0 <= b.2 < s.grid.d
            &&& s.grid.is_open(b.0 as int, b.1 as int, b.2 as int)
            &&& if s.grid.flat {
                b.2 == a.2 && abs(b.0 - a.0) + abs(b.1 - a.1) == 1
            } else {
                a != b && -1 <= b.0 - a.0 <= 1 && -1 <= b.1 - a.1 <= 1 && -1 <= b.2 - a.2 <= 1
            }
        },
{
    let g = *s.grid;
    let all = tries(g.flat);
    if graph::next(s, a, b) {
        let j = choose|j: int| 0 <= j < s.steps(a).len() && (#[trigger] s.steps(a)[j]).0 == b;
        let o = lemma_step(g, a, all, j);
        lemma_offsets(g.flat, o);
    }
    let (x, y, z) = (b.0 - a.0, b.1 - a.1, b.2 - a.2);
    if g.is_open(b.0 as int, b.1 as int, b.2 as int) {
        if g.flat && z == 0 && abs(x) + abs(y) == 1 {
            let k = if x == 1 {
                0int
            } else if x == -1 {
                1
            } else if y == 1 {
                2
            } else {
                3
            };
            lemma_taken(g, a, k, all);
            assert(g.steps_to(a, all) == s.steps(a));
            assert(graph::next(s, a, b));
        } else if !g.flat && a != b && -1 <= x <= 1 && -1 <= y <= 1 && -1 <= z <= 1 {
            let k = (z + 1) * 9 + (y + 1) * 3 + (x + 1);
            assert(offset(false, k) == (x, y, z));
            lemma_taken(g, a, k, all);
            assert(g.steps_to(a, all) == s.steps(a));
            assert(graph::next(s, a, b));
        }
    }
}

/// A step that can be taken is among the steps.
proof fn lemma_taken(g: Grid, c: Cell, k: int, all: int)
    requires
        g.wf(),
        0 <= k < all <= tries(g.flat),
        g.can_go(c, k),
        i32::MIN <= g.target(c, k).0 <= i32::MAX,
        i32::MIN <= g.target(c, k).1 <= i32::MAX,
        i32::MIN <= g.target(c, k).2 <= i32::MAX,
    ensures
        exists|j: int|
            0 <= j < g.steps_to(c, all).len() && (#[trigger] g.steps_to(c, all)[j]).0 == (
                g.target(c, k).0 as i32,
                g.target(c, k).1 as i32,
                g.target(c, k).2 as i32,
            ),
    decreases all,
{
    let t = g.target(c, k);
    let to: Cell = (t.0 as i32, t.1 as i32, t.2 as i32);
    if k == all - 1 {
        let last = g.steps_to(c, all);
        assert(last[last.len() - 1].0 == to);
    } else {
        lemma_taken(g, c, k, all - 1);
        let before = g.steps_to(c, all - 1);
        let j = choose|j: int| 0 <= j < before.len() && (#[trigger] before[j]).0 == to;
        assert(g.steps_to(c, all)[j].0 == to);
    }
}

/// Between two open cells one can go both ways or neither.
pub proof fn law_steps_go_both_ways(s: Search, a: Cell, b: Cell)
    requires
        s.wf(),
        s.grid.is_open(a.0 as int, a.1 as int, a.2 as int),
        s.grid.is_open(b.0 as int, b.1 as int, b.2 as int),
    ensures
        graph::next(s, a, b) <==> graph::next(s, b, a),
{
    law_steps_reach_every_neighbour(s, a, b);
    law_steps_reach_every_neighbour(s, b, a);
}

/// A route between two open cells, walked backwards, is a route the other way.
pub proof fn law_routes_turn_round(s: Search, back: Search, start: Cell, p: Seq<Cell>)
    requires
        s.wf(),
        back.grid == s.grid,
        back.goal == start,
        s.grid.is_open(start.0 as int, start.1 as int, start.2 as int),
        graph::is_route(s, start, p),
    ensures
        graph::is_route(back, s.goal, p.reverse()),
{
    let r = p.reverse();
    assert forall|i: int| 0 <= i < r.len() - 1 implies #[trigger] graph::next(
        back,
        r[i],
        r[i + 1],
    ) by {
        let k = p.len() - 2 - i;
        assert(graph::next(s, p[k], p[k + 1]));
        if k > 0 {
            law_routes_keep_out_of_walls(s, start, p, k);
        }
        law_routes_keep_out_of_walls(s, start, p, k + 1);
        law_steps_reach_every_neighbour(s, p[k], p[k + 1]);
        law_steps_reach_every_neighbour(back, p[k + 1], p[k]);
    }
}

/// The cell after `a` on the straight way to `b`.
spec fn ahead(flat: bool, a: Cell, b: Cell) -> Cell {
    let x = toward(a.0, b.0);
    if flat {
        if a.0 != b.0 {
            (x, a.1, a.2)
        } else {
            (a.0, toward(a.1, b.1), a.2)
        }
    } else {
        (x, toward(a.1, b.1), toward(a.2, b.2))
    }
}

spec fn toward(a: i32, b: i32) -> i32 {
    if a < b {
        (a + 1) as i32
    } else if b < a {
        (a - 1) as i32
    } else {
        a
    }
}

/// How many steps two cells of a grid without walls are apart: along the axes one
/// after the other in a flat grid, along all of them at once in a solid one.
pub open spec fn steps_apart(flat: bool, a: Cell, b: Cell) -> int {
    let (x, y, z) = (abs(a.0 - b.0), abs(a.1 - b.1), abs(a.2 - b.2));
    if flat {
        x + y
    } else if x >= y && x >= z {
        x
    } else if y >= z {
        y
    } else {
        z
    }
}

/// In a grid without walls there is a route between any two cells inside it, and it has
/// no more steps than the cells are apart.
pub proof fn law_open_grids_can_be_crossed(s: Search, start: Cell) -> (p: Seq<Cell>)
    requires
        s.wf(),
        s.grid.inside(start.0 as int, start.1 as int, start.2 as int),
        s.grid.inside(s.goal.0 as int, s.goal.1 as int, s.goal.2 as int),
        forall|i: int| 0 <= i < s.grid.walls@.len() ==> !s.grid.walls@[i],
    ensures
        graph::is_route(s, start, p),
        p.len() == steps_apart(s.grid.flat, start, s.goal) + 1,
    decreases steps_apart(s.grid.flat, start, s.goal),
{
    let g = *s.grid;
    if start == s.goal {
        seq![start]
    } else {
        let n = ahead(g.flat, start, s.goal);
        g.lemma_index(n.0 as int, n.1 as int, n.2 as int);
        law_steps_reach_every_neighbour(s, start, n);
        let rest = law_open_grids_can_be_crossed(s, n);
        let p = seq![start] + rest;
        assert forall|i: int| 0 <= i < p.len() - 1 implies #[trigger] graph::next(
            s,
            p[i],
            p[i + 1],
        ) by {
            if i > 0 {
                assert(graph::next(s, rest[i - 1], rest[i - 1 + 1]));
            }
        }
        p
    }
}

/// Different cells of a grid have walls of their own: setting or clearing one changes
/// whether that cell is open, and no other.
pub proof fn law_walls_close_their_cell(
    g: Grid,
    after: Grid,
    at: (int, int, int),
    c: (int, int, int),
    blocked: bool,
)
    requires
        g.wf(),
        g.inside(at.0, at.1, at.2),
        after.w == g.w,
        after.h == g.h,
        after.d == g.d,
        after.walls@ == g.walls@.update(g.index(at.0, at.1, at.2), blocked),
    ensures
        after.is_open(c.0, c.1, c.2) == (if c == at {
            !blocked
        } else {
            g.is_open(c.0, c.1, c.2)
        }),
{
    g.lemma_index(at.0, at.1, at.2);
    if g.inside(c.0, c.1, c.2) {
        g.lemma_index(c.0, c.1, c.2);
        let (m, n) = (g.index(at.0, at.1, at.2), g.index(c.0, c.1, c.2));
        let (r, q) = (at.2 * g.h + at.1, c.2 * g.h + c.1);
        lemma_fundamental_div_mod_converse(m, g.w as int, r, at.0);
        lemma_fundamental_div_mod_converse(n, g.w as int, q, c.0);
        lemma_fundamental_div_mod_converse(r, g.h as int, at.2, at.1);
        lemma_fundamental_div_mod_converse(q, g.h as int, c.2, c.1);
    }
}

/// Every step of a flat grid costs one. A step of a solid grid costs its length in
/// thousandths of a cell, the fraction cut off.
pub proof fn law_steps_cost_their_length(s: Search, a: Cell, j: int)
    requires
        s.wf(),
        0 <= j < s.steps(a).len(),
    ensures
        ({
            let (b, cost) = s.steps(a)[j];
            let (x, y, z) = (b.0 - a.0, b.1 - a.1, b.2 - a.2);
            let length = 1000000 * (x * x + y * y + z * z);
            if s.grid.flat {
                cost == 1
            } else {
                cost > 0 && cost * cost <= length < (cost + 1) * (cost + 1)
            }
        }),
{
    let g = *s.grid;
    let o = lemma_step(g, a, tries(g.flat), j);
    lemma_offsets(g.flat, o);
    let (x, y, z) = offset(g.flat, o);
    lemma_unit_square(x);
    lemma_unit_square(y);
    lemma_unit_square(z);
    let cost = s.steps(a)[j].1;
    if !g.flat {
        assert(cost == 1000 || cost == 1414 || cost == 1732);
        assert(1000 * 1000 == 1000000 && 1001 * 1001 == 1002001) by (nonlinear_arith);
        assert(1414 * 1414 == 1999396 && 1415 * 1415 == 2002225) by (nonlinear_arith);
        assert(1732 * 1732 == 2999824 && 1733 * 1733 == 3003289) by (nonlinear_arith);
    }
}

proof fn lemma_unit_square(x: int)
    requires
        -1 <= x <= 1,
    ensures
        x * x == abs(x),
{
    assert(x == 0 || x == 1 || x == -1);
    if x == -1 {
        assert((-1int) * (-1int) == 1) by (nonlinear_arith);
    }
}

/// The guess of a flat grid is the number of steps along the axes. That of a solid grid
/// is the distance in thousandths of a cell, the fraction cut off.
pub proof fn law_guesses_are_distances(s: Search, n: Cell)
    ensures
        ({
            let (x, y, z) = (n.0 - s.goal.0, n.1 - s.goal.1, n.2 - s.goal.2);
            let length = 1000000 * (x * x + y * y + z * z);
            let guess = s.guess(n);
            if s.grid.flat {
                guess == abs(x) + abs(y)
            } else {
                guess >= 0 && guess * guess <= length < (guess + 1) * (guess + 1)
            }
        }),
{
    if !s.grid.flat {
        lemma_apart(n, s.goal);
        let r = lemma_root_exists(1000000 * apart(n, s.goal), 0x1_0000_0000_0000);
        assert(is_root(1000000 * apart(n, s.goal), r));
    }
}

/// A route is read back cell by cell, each coordinate on its own axis. Before its first
/// cell stands the first; past its last there is -1.
pub proof fn law_routes_are_read_back(p: Seq<Cell>, i: i64)
    ensures
        0 <= i < p.len() ==> p[i as int] == (
            path_cell(p, i, 0) as i32,
            path_cell(p, i, 1) as i32,
            path_cell(p, i, 2) as i32,
        ),
        i >= p.len() ==> forall|axis: int| #[trigger] path_cell(p, i, axis) == -1,
        i < 0 ==> forall|axis: int| #[trigger] path_cell(p, i, axis) == path_cell(p, 0, axis),
{
}

/// A side is the number given where it is positive and fits, and nothing where it is
/// negative.
pub proof fn law_sides_are_not_negative(n: i64)
    ensures
        n <= 0 ==> side(n) == 0,
        0 <= n <= i32::MAX ==> side(n) == n,
{
}

/// A route of a flat grid costs one for every step of it.
pub proof fn law_flat_routes_cost_their_steps(s: Search, start: Cell, p: Seq<Cell>)
    requires
        s.wf(),
        s.grid.flat,
        graph::is_route(s, start, p),
    ensures
        graph::route_cost(s, p) == p.len() - 1,
{
    lemma_flat_cost(s, start, p);
}

/// A step of a solid grid costs its length in thousandths of a cell, and a route what its
/// steps cost together.
pub proof fn law_solid_routes_cost_their_lengths(s: Search, start: Cell, p: Seq<Cell>)
    requires
        s.wf(),
        !s.grid.flat,
        graph::is_route(s, start, p),
        p.len() > 1,
    ensures
        ({
            let (a, b) = (p[p.len() - 2], p.last());
            let (x, y, z) = (b.0 - a.0, b.1 - a.1, b.2 - a.2);
            let length = 1000000 * (x * x + y * y + z * z);
            let step = graph::route_cost(s, p) - graph::route_cost(s, p.drop_last());
            step > 0 && step * step <= length < (step + 1) * (step + 1)
        }),
{
    let (a, b) = (p[p.len() - 2], p.last());
    let n = p.len() - 2;
    assert(graph::next(s, p[n], p[n + 1]));
    let j = choose|j: int| 0 <= j < s.steps(a).len() && (#[trigger] s.steps(a)[j]).0 == b;
    law_steps_cost_their_length(s, a, j);
    let c = s.steps(a)[j].1;
    assert(s.steps(a)[j] == (b, c));
    assert(s.steps(a).contains((b, c)));
    assert forall|e: i64| #[trigger] s.steps(a).contains((b, e)) implies c <= e by {
        let i = choose|i: int| 0 <= i < s.steps(a).len() && s.steps(a)[i] == (b, e);
        law_steps_cost_their_length(s, a, i);
        let (x, y, z) = (b.0 - a.0, b.1 - a.1, b.2 - a.2);
        let length = 1000000 * (x * x + y * y + z * z);
        if e < c {
            assert((e + 1) * (e + 1) <= c * c) by (nonlinear_arith)
                requires
                    0 < e < c,
            ;
        }
    }
    let h = graph::hop(s, a, b);
    assert(s.steps(a).contains((b, h)));
    let i = choose|i: int| 0 <= i < s.steps(a).len() && s.steps(a)[i] == (b, h);
    law_steps_cost_their_length(s, a, i);
}

/// Whether cell `i` of a list and the one behind it touch as the grid asks, the second one
/// open.
pub open spec fn goes_on(g: Grid, p: Seq<Cell>, i: int) -> bool {
    let (a, b) = (p[i], p[i + 1]);
    let (x, y, z) = (abs(b.0 - a.0), abs(b.1 - a.1), abs(b.2 - a.2));
    &&& g.is_open(b.0 as int, b.1 as int, b.2 as int)
    &&& if g.flat {
        x + y == 1 && z == 0
    } else {
        a != b && x <= 1 && y <= 1 && z <= 1
    }
}

/// A route begins at its start, ends at the goal, and goes from each cell to an open one
/// that touches it; and every list of cells that does so is a route.
pub proof fn law_routes_lead_from_start_to_goal(s: Search, start: Cell, p: Seq<Cell>)
    requires
        s.wf(),
    ensures
        graph::is_route(s, start, p) <==> {
            &&& p.len() > 0
            &&& p[0] == start
            &&& p[p.len() - 1] == s.goal
            &&& forall|i: int| 0 <= i < p.len() - 1 ==> #[trigger] goes_on(*s.grid, p, i)
        },
{
    assert forall|i: int| 0 <= i < p.len() - 1 implies graph::next(s, #[trigger] p[i], p[i + 1])
        == goes_on(*s.grid, p, i) by {
        law_steps_reach_every_neighbour(s, p[i], p[i + 1]);
    }
    if graph::is_route(s, start, p) {
        assert forall|i: int| 0 <= i < p.len() - 1 implies #[trigger] goes_on(*s.grid, p, i) by {
            assert(graph::next(s, p[i], p[i + 1]));
        }
    }
    if p.len() > 0 && p[0] == start && p[p.len() - 1] == s.goal && (forall|i: int|
        0 <= i < p.len() - 1 ==> #[trigger] goes_on(*s.grid, p, i)) {
        assert forall|i: int| 0 <= i < p.len() - 1 implies #[trigger] graph::next(
            s,
            p[i],
            p[i + 1],
        ) by {
            assert(goes_on(*s.grid, p, i));
        }
    }
}

} // verus!
