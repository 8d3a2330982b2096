//! Routes over grids and over a mesh of triangles.
use aurora::nav::{Grid3, Nav};
use aurora::navmesh::{funnel, portals, NavMesh, Point, Turn};

#[test]
fn grid3_finds_a_straight_path() {
    let mut g = Grid3::nav3d_init(5, 5, 5);
    let n = g.nav3d_find(0, 0, 0, 4, 0, 0);
    assert!(n >= 2, "expected a path, got {n}");
    assert_eq!(g.nav3d_x(0), 0);
    assert_eq!(g.nav3d_x(n - 1), 4);
}

type V3 = [f64; 3];

fn dist(a: V3, b: V3) -> f64 {
    ((a[0] - b[0]).powi(2) + (a[1] - b[1]).powi(2) + (a[2] - b[2]).powi(2)).sqrt()
}

struct Mesh {
    verts: Vec<V3>,
    mesh: NavMesh,
}

impl Mesh {
    fn centre(&self, t: usize) -> V3 {
        let c = self.mesh.tris[t].map(|v| self.verts[v as usize]);
        [
            (c[0][0] + c[1][0] + c[2][0]) / 3.0,
            (c[0][1] + c[1][1] + c[2][1]) / 3.0,
            (c[0][2] + c[1][2] + c[2][2]) / 3.0,
        ]
    }

    fn nearest(&self, p: V3) -> usize {
        let mut best = 0;
        for t in 1..self.mesh.tris.len() {
            if dist(self.centre(t), p) < dist(self.centre(best), p) {
                best = t;
            }
        }
        best
    }

    fn find(&self, start: V3, goal: V3) -> Option<Vec<V3>> {
        let n = self.mesh.tris.len();
        let costs: Vec<Vec<i64>> = (0..n)
            .map(|t| {
                let here = self.centre(t);
                let links = self.mesh.neighbors[t].iter();
                links.map(|l| (dist(here, self.centre(l.to)) * 1000.0) as i64).collect()
            })
            .collect();
        let far: Vec<i64> = (0..n).map(|t| (dist(self.centre(t), goal) * 1000.0) as i64).collect();
        let way = self.mesh.corridor(self.nearest(start), self.nearest(goal), &costs, &far)?;
        let edges = self.mesh.crossings(&way);
        let keep: Vec<bool> = (0..edges.len())
            .map(|i| {
                let a = self.centre(way[i]);
                let b = self.centre(way[i + 1]);
                let e = self.verts[edges[i].0 as usize];
                (b[0] - a[0]) * (e[2] - a[2]) - (b[2] - a[2]) * (e[0] - a[0]) < 0.0
            })
            .collect();
        let at = |p: Point| match p {
            Point::Start => start,
            Point::Goal => goal,
            Point::Vertex(v) => self.verts[v as usize],
        };
        let area = |a: Point, b: Point, c: Point| {
            let (a, b, c) = (at(a), at(b), at(c));
            let v = (b[0] - a[0]) * (c[2] - a[2]) - (c[0] - a[0]) * (b[2] - a[2]);
            if v < 0.0 {
                Turn::Below
            } else if v > 0.0 {
                Turn::Above
            } else {
                Turn::On
            }
        };
        let same = |a: Point, b: Point| {
            let (a, b) = (at(a), at(b));
            (a[0] - b[0]).abs() < 1e-5 && (a[2] - b[2]).abs() < 1e-5
        };
        Some(funnel(&portals(&edges, &keep), area, same).iter().map(|p| at(*p)).collect())
    }
}

fn strip() -> Mesh {
    // Two quads (4 triangles) forming a 4x2 strip on the ground (y=0).
    // Vertices: a grid of 3x2 points along x.
    let verts = vec![
        [0.0, 0.0, 0.0],
        [0.0, 0.0, 2.0],
        [2.0, 0.0, 0.0],
        [2.0, 0.0, 2.0],
        [4.0, 0.0, 0.0],
        [4.0, 0.0, 2.0],
    ];
    let idx: Vec<i64> = vec![0, 1, 2, 2, 1, 3, 2, 3, 4, 4, 3, 5];
    let mesh = NavMesh::navmesh_build(6, &idx).expect("a mesh");
    Mesh { verts, mesh }
}

#[test]
fn navmesh_paths_across_two_quads() {
    let m = strip();
    let path = m.find([0.5, 0.0, 1.0], [3.5, 0.0, 1.0]).expect("a path");
    let n = path.len();
    assert!(n >= 2, "expected waypoints, got {n}");
    // Path should progress in +x from near 0.5 to near 3.5.
    assert!(path[0][0] < path[n - 1][0]);
    assert!((path[n - 1][0] - 3.5).abs() < 0.6);
}

/// Across open ground the string is straight; round a corner it touches the corner.
#[test]
fn the_string_is_pulled_tight_round_a_corner() {
    let m = strip();
    let straight = m.find([0.5, 0.0, 1.0], [3.5, 0.0, 1.0]).unwrap();
    assert_eq!(straight, vec![[0.5, 0.0, 1.0], [3.5, 0.0, 1.0]]);
    // An L of three squares, whose inner corner is (2, 2).
    let verts = vec![
        [0.0, 0.0, 0.0],
        [2.0, 0.0, 0.0],
        [4.0, 0.0, 0.0],
        [0.0, 0.0, 2.0],
        [2.0, 0.0, 2.0],
        [4.0, 0.0, 2.0],
        [0.0, 0.0, 4.0],
        [2.0, 0.0, 4.0],
    ];
    let idx: Vec<i64> = vec![0, 1, 3, 1, 4, 3, 1, 2, 4, 2, 5, 4, 3, 4, 6, 4, 7, 6];
    let l = Mesh { verts, mesh: NavMesh::navmesh_build(8, &idx).unwrap() };
    let mut path = l.find([3.5, 0.0, 1.9], [1.9, 0.0, 3.5]).unwrap();
    path.dedup();
    assert_eq!(path, vec![[3.5, 0.0, 1.9], [2.0, 0.0, 2.0], [1.9, 0.0, 3.5]]);
}

#[test]
fn triangles_that_share_an_edge_are_neighbours_both_ways() {
    let m = strip().mesh;
    assert_eq!(m.tris.len(), 4);
    for (t, links) in m.neighbors.iter().enumerate() {
        for l in links {
            assert!(m.neighbors[l.to].iter().any(|b| b.to == t && (b.a, b.b) == (l.a, l.b)));
        }
    }
    assert_eq!(m.neighbors[0].len(), 1);
    assert_eq!(m.neighbors[1].len(), 2);
    let far = vec![0i64; 4];
    let costs: Vec<Vec<i64>> = m.neighbors.iter().map(|l| vec![1; l.len()]).collect();
    assert_eq!(m.corridor(0, 3, &costs, &far), Some(vec![0, 1, 2, 3]));
    assert_eq!(m.corridor(2, 2, &costs, &far), Some(vec![2]));
    assert_eq!(m.crossings(&vec![0, 1, 2]), vec![(1, 2), (2, 3)]);
}

#[test]
fn a_mesh_without_a_way_across_has_no_corridor() {
    let m = NavMesh::navmesh_build(6, &[0, 1, 2, 3, 4, 5]).unwrap();
    let costs = vec![vec![], vec![]];
    assert_eq!(m.corridor(0, 1, &costs, &vec![0, 0]), None);
}

#[test]
fn a_grid_route_goes_round_a_wall() {
    let mut n = Nav::nav_init(5, 3);
    for y in 0..2 {
        n.nav_wall(2, y, true);
    }
    let len = n.nav_find(0, 0, 4, 0);
    // Down two, across four, up two.
    assert_eq!(len, 9);
    for i in 0..len {
        let (x, y) = (n.nav_x(i), n.nav_y(i));
        assert!(x != 2 || y == 2, "through the wall at {x},{y}");
        if i > 0 {
            let step = (x - n.nav_x(i - 1)).abs() + (y - n.nav_y(i - 1)).abs();
            assert_eq!(step, 1);
        }
    }
    assert_eq!((n.nav_x(0), n.nav_y(0)), (0, 0));
    assert_eq!((n.nav_x(len - 1), n.nav_y(len - 1)), (4, 0));
    assert_eq!(n.nav_x(len), -1);
    n.nav_wall(2, 2, true);
    assert_eq!(n.nav_find(0, 0, 4, 0), -1, "walled off");
    assert_eq!(n.nav_x(0), -1, "the old route is gone");
    n.nav_wall(2, 0, false);
    assert_eq!(n.nav_find(0, 0, 4, 0), 5);
    assert_eq!(n.nav_find(3, 1, 3, 1), 1);
}

#[test]
fn a_route_in_space_keeps_out_of_walls() {
    let mut g = Grid3::nav3d_init(3, 3, 3);
    for y in 0..3 {
        for z in 0..3 {
            g.nav3d_wall(1, y, z, true);
        }
    }
    assert_eq!(g.nav3d_find(0, 0, 0, 2, 0, 0), -1);
    g.nav3d_wall(1, 2, 2, false);
    let n = g.nav3d_find(0, 0, 0, 2, 0, 0);
    assert!(n > 0);
    let cells: Vec<(i64, i64, i64)> =
        (0..n).map(|i| (g.nav3d_x(i), g.nav3d_y(i), g.nav3d_z(i))).collect();
    assert!(cells.contains(&(1, 2, 2)));
    assert_eq!(cells[0], (0, 0, 0));
    assert_eq!(cells[cells.len() - 1], (2, 0, 0));
    for w in cells.windows(2) {
        let d = [(w[0].0 - w[1].0).abs(), (w[0].1 - w[1].1).abs(), (w[0].2 - w[1].2).abs()];
        assert!(d.iter().all(|v| *v <= 1) && d.iter().sum::<i64>() >= 1);
    }
}

/// With nothing guessed the cheapest corridor is found, whichever way round it goes.
#[test]
fn the_corridor_is_the_cheap_one() {
    // Six triangles round one vertex, each touching the next.
    let idx: Vec<i64> = (1..=6).flat_map(|i| [0, i, i % 6 + 1]).collect();
    let mesh = NavMesh::navmesh_build(7, &idx).expect("a mesh");
    let far = vec![0; 6];
    let costs = |dear: usize| -> Vec<Vec<i64>> {
        let to = |l: usize| if l == dear { 100 } else { 10 };
        mesh.neighbors.iter().map(|n| n.iter().map(|l| to(l.to)).collect()).collect()
    };
    assert_eq!(mesh.corridor(0, 3, &costs(5), &far), Some(vec![0, 1, 2, 3]));
    assert_eq!(mesh.corridor(0, 3, &costs(1), &far), Some(vec![0, 5, 4, 3]));
}

/// What a route in space costs, in thousandths of a cell.
fn cost(cells: &[(i64, i64, i64)]) -> i64 {
    let step = |w: &[(i64, i64, i64)]| {
        let (a, b) = (w[0], w[1]);
        match (a.0 - b.0).abs() + (a.1 - b.1).abs() + (a.2 - b.2).abs() {
            1 => 1000,
            2 => 1414,
            _ => 1732,
        }
    };
    cells.windows(2).map(step).sum()
}

/// A route in space is the shortest but for a thousandth of a cell per step.
#[test]
fn a_route_in_space_is_short() {
    let mut g = Grid3::nav3d_init(12, 12, 12);
    let n = g.nav3d_find(0, 0, 0, 11, 11, 11);
    let cells: Vec<_> = (0..n).map(|i| (g.nav3d_x(i), g.nav3d_y(i), g.nav3d_z(i))).collect();
    assert_eq!(cost(&cells), 11 * 1732, "straight along the diagonal");
    // A wall across the middle with one gap in a far corner.
    for y in 0..12 {
        for z in 0..12 {
            g.nav3d_wall(6, y, z, (y, z) != (11, 0));
        }
    }
    let n = g.nav3d_find(0, 0, 0, 11, 0, 0);
    let cells: Vec<_> = (0..n).map(|i| (g.nav3d_x(i), g.nav3d_y(i), g.nav3d_z(i))).collect();
    assert!(cells.contains(&(6, 11, 0)), "through the gap");
    // Five diagonal steps and five straight ones up to the gap, through it, and the same
    // way down again.
    let mut best: Vec<(i64, i64, i64)> = (0..=5).map(|k| (k, k, 0)).collect();
    best.extend((6..=10).map(|y| (5, y, 0)));
    best.push((6, 11, 0));
    best.push((7, 10, 0));
    best.extend((1..=4).map(|k| (7 + k, 10 - k, 0)));
    best.extend((0..6).rev().map(|y| (11, y, 0)));
    assert!(cost(&cells) <= cost(&best) + best.len() as i64 - 1);
}

/// Without a portal there is no path.
#[test]
fn no_portals_give_no_path() {
    let none: Vec<(Point, Point)> = vec![];
    let path = funnel(&none, |_: Point, _: Point, _: Point| Turn::On, |_: Point, _: Point| true);
    assert!(path.is_empty());
}

/// Costs beyond what 32 bits hold are still told apart.
#[test]
fn large_costs_are_told_apart() {
    let idx: Vec<i64> = (1..=6).flat_map(|i| [0, i, i % 6 + 1]).collect();
    let mesh = NavMesh::navmesh_build(7, &idx).expect("a mesh");
    let big = 1i64 << 40;
    let costs = |dear: usize| -> Vec<Vec<i64>> {
        let to = |l: usize| if l == dear { big + 1 } else { big };
        mesh.neighbors.iter().map(|n| n.iter().map(|l| to(l.to)).collect()).collect()
    };
    let far = vec![0; 6];
    assert_eq!(mesh.corridor(0, 3, &costs(5), &far), Some(vec![0, 1, 2, 3]));
    assert_eq!(mesh.corridor(0, 3, &costs(1), &far), Some(vec![0, 5, 4, 3]));
}
