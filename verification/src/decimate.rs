//! Coarser meshes by clustering vertices into the cells of a grid.
use crate::mesh::{copy_points, faces_below, lemma_loops_push, loops, triangle, Face, Mesh, MeshModel};
use crate::mesh_fan::{corners, fans, lemma_fans_below};
use crate::number::Vec3;
use crate::subdivide::empty_lists;
use vstd::prelude::*;

verus! {

/// How many of the cells below `c` are occupied.
pub open spec fn rank(cells: Seq<usize>, c: int) -> int
    decreases c,
{
    if c <= 0 {
        0
    } else if cells.contains((c - 1) as usize) {
        rank(cells, c - 1) + 1
    } else {
        rank(cells, c - 1)
    }
}

/// The vertices in cell `c`, in order.
pub open spec fn members(cells: Seq<usize>, c: int) -> Seq<usize>
    decreases cells.len(),
{
    if cells.len() == 0 {
        Seq::empty()
    } else {
        let rest = members(cells.drop_last(), c);
        if cells.last() == c {
            rest.push((cells.len() - 1) as usize)
        } else {
            rest
        }
    }
}

/// The triangles whose corners lie in three different cells, over the numbers of the cells
/// among the occupied ones.
pub open spec fn clustered(
    triangles: Seq<(int, (u32, u32, u32))>,
    cells: Seq<usize>,
) -> Seq<Seq<u32>>
    decreases triangles.len(),
{
    if triangles.len() == 0 {
        Seq::empty()
    } else {
        let rest = clustered(triangles.drop_last(), cells);
        let t = triangles.last().1;
        let a = cells[t.0 as int];
        let b = cells[t.1 as int];
        let c = cells[t.2 as int];
        if a != b && b != c && a != c {
            rest.push(
                seq![
                    rank(cells, a as int) as u32,
                    rank(cells, b as int) as u32,
                    rank(cells, c as int) as u32,
                ],
            )
        } else {
            rest
        }
    }
}

/// Whether every cell is below `n`, one for each of `count` vertices.
pub open spec fn cells_fit(cells: Seq<usize>, count: nat, n: int) -> bool {
    &&& cells.len() == count
    &&& forall|i: int| 0 <= i < cells.len() ==> #[trigger] cells[i] < n
}

/// Whether `point` is what `mean` makes of the vertices of cell `c`.
pub open spec fn is_mean<M: Fn(Vec<Vec3>) -> Vec3>(
    vertices: Seq<Vec3>,
    cells: Seq<usize>,
    c: int,
    mean: M,
    point: Vec3,
) -> bool {
    exists|given: Vec<Vec3>|
        given@ == Seq::new(
            members(cells, c).len(),
            |i: int| vertices[members(cells, c)[i] as int],
        ) && #[trigger] mean.ensures((given,), point)
}

/// Whether `after` is `before` with the vertices of each occupied cell made one, cells in
/// order, and the triangles that keep three different corners.
pub open spec fn is_clustered<M: Fn(Vec<Vec3>) -> Vec3>(
    before: MeshModel,
    after: MeshModel,
    cells: Seq<usize>,
    n: int,
    mean: M,
) -> bool {
    &&& after.vertices.len() == rank(cells, n)
    &&& forall|c: int|
        0 <= c < n && #[trigger] cells.contains(c as usize) ==> is_mean(
            before.vertices,
            cells,
            c,
            mean,
            after.vertices[rank(cells, c)],
        )
    &&& after.faces == clustered(fans(before.faces), cells)
}

/// The number of cells along each side of the grid: at least two.
pub open spec fn grid_side(grid_res: u32) -> int {
    if grid_res < 2 { 2 } else { grid_res as int }
}

/// The number of cells of the grid.
pub open spec fn grid_cells(grid_res: u32) -> int {
    grid_side(grid_res) * grid_side(grid_res) * grid_side(grid_res)
}

/// Ranks grow with the cell, by one over an occupied cell.
proof fn lemma_rank(cells: Seq<usize>, c: int, d: int)
    requires
        0 <= c <= d,
    ensures
        0 <= rank(cells, c) <= rank(cells, d),
        rank(cells, d) - rank(cells, c) <= d - c,
        c < d && c <= usize::MAX && cells.contains(c as usize) ==> rank(cells, c) < rank(cells, d),
    decreases d,
{
    if c < d {
        lemma_rank(cells, c, d - 1);
    } else if c > 0 {
        lemma_rank(cells, c - 1, c - 1);
    }
}

/// No more cells are occupied than there are vertices.
proof fn lemma_rank_bounded(cells: Seq<usize>, n: int)
    requires
        0 <= n <= usize::MAX,
    ensures
        rank(cells, n) <= cells.len(),
{
    let s = occupied(cells, n);
    lemma_occupied(cells, n);
    let at = Seq::new(s.len(), |i: int| cells.index_of(s[i]));
    assert forall|i: int, j: int| 0 <= i < at.len() && 0 <= j < at.len() && i != j implies at[i]
        != at[j] by {
        assert(cells.contains(s[i]) && cells.contains(s[j]));
        assert(cells[at[i]] == s[i] && cells[at[j]] == s[j]);
        assert(s[i] != s[j]);
    }
    assert forall|i: int| 0 <= i < at.len() implies 0 <= #[trigger] at[i] < cells.len() by {
        assert(cells.contains(s[i]));
    }
    crate::halfedge::lemma_distinct_below(at, cells.len());
}

/// The occupied cells below `n`, in order.
spec fn occupied(cells: Seq<usize>, n: int) -> Seq<usize>
    decreases n,
{
    if n <= 0 {
        Seq::empty()
    } else if cells.contains((n - 1) as usize) {
        occupied(cells, n - 1).push((n - 1) as usize)
    } else {
        occupied(cells, n - 1)
    }
}

proof fn lemma_occupied(cells: Seq<usize>, n: int)
    requires
        0 <= n <= usize::MAX,
    ensures
        occupied(cells, n).len() == rank(cells, n),
        forall|i: int|
            0 <= i < occupied(cells, n).len() ==> (#[trigger] occupied(cells, n)[i]) < n
                && cells.contains(occupied(cells, n)[i]),
        forall|i: int, j: int|
            0 <= i < j < occupied(cells, n).len() ==> occupied(cells, n)[i] != occupied(cells, n)[j],
    decreases n,
{
    if n > 0 {
        lemma_occupied(cells, n - 1);
        let rest = occupied(cells, n - 1);
        let now = occupied(cells, n);
        assert forall|i: int| 0 <= i < now.len() implies (#[trigger] now[i]) < n && cells.contains(
            now[i],
        ) by {
            if i < rest.len() {
                assert(rest[i] < n - 1 && cells.contains(rest[i]));
            }
        }
        assert forall|i: int, j: int| 0 <= i < j < now.len() implies now[i] != now[j] by {
            if j < rest.len() {
                assert(rest[i] != rest[j]);
            } else {
                assert(rest[i] < n - 1);
            }
        }
    }
}

/// Members of a cell are vertices, and an occupied cell has one.
proof fn lemma_members(cells: Seq<usize>, c: usize)
    requires
        cells.len() <= usize::MAX,
    ensures
        forall|i: int|
            0 <= i < members(cells, c as int).len() ==> #[trigger] members(cells, c as int)[i]
                < cells.len(),
        members(cells, c as int).len() > 0 <==> cells.contains(c),
    decreases cells.len(),
{
    if cells.len() > 0 {
        let rest = cells.drop_last();
        lemma_members(rest, c);
        let now = members(cells, c as int);
        assert forall|i: int| 0 <= i < now.len() implies #[trigger] now[i] < cells.len() by {
            if i < members(rest, c as int).len() {
                assert(members(rest, c as int)[i] < rest.len());
            }
        }
        if cells.last() == c {
            assert(cells[cells.len() - 1] == c);
        }
        if rest.contains(c) {
            let i = rest.index_of(c);
            assert(cells[i] == c);
        }
        if cells.contains(c) && cells.last() != c {
            let i = cells.index_of(c);
            assert(rest[i] == c);
        }
    }
}

/// For each cell the vertices in it.
fn collect_members(cells: &Vec<usize>, n: usize) -> (r: Vec<Vec<usize>>)
    requires
        cells_fit(cells@, cells@.len(), n as int),
    ensures
        r.len() == n,
        forall|c: int| 0 <= c < n ==> (#[trigger] r[c])@ == members(cells@, c),
{
    let mut lists: Vec<Vec<usize>> = empty_lists(n);
    let mut i: usize = 0;
    assert(cells@.take(0) =~= Seq::empty());
    while i < cells.len()
        invariant
            i <= cells.len(),
            cells_fit(cells@, cells@.len(), n as int),
            lists.len() == n,
            forall|c: int|
                0 <= c < n ==> (#[trigger] lists[c])@ == members(cells@.take(i as int), c),
        decreases cells.len() - i,
    {
        let c: usize = cells[i];
        let ghost before = lists@;
        lists[c].push(i);
        proof {
            let more = cells@.take(i + 1);
            assert(more.drop_last() =~= cells@.take(i as int));
            assert forall|d: int| 0 <= d < n implies (#[trigger] lists[d])@ == members(more, d) by {
                assert(before[d]@ == members(cells@.take(i as int), d));
            }
        }
        i = i + 1;
    }
    assert(cells@.take(i as int) =~= cells@);
    lists
}

/// Three corners a time of a list of triangles.
proof fn lemma_corners(triangles: Seq<(int, (u32, u32, u32))>)
    ensures
        corners(triangles).len() == 3 * triangles.len(),
        forall|i: int|
            #![trigger triangles[i]]
            0 <= i < triangles.len() ==> triangles[i].1.0 == corners(triangles)[3 * i]
                && triangles[i].1.1 == corners(triangles)[3 * i + 1] && triangles[i].1.2 == corners(
                triangles,
            )[3 * i + 2],
    decreases triangles.len(),
{
    if triangles.len() > 0 {
        lemma_corners(triangles.drop_last());
        let rest = triangles.drop_last();
        assert forall|i: int|
            #![trigger triangles[i]]
            0 <= i < triangles.len() implies triangles[i].1.0 == corners(triangles)[3 * i]
            && triangles[i].1.1 == corners(triangles)[3 * i + 1] && triangles[i].1.2 == corners(
            triangles,
        )[3 * i + 2] by {
            if i < rest.len() {
                assert(rest[i] == triangles[i]);
            }
        }
    }
}

impl Mesh {
    /// A coarser mesh by vertex clustering in a grid with `grid_res` cells along each side, at
    /// least two. `assign` gives each position its cell. Each occupied cell gives one vertex,
    /// where `mean` puts it from the positions in the cell. Faces become fans of triangles,
    /// of which those stay whose corners lie in three different cells. None if the mesh has no
    /// vertices or no faces, or no triangle stays.
    pub fn decimate_cluster<K: Fn(Vec<Vec3>, usize) -> Vec<usize>, M: Fn(Vec<Vec3>) -> Vec3>(
        &self,
        grid_res: u32,
        assign: &K,
        mean: &M,
    ) -> (r: Option<Mesh>)
        requires
            self@.in_range(),
            self@.vertices.len() <= u32::MAX,
            grid_cells(grid_res) <= usize::MAX,
            forall|points: Vec<Vec3>, side: usize| assign.requires((points, side)),
            forall|points: Vec<Vec3>, side: usize, cells: Vec<usize>| #[trigger]
                assign.ensures((points, side), cells) && side == grid_side(grid_res) ==> cells_fit(
                    cells@,
                    points@.len(),
                    grid_cells(grid_res),
                ),
            forall|points: Vec<Vec3>| mean.requires((points,)),
        ensures
            self@.vertices.len() == 0 || self@.faces.len() == 0 ==> r is None,
            self@.vertices.len() > 0 && self@.faces.len() > 0 ==> exists|
                points: Vec<Vec3>,
                cells: Vec<usize>,
            |
                #[trigger] assign.ensures((points, grid_side(grid_res) as usize), cells) && points@
                    == self@.vertices && match r {
                    Some(out) => is_clustered(self@, out@, cells@, grid_cells(grid_res), *mean)
                        && clustered(fans(self@.faces), cells@).len() > 0,
                    None => clustered(fans(self@.faces), cells@).len() == 0,
                },
    {
        if self.vertices.len() == 0 || self.faces.len() == 0 {
            return None;
        }
        let side: usize = if grid_res < 2 {
            2
        } else {
            grid_res as usize
        };
        assert(side * side <= side * side * side && side * side >= 0 && side * side * side
            == grid_cells(grid_res)) by (nonlinear_arith)
            requires
                side >= 2,
                side == grid_side(grid_res),
                grid_cells(grid_res) == grid_side(grid_res) * grid_side(grid_res) * grid_side(
                    grid_res,
                ),
        ;
        let n: usize = side * side * side;
        let points = copy_points(&self.vertices);
        let ghost given_points = points;
        let cells = assign(points, side);
        assert(assign.ensures((given_points, side), cells));
        let lists = collect_members(&cells, n);
        let mut out_of: Vec<u32> = Vec::new();
        let mut vertices: Vec<Vec3> = Vec::new();
        let mut c: usize = 0;
        while c < n
            invariant
                c <= n,
                n == grid_cells(grid_res),
                lists.len() == n,
                forall|c: int| 0 <= c < n ==> (#[trigger] lists[c])@ == members(cells@, c),
                cells_fit(cells@, self@.vertices.len(), n as int),
                self@.vertices.len() <= u32::MAX,
                forall|points: Vec<Vec3>| mean.requires((points,)),
                out_of.len() == c,
                forall|d: int|
                    0 <= d < c && cells@.contains(d as usize) ==> #[trigger] out_of[d] == rank(
                        cells@,
                        d,
                    ),
                vertices.len() == rank(cells@, c as int),
                forall|d: int|
                    0 <= d < c && #[trigger] cells@.contains(d as usize) ==> is_mean(
                        self@.vertices,
                        cells@,
                        d,
                        *mean,
                        vertices[rank(cells@, d)],
                    ),
            decreases n - c,
        {
            proof {
                lemma_members(cells@, c);
                lemma_rank_bounded(cells@, c as int);
                assert(rank(cells@, c + 1) == rank(cells@, c as int) + (if cells@.contains(c) {
                    1int
                } else {
                    0int
                }));
            }
            out_of.push(vertices.len() as u32);
            if lists[c].len() > 0 {
                let mut given: Vec<Vec3> = Vec::new();
                let ghost want = Seq::new(
                    members(cells@, c as int).len(),
                    |i: int| self@.vertices[members(cells@, c as int)[i] as int],
                );
                let mut i: usize = 0;
                while i < lists[c].len()
                    invariant
                        i <= lists[c as int].len(),
                        c < n,
                        lists.len() == n,
                        lists[c as int]@ == members(cells@, c as int),
                        forall|i: int|
                            0 <= i < members(cells@, c as int).len() ==> #[trigger] members(
                                cells@,
                                c as int,
                            )[i] < cells.len(),
                        cells.len() == self@.vertices.len(),
                        want == Seq::new(
                            members(cells@, c as int).len(),
                            |i: int| self@.vertices[members(cells@, c as int)[i] as int],
                        ),
                        given@ == want.take(i as int),
                    decreases lists[c as int].len() - i,
                {
                    let v: usize = lists[c][i];
                    assert(v == members(cells@, c as int)[i as int]);
                    given.push(self.vertices[v]);
                    assert(given@ =~= want.take(i + 1));
                    i = i + 1;
                }
                assert(want.take(i as int) =~= want);
                let point: Vec3 = mean(given);
                let ghost before = vertices@;
                vertices.push(point);
                proof {
                    assert(is_mean(self@.vertices, cells@, c as int, *mean, point)) by {
                        assert(mean.ensures((given,), point));
                    }
                    assert forall|d: int|
                        0 <= d < c + 1 && #[trigger] cells@.contains(d as usize) implies is_mean(
                        self@.vertices,
                        cells@,
                        d,
                        *mean,
                        vertices[rank(cells@, d)],
                    ) by {
                        if d < c {
                            lemma_rank(cells@, d, c as int);
                            assert(vertices@[rank(cells@, d)] == before[rank(cells@, d)]);
                        }
                    }
                }
            }
            c = c + 1;
        }
        let tris = self.triangulate();
        let ghost triangles = fans(self@.faces);
        proof {
            lemma_corners(triangles);
            lemma_fans_below(self@.faces, self@.vertices.len());
        }
        let count: usize = tris.len() / 3;
        let mut faces: Vec<Face> = Vec::new();
        let mut t: usize = 0;
        assert(triangles.take(0) =~= Seq::empty());
        assert(loops(faces@) =~= Seq::empty());
        while t < count
            invariant
                t <= count,
                count == triangles.len(),
                tris@ == corners(triangles),
                tris.len() == 3 * count,
                cells_fit(cells@, self@.vertices.len(), n as int),
                out_of.len() == n,
                forall|d: int|
                    0 <= d < n && cells@.contains(d as usize) ==> #[trigger] out_of[d] == rank(
                        cells@,
                        d,
                    ),
                forall|i: int|
                    0 <= i < triangles.len() ==> (#[trigger] triangles[i]).1.0
                        < self@.vertices.len() && triangles[i].1.1 < self@.vertices.len()
                        && triangles[i].1.2 < self@.vertices.len(),
                forall|i: int|
                    #![trigger triangles[i]]
                    0 <= i < triangles.len() ==> triangles[i].1.0 == tris[3 * i]
                        && triangles[i].1.1 == tris[3 * i + 1] && triangles[i].1.2 == tris[3 * i
                        + 2],
                loops(faces@) == clustered(triangles.take(t as int), cells@),
            decreases count - t,
        {
            let ghost now = triangles[t as int].1;
            proof {
                assert(triangles.take(t + 1).drop_last() =~= triangles.take(t as int));
                assert(triangles.take(t + 1).last() == triangles[t as int]);
            }
            let x: usize = cells[tris[3 * t] as usize];
            let y: usize = cells[tris[3 * t + 1] as usize];
            let z: usize = cells[tris[3 * t + 2] as usize];
            proof {
                assert(cells@[now.0 as int] == x && cells@.contains(x));
                assert(cells@[now.1 as int] == y && cells@.contains(y));
                assert(cells@[now.2 as int] == z && cells@.contains(z));
            }
            let a: u32 = out_of[x];
            let b: u32 = out_of[y];
            let c: u32 = out_of[z];
            proof {
                lemma_rank_apart(cells@, x, y);
                lemma_rank_apart(cells@, y, z);
                lemma_rank_apart(cells@, x, z);
            }
            if a != b && b != c && a != c {
                let made = triangle(a, b, c);
                proof {
                    lemma_loops_push(faces@, made);
                }
                faces.push(made);
            }
            t = t + 1;
        }
        assert(triangles.take(t as int) =~= triangles);
        assert(loops(faces@).len() == faces.len());
        assert(assign.ensures((given_points, grid_side(grid_res) as usize), cells));
        if faces.len() == 0 {
            assert(clustered(fans(self@.faces), cells@).len() == 0);
            return None;
        }
        let out = Mesh { vertices, faces };
        assert(is_clustered(self@, out@, cells@, grid_cells(grid_res), *mean));
        Some(out)
    }
}

/// Occupied cells have the same rank only if they are the same.
proof fn lemma_rank_apart(cells: Seq<usize>, a: usize, b: usize)
    requires
        cells.contains(a),
        cells.contains(b),
    ensures
        rank(cells, a as int) == rank(cells, b as int) <==> a == b,
{
    if a < b {
        lemma_rank(cells, a as int, b as int);
    } else if b < a {
        lemma_rank(cells, b as int, a as int);
    }
}

/// A clustered mesh names its own vertices, and has only triangles.
pub proof fn clustering_keeps_range<M: Fn(Vec<Vec3>) -> Vec3>(
    before: MeshModel,
    after: MeshModel,
    cells: Seq<usize>,
    n: int,
    mean: M,
)
    requires
        before.in_range(),
        before.vertices.len() <= u32::MAX,
        0 <= n <= usize::MAX,
        cells_fit(cells, before.vertices.len(), n),
        is_clustered(before, after, cells, n, mean),
    ensures
        after.in_range(),
        after.vertices.len() <= before.vertices.len(),
        forall|f: int| 0 <= f < after.faces.len() ==> (#[trigger] after.faces[f]).len() == 3,
{
    lemma_rank_bounded(cells, n);
    lemma_fans_below(before.faces, before.vertices.len());
    lemma_clustered_below(fans(before.faces), cells, before.vertices.len(), n);
}

proof fn lemma_clustered_below(
    triangles: Seq<(int, (u32, u32, u32))>,
    cells: Seq<usize>,
    count: nat,
    n: int,
)
    requires
        count <= u32::MAX,
        0 <= n <= usize::MAX,
        cells_fit(cells, count, n),
        forall|i: int|
            0 <= i < triangles.len() ==> (#[trigger] triangles[i]).1.0 < count
                && triangles[i].1.1 < count && triangles[i].1.2 < count,
    ensures
        faces_below(clustered(triangles, cells), rank(cells, n) as nat),
        forall|f: int|
            0 <= f < clustered(triangles, cells).len() ==> (#[trigger] clustered(
                triangles,
                cells,
            )[f]).len() == 3,
    decreases triangles.len(),
{
    lemma_rank(cells, 0, n);
    lemma_rank_bounded(cells, n);
    if triangles.len() > 0 {
        let rest = triangles.drop_last();
        assert forall|i: int| 0 <= i < rest.len() implies (#[trigger] rest[i]).1.0 < count
            && rest[i].1.1 < count && rest[i].1.2 < count by {
            assert(triangles[i] == rest[i]);
        }
        lemma_clustered_below(rest, cells, count, n);
        let t = triangles[triangles.len() - 1].1;
        let a = cells[t.0 as int];
        let b = cells[t.1 as int];
        let c = cells[t.2 as int];
        assert(cells.contains(a) && cells.contains(b) && cells.contains(c));
        lemma_rank(cells, a as int, n);
        lemma_rank(cells, b as int, n);
        lemma_rank(cells, c as int, n);
        let less = clustered(rest, cells);
        let all = clustered(triangles, cells);
        assert forall|f: int| 0 <= f < all.len() implies (#[trigger] all[f]).len() == 3
            && crate::mesh::face_below(all[f], rank(cells, n) as nat) by {
            if f < less.len() {
                assert(less[f].len() == 3);
                assert(crate::mesh::face_below(less[f], rank(cells, n) as nat));
            }
        }
    }
}

} // verus!
