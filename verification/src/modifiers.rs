//! Modifier stacks: what a mesh is shown as.
use crate::decimate::{
    cells_fit, clustered, clustering_keeps_range, grid_cells, grid_side, is_clustered,
};
use crate::halfedge::{lemma_offset_monotone, offset, side_count};
use crate::kinds::Modifier;
use crate::mesh::{face_below, Mesh, MeshModel};
use crate::mesh_fan::fans;
use crate::mesh_make::{
    copies, mirrored_model, mirroring_keeps_range, repeated, repeating_keeps_range, room_after,
};
use crate::number::{Quat, Real, Vec3, ONE_BITS, ZERO_BITS};
use crate::object::{Object, ObjectModel};
use crate::rig::{deformed, parents_first, skinning, Bone, Skeleton, Skin};
use crate::subdivide::{subdivided, subdivision_gives_quads, VertexRule};
use vstd::prelude::*;

verus! {

/// One step of a modifier stack.
pub ghost enum Step {
    Mirror { axis: int },
    Array { count: u32, offset: Vec3 },
    Subdivide,
    Decimate { grid_res: u32 },
}

/// A mesh has more vertices than 32 bits can number, or a grid more cells than fit.
#[derive(Clone, Copy, Debug, PartialEq, Eq, Structural)]
pub struct MeshTooLarge;

/// How often a modifier subdivides: at most four times.
pub open spec fn levels_of(levels: u32) -> nat {
    if levels < 4 { levels as nat } else { 4 }
}

/// The steps of one modifier. A mirror axis beyond the third is the third.
pub open spec fn steps_of(modifier: Modifier) -> Seq<Step> {
    match modifier {
        Modifier::Mirror { axis } => seq![
            Step::Mirror {
                axis: if axis < 2 {
                    axis as int
                } else {
                    2
                },
            },
        ],
        Modifier::Array { count, offset } => seq![Step::Array { count, offset }],
        Modifier::Subdivide { levels } => Seq::new(levels_of(levels), |i: int| Step::Subdivide),
        Modifier::Decimate { grid_res } => seq![Step::Decimate { grid_res }],
    }
}

/// The steps of a modifier stack, first modifier first.
pub open spec fn all_steps(modifiers: Seq<Modifier>) -> Seq<Step>
    decreases modifiers.len(),
{
    if modifiers.len() == 0 {
        Seq::empty()
    } else {
        all_steps(modifiers.drop_last()) + steps_of(modifiers.last())
    }
}

/// Whether a step can be taken: its result can be numbered.
pub open spec fn step_fits(mesh: MeshModel, step: Step) -> bool {
    match step {
        Step::Mirror { .. } => 2 * mesh.vertices.len() <= u32::MAX,
        Step::Array { count, .. } => copies(count) * mesh.vertices.len() <= u32::MAX,
        Step::Subdivide => mesh.vertices.len() + mesh.faces.len() + side_count(mesh.faces)
            <= u32::MAX,
        Step::Decimate { grid_res } => mesh.vertices.len() <= u32::MAX && grid_cells(grid_res)
            <= usize::MAX,
    }
}

/// Whether `after` is `before` decimated. A decimation that leaves nothing changes nothing.
pub open spec fn is_decimated<K: Fn(Vec<Vec3>, usize) -> Vec<usize>, M: Fn(Vec<Vec3>) -> Vec3>(
    before: MeshModel,
    after: MeshModel,
    grid_res: u32,
    assign: K,
    mean: M,
) -> bool {
    if before.vertices.len() == 0 || before.faces.len() == 0 {
        after == before
    } else {
        exists|points: Vec<Vec3>, cells: Vec<usize>| #[trigger]
            assign.ensures((points, grid_side(grid_res) as usize), cells) && points@
                == before.vertices && if clustered(fans(before.faces), cells@).len() > 0 {
                is_clustered(before, after, cells@, grid_cells(grid_res), mean)
            } else {
                after == before
            }
    }
}

/// Whether `after` is `before` after a step.
pub open spec fn step_taken<
    A: Fn(Vec3, Vec3, u32) -> Vec3,
    C: Fn(Vec<Vec3>) -> Vec3,
    E: Fn(Vec3, Vec3, Option<(Vec3, Vec3)>) -> Vec3,
    R: Fn(Vec3, VertexRule) -> Vec3,
    K: Fn(Vec<Vec3>, usize) -> Vec<usize>,
    M: Fn(Vec<Vec3>) -> Vec3,
>(
    before: MeshModel,
    after: MeshModel,
    step: Step,
    shift: A,
    middle: C,
    join: E,
    relax: R,
    assign: K,
    mean: M,
) -> bool {
    match step {
        Step::Mirror { axis } => after == mirrored_model(before, axis),
        Step::Array { count, offset } => repeated(
            before,
            after,
            copies(count),
            |p: Vec3, c: int, q: Vec3| shift.ensures((p, offset, c as u32), q),
        ),
        Step::Subdivide => exists|edges: Seq<(u32, u32)>| #[trigger]
            subdivided(before, after, edges, middle, join, relax),
        Step::Decimate { grid_res } => is_decimated(before, after, grid_res, assign, mean),
    }
}

/// Whether `stages` are the meshes that the first `n` steps lead through from `base`.
pub open spec fn leads_through<
    A: Fn(Vec3, Vec3, u32) -> Vec3,
    C: Fn(Vec<Vec3>) -> Vec3,
    E: Fn(Vec3, Vec3, Option<(Vec3, Vec3)>) -> Vec3,
    R: Fn(Vec3, VertexRule) -> Vec3,
    K: Fn(Vec<Vec3>, usize) -> Vec<usize>,
    M: Fn(Vec<Vec3>) -> Vec3,
>(
    base: MeshModel,
    steps: Seq<Step>,
    stages: Seq<MeshModel>,
    shift: A,
    middle: C,
    join: E,
    relax: R,
    assign: K,
    mean: M,
) -> bool {
    &&& 1 <= stages.len() <= steps.len() + 1
    &&& stages[0] == base
    &&& forall|i: int|
        0 <= i < stages.len() - 1 ==> step_fits(stages[i], #[trigger] steps[i]) && step_taken(
            stages[i],
            stages[i + 1],
            steps[i],
            shift,
            middle,
            join,
            relax,
            assign,
            mean,
        )
}

/// Whether every face has a vertex.
pub open spec fn no_empty_face(mesh: MeshModel) -> bool {
    forall|f: int| 0 <= f < mesh.faces.len() ==> (#[trigger] mesh.faces[f]).len() > 0
}

/// The functions that place the points of modifier steps: `shift` an array copy, `middle` the
/// point of a face, `join` that of an edge, `relax` a vertex, `assign` gives positions their
/// cells, and `mean` makes the vertices of a cell one.
pub struct Placing<A, C, E, R, K, M> {
    pub shift: A,
    pub middle: C,
    pub join: E,
    pub relax: R,
    pub assign: K,
    pub mean: M,
}

impl<
    A: Fn(Vec3, Vec3, u32) -> Vec3,
    C: Fn(Vec<Vec3>) -> Vec3,
    E: Fn(Vec3, Vec3, Option<(Vec3, Vec3)>) -> Vec3,
    R: Fn(Vec3, VertexRule) -> Vec3,
    K: Fn(Vec<Vec3>, usize) -> Vec<usize>,
    M: Fn(Vec<Vec3>) -> Vec3,
> Placing<A, C, E, R, K, M> {
    /// Whether the functions take every argument, and cells lie in the grid.
    pub open spec fn valid(&self) -> bool {
        &&& forall|p: Vec3, o: Vec3, c: u32| self.shift.requires((p, o, c))
        &&& forall|points: Vec<Vec3>| self.middle.requires((points,))
        &&& forall|p: Vec3, q: Vec3, s: Option<(Vec3, Vec3)>| self.join.requires((p, q, s))
        &&& forall|p: Vec3, rule: VertexRule| self.relax.requires((p, rule))
        &&& forall|points: Vec<Vec3>, side: usize| self.assign.requires((points, side))
        &&& forall|points: Vec<Vec3>, side: usize, cells: Vec<usize>| #[trigger]
            self.assign.ensures((points, side), cells) ==> cells_fit(
                cells@,
                points@.len(),
                side * side * side,
            )
        &&& forall|points: Vec<Vec3>| self.mean.requires((points,))
    }

    /// Whether `after` is `before` after a step.
    pub open spec fn takes(&self, before: MeshModel, after: MeshModel, step: Step) -> bool {
        step_taken(
            before,
            after,
            step,
            self.shift,
            self.middle,
            self.join,
            self.relax,
            self.assign,
            self.mean,
        )
    }

    /// Whether `stages` are the meshes that the first steps lead through from `base`.
    pub open spec fn leads(
        &self,
        base: MeshModel,
        steps: Seq<Step>,
        stages: Seq<MeshModel>,
    ) -> bool {
        leads_through(
            base,
            steps,
            stages,
            self.shift,
            self.middle,
            self.join,
            self.relax,
            self.assign,
            self.mean,
        )
    }

    /// A step keeps a mesh that names its own vertices so, and leaves no face empty.
    pub proof fn steps_keep_range(&self, before: MeshModel, after: MeshModel, step: Step)
        requires
            self.valid(),
            before.in_range(),
            step is Mirror ==> no_empty_face(before),
            step_fits(before, step),
            self.takes(before, after, step),
        ensures
            after.in_range(),
            no_empty_face(before) ==> no_empty_face(after),
    {
        match step {
            Step::Mirror { axis } => {
                mirroring_keeps_range(before, axis);
            },
            Step::Array { count, offset } => {
                repeating_keeps_range(
                    before,
                    after,
                    copies(count),
                    |p: Vec3, c: int, q: Vec3| self.shift.ensures((p, offset, c as u32), q),
                );
            },
            Step::Subdivide => {
                let edges = choose|edges: Seq<(u32, u32)>| #[trigger]
                    subdivided(before, after, edges, self.middle, self.join, self.relax);
                crate::subdivide::lemma_edges_bounded(before.faces, edges);
                subdivision_gives_quads(before, after, edges, self.middle, self.join, self.relax);
            },
            Step::Decimate { grid_res } => {
                if before.vertices.len() > 0 && before.faces.len() > 0 {
                    let (points, cells) = choose|points: Vec<Vec3>, cells: Vec<usize>| #[trigger]
                        self.assign.ensures((points, grid_side(grid_res) as usize), cells) && points@
                            == before.vertices && if clustered(fans(before.faces), cells@).len()
                            > 0 {
                            is_clustered(before, after, cells@, grid_cells(grid_res), self.mean)
                        } else {
                            after == before
                        };
                    lemma_side_fits(grid_res);
                    if clustered(fans(before.faces), cells@).len() > 0 {
                        clustering_keeps_range(
                            before,
                            after,
                            cells@,
                            grid_cells(grid_res),
                            self.mean,
                        );
                    }
                }
            },
        }
    }
}

/// The side of a grid whose cells fit.
proof fn lemma_side_fits(grid_res: u32)
    ensures
        grid_side(grid_res) as usize == grid_side(grid_res),
        grid_cells(grid_res) == (grid_side(grid_res) as usize) * (grid_side(grid_res) as usize) * (
        grid_side(grid_res) as usize),
{
}

/// How many sides the faces of a mesh have, none if there are more than 32 bits can count.
fn count_sides(mesh: &Mesh) -> (r: Option<u32>)
    ensures
        match r {
            Some(n) => n == side_count(mesh@.faces),
            None => side_count(mesh@.faces) > u32::MAX,
        },
{
    let ghost all = mesh@.faces;
    let mut total: u32 = 0;
    let mut f: usize = 0;
    while f < mesh.faces.len()
        invariant
            f <= mesh.faces.len(),
            all == mesh@.faces,
            total == offset(all, f as int),
        decreases mesh.faces.len() - f,
    {
        let m: usize = mesh.faces[f].indices.len();
        assert(all[f as int].len() == m);
        proof {
            lemma_offset_monotone(all, f + 1, all.len() as int);
        }
        if m > (u32::MAX - total) as usize {
            return None;
        }
        total = total + m as u32;
        f = f + 1;
    }
    Some(total)
}

impl<
    A: Fn(Vec3, Vec3, u32) -> Vec3,
    C: Fn(Vec<Vec3>) -> Vec3,
    E: Fn(Vec3, Vec3, Option<(Vec3, Vec3)>) -> Vec3,
    R: Fn(Vec3, VertexRule) -> Vec3,
    K: Fn(Vec<Vec3>, usize) -> Vec<usize>,
    M: Fn(Vec<Vec3>) -> Vec3,
> Placing<A, C, E, R, K, M> {
    fn mirror(&self, mesh: &Mesh, axis: u32) -> (r: Result<Mesh, MeshTooLarge>)
        requires
            self.valid(),
            mesh@.in_range(),
            no_empty_face(mesh@),
        ensures
            ({
                let step = steps_of(Modifier::Mirror { axis })[0];
                match r {
                    Ok(out) => step_fits(mesh@, step) && self.takes(mesh@, out@, step),
                    Err(_) => !step_fits(mesh@, step),
                }
            }),
    {
        if mesh.vertices.len() > (u32::MAX / 2) as usize {
            return Err(MeshTooLarge);
        }
        let along: usize = if axis < 2 {
            axis as usize
        } else {
            2
        };
        proof {
            let n = mesh@.vertices.len();
            assert forall|f: int| 0 <= f < mesh@.faces.len() implies #[trigger] face_below(
                mesh@.faces[f],
                (u32::MAX + 1 - n) as nat,
            ) by {
                assert(face_below(mesh@.faces[f], n));
                assert forall|k: int| 0 <= k < mesh@.faces[f].len() implies #[trigger] mesh@.faces[f][k]
                    < (u32::MAX + 1 - n) as nat by {
                    assert(mesh@.faces[f][k] < n);
                }
            }
        }
        Ok(mesh.mirrored(along))
    }

    fn array(&self, mesh: &Mesh, count: u32, offset: Vec3) -> (r: Result<Mesh, MeshTooLarge>)
        requires
            self.valid(),
            mesh@.in_range(),
        ensures
            ({
                let step = Step::Array { count, offset };
                match r {
                    Ok(out) => step_fits(mesh@, step) && self.takes(mesh@, out@, step),
                    Err(_) => !step_fits(mesh@, step),
                }
            }),
    {
        let times: u32 = if count == 0 {
            1
        } else {
            count
        };
        let n: usize = mesh.vertices.len();
        proof {
            assert(times >= 1 ==> n <= times * n) by (nonlinear_arith);
        }
        if n > u32::MAX as usize {
            return Err(MeshTooLarge);
        }
        assert(times * n <= u32::MAX * u32::MAX) by (nonlinear_arith)
            requires
                times <= u32::MAX,
                n <= u32::MAX,
        ;
        if times as u64 * n as u64 > u32::MAX as u64 {
            return Err(MeshTooLarge);
        }
        proof {
            assert((times - 1) * n == times * n - n) by (nonlinear_arith);
            let room = room_after(mesh@.vertices.len(), copies(count) - 1);
            assert forall|f: int| 0 <= f < mesh@.faces.len() implies face_below(
                #[trigger] mesh@.faces[f],
                room,
            ) by {
                assert(face_below(mesh@.faces[f], mesh@.vertices.len()));
            }
        }
        Ok(mesh.arrayed(count, offset, &self.shift))
    }

    fn subdivide(&self, mesh: &Mesh) -> (r: Result<Mesh, MeshTooLarge>)
        requires
            self.valid(),
            mesh@.in_range(),
        ensures
            match r {
                Ok(out) => step_fits(mesh@, Step::Subdivide) && self.takes(
                    mesh@,
                    out@,
                    Step::Subdivide,
                ),
                Err(_) => !step_fits(mesh@, Step::Subdivide),
            },
    {
        let sides: u32 = match count_sides(mesh) {
            Some(n) => n,
            None => {
                return Err(MeshTooLarge);
            },
        };
        let n: usize = mesh.vertices.len();
        let nf: usize = mesh.faces.len();
        assert(mesh@.faces.len() == nf);
        if n > u32::MAX as usize || nf > u32::MAX as usize || n as u64 + nf as u64 + sides as u64
            > u32::MAX as u64 {
            return Err(MeshTooLarge);
        }
        Ok(mesh.catmull_clark(&self.middle, &self.join, &self.relax))
    }

    fn decimate(&self, mesh: Mesh, grid_res: u32) -> (r: Result<Mesh, MeshTooLarge>)
        requires
            self.valid(),
            mesh@.in_range(),
        ensures
            ({
                let step = Step::Decimate { grid_res };
                match r {
                    Ok(out) => step_fits(mesh@, step) && self.takes(mesh@, out@, step),
                    Err(_) => !step_fits(mesh@, step),
                }
            }),
    {
        let side: u32 = if grid_res < 2 {
            2
        } else {
            grid_res
        };
        let wide: u128 = side as u128;
        assert(wide * wide <= 0x1_0000_0000u128 * 0x1_0000_0000u128 && wide * wide * wide
            <= 0x1_0000_0000u128 * 0x1_0000_0000u128 * 0x1_0000_0000u128) by (nonlinear_arith)
            requires
                wide < 0x1_0000_0000,
        ;
        if mesh.vertices.len() > u32::MAX as usize || wide * wide * wide > usize::MAX as u128 {
            return Err(MeshTooLarge);
        }
        proof {
            lemma_side_fits(grid_res);
        }
        let ghost before = mesh@;
        let found: Option<Mesh> = mesh.decimate_cluster(grid_res, &self.assign, &self.mean);
        let ghost result = found;
        let out: Mesh = match found {
            Some(out) => out,
            None => mesh,
        };
        proof {
            if before.vertices.len() > 0 && before.faces.len() > 0 {
                let (points, cells) = choose|points: Vec<Vec3>, cells: Vec<usize>| #[trigger]
                    self.assign.ensures((points, grid_side(grid_res) as usize), cells) && points@
                        == before.vertices && match result {
                        Some(out) => is_clustered(
                            before,
                            out@,
                            cells@,
                            grid_cells(grid_res),
                            self.mean,
                        ) && clustered(fans(before.faces), cells@).len() > 0,
                        None => clustered(fans(before.faces), cells@).len() == 0,
                    };
                assert(self.assign.ensures((points, grid_side(grid_res) as usize), cells));
            }
            assert(is_decimated(before, out@, grid_res, self.assign, self.mean));
            assert(wide * wide * wide == grid_cells(grid_res));
        }
        Ok(out)
    }
}

/// The steps of the first modifiers come first.
proof fn lemma_steps_prefix(modifiers: Seq<Modifier>, n: int)
    requires
        0 <= n <= modifiers.len(),
    ensures
        all_steps(modifiers.take(n)).len() <= all_steps(modifiers).len(),
        forall|i: int|
            0 <= i < all_steps(modifiers.take(n)).len() ==> #[trigger] all_steps(
                modifiers.take(n),
            )[i] == all_steps(modifiers)[i],
    decreases modifiers.len() - n,
{
    if n < modifiers.len() {
        lemma_steps_prefix(modifiers, n + 1);
        assert(modifiers.take(n + 1).drop_last() =~= modifiers.take(n));
        let less = all_steps(modifiers.take(n));
        let more = all_steps(modifiers.take(n + 1));
        assert forall|i: int| 0 <= i < less.len() implies #[trigger] less[i] == all_steps(
            modifiers,
        )[i] by {
            assert(more[i] == less[i]);
        }
    } else {
        assert(modifiers.take(n) =~= modifiers);
    }
}

/// Whether a stack mirrors.
pub open spec fn mirrors(modifiers: Seq<Modifier>) -> bool {
    exists|i: int| 0 <= i < modifiers.len() && (#[trigger] modifiers[i]) is Mirror
}

impl Mesh {
    /// The mesh after a stack of modifiers, first modifier first. The mesh itself stays as it
    /// is. A step whose result cannot be numbered ends the stack with an error.
    pub fn evaluated<
        A: Fn(Vec3, Vec3, u32) -> Vec3,
        C: Fn(Vec<Vec3>) -> Vec3,
        E: Fn(Vec3, Vec3, Option<(Vec3, Vec3)>) -> Vec3,
        R: Fn(Vec3, VertexRule) -> Vec3,
        K: Fn(Vec<Vec3>, usize) -> Vec<usize>,
        M: Fn(Vec<Vec3>) -> Vec3,
    >(&self, modifiers: &Vec<Modifier>, placing: &Placing<A, C, E, R, K, M>) -> (r: Result<
        Mesh,
        MeshTooLarge,
    >)
        requires
            placing.valid(),
            self@.in_range(),
            mirrors(modifiers@) ==> no_empty_face(self@),
        ensures
            exists|stages: Seq<MeshModel>|
                #[trigger] placing.leads(self@, all_steps(modifiers@), stages) && match r {
                    Ok(out) => stages.len() == all_steps(modifiers@).len() + 1 && stages.last()
                        == out@,
                    Err(_) => stages.len() <= all_steps(modifiers@).len() && !step_fits(
                        stages.last(),
                        all_steps(modifiers@)[stages.len() - 1],
                    ),
                },
    {
        let ghost steps = all_steps(modifiers@);
        let ghost mut stages: Seq<MeshModel> = seq![self@];
        let mut current: Mesh = self.copy();
        let mut i: usize = 0;
        assert(modifiers@.take(0) =~= Seq::empty());
        assert(placing.leads(self@, steps, stages));
        while i < modifiers.len()
            invariant
                i <= modifiers.len(),
                placing.valid(),
                steps == all_steps(modifiers@),
                stages.len() == all_steps(modifiers@.take(i as int)).len() + 1,
                placing.leads(self@, steps, stages),
                stages.last() == current@,
                current@.in_range(),
                mirrors(modifiers@) ==> no_empty_face(current@),
            decreases modifiers.len() - i,
        {
            let modifier: Modifier = modifiers[i];
            let ghost at = stages.len() - 1;
            let ghost own = steps_of(modifier);
            proof {
                lemma_steps_prefix(modifiers@, i as int);
                lemma_steps_prefix(modifiers@, i + 1);
                assert(modifiers@.take(i + 1).drop_last() =~= modifiers@.take(i as int));
                let more = all_steps(modifiers@.take(i + 1));
                assert(more == all_steps(modifiers@.take(i as int)) + own);
                assert forall|j: int| 0 <= j < own.len() implies steps[at + j] == #[trigger] own[j] by {
                    assert(more[at + j] == own[j]);
                }
                if modifier is Mirror {
                    assert(modifiers@[i as int] is Mirror);
                }
            }
            match modifier {
                Modifier::Subdivide { levels } => {
                    let count: u32 = if levels < 4 {
                        levels
                    } else {
                        4
                    };
                    let mut k: u32 = 0;
                    while k < count
                        invariant
                            k <= count,
                            count == levels_of(levels),
                            placing.valid(),
                            steps == all_steps(modifiers@),
                            own == steps_of(Modifier::Subdivide { levels }),
                            own.len() == count,
                            at + own.len() <= steps.len(),
                            0 <= at,
                            forall|j: int|
                                0 <= j < own.len() ==> steps[at + j] == #[trigger] own[j],
                            stages.len() == at + k + 1,
                            placing.leads(self@, steps, stages),
                            stages.last() == current@,
                            current@.in_range(),
                            mirrors(modifiers@) ==> no_empty_face(current@),
                        decreases count - k,
                    {
                        assert(own[k as int] == Step::Subdivide);
                        assert(steps[at + k] == Step::Subdivide);
                        match placing.subdivide(&current) {
                            Ok(next) => {
                                proof {
                                    placing.steps_keep_range(current@, next@, Step::Subdivide);
                                    let before = stages;
                                    stages = stages.push(next@);
                                    lemma_leads_push(*placing, self@, steps, before, next@);
                                }
                                current = next;
                            },
                            Err(e) => {
                                return Err(e);
                            },
                        }
                        k = k + 1;
                    }
                },
                _ => {
                    assert(own.len() == 1);
                    assert(steps[at] == own[0]);
                    let made: Result<Mesh, MeshTooLarge> = match modifier {
                        Modifier::Mirror { axis } => placing.mirror(&current, axis),
                        Modifier::Array { count, offset } => placing.array(&current, count, offset),
                        Modifier::Decimate { grid_res } => placing.decimate(
                            current.copy(),
                            grid_res,
                        ),
                        Modifier::Subdivide { .. } => Ok(current.copy()),
                    };
                    match made {
                        Ok(next) => {
                            proof {
                                placing.steps_keep_range(current@, next@, own[0]);
                                let before = stages;
                                stages = stages.push(next@);
                                lemma_leads_push(*placing, self@, steps, before, next@);
                            }
                            current = next;
                        },
                        Err(e) => {
                            return Err(e);
                        },
                    }
                },
            }
            i = i + 1;
        }
        assert(modifiers@.take(i as int) =~= modifiers@);
        Ok(current)
    }
}

/// One stage more.
proof fn lemma_leads_push<
    A: Fn(Vec3, Vec3, u32) -> Vec3,
    C: Fn(Vec<Vec3>) -> Vec3,
    E: Fn(Vec3, Vec3, Option<(Vec3, Vec3)>) -> Vec3,
    R: Fn(Vec3, VertexRule) -> Vec3,
    K: Fn(Vec<Vec3>, usize) -> Vec<usize>,
    M: Fn(Vec<Vec3>) -> Vec3,
>(
    placing: Placing<A, C, E, R, K, M>,
    base: MeshModel,
    steps: Seq<Step>,
    stages: Seq<MeshModel>,
    next: MeshModel,
)
    requires
        placing.leads(base, steps, stages),
        stages.len() <= steps.len(),
        step_fits(stages.last(), steps[stages.len() - 1]),
        placing.takes(stages.last(), next, steps[stages.len() - 1]),
    ensures
        placing.leads(base, steps, stages.push(next)),
{
    let more = stages.push(next);
    assert forall|i: int| 0 <= i < more.len() - 1 implies step_fits(more[i], #[trigger] steps[i])
        && step_taken(
        more[i],
        more[i + 1],
        steps[i],
        placing.shift,
        placing.middle,
        placing.join,
        placing.relax,
        placing.assign,
        placing.mean,
    ) by {
        if i < stages.len() - 1 {
            assert(more[i] == stages[i] && more[i + 1] == stages[i + 1]);
            assert(step_fits(stages[i], steps[i]));
        }
    }
}

/// Whether a bone is turned away from rest.
pub open spec fn is_turned(pose: Quat) -> bool {
    let zero = Real { bits: ZERO_BITS };
    !(pose.x.same_number(zero) && pose.y.same_number(zero) && pose.z.same_number(zero)
        && pose.w.same_number(Real { bits: ONE_BITS }))
}

/// Whether some bone of an object with a skeleton and a skin is turned away from rest.
pub open spec fn is_posed(object: ObjectModel) -> bool {
    object.skeleton is Some && object.skin is Some && exists|i: int|
        0 <= i < object.skeleton->0.len() && is_turned((#[trigger] object.skeleton->0[i]).pose)
}

/// How the pose of a skeleton bends a mesh.
pub struct Posing<F, L, C, B, D> {
    /// The transform of a bone at rest, from its head.
    pub place: F,
    /// The transform of a posed bone in the space of its parent, from its head, the head of its
    /// parent and its pose.
    pub local: L,
    /// One transform after another.
    pub compose: C,
    /// The skinning transform of a bone, from its posed transform and that at rest.
    pub bind: B,
    /// Where a vertex comes to by the transforms of its bones and their weights; none where they
    /// do not move it.
    pub blend: D,
}

/// Whether everything that bends a mesh is defined everywhere.
pub open spec fn poses<
    T,
    F: Fn(Vec3) -> T,
    L: Fn(Vec3, Option<Vec3>, Quat) -> T,
    C: Fn(T, T) -> T,
    B: Fn(T, T) -> T,
    D: Fn(Vec3, Vec<(T, Real)>) -> Option<Vec3>,
>(by: &Posing<F, L, C, B, D>) -> bool {
    &&& forall|p: Vec3| #[trigger] by.place.requires((p,))
    &&& forall|p: Vec3, q: Option<Vec3>, t: Quat| #[trigger] by.local.requires((p, q, t))
    &&& forall|a: T, b: T| #[trigger] by.compose.requires((a, b))
    &&& forall|a: T, b: T| #[trigger] by.bind.requires((a, b))
    &&& forall|p: Vec3, given: Vec<(T, Real)>| #[trigger] by.blend.requires((p, given))
}

/// Whether `mesh` is a mesh as a skeleton bends it: each vertex where the skinning transforms of
/// the bones move it by its skin. A mesh that the skin does not fit stays as it is.
pub open spec fn is_skinned<
    T,
    F: Fn(Vec3) -> T,
    L: Fn(Vec3, Option<Vec3>, Quat) -> T,
    C: Fn(T, T) -> T,
    B: Fn(T, T) -> T,
    D: Fn(Vec3, Vec<(T, Real)>) -> Option<Vec3>,
>(
    base: MeshModel,
    bones: Seq<Bone>,
    skin: Skin,
    by: &Posing<F, L, C, B, D>,
    mesh: MeshModel,
) -> bool {
    if skin.indices.len() == base.vertices.len() && skin.weights.len() == base.vertices.len() {
        exists|matrices: Seq<T>| #[trigger]
            skinning(bones, by.place, by.local, by.compose, by.bind, matrices) && {
                &&& mesh.faces == base.faces
                &&& mesh.vertices.len() == base.vertices.len()
                &&& forall|v: int|
                    0 <= v < base.vertices.len() ==> deformed(
                        base.vertices[v],
                        skin.indices[v]@,
                        skin.weights[v]@,
                        matrices,
                        &by.blend,
                        #[trigger] mesh.vertices[v],
                    )
            }
    } else {
        mesh == base
    }
}

/// Whether `mesh` is the mesh of an object as its pose bends it: the mesh bent by its own skeleton
/// and skin where some bone is turned, and the mesh itself otherwise.
pub open spec fn is_bent<
    T,
    F: Fn(Vec3) -> T,
    L: Fn(Vec3, Option<Vec3>, Quat) -> T,
    C: Fn(T, T) -> T,
    B: Fn(T, T) -> T,
    D: Fn(Vec3, Vec<(T, Real)>) -> Option<Vec3>,
>(object: Object, by: &Posing<F, L, C, B, D>, mesh: MeshModel) -> bool {
    if is_posed(object@) {
        is_skinned(
            object@.mesh->0,
            (object.skeleton->0).bones@,
            object.skin->0,
            by,
            mesh,
        )
    } else {
        mesh == object@.mesh->0
    }
}

/// Whether some bone is turned away from rest.
pub fn any_turned(skeleton: &Skeleton) -> (r: bool)
    ensures
        r == exists|i: int| 0 <= i < skeleton@.len() && is_turned((#[trigger] skeleton@[i]).pose),
{
    let zero: Real = Real { bits: ZERO_BITS };
    let one: Real = Real { bits: ONE_BITS };
    let mut i: usize = 0;
    while i < skeleton.bones.len()
        invariant
            i <= skeleton.bones.len(),
            zero == (Real { bits: ZERO_BITS }),
            one == (Real { bits: ONE_BITS }),
            forall|j: int| 0 <= j < i ==> !is_turned((#[trigger] skeleton@[j]).pose),
        decreases skeleton.bones.len() - i,
    {
        let pose: Quat = skeleton.bones[i].pose;
        assert(skeleton@[i as int].pose == pose);
        if !(pose.x.equals(zero) && pose.y.equals(zero) && pose.z.equals(zero) && pose.w.equals(
            one,
        )) {
            return true;
        }
        i = i + 1;
    }
    false
}

impl Object {
    /// The mesh that an object is shown with: its mesh, bent by its skeleton and its skin where
    /// some bone is turned away from rest, and then taken through its modifiers. None if the object
    /// has no mesh.
    pub fn display_mesh<
        T: Copy,
        F: Fn(Vec3) -> T,
        L: Fn(Vec3, Option<Vec3>, Quat) -> T,
        J: Fn(T, T) -> T,
        B: Fn(T, T) -> T,
        D: Fn(Vec3, Vec<(T, Real)>) -> Option<Vec3>,
        A: Fn(Vec3, Vec3, u32) -> Vec3,
        C: Fn(Vec<Vec3>) -> Vec3,
        E: Fn(Vec3, Vec3, Option<(Vec3, Vec3)>) -> Vec3,
        R: Fn(Vec3, VertexRule) -> Vec3,
        K: Fn(Vec<Vec3>, usize) -> Vec<usize>,
        M: Fn(Vec<Vec3>) -> Vec3,
    >(&self, posing: &Posing<F, L, J, B, D>, placing: &Placing<A, C, E, R, K, M>) -> (r: Result<
        Option<Mesh>,
        MeshTooLarge,
    >)
        requires
            placing.valid(),
            poses::<T, F, L, J, B, D>(posing),
            self@.mesh is Some && is_posed(self@) ==> parents_first((self.skeleton->0).bones@),
            self.modifiers.len() > 0 && self@.mesh is Some ==> self@.mesh->0.in_range() && (mirrors(
                self.modifiers@,
            ) ==> no_empty_face(self@.mesh->0)),
        ensures
            self@.mesh is None ==> r == Ok::<Option<Mesh>, MeshTooLarge>(None),
            self@.mesh is Some && !is_posed(self@) && self.modifiers.len() == 0 ==> (r matches Ok(
                Some(m),
            ) && m@ == self@.mesh->0),
            self@.mesh is Some ==> exists|bent: MeshModel, stages: Seq<MeshModel>|
                is_bent::<T, F, L, J, B, D>(*self, posing, bent) && #[trigger] placing.leads(
                    bent,
                    all_steps(self@.modifiers),
                    stages,
                ) && match r {
                    Ok(shown) => stages.len() == all_steps(self@.modifiers).len() + 1
                        && crate::object::mesh_model(shown) == Some(stages.last()),
                    Err(_) => stages.len() <= all_steps(self@.modifiers).len() && !step_fits(
                        stages.last(),
                        all_steps(self@.modifiers)[stages.len() - 1],
                    ),
                },
    {
        let base: &Mesh = match &self.mesh {
            Some(mesh) => mesh,
            None => {
                return Ok(None);
            },
        };
        let posed: bool = match (&self.skeleton, &self.skin) {
            (Some(skeleton), Some(_)) => any_turned(skeleton),
            _ => false,
        };
        assert(posed == is_posed(self@));
        let bent: Mesh = match (&self.skeleton, &self.skin) {
            (Some(skeleton), Some(skin)) => if posed {
                let matrices: Vec<T> = skeleton.skinning_matrices(
                    &posing.place,
                    &posing.local,
                    &posing.compose,
                    &posing.bind,
                );
                let bent: Mesh = base.skin_deform(skin, &matrices, &posing.blend);
                proof {
                    assert(skinning(
                        skeleton.bones@,
                        posing.place,
                        posing.local,
                        posing.compose,
                        posing.bind,
                        matrices@,
                    ));
                    assert(is_skinned(base@, skeleton.bones@, *skin, posing, bent@));
                }
                bent
            } else {
                base.copy()
            },
            _ => base.copy(),
        };
        proof {
            if self.skeleton is Some {
                assert(self@.skeleton->0.len() == self.skeleton->0.bones@.len());
            }
            assert(is_bent::<T, F, L, J, B, D>(*self, posing, bent@));
        }
        if self.modifiers.len() == 0 {
            proof {
                let stages = seq![bent@];
                assert(all_steps(self@.modifiers).len() == 0);
                assert(placing.leads(bent@, all_steps(self@.modifiers), stages));
            }
            return Ok(Some(bent));
        }
        proof {
            assert(bent@.faces == base@.faces);
            assert(bent@.vertices.len() == base@.vertices.len());
        }
        let made: Result<Mesh, MeshTooLarge> = bent.evaluated(&self.modifiers, placing);
        let ghost result = made;
        let shown: Result<Option<Mesh>, MeshTooLarge> = match made {
            Ok(mesh) => Ok(Some(mesh)),
            Err(e) => Err(e),
        };
        proof {
            let steps = all_steps(self@.modifiers);
            let stages = choose|stages: Seq<MeshModel>|
                #[trigger] placing.leads(bent@, steps, stages) && match result {
                    Ok(out) => stages.len() == steps.len() + 1 && stages.last() == out@,
                    Err(_) => stages.len() <= steps.len() && !step_fits(
                        stages.last(),
                        steps[stages.len() - 1],
                    ),
                };
            assert(placing.leads(bent@, all_steps(self@.modifiers), stages));
            if let Ok(out) = result {
                assert(crate::object::mesh_model(shown->Ok_0) == Some(out@));
            }
        }
        shown
    }
}

} // verus!
