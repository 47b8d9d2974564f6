//! What a ray hits first: the decisions of the box test and of the triangle test.
use crate::number::{Real, Vec3, INFINITE, ONE_BITS, ZERO_BITS};
use crate::object::Aabb;
use crate::overlay::GizmoAxis;
use crate::pick_laws::{passes_by, rays_past_a_box_miss};
use crate::solids::along;
use vstd::prelude::*;

verus! {

/// The bit pattern of one hundred-millionth: what is smaller counts as nothing.
pub const NOTHING_BITS: u32 = 0x322b_cc77;

/// The bit pattern of one millionth, the distance from which on a triangle is hit.
pub const NEAR_BITS: u32 = 0x3586_37bd;

/// The bit pattern of minus infinity.
pub const MINUS_INFINITE: u32 = 0xff80_0000;

/// The axes, in order.
pub open spec fn axis_at(k: int) -> GizmoAxis {
    if k == 0 {
        GizmoAxis::X
    } else if k == 1 {
        GizmoAxis::Y
    } else {
        GizmoAxis::Z
    }
}

/// The part of a ray that lies between two crossings as well, where there is any.
pub open spec fn narrowed(part: (Real, Real), t1: Real, t2: Real) -> Option<(Real, Real)> {
    let from = part.0.greater(if t2.less(t1) { t2 } else { t1 });
    let to = part.1.lesser(if t2.less(t1) { t1 } else { t2 });
    if to.less(from) {
        None
    } else {
        Some((from, to))
    }
}

/// Whether `after` is what is left of a part of a ray between `lo` and `hi` along one axis, where
/// the ray begins at `o` and goes along `d`. `crossing` is how far along the ray a place is.
pub open spec fn slab_step<C: Fn(Real, Real, Real) -> Real>(
    o: Real,
    d: Real,
    lo: Real,
    hi: Real,
    crossing: &C,
    part: (Real, Real),
    after: Option<(Real, Real)>,
) -> bool {
    if d.magnitude() < NOTHING_BITS {
        after == (if o.less(lo) || hi.less(o) {
            None
        } else {
            Some(part)
        })
    } else {
        exists|t1: Real, t2: Real| #[trigger]
            (*crossing).ensures((lo, o, d), t1) && #[trigger] (*crossing).ensures((hi, o, d), t2)
                && after == narrowed(part, t1, t2)
    }
}

/// What is left of the whole ray after the first axes, axis by axis.
pub open spec fn slab_steps<C: Fn(Real, Real, Real) -> Real>(
    origin: Vec3,
    dir: Vec3,
    b: Aabb,
    crossing: &C,
    parts: Seq<Option<(Real, Real)>>,
) -> bool {
    &&& parts.len() == 4
    &&& parts[0] == Some((Real { bits: MINUS_INFINITE }, Real { bits: INFINITE }))
    &&& forall|k: int|
        0 <= k < 3 ==> match #[trigger] parts[k] {
            None => parts[k + 1] is None,
            Some(part) => slab_step(
                along(origin, axis_at(k)),
                along(dir, axis_at(k)),
                along(b.min, axis_at(k)),
                along(b.max, axis_at(k)),
                crossing,
                part,
                parts[k + 1],
            ),
        }
}

/// Where a ray enters a box, by the part of it that lies inside: none where that part is behind.
pub open spec fn entry(part: Option<(Real, Real)>) -> Option<Real> {
    let zero = Real { bits: ZERO_BITS };
    match part {
        None => None,
        Some(p) => if p.1.less(zero) {
            None
        } else {
            Some(p.0.greater(zero))
        },
    }
}

fn slab<C: Fn(Real, Real, Real) -> Real>(
    o: Real,
    d: Real,
    lo: Real,
    hi: Real,
    crossing: &C,
    part: (Real, Real),
) -> (r: Option<(Real, Real)>)
    requires
        forall|e: Real, o: Real, d: Real| #[trigger] (*crossing).requires((e, o, d)),
    ensures
        slab_step(o, d, lo, hi, crossing, part, r),
{
    if d.magnitude_bits() < NOTHING_BITS {
        if o.lt(lo) || hi.lt(o) {
            None
        } else {
            Some(part)
        }
    } else {
        let t1: Real = crossing(lo, o, d);
        let t2: Real = crossing(hi, o, d);
        let turned: bool = t2.lt(t1);
        let from: Real = part.0.max(if turned { t2 } else { t1 });
        let to: Real = part.1.min(if turned { t1 } else { t2 });
        if to.lt(from) {
            None
        } else {
            Some((from, to))
        }
    }
}

/// How far along a ray a box is hit first. The box lies in the world by `world`, and `local` is
/// where the ray begins and goes in the space of the box. `crossing` is how far along the ray a
/// place on one axis is, from where the ray begins and goes on that axis. A ray that begins inside
/// hits at once.
pub fn ray_aabb_world<
    W,
    A: Fn(W, Vec3, Vec3) -> (Vec3, Vec3),
    C: Fn(Real, Real, Real) -> Real,
>(
    ray_origin: Vec3,
    ray_dir: Vec3,
    world: W,
    b: Aabb,
    local: &A,
    crossing: &C,
) -> (r: Option<Real>)
    requires
        forall|w: W, o: Vec3, d: Vec3| #[trigger] (*local).requires((w, o, d)),
        forall|e: Real, o: Real, d: Real| #[trigger] (*crossing).requires((e, o, d)),
    ensures
        exists|ray: (Vec3, Vec3), parts: Seq<Option<(Real, Real)>>|
            (*local).ensures((world, ray_origin, ray_dir), ray) && #[trigger] slab_steps(
                ray.0,
                ray.1,
                b,
                crossing,
                parts,
            ) && r == entry(parts[3]) && (passes_by(ray.0, ray.1, b) ==> r is None),
        r matches Some(t) ==> !t.nan() && !t.less(Real { bits: ZERO_BITS }),
{
    let ghost space = world;
    let (origin, dir): (Vec3, Vec3) = local(world, ray_origin, ray_dir);
    let ghost ray = (origin, dir);
    assert((*local).ensures((space, ray_origin, ray_dir), ray));
    let whole: (Real, Real) = (Real { bits: MINUS_INFINITE }, Real { bits: INFINITE });
    let first: Option<(Real, Real)> = slab(origin.x, dir.x, b.min.x, b.max.x, crossing, whole);
    let second: Option<(Real, Real)> = match first {
        None => None,
        Some(part) => slab(origin.y, dir.y, b.min.y, b.max.y, crossing, part),
    };
    let third: Option<(Real, Real)> = match second {
        None => None,
        Some(part) => slab(origin.z, dir.z, b.min.z, b.max.z, crossing, part),
    };
    proof {
        let parts = seq![Some(whole), first, second, third];
        assert(slab_steps(ray.0, ray.1, b, crossing, parts));
        assert(parts[3] == third);
        if passes_by(ray.0, ray.1, b) {
            rays_past_a_box_miss(ray.0, ray.1, b, crossing, parts);
        }
    }
    let zero: Real = Real { bits: ZERO_BITS };
    match third {
        None => None,
        Some(part) => {
            if part.1.lt(zero) {
                None
            } else {
                Some(part.0.max(zero))
            }
        },
    }
}

/// What the triangle test measures: the determinant of the triangle against the ray, where on the
/// triangle the ray comes to, `uv` being `u` and `v` together, and how far along the ray that is.
#[derive(Clone, Copy, Debug, PartialEq, Eq, Structural)]
pub struct TriangleHit {
    pub det: Real,
    pub u: Real,
    pub v: Real,
    pub uv: Real,
    pub t: Real,
}

impl TriangleHit {
    /// Whether the ray comes to the triangle, ahead of where it begins.
    pub open spec fn hits(self) -> bool {
        let zero = Real { bits: ZERO_BITS };
        let one = Real { bits: ONE_BITS };
        &&& self.det.magnitude() >= NOTHING_BITS
        &&& !self.u.nan() && !self.u.less(zero) && !one.less(self.u)
        &&& !self.v.less(zero)
        &&& !one.less(self.uv)
        &&& Real { bits: NEAR_BITS }.less(self.t)
    }

    /// How far along the ray the triangle is hit.
    pub open spec fn distance(self) -> Option<Real> {
        if self.hits() {
            Some(self.t)
        } else {
            None
        }
    }
}

/// How far along a ray a triangle is hit, by what was measured. A triangle along the ray is not
/// hit.
pub fn ray_triangle(m: TriangleHit) -> (r: Option<Real>)
    ensures
        r == m.distance(),
{
    let zero: Real = Real { bits: ZERO_BITS };
    let one: Real = Real { bits: ONE_BITS };
    let near: Real = Real { bits: NEAR_BITS };
    if m.det.magnitude_bits() < NOTHING_BITS {
        None
    } else if !(zero.le(m.u) && m.u.le(one)) {
        None
    } else if m.v.lt(zero) || one.lt(m.uv) {
        None
    } else if near.lt(m.t) {
        Some(m.t)
    } else {
        None
    }
}

/// What is left of a part of a ray lies in it: it begins no earlier and ends no later.
pub proof fn parts_only_shrink(part: (Real, Real), t1: Real, t2: Real, after: (Real, Real))
    requires
        narrowed(part, t1, t2) == Some(after),
    ensures
        !after.0.less(part.0),
        !part.1.less(after.1),
        !after.1.less(after.0),
{
}

} // verus!
