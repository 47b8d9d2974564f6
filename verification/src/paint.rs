//! Brushes: their tips, how they lay down paint, and the corners of their dabs.
use crate::number::{Real, ONE_BITS, ZERO_BITS};
use vstd::prelude::*;

verus! {

/// The shape of a dab.
#[derive(Clone, Copy, Debug, PartialEq, Eq, Structural)]
pub enum BrushTip {
    /// A soft circle.
    Round,
    /// A box.
    Square,
    /// An airbrush.
    Soft,
}

/// The name of a tip.
pub open spec fn tip_label(t: BrushTip) -> &'static str {
    match t {
        BrushTip::Round => "Round",
        BrushTip::Square => "Square",
        BrushTip::Soft => "Soft",
    }
}

/// The tips, in order.
pub open spec fn brush_tips() -> Seq<BrushTip> {
    seq![BrushTip::Round, BrushTip::Square, BrushTip::Soft]
}

impl Default for BrushTip {
    fn default() -> (r: BrushTip)
        ensures
            r == BrushTip::Round,
    {
        BrushTip::Round
    }
}

impl BrushTip {
    /// The place of the tip in the order of all tips, by which the shader tells them apart.
    pub open spec fn place(self) -> u32 {
        match self {
            BrushTip::Round => 0,
            BrushTip::Square => 1,
            BrushTip::Soft => 2,
        }
    }

    /// The number by which the shader tells the tip from the others.
    pub fn id(self) -> (r: u32)
        ensures
            r == self.place(),
            brush_tips()[r as int] == self,
    {
        match self {
            BrushTip::Round => 0,
            BrushTip::Square => 1,
            BrushTip::Soft => 2,
        }
    }

    /// The name of the tip.
    pub fn label(self) -> (r: &'static str)
        ensures
            r@ == tip_label(self)@,
    {
        match self {
            BrushTip::Round => "Round",
            BrushTip::Square => "Square",
            BrushTip::Soft => "Soft",
        }
    }

    /// The tips, in order.
    pub fn all() -> (r: [BrushTip; 3])
        ensures
            r@ == brush_tips(),
    {
        let r: [BrushTip; 3] = [BrushTip::Round, BrushTip::Square, BrushTip::Soft];
        assert(r@ =~= brush_tips());
        r
    }
}

/// How a dab is laid onto the canvas.
#[derive(Clone, Copy, Debug, PartialEq, Eq, Structural)]
pub enum BrushBlend {
    /// Over what is there.
    Normal,
    /// Added to what is there.
    Add,
    /// Taking away what is there.
    Erase,
}

/// The name of a way to lay paint.
pub open spec fn brush_blend_label(b: BrushBlend) -> &'static str {
    match b {
        BrushBlend::Normal => "Normal",
        BrushBlend::Add => "Add",
        BrushBlend::Erase => "Erase",
    }
}

/// The ways to lay paint, in order.
pub open spec fn brush_blends() -> Seq<BrushBlend> {
    seq![BrushBlend::Normal, BrushBlend::Add, BrushBlend::Erase]
}

impl Default for BrushBlend {
    fn default() -> (r: BrushBlend)
        ensures
            r == BrushBlend::Normal,
    {
        BrushBlend::Normal
    }
}

impl BrushBlend {
    /// The name.
    pub fn label(self) -> (r: &'static str)
        ensures
            r@ == brush_blend_label(self)@,
    {
        match self {
            BrushBlend::Normal => "Normal",
            BrushBlend::Add => "Add",
            BrushBlend::Erase => "Erase",
        }
    }

    /// The ways to lay paint, in order.
    pub fn all() -> (r: [BrushBlend; 3])
        ensures
            r@ == brush_blends(),
    {
        let r: [BrushBlend; 3] = [BrushBlend::Normal, BrushBlend::Add, BrushBlend::Erase];
        assert(r@ =~= brush_blends());
        r
    }

    /// The place in the order of all, which is that of its pipeline.
    pub fn pipeline(self) -> (r: usize)
        ensures
            r < 3,
            brush_blends()[r as int] == self,
    {
        match self {
            BrushBlend::Normal => 0,
            BrushBlend::Add => 1,
            BrushBlend::Erase => 2,
        }
    }
}

/// A brush. The radius of its dabs is a share of the width of the canvas.
#[derive(Clone, Copy, Debug)]
pub struct Brush {
    pub radius_uv: Real,
    pub color: [Real; 4],
    /// One is a crisp edge, zero a soft one.
    pub hardness: Real,
    /// How much paint a dab lays down.
    pub flow: Real,
    pub tip: BrushTip,
    pub blend: BrushBlend,
    /// How much the brush drags what is on the canvas along.
    pub smudge: Real,
}

impl Default for Brush {
    fn default() -> (r: Brush)
        ensures
            r.radius_uv.bits == 0x3ca3_d70a,
            r.color@ == seq![
                Real { bits: 0x3dcc_cccd },
                Real { bits: 0x3de1_47ae },
                Real { bits: 0x3e05_1eb8 },
                Real { bits: ONE_BITS },
            ],
            r.hardness.bits == 0x3f00_0000,
            r.flow.bits == 0x3f33_3333,
            r.tip == BrushTip::Round,
            r.blend == BrushBlend::Normal,
            r.smudge.bits == ZERO_BITS,
    {
        let color: [Real; 4] = [
            Real { bits: 0x3dcc_cccd },
            Real { bits: 0x3de1_47ae },
            Real { bits: 0x3e05_1eb8 },
            Real { bits: ONE_BITS },
        ];
        assert(color@ =~= seq![
            Real { bits: 0x3dcc_cccd },
            Real { bits: 0x3de1_47ae },
            Real { bits: 0x3e05_1eb8 },
            Real { bits: ONE_BITS },
        ]);
        Brush {
            radius_uv: Real { bits: 0x3ca3_d70a },
            color,
            hardness: Real { bits: 0x3f00_0000 },
            flow: Real { bits: 0x3f33_3333 },
            tip: BrushTip::Round,
            blend: BrushBlend::Normal,
            smudge: Real { bits: ZERO_BITS },
        }
    }
}

/// The least pressure that counts, one hundredth.
pub const LEAST_PRESSURE_BITS: u32 = 0x3c23_d70a;

/// What a brush smudges from on, one ten-thousandth.
pub const LEAST_SMUDGE_BITS: u32 = 0x38d1_b717;

/// A pressure, held between the least and full.
pub open spec fn pressed(p: Real) -> Real {
    p.held(Real { bits: LEAST_PRESSURE_BITS }, Real { bits: ONE_BITS })
}

impl Brush {
    /// The brush under a pressure. `radius` and `flow` are what a radius and a flow become under
    /// it; the rest stays.
    pub fn under_pressure<R: Fn(Real, Real) -> Real, F: Fn(Real, Real) -> Real>(
        &self,
        pressure: Real,
        radius: &R,
        flow: &F,
    ) -> (r: Brush)
        requires
            forall|a: Real, p: Real| #[trigger] (*radius).requires((a, p)),
            forall|a: Real, p: Real| #[trigger] (*flow).requires((a, p)),
        ensures
            (*radius).ensures((self.radius_uv, pressed(pressure)), r.radius_uv),
            (*flow).ensures((self.flow, pressed(pressure)), r.flow),
            r.color == self.color,
            r.hardness == self.hardness,
            r.tip == self.tip,
            r.blend == self.blend,
            r.smudge == self.smudge,
    {
        let p: Real = pressure.clamp(Real { bits: LEAST_PRESSURE_BITS }, Real { bits: ONE_BITS });
        Brush {
            radius_uv: radius(self.radius_uv, p),
            color: self.color,
            hardness: self.hardness,
            flow: flow(self.flow, p),
            tip: self.tip,
            blend: self.blend,
            smudge: self.smudge,
        }
    }

    /// Whether the brush drags what is on the canvas along.
    pub fn smudges(&self) -> (r: bool)
        ensures
            r == (Real { bits: LEAST_SMUDGE_BITS }).less(self.smudge),
    {
        Real { bits: LEAST_SMUDGE_BITS }.lt(self.smudge)
    }
}

/// A corner of a dab: which side, and whether it is at the top.
#[derive(Clone, Copy, Debug, PartialEq, Eq, Structural)]
pub struct DabCorner {
    pub right: bool,
    pub top: bool,
}

/// The corners of the two triangles that a dab is drawn as.
pub open spec fn dab_corner(k: int) -> DabCorner {
    if k == 0 || k == 3 {
        DabCorner { right: false, top: true }
    } else if k == 1 {
        DabCorner { right: true, top: true }
    } else if k == 2 || k == 4 {
        DabCorner { right: true, top: false }
    } else {
        DabCorner { right: false, top: false }
    }
}

/// The vertices of `steps + 1` dabs in a row. `corner` is a corner of a dab by its number.
pub fn build_dab_vertices<V, C: Fn(usize, DabCorner) -> V>(steps: usize, corner: &C) -> (r: Vec<V>)
    requires
        6 * (steps + 1) <= usize::MAX,
        forall|i: usize, c: DabCorner| #[trigger] (*corner).requires((i, c)),
    ensures
        r.len() == 6 * (steps + 1),
        forall|i: int, k: int|
            0 <= i <= steps && 0 <= k < 6 ==> (*corner).ensures(
                (i as usize, #[trigger] dab_corner(k)),
                #[trigger] r@[6 * i + k],
            ),
{
    let mut out: Vec<V> = Vec::new();
    let mut i: usize = 0;
    while i <= steps
        invariant
            i <= steps + 1,
            6 * (steps + 1) <= usize::MAX,
            out.len() == 6 * i,
            forall|i: usize, c: DabCorner| #[trigger] (*corner).requires((i, c)),
            forall|j: int, k: int|
                0 <= j < i && 0 <= k < 6 ==> (*corner).ensures(
                    (j as usize, #[trigger] dab_corner(k)),
                    #[trigger] out@[6 * j + k],
                ),
        decreases steps + 1 - i,
    {
        let ghost before = out@;
        let mut k: usize = 0;
        while k < 6
            invariant
                k <= 6,
                i <= steps,
                6 * (steps + 1) <= usize::MAX,
                before.len() == 6 * i,
                out.len() == 6 * i + k,
                forall|i: usize, c: DabCorner| #[trigger] (*corner).requires((i, c)),
                forall|q: int| 0 <= q < before.len() ==> out@[q] == before[q],
                forall|q: int|
                    0 <= q < k ==> (*corner).ensures(
                        (i, #[trigger] dab_corner(q)),
                        #[trigger] out@[6 * i + q],
                    ),
            decreases 6 - k,
        {
            let c: DabCorner = if k == 0 || k == 3 {
                DabCorner { right: false, top: true }
            } else if k == 1 {
                DabCorner { right: true, top: true }
            } else if k == 2 || k == 4 {
                DabCorner { right: true, top: false }
            } else {
                DabCorner { right: false, top: false }
            };
            let v: V = corner(i, c);
            out.push(v);
            k = k + 1;
        }
        assert forall|j: int, k: int| 0 <= j < i + 1 && 0 <= k < 6 implies (*corner).ensures(
            (j as usize, #[trigger] dab_corner(k)),
            #[trigger] out@[6 * j + k],
        ) by {
            if j < i {
                assert((*corner).ensures((j as usize, dab_corner(k)), before[6 * j + k]));
            }
        }
        i = i + 1;
    }
    out
}

} // verus!
