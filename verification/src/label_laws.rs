//! What the pickers show: the names of modes, adjustments, kinds, modifiers and brushes.
use crate::frame::{projection_label, Projection};
use crate::kinds::{
    adjustment_defaults, adjustment_label, blend_label, blend_modes, blend_number, kind_label,
    modifier_label, AdjustmentKind, BlendMode, Modifier, ObjectKind,
};
use crate::paint::{brush_blend_label, brush_blends, brush_tips, tip_label};
use crate::stack_laws::{same_kind, settings};
use vstd::prelude::*;

verus! {

/// The names in the picker of blend modes, from the first to the last.
pub open spec fn blend_names() -> Seq<&'static str> {
    seq![
        "Normal",
        "Multiply",
        "Screen",
        "Overlay",
        "Soft Light",
        "Hard Light",
        "Linear Dodge (Add)",
        "Subtract",
        "Darken",
        "Lighten",
        "Color Dodge",
        "Color Burn",
        "Linear Burn",
        "Difference",
        "Exclusion",
        "Divide",
        "Vivid Light",
        "Linear Light",
        "Pin Light",
        "Hard Mix",
    ]
}

/// The names in the picker of adjustments, from the first to the last.
pub open spec fn adjustment_names() -> Seq<&'static str> {
    seq![
        "Brightness / Contrast",
        "Hue / Saturation",
        "Levels",
        "Exposure",
        "Vibrance",
        "White Balance",
        "Posterize",
        "Threshold",
        "Invert",
        "Box Blur",
        "Sharpen",
        "Edge Detect",
        "Gaussian Blur",
    ]
}

/// Every blend mode is in the picker, in the place of its number and under its name.
pub proof fn blend_modes_are_named_in_order(mode: BlendMode)
    ensures
        blend_modes().len() == blend_names().len(),
        blend_number(mode) < blend_modes().len(),
        blend_modes()[blend_number(mode) as int] == mode,
        blend_label(mode)@ == blend_names()[blend_number(mode) as int]@,
{
}

/// Every kind of adjustment is in the picker once, and its name does not depend on its settings.
pub proof fn adjustments_are_named_in_order(kind: AdjustmentKind, i: int)
    requires
        0 <= i < adjustment_defaults().len(),
        same_kind(kind, adjustment_defaults()[i]),
    ensures
        adjustment_defaults().len() == adjustment_names().len(),
        adjustment_label(kind)@ == adjustment_names()[i]@,
{
}

/// The adjustments that the picker offers first change nothing: what is added is zero, and what
/// multiplies is one.
pub proof fn offered_adjustments_change_nothing(kind: AdjustmentKind, i: int, k: int)
    requires
        0 <= i < 6,
        kind == adjustment_defaults()[i],
        0 <= k < settings(kind).len(),
    ensures
        kind is HueSaturation && k == 1 ==> settings(kind)[k].bits == 0x3f80_0000,
        kind is Levels && k >= 1 ==> settings(kind)[k].bits == 0x3f80_0000,
        kind is HueSaturation && k != 1 ==> settings(kind)[k].bits == 0,
        kind is Levels && k == 0 ==> settings(kind)[k].bits == 0,
        kind !is HueSaturation && kind !is Levels ==> settings(kind)[k].bits == 0,
{
}

/// Kinds of objects, modifiers, brushes and projections go by their names.
pub proof fn things_go_by_their_names(kind: ObjectKind, modifier: Modifier, p: Projection)
    ensures
        kind_label(kind)@ == (match kind {
            ObjectKind::Cube => "Cube"@,
            ObjectKind::Sphere => "Sphere"@,
            ObjectKind::ImagePlane => "Image Plane"@,
            ObjectKind::PaintCanvas => "Paint Canvas"@,
            ObjectKind::Mesh => "Mesh"@,
            ObjectKind::Adjustment => "Adjustment Layer"@,
        }),
        modifier is Mirror ==> modifier_label(modifier)@ == "Mirror"@,
        modifier is Array ==> modifier_label(modifier)@ == "Array"@,
        modifier is Subdivide ==> modifier_label(modifier)@ == "Subdivide"@,
        modifier is Decimate ==> modifier_label(modifier)@ == "Decimate"@,
        projection_label(p)@ == (if p is Perspective {
            "perspective"@
        } else {
            "orthographic"@
        }),
{
}

/// The brush tips and the ways to lay paint are offered in order, under their names.
pub proof fn brushes_are_named_in_order()
    ensures
        brush_tips().len() == 3 && brush_blends().len() == 3,
        tip_label(brush_tips()[0])@ == "Round"@,
        tip_label(brush_tips()[1])@ == "Square"@,
        tip_label(brush_tips()[2])@ == "Soft"@,
        brush_blend_label(brush_blends()[0])@ == "Normal"@,
        brush_blend_label(brush_blends()[1])@ == "Add"@,
        brush_blend_label(brush_blends()[2])@ == "Erase"@,
        forall|i: int| 0 <= i < 3 ==> (#[trigger] brush_tips()[i]).place() == i,
{
}

} // verus!
