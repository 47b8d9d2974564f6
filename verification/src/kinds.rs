//! The kinds of things in a scene: how layers blend, what adjustments do, what objects are.
use crate::number::{Real, Vec3};
use vstd::prelude::*;

verus! {

/// How a layer blends with what lies beneath it.
#[derive(Clone, Copy, Debug, PartialEq, Eq, Structural)]
pub enum BlendMode {
    Normal,
    Multiply,
    Screen,
    Overlay,
    SoftLight,
    HardLight,
    Add,
    Subtract,
    Darken,
    Lighten,
    ColorDodge,
    ColorBurn,
    LinearBurn,
    Difference,
    Exclusion,
    Divide,
    VividLight,
    LinearLight,
    PinLight,
    HardMix,
}

/// The number of blend modes.
pub const BLEND_MODES: usize = 20;

/// The blend modes in the order of the picker, which is also the order of the numbers that
/// shaders know them by.
pub open spec fn blend_modes() -> Seq<BlendMode> {
    seq![
        BlendMode::Normal,
        BlendMode::Multiply,
        BlendMode::Screen,
        BlendMode::Overlay,
        BlendMode::SoftLight,
        BlendMode::HardLight,
        BlendMode::Add,
        BlendMode::Subtract,
        BlendMode::Darken,
        BlendMode::Lighten,
        BlendMode::ColorDodge,
        BlendMode::ColorBurn,
        BlendMode::LinearBurn,
        BlendMode::Difference,
        BlendMode::Exclusion,
        BlendMode::Divide,
        BlendMode::VividLight,
        BlendMode::LinearLight,
        BlendMode::PinLight,
        BlendMode::HardMix,
    ]
}

/// The name of a blend mode in the picker.
pub open spec fn blend_label(mode: BlendMode) -> &'static str {
    match mode {
        BlendMode::Normal => "Normal",
        BlendMode::Multiply => "Multiply",
        BlendMode::Screen => "Screen",
        BlendMode::Overlay => "Overlay",
        BlendMode::SoftLight => "Soft Light",
        BlendMode::HardLight => "Hard Light",
        BlendMode::Add => "Linear Dodge (Add)",
        BlendMode::Subtract => "Subtract",
        BlendMode::Darken => "Darken",
        BlendMode::Lighten => "Lighten",
        BlendMode::ColorDodge => "Color Dodge",
        BlendMode::ColorBurn => "Color Burn",
        BlendMode::LinearBurn => "Linear Burn",
        BlendMode::Difference => "Difference",
        BlendMode::Exclusion => "Exclusion",
        BlendMode::Divide => "Divide",
        BlendMode::VividLight => "Vivid Light",
        BlendMode::LinearLight => "Linear Light",
        BlendMode::PinLight => "Pin Light",
        BlendMode::HardMix => "Hard Mix",
    }
}

/// The number that shaders know a blend mode by.
pub open spec fn blend_number(mode: BlendMode) -> u32 {
    match mode {
        BlendMode::Normal => 0,
        BlendMode::Multiply => 1,
        BlendMode::Screen => 2,
        BlendMode::Overlay => 3,
        BlendMode::SoftLight => 4,
        BlendMode::HardLight => 5,
        BlendMode::Add => 6,
        BlendMode::Subtract => 7,
        BlendMode::Darken => 8,
        BlendMode::Lighten => 9,
        BlendMode::ColorDodge => 10,
        BlendMode::ColorBurn => 11,
        BlendMode::LinearBurn => 12,
        BlendMode::Difference => 13,
        BlendMode::Exclusion => 14,
        BlendMode::Divide => 15,
        BlendMode::VividLight => 16,
        BlendMode::LinearLight => 17,
        BlendMode::PinLight => 18,
        BlendMode::HardMix => 19,
    }
}

impl BlendMode {
    /// The name of the mode in the picker.
    pub fn label(self) -> (r: &'static str)
        ensures
            r@ == blend_label(self)@,
    {
        match self {
            BlendMode::Normal => "Normal",
            BlendMode::Multiply => "Multiply",
            BlendMode::Screen => "Screen",
            BlendMode::Overlay => "Overlay",
            BlendMode::SoftLight => "Soft Light",
            BlendMode::HardLight => "Hard Light",
            BlendMode::Add => "Linear Dodge (Add)",
            BlendMode::Subtract => "Subtract",
            BlendMode::Darken => "Darken",
            BlendMode::Lighten => "Lighten",
            BlendMode::ColorDodge => "Color Dodge",
            BlendMode::ColorBurn => "Color Burn",
            BlendMode::LinearBurn => "Linear Burn",
            BlendMode::Difference => "Difference",
            BlendMode::Exclusion => "Exclusion",
            BlendMode::Divide => "Divide",
            BlendMode::VividLight => "Vivid Light",
            BlendMode::LinearLight => "Linear Light",
            BlendMode::PinLight => "Pin Light",
            BlendMode::HardMix => "Hard Mix",
        }
    }

    /// All modes in the order of the picker.
    pub fn all() -> (r: Vec<BlendMode>)
        ensures
            r@ == blend_modes(),
    {
        let mut modes: Vec<BlendMode> = Vec::new();
        modes.push(BlendMode::Normal);
        modes.push(BlendMode::Multiply);
        modes.push(BlendMode::Screen);
        modes.push(BlendMode::Overlay);
        modes.push(BlendMode::SoftLight);
        modes.push(BlendMode::HardLight);
        modes.push(BlendMode::Add);
        modes.push(BlendMode::Subtract);
        modes.push(BlendMode::Darken);
        modes.push(BlendMode::Lighten);
        modes.push(BlendMode::ColorDodge);
        modes.push(BlendMode::ColorBurn);
        modes.push(BlendMode::LinearBurn);
        modes.push(BlendMode::Difference);
        modes.push(BlendMode::Exclusion);
        modes.push(BlendMode::Divide);
        modes.push(BlendMode::VividLight);
        modes.push(BlendMode::LinearLight);
        modes.push(BlendMode::PinLight);
        modes.push(BlendMode::HardMix);
        assert(modes@ =~= blend_modes());
        modes
    }
}

/// The number that shaders know a blend mode by.
pub fn blend_mode_const(mode: BlendMode) -> (r: u32)
    ensures
        r == blend_number(mode),
{
    match mode {
        BlendMode::Normal => 0,
        BlendMode::Multiply => 1,
        BlendMode::Screen => 2,
        BlendMode::Overlay => 3,
        BlendMode::SoftLight => 4,
        BlendMode::HardLight => 5,
        BlendMode::Add => 6,
        BlendMode::Subtract => 7,
        BlendMode::Darken => 8,
        BlendMode::Lighten => 9,
        BlendMode::ColorDodge => 10,
        BlendMode::ColorBurn => 11,
        BlendMode::LinearBurn => 12,
        BlendMode::Difference => 13,
        BlendMode::Exclusion => 14,
        BlendMode::Divide => 15,
        BlendMode::VividLight => 16,
        BlendMode::LinearLight => 17,
        BlendMode::PinLight => 18,
        BlendMode::HardMix => 19,
    }
}

/// The picker lists every mode once, at the place of its number.
pub proof fn blend_numbers_are_places(mode: BlendMode)
    ensures
        blend_modes().len() == BLEND_MODES,
        blend_number(mode) < BLEND_MODES,
        blend_modes()[blend_number(mode) as int] == mode,
{
}

/// The mode of a new object.
impl Default for BlendMode {
    fn default() -> (r: BlendMode)
        ensures
            r == BlendMode::Normal,
    {
        BlendMode::Normal
    }
}

/// What an adjustment layer does to the pixels beneath it.
#[derive(Clone, Copy, Debug, PartialEq, Eq, Structural)]
pub enum AdjustmentKind {
    BrightnessContrast { brightness: Real, contrast: Real },
    HueSaturation { hue: Real, saturation: Real, lightness: Real },
    Levels { black_point: Real, gamma: Real, white_point: Real },
    Exposure { stops: Real },
    Vibrance { amount: Real },
    WhiteBalance { temperature: Real, tint: Real },
    Posterize { levels: Real },
    Threshold { level: Real },
    Invert,
    BoxBlur { radius: Real },
    Sharpen { amount: Real },
    EdgeDetect,
    GaussianBlur { radius: Real },
}

/// The name of an adjustment in the picker.
pub open spec fn adjustment_label(kind: AdjustmentKind) -> &'static str {
    match kind {
        AdjustmentKind::BrightnessContrast { .. } => "Brightness / Contrast",
        AdjustmentKind::HueSaturation { .. } => "Hue / Saturation",
        AdjustmentKind::Levels { .. } => "Levels",
        AdjustmentKind::Exposure { .. } => "Exposure",
        AdjustmentKind::Vibrance { .. } => "Vibrance",
        AdjustmentKind::WhiteBalance { .. } => "White Balance",
        AdjustmentKind::Posterize { .. } => "Posterize",
        AdjustmentKind::Threshold { .. } => "Threshold",
        AdjustmentKind::Invert => "Invert",
        AdjustmentKind::BoxBlur { .. } => "Box Blur",
        AdjustmentKind::Sharpen { .. } => "Sharpen",
        AdjustmentKind::EdgeDetect => "Edge Detect",
        AdjustmentKind::GaussianBlur { .. } => "Gaussian Blur",
    }
}

/// One adjustment of each kind, as the picker offers them.
pub open spec fn adjustment_defaults() -> Seq<AdjustmentKind> {
    seq![
        AdjustmentKind::BrightnessContrast { brightness: Real { bits: 0x0000_0000 }, contrast: Real { bits: 0x0000_0000 } },
        AdjustmentKind::HueSaturation { hue: Real { bits: 0x0000_0000 }, saturation: Real { bits: 0x3f80_0000 }, lightness: Real { bits: 0x0000_0000 } },
        AdjustmentKind::Levels { black_point: Real { bits: 0x0000_0000 }, gamma: Real { bits: 0x3f80_0000 }, white_point: Real { bits: 0x3f80_0000 } },
        AdjustmentKind::Exposure { stops: Real { bits: 0x0000_0000 } },
        AdjustmentKind::Vibrance { amount: Real { bits: 0x0000_0000 } },
        AdjustmentKind::WhiteBalance { temperature: Real { bits: 0x0000_0000 }, tint: Real { bits: 0x0000_0000 } },
        AdjustmentKind::Posterize { levels: Real { bits: 0x4100_0000 } },
        AdjustmentKind::Threshold { level: Real { bits: 0x3f00_0000 } },
        AdjustmentKind::Invert,
        AdjustmentKind::BoxBlur { radius: Real { bits: 0x4000_0000 } },
        AdjustmentKind::Sharpen { amount: Real { bits: 0x3f00_0000 } },
        AdjustmentKind::EdgeDetect,
        AdjustmentKind::GaussianBlur { radius: Real { bits: 0x4080_0000 } },
    ]
}

/// Whether two adjustments are written alike in a document.
pub open spec fn adjustments_alike(a: AdjustmentKind, b: AdjustmentKind) -> bool {
    match (a, b) {
        (
            AdjustmentKind::BrightnessContrast { brightness, contrast },
            AdjustmentKind::BrightnessContrast { brightness: brightness2, contrast: contrast2 },
        ) => brightness.alike(brightness2) && contrast.alike(contrast2),
        (
            AdjustmentKind::HueSaturation { hue, saturation, lightness },
            AdjustmentKind::HueSaturation { hue: hue2, saturation: saturation2, lightness: lightness2 },
        ) => hue.alike(hue2) && saturation.alike(saturation2) && lightness.alike(lightness2),
        (
            AdjustmentKind::Levels { black_point, gamma, white_point },
            AdjustmentKind::Levels { black_point: black_point2, gamma: gamma2, white_point: white_point2 },
        ) => black_point.alike(black_point2) && gamma.alike(gamma2) && white_point.alike(white_point2),
        (
            AdjustmentKind::Exposure { stops },
            AdjustmentKind::Exposure { stops: stops2 },
        ) => stops.alike(stops2),
        (
            AdjustmentKind::Vibrance { amount },
            AdjustmentKind::Vibrance { amount: amount2 },
        ) => amount.alike(amount2),
        (
            AdjustmentKind::WhiteBalance { temperature, tint },
            AdjustmentKind::WhiteBalance { temperature: temperature2, tint: tint2 },
        ) => temperature.alike(temperature2) && tint.alike(tint2),
        (
            AdjustmentKind::Posterize { levels },
            AdjustmentKind::Posterize { levels: levels2 },
        ) => levels.alike(levels2),
        (
            AdjustmentKind::Threshold { level },
            AdjustmentKind::Threshold { level: level2 },
        ) => level.alike(level2),
        (AdjustmentKind::Invert, AdjustmentKind::Invert) => true,
        (
            AdjustmentKind::BoxBlur { radius },
            AdjustmentKind::BoxBlur { radius: radius2 },
        ) => radius.alike(radius2),
        (
            AdjustmentKind::Sharpen { amount },
            AdjustmentKind::Sharpen { amount: amount2 },
        ) => amount.alike(amount2),
        (AdjustmentKind::EdgeDetect, AdjustmentKind::EdgeDetect) => true,
        (
            AdjustmentKind::GaussianBlur { radius },
            AdjustmentKind::GaussianBlur { radius: radius2 },
        ) => radius.alike(radius2),
        _ => false,
    }
}

impl AdjustmentKind {
    /// The name of the adjustment in the picker.
    pub fn label(&self) -> (r: &'static str)
        ensures
            r@ == adjustment_label(*self)@,
    {
        match self {
            AdjustmentKind::BrightnessContrast { .. } => "Brightness / Contrast",
            AdjustmentKind::HueSaturation { .. } => "Hue / Saturation",
            AdjustmentKind::Levels { .. } => "Levels",
            AdjustmentKind::Exposure { .. } => "Exposure",
            AdjustmentKind::Vibrance { .. } => "Vibrance",
            AdjustmentKind::WhiteBalance { .. } => "White Balance",
            AdjustmentKind::Posterize { .. } => "Posterize",
            AdjustmentKind::Threshold { .. } => "Threshold",
            AdjustmentKind::Invert => "Invert",
            AdjustmentKind::BoxBlur { .. } => "Box Blur",
            AdjustmentKind::Sharpen { .. } => "Sharpen",
            AdjustmentKind::EdgeDetect => "Edge Detect",
            AdjustmentKind::GaussianBlur { .. } => "Gaussian Blur",
        }
    }

    /// One adjustment of each kind, for the picker.
    pub fn all_defaults() -> (r: Vec<AdjustmentKind>)
        ensures
            r@ == adjustment_defaults(),
    {
        let mut kinds: Vec<AdjustmentKind> = Vec::new();
        kinds.push(AdjustmentKind::BrightnessContrast { brightness: Real { bits: 0x0000_0000 }, contrast: Real { bits: 0x0000_0000 } });
        kinds.push(AdjustmentKind::HueSaturation { hue: Real { bits: 0x0000_0000 }, saturation: Real { bits: 0x3f80_0000 }, lightness: Real { bits: 0x0000_0000 } });
        kinds.push(AdjustmentKind::Levels { black_point: Real { bits: 0x0000_0000 }, gamma: Real { bits: 0x3f80_0000 }, white_point: Real { bits: 0x3f80_0000 } });
        kinds.push(AdjustmentKind::Exposure { stops: Real { bits: 0x0000_0000 } });
        kinds.push(AdjustmentKind::Vibrance { amount: Real { bits: 0x0000_0000 } });
        kinds.push(AdjustmentKind::WhiteBalance { temperature: Real { bits: 0x0000_0000 }, tint: Real { bits: 0x0000_0000 } });
        kinds.push(AdjustmentKind::Posterize { levels: Real { bits: 0x4100_0000 } });
        kinds.push(AdjustmentKind::Threshold { level: Real { bits: 0x3f00_0000 } });
        kinds.push(AdjustmentKind::Invert);
        kinds.push(AdjustmentKind::BoxBlur { radius: Real { bits: 0x4000_0000 } });
        kinds.push(AdjustmentKind::Sharpen { amount: Real { bits: 0x3f00_0000 } });
        kinds.push(AdjustmentKind::EdgeDetect);
        kinds.push(AdjustmentKind::GaussianBlur { radius: Real { bits: 0x4080_0000 } });
        assert(kinds@ =~= adjustment_defaults());
        kinds
    }

    /// Whether two adjustments are written alike in a document.
    pub fn is_alike(&self, other: &AdjustmentKind) -> (r: bool)
        ensures
            r == adjustments_alike(*self, *other),
    {
        match (*self, *other) {
            (
                AdjustmentKind::BrightnessContrast { brightness, contrast },
                AdjustmentKind::BrightnessContrast { brightness: brightness2, contrast: contrast2 },
            ) => brightness.is_alike(brightness2) && contrast.is_alike(contrast2),
            (
                AdjustmentKind::HueSaturation { hue, saturation, lightness },
                AdjustmentKind::HueSaturation { hue: hue2, saturation: saturation2, lightness: lightness2 },
            ) => hue.is_alike(hue2) && saturation.is_alike(saturation2) && lightness.is_alike(lightness2),
            (
                AdjustmentKind::Levels { black_point, gamma, white_point },
                AdjustmentKind::Levels { black_point: black_point2, gamma: gamma2, white_point: white_point2 },
            ) => black_point.is_alike(black_point2) && gamma.is_alike(gamma2) && white_point.is_alike(white_point2),
            (
                AdjustmentKind::Exposure { stops },
                AdjustmentKind::Exposure { stops: stops2 },
            ) => stops.is_alike(stops2),
            (
                AdjustmentKind::Vibrance { amount },
                AdjustmentKind::Vibrance { amount: amount2 },
            ) => amount.is_alike(amount2),
            (
                AdjustmentKind::WhiteBalance { temperature, tint },
                AdjustmentKind::WhiteBalance { temperature: temperature2, tint: tint2 },
            ) => temperature.is_alike(temperature2) && tint.is_alike(tint2),
            (
                AdjustmentKind::Posterize { levels },
                AdjustmentKind::Posterize { levels: levels2 },
            ) => levels.is_alike(levels2),
            (
                AdjustmentKind::Threshold { level },
                AdjustmentKind::Threshold { level: level2 },
            ) => level.is_alike(level2),
            (AdjustmentKind::Invert, AdjustmentKind::Invert) => true,
            (
                AdjustmentKind::BoxBlur { radius },
                AdjustmentKind::BoxBlur { radius: radius2 },
            ) => radius.is_alike(radius2),
            (
                AdjustmentKind::Sharpen { amount },
                AdjustmentKind::Sharpen { amount: amount2 },
            ) => amount.is_alike(amount2),
            (AdjustmentKind::EdgeDetect, AdjustmentKind::EdgeDetect) => true,
            (
                AdjustmentKind::GaussianBlur { radius },
                AdjustmentKind::GaussianBlur { radius: radius2 },
            ) => radius.is_alike(radius2),
            _ => false,
        }
    }
}

/// How an object is composited: design layers stack in order, solid geometry sorts by depth.
#[derive(Clone, Copy, Debug, PartialEq, Eq, Structural)]
pub enum Compositing {
    StackOrdered,
    DepthOrdered,
}

/// What an object is.
#[derive(Clone, Copy, Debug, PartialEq, Eq, Structural)]
pub enum ObjectKind {
    Cube,
    Sphere,
    ImagePlane,
    /// A flat surface that brushes paint on.
    PaintCanvas,
    /// An editable polygon mesh.
    Mesh,
    /// A layer that adjusts what lies beneath it.
    Adjustment,
}

/// The name of a kind of object.
pub open spec fn kind_label(kind: ObjectKind) -> &'static str {
    match kind {
        ObjectKind::Cube => "Cube",
        ObjectKind::Sphere => "Sphere",
        ObjectKind::ImagePlane => "Image Plane",
        ObjectKind::PaintCanvas => "Paint Canvas",
        ObjectKind::Mesh => "Mesh",
        ObjectKind::Adjustment => "Adjustment Layer",
    }
}

/// The color of a new object: red, green, blue and alpha.
pub open spec fn kind_color(kind: ObjectKind) -> Seq<Real> {
    match kind {
        ObjectKind::Cube => seq![Real { bits: 0x3e99_999a }, Real { bits: 0x3f0f_5c29 }, Real { bits: 0x3f5c_28f6 }, Real { bits: 0x3f80_0000 }],
        ObjectKind::Sphere => seq![Real { bits: 0x3f73_3333 }, Real { bits: 0x3eae_147b }, Real { bits: 0x3e99_999a }, Real { bits: 0x3f80_0000 }],
        ObjectKind::ImagePlane => seq![Real { bits: 0x3f63_d70a }, Real { bits: 0x3f33_3333 }, Real { bits: 0x3e80_0000 }, Real { bits: 0x3f80_0000 }],
        ObjectKind::PaintCanvas => seq![Real { bits: 0x3f80_0000 }, Real { bits: 0x3f80_0000 }, Real { bits: 0x3f80_0000 }, Real { bits: 0x3f80_0000 }],
        ObjectKind::Mesh => seq![Real { bits: 0x3f1e_b852 }, Real { bits: 0x3f28_f5c3 }, Real { bits: 0x3f38_51ec }, Real { bits: 0x3f80_0000 }],
        ObjectKind::Adjustment => seq![Real { bits: 0x3f33_3333 }, Real { bits: 0x3ed7_0a3d }, Real { bits: 0x3f59_999a }, Real { bits: 0x3f80_0000 }],
    }
}

impl ObjectKind {
    /// The color of a new object of this kind: red, green, blue and alpha.
    pub fn default_color(&self) -> (r: [Real; 4])
        ensures
            r@ == kind_color(*self),
    {
        let r: [Real; 4] = match self {
            ObjectKind::Cube => [Real { bits: 0x3e99_999a }, Real { bits: 0x3f0f_5c29 }, Real { bits: 0x3f5c_28f6 }, Real { bits: 0x3f80_0000 }],
            ObjectKind::Sphere => [Real { bits: 0x3f73_3333 }, Real { bits: 0x3eae_147b }, Real { bits: 0x3e99_999a }, Real { bits: 0x3f80_0000 }],
            ObjectKind::ImagePlane => [Real { bits: 0x3f63_d70a }, Real { bits: 0x3f33_3333 }, Real { bits: 0x3e80_0000 }, Real { bits: 0x3f80_0000 }],
            ObjectKind::PaintCanvas => [Real { bits: 0x3f80_0000 }, Real { bits: 0x3f80_0000 }, Real { bits: 0x3f80_0000 }, Real { bits: 0x3f80_0000 }],
            ObjectKind::Mesh => [Real { bits: 0x3f1e_b852 }, Real { bits: 0x3f28_f5c3 }, Real { bits: 0x3f38_51ec }, Real { bits: 0x3f80_0000 }],
            ObjectKind::Adjustment => [Real { bits: 0x3f33_3333 }, Real { bits: 0x3ed7_0a3d }, Real { bits: 0x3f59_999a }, Real { bits: 0x3f80_0000 }],
        };
        assert(r@ =~= kind_color(*self));
        r
    }

    /// The name of the kind.
    pub fn label(&self) -> (r: &'static str)
        ensures
            r@ == kind_label(*self)@,
    {
        match self {
            ObjectKind::Cube => "Cube",
            ObjectKind::Sphere => "Sphere",
            ObjectKind::ImagePlane => "Image Plane",
            ObjectKind::PaintCanvas => "Paint Canvas",
            ObjectKind::Mesh => "Mesh",
            ObjectKind::Adjustment => "Adjustment Layer",
        }
    }

    /// Whether this kind is a flat surface that brushes paint on.
    pub fn is_paintable(&self) -> (r: bool)
        ensures
            r == (*self == ObjectKind::PaintCanvas),
    {
        matches!(self, ObjectKind::PaintCanvas)
    }
}

/// A step in the stack of modifiers that an object's mesh is shown through.
#[derive(Clone, Copy, Debug, PartialEq, Eq, Structural)]
pub enum Modifier {
    /// Reflect across an axis: 0 is x, 1 is y, and every other number z.
    Mirror { axis: u32 },
    /// Repeat `count` times, each copy one `offset` further on.
    Array { count: u32, offset: Vec3 },
    /// Subdivide `levels` times, at most four.
    Subdivide { levels: u32 },
    /// Cluster the vertices into a grid with `grid_res` cells along each side.
    Decimate { grid_res: u32 },
}

/// The name of a modifier.
pub open spec fn modifier_label(modifier: Modifier) -> &'static str {
    match modifier {
        Modifier::Mirror { .. } => "Mirror",
        Modifier::Array { .. } => "Array",
        Modifier::Subdivide { .. } => "Subdivide",
        Modifier::Decimate { .. } => "Decimate",
    }
}

/// Whether two modifiers are written alike in a document.
pub open spec fn modifiers_alike(a: Modifier, b: Modifier) -> bool {
    match (a, b) {
        (Modifier::Array { count, offset }, Modifier::Array { count: n, offset: o }) => count == n
            && offset.alike(o),
        _ => a == b,
    }
}

impl Modifier {
    /// The name of the modifier.
    pub fn label(&self) -> (r: &'static str)
        ensures
            r@ == modifier_label(*self)@,
    {
        match self {
            Modifier::Mirror { .. } => "Mirror",
            Modifier::Array { .. } => "Array",
            Modifier::Subdivide { .. } => "Subdivide",
            Modifier::Decimate { .. } => "Decimate",
        }
    }

    /// Whether two modifiers are written alike in a document.
    pub fn is_alike(&self, other: &Modifier) -> (r: bool)
        ensures
            r == modifiers_alike(*self, *other),
    {
        match (*self, *other) {
            (Modifier::Array { count, offset }, Modifier::Array { count: n, offset: o }) => count
                == n && offset.is_alike(o),
            _ => *self == *other,
        }
    }
}

} // verus!
