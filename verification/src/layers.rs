//! The stack of layers that a painting is made of, the bottom one first.
//!
//! What a layer's pixels are kept in is the caller's. The stack always has a layer, and one of
//! its layers is the active one.
use crate::kinds::{blend_mode_const, blend_number, BlendMode};
use crate::number::{Real, ONE_BITS, ZERO_BITS};
use crate::text::{append_decimal, decimal};
use vstd::prelude::*;
use vstd::string::StringExecFns;

verus! {

/// A layer: its pixels and how it is shown.
#[derive(Debug)]
pub struct PaintLayer<C> {
    pub canvas: C,
    pub name: String,
    pub visible: bool,
    pub opacity: Real,
    pub blend: BlendMode,
}

/// How a layer is shown.
#[derive(Debug)]
pub struct LayerInfo {
    pub name: String,
    pub visible: bool,
    pub opacity: Real,
    pub blend: BlendMode,
}

/// A layer of a saved project: its pixels, their size, and how it is shown.
#[derive(Debug)]
pub struct LoadedLayer {
    pub rgba: Vec<u8>,
    pub width: u32,
    pub height: u32,
    pub name: String,
    pub visible: bool,
    pub opacity: Real,
    pub blend: BlendMode,
}

/// A stack of layers.
#[derive(Debug)]
pub struct LayerStack<C> {
    layers: Vec<PaintLayer<C>>,
    active: usize,
    dirty: bool,
}

/// What a stack of layers is.
#[verifier::ext_equal]
pub struct StackModel<C> {
    /// The layers, the bottom one first.
    pub layers: Seq<PaintLayer<C>>,
    /// The active layer.
    pub active: int,
    /// Whether something changed since the layers were last flattened.
    pub dirty: bool,
}

impl<C> StackModel<C> {
    /// What holds of every stack: it has a layer, and the active one is one of its layers.
    pub open spec fn valid(self) -> bool {
        0 <= self.active < self.layers.len()
    }

    /// The stack with layer `i` changed, where there is one.
    pub open spec fn with_layer(self, i: int, layer: PaintLayer<C>) -> StackModel<C> {
        if 0 <= i < self.layers.len() {
            StackModel { layers: self.layers.update(i, layer), dirty: true, ..self }
        } else {
            self
        }
    }

    /// The stack with layer `i` moved one step, where there is a place to move it to. The active
    /// layer stays the active one.
    pub open spec fn moved(self, i: int, up: bool) -> StackModel<C> {
        let j = if up {
            i + 1
        } else {
            i - 1
        };
        if 0 <= i < self.layers.len() && 0 <= j < self.layers.len() {
            StackModel {
                layers: self.layers.update(i, self.layers[j]).update(j, self.layers[i]),
                active: if self.active == i {
                    j
                } else if self.active == j {
                    i
                } else {
                    self.active
                },
                dirty: true,
            }
        } else {
            self
        }
    }

    /// The stack with one layer more, above the active one, and active.
    pub open spec fn added(self, l: PaintLayer<C>) -> StackModel<C> {
        StackModel {
            layers: self.layers.insert(self.active + 1, l),
            active: self.active + 1,
            dirty: true,
        }
    }

    /// The stack without layer `i`. The last layer stays.
    pub open spec fn without(self, i: int) -> StackModel<C> {
        if self.layers.len() > 1 && 0 <= i < self.layers.len() {
            StackModel {
                layers: self.layers.remove(i),
                active: if self.active < self.layers.len() - 1 {
                    self.active
                } else {
                    self.layers.len() - 2
                },
                dirty: true,
            }
        } else {
            self
        }
    }
}

/// Whether a layer is a new one with some pixels and a name: shown, opaque, and blended the usual
/// way.
pub open spec fn fresh<C>(l: PaintLayer<C>, canvas: C, name: Seq<char>) -> bool {
    &&& l.canvas == canvas
    &&& l.name@ == name
    &&& l.visible
    &&& l.opacity.bits == ONE_BITS
    &&& l.blend == BlendMode::Normal
}

/// Whether layers are shown alike.
pub open spec fn shown_alike<C>(a: PaintLayer<C>, b: PaintLayer<C>) -> bool {
    a.name == b.name && a.visible == b.visible && a.opacity == b.opacity && a.blend == b.blend
}

/// One step of flattening: layer `layer` is laid over what is so far, by a number that the shader
/// knows a blend mode by, with an opacity. What is so far is in the first of two buffers or in the
/// second; the step writes the other.
#[derive(Clone, Copy, Debug, PartialEq, Eq, Structural)]
pub struct CompositeStep {
    pub layer: usize,
    pub mode: u32,
    pub opacity: Real,
    pub from_first: bool,
}

/// The layers among the first `n` that are shown, in order.
pub open spec fn shown<C>(layers: Seq<PaintLayer<C>>, n: int) -> Seq<int>
    decreases n,
{
    if n <= 0 {
        Seq::empty()
    } else if layers[n - 1].visible {
        shown(layers, n - 1).push(n - 1)
    } else {
        shown(layers, n - 1)
    }
}

/// Step `k` of flattening: the shown layer number `k`. The bottom one lies over nothing, and so
/// blends the usual way.
pub open spec fn composite_step<C>(layers: Seq<PaintLayer<C>>, k: int, s: CompositeStep) -> bool {
    let l = shown(layers, layers.len() as int)[k];
    &&& s.layer == l
    &&& if k == 0 {
        s.mode == 0
    } else {
        s.mode == blend_number(layers[l].blend)
    }
    &&& s.opacity == layers[l].opacity.held(Real { bits: ZERO_BITS }, Real { bits: ONE_BITS })
    &&& s.from_first == (k % 2 == 0)
}

impl<C> View for LayerStack<C> {
    type V = StackModel<C>;

    closed spec fn view(&self) -> StackModel<C> {
        StackModel { layers: self.layers@, active: self.active as int, dirty: self.dirty }
    }
}

fn fresh_layer<C>(canvas: C, name: String) -> (r: PaintLayer<C>)
    ensures
        fresh(r, canvas, name@),
        r.name == name,
{
    PaintLayer {
        canvas,
        name,
        visible: true,
        opacity: Real { bits: ONE_BITS },
        blend: BlendMode::Normal,
    }
}

impl<C> LayerStack<C> {
    /// A stack of one layer, the background.
    pub fn new(canvas: C) -> (r: LayerStack<C>)
        ensures
            r@.layers.len() == 1,
            fresh(r@.layers[0], canvas, "Background"@),
            r@.active == 0,
            r@.dirty,
            r@.valid(),
    {
        let mut layers: Vec<PaintLayer<C>> = Vec::new();
        layers.push(fresh_layer(canvas, "Background".to_owned()));
        LayerStack { layers, active: 0, dirty: true }
    }

    /// How each layer is shown.
    pub fn layer_infos(&self) -> (r: Vec<LayerInfo>)
        ensures
            r.len() == self@.layers.len(),
            forall|i: int|
                0 <= i < r.len() ==> (#[trigger] r[i]).name@ == self@.layers[i].name@ && r[i].visible
                    == self@.layers[i].visible && r[i].opacity == self@.layers[i].opacity
                    && r[i].blend == self@.layers[i].blend,
    {
        let mut out: Vec<LayerInfo> = Vec::new();
        let mut i: usize = 0;
        while i < self.layers.len()
            invariant
                i <= self.layers.len(),
                out.len() == i,
                forall|k: int|
                    0 <= k < i ==> (#[trigger] out[k]).name@ == self.layers[k].name@
                        && out[k].visible == self.layers[k].visible && out[k].opacity
                        == self.layers[k].opacity && out[k].blend == self.layers[k].blend,
            decreases self.layers.len() - i,
        {
            let l: &PaintLayer<C> = &self.layers[i];
            out.push(
                LayerInfo {
                    name: l.name.clone(),
                    visible: l.visible,
                    opacity: l.opacity,
                    blend: l.blend,
                },
            );
            i = i + 1;
        }
        out
    }

    /// The active layer.
    pub fn active_layer(&self) -> (r: usize)
        ensures
            r == self@.active,
    {
        self.active
    }

    /// How many layers there are.
    pub fn layer_count(&self) -> (r: usize)
        ensures
            r == self@.layers.len(),
    {
        self.layers.len()
    }

    /// Whether something changed since the layers were last flattened.
    pub fn is_dirty(&self) -> (r: bool)
        ensures
            r == self@.dirty,
    {
        self.dirty
    }

    /// Notes that the pixels of a layer changed.
    pub fn mark_dirty(&mut self)
        ensures
            final(self)@ == (StackModel { dirty: true, ..old(self)@ }),
    {
        self.dirty = true;
    }

    /// Notes that the layers were flattened.
    pub fn mark_flattened(&mut self)
        ensures
            final(self)@ == (StackModel { dirty: false, ..old(self)@ }),
    {
        self.dirty = false;
    }

    /// A layer.
    pub fn layer(&self, i: usize) -> (r: Option<&PaintLayer<C>>)
        ensures
            match r {
                Some(l) => i < self@.layers.len() && *l == self@.layers[i as int],
                None => i >= self@.layers.len(),
            },
    {
        if i < self.layers.len() {
            Some(&self.layers[i])
        } else {
            None
        }
    }

    /// The pixels of the active layer, to be painted on.
    pub fn active_canvas(&mut self) -> (r: &mut C)
        requires
            old(self)@.valid(),
        ensures
            *r == old(self)@.layers[old(self)@.active].canvas,
            final(self)@ == (StackModel {
                layers: old(self)@.layers.update(
                    old(self)@.active,
                    PaintLayer {
                        canvas: *final(r),
                        ..old(self)@.layers[old(self)@.active]
                    },
                ),
                ..old(self)@
            }),
    {
        &mut self.layers[self.active].canvas
    }

    /// Makes a layer the active one, where there is one.
    pub fn set_active_layer(&mut self, i: usize)
        requires
            old(self)@.valid(),
        ensures
            final(self)@ == (StackModel {
                active: if i < old(self)@.layers.len() {
                    i as int
                } else {
                    old(self)@.active
                },
                ..old(self)@
            }),
            final(self)@.valid(),
    {
        if i < self.layers.len() {
            self.active = i;
        }
    }

    /// Changes how a layer blends.
    pub fn set_layer_blend(&mut self, i: usize, blend: BlendMode)
        requires
            old(self)@.valid(),
        ensures
            final(self)@ == old(self)@.with_layer(
                i as int,
                PaintLayer { blend, ..old(self)@.layers[i as int] },
            ),
            final(self)@.valid(),
    {
        if i < self.layers.len() {
            self.layers[i].blend = blend;
            self.dirty = true;
        }
    }

    /// Shows or hides a layer.
    pub fn set_layer_visible(&mut self, i: usize, visible: bool)
        requires
            old(self)@.valid(),
        ensures
            final(self)@ == old(self)@.with_layer(
                i as int,
                PaintLayer { visible, ..old(self)@.layers[i as int] },
            ),
            final(self)@.valid(),
    {
        if i < self.layers.len() {
            self.layers[i].visible = visible;
            self.dirty = true;
        }
    }

    /// Changes how much a layer hides, held between nothing and all.
    pub fn set_layer_opacity(&mut self, i: usize, opacity: Real)
        requires
            old(self)@.valid(),
        ensures
            final(self)@ == old(self)@.with_layer(
                i as int,
                PaintLayer {
                    opacity: opacity.held(Real { bits: ZERO_BITS }, Real { bits: ONE_BITS }),
                    ..old(self)@.layers[i as int]
                },
            ),
            final(self)@.valid(),
    {
        if i < self.layers.len() {
            self.layers[i].opacity = opacity.clamp(
                Real { bits: ZERO_BITS },
                Real { bits: ONE_BITS },
            );
            self.dirty = true;
        }
    }

    /// Adds a layer above the active one and makes it the active one. It is named by how many
    /// layers there are then.
    pub fn add_layer(&mut self, canvas: C)
        requires
            old(self)@.valid(),
            old(self)@.layers.len() < usize::MAX,
        ensures
            exists|l: PaintLayer<C>| #[trigger]
                fresh(l, canvas, "Layer "@ + decimal(old(self)@.layers.len() + 1)) && final(self)@
                    == old(self)@.added(l),
            final(self)@.valid(),
    {
        let ghost before = self@;
        let mut name: String = "Layer ".to_owned();
        append_decimal(&mut name, self.layers.len() as u64 + 1);
        let at: usize = self.active + 1;
        let layer: PaintLayer<C> = fresh_layer(canvas, name);
        let ghost l = layer;
        self.layers.insert(at, layer);
        self.active = at;
        self.dirty = true;
        assert(fresh(l, canvas, "Layer "@ + decimal((before.layers.len() + 1) as nat)));
        assert(self@ =~= (StackModel {
            layers: before.layers.insert(before.active + 1, l),
            active: before.active + 1,
            dirty: true,
        }));
    }

    /// Removes a layer, but not the last one.
    pub fn delete_layer(&mut self, i: usize)
        requires
            old(self)@.valid(),
        ensures
            final(self)@ == old(self)@.without(i as int),
            final(self)@.valid(),
    {
        if self.layers.len() <= 1 || i >= self.layers.len() {
            return;
        }
        self.layers.remove(i);
        if self.active >= self.layers.len() {
            self.active = self.layers.len() - 1;
        }
        self.dirty = true;
    }

    /// Moves a layer one step towards the top or the bottom.
    pub fn move_layer(&mut self, i: usize, up: bool)
        requires
            old(self)@.valid(),
        ensures
            final(self)@ == old(self)@.moved(i as int, up),
            final(self)@.valid(),
    {
        let n: usize = self.layers.len();
        if n < 2 || i >= n {
            return;
        }
        if up && i + 1 >= n || !up && i == 0 {
            return;
        }
        let j: usize = if up {
            i + 1
        } else {
            i - 1
        };
        let ghost before = self@;
        let layer: PaintLayer<C> = self.layers.remove(i);
        self.layers.insert(j, layer);
        assert(self.layers@ =~= before.layers.update(i as int, before.layers[j as int]).update(
            j as int,
            before.layers[i as int],
        ));
        if self.active == i {
            self.active = j;
        } else if self.active == j {
            self.active = i;
        }
        self.dirty = true;
    }

    /// Keeps only the bottom layer, as the background, shown and opaque.
    pub fn flatten(&mut self)
        requires
            old(self)@.valid(),
        ensures
            final(self)@.layers.len() == 1,
            final(self)@.layers[0].canvas == old(self)@.layers[0].canvas,
            final(self)@.layers[0].name@ == "Background"@,
            final(self)@.layers[0].visible,
            final(self)@.layers[0].opacity.bits == ONE_BITS,
            final(self)@.layers[0].blend == old(self)@.layers[0].blend,
            final(self)@.active == 0,
            final(self)@.dirty,
            final(self)@.valid(),
    {
        self.active = 0;
        self.layers.truncate(1);
        self.layers[0].name = "Background".to_owned();
        self.layers[0].visible = true;
        self.layers[0].opacity = Real { bits: ONE_BITS };
        self.dirty = true;
    }

    /// Replaces every layer by a background with some pixels.
    pub fn import(&mut self, canvas: C)
        ensures
            final(self)@.layers.len() == 1,
            fresh(final(self)@.layers[0], canvas, "Background"@),
            final(self)@.active == 0,
            final(self)@.dirty,
            final(self)@.valid(),
    {
        let mut layers: Vec<PaintLayer<C>> = Vec::new();
        layers.push(fresh_layer(canvas, "Background".to_owned()));
        self.layers = layers;
        self.active = 0;
        self.dirty = true;
    }

    /// Replaces the pixels of every layer by what `remake` makes of them; how the layers are shown
    /// stays.
    pub fn remake_layers<M: Fn(&C) -> C>(&mut self, remake: &M)
        requires
            old(self)@.valid(),
            forall|c: &C| #[trigger] (*remake).requires((c,)),
        ensures
            final(self)@.layers.len() == old(self)@.layers.len(),
            forall|i: int|
                0 <= i < old(self)@.layers.len() ==> shown_alike(
                    #[trigger] final(self)@.layers[i],
                    old(self)@.layers[i],
                ) && (*remake).ensures(
                    (&old(self)@.layers[i].canvas,),
                    final(self)@.layers[i].canvas,
                ),
            final(self)@.active == old(self)@.active,
            final(self)@.dirty,
            final(self)@.valid(),
    {
        let ghost before = self@;
        let mut i: usize = 0;
        while i < self.layers.len()
            invariant
                i <= self.layers.len(),
                before == old(self)@,
                self.layers.len() == before.layers.len(),
                self.active == before.active,
                forall|c: &C| #[trigger] (*remake).requires((c,)),
                forall|k: int|
                    0 <= k < i ==> shown_alike(#[trigger] self.layers@[k], before.layers[k]) && (
                    *remake).ensures((&before.layers[k].canvas,), self.layers@[k].canvas),
                forall|k: int|
                    i <= k < self.layers.len() ==> #[trigger] self.layers@[k] == before.layers[k],
            decreases self.layers.len() - i,
        {
            let made: C = remake(&self.layers[i].canvas);
            self.layers[i].canvas = made;
            i = i + 1;
        }
        self.dirty = true;
    }

    /// How to flatten the shown layers, step by step, and whether the result is then in the first
    /// of the two buffers.
    pub fn composite_plan(&self) -> (r: (Vec<CompositeStep>, bool))
        ensures
            r.0.len() == shown(self@.layers, self@.layers.len() as int).len(),
            forall|k: int|
                0 <= k < r.0.len() ==> composite_step(self@.layers, k, #[trigger] r.0[k]),
            r.1 == (r.0.len() % 2 == 0),
    {
        let mut steps: Vec<CompositeStep> = Vec::new();
        let mut first: bool = true;
        let mut i: usize = 0;
        let ghost all = shown(self.layers@, self.layers.len() as int);
        while i < self.layers.len()
            invariant
                i <= self.layers.len(),
                all == shown(self.layers@, self.layers.len() as int),
                steps.len() == shown(self.layers@, i as int).len(),
                first == (steps.len() % 2 == 0),
                forall|k: int|
                    0 <= k < steps.len() ==> composite_step(self.layers@, k, #[trigger] steps[k]),
            decreases self.layers.len() - i,
        {
            proof {
                lemma_shown_prefix(self.layers@, i + 1, self.layers.len() as int);
            }
            if self.layers[i].visible {
                let mode: u32 = if steps.len() == 0 {
                    0
                } else {
                    blend_mode_const(self.layers[i].blend)
                };
                let opacity: Real = self.layers[i].opacity.clamp(
                    Real { bits: ZERO_BITS },
                    Real { bits: ONE_BITS },
                );
                assert(shown(self.layers@, i + 1)[steps.len() as int] == i);
                assert(all[steps.len() as int] == i);
                steps.push(CompositeStep { layer: i, mode, opacity, from_first: first });
                first = !first;
            }
            i = i + 1;
        }
        (steps, first)
    }
}

/// The shown layers among the first come first among the shown layers.
proof fn lemma_shown_prefix<C>(layers: Seq<PaintLayer<C>>, a: int, b: int)
    requires
        0 <= a <= b,
    ensures
        shown(layers, a).len() <= shown(layers, b).len(),
        forall|k: int|
            0 <= k < shown(layers, a).len() ==> #[trigger] shown(layers, a)[k] == shown(layers, b)[k],
    decreases b,
{
    if a < b {
        lemma_shown_prefix(layers, a, b - 1);
    }
}

/// Whether the pixels of a saved layer are as many as its size says, and that size is the size of
/// the document.
pub open spec fn layer_fits(l: LoadedLayer, w: u32, h: u32) -> bool {
    l.rgba@.len() == l.width * l.height * 4 && l.width == w && l.height == h
}

/// A size, at least one.
pub open spec fn at_least_one(n: u32) -> u32 {
    if n > 0 {
        n
    } else {
        1
    }
}

fn does_fit(l: &LoadedLayer, w: u32, h: u32) -> (r: bool)
    ensures
        r == layer_fits(*l, w, h),
{
    assert(0 <= l.width * l.height <= 0xffff_ffff * 0xffff_ffff) by (nonlinear_arith)
        requires
            0 <= l.width <= 0xffff_ffff,
            0 <= l.height <= 0xffff_ffff,
    ;
    let expected: u128 = l.width as u128 * l.height as u128 * 4;
    l.rgba.len() as u128 == expected && l.width == w && l.height == h
}

impl<C> LayerStack<C> {
    /// Replaces every layer by those of a saved project, and makes the bottom one the active one;
    /// a project without layers changes nothing. The first layer's size is that of the document.
    /// `make` makes the pixels of a layer in the document's size: those that were saved where they
    /// fit, and clear ones else. What is returned is the size.
    pub fn replace_layers<M: Fn(&LoadedLayer, u32, u32, bool) -> C>(
        &mut self,
        loaded: Vec<LoadedLayer>,
        make: &M,
    ) -> (r: Option<(u32, u32)>)
        requires
            old(self)@.valid(),
            forall|l: &LoadedLayer, w: u32, h: u32, fits: bool| #[trigger]
                (*make).requires((l, w, h, fits)),
        ensures
            match r {
                None => loaded@.len() == 0 && final(self)@ == old(self)@,
                Some((w, h)) => {
                    &&& loaded@.len() > 0
                    &&& w == at_least_one(loaded@[0].width)
                    &&& h == at_least_one(loaded@[0].height)
                    &&& final(self)@.layers.len() == loaded@.len()
                    &&& forall|i: int|
                        0 <= i < loaded@.len() ==> loaded_as(
                            loaded@[i],
                            w,
                            h,
                            make,
                            #[trigger] final(self)@.layers[i],
                        )
                    &&& final(self)@.active == 0
                    &&& final(self)@.dirty
                },
            },
            final(self)@.valid(),
    {
        if loaded.len() == 0 {
            return None;
        }
        let w: u32 = if loaded[0].width > 0 {
            loaded[0].width
        } else {
            1
        };
        let h: u32 = if loaded[0].height > 0 {
            loaded[0].height
        } else {
            1
        };
        let mut layers: Vec<PaintLayer<C>> = Vec::new();
        let mut i: usize = 0;
        while i < loaded.len()
            invariant
                i <= loaded.len(),
                layers.len() == i,
                forall|l: &LoadedLayer, w: u32, h: u32, fits: bool| #[trigger]
                    (*make).requires((l, w, h, fits)),
                forall|k: int|
                    0 <= k < i ==> loaded_as(loaded@[k], w, h, make, #[trigger] layers@[k]),
            decreases loaded.len() - i,
        {
            let l: &LoadedLayer = &loaded[i];
            let fits: bool = does_fit(l, w, h);
            let canvas: C = make(l, w, h, fits);
            layers.push(
                PaintLayer {
                    canvas,
                    name: l.name.clone(),
                    visible: l.visible,
                    opacity: l.opacity,
                    blend: l.blend,
                },
            );
            i = i + 1;
        }
        self.layers = layers;
        self.active = 0;
        self.dirty = true;
        Some((w, h))
    }
}

/// Whether a layer can be what a saved one becomes in a document of a size.
pub open spec fn loaded_as<C, M: Fn(&LoadedLayer, u32, u32, bool) -> C>(
    l: LoadedLayer,
    w: u32,
    h: u32,
    make: &M,
    layer: PaintLayer<C>,
) -> bool {
    &&& (*make).ensures((&l, w, h, layer_fits(l, w, h)), layer.canvas)
    &&& layer.name@ == l.name@
    &&& layer.visible == l.visible
    &&& layer.opacity == l.opacity
    &&& layer.blend == l.blend
}

/// Moving a layer up and then down again gives the stack back.
pub proof fn moving_up_and_down_restores<C>(m: StackModel<C>, i: int)
    requires
        m.valid(),
        0 <= i,
        i + 1 < m.layers.len(),
    ensures
        m.moved(i, true).moved(i + 1, false) == (StackModel { dirty: true, ..m }),
{
    let up = m.moved(i, true);
    let down = up.moved(i + 1, false);
    assert(down.layers =~= m.layers);
}

/// Moving layers never changes which layer is the active one, only where it is.
pub proof fn moving_keeps_the_active_layer<C>(m: StackModel<C>, i: int, up: bool)
    requires
        m.valid(),
    ensures
        m.moved(i, up).layers[m.moved(i, up).active] == m.layers[m.active],
        m.moved(i, up).valid(),
{
}

/// A stack never loses its last layer.
pub proof fn deleting_keeps_a_layer<C>(m: StackModel<C>, i: int)
    requires
        m.valid(),
    ensures
        m.without(i).valid(),
        m.without(i).layers.len() >= 1,
{
}

} // verus!
