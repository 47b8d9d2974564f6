//! A canvas of pixels with undo by region.
//!
//! A stroke remembers the rectangle that its dabs touched, and only the pixels of that rectangle
//! are kept to take it back. What holds such pixels is the caller's; `carve` makes it.
use vstd::prelude::*;

verus! {

/// How many changes can be taken back.
pub const RASTER_HISTORY: usize = 32;

/// A rectangle of pixels, up to the column and the row past its last.
#[derive(Clone, Copy, Debug, PartialEq, Eq, Structural)]
pub struct Bbox {
    pub x0: u32,
    pub y0: u32,
    pub x1: u32,
    pub y1: u32,
}

impl Bbox {
    /// Whether the rectangle has the pixel in column `x` of row `y`.
    pub open spec fn has(self, x: int, y: int) -> bool {
        self.x0 <= x < self.x1 && self.y0 <= y < self.y1
    }

    /// Whether the rectangle lies in a canvas of a width and a height.
    pub open spec fn lies_in(self, w: int, h: int) -> bool {
        self.x0 <= self.x1 <= w && self.y0 <= self.y1 <= h
    }

    /// Whether the rectangle has no pixel.
    pub open spec fn hollow(self) -> bool {
        self.x0 >= self.x1 || self.y0 >= self.y1
    }

    /// The smallest rectangle around two.
    pub open spec fn joined(self, other: Bbox) -> Bbox {
        Bbox {
            x0: if self.x0 < other.x0 { self.x0 } else { other.x0 },
            y0: if self.y0 < other.y0 { self.y0 } else { other.y0 },
            x1: if self.x1 > other.x1 { self.x1 } else { other.x1 },
            y1: if self.y1 > other.y1 { self.y1 } else { other.y1 },
        }
    }

    /// How many columns the rectangle has.
    pub fn w(&self) -> (r: u32)
        requires
            self.x0 <= self.x1,
        ensures
            r == self.x1 - self.x0,
    {
        self.x1 - self.x0
    }

    /// How many rows the rectangle has.
    pub fn h(&self) -> (r: u32)
        requires
            self.y0 <= self.y1,
        ensures
            r == self.y1 - self.y0,
    {
        self.y1 - self.y0
    }

    /// The smallest rectangle around two.
    pub fn join(self, other: Bbox) -> (r: Bbox)
        ensures
            r == self.joined(other),
    {
        Bbox {
            x0: if self.x0 < other.x0 {
                self.x0
            } else {
                other.x0
            },
            y0: if self.y0 < other.y0 {
                self.y0
            } else {
                other.y0
            },
            x1: if self.x1 > other.x1 {
                self.x1
            } else {
                other.x1
            },
            y1: if self.y1 > other.y1 {
                self.y1
            } else {
                other.y1
            },
        }
    }
}

/// Pixels that were on the canvas, and where they were.
#[derive(Debug)]
pub struct HistoryRegion<R> {
    pub area: Bbox,
    pub tex: R,
}

/// A canvas of pixels.
#[derive(Debug)]
pub struct RasterCanvas<R> {
    width: u32,
    height: u32,
    stroke_active: bool,
    dirty: Option<Bbox>,
    undo: Vec<HistoryRegion<R>>,
    redo: Vec<HistoryRegion<R>>,
}

/// What a canvas of pixels is.
#[verifier::ext_equal]
pub struct RasterModel<R> {
    pub width: u32,
    pub height: u32,
    /// Whether a stroke is being painted.
    pub active: bool,
    /// What the stroke touched.
    pub dirty: Option<Bbox>,
    /// What can be taken back, the last change last.
    pub undo: Seq<HistoryRegion<R>>,
    /// What was taken back, the last change last.
    pub redo: Seq<HistoryRegion<R>>,
}

impl<R> RasterModel<R> {
    /// What holds of every canvas: it has a size, without a stroke nothing is touched, all that
    /// is remembered lies in it, and no more is remembered than can be taken back.
    pub open spec fn valid(self) -> bool {
        &&& self.width > 0
        &&& self.height > 0
        &&& !self.active ==> self.dirty is None
        &&& self.dirty matches Some(d) ==> d.lies_in(self.width as int, self.height as int)
        &&& forall|i: int|
            0 <= i < self.undo.len() ==> (#[trigger] self.undo[i]).area.lies_in(
                self.width as int,
                self.height as int,
            )
        &&& forall|i: int|
            0 <= i < self.redo.len() ==> (#[trigger] self.redo[i]).area.lies_in(
                self.width as int,
                self.height as int,
            )
        &&& self.undo.len() + self.redo.len() <= RASTER_HISTORY
    }

    /// All of the canvas.
    pub open spec fn whole(self) -> Bbox {
        Bbox { x0: 0, y0: 0, x1: self.width, y1: self.height }
    }

    /// The canvas after a part of a stroke that touched a rectangle.
    pub open spec fn stamped(self, touched: Bbox) -> RasterModel<R> {
        RasterModel {
            active: true,
            dirty: Some(
                if self.active && self.dirty is Some {
                    (self.dirty->0).joined(touched)
                } else {
                    touched
                },
            ),
            ..self
        }
    }

    /// The canvas after a change of which `region` is kept to take it back. What was taken back
    /// is forgotten, and of more changes than can be taken back the oldest.
    pub open spec fn recorded(self, region: HistoryRegion<R>) -> RasterModel<R> {
        RasterModel {
            undo: if self.undo.len() >= RASTER_HISTORY {
                self.undo.push(region).remove(0)
            } else {
                self.undo.push(region)
            },
            redo: Seq::empty(),
            ..self
        }
    }

    /// The canvas without a stroke.
    pub open spec fn rested(self) -> RasterModel<R> {
        RasterModel { active: false, dirty: None, ..self }
    }
}

/// Whether a region can be what `carve` makes of a rectangle.
pub open spec fn carved<R, C: Fn(Bbox) -> R>(carve: &C, area: Bbox, region: HistoryRegion<R>) -> bool {
    region.area == area && (*carve).ensures((area,), region.tex)
}

/// Whether ending a stroke can lead from one canvas to another: what the stroke touched, if
/// anything, is kept to take it back.
pub open spec fn stroke_ended<R, C: Fn(Bbox) -> R>(
    before: RasterModel<R>,
    after: RasterModel<R>,
    carve: &C,
) -> bool {
    if !before.active {
        after == before
    } else if before.dirty is None || (before.dirty->0).hollow() {
        after == before.rested()
    } else {
        exists|region: HistoryRegion<R>| #[trigger]
            carved(carve, before.dirty->0, region) && after == before.rested().recorded(region)
    }
}

/// Whether taking back the last change can lead from one canvas to another: as it is now, its
/// rectangle is kept to bring it back.
pub open spec fn taken_back<R, C: Fn(Bbox) -> R>(
    before: RasterModel<R>,
    after: RasterModel<R>,
    carve: &C,
) -> bool {
    exists|region: HistoryRegion<R>| #[trigger]
        carved(carve, before.undo.last().area, region) && after == (RasterModel {
            undo: before.undo.drop_last(),
            redo: before.redo.push(region),
            ..before
        })
}

/// Whether bringing back the last change taken back can lead from one canvas to another.
pub open spec fn brought_back<R, C: Fn(Bbox) -> R>(
    before: RasterModel<R>,
    after: RasterModel<R>,
    carve: &C,
) -> bool {
    exists|region: HistoryRegion<R>| #[trigger]
        carved(carve, before.redo.last().area, region) && after == (RasterModel {
            redo: before.redo.drop_last(),
            undo: before.undo.push(region),
            ..before
        })
}

/// Whether replacing the whole canvas can lead from one canvas to another.
pub open spec fn replaced<R, C: Fn(Bbox) -> R>(
    before: RasterModel<R>,
    after: RasterModel<R>,
    carve: &C,
) -> bool {
    exists|region: HistoryRegion<R>| #[trigger]
        carved(carve, before.whole(), region) && after == before.recorded(region)
}

impl<R> View for RasterCanvas<R> {
    type V = RasterModel<R>;

    closed spec fn view(&self) -> RasterModel<R> {
        RasterModel {
            width: self.width,
            height: self.height,
            active: self.stroke_active,
            dirty: self.dirty,
            undo: self.undo@,
            redo: self.redo@,
        }
    }
}

impl<R> RasterCanvas<R> {
    /// A canvas of a size, at least one pixel wide and high.
    pub fn new(width: u32, height: u32) -> (r: RasterCanvas<R>)
        ensures
            r@ == (RasterModel::<R> {
                width: if width > 0 { width } else { 1 },
                height: if height > 0 { height } else { 1 },
                active: false,
                dirty: None,
                undo: Seq::empty(),
                redo: Seq::empty(),
            }),
            r@.valid(),
    {
        RasterCanvas {
            width: if width > 0 {
                width
            } else {
                1
            },
            height: if height > 0 {
                height
            } else {
                1
            },
            stroke_active: false,
            dirty: None,
            undo: Vec::new(),
            redo: Vec::new(),
        }
    }

    /// How many pixels wide the canvas is.
    pub fn width(&self) -> (r: u32)
        ensures
            r == self@.width,
    {
        self.width
    }

    /// How many pixels high the canvas is.
    pub fn height(&self) -> (r: u32)
        ensures
            r == self@.height,
    {
        self.height
    }

    /// Whether a stroke is being painted.
    pub fn is_painting(&self) -> (r: bool)
        ensures
            r == self@.active,
    {
        self.stroke_active
    }

    /// Whether a change can be taken back.
    pub fn can_undo(&self) -> (r: bool)
        ensures
            r == (self@.undo.len() > 0),
    {
        self.undo.len() > 0
    }

    /// Whether a change that was taken back can be brought back.
    pub fn can_redo(&self) -> (r: bool)
        ensures
            r == (self@.redo.len() > 0),
    {
        self.redo.len() > 0
    }

    /// Notes a part of a stroke that touches a rectangle, and says whether it begins the stroke,
    /// so that the canvas is to be copied first.
    pub fn stamp_segment(&mut self, touched: Bbox) -> (first: bool)
        requires
            old(self)@.valid(),
            touched.lies_in(old(self)@.width as int, old(self)@.height as int),
        ensures
            first == !old(self)@.active,
            final(self)@ == old(self)@.stamped(touched),
            final(self)@.valid(),
    {
        let first: bool = !self.stroke_active;
        let known: Option<Bbox> = if first {
            None
        } else {
            self.dirty
        };
        self.stroke_active = true;
        self.dirty = Some(
            match known {
                None => touched,
                Some(d) => d.join(touched),
            },
        );
        first
    }

    /// Keeps a region to take a change back.
    fn record(&mut self, region: HistoryRegion<R>)
        requires
            old(self)@.undo.len() <= RASTER_HISTORY,
        ensures
            final(self)@ == old(self)@.recorded(region),
    {
        let ghost before = self@;
        self.undo.push(region);
        if self.undo.len() > RASTER_HISTORY {
            self.undo.remove(0);
        }
        self.redo.clear();
        assert(self@ =~= before.recorded(region));
    }

    /// Ends a stroke.
    pub fn end_stroke<C: Fn(Bbox) -> R>(&mut self, carve: &C)
        requires
            old(self)@.valid(),
            forall|b: Bbox| #[trigger] (*carve).requires((b,)),
        ensures
            stroke_ended(old(self)@, final(self)@, carve),
            final(self)@.valid(),
    {
        if !self.stroke_active {
            return;
        }
        let ghost before = self@;
        let dirty: Option<Bbox> = self.dirty;
        self.stroke_active = false;
        self.dirty = None;
        if let Some(area) = dirty {
            if area.w() == 0 || area.h() == 0 {
                return;
            }
            let tex: R = carve(area);
            let region = HistoryRegion { area, tex };
            assert(carved(carve, before.dirty->0, region));
            assert(self@ =~= before.rested());
            self.record(region);
        }
    }

    /// Notes that the whole canvas is cleared or replaced, keeping all of it to take that back.
    pub fn replace_whole<C: Fn(Bbox) -> R>(&mut self, carve: &C)
        requires
            old(self)@.valid(),
            forall|b: Bbox| #[trigger] (*carve).requires((b,)),
        ensures
            replaced(old(self)@, final(self)@, carve),
            final(self)@.valid(),
    {
        let ghost before = self@;
        let area: Bbox = Bbox { x0: 0, y0: 0, x1: self.width, y1: self.height };
        let tex: R = carve(area);
        let region = HistoryRegion { area, tex };
        assert(carved(carve, before.whole(), region));
        self.record(region);
    }

    /// Forgets what can be taken back or brought back.
    pub fn forget(&mut self)
        requires
            old(self)@.valid(),
        ensures
            final(self)@ == (RasterModel {
                undo: Seq::empty(),
                redo: Seq::empty(),
                ..old(self)@
            }),
            final(self)@.valid(),
    {
        self.undo.clear();
        self.redo.clear();
    }

    /// Takes back the last change, and gives the pixels to put back; none where there is no change
    /// to take back.
    pub fn undo<C: Fn(Bbox) -> R>(&mut self, carve: &C) -> (r: Option<HistoryRegion<R>>)
        requires
            old(self)@.valid(),
            forall|b: Bbox| #[trigger] (*carve).requires((b,)),
        ensures
            match r {
                Some(region) => old(self)@.undo.len() > 0 && region == old(self)@.undo.last()
                    && taken_back(old(self)@, final(self)@, carve),
                None => old(self)@.undo.len() == 0 && final(self)@ == old(self)@,
            },
            final(self)@.valid(),
    {
        let ghost before = self@;
        match self.undo.pop() {
            None => None,
            Some(entry) => {
                let tex: R = carve(entry.area);
                let region = HistoryRegion { area: entry.area, tex };
                assert(carved(carve, before.undo.last().area, region));
                self.redo.push(region);
                assert(self@ =~= (RasterModel {
                    undo: before.undo.drop_last(),
                    redo: before.redo.push(region),
                    ..before
                }));
                Some(entry)
            },
        }
    }

    /// Brings back the last change taken back, and gives the pixels to put back; none where there
    /// is no change to bring back.
    pub fn redo<C: Fn(Bbox) -> R>(&mut self, carve: &C) -> (r: Option<HistoryRegion<R>>)
        requires
            old(self)@.valid(),
            forall|b: Bbox| #[trigger] (*carve).requires((b,)),
        ensures
            match r {
                Some(region) => old(self)@.redo.len() > 0 && region == old(self)@.redo.last()
                    && brought_back(old(self)@, final(self)@, carve),
                None => old(self)@.redo.len() == 0 && final(self)@ == old(self)@,
            },
            final(self)@.valid(),
    {
        let ghost before = self@;
        match self.redo.pop() {
            None => None,
            Some(entry) => {
                let tex: R = carve(entry.area);
                let region = HistoryRegion { area: entry.area, tex };
                assert(carved(carve, before.redo.last().area, region));
                self.undo.push(region);
                assert(self@ =~= (RasterModel {
                    redo: before.redo.drop_last(),
                    undo: before.undo.push(region),
                    ..before
                }));
                Some(entry)
            },
        }
    }
}

/// What a stroke touches stays touched until it ends.
pub proof fn strokes_cover_what_they_touch<R>(m: RasterModel<R>, touched: Bbox, x: int, y: int)
    requires
        touched.has(x, y) || (m.active && m.dirty is Some && (m.dirty->0).has(x, y)),
    ensures
        m.stamped(touched).dirty is Some,
        (m.stamped(touched).dirty->0).has(x, y),
{
}

/// A picture in which a rectangle is taken from another.
pub open spec fn patched<P>(
    under: spec_fn(int, int) -> P,
    area: Bbox,
    over: spec_fn(int, int) -> P,
) -> spec_fn(int, int) -> P {
    |x: int, y: int|
        if area.has(x, y) {
            over(x, y)
        } else {
            under(x, y)
        }
}

/// Putting back the pixels of a rectangle as they were takes back every change that was made
/// within it.
pub proof fn patching_takes_changes_back<P>(
    before: spec_fn(int, int) -> P,
    after: spec_fn(int, int) -> P,
    area: Bbox,
    x: int,
    y: int,
)
    requires
        !area.has(x, y) ==> after(x, y) == before(x, y),
    ensures
        patched(after, area, before)(x, y) == before(x, y),
{
}

/// Taking back a change and bringing it back leaves as many changes to take back and bring back
/// as there were, in the same rectangles.
pub proof fn redo_follows_undo<R, C: Fn(Bbox) -> R>(
    before: RasterModel<R>,
    mid: RasterModel<R>,
    after: RasterModel<R>,
    carve: &C,
)
    requires
        before.valid(),
        before.undo.len() > 0,
        taken_back(before, mid, carve),
        brought_back(mid, after, carve),
    ensures
        after.redo == before.redo,
        after.undo.len() == before.undo.len(),
        after.undo.drop_last() == before.undo.drop_last(),
        after.undo.last().area == before.undo.last().area,
{
    assert(after.redo =~= before.redo);
    assert(after.undo.drop_last() =~= before.undo.drop_last());
}

/// A new change forgets what was taken back, and no more is remembered than can be taken back.
pub proof fn changes_fork_the_history<R>(m: RasterModel<R>, region: HistoryRegion<R>)
    requires
        m.valid(),
    ensures
        m.recorded(region).redo.len() == 0,
        m.recorded(region).undo.last() == region,
        m.recorded(region).undo.len() <= RASTER_HISTORY,
{
}

} // verus!
