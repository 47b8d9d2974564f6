//! Canvases of tiles and of pixels, layers, and brushes.

use sweet::kinds::BlendMode;
use sweet::layers::{LayerStack, LoadedLayer};
use sweet::number::Real;
use sweet::paint::{build_dab_vertices, Brush, BrushBlend, BrushTip, DabCorner};
use sweet::raster::{Bbox, RasterCanvas, RASTER_HISTORY};
use sweet::tiles::{
    tiles_touched, TileCanvas, CANVAS_TILES, DISPLAY_SIZE, TILE_HISTORY, TILE_SIZE,
};

fn re(x: f32) -> Real {
    Real { bits: x.to_bits() }
}

fn fl(r: Real) -> f32 {
    f32::from_bits(r.bits)
}

/// The tiles that a brush touches on its way between two points of the canvas.
fn touched_by(from: [f32; 2], to: [f32; 2], radius: f32) -> Vec<(u32, u32)> {
    let tile = TILE_SIZE as f32 / DISPLAY_SIZE as f32;
    tiles_touched(
        ((from[0].min(to[0]) - radius) / tile).floor() as i32,
        ((from[1].min(to[1]) - radius) / tile).floor() as i32,
        ((from[0].max(to[0]) + radius) / tile).ceil() as i32,
        ((from[1].max(to[1]) + radius) / tile).ceil() as i32,
    )
}

#[test]
fn tiles_touched_covers_center_stamp() {
    let touched = touched_by([0.5, 0.5], [0.5, 0.5], 0.01);
    assert!(!touched.is_empty(), "at least one tile touched");
    let center = (8u32, 8u32);
    assert!(touched.contains(&center), "center tile touched");
    assert_eq!(touched.len(), 4, "the stamp lies on a corner of four tiles");
}

#[test]
fn strokes_off_the_canvas_touch_its_edge() {
    assert_eq!(tiles_touched(-5, -5, 1, 1), vec![(0, 0)]);
    assert_eq!(tiles_touched(14, 15, 99, 99), vec![(14, 15), (15, 15)]);
    assert!(tiles_touched(-5, 0, -2, 1).is_empty());
    assert_eq!(
        tiles_touched(i32::MIN, i32::MIN, i32::MAX, i32::MAX).len(),
        (CANVAS_TILES * CANVAS_TILES) as usize
    );
}

/// A canvas whose tiles are numbers.
fn paint(canvas: &mut TileCanvas<u32>, coords: &[(u32, u32)]) {
    canvas.touch(&coords.to_vec(), &|| 0, &|t| *t);
}

#[test]
fn tile_canvas_paints_and_undoes_without_gpu() {
    let mut canvas: TileCanvas<u32> = TileCanvas::new();
    let coords = touched_by([0.5, 0.5], [0.51, 0.5], 0.01);
    paint(&mut canvas, &coords);
    canvas.end_stroke();
    assert!(canvas.can_undo(), "stroke pushed undo");
    assert!(!canvas.can_redo(), "no redo before undo");
    let changed = canvas.undo(&|| 0).expect("undo");
    assert_eq!(changed.len(), coords.len());
    assert!(canvas.can_redo(), "redo is available after undo");
    assert!(!canvas.can_undo());
    assert!(canvas.redo(&|| 0).is_some());
    assert!(canvas.can_undo());
}

#[test]
fn tiles_come_back_as_they_were() {
    // Each tile that is made is a number of its own, so that copies are told apart.
    let count = std::cell::Cell::new(0u32);
    let make = || {
        count.set(count.get() + 1);
        count.get()
    };
    let copy = |t: &u32| *t + 100;
    let mut canvas: TileCanvas<u32> = TileCanvas::new();
    assert!(canvas.tile((3, 4)).is_none());
    canvas.touch(&vec![(3, 4), (3, 4), (5, 6)], &make, &copy);
    assert_eq!(canvas.tile((3, 4)), Some(&1));
    assert_eq!(canvas.tile((5, 6)), Some(&2));
    canvas.touch(&vec![(3, 4)], &make, &copy);
    canvas.end_stroke();
    let changed = canvas.undo(&make).unwrap();
    assert_eq!(changed.len(), 2, "each tile once");
    assert_eq!(canvas.tile((3, 4)), Some(&101), "the copy from before the stroke");
    assert_eq!(canvas.redo(&make).unwrap().len(), 2);
    assert_eq!(canvas.tile((3, 4)), Some(&1));
    assert!(canvas.redo(&make).is_none());
    canvas.clear();
    assert!(canvas.tile((3, 4)).is_none() && !canvas.can_undo() && !canvas.can_redo());
}

#[test]
fn strokes_fork_the_history_of_tiles() {
    let mut canvas: TileCanvas<u32> = TileCanvas::new();
    paint(&mut canvas, &[(0, 0)]);
    canvas.end_stroke();
    canvas.undo(&|| 0);
    paint(&mut canvas, &[(1, 1)]);
    canvas.end_stroke();
    assert!(!canvas.can_redo());
    canvas.end_stroke();
    assert!(canvas.undo(&|| 0).is_some());
    assert!(canvas.undo(&|| 0).is_none(), "no stroke, no entry");
    for _ in 0..TILE_HISTORY + 3 {
        paint(&mut canvas, &[(2, 2)]);
        canvas.end_stroke();
    }
    let mut undone = 0;
    while canvas.undo(&|| 0).is_some() {
        undone += 1;
    }
    assert_eq!(undone, TILE_HISTORY);
}

#[test]
fn pictures_are_cut_into_tiles() {
    let mut canvas: TileCanvas<u32> = TileCanvas::new();
    paint(&mut canvas, &[(9, 9)]);
    canvas.end_stroke();
    let pieces = canvas.load(300, &|| 7);
    assert!(canvas.tile((9, 9)).is_none() && !canvas.can_undo());
    assert_eq!(canvas.tile((1, 1)), Some(&7));
    let at: Vec<(u32, u32, u32, u32, u32, u32)> =
        pieces.iter().map(|p| (p.tx, p.ty, p.x, p.y, p.w, p.h)).collect();
    assert_eq!(
        at,
        vec![
            (0, 0, 0, 0, 256, 256),
            (1, 0, 256, 0, 44, 256),
            (0, 1, 0, 256, 256, 44),
            (1, 1, 256, 256, 44, 44),
        ]
    );
}

/// A canvas with its pixels, of one byte each.
struct Sheet {
    canvas: RasterCanvas<Vec<u8>>,
    pixels: Vec<u8>,
    before: Vec<u8>,
}

fn cut(pixels: &[u8], w: u32, b: Bbox) -> Vec<u8> {
    let mut out = Vec::new();
    for y in b.y0..b.y1 {
        for x in b.x0..b.x1 {
            out.push(pixels[(y * w + x) as usize]);
        }
    }
    out
}

impl Sheet {
    fn new(w: u32, h: u32) -> Sheet {
        let canvas = RasterCanvas::new(w, h);
        let n = (canvas.width() * canvas.height()) as usize;
        Sheet { canvas, pixels: vec![255; n], before: vec![] }
    }

    fn dab(&mut self, b: Bbox, ink: u8) {
        if self.canvas.stamp_segment(b) {
            self.before = self.pixels.clone();
        }
        for y in b.y0..b.y1 {
            for x in b.x0..b.x1 {
                self.pixels[(y * self.canvas.width() + x) as usize] = ink;
            }
        }
    }

    fn lift(&mut self) {
        let (w, before) = (self.canvas.width(), self.before.clone());
        self.canvas.end_stroke(&|b| cut(&before, w, b));
    }

    fn put(&mut self, b: Bbox, tex: Vec<u8>) {
        let mut i = 0;
        for y in b.y0..b.y1 {
            for x in b.x0..b.x1 {
                self.pixels[(y * self.canvas.width() + x) as usize] = tex[i];
                i += 1;
            }
        }
    }

    fn undo(&mut self) -> bool {
        let (w, now) = (self.canvas.width(), self.pixels.clone());
        match self.canvas.undo(&|b| cut(&now, w, b)) {
            Some(r) => {
                self.put(r.area, r.tex);
                true
            }
            None => false,
        }
    }

    fn redo(&mut self) -> bool {
        let (w, now) = (self.canvas.width(), self.pixels.clone());
        match self.canvas.redo(&|b| cut(&now, w, b)) {
            Some(r) => {
                self.put(r.area, r.tex);
                true
            }
            None => false,
        }
    }

    fn replace(&mut self, with: Vec<u8>) {
        let (w, now) = (self.canvas.width(), self.pixels.clone());
        self.canvas.replace_whole(&|b| cut(&now, w, b));
        self.pixels = with;
    }

    fn center(&self) -> u8 {
        let (w, h) = (self.canvas.width(), self.canvas.height());
        self.pixels[((h / 2) * w + w / 2) as usize]
    }
}

fn rect(x0: u32, y0: u32, x1: u32, y1: u32) -> Bbox {
    Bbox { x0, y0, x1, y1 }
}

#[test]
fn undo_restores_pre_stroke_then_redo_reapplies() {
    let mut sheet = Sheet::new(256, 256);
    sheet.dab(rect(56, 107, 120, 149), 0);
    sheet.dab(rect(110, 107, 200, 149), 0);
    sheet.lift();
    assert!(sheet.center() < 128, "painted");
    assert!(sheet.canvas.can_undo());

    assert!(sheet.undo());
    assert!(sheet.center() > 220, "undo restored paper");
    assert!(sheet.pixels.iter().all(|p| *p == 255));
    assert!(sheet.canvas.can_redo());

    assert!(sheet.redo());
    assert!(sheet.center() < 128, "redo reapplied");
    assert!(!sheet.canvas.can_redo());
}

#[test]
fn upload_undoable_replaces_then_undo_restores() {
    let mut sheet = Sheet::new(256, 256);
    assert!(sheet.center() > 220, "starts light");
    sheet.replace(vec![90; 256 * 256]);
    assert_eq!(sheet.center(), 90);
    assert!(sheet.canvas.can_undo(), "import is undoable");
    assert!(sheet.undo());
    assert!(sheet.center() > 220, "undo restored the pre-import canvas");
}

#[test]
fn sizes_are_at_least_one() {
    let canvas: RasterCanvas<u8> = RasterCanvas::new(0, 7);
    assert_eq!((canvas.width(), canvas.height()), (1, 7));
    assert_eq!((rect(3, 4, 8, 6).w(), rect(3, 4, 8, 6).h()), (5, 2));
    assert_eq!(rect(3, 4, 8, 6).join(rect(0, 5, 4, 9)), rect(0, 4, 8, 9));
}

#[test]
fn strokes_fork_the_history_of_pixels() {
    let mut sheet = Sheet::new(8, 8);
    sheet.lift();
    assert!(!sheet.canvas.can_undo(), "no stroke");
    sheet.dab(rect(0, 0, 2, 2), 1);
    sheet.lift();
    sheet.undo();
    sheet.dab(rect(4, 4, 5, 5), 2);
    sheet.lift();
    assert!(!sheet.canvas.can_redo());
    sheet.canvas.forget();
    assert!(!sheet.canvas.can_undo());
    assert!(!sheet.undo());
    for i in 0..RASTER_HISTORY + 2 {
        sheet.dab(rect(0, 0, 1, 1), i as u8);
        sheet.lift();
    }
    let mut undone = 0;
    while sheet.undo() {
        undone += 1;
    }
    assert_eq!(undone, RASTER_HISTORY);
    assert_eq!(sheet.pixels[0], 1, "the two oldest are forgotten");
}

fn names(stack: &LayerStack<u32>) -> Vec<String> {
    stack.layer_infos().into_iter().map(|l| l.name).collect()
}

#[test]
fn layers_go_in_above_the_active_one() {
    let mut stack = LayerStack::new(10u32);
    assert_eq!(names(&stack), vec!["Background"]);
    stack.add_layer(20);
    stack.add_layer(30);
    assert_eq!(names(&stack), vec!["Background", "Layer 2", "Layer 3"]);
    assert_eq!(stack.active_layer(), 2);
    stack.set_active_layer(0);
    stack.add_layer(40);
    assert_eq!(names(&stack), vec!["Background", "Layer 4", "Layer 2", "Layer 3"]);
    assert_eq!(stack.active_layer(), 1);
    stack.set_active_layer(9);
    assert_eq!(stack.active_layer(), 1, "no such layer");
    *stack.active_canvas() = 41;
    assert_eq!(stack.layer(1).unwrap().canvas, 41);
    assert!(stack.layer(4).is_none());
    assert_eq!(stack.layer_count(), 4);
}

#[test]
fn layers_are_shown_as_they_are_set() {
    let mut stack = LayerStack::new(10u32);
    stack.add_layer(20);
    stack.mark_flattened();
    assert!(!stack.is_dirty());
    stack.set_layer_opacity(1, re(2.0));
    assert!(stack.is_dirty());
    stack.set_layer_blend(1, BlendMode::Multiply);
    stack.set_layer_visible(0, false);
    let infos = stack.layer_infos();
    assert_eq!(fl(infos[1].opacity), 1.0);
    assert_eq!(infos[1].blend, BlendMode::Multiply);
    assert!(!infos[0].visible && infos[1].visible);
    stack.set_layer_opacity(1, re(-0.5));
    assert_eq!(fl(stack.layer_infos()[1].opacity), 0.0);
    stack.mark_flattened();
    stack.mark_dirty();
    assert!(stack.is_dirty());
}

#[test]
fn moved_layers_stay_active() {
    let mut stack = LayerStack::new(10u32);
    stack.add_layer(20);
    stack.add_layer(30);
    stack.move_layer(2, true);
    assert_eq!(names(&stack), vec!["Background", "Layer 2", "Layer 3"], "at the top already");
    stack.move_layer(2, false);
    assert_eq!(names(&stack), vec!["Background", "Layer 3", "Layer 2"]);
    assert_eq!(stack.active_layer(), 1);
    stack.move_layer(1, true);
    assert_eq!(names(&stack), vec!["Background", "Layer 2", "Layer 3"]);
    assert_eq!(stack.active_layer(), 2);
}

#[test]
fn the_last_layer_stays() {
    let mut stack = LayerStack::new(10u32);
    stack.add_layer(20);
    stack.delete_layer(7);
    assert_eq!(stack.layer_count(), 2);
    stack.delete_layer(1);
    assert_eq!((stack.layer_count(), stack.active_layer()), (1, 0));
    stack.delete_layer(0);
    assert_eq!(stack.layer_count(), 1);
}

#[test]
fn shown_layers_are_laid_over_each_other() {
    let mut stack = LayerStack::new(10u32);
    stack.add_layer(20);
    stack.add_layer(30);
    stack.set_layer_visible(1, false);
    stack.set_layer_blend(2, BlendMode::Screen);
    let (steps, first) = stack.composite_plan();
    assert_eq!(steps.len(), 2);
    assert_eq!((steps[0].layer, steps[0].mode, steps[0].from_first), (0, 0, true));
    assert_eq!((steps[1].layer, steps[1].mode, steps[1].from_first), (2, 2, false));
    assert!(first, "after two steps the result is back in the first buffer");
    stack.flatten();
    assert_eq!(names(&stack), vec!["Background"]);
    stack.import(99);
    assert_eq!(stack.layer(0).unwrap().canvas, 99);
    stack.remake_layers(&|c| c + 1);
    assert_eq!(stack.layer(0).unwrap().canvas, 100);
}

#[test]
fn projects_bring_their_layers() {
    let loaded = |name: &str, w: u32, h: u32| LoadedLayer {
        rgba: vec![1; (4 * w * h) as usize],
        width: w,
        height: h,
        name: name.to_string(),
        visible: true,
        opacity: re(1.0),
        blend: BlendMode::Normal,
    };
    let mut stack = LayerStack::new(10u32);
    assert_eq!(stack.replace_layers(vec![], &|_, _, _, _| 0), None);
    assert_eq!(names(&stack), vec!["Background"]);
    let make = |l: &LoadedLayer, w: u32, h: u32, fits: bool| {
        assert_eq!((w, h), (3, 2));
        assert_eq!(fits, l.width == 3);
        if fits { 1 } else { 0 }
    };
    let size = stack.replace_layers(vec![loaded("a", 3, 2), loaded("b", 5, 5)], &make);
    assert_eq!(size, Some((3, 2)));
    assert_eq!(names(&stack), vec!["a", "b"]);
    assert_eq!((stack.layer(0).unwrap().canvas, stack.layer(1).unwrap().canvas), (1, 0));
    assert_eq!(stack.active_layer(), 0);
}

#[test]
fn brushes_come_in_order() {
    let tips: Vec<(u32, &str)> = BrushTip::all().iter().map(|t| (t.id(), t.label())).collect();
    assert_eq!(tips, vec![(0, "Round"), (1, "Square"), (2, "Soft")]);
    for (i, b) in BrushBlend::all().iter().enumerate() {
        assert_eq!(b.pipeline(), i);
    }
    assert_eq!(BrushTip::default(), BrushTip::Round);
    assert_eq!(BrushBlend::default(), BrushBlend::Normal);
    assert!(!Brush::default().smudges());
    assert!(Brush { smudge: re(0.8), ..Brush::default() }.smudges());
}

#[test]
fn light_pressure_counts_a_little() {
    let product = |a: Real, p: Real| re(fl(a) * fl(p));
    let brush = Brush { radius_uv: re(0.5), flow: re(1.0), ..Brush::default() };
    let light = brush.under_pressure(re(0.0), &product, &product);
    assert_eq!(fl(light.radius_uv), 0.5 * 0.01);
    assert_eq!(fl(light.flow), 0.01);
    let hard = brush.under_pressure(re(7.0), &product, &product);
    assert_eq!(fl(hard.radius_uv), 0.5, "no more than all");
}

#[test]
fn dabs_are_two_triangles_each() {
    let corners = build_dab_vertices(1, &|i, c: DabCorner| (i, c.right, c.top));
    assert_eq!(corners.len(), 12);
    assert!(corners[..6].iter().all(|c| c.0 == 0) && corners[6..].iter().all(|c| c.0 == 1));
    for dab in corners.chunks(6) {
        for triangle in dab.chunks(3) {
            let mut seen = triangle.to_vec();
            seen.sort();
            seen.dedup();
            assert_eq!(seen.len(), 3, "three corners of the dab");
        }
    }
}
