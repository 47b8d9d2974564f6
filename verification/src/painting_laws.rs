//! What painting, layers and masks promise, told by layers, tiles and cells.
use crate::compositor::{all_ops, is_pass, ops_of, CompEntry, CompPass, PassOp};
use crate::feather::{along, blurred_across, blurred_down, column, feathered, level, row, span};
use crate::kinds::{blend_number, BlendMode};
use crate::layers::{
    composite_step, fresh, loaded_as, shown, CompositeStep, LoadedLayer, PaintLayer, StackModel,
};
use crate::number::Real;
use crate::paint::{dab_corner, pressed, DabCorner};
use crate::picture_laws::inside;
use crate::pixels::{cell, lemma_cell, lemma_cell_of, Pixel};
use crate::raster::{Bbox, HistoryRegion, RasterModel};
use crate::tiles::{held, stroke_ended, tile_block, TileModel};
use crate::wand::{beside, linked, looks_alike, matching, region, tally, walk, wand_mask};
use vstd::prelude::*;

verus! {

/// A new layer lies right above the one that was active, and is the active one. Those below it stay
/// where they are, and those above it move up by one.
pub proof fn new_layers_lie_above_the_active_one<C>(m: StackModel<C>, l: PaintLayer<C>, i: int)
    requires
        m.valid(),
        0 <= i < m.layers.len(),
    ensures
        m.added(l).valid(),
        m.added(l).layers.len() == m.layers.len() + 1,
        m.added(l).layers[m.added(l).active] == l,
        m.added(l).layers[m.added(l).active - 1] == m.layers[m.active],
        i <= m.active ==> m.added(l).layers[i] == m.layers[i],
        i > m.active ==> m.added(l).layers[i + 1] == m.layers[i],
        m.added(l).dirty,
{
}

/// Where a layer is deleted the others stay in their order. One that was below it keeps its place,
/// and one that was above it comes down by one. The place of the active one stays, as long as there
/// is a layer at it, and else is that of the last.
pub proof fn deleting_closes_the_gap<C>(m: StackModel<C>, i: int, k: int)
    requires
        m.valid(),
        m.layers.len() > 1,
        0 <= i < m.layers.len(),
        0 <= k < m.layers.len(),
    ensures
        m.without(i).layers.len() == m.layers.len() - 1,
        k < i ==> m.without(i).layers[k] == m.layers[k],
        k > i ==> m.without(i).layers[k - 1] == m.layers[k],
        m.active < m.layers.len() - 1 ==> m.without(i).active == m.active,
        m.active == m.layers.len() - 1 ==> m.without(i).active == m.active - 1,
        m.without(i).dirty,
{
}

/// Moving a layer exchanges it with the one above or below it, and moves no other.
pub proof fn moving_exchanges_two_layers<C>(m: StackModel<C>, i: int, up: bool, k: int)
    requires
        m.valid(),
        0 <= i < m.layers.len(),
        0 <= k < m.layers.len(),
    ensures
        ({
            let out = m.moved(i, up);
            let top = i == m.layers.len() - 1;
            &&& out.layers.len() == m.layers.len()
            &&& up && top || !up && i == 0 ==> out == m
            &&& up && !top ==> out.layers[i + 1] == m.layers[i] && out.layers[i] == m.layers[i + 1]
            &&& !up && i > 0 ==> out.layers[i - 1] == m.layers[i] && out.layers[i] == m.layers[i - 1]
            &&& k != i && (up ==> k != i + 1) && (!up ==> k != i - 1) ==> out.layers[k]
                == m.layers[k]
        }),
{
}

proof fn lemma_shown<C>(layers: Seq<PaintLayer<C>>, n: int)
    requires
        0 <= n <= layers.len(),
    ensures
        ({
            let s = shown(layers, n);
            &&& forall|k: int| 0 <= k < s.len() ==> 0 <= (#[trigger] s[k]) < n && layers[s[k]].visible
            &&& forall|k: int, l: int|
                0 <= k < l < s.len() ==> (#[trigger] s[k]) < (#[trigger] s[l])
            &&& forall|i: int| 0 <= i < n && (#[trigger] layers[i]).visible ==> s.contains(i)
        }),
    decreases n,
{
    if n > 0 {
        lemma_shown(layers, n - 1);
        let less = shown(layers, n - 1);
        let s = shown(layers, n);
        assert forall|i: int| 0 <= i < n && (#[trigger] layers[i]).visible implies s.contains(i) by {
            if i < n - 1 {
                assert(less.contains(i));
                let k = less.index_of(i);
                assert(s[k] == i);
            } else {
                assert(s[s.len() - 1] == i);
            }
        }
    }
}

/// Layers are flattened from the bottom up: each step lays down a layer that is shown, above that of
/// the step before it, and no layer that is shown is left out. The first lies over nothing and is
/// laid down the usual way, the others by their own mode. Each step reads what the one before wrote.
pub proof fn layers_are_flattened_from_the_bottom_up<C>(
    layers: Seq<PaintLayer<C>>,
    steps: Seq<CompositeStep>,
)
    requires
        layers.len() <= usize::MAX,
        steps.len() == shown(layers, layers.len() as int).len(),
        forall|k: int| 0 <= k < steps.len() ==> composite_step(layers, k, #[trigger] steps[k]),
    ensures
        forall|k: int|
            0 <= k < steps.len() ==> (#[trigger] steps[k]).layer < layers.len()
                && layers[steps[k].layer as int].visible,
        forall|k: int, l: int|
            0 <= k < l < steps.len() ==> (#[trigger] steps[k]).layer < (#[trigger] steps[l]).layer,
        forall|i: int|
            0 <= i < layers.len() && (#[trigger] layers[i]).visible ==> exists|k: int|
                0 <= k < steps.len() && (#[trigger] steps[k]).layer == i,
        forall|k: int|
            0 <= k < steps.len() ==> (#[trigger] steps[k]).mode == (if k == 0 {
                blend_number(BlendMode::Normal)
            } else {
                blend_number(layers[steps[k].layer as int].blend)
            }),
        steps.len() > 0 ==> steps[0].from_first,
        forall|k: int|
            0 < k < steps.len() ==> (#[trigger] steps[k]).from_first != steps[k - 1].from_first,
        forall|k: int|
            0 <= k < steps.len() ==> {
                let o = layers[(#[trigger] steps[k]).layer as int].opacity;
                let (lo, hi) = (Real { bits: 0 }, Real { bits: 0x3f80_0000 });
                lo.at_most(o) && o.at_most(hi) ==> steps[k].opacity == o
            },
{
    let s = shown(layers, layers.len() as int);
    lemma_shown(layers, layers.len() as int);
    assert forall|k: int| 0 <= k < steps.len() implies (#[trigger] steps[k]).layer == s[k]
        && 0 <= s[k] < layers.len() by {
        assert(composite_step(layers, k, steps[k]));
    }
    assert forall|k: int, l: int| 0 <= k < l < steps.len() implies (#[trigger] steps[k]).layer < (
    #[trigger] steps[l]).layer by {
        assert(s[k] < s[l]);
    }
    assert forall|i: int| 0 <= i < layers.len() && (#[trigger] layers[i]).visible implies exists|k: int|
        0 <= k < steps.len() && (#[trigger] steps[k]).layer == i by {
        assert(s.contains(i));
        let k = s.index_of(i);
        assert(steps[k].layer == i);
    }
    assert forall|k: int| 0 < k < steps.len() implies (#[trigger] steps[k]).from_first != steps[k
        - 1].from_first by {
        assert(composite_step(layers, k, steps[k]));
        assert(composite_step(layers, k - 1, steps[k - 1]));
    }
    assert forall|k: int| 0 <= k < steps.len() implies {
        let o = layers[(#[trigger] steps[k]).layer as int].opacity;
        let (lo, hi) = (Real { bits: 0 }, Real { bits: 0x3f80_0000 });
        lo.at_most(o) && o.at_most(hi) ==> steps[k].opacity == o
    } by {
        assert(composite_step(layers, k, steps[k]));
    }
}

proof fn lemma_ops<V>(entries: Seq<CompEntry<V>>, n: int)
    requires
        0 <= n <= entries.len(),
    ensures
        ({
            let ops = all_ops(entries, n);
            &&& forall|k: int|
                0 <= k < ops.len() ==> 0 <= (#[trigger] ops[k]).0 < n && ops_of(
                    entries[ops[k].0],
                ).contains(ops[k].1)
            &&& forall|k: int, l: int|
                0 <= k < l < ops.len() ==> (#[trigger] ops[k]).0 <= (#[trigger] ops[l]).0
            &&& forall|e: int, i: int|
                0 <= e < n && 0 <= i < ops_of(entries[e]).len() ==> ops.contains(
                    (e, #[trigger] ops_of(entries[e])[i]),
                )
        }),
    decreases n,
{
    if n > 0 {
        lemma_ops(entries, n - 1);
        let less = all_ops(entries, n - 1);
        let own = ops_of(entries[n - 1]);
        let ops = all_ops(entries, n);
        assert forall|k: int| 0 <= k < ops.len() implies 0 <= (#[trigger] ops[k]).0 < n && ops_of(
            entries[ops[k].0],
        ).contains(ops[k].1) by {
            if k < less.len() {
                assert(less[k] == ops[k]);
            } else {
                assert(own[k - less.len()] == ops[k].1);
            }
        }
        assert forall|k: int, l: int| 0 <= k < l < ops.len() implies (#[trigger] ops[k]).0 <= (
        #[trigger] ops[l]).0 by {
            if k < less.len() {
                assert(less[k] == ops[k]);
            }
            if l < less.len() {
                assert(less[l] == ops[l]);
            }
        }
        assert forall|e: int, i: int| 0 <= e < n && 0 <= i < ops_of(entries[e]).len() implies ops.contains(
            (e, #[trigger] ops_of(entries[e])[i]),
        ) by {
            let want = (e, ops_of(entries[e])[i]);
            if e < n - 1 {
                assert(less.contains(want));
                let k = less.index_of(want);
                assert(ops[k] == want);
            } else {
                assert(ops[less.len() + i] == want);
            }
        }
    }
}

/// Entries are composited in their order: no pass is of an entry before that of the pass before it,
/// every pass of every entry is made, and a layer is blended by its own mode and opacity. The first
/// pass reads the first buffer, and each other what the one before it wrote.
pub proof fn entries_are_composited_in_order<V>(
    entries: Seq<CompEntry<V>>,
    passes: Seq<CompPass>,
)
    requires
        entries.len() <= usize::MAX,
        passes.len() == all_ops(entries, entries.len() as int).len(),
        forall|k: int|
            0 <= k < passes.len() ==> is_pass(
                all_ops(entries, entries.len() as int),
                k,
                #[trigger] passes[k],
            ),
    ensures
        forall|k: int, l: int|
            0 <= k < l < passes.len() ==> (#[trigger] passes[k]).entry <= (
            #[trigger] passes[l]).entry,
        forall|e: int|
            0 <= e < entries.len() ==> ((#[trigger] entries[e]) matches CompEntry::Layer(l)
                ==> exists|k: int|
                0 <= k < passes.len() && (#[trigger] passes[k]).entry == e && passes[k].op
                    == (PassOp::Blend {
                    mode: blend_number(l.blend_mode),
                    opacity: l.opacity,
                })),
        forall|k: int|
            0 <= k < passes.len() ==> (#[trigger] passes[k]).entry < entries.len() && (passes[k].op
                is Blend <==> entries[passes[k].entry as int] is Layer),
        passes.len() > 0 ==> passes[0].from_first,
        forall|k: int|
            0 < k < passes.len() ==> (#[trigger] passes[k]).from_first != passes[k - 1].from_first,
{
    let n = entries.len() as int;
    let ops = all_ops(entries, n);
    lemma_ops(entries, n);
    assert forall|k: int, l: int| 0 <= k < l < passes.len() implies (#[trigger] passes[k]).entry <= (
    #[trigger] passes[l]).entry by {
        assert(is_pass(ops, k, passes[k]) && is_pass(ops, l, passes[l]));
        assert(ops[k].0 <= ops[l].0);
    }
    assert forall|e: int| 0 <= e < entries.len() implies ((#[trigger] entries[e]) matches CompEntry::Layer(
        l,
    ) ==> exists|k: int|
        0 <= k < passes.len() && (#[trigger] passes[k]).entry == e && passes[k].op
            == (PassOp::Blend { mode: blend_number(l.blend_mode), opacity: l.opacity })) by {
        if let CompEntry::Layer(l) = entries[e] {
            let op = PassOp::Blend { mode: blend_number(l.blend_mode), opacity: l.opacity };
            assert(ops_of(entries[e])[0] == op);
            assert(ops.contains((e, op)));
            let k = ops.index_of((e, op));
            assert(is_pass(ops, k, passes[k]));
            assert(passes[k].entry == e);
        }
    }
    assert forall|k: int| 0 <= k < passes.len() implies (#[trigger] passes[k]).entry < entries.len()
        && (passes[k].op is Blend <==> entries[passes[k].entry as int] is Layer) by {
        assert(is_pass(ops, k, passes[k]));
        assert(ops_of(entries[ops[k].0]).contains(ops[k].1));
    }
    assert forall|k: int| 0 < k < passes.len() implies (#[trigger] passes[k]).from_first != passes[k
        - 1].from_first by {
        assert(is_pass(ops, k, passes[k]));
        assert(is_pass(ops, k - 1, passes[k - 1]));
    }
}

/// The rectangle around two holds what either holds, and no rectangle around both is smaller.
pub proof fn joined_boxes_are_the_smallest(a: Bbox, b: Bbox, around: Bbox, x: int, y: int)
    requires
        a.x0 < a.x1 && a.y0 < a.y1,
        b.x0 < b.x1 && b.y0 < b.y1,
        around.x0 <= a.x0 && a.x1 <= around.x1 && around.y0 <= a.y0 && a.y1 <= around.y1,
        around.x0 <= b.x0 && b.x1 <= around.x1 && around.y0 <= b.y0 && b.y1 <= around.y1,
    ensures
        ({
            let j = a.joined(b);
            &&& a.x0 <= x < a.x1 && a.y0 <= y < a.y1 ==> j.x0 <= x < j.x1 && j.y0 <= y < j.y1
            &&& b.x0 <= x < b.x1 && b.y0 <= y < b.y1 ==> j.x0 <= x < j.x1 && j.y0 <= y < j.y1
            &&& around.x0 <= j.x0 && j.x1 <= around.x1 && around.y0 <= j.y0 && j.y1 <= around.y1
        }),
{
}

/// A canvas remembers its last changes in their order: a new one comes last, and where there are
/// more than can be kept the oldest goes and the others stay.
pub proof fn canvases_forget_the_oldest<R>(m: RasterModel<R>, region: HistoryRegion<R>, i: int)
    requires
        m.valid(),
        0 <= i < m.undo.len(),
    ensures
        ({
            let out = m.recorded(region);
            &&& out.undo[out.undo.len() - 1] == region
            &&& m.undo.len() < 32 ==> out.undo.len() == m.undo.len() + 1 && out.undo[i] == m.undo[i]
            &&& m.undo.len() == 32 ==> out.undo.len() == 32 && (i > 0 ==> out.undo[i - 1]
                == m.undo[i])
            &&& out.redo.len() == 0
        }),
{
}

/// A canvas of tiles remembers its last strokes in their order, a stroke that touched nothing is
/// none, and a new one forgets what was taken back.
pub proof fn tiles_forget_the_oldest<T>(m: TileModel<T>, i: int)
    requires
        m.valid(),
        m.active,
        0 <= i < m.undo.len(),
    ensures
        ({
            let out = stroke_ended(m);
            &&& out.tiles == m.tiles && !out.active && out.snaps.len() == 0
            &&& out.redo.len() == 0
            &&& m.snaps.len() == 0 ==> out.undo == m.undo
            &&& m.snaps.len() > 0 ==> out.undo[out.undo.len() - 1] == m.snaps
            &&& m.snaps.len() > 0 && m.undo.len() < 32 ==> out.undo.len() == m.undo.len() + 1
                && out.undo[i] == m.undo[i]
            &&& m.snaps.len() > 0 && m.undo.len() == 32 ==> out.undo.len() == 32 && (i > 0
                ==> out.undo[i - 1] == m.undo[i])
        }),
{
}

/// The tiles that a stroke touches are those of the canvas in the columns and rows that it reaches,
/// each once.
pub proof fn strokes_touch_the_tiles_in_reach(
    left: int,
    top: int,
    right: int,
    bottom: int,
    tx: u32,
    ty: u32,
)
    requires
        0 <= left < 16,
        0 <= top < 16,
        right <= 16,
        bottom <= 16,
    ensures
        tile_block(left, top, right, bottom).contains((tx, ty)) <==> left <= tx < right && top <= ty
            < bottom,
        tile_block(left, top, right, bottom).no_duplicates(),
{
    let all = tile_block(left, top, right, bottom);
    let (x0, x1, y0, y1) = (
        held(left, 0, 15),
        held(right, 0, 16),
        held(top, 0, 15),
        held(bottom, 0, 16),
    );
    if x1 > x0 && y1 > y0 {
        let (w, h) = (x1 - x0, y1 - y0);
        assert forall|i: int| 0 <= i < all.len() implies (#[trigger] all[i]).0 == x0 + i % w
            && all[i].1 == y0 + i / w && 0 <= i % w < w && 0 <= i / w < h by {
            lemma_cell_of(w, h, i);
        }
        if left <= tx < right && top <= ty < bottom {
            lemma_cell(w, h, tx - x0, ty - y0);
            let i = cell(w, tx - x0, ty - y0);
            assert(all[i] == (tx, ty));
        }
        assert forall|i: int, j: int| 0 <= i < all.len() && 0 <= j < all.len() && i != j implies all[i]
            != all[j] by {
            lemma_cell_of(w, h, i);
            lemma_cell_of(w, h, j);
            if all[i] == all[j] {
                assert(i % w == j % w && i / w == j / w);
            }
        }
    }
}

/// A dab is drawn as two triangles that share two of its corners, one from each end of a line across
/// it. Every corner of the dab is one of theirs.
pub proof fn dabs_are_two_triangles(c: DabCorner)
    ensures
        exists|k: int| 0 <= k < 6 && #[trigger] dab_corner(k) == c,
        dab_corner(0) != dab_corner(1) && dab_corner(1) != dab_corner(2) && dab_corner(0)
            != dab_corner(2),
        dab_corner(3) != dab_corner(4) && dab_corner(4) != dab_corner(5) && dab_corner(3)
            != dab_corner(5),
        dab_corner(3) == dab_corner(0) && dab_corner(4) == dab_corner(2),
        dab_corner(0).right != dab_corner(2).right && dab_corner(0).top != dab_corner(2).top,
        dab_corner(1) != dab_corner(5),
{
    let k: int = if c.right {
        if c.top {
            1
        } else {
            2
        }
    } else if c.top {
        0
    } else {
        5
    };
    assert(dab_corner(k) == c);
}

/// Cells of a picture are beside each other exactly where they are one column or one row apart.
pub proof fn cells_beside_share_a_side(w: int, h: int, x: int, y: int, i: int, j: int)
    requires
        inside(w, h, x, y),
        inside(w, h, i, j),
    ensures
        beside(w, y * w + x, j * w + i) <==> (x == i && (y == j + 1 || j == y + 1)) || (y == j && (x
            == i + 1 || i == x + 1)),
{
    lemma_cell(w, h, x, y);
    lemma_cell(w, h, i, j);
}

/// What the wand selects hangs together: every selected cell but that of the seed has a selected cell
/// beside it, from which a way leads to the seed.
pub proof fn selected_regions_hang_together(
    same: Seq<bool>,
    w: int,
    seed: int,
    mask: Seq<u8>,
    a: int,
)
    requires
        region(same, w, seed, mask),
        0 <= a < mask.len(),
        a != seed,
        mask[a] == 255,
    ensures
        exists|b: int| 0 <= b < mask.len() && mask[b] == 255 && #[trigger] beside(w, b, a),
        same[a],
{
    assert(linked(same, w, seed, a));
    let path = choose|path: Seq<int>| #[trigger]
        walk(same, w, path) && path[0] == seed && path.last() == a;
    let n = path.len() as int;
    let b = path[n - 2];
    assert(beside(w, path[n - 2], path[n - 1]));
    let less = path.drop_last();
    assert(walk(same, w, less)) by {
        assert forall|i: int| 0 <= i < less.len() implies 0 <= #[trigger] less[i] < same.len()
            && same[less[i]] by {
            assert(less[i] == path[i]);
        }
        assert forall|i: int| 0 < i < less.len() implies beside(w, less[i - 1], #[trigger] less[i]) by {
            assert(less[i] == path[i] && less[i - 1] == path[i - 1]);
        }
    }
    assert(less[0] == seed && less.last() == b);
    assert(linked(same, w, seed, b));
    assert(0 <= path[n - 2] < same.len());
    assert(mask[b] == 255);
    assert(same[path[n - 1]]);
}

/// How many cells the wand says it selected is none exactly where it selected none.
pub proof fn tallies_tell_empty_masks(mask: Seq<u8>, n: int)
    requires
        0 <= n <= mask.len(),
    ensures
        0 <= tally(mask, n) <= n,
        tally(mask, n) == 0 <==> forall|i: int| 0 <= i < n ==> #[trigger] mask[i] != 255,
        tally(mask, n) == n <==> forall|i: int| 0 <= i < n ==> #[trigger] mask[i] == 255,
    decreases n,
{
    if n > 0 {
        tallies_tell_empty_masks(mask, n - 1);
    }
}

/// The value of a line at `k`, where a place before its start reads its first value, and one past its
/// end the last.
pub open spec fn value_near(s: Seq<u8>, k: int) -> int {
    s[if k < 0 {
        0
    } else if k >= s.len() {
        s.len() - 1
    } else {
        k
    }] as int
}

/// The sum of `n` values of a line from `from` on.
pub open spec fn total(s: Seq<u8>, from: int, n: nat) -> int
    decreases n,
{
    if n == 0 {
        0
    } else {
        total(s, from, (n - 1) as nat) + value_near(s, from + n - 1)
    }
}

/// Whether `out` is a line each value of which is the mean, rounded down, of those no more than `r`
/// away.
pub open spec fn is_mean_line(s: Seq<u8>, out: Seq<u8>, r: int) -> bool {
    &&& out.len() == s.len()
    &&& forall|k: int|
        0 <= k < s.len() ==> {
            let sum = total(s, k - r, (2 * r + 1) as nat);
            (2 * r + 1) * (#[trigger] out[k]) <= sum < (2 * r + 1) * (out[k] + 1)
        }
}

proof fn lemma_total(s: Seq<u8>, from: int, n: nat)
    requires
        s.len() > 0,
    ensures
        total(s, from, n) == span(s, from, from + n),
    decreases n,
{
    if n > 0 {
        lemma_total(s, from, (n - 1) as nat);
        assert(along(s, from + n - 1) == value_near(s, from + n - 1));
    }
}

proof fn lemma_mean(s: Seq<u8>, k: int, r: int)
    requires
        0 <= k < s.len(),
        r >= 0,
    ensures
        ({
            let v = level(s, k, r) as u8;
            let sum = total(s, k - r, (2 * r + 1) as nat);
            v == level(s, k, r) && (2 * r + 1) * v <= sum < (2 * r + 1) * (v + 1)
        }),
{
    lemma_total(s, k - r, (2 * r + 1) as nat);
    crate::feather::lemma_level_between(s, k, r, 0, 255);
    let sum = span(s, k - r, k + r + 1);
    let n = 2 * r + 1;
    assert(n * (sum / n) <= sum < n * (sum / n + 1)) by (nonlinear_arith)
        requires
            n > 0,
    ;
}

/// Row `y` of a mask.
pub open spec fn row_of(m: Seq<u8>, w: int, y: int) -> Seq<u8> {
    Seq::new(w as nat, |x: int| m[y * w + x])
}

/// Column `x` of a mask.
pub open spec fn column_of(m: Seq<u8>, w: int, h: int, x: int) -> Seq<u8> {
    Seq::new(h as nat, |y: int| m[y * w + x])
}

/// Softening the edge of a mask takes the mean of neighbours along its rows, along its columns, and
/// then both once more.
pub proof fn feathering_is_four_means(m: Seq<u8>, w: int, h: int, r: int)
    requires
        0 < w,
        0 < h,
        0 < r,
        w * h <= m.len(),
    ensures
        exists|a: Seq<u8>, b: Seq<u8>, c: Seq<u8>|
            {
                &&& #[trigger] rows_are_means(m, a, w, h, r)
                &&& #[trigger] columns_are_means(a, b, w, h, r)
                &&& #[trigger] rows_are_means(b, c, w, h, r)
                &&& columns_are_means(c, feathered(m, w, h, r), w, h, r)
            },
{
    let a = blurred_across(m, w, h, r);
    let b = blurred_down(a, w, h, r);
    let c = blurred_across(b, w, h, r);
    let d = blurred_down(c, w, h, r);
    lemma_rows(m, w, h, r);
    lemma_columns(a, w, h, r);
    lemma_rows(b, w, h, r);
    lemma_columns(c, w, h, r);
    assert(d == feathered(m, w, h, r));
}

/// Whether every row of a mask is made of the means along the row of another.
pub open spec fn rows_are_means(m: Seq<u8>, out: Seq<u8>, w: int, h: int, r: int) -> bool {
    out.len() == m.len() && forall|y: int|
        0 <= y < h ==> is_mean_line(row_of(m, w, y), #[trigger] row_of(out, w, y), r)
}

/// Whether every column of a mask is made of the means along the column of another.
pub open spec fn columns_are_means(m: Seq<u8>, out: Seq<u8>, w: int, h: int, r: int) -> bool {
    out.len() == m.len() && forall|x: int|
        0 <= x < w ==> is_mean_line(column_of(m, w, h, x), #[trigger] column_of(out, w, h, x), r)
}

proof fn lemma_rows(m: Seq<u8>, w: int, h: int, r: int)
    requires
        0 < w,
        0 < h,
        0 < r,
        w * h <= m.len(),
    ensures
        rows_are_means(m, blurred_across(m, w, h, r), w, h, r),
{
    let out = blurred_across(m, w, h, r);
    assert forall|y: int| 0 <= y < h implies is_mean_line(
        row_of(m, w, y),
        #[trigger] row_of(out, w, y),
        r,
    ) by {
        let s = row_of(m, w, y);
        assert(s =~= row(m, w, y));
        assert forall|k: int| 0 <= k < s.len() implies {
            let sum = total(s, k - r, (2 * r + 1) as nat);
            (2 * r + 1) * (#[trigger] row_of(out, w, y)[k]) <= sum < (2 * r + 1) * (row_of(
                out,
                w,
                y,
            )[k] + 1)
        } by {
            lemma_cell(w, h, k, y);
            lemma_mean(s, k, r);
        }
    }
}

proof fn lemma_columns(m: Seq<u8>, w: int, h: int, r: int)
    requires
        0 < w,
        0 < h,
        0 < r,
        w * h <= m.len(),
    ensures
        columns_are_means(m, blurred_down(m, w, h, r), w, h, r),
{
    let out = blurred_down(m, w, h, r);
    assert forall|x: int| 0 <= x < w implies is_mean_line(
        column_of(m, w, h, x),
        #[trigger] column_of(out, w, h, x),
        r,
    ) by {
        let s = column_of(m, w, h, x);
        assert(s =~= column(m, w, h, x));
        assert forall|k: int| 0 <= k < s.len() implies {
            let sum = total(s, k - r, (2 * r + 1) as nat);
            (2 * r + 1) * (#[trigger] column_of(out, w, h, x)[k]) <= sum < (2 * r + 1) * (column_of(
                out,
                w,
                h,
                x,
            )[k] + 1)
        } by {
            lemma_cell(w, h, x, k);
            lemma_mean(s, k, r);
        }
    }
}

/// A cell counts as alike only where all four of its bytes do, the alpha among them, and as other
/// only where one of them does not.
pub proof fn alike_cells_are_alike_in_all_bytes<A: Fn(u8, u8) -> bool>(
    alike: &A,
    p: Pixel,
    q: Pixel,
    r: bool,
)
    requires
        looks_alike(alike, p, q, r),
    ensures
        r ==> (*alike).ensures((p.r, q.r), true) && (*alike).ensures((p.g, q.g), true)
            && (*alike).ensures((p.b, q.b), true) && (*alike).ensures((p.a, q.a), true),
        !r ==> (*alike).ensures((p.r, q.r), false) || (*alike).ensures((p.g, q.g), false)
            || (*alike).ensures((p.b, q.b), false) || (*alike).ensures((p.a, q.a), false),
{
}

/// A selection by likeness begins at the cell that was pointed at and goes by that cell: others are
/// compared with it, byte for byte.
pub proof fn wands_compare_with_the_cell<A: Fn(u8, u8) -> bool>(
    alike: &A,
    pixels: Seq<u8>,
    w: int,
    h: int,
    x: int,
    y: int,
    mask: Seq<u8>,
    i: int,
)
    requires
        wand_mask(alike, pixels, w, h, x, y, mask),
        0 <= x < w,
        0 <= y < h,
        0 <= i < mask.len(),
        mask[i] > 0,
    ensures
        mask.len() == w * h,
        (*alike).ensures((pixels[4 * i], pixels[4 * (y * w + x)]), true),
        (*alike).ensures((pixels[4 * i + 1], pixels[4 * (y * w + x) + 1]), true),
        (*alike).ensures((pixels[4 * i + 2], pixels[4 * (y * w + x) + 2]), true),
        (*alike).ensures((pixels[4 * i + 3], pixels[4 * (y * w + x) + 3]), true),
{
    let same = choose|same: Seq<bool>| #[trigger]
        matching(alike, pixels, w * h, cell(w, x, y), same) && region(
            same,
            w,
            cell(w, x, y),
            mask,
        );
    let path = choose|path: Seq<int>| #[trigger]
        walk(same, w, path) && path[0] == cell(w, x, y) && path.last() == i;
    assert(same[path[path.len() - 1]]);
    assert(same[i]);
}

/// The pressure of a stroke is what was felt, but one hundredth at least and one at most.
pub proof fn pressure_is_held(p: Real)
    ensures
        p.bits < 0x3c23_d70a ==> pressed(p).bits == 0x3c23_d70a,
        0x3c23_d70a <= p.bits <= 0x3f80_0000 ==> pressed(p) == p,
        0x3f80_0000 < p.bits <= 0x7f80_0000 ==> pressed(p).bits == 0x3f80_0000,
        0x8000_0000 <= p.bits <= 0xff80_0000 ==> pressed(p).bits == 0x3c23_d70a,
{
}

/// A stroke that has touched nothing is not recorded: the history stays as it was, and what could be
/// done again still can. One that has touched something is recorded with just the box it touched,
/// and nothing can be done again.
pub proof fn only_strokes_that_touch_are_recorded<R, C: Fn(Bbox) -> R>(
    before: RasterModel<R>,
    after: RasterModel<R>,
    carve: &C,
)
    requires
        crate::raster::stroke_ended(before, after, carve),
    ensures
        !before.active ==> after == before,
        before.dirty is None || before.dirty->0.x0 >= before.dirty->0.x1 || before.dirty->0.y0
            >= before.dirty->0.y1 ==> after.undo == before.undo && after.redo == before.redo,
        before.active && before.dirty is Some && before.dirty->0.x0 < before.dirty->0.x1
            && before.dirty->0.y0 < before.dirty->0.y1 ==> after.undo.len() > 0
            && after.undo.last().area == before.dirty->0 && after.redo.len() == 0,
        before.active ==> !after.active && after.dirty is None,
        after.width == before.width && after.height == before.height,
{
}

/// Undo of a painting takes the last box from the history and puts what was there on what can be
/// done again, for the same box; doing it again goes the other way.
pub proof fn boxes_are_taken_back_one_by_one<R, C: Fn(Bbox) -> R>(
    before: RasterModel<R>,
    after: RasterModel<R>,
    carve: &C,
)
    ensures
        before.undo.len() > 0 && crate::raster::taken_back(before, after, carve) ==> after.undo.len()
            == before.undo.len() - 1 && after.redo.len() == before.redo.len() + 1
            && after.redo.last().area == before.undo.last().area && (*carve).ensures(
            (before.undo.last().area,),
            after.redo.last().tex,
        ),
        before.redo.len() > 0 && crate::raster::brought_back(before, after, carve) ==> after.redo.len()
            == before.redo.len() - 1 && after.undo.len() == before.undo.len() + 1
            && after.undo.last().area == before.redo.last().area && (*carve).ensures(
            (before.redo.last().area,),
            after.undo.last().tex,
        ),
{
}

/// A loaded layer looks as it was saved, and its picture is used only where it has the size of the
/// canvas and a byte for each channel of each cell. A new one is seen, hides what is below, and has
/// the name it was given.
pub proof fn loaded_layers_look_as_saved<C, M: Fn(&LoadedLayer, u32, u32, bool) -> C>(
    l: LoadedLayer,
    w: u32,
    h: u32,
    make: &M,
    layer: PaintLayer<C>,
    canvas: C,
    name: Seq<char>,
)
    ensures
        loaded_as(l, w, h, make, layer) ==> {
            &&& layer.name@ == l.name@
            &&& layer.visible == l.visible
            &&& layer.opacity == l.opacity
            &&& layer.blend == l.blend
            &&& exists|fits: bool| #[trigger]
                (*make).ensures((&l, w, h, fits), layer.canvas) && (fits <==> l.width == w
                    && l.height == h && l.rgba@.len() == l.width * l.height * 4)
        },
        fresh(layer, canvas, name) ==> {
            &&& layer.canvas == canvas && layer.name@ == name
            &&& layer.visible && layer.opacity.bits == 0x3f80_0000 && layer.blend
                == BlendMode::Normal
        },
{
}

/// A layer is laid over those below as far as it is opaque, but nothing at least and all at most,
/// and by its own mode; the lowest that is seen is laid down as it is.
pub proof fn layers_are_laid_by_their_opacity<C>(
    layers: Seq<PaintLayer<C>>,
    k: int,
    s: CompositeStep,
)
    requires
        composite_step(layers, k, s),
        0 <= k < shown(layers, layers.len() as int).len(),
    ensures
        ({
            let l = layers[shown(layers, layers.len() as int)[k]];
            let zero = Real { bits: 0 };
            let one = Real { bits: 0x3f80_0000 };
            &&& !l.opacity.less(zero) && !one.less(l.opacity) ==> s.opacity == l.opacity
            &&& l.opacity.less(zero) ==> s.opacity == zero
            &&& one.less(l.opacity) ==> s.opacity == one
            &&& s.mode == (if k == 0 { 0 } else { blend_number(l.blend) })
        }),
{
}

} // verus!
