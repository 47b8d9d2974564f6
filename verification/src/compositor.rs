//! Flattening layers and adjustments into one picture, pass by pass.
//!
//! Two buffers take turns: each pass reads the one and writes the other. What each pass does, by
//! which number the shader knows it and with which numbers it is told, is settled here.
use crate::kinds::{blend_mode_const, blend_number, AdjustmentKind, BlendMode};
use crate::number::{Real, ONE_BITS, ZERO_BITS};
use vstd::prelude::*;

verus! {

/// A pass of an adjustment: the number that the shader knows it by, and what it is told.
#[derive(Clone, Copy, Debug, PartialEq, Eq, Structural)]
pub struct AdjustPass {
    pub mode: u32,
    pub p0: Real,
    pub p1: Real,
    pub p2: Real,
}

/// A pass that is told nothing but `p0`.
pub open spec fn told(mode: u32, p0: Real) -> AdjustPass {
    AdjustPass { mode, p0, p1: Real { bits: ZERO_BITS }, p2: Real { bits: ZERO_BITS } }
}

/// The passes of an adjustment. All are one pass but the Gaussian blur, which blurs along the
/// rows and then along the columns.
pub open spec fn passes_of(kind: AdjustmentKind) -> Seq<AdjustPass> {
    let zero = Real { bits: ZERO_BITS };
    let one = Real { bits: ONE_BITS };
    match kind {
        AdjustmentKind::BrightnessContrast { brightness, contrast } => seq![
            AdjustPass { mode: 0, p0: brightness, p1: contrast, p2: zero },
        ],
        AdjustmentKind::HueSaturation { hue, saturation, lightness } => seq![
            AdjustPass { mode: 1, p0: hue, p1: saturation, p2: lightness },
        ],
        AdjustmentKind::Levels { black_point, gamma, white_point } => seq![
            AdjustPass { mode: 2, p0: black_point, p1: gamma, p2: white_point },
        ],
        AdjustmentKind::Exposure { stops } => seq![told(3, stops)],
        AdjustmentKind::Vibrance { amount } => seq![told(4, amount)],
        AdjustmentKind::WhiteBalance { temperature, tint } => seq![
            AdjustPass { mode: 5, p0: temperature, p1: tint, p2: zero },
        ],
        AdjustmentKind::Posterize { levels } => seq![told(6, levels)],
        AdjustmentKind::Threshold { level } => seq![told(7, level)],
        AdjustmentKind::Invert => seq![told(8, zero)],
        AdjustmentKind::BoxBlur { radius } => seq![told(9, radius)],
        AdjustmentKind::Sharpen { amount } => seq![told(10, amount)],
        AdjustmentKind::EdgeDetect => seq![told(11, zero)],
        AdjustmentKind::GaussianBlur { radius } => seq![
            AdjustPass { mode: 12, p0: radius, p1: one, p2: zero },
            AdjustPass { mode: 12, p0: radius, p1: zero, p2: one },
        ],
    }
}

fn pass_told(mode: u32, p0: Real) -> (r: AdjustPass)
    ensures
        r == told(mode, p0),
{
    AdjustPass { mode, p0, p1: Real { bits: ZERO_BITS }, p2: Real { bits: ZERO_BITS } }
}

/// The passes of an adjustment.
pub fn adjustment_passes(kind: &AdjustmentKind) -> (r: Vec<AdjustPass>)
    ensures
        r@ == passes_of(*kind),
{
    let zero: Real = Real { bits: ZERO_BITS };
    let one: Real = Real { bits: ONE_BITS };
    let mut out: Vec<AdjustPass> = Vec::new();
    match kind {
        AdjustmentKind::BrightnessContrast { brightness, contrast } => {
            out.push(AdjustPass { mode: 0, p0: *brightness, p1: *contrast, p2: zero });
        },
        AdjustmentKind::HueSaturation { hue, saturation, lightness } => {
            out.push(AdjustPass { mode: 1, p0: *hue, p1: *saturation, p2: *lightness });
        },
        AdjustmentKind::Levels { black_point, gamma, white_point } => {
            out.push(AdjustPass { mode: 2, p0: *black_point, p1: *gamma, p2: *white_point });
        },
        AdjustmentKind::Exposure { stops } => {
            out.push(pass_told(3, *stops));
        },
        AdjustmentKind::Vibrance { amount } => {
            out.push(pass_told(4, *amount));
        },
        AdjustmentKind::WhiteBalance { temperature, tint } => {
            out.push(AdjustPass { mode: 5, p0: *temperature, p1: *tint, p2: zero });
        },
        AdjustmentKind::Posterize { levels } => {
            out.push(pass_told(6, *levels));
        },
        AdjustmentKind::Threshold { level } => {
            out.push(pass_told(7, *level));
        },
        AdjustmentKind::Invert => {
            out.push(pass_told(8, zero));
        },
        AdjustmentKind::BoxBlur { radius } => {
            out.push(pass_told(9, *radius));
        },
        AdjustmentKind::Sharpen { amount } => {
            out.push(pass_told(10, *amount));
        },
        AdjustmentKind::EdgeDetect => {
            out.push(pass_told(11, zero));
        },
        AdjustmentKind::GaussianBlur { radius } => {
            out.push(AdjustPass { mode: 12, p0: *radius, p1: one, p2: zero });
            out.push(AdjustPass { mode: 12, p0: *radius, p1: zero, p2: one });
        },
    }
    assert(out@ =~= passes_of(*kind));
    out
}

/// A layer to flatten: its picture and how it is laid over what is beneath.
#[derive(Debug)]
pub struct LayerEntry<V> {
    pub view: V,
    pub blend_mode: BlendMode,
    pub opacity: Real,
}

/// An adjustment of all that is beneath.
#[derive(Debug)]
pub struct AdjustmentEntry {
    pub kind: AdjustmentKind,
}

/// One thing to flatten.
#[derive(Debug)]
pub enum CompEntry<V> {
    Layer(LayerEntry<V>),
    Adjustment(AdjustmentEntry),
}

/// What a pass does: lay the layer of its entry over what is so far, or adjust what is so far.
#[derive(Clone, Copy, Debug, PartialEq, Eq, Structural)]
pub enum PassOp {
    Blend { mode: u32, opacity: Real },
    Adjust(AdjustPass),
}

/// A pass: the entry it is for, what it does, and whether what is so far is in the first buffer or
/// in the second. It writes the other.
#[derive(Clone, Copy, Debug, PartialEq, Eq, Structural)]
pub struct CompPass {
    pub entry: usize,
    pub op: PassOp,
    pub from_first: bool,
}

/// What the passes of an entry do.
pub open spec fn ops_of<V>(e: CompEntry<V>) -> Seq<PassOp> {
    match e {
        CompEntry::Layer(l) => seq![
            PassOp::Blend {
                mode: blend_number(l.blend_mode),
                opacity: l.opacity,
            },
        ],
        CompEntry::Adjustment(a) => Seq::new(
            passes_of(a.kind).len(),
            |i: int| PassOp::Adjust(passes_of(a.kind)[i]),
        ),
    }
}

/// The passes of the first `n` entries, each with its entry.
pub open spec fn all_ops<V>(entries: Seq<CompEntry<V>>, n: int) -> Seq<(int, PassOp)>
    decreases n,
{
    if n <= 0 {
        Seq::empty()
    } else {
        let ops = ops_of(entries[n - 1]);
        all_ops(entries, n - 1) + Seq::new(ops.len(), |i: int| (n - 1, ops[i]))
    }
}

/// Whether a pass is number `k` of some.
pub open spec fn is_pass(ops: Seq<(int, PassOp)>, k: int, p: CompPass) -> bool {
    p.entry == ops[k].0 && p.op == ops[k].1 && p.from_first == (k % 2 == 0)
}

/// How to flatten some entries, pass by pass, the first buffer holding the background to begin
/// with; and whether the result then has to be copied from the second buffer into the first.
pub fn composite<V>(entries: &Vec<CompEntry<V>>) -> (r: (Vec<CompPass>, bool))
    requires
        all_ops(entries@, entries.len() as int).len() <= usize::MAX,
    ensures
        r.0.len() == all_ops(entries@, entries.len() as int).len(),
        forall|k: int|
            0 <= k < r.0.len() ==> is_pass(
                all_ops(entries@, entries.len() as int),
                k,
                #[trigger] r.0[k],
            ),
        r.1 == (r.0.len() % 2 == 1),
{
    let mut out: Vec<CompPass> = Vec::new();
    let mut first: bool = true;
    let mut i: usize = 0;
    while i < entries.len()
        invariant
            i <= entries.len(),
            out.len() == all_ops(entries@, i as int).len(),
            first == (out.len() % 2 == 0),
            forall|k: int|
                0 <= k < out.len() ==> is_pass(all_ops(entries@, i as int), k, #[trigger] out[k]),
        decreases entries.len() - i,
    {
        let ghost before = all_ops(entries@, i as int);
        let ghost ops = ops_of(entries@[i as int]);
        let ghost after = all_ops(entries@, i + 1);
        assert(after == before + Seq::new(ops.len(), |k: int| (i as int, ops[k])));
        match &entries[i] {
            CompEntry::Layer(l) => {
                let mode: u32 = blend_mode_const(l.blend_mode);
                out.push(
                    CompPass {
                        entry: i,
                        op: PassOp::Blend { mode, opacity: l.opacity },
                        from_first: first,
                    },
                );
                first = !first;
                assert forall|k: int| 0 <= k < out.len() implies is_pass(
                    after,
                    k,
                    #[trigger] out[k],
                ) by {
                    if k < before.len() {
                        assert(is_pass(before, k, out[k]));
                    }
                }
            },
            CompEntry::Adjustment(a) => {
                let passes = adjustment_passes(&a.kind);
                let mut j: usize = 0;
                while j < passes.len()
                    invariant
                        j <= passes.len(),
                        passes@ == passes_of(a.kind),
                        ops.len() == passes.len(),
                        forall|k: int|
                            0 <= k < ops.len() ==> #[trigger] ops[k] == PassOp::Adjust(passes@[k]),
                        after == before + Seq::new(ops.len(), |k: int| (i as int, ops[k])),
                        out.len() == before.len() + j,
                        first == (out.len() % 2 == 0),
                        forall|k: int|
                            0 <= k < out.len() ==> is_pass(after, k, #[trigger] out[k]),
                    decreases passes.len() - j,
                {
                    out.push(
                        CompPass { entry: i, op: PassOp::Adjust(passes[j]), from_first: first },
                    );
                    first = !first;
                    assert(after[before.len() + j] == (i as int, ops[j as int]));
                    j = j + 1;
                }
            },
        }
        i = i + 1;
    }
    (out, !first)
}

/// Each pass reads what the pass before it wrote: the buffers take turns.
pub proof fn passes_take_turns(ops: Seq<(int, PassOp)>, a: CompPass, b: CompPass, k: int)
    requires
        0 <= k,
        k + 1 < ops.len(),
        is_pass(ops, k, a),
        is_pass(ops, k + 1, b),
    ensures
        b.from_first == !a.from_first,
{
}

/// Byte `k` of a word, the lowest first.
pub open spec fn byte_of(word: u32, k: int) -> u8 {
    if k == 0 {
        (word % 0x100) as u8
    } else if k == 1 {
        (word / 0x100 % 0x100) as u8
    } else if k == 2 {
        (word / 0x1_0000 % 0x100) as u8
    } else {
        (word / 0x100_0000) as u8
    }
}

/// The bytes of some words, of each the lowest first.
pub open spec fn low_first(words: Seq<u32>) -> Seq<u8> {
    Seq::new(4 * words.len(), |i: int| byte_of(words[i / 4], i % 4))
}

/// The bytes of some words, of each the highest first.
pub open spec fn high_first(words: Seq<u32>) -> Seq<u8> {
    Seq::new(4 * words.len(), |i: int| byte_of(words[i / 4], 3 - i % 4))
}

/// `bytemuck::cast` from four words to sixteen bytes: the same memory, seen as bytes. The words
/// come in order; the bytes of each are in the order of the machine, which is the lowest first or
/// the highest first.
#[verifier::external_body]
fn words_as_bytes(words: [u32; 4]) -> (r: [u8; 16])
    ensures
        r@ == low_first(words@) || r@ == high_first(words@),
{
    bytemuck::cast(words)
}

/// What the shader that blends is told: its mode and its opacity, in the machine's byte order.
pub fn blend_params(mode: u32, opacity: Real) -> (r: [u8; 16])
    ensures
        r@ == low_first(seq![mode, opacity.bits, 0, 0]) || r@ == high_first(
            seq![mode, opacity.bits, 0, 0],
        ),
{
    let words: [u32; 4] = [mode, opacity.bits, 0, 0];
    assert(words@ =~= seq![mode, opacity.bits, 0, 0]);
    words_as_bytes(words)
}

/// What the shader that adjusts is told, in two parts: the pass, and how wide and high a pixel is
/// as a share of the picture.
pub fn adjust_params(pass: AdjustPass, texel_w: Real, texel_h: Real) -> (r: ([u8; 16], [u8; 16]))
    ensures
        r.0@ == low_first(pass_words(pass)) || r.0@ == high_first(pass_words(pass)),
        r.1@ == low_first(seq![texel_w.bits, texel_h.bits, 0, 0]) || r.1@ == high_first(
            seq![texel_w.bits, texel_h.bits, 0, 0],
        ),
{
    let a: [u32; 4] = [pass.mode, pass.p0.bits, pass.p1.bits, pass.p2.bits];
    let b: [u32; 4] = [texel_w.bits, texel_h.bits, 0, 0];
    assert(a@ =~= pass_words(pass));
    assert(b@ =~= seq![texel_w.bits, texel_h.bits, 0, 0]);
    (words_as_bytes(a), words_as_bytes(b))
}

/// What a pass is told, as words.
pub open spec fn pass_words(pass: AdjustPass) -> Seq<u32> {
    seq![pass.mode, pass.p0.bits, pass.p1.bits, pass.p2.bits]
}

} // verus!
