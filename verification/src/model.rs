use vstd::prelude::*;
use crate::metrics::{run_of, TextMetrics, TextRun};
use crate::geom::{Extent, OpModel};

verus! {

/// The function of text and font size that a metric source implements.
pub type MetricFn = spec_fn(Seq<char>, u32) -> TextMetrics;

/// Which of the three textual leaf kinds a leaf is.
pub enum LeafKind {
    Id,
    Number,
    Operator,
}

/// The mathematical value of an expression node: the same tree shape as the
/// executable `Element`, with strings as character sequences and the script
/// nesting level as an unbounded natural.
pub enum NodeModel {
    Placeholder,
    Leaf { kind: LeafKind, body: Seq<char>, run: Option<TextRun>, level: nat },
    Space { size: nat },
    Row { children: Seq<NodeModel> },
    Fraction { numer: Box<NodeModel>, denom: Box<NodeModel> },
    Sqrt { child: Box<NodeModel> },
    Root { base: Box<NodeModel>, index: Box<NodeModel> },
    Fenced { open: Seq<char>, close: Seq<char>, separator: Seq<char>, children: Seq<NodeModel> },
    Subscript { base: Box<NodeModel>, script: Box<NodeModel> },
    Superscript { base: Box<NodeModel>, script: Box<NodeModel> },
    Subsuperscript { base: Box<NodeModel>, subscript: Box<NodeModel>, superscript: Box<NodeModel> },
}

/// The number of nodes of a tree, placeholders included. All machine-width
/// reasoning about the layout passes rests on this measure.
pub open spec fn weight(n: NodeModel) -> nat
    decreases n, 0int,
{
    match n {
        NodeModel::Placeholder => 1,
        NodeModel::Leaf { .. } => 1,
        NodeModel::Space { .. } => 1,
        NodeModel::Row { children } => 1 + weight_seq(children),
        NodeModel::Fraction { numer, denom } => 1 + weight(*numer) + weight(*denom),
        NodeModel::Sqrt { child } => 1 + weight(*child),
        NodeModel::Root { base, index } => 1 + weight(*base) + weight(*index),
        NodeModel::Fenced { children, .. } => 1 + weight_seq(children),
        NodeModel::Subscript { base, script } => 1 + weight(*base) + weight(*script),
        NodeModel::Superscript { base, script } => 1 + weight(*base) + weight(*script),
        NodeModel::Subsuperscript { base, subscript, superscript } => 1 + weight(*base)
            + weight(*subscript) + weight(*superscript),
    }
}

/// The total weight of a sequence of sibling trees.
pub open spec fn weight_seq(s: Seq<NodeModel>) -> nat
    decreases s, 0int,
{
    if s.len() == 0 {
        0
    } else {
        weight(s[0]) + weight_seq(s.drop_first())
    }
}

/// A tree is sealed when building it is finished: no placeholder survives
/// anywhere, and every textual leaf has been populated with a measured body.
/// Only sealed trees are rendered.
pub open spec fn sealed(n: NodeModel) -> bool
    decreases n, 0int,
{
    match n {
        NodeModel::Placeholder => false,
        NodeModel::Leaf { run, .. } => run is Some,
        NodeModel::Space { .. } => true,
        NodeModel::Row { children } => sealed_seq(children),
        NodeModel::Fraction { numer, denom } => sealed(*numer) && sealed(*denom),
        NodeModel::Sqrt { child } => sealed(*child),
        NodeModel::Root { base, index } => sealed(*base) && sealed(*index),
        NodeModel::Fenced { children, .. } => sealed_seq(children),
        NodeModel::Subscript { base, script } => sealed(*base) && sealed(*script),
        NodeModel::Superscript { base, script } => sealed(*base) && sealed(*script),
        NodeModel::Subsuperscript { base, subscript, superscript } => sealed(*base) && sealed(
            *subscript,
        ) && sealed(*superscript),
    }
}

/// Whether every tree of a sequence is sealed.
pub open spec fn sealed_seq(s: Seq<NodeModel>) -> bool
    decreases s, 0int,
{
    if s.len() == 0 {
        true
    } else {
        sealed(s[0]) && sealed_seq(s.drop_first())
    }
}

/// Whether a node's own slots are all filled: no direct child is still a
/// placeholder, and a textual leaf has its body. This is what the builder
/// checks when a close event pops the node.
pub open spec fn slots_filled(n: NodeModel) -> bool {
    match n {
        NodeModel::Placeholder => false,
        NodeModel::Leaf { run, .. } => run is Some,
        NodeModel::Space { .. } => true,
        NodeModel::Row { .. } => true,
        NodeModel::Fraction { numer, denom } => !(*numer is Placeholder) && !(*denom
            is Placeholder),
        NodeModel::Sqrt { child } => !(*child is Placeholder),
        NodeModel::Root { base, index } => !(*base is Placeholder) && !(*index is Placeholder),
        NodeModel::Fenced { .. } => true,
        NodeModel::Subscript { base, script } => !(*base is Placeholder) && !(*script
            is Placeholder),
        NodeModel::Superscript { base, script } => !(*base is Placeholder) && !(*script
            is Placeholder),
        NodeModel::Subsuperscript { base, subscript, superscript } => !(*base is Placeholder) && !(
        *subscript is Placeholder) && !(*superscript is Placeholder),
    }
}

/// The invariant of every node on the builder's working stack: each slot is
/// either still a placeholder or holds a sealed tree, and each appended
/// sibling is sealed. Together with `slots_filled` this yields `sealed`.
pub open spec fn slots_sealed(n: NodeModel) -> bool {
    match n {
        NodeModel::Placeholder => false,
        NodeModel::Leaf { .. } => true,
        NodeModel::Space { .. } => true,
        NodeModel::Row { children } => sealed_seq(children),
        NodeModel::Fraction { numer, denom } => (*numer is Placeholder || sealed(*numer)) && (*denom
            is Placeholder || sealed(*denom)),
        NodeModel::Sqrt { child } => *child is Placeholder || sealed(*child),
        NodeModel::Root { base, index } => (*base is Placeholder || sealed(*base)) && (*index
            is Placeholder || sealed(*index)),
        NodeModel::Fenced { children, .. } => sealed_seq(children),
        NodeModel::Subscript { base, script } => (*base is Placeholder || sealed(*base)) && (*script
            is Placeholder || sealed(*script)),
        NodeModel::Superscript { base, script } => (*base is Placeholder || sealed(*base)) && (
        *script is Placeholder || sealed(*script)),
        NodeModel::Subsuperscript { base, subscript, superscript } => (*base is Placeholder
            || sealed(*base)) && (*subscript is Placeholder || sealed(*subscript)) && (*superscript
            is Placeholder || sealed(*superscript)),
    }
}

/// A node on the working stack whose slots are all filled is a finished,
/// sealed tree.
pub proof fn lemma_filled_is_sealed(n: NodeModel)
    requires
        slots_sealed(n),
        slots_filled(n),
    ensures
        sealed(n),
{
}

/// The font size at which leaves are first measured.
pub const BASE_FONT_SIZE: u32 = 18;

/// How much the font shrinks per script nesting level.
pub const FONT_SIZE_STEP: u32 = 3;

/// The smallest font size a leaf is ever shrunk to.
pub const MIN_FONT_SIZE: u32 = 6;

/// The font size used for a leaf at the given script nesting level: the base
/// size shrunk by one step per level, floored at the minimum size.
pub open spec fn font_size_for(level: nat) -> u32 {
    if (BASE_FONT_SIZE as int) - (FONT_SIZE_STEP as int) * (level as int) < (MIN_FONT_SIZE as int) {
        MIN_FONT_SIZE
    } else {
        ((BASE_FONT_SIZE as int) - (FONT_SIZE_STEP as int) * (level as int)) as u32
    }
}

/// Computes `font_size_for` on a machine-width level.
pub fn font_size_at(level: usize) -> (s: u32)
    ensures
        s == font_size_for(level as nat),
{
    if level >= 4 {
        MIN_FONT_SIZE
    } else {
        BASE_FONT_SIZE - FONT_SIZE_STEP * (level as u32)
    }
}

/// The script nesting level shifted by `delta`, floored at zero and capped at
/// the machine word so the executable counter can mirror it exactly.
pub open spec fn shifted_level(level: nat, delta: int) -> nat {
    if level + delta < 0 {
        0
    } else if level + delta > usize::MAX {
        usize::MAX as nat
    } else {
        (level + delta) as nat
    }
}

/// The tree after the script-depth propagator has shifted every leaf's
/// nesting level by `delta` and re-measured every populated leaf at its new
/// font size through the metric function `mf`. Placeholders and spaces are
/// untouched; every container kind passes the same `delta` on uniformly.
pub open spec fn rescaled(n: NodeModel, delta: int, mf: MetricFn) -> NodeModel
    decreases n, 0int,
{
    match n {
        NodeModel::Placeholder => NodeModel::Placeholder,
        NodeModel::Leaf { kind, body, run, level } => {
            let lv = shifted_level(level, delta);
            let run2 = match run {
                Option::Some(_) => Option::Some(
                    run_of(mf(body, font_size_for(lv)), font_size_for(lv)),
                ),
                Option::None => Option::None,
            };
            NodeModel::Leaf { kind, body, run: run2, level: lv }
        },
        NodeModel::Space { size } => NodeModel::Space { size },
        NodeModel::Row { children } => NodeModel::Row {
            children: rescaled_seq(children, delta, mf),
        },
        NodeModel::Fraction { numer, denom } => NodeModel::Fraction {
            numer: Box::new(rescaled(*numer, delta, mf)),
            denom: Box::new(rescaled(*denom, delta, mf)),
        },
        NodeModel::Sqrt { child } => NodeModel::Sqrt {
            child: Box::new(rescaled(*child, delta, mf)),
        },
        NodeModel::Root { base, index } => NodeModel::Root {
            base: Box::new(rescaled(*base, delta, mf)),
            index: Box::new(rescaled(*index, delta, mf)),
        },
        NodeModel::Fenced { open, close, separator, children } => NodeModel::Fenced {
            open,
            close,
            separator,
            children: rescaled_seq(children, delta, mf),
        },
        NodeModel::Subscript { base, script } => NodeModel::Subscript {
            base: Box::new(rescaled(*base, delta, mf)),
            script: Box::new(rescaled(*script, delta, mf)),
        },
        NodeModel::Superscript { base, script } => NodeModel::Superscript {
            base: Box::new(rescaled(*base, delta, mf)),
            script: Box::new(rescaled(*script, delta, mf)),
        },
        NodeModel::Subsuperscript { base, subscript, superscript } => NodeModel::Subsuperscript {
            base: Box::new(rescaled(*base, delta, mf)),
            subscript: Box::new(rescaled(*subscript, delta, mf)),
            superscript: Box::new(rescaled(*superscript, delta, mf)),
        },
    }
}

/// Each tree of a sequence of siblings, rescaled.
pub open spec fn rescaled_seq(s: Seq<NodeModel>, delta: int, mf: MetricFn) -> Seq<NodeModel>
    decreases s, 0int,
{
    if s.len() == 0 {
        Seq::empty()
    } else {
        seq![rescaled(s[0], delta, mf)] + rescaled_seq(s.drop_first(), delta, mf)
    }
}

/// Rescaling a sequence of siblings acts pointwise.
pub proof fn lemma_rescaled_seq_index(s: Seq<NodeModel>, delta: int, mf: MetricFn)
    ensures
        rescaled_seq(s, delta, mf).len() == s.len(),
        forall|i: int|
            0 <= i < s.len() ==> rescaled_seq(s, delta, mf)[i] == rescaled(s[i], delta, mf),
    decreases s,
{
    if s.len() > 0 {
        lemma_rescaled_seq_index(s.drop_first(), delta, mf);
    }
}

/// Rescaling keeps a sealed tree sealed.
pub proof fn lemma_rescaled_sealed(n: NodeModel, delta: int, mf: MetricFn)
    requires
        sealed(n),
    ensures
        sealed(rescaled(n, delta, mf)),
    decreases n, 0int,
{
    match n {
        NodeModel::Row { children } => {
            lemma_rescaled_seq_sealed(children, delta, mf);
        },
        NodeModel::Fenced { children, .. } => {
            lemma_rescaled_seq_sealed(children, delta, mf);
        },
        NodeModel::Fraction { numer, denom } => {
            lemma_rescaled_sealed(*numer, delta, mf);
            lemma_rescaled_sealed(*denom, delta, mf);
        },
        NodeModel::Sqrt { child } => {
            lemma_rescaled_sealed(*child, delta, mf);
        },
        NodeModel::Root { base, index } => {
            lemma_rescaled_sealed(*base, delta, mf);
            lemma_rescaled_sealed(*index, delta, mf);
        },
        NodeModel::Subscript { base, script } => {
            lemma_rescaled_sealed(*base, delta, mf);
            lemma_rescaled_sealed(*script, delta, mf);
        },
        NodeModel::Superscript { base, script } => {
            lemma_rescaled_sealed(*base, delta, mf);
            lemma_rescaled_sealed(*script, delta, mf);
        },
        NodeModel::Subsuperscript { base, subscript, superscript } => {
            lemma_rescaled_sealed(*base, delta, mf);
            lemma_rescaled_sealed(*subscript, delta, mf);
            lemma_rescaled_sealed(*superscript, delta, mf);
        },
        _ => {},
    }
}

/// Rescaling keeps a sequence of sealed siblings sealed.
pub proof fn lemma_rescaled_seq_sealed(s: Seq<NodeModel>, delta: int, mf: MetricFn)
    requires
        sealed_seq(s),
    ensures
        sealed_seq(rescaled_seq(s, delta, mf)),
    decreases s, 0int,
{
    if s.len() > 0 {
        lemma_rescaled_sealed(s[0], delta, mf);
        lemma_rescaled_seq_sealed(s.drop_first(), delta, mf);
        assert(rescaled_seq(s, delta, mf).drop_first() =~= rescaled_seq(
            s.drop_first(),
            delta,
            mf,
        ));
    }
}

/// Rescaling does not change a tree's weight.
pub proof fn lemma_rescaled_weight(n: NodeModel, delta: int, mf: MetricFn)
    ensures
        weight(rescaled(n, delta, mf)) == weight(n),
    decreases n, 0int,
{
    match n {
        NodeModel::Row { children } => {
            lemma_rescaled_seq_weight(children, delta, mf);
        },
        NodeModel::Fenced { children, .. } => {
            lemma_rescaled_seq_weight(children, delta, mf);
        },
        NodeModel::Fraction { numer, denom } => {
            lemma_rescaled_weight(*numer, delta, mf);
            lemma_rescaled_weight(*denom, delta, mf);
        },
        NodeModel::Sqrt { child } => {
            lemma_rescaled_weight(*child, delta, mf);
        },
        NodeModel::Root { base, index } => {
            lemma_rescaled_weight(*base, delta, mf);
            lemma_rescaled_weight(*index, delta, mf);
        },
        NodeModel::Subscript { base, script } => {
            lemma_rescaled_weight(*base, delta, mf);
            lemma_rescaled_weight(*script, delta, mf);
        },
        NodeModel::Superscript { base, script } => {
            lemma_rescaled_weight(*base, delta, mf);
            lemma_rescaled_weight(*script, delta, mf);
        },
        NodeModel::Subsuperscript { base, subscript, superscript } => {
            lemma_rescaled_weight(*base, delta, mf);
            lemma_rescaled_weight(*subscript, delta, mf);
            lemma_rescaled_weight(*superscript, delta, mf);
        },
        _ => {},
    }
}

/// The horizontal gap inserted between the children of a row.
pub const SIBLING_GAP: i64 = 2;

/// The vertical gap between a fraction's numerator and denominator.
pub const FRACTION_GAP: i64 = 2;

/// The widening of a square root's box for the radical glyph.
pub const SQRT_PAD: i64 = 10;

/// The widening of a root's box, beyond its index, for the radical notch.
pub const ROOT_PAD: i64 = 7;

/// The bounding box of a tree, computed bottom-up from the cached leaf
/// metrics. A leaf's box is offset downward by half its height, recording
/// that leaves are centered vertically about their anchor point; composite
/// kinds combine their children's boxes by the fixed layout formulas.
pub open spec fn extent_of(n: NodeModel) -> Extent
    decreases n, 0int,
{
    match n {
        NodeModel::Placeholder => Extent { x: 0, y: 0, w: 0, h: 0 },
        NodeModel::Leaf { run, .. } => match run {
            Option::Some(r) => Extent {
                x: 0,
                y: (r.height as int) / 2,
                w: r.width as int,
                h: r.height as int,
            },
            Option::None => Extent { x: 0, y: 0, w: 0, h: 0 },
        },
        NodeModel::Space { .. } => Extent { x: 0, y: 0, w: 0, h: 0 },
        NodeModel::Row { children } => Extent {
            x: 0,
            y: 0,
            w: row_w_upto(children, children.len() as int),
            h: row_h_upto(children, children.len() as int),
        },
        NodeModel::Fraction { numer, denom } => {
            let nb = extent_of(*numer);
            let db = extent_of(*denom);
            Extent {
                x: 0,
                y: 0,
                w: if nb.w >= db.w {
                    nb.w
                } else {
                    db.w
                },
                h: nb.h + db.h + FRACTION_GAP,
            }
        },
        NodeModel::Sqrt { child } => {
            let b = extent_of(*child);
            Extent { x: b.x, y: b.y, w: b.w + SQRT_PAD, h: b.h }
        },
        NodeModel::Root { base, index } => {
            let bb = extent_of(*base);
            let ib = extent_of(*index);
            Extent { x: bb.x, y: bb.y, w: bb.w + ROOT_PAD + ib.w, h: bb.h }
        },
        NodeModel::Fenced { children, .. } => Extent {
            x: 0,
            y: 0,
            w: row_w_upto(children, children.len() as int),
            h: row_h_upto(children, children.len() as int),
        },
        NodeModel::Subscript { base, script } => {
            let bb = extent_of(*base);
            let sb = extent_of(*script);
            Extent { x: bb.x, y: bb.y, w: bb.w + sb.w + SIBLING_GAP, h: bb.h + sb.h / 2 }
        },
        NodeModel::Superscript { base, script } => {
            let bb = extent_of(*base);
            let sb = extent_of(*script);
            Extent { x: bb.x, y: bb.y, w: bb.w + sb.w + SIBLING_GAP, h: bb.h + sb.h / 2 }
        },
        NodeModel::Subsuperscript { base, subscript, superscript } => {
            let bb = extent_of(*base);
            let ub = extent_of(*subscript);
            let pb = extent_of(*superscript);
            Extent {
                x: bb.x,
                y: bb.y,
                w: bb.w + (if ub.w >= pb.w {
                    ub.w
                } else {
                    pb.w
                }) + SIBLING_GAP,
                h: bb.h + ub.h / 2 + pb.h / 2,
            }
        },
    }
}

/// The width a row cursor has advanced after laying out the first `k`
/// children: for each, its box's `x` plus its width plus the sibling gap.
pub open spec fn row_w_upto(s: Seq<NodeModel>, k: int) -> int
    decreases s, k,
{
    if k <= 0 || k > s.len() {
        0
    } else {
        let b = extent_of(s[k - 1]);
        row_w_upto(s, k - 1) + b.x + b.w + SIBLING_GAP
    }
}

/// The height of a row over its first `k` children: the tallest child box.
pub open spec fn row_h_upto(s: Seq<NodeModel>, k: int) -> int
    decreases s, k,
{
    if k <= 0 || k > s.len() {
        0
    } else {
        let b = extent_of(s[k - 1]);
        let rest = row_h_upto(s, k - 1);
        if b.h >= rest {
            b.h
        } else {
            rest
        }
    }
}

/// The five line segments of a radical stroke drawn from the anchor
/// `(px, py)`: a leading tick, a falling edge, a rising edge, the top bar
/// over a box `w` wide and `h` tall whose left edge starts `d` units right
/// of the anchor, and a closing tick.
pub open spec fn radical_ops(px: int, py: int, d: int, w: int, h: int) -> Seq<OpModel> {
    seq![
        OpModel::Line { x1: px, y1: py, x2: px + d, y2: py },
        OpModel::Line { x1: px + d, y1: py, x2: px + d + 2, y2: py + h / 2 },
        OpModel::Line { x1: px + d + 2, y1: py + h / 2, x2: px + d + 6, y2: py - h / 2 },
        OpModel::Line { x1: px + d + 6, y1: py - h / 2, x2: px + d + 8 + w, y2: py - h / 2 },
        OpModel::Line { x1: px + d + 8 + w, y1: py - h / 2, x2: px + d + 8 + w, y2: py + 5 - h / 2 },
    ]
}

/// The draw primitives a tree issues when placed at the anchor `(px, py)`,
/// in issue order. Leaves draw their text centered vertically about the
/// anchor; rows advance a cursor; fractions draw the numerator above, a bar
/// through the anchor, and the denominator below; radicals draw their stroke
/// and indent their content; scripts sit right of the base, half a base
/// height off the midline.
pub open spec fn ops_of(n: NodeModel, px: int, py: int) -> Seq<OpModel>
    decreases n, 0int,
{
    match n {
        NodeModel::Placeholder => Seq::empty(),
        NodeModel::Leaf { body, run, .. } => match run {
            Option::Some(r) => seq![
                OpModel::Text {
                    x: px,
                    y: py - (r.height as int) / 2,
                    size: r.size as int,
                    body,
                },
            ],
            Option::None => Seq::empty(),
        },
        NodeModel::Space { .. } => Seq::empty(),
        NodeModel::Row { children } => row_ops_upto(children, px, py, children.len() as int),
        NodeModel::Fraction { numer, denom } => {
            let nb = extent_of(*numer);
            let db = extent_of(*denom);
            let bar = if nb.w >= db.w {
                nb.w
            } else {
                db.w
            };
            ops_of(*numer, px, py - (nb.h / 2 + 1)) + seq![
                OpModel::Line { x1: px, y1: py, x2: px + bar, y2: py },
            ] + ops_of(*denom, px, py + db.h / 2 + 1)
        },
        NodeModel::Sqrt { child } => {
            let eb = extent_of(*child);
            radical_ops(px, py, 2, eb.w, eb.h) + ops_of(*child, px + 9, py)
        },
        NodeModel::Root { base, index } => {
            let eb = extent_of(*base);
            let ib = extent_of(*index);
            radical_ops(px, py, ib.w, eb.w, eb.h) + ops_of(*base, px + ib.w + 7, py) + ops_of(
                *index,
                px,
                py - ib.h / 2,
            )
        },
        NodeModel::Fenced { children, .. } => row_ops_upto(
            children,
            px,
            py,
            children.len() as int,
        ),
        NodeModel::Subscript { base, script } => {
            let bb = extent_of(*base);
            ops_of(*base, px, py) + ops_of(*script, px + bb.w + 2, py + bb.h / 2)
        },
        NodeModel::Superscript { base, script } => {
            let bb = extent_of(*base);
            ops_of(*base, px, py) + ops_of(*script, px + bb.w + 2, py - bb.h / 2)
        },
        NodeModel::Subsuperscript { base, subscript, superscript } => {
            let bb = extent_of(*base);
            ops_of(*base, px, py) + ops_of(*subscript, px + bb.w + 2, py + bb.h / 2) + ops_of(
                *superscript,
                px + bb.w + 2,
                py - bb.h / 2,
            )
        },
    }
}

/// The draw primitives of the first `k` children of a row laid out from the
/// anchor `(px, py)`, each child placed where the cursor had advanced to.
pub open spec fn row_ops_upto(s: Seq<NodeModel>, px: int, py: int, k: int) -> Seq<OpModel>
    decreases s, k,
{
    if k <= 0 || k > s.len() {
        Seq::empty()
    } else {
        row_ops_upto(s, px, py, k - 1) + ops_of(s[k - 1], px + row_w_upto(s, k - 1), py)
    }
}

/// The row cursor never moves left as more children are laid out.
pub proof fn lemma_row_w_upto_mono(s: Seq<NodeModel>, k1: int, k2: int)
    requires
        0 <= k1 <= k2 <= s.len(),
        weight_seq(s) <= WEIGHT_CAP,
    ensures
        row_w_upto(s, k1) <= row_w_upto(s, k2),
    decreases k2,
{
    if k1 < k2 {
        lemma_row_w_upto_mono(s, k1, k2 - 1);
        lemma_weight_seq_split(s, k2 - 1);
        assert(s.skip(k2 - 1)[0] == s[k2 - 1]);
        assert(weight_seq(s.skip(k2 - 1)) == weight(s[k2 - 1]) + weight_seq(
            s.skip(k2 - 1).drop_first(),
        ));
        lemma_extent_bounded(s[k2 - 1]);
    }
}

/// How far, vertically, any draw primitive of a tree can stray from the
/// tree's own anchor: each node contributes its height (a root also its
/// index's height) plus a small allowance for the fixed strokes.
pub open spec fn ymass(n: NodeModel) -> int
    decreases n, 0int,
{
    match n {
        NodeModel::Placeholder => 8,
        NodeModel::Leaf { .. } => extent_of(n).h + 8,
        NodeModel::Space { .. } => 8,
        NodeModel::Row { children } => extent_of(n).h + 8 + ymass_seq(children),
        NodeModel::Fraction { numer, denom } => extent_of(n).h + 8 + ymass(*numer) + ymass(*denom),
        NodeModel::Sqrt { child } => extent_of(n).h + 8 + ymass(*child),
        NodeModel::Root { base, index } => extent_of(n).h + extent_of(*index).h + 8 + ymass(*base)
            + ymass(*index),
        NodeModel::Fenced { children, .. } => extent_of(n).h + 8 + ymass_seq(children),
        NodeModel::Subscript { base, script } => extent_of(n).h + 8 + ymass(*base) + ymass(
            *script,
        ),
        NodeModel::Superscript { base, script } => extent_of(n).h + 8 + ymass(*base) + ymass(
            *script,
        ),
        NodeModel::Subsuperscript { base, subscript, superscript } => extent_of(n).h + 8 + ymass(
            *base,
        ) + ymass(*subscript) + ymass(*superscript),
    }
}

/// The vertical stray allowance of a sequence of siblings.
pub open spec fn ymass_seq(s: Seq<NodeModel>) -> int
    decreases s, 0int,
{
    if s.len() == 0 {
        0
    } else {
        ymass(s[0]) + ymass_seq(s.drop_first())
    }
}

/// The vertical stray allowance per unit of tree weight.
pub const Y_UNIT: i64 = 0x80_0000_0008;

/// The band of coordinates within which the placement pass computes: wide
/// enough for any anchor within `ANCHOR_CAP` plus any in-cap tree's extent,
/// and comfortably inside a 64-bit signed integer.
pub const MAX_COORD: i64 = 0x4000_0000_0000_0000;

/// The largest anchor coordinate magnitude the placement pass accepts.
pub const ANCHOR_CAP: i64 = 0x1000_0000_0000_0000;

/// Within the weight cap, the vertical stray allowance is non-negative and
/// bounded by `Y_UNIT` per node.
pub proof fn lemma_ymass_bounded(n: NodeModel)
    requires
        weight(n) <= WEIGHT_CAP,
    ensures
        0 <= ymass(n),
        ymass(n) <= (Y_UNIT as int) * weight(n),
    decreases n, 0int,
{
    lemma_extent_bounded(n);
    match n {
        NodeModel::Row { children } => {
            lemma_ymass_seq_bounded(children);
        },
        NodeModel::Fenced { children, .. } => {
            lemma_ymass_seq_bounded(children);
        },
        NodeModel::Fraction { numer, denom } => {
            lemma_ymass_bounded(*numer);
            lemma_ymass_bounded(*denom);
        },
        NodeModel::Sqrt { child } => {
            lemma_ymass_bounded(*child);
        },
        NodeModel::Root { base, index } => {
            lemma_extent_bounded(*base);
            lemma_extent_bounded(*index);
            lemma_ymass_bounded(*base);
            lemma_ymass_bounded(*index);
        },
        NodeModel::Subscript { base, script } => {
            lemma_ymass_bounded(*base);
            lemma_ymass_bounded(*script);
        },
        NodeModel::Superscript { base, script } => {
            lemma_ymass_bounded(*base);
            lemma_ymass_bounded(*script);
        },
        NodeModel::Subsuperscript { base, subscript, superscript } => {
            lemma_ymass_bounded(*base);
            lemma_ymass_bounded(*subscript);
            lemma_ymass_bounded(*superscript);
        },
        _ => {},
    }
}

/// Within the weight cap, a sibling sequence's vertical stray allowance is
/// non-negative and bounded by `Y_UNIT` per node.
pub proof fn lemma_ymass_seq_bounded(s: Seq<NodeModel>)
    requires
        weight_seq(s) <= WEIGHT_CAP,
    ensures
        0 <= ymass_seq(s),
        ymass_seq(s) <= (Y_UNIT as int) * weight_seq(s),
    decreases s, 0int,
{
    if s.len() > 0 {
        assert(weight_seq(s) == weight(s[0]) + weight_seq(s.drop_first()));
        lemma_ymass_bounded(s[0]);
        lemma_ymass_seq_bounded(s.drop_first());
    }
}

/// Within the weight cap, each sibling's vertical stray allowance is at most
/// the whole sequence's.
pub proof fn lemma_ymass_seq_index(s: Seq<NodeModel>, i: int)
    requires
        0 <= i < s.len(),
        weight_seq(s) <= WEIGHT_CAP,
    ensures
        ymass(s[i]) <= ymass_seq(s),
    decreases s,
{
    assert(weight_seq(s) == weight(s[0]) + weight_seq(s.drop_first()));
    if i == 0 {
        lemma_ymass_seq_bounded(s.drop_first());
        assert(weight_seq(s.drop_first()) <= WEIGHT_CAP);
    } else {
        lemma_ymass_bounded(s[0]);
        lemma_ymass_seq_index(s.drop_first(), i - 1);
    }
}

/// Each sibling weighs no more than the whole sequence.
pub proof fn lemma_weight_seq_index(s: Seq<NodeModel>, i: int)
    requires
        0 <= i < s.len(),
    ensures
        weight(s[i]) <= weight_seq(s),
    decreases s,
{
    if i == 0 {
    } else {
        lemma_weight_seq_index(s.drop_first(), i - 1);
    }
}

/// A sealed sibling sequence is sealed pointwise.
pub proof fn lemma_sealed_seq_index(s: Seq<NodeModel>)
    requires
        sealed_seq(s),
    ensures
        forall|i: int| 0 <= i < s.len() ==> sealed(s[i]),
    decreases s,
{
    if s.len() > 0 {
        lemma_sealed_seq_index(s.drop_first());
        assert forall|i: int| 0 <= i < s.len() implies sealed(s[i]) by {
            if i > 0 {
                assert(s.drop_first()[i - 1] == s[i]);
            }
        }
    }
}

/// Every tree weighs at least one.
pub proof fn lemma_weight_pos(n: NodeModel)
    ensures
        weight(n) >= 1,
{
}

/// Appending one sibling adds its weight.
pub proof fn lemma_weight_seq_snoc(s: Seq<NodeModel>, x: NodeModel)
    ensures
        weight_seq(s.push(x)) == weight_seq(s) + weight(x),
    decreases s,
{
    if s.len() == 0 {
        assert(s.push(x).drop_first() =~= Seq::<NodeModel>::empty());
        assert(weight_seq(s.push(x).drop_first()) == 0);
    } else {
        assert(s.push(x).drop_first() =~= s.drop_first().push(x));
        lemma_weight_seq_snoc(s.drop_first(), x);
    }
}

/// Replacing one sibling replaces its weight.
pub proof fn lemma_weight_seq_update(s: Seq<NodeModel>, i: int, v: NodeModel)
    requires
        0 <= i < s.len(),
    ensures
        weight_seq(s.update(i, v)) == weight_seq(s) - weight(s[i]) + weight(v),
    decreases s,
{
    if i == 0 {
        assert(s.update(0, v).drop_first() =~= s.drop_first());
    } else {
        assert(s.update(i, v).drop_first() =~= s.drop_first().update(i - 1, v));
        lemma_weight_seq_update(s.drop_first(), i - 1, v);
    }
}

/// Dropping the last sibling drops its weight.
pub proof fn lemma_weight_seq_drop_last(s: Seq<NodeModel>)
    requires
        s.len() > 0,
    ensures
        weight_seq(s.drop_last()) == weight_seq(s) - weight(s.last()),
{
    reveal_with_fuel(weight_seq, 3);
    lemma_weight_seq_split(s, s.len() - 1);
    assert(s.take(s.len() - 1) =~= s.drop_last());
    assert(s.skip(s.len() - 1)[0] == s.last());
    assert(s.skip(s.len() - 1).drop_first() =~= Seq::<NodeModel>::empty());
    assert(weight_seq(s.skip(s.len() - 1)) == weight(s.last()));
}

/// A sequence with one more sealed sibling is sealed exactly when the
/// sequence was.
pub proof fn lemma_sealed_seq_snoc(s: Seq<NodeModel>, x: NodeModel)
    ensures
        sealed_seq(s.push(x)) == (sealed_seq(s) && sealed(x)),
    decreases s,
{
    reveal_with_fuel(sealed_seq, 3);
    if s.len() == 0 {
        assert(s.push(x).drop_first() =~= Seq::<NodeModel>::empty());
    } else {
        assert(s.push(x).drop_first() =~= s.drop_first().push(x));
        lemma_sealed_seq_snoc(s.drop_first(), x);
    }
}

/// A sequence's weight splits at any cut point.
pub proof fn lemma_weight_seq_split(s: Seq<NodeModel>, k: int)
    requires
        0 <= k <= s.len(),
    ensures
        weight_seq(s) == weight_seq(s.take(k)) + weight_seq(s.skip(k)),
    decreases s,
{
    if k == 0 {
        assert(s.take(0) =~= Seq::<NodeModel>::empty());
        assert(s.skip(0) =~= s);
    } else {
        lemma_weight_seq_split(s.drop_first(), k - 1);
        assert(s.take(k).drop_first() =~= s.drop_first().take(k - 1));
        assert(s.skip(k) =~= s.drop_first().skip(k - 1));
        assert(s.take(k)[0] == s[0]);
        assert(weight_seq(s.take(k)) == weight(s[0]) + weight_seq(s.drop_first().take(k - 1)));
    }
}

/// The largest tree weight the geometry passes accept; any tree a bounded
/// event stream can build stays far below it.
pub const WEIGHT_CAP: u64 = 0x40_0000;

/// A bound on any single box dimension per unit of tree weight.
pub const BOX_UNIT: i64 = 0x2_0000;

/// Every box of a tree within the weight cap sits at `x == 0`, has
/// non-negative dimensions, and is bounded by `BOX_UNIT` per node, so all
/// layout arithmetic stays well within a 64-bit signed integer.
pub proof fn lemma_extent_bounded(n: NodeModel)
    requires
        weight(n) <= WEIGHT_CAP,
    ensures
        extent_of(n).x == 0,
        0 <= extent_of(n).y,
        0 <= extent_of(n).w,
        0 <= extent_of(n).h,
        extent_of(n).w <= (BOX_UNIT as int) * weight(n) - 2,
        extent_of(n).h <= (BOX_UNIT as int) * weight(n) - 2,
        extent_of(n).y <= (BOX_UNIT as int) * weight(n),
    decreases n, 0int,
{
    match n {
        NodeModel::Row { children } => {
            let k = children.len() as int;
            lemma_row_upto_bounded(children, k);
            assert(children.take(k) =~= children);
        },
        NodeModel::Fenced { children, .. } => {
            let k = children.len() as int;
            lemma_row_upto_bounded(children, k);
            assert(children.take(k) =~= children);
        },
        NodeModel::Fraction { numer, denom } => {
            lemma_extent_bounded(*numer);
            lemma_extent_bounded(*denom);
        },
        NodeModel::Sqrt { child } => {
            lemma_extent_bounded(*child);
        },
        NodeModel::Root { base, index } => {
            lemma_extent_bounded(*base);
            lemma_extent_bounded(*index);
        },
        NodeModel::Subscript { base, script } => {
            lemma_extent_bounded(*base);
            lemma_extent_bounded(*script);
        },
        NodeModel::Superscript { base, script } => {
            lemma_extent_bounded(*base);
            lemma_extent_bounded(*script);
        },
        NodeModel::Subsuperscript { base, subscript, superscript } => {
            lemma_extent_bounded(*base);
            lemma_extent_bounded(*subscript);
            lemma_extent_bounded(*superscript);
        },
        _ => {},
    }
}

/// The row cursor and the row height over the first `k` children stay
/// non-negative and within `BOX_UNIT` per unit of those children's weight.
pub proof fn lemma_row_upto_bounded(s: Seq<NodeModel>, k: int)
    requires
        0 <= k <= s.len(),
        weight_seq(s) <= WEIGHT_CAP,
    ensures
        0 <= row_w_upto(s, k),
        row_w_upto(s, k) <= (BOX_UNIT as int) * weight_seq(s.take(k)),
        0 <= row_h_upto(s, k),
        row_h_upto(s, k) <= (BOX_UNIT as int) * weight_seq(s.take(k)),
    decreases s, k,
{
    if k > 0 {
        lemma_row_upto_bounded(s, k - 1);
        lemma_weight_seq_split(s, k - 1);
        assert(s.skip(k - 1)[0] == s[k - 1]);
        assert(weight_seq(s.skip(k - 1)) == weight(s[k - 1]) + weight_seq(
            s.skip(k - 1).drop_first(),
        ));
        lemma_extent_bounded(s[k - 1]);
        lemma_weight_pos(s[k - 1]);
        assert(s.take(k) =~= s.take(k - 1).push(s[k - 1]));
        lemma_weight_seq_snoc(s.take(k - 1), s[k - 1]);
    } else {
        assert(s.take(0) =~= Seq::<NodeModel>::empty());
    }
}

/// Rescaling does not change the weight of a sequence of siblings.
pub proof fn lemma_rescaled_seq_weight(s: Seq<NodeModel>, delta: int, mf: MetricFn)
    ensures
        weight_seq(rescaled_seq(s, delta, mf)) == weight_seq(s),
    decreases s, 0int,
{
    if s.len() > 0 {
        lemma_rescaled_weight(s[0], delta, mf);
        lemma_rescaled_seq_weight(s.drop_first(), delta, mf);
        assert(rescaled_seq(s, delta, mf).drop_first() =~= rescaled_seq(
            s.drop_first(),
            delta,
            mf,
        ));
    }
}

} // verus!
