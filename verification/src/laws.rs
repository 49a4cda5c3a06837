use vstd::prelude::*;
use crate::builder::{spec_build, spec_build_from, spec_step, BuildModel, StepModel, EVENT_CAP};
use crate::events::{doc_events, EventModel};
use crate::geom::Extent;
use crate::model::{
    extent_of, lemma_extent_bounded, rescaled, rescaled_seq, row_h_upto, row_w_upto, sealed,
    shifted_level, weight, weight_seq, MetricFn, NodeModel, WEIGHT_CAP,
};
use crate::builder::{lemma_step_preserves, stack_inv};
use crate::tree::spec_append;

verus! {

/// Run from any stack that satisfies the working-stack invariant, a
/// completed build yields a sealed tree no heavier than the stack plus four
/// nodes per event consumed.
pub proof fn lemma_build_from_safe(
    started: bool,
    stack: Seq<NodeModel>,
    events: Seq<EventModel>,
    mf: MetricFn,
)
    requires
        stack_inv(stack),
    ensures
        match spec_build_from(started, stack, events, mf) {
            BuildModel::Done(n) => sealed(n) && weight(n) <= weight_seq(stack) + 4 * events.len(),
            _ => true,
        },
    decreases events,
{
    if events.len() > 0 {
        lemma_step_preserves(started, stack, events[0], mf);
        match spec_step(started, stack, events[0], mf) {
            StepModel::Going(st2, sk2) => {
                lemma_build_from_safe(st2, sk2, events.drop_first(), mf);
            },
            _ => {},
        }
    }
}

/// Building any event sequence within the event budget and then measuring
/// the result never fails: a completed build is a sealed tree within the
/// weight cap, and its bounding box sits at the origin with non-negative
/// width and height.
pub proof fn lemma_build_then_measure_safe(events: Seq<EventModel>, mf: MetricFn)
    requires
        events.len() <= EVENT_CAP,
    ensures
        match spec_build(events, mf) {
            BuildModel::Done(n) => sealed(n) && weight(n) <= WEIGHT_CAP && extent_of(n).x == 0
                && extent_of(n).y >= 0 && extent_of(n).w >= 0 && extent_of(n).h >= 0,
            _ => true,
        },
{
    lemma_build_from_safe(false, Seq::empty(), events, mf);
    reveal_with_fuel(weight_seq, 2);
    match spec_build(events, mf) {
        BuildModel::Done(n) => {
            lemma_extent_bounded(n);
        },
        _ => {},
    }
}

/// The bounding width of a row — and of a fenced group — is the exact sum,
/// over its children in order, of each child box's `x` plus its width plus
/// the sibling gap; its height is the tallest child box. With no children
/// both are zero, so an empty row measures as a zero box. Note that one gap
/// is counted per child, the last included: a row of one child is two units
/// wider than the child's own box.
pub proof fn lemma_row_extent(children: Seq<NodeModel>)
    ensures
        extent_of(NodeModel::Row { children }) == (Extent {
            x: 0,
            y: 0,
            w: row_w_upto(children, children.len() as int),
            h: row_h_upto(children, children.len() as int),
        }),
        children.len() == 0 ==> extent_of(NodeModel::Row { children }) == (Extent {
            x: 0,
            y: 0,
            w: 0,
            h: 0,
        }),
        children.len() > 0 ==> row_w_upto(children, children.len() as int) == row_w_upto(
            children,
            children.len() - 1,
        ) + extent_of(children.last()).x + extent_of(children.last()).w + 2,
{
}

/// A fenced group measures exactly as a row of the same children; its
/// delimiters and separator play no part in its box.
pub proof fn lemma_fenced_measures_as_row(
    open: Seq<char>,
    close: Seq<char>,
    separator: Seq<char>,
    children: Seq<NodeModel>,
)
    ensures
        extent_of(NodeModel::Fenced { open, close, separator, children }) == extent_of(
            NodeModel::Row { children },
        ),
{
}

/// Attaching a second child to a square root whose slot already holds a
/// non-row tree merges the two into a row of exactly those two children —
/// and therefore measures exactly as a directly-authored two-child row
/// wrapped in a square root would.
pub proof fn lemma_sqrt_second_child_merges(a: NodeModel, b: NodeModel, mf: MetricFn)
    requires
        !(a is Row),
        !(a is Placeholder),
    ensures
        spec_append(
            NodeModel::Sqrt { child: Box::new(NodeModel::Placeholder) },
            a,
            mf,
        ) == Result::<NodeModel, crate::tree::ErrModel>::Ok(NodeModel::Sqrt { child: Box::new(a) }),
        spec_append(NodeModel::Sqrt { child: Box::new(a) }, b, mf) == Result::<
            NodeModel,
            crate::tree::ErrModel,
        >::Ok(NodeModel::Sqrt { child: Box::new(NodeModel::Row { children: seq![a, b] }) }),
{
}

/// Whether `b` is `a` with every leaf's script nesting level shifted by
/// `delta`, floored at zero: the same tree shape, kind for kind and slot
/// for slot, with only leaf levels (and their cached runs) changed.
pub open spec fn levels_shifted(a: NodeModel, b: NodeModel, delta: int) -> bool
    decreases a, 0int,
{
    match (a, b) {
        (NodeModel::Placeholder, NodeModel::Placeholder) => true,
        (
            NodeModel::Leaf { kind: k1, body: b1, level: l1, .. },
            NodeModel::Leaf { kind: k2, body: b2, level: l2, .. },
        ) => k1 == k2 && b1 == b2 && l2 == shifted_level(l1, delta),
        (NodeModel::Space { size: s1 }, NodeModel::Space { size: s2 }) => s1 == s2,
        (NodeModel::Row { children: c1 }, NodeModel::Row { children: c2 }) => levels_shifted_seq(
            c1,
            c2,
            delta,
        ),
        (
            NodeModel::Fraction { numer: n1, denom: d1 },
            NodeModel::Fraction { numer: n2, denom: d2 },
        ) => levels_shifted(*n1, *n2, delta) && levels_shifted(*d1, *d2, delta),
        (NodeModel::Sqrt { child: c1 }, NodeModel::Sqrt { child: c2 }) => levels_shifted(
            *c1,
            *c2,
            delta,
        ),
        (NodeModel::Root { base: b1, index: i1 }, NodeModel::Root { base: b2, index: i2 }) => levels_shifted(
            *b1,
            *b2,
            delta,
        ) && levels_shifted(*i1, *i2, delta),
        (
            NodeModel::Fenced { children: c1, open: o1, close: cl1, separator: s1 },
            NodeModel::Fenced { children: c2, open: o2, close: cl2, separator: s2 },
        ) => o1 == o2 && cl1 == cl2 && s1 == s2 && levels_shifted_seq(c1, c2, delta),
        (
            NodeModel::Subscript { base: b1, script: s1 },
            NodeModel::Subscript { base: b2, script: s2 },
        ) => levels_shifted(*b1, *b2, delta) && levels_shifted(*s1, *s2, delta),
        (
            NodeModel::Superscript { base: b1, script: s1 },
            NodeModel::Superscript { base: b2, script: s2 },
        ) => levels_shifted(*b1, *b2, delta) && levels_shifted(*s1, *s2, delta),
        (
            NodeModel::Subsuperscript { base: b1, subscript: u1, superscript: p1 },
            NodeModel::Subsuperscript { base: b2, subscript: u2, superscript: p2 },
        ) => levels_shifted(*b1, *b2, delta) && levels_shifted(*u1, *u2, delta) && levels_shifted(
            *p1,
            *p2,
            delta,
        ),
        _ => false,
    }
}

/// Pointwise `levels_shifted` over sibling sequences.
pub open spec fn levels_shifted_seq(a: Seq<NodeModel>, b: Seq<NodeModel>, delta: int) -> bool
    decreases a, 0int,
{
    if a.len() != b.len() {
        false
    } else if a.len() == 0 {
        true
    } else {
        levels_shifted(a[0], b[0], delta) && levels_shifted_seq(a.drop_first(), b.drop_first(), delta)
    }
}

/// Script-depth propagation is uniform, additive by the shift it is given,
/// and floored at zero: rescaling a tree shifts exactly every leaf's level
/// by `delta`, never below zero, and changes nothing else of the shape. A
/// superscript attach (`delta == 1`) thus takes a depth-one leaf to depth
/// two; a subscript attach (`delta == -1`) at depth zero stays at depth
/// zero.
pub proof fn lemma_rescale_shifts_levels(n: NodeModel, delta: int, mf: MetricFn)
    ensures
        levels_shifted(n, rescaled(n, delta, mf), delta),
    decreases n, 0int,
{
    match n {
        NodeModel::Row { children } => {
            lemma_rescale_shifts_levels_seq(children, delta, mf);
        },
        NodeModel::Fenced { children, .. } => {
            lemma_rescale_shifts_levels_seq(children, delta, mf);
        },
        NodeModel::Fraction { numer, denom } => {
            lemma_rescale_shifts_levels(*numer, delta, mf);
            lemma_rescale_shifts_levels(*denom, delta, mf);
        },
        NodeModel::Sqrt { child } => {
            lemma_rescale_shifts_levels(*child, delta, mf);
        },
        NodeModel::Root { base, index } => {
            lemma_rescale_shifts_levels(*base, delta, mf);
            lemma_rescale_shifts_levels(*index, delta, mf);
        },
        NodeModel::Subscript { base, script } => {
            lemma_rescale_shifts_levels(*base, delta, mf);
            lemma_rescale_shifts_levels(*script, delta, mf);
        },
        NodeModel::Superscript { base, script } => {
            lemma_rescale_shifts_levels(*base, delta, mf);
            lemma_rescale_shifts_levels(*script, delta, mf);
        },
        NodeModel::Subsuperscript { base, subscript, superscript } => {
            lemma_rescale_shifts_levels(*base, delta, mf);
            lemma_rescale_shifts_levels(*subscript, delta, mf);
            lemma_rescale_shifts_levels(*superscript, delta, mf);
        },
        _ => {},
    }
}

/// The sibling form of `lemma_rescale_shifts_levels`.
pub proof fn lemma_rescale_shifts_levels_seq(s: Seq<NodeModel>, delta: int, mf: MetricFn)
    ensures
        levels_shifted_seq(s, rescaled_seq(s, delta, mf), delta),
    decreases s, 0int,
{
    if s.len() > 0 {
        lemma_rescale_shifts_levels(s[0], delta, mf);
        lemma_rescale_shifts_levels_seq(s.drop_first(), delta, mf);
        assert(rescaled_seq(s, delta, mf).drop_first() =~= rescaled_seq(s.drop_first(), delta, mf));
    }
}

/// Attaching a tree to a superscript's script slot shifts every contained
/// leaf one level deeper, and attaching to a subscript's script slot one
/// level shallower, floored at zero; the base slot is never touched.
pub proof fn lemma_script_attach_shifts(base: NodeModel, child: NodeModel, mf: MetricFn)
    requires
        !(base is Placeholder),
    ensures
        spec_append(
            NodeModel::Superscript { base: Box::new(base), script: Box::new(NodeModel::Placeholder) },
            child,
            mf,
        ) == Result::<NodeModel, crate::tree::ErrModel>::Ok(
            NodeModel::Superscript {
                base: Box::new(base),
                script: Box::new(rescaled(child, 1, mf)),
            },
        ),
        levels_shifted(child, rescaled(child, 1, mf), 1),
        spec_append(
            NodeModel::Subscript { base: Box::new(base), script: Box::new(NodeModel::Placeholder) },
            child,
            mf,
        ) == Result::<NodeModel, crate::tree::ErrModel>::Ok(
            NodeModel::Subscript {
                base: Box::new(base),
                script: Box::new(rescaled(child, -1, mf)),
            },
        ),
        levels_shifted(child, rescaled(child, -1, mf), -1),
{
    lemma_rescale_shifts_levels(child, 1, mf);
    lemma_rescale_shifts_levels(child, -1, mf);
}

/// Parsing the same bytes with the same metric source is deterministic: the
/// bytes denote one event sequence (`doc_events`), and any two completed
/// builds of that sequence are the same tree, with the same bounding box.
pub proof fn lemma_parse_deterministic(bytes: Seq<u8>, mf: MetricFn, r1: NodeModel, r2: NodeModel)
    requires
        spec_build(doc_events(bytes), mf) == BuildModel::Done(r1),
        spec_build(doc_events(bytes), mf) == BuildModel::Done(r2),
    ensures
        r1 == r2,
        extent_of(r1) == extent_of(r2),
{
}

/// Building the same event sequence with the same metric source is
/// deterministic: any two completed builds of it are the same tree, with
/// the same bounding box. (The build result is pinned exactly by
/// `spec_build`, of which this is the direct consequence.)
pub proof fn lemma_build_deterministic(
    events: Seq<EventModel>,
    mf: MetricFn,
    r1: NodeModel,
    r2: NodeModel,
)
    requires
        spec_build(events, mf) == BuildModel::Done(r1),
        spec_build(events, mf) == BuildModel::Done(r2),
    ensures
        r1 == r2,
        extent_of(r1) == extent_of(r2),
{
}

} // verus!
