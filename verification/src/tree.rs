use vstd::prelude::*;
use crate::events::{EventModel, MathEvent};
use crate::geom::{ops_model, DrawOp, Extent, OpModel, Point, Rect};
use crate::metrics::{run_of, MetricSource, TextRun};
use crate::model::{
    extent_of, font_size_at, font_size_for, lemma_extent_bounded, lemma_rescaled_sealed,
    lemma_rescaled_seq_index, lemma_rescaled_weight, lemma_row_upto_bounded, lemma_row_w_upto_mono,
    lemma_sealed_seq_index, lemma_sealed_seq_snoc, lemma_weight_seq_index, lemma_weight_seq_snoc,
    lemma_weight_seq_split, lemma_ymass_bounded, lemma_ymass_seq_bounded, lemma_ymass_seq_index,
    ops_of, radical_ops, rescaled, rescaled_seq, row_h_upto, row_ops_upto, row_w_upto, sealed,
    sealed_seq, shifted_level, slots_filled, slots_sealed, weight, weight_seq, ymass, ymass_seq,
    MetricFn, LeafKind, NodeModel, ANCHOR_CAP, BASE_FONT_SIZE, MAX_COORD, WEIGHT_CAP,
};

verus! {

/// The mathematical value of a build error.
pub enum ErrModel {
    XmlFault(Seq<char>),
    UnexpectedEvent(EventModel),
    UnexpectedTag(Seq<char>),
    AppendToLeaf,
    AppendToFullNode,
}

impl ErrModel {
    /// The short account `description` gives of each error kind.
    pub open spec fn describes(self) -> Seq<char> {
        match self {
            ErrModel::XmlFault(_) => "xml error"@,
            ErrModel::UnexpectedEvent(_) => "unexpected XML event"@,
            ErrModel::UnexpectedTag(_) => "unexpected XML tag"@,
            ErrModel::AppendToLeaf => "attempt to append to leaf"@,
            ErrModel::AppendToFullNode => "attempt to append to full node"@,
        }
    }
}

/// A node of the expression tree. Leaves carry their body text, the cached
/// measurement of that text, and their script nesting level; containers own
/// their children exclusively, fixed-arity ones through placeholder slots
/// that the builder fills left to right.
#[derive(Debug)]
pub enum Element {
    ParsePlaceholder,
    Id(String, Option<TextRun>, usize),
    Number(String, Option<TextRun>, usize),
    Operator(String, Option<TextRun>, usize),
    Space(usize),
    Row(Vec<Element>),
    Fraction { numer: Box<Element>, denom: Box<Element> },
    Sqrt(Box<Element>),
    Root { base: Box<Element>, index: Box<Element> },
    Fenced { open: String, close: String, separator: String, children: Vec<Element> },
    Subscript { base: Box<Element>, script: Box<Element> },
    Superscript { base: Box<Element>, script: Box<Element> },
    Subsuperscript { base: Box<Element>, subscript: Box<Element>, superscript: Box<Element> },
}

impl Element {
    /// The tree this node stands for.
    pub open spec fn model(self) -> NodeModel
        decreases self, 1int,
    {
        match self {
            Element::ParsePlaceholder => NodeModel::Placeholder,
            Element::Id(body, run, level) => NodeModel::Leaf {
                kind: LeafKind::Id,
                body: body@,
                run,
                level: level as nat,
            },
            Element::Number(body, run, level) => NodeModel::Leaf {
                kind: LeafKind::Number,
                body: body@,
                run,
                level: level as nat,
            },
            Element::Operator(body, run, level) => NodeModel::Leaf {
                kind: LeafKind::Operator,
                body: body@,
                run,
                level: level as nat,
            },
            Element::Space(size) => NodeModel::Space { size: size as nat },
            Element::Row(children) => NodeModel::Row { children: elems_model(children@) },
            Element::Fraction { numer, denom } => NodeModel::Fraction {
                numer: Box::new(numer.model()),
                denom: Box::new(denom.model()),
            },
            Element::Sqrt(child) => NodeModel::Sqrt { child: Box::new(child.model()) },
            Element::Root { base, index } => NodeModel::Root {
                base: Box::new(base.model()),
                index: Box::new(index.model()),
            },
            Element::Fenced { open, close, separator, children } => NodeModel::Fenced {
                open: open@,
                close: close@,
                separator: separator@,
                children: elems_model(children@),
            },
            Element::Subscript { base, script } => NodeModel::Subscript {
                base: Box::new(base.model()),
                script: Box::new(script.model()),
            },
            Element::Superscript { base, script } => NodeModel::Superscript {
                base: Box::new(base.model()),
                script: Box::new(script.model()),
            },
            Element::Subsuperscript { base, subscript, superscript } => NodeModel::Subsuperscript {
                base: Box::new(base.model()),
                subscript: Box::new(subscript.model()),
                superscript: Box::new(superscript.model()),
            },
        }
    }
}

/// The trees a sequence of sibling nodes stands for.
pub open spec fn elems_model(s: Seq<Element>) -> Seq<NodeModel>
    decreases s, 0int,
{
    if s.len() == 0 {
        Seq::empty()
    } else {
        seq![s[0].model()] + elems_model(s.drop_first())
    }
}

/// A sequence of siblings is modeled pointwise.
pub proof fn lemma_elems_model_index(s: Seq<Element>)
    ensures
        elems_model(s).len() == s.len(),
        forall|i: int| 0 <= i < s.len() ==> elems_model(s)[i] == s[i].model(),
    decreases s,
{
    if s.len() > 0 {
        lemma_elems_model_index(s.drop_first());
    }
}

impl Element {
    /// Whether this node is the unfilled-slot marker.
    pub fn is_placeholder(&self) -> (r: bool)
        ensures
            r == (self.model() is Placeholder),
    {
        match self {
            Element::ParsePlaceholder => true,
            _ => false,
        }
    }

    /// Whether this node is a row container.
    pub fn is_row(&self) -> (r: bool)
        ensures
            r == (self.model() is Row),
    {
        match self {
            Element::Row(_) => true,
            _ => false,
        }
    }
}

/// Replacing one sibling node models as replacing its tree.
pub proof fn lemma_elems_model_update(s: Seq<Element>, i: int, x: Element)
    requires
        0 <= i < s.len(),
    ensures
        elems_model(s.update(i, x)) == elems_model(s).update(i, x.model()),
{
    lemma_elems_model_index(s.update(i, x));
    lemma_elems_model_index(s);
    assert(elems_model(s.update(i, x)) =~= elems_model(s).update(i, x.model()));
}

impl Element {
    /// Whether this node's own slots are all filled: no direct child is
    /// still a placeholder, and a textual leaf has its body. The builder
    /// checks this when a close event pops the node; a node that fails it is
    /// not yet a finished tree.
    pub fn is_complete(&self) -> (r: bool)
        ensures
            r == slots_filled(self.model()),
    {
        match self {
            Element::ParsePlaceholder => false,
            Element::Id(_, run, _) => run.is_some(),
            Element::Number(_, run, _) => run.is_some(),
            Element::Operator(_, run, _) => run.is_some(),
            Element::Space(_) => true,
            Element::Row(_) => true,
            Element::Fenced { .. } => true,
            Element::Fraction { numer, denom } => !numer.is_placeholder()
                && !denom.is_placeholder(),
            Element::Sqrt(child) => !child.is_placeholder(),
            Element::Root { base, index } => !base.is_placeholder() && !index.is_placeholder(),
            Element::Subscript { base, script } => !base.is_placeholder()
                && !script.is_placeholder(),
            Element::Superscript { base, script } => !base.is_placeholder()
                && !script.is_placeholder(),
            Element::Subsuperscript { base, subscript, superscript } => !base.is_placeholder()
                && !subscript.is_placeholder() && !superscript.is_placeholder(),
        }
    }
}

/// Why a build failed. Every error is terminal for the build that raised it:
/// no partial tree is returned and nothing is retried.
#[derive(Clone, PartialEq, Debug)]
pub enum MathMLParseError {
    /// The markup reader itself failed; the payload is its message.
    XMLError(String),
    /// An event arrived that the builder's stack cannot accept in its
    /// current state: a close on an empty stack, text outside a leaf-topped
    /// stack, a close while the top node still has unfilled slots, a stream
    /// that does not begin with a document start, or any event kind outside
    /// the recognized set.
    UnexpectedXMLEvent(MathEvent),
    /// An element-open tag outside the recognized set; the payload is the
    /// tag name.
    UnexpectedXMLTag(String),
    /// An append was attempted into a leaf node.
    AppendToLeaf,
    /// An append was attempted into a fixed-arity node whose slots are all
    /// filled, or text arrived for a node that has no body.
    AppendToFullNode,
}

impl MathMLParseError {
    /// The error this value stands for.
    pub open spec fn model(self) -> ErrModel {
        match self {
            MathMLParseError::XMLError(s) => ErrModel::XmlFault(s@),
            MathMLParseError::UnexpectedXMLEvent(ev) => ErrModel::UnexpectedEvent(ev.model()),
            MathMLParseError::UnexpectedXMLTag(s) => ErrModel::UnexpectedTag(s@),
            MathMLParseError::AppendToLeaf => ErrModel::AppendToLeaf,
            MathMLParseError::AppendToFullNode => ErrModel::AppendToFullNode,
        }
    }

    /// A short account of the error, one per variant.
    pub fn description(&self) -> (r: &'static str)
        ensures
            r@ == self.model().describes(),
    {
        match self {
            MathMLParseError::XMLError(_) => "xml error",
            MathMLParseError::UnexpectedXMLEvent(_) => "unexpected XML event",
            MathMLParseError::UnexpectedXMLTag(_) => "unexpected XML tag",
            MathMLParseError::AppendToLeaf => "attempt to append to leaf",
            MathMLParseError::AppendToFullNode => "attempt to append to full node",
        }
    }
}

/// What setting a node's body text to `body` does: a textual leaf stores the
/// text and caches a fresh measurement of it at the base font size; any
/// other kind refuses.
pub open spec fn spec_set_body(n: NodeModel, body: Seq<char>, mf: MetricFn) -> Result<
    NodeModel,
    ErrModel,
> {
    match n {
        NodeModel::Leaf { kind, level, .. } => Result::Ok(
            NodeModel::Leaf {
                kind,
                body,
                run: Option::Some(run_of(mf(body, BASE_FONT_SIZE), BASE_FONT_SIZE)),
                level,
            },
        ),
        _ => Result::Err(ErrModel::AppendToFullNode),
    }
}

/// What appending the finished tree `child` into `parent` does. Rows and
/// fenced groups append to their child sequence; fixed-arity kinds fill
/// their first placeholder slot in order and refuse with `AppendToFullNode`
/// once full; a square root whose slot is already taken appends into its
/// row, or merges the old content and the newcomer into a fresh row; a
/// script slot receives the newcomer rescaled one step down (subscript) or
/// up (superscript); leaves refuse with `AppendToLeaf`.
pub open spec fn spec_append(parent: NodeModel, child: NodeModel, mf: MetricFn) -> Result<
    NodeModel,
    ErrModel,
>
    decreases parent,
{
    match parent {
        NodeModel::Row { children } => Result::Ok(
            NodeModel::Row { children: children.push(child) },
        ),
        NodeModel::Fenced { open, close, separator, children } => Result::Ok(
            NodeModel::Fenced { open, close, separator, children: children.push(child) },
        ),
        NodeModel::Fraction { numer, denom } => {
            if *numer is Placeholder {
                Result::Ok(NodeModel::Fraction { numer: Box::new(child), denom })
            } else if *denom is Placeholder {
                Result::Ok(NodeModel::Fraction { numer, denom: Box::new(child) })
            } else {
                Result::Err(ErrModel::AppendToFullNode)
            }
        },
        NodeModel::Sqrt { child: cur } => {
            if *cur is Placeholder {
                Result::Ok(NodeModel::Sqrt { child: Box::new(child) })
            } else if *cur is Row {
                match spec_append(*cur, child, mf) {
                    Result::Ok(m) => Result::Ok(NodeModel::Sqrt { child: Box::new(m) }),
                    Result::Err(e) => Result::Err(e),
                }
            } else {
                Result::Ok(
                    NodeModel::Sqrt {
                        child: Box::new(NodeModel::Row { children: seq![*cur, child] }),
                    },
                )
            }
        },
        NodeModel::Root { base, index } => {
            if *base is Placeholder {
                Result::Ok(NodeModel::Root { base: Box::new(child), index })
            } else if *index is Placeholder {
                Result::Ok(NodeModel::Root { base, index: Box::new(child) })
            } else {
                Result::Err(ErrModel::AppendToFullNode)
            }
        },
        NodeModel::Subscript { base, script } => {
            if *base is Placeholder {
                Result::Ok(NodeModel::Subscript { base: Box::new(child), script })
            } else if *script is Placeholder {
                Result::Ok(
                    NodeModel::Subscript { base, script: Box::new(rescaled(child, -1, mf)) },
                )
            } else {
                Result::Err(ErrModel::AppendToFullNode)
            }
        },
        NodeModel::Superscript { base, script } => {
            if *base is Placeholder {
                Result::Ok(NodeModel::Superscript { base: Box::new(child), script })
            } else if *script is Placeholder {
                Result::Ok(
                    NodeModel::Superscript { base, script: Box::new(rescaled(child, 1, mf)) },
                )
            } else {
                Result::Err(ErrModel::AppendToFullNode)
            }
        },
        NodeModel::Subsuperscript { base, subscript, superscript } => {
            if *base is Placeholder {
                Result::Ok(NodeModel::Subsuperscript { base: Box::new(child), subscript, superscript })
            } else if *subscript is Placeholder {
                Result::Ok(
                    NodeModel::Subsuperscript {
                        base,
                        subscript: Box::new(rescaled(child, -1, mf)),
                        superscript,
                    },
                )
            } else if *superscript is Placeholder {
                Result::Ok(
                    NodeModel::Subsuperscript {
                        base,
                        subscript,
                        superscript: Box::new(rescaled(child, 1, mf)),
                    },
                )
            } else {
                Result::Err(ErrModel::AppendToFullNode)
            }
        },
        _ => Result::Err(ErrModel::AppendToLeaf),
    }
}

/// Appending one sibling node models as appending its tree.
pub proof fn lemma_elems_model_snoc(s: Seq<Element>, x: Element)
    ensures
        elems_model(s.push(x)) == elems_model(s).push(x.model()),
{
    lemma_elems_model_index(s.push(x));
    lemma_elems_model_index(s);
    assert(elems_model(s.push(x)) =~= elems_model(s).push(x.model()));
}

/// A two-element sibling vector models as the two trees.
pub proof fn lemma_elems_model_pair(a: Element, b: Element)
    ensures
        elems_model(seq![a, b]) == seq![a.model(), b.model()],
{
    lemma_elems_model_index(seq![a, b]);
    assert(elems_model(seq![a, b]) =~= seq![a.model(), b.model()]);
}

/// Appending a sealed tree into a node whose slots hold only sealed content
/// keeps that invariant, grows the node by at most the newcomer's weight
/// plus one, and keeps a sealed node sealed.
pub proof fn lemma_append_ok(parent: NodeModel, child: NodeModel, mf: MetricFn)
    requires
        slots_sealed(parent),
        sealed(child),
    ensures
        match spec_append(parent, child, mf) {
            Result::Ok(p) => slots_sealed(p) && weight(p) <= weight(parent) + weight(child) + 1
                && (sealed(parent) ==> sealed(p)),
            Result::Err(_) => true,
        },
    decreases parent,
{
    match parent {
        NodeModel::Row { children } => {
            lemma_sealed_seq_snoc(children, child);
            lemma_weight_seq_snoc(children, child);
        },
        NodeModel::Fenced { children, .. } => {
            lemma_sealed_seq_snoc(children, child);
            lemma_weight_seq_snoc(children, child);
        },
        NodeModel::Sqrt { child: cur } => {
            if *cur is Placeholder {
            } else if *cur is Row {
                lemma_append_ok(*cur, child, mf);
            } else {
                let two = seq![*cur, child];
                reveal_with_fuel(sealed_seq, 3);
                reveal_with_fuel(weight_seq, 3);
                reveal_with_fuel(weight, 3);
                reveal_with_fuel(sealed, 3);
                assert(two.drop_first() =~= seq![child]);
                assert(seq![child].drop_first() =~= Seq::<NodeModel>::empty());
                assert(sealed_seq(two));
                assert(weight_seq(two) == weight(*cur) + weight(child));
            }
        },
        NodeModel::Subscript { base, script } => {
            if !(*base is Placeholder) && *script is Placeholder {
                lemma_rescaled_sealed(child, -1, mf);
                lemma_rescaled_weight(child, -1, mf);
            }
        },
        NodeModel::Superscript { base, script } => {
            if !(*base is Placeholder) && *script is Placeholder {
                lemma_rescaled_sealed(child, 1, mf);
                lemma_rescaled_weight(child, 1, mf);
            }
        },
        NodeModel::Subsuperscript { base, subscript, superscript } => {
            if !(*base is Placeholder) {
                if *subscript is Placeholder {
                    lemma_rescaled_sealed(child, -1, mf);
                    lemma_rescaled_weight(child, -1, mf);
                } else if *superscript is Placeholder {
                    lemma_rescaled_sealed(child, 1, mf);
                    lemma_rescaled_weight(child, 1, mf);
                }
            }
        },
        _ => {},
    }
}

impl Element {
    /// Set the body text of a textual leaf, measuring it at the base font
    /// size through `src`. Any other node kind refuses and is unchanged.
    pub fn set_body<P: MetricSource>(&mut self, s: String, src: &P) -> (r: Result<
        (),
        MathMLParseError,
    >)
        ensures
            match spec_set_body(old(self).model(), s@, src.metric_fn()) {
                Result::Ok(m) => r is Ok && final(self).model() == m,
                Result::Err(em) => r matches Err(e) && e.model() == em && final(self).model()
                    == old(self).model(),
            },
    {
        match self {
            Element::Id(body, run, _) => {
                let m = src.measure_text(s.as_str(), BASE_FONT_SIZE);
                *run = Option::Some(TextRun::of(m, BASE_FONT_SIZE));
                *body = s;
                Result::Ok(())
            },
            Element::Number(body, run, _) => {
                let m = src.measure_text(s.as_str(), BASE_FONT_SIZE);
                *run = Option::Some(TextRun::of(m, BASE_FONT_SIZE));
                *body = s;
                Result::Ok(())
            },
            Element::Operator(body, run, _) => {
                let m = src.measure_text(s.as_str(), BASE_FONT_SIZE);
                *run = Option::Some(TextRun::of(m, BASE_FONT_SIZE));
                *body = s;
                Result::Ok(())
            },
            _ => Result::Err(MathMLParseError::AppendToFullNode),
        }
    }

    /// Shift the script nesting level of every leaf of this subtree one step
    /// up or down, floored at zero, re-measuring each populated leaf at its
    /// new font size through `src`. Spaces and placeholders are untouched;
    /// every container kind passes the same shift on uniformly.
    pub fn add_script_level<P: MetricSource>(&mut self, incr: isize, src: &P)
        requires
            incr == 1 || incr == -1,
        ensures
            final(self).model() == rescaled(old(self).model(), incr as int, src.metric_fn()),
        decreases *old(self),
    {
        match self {
            Element::Id(body, run, level) => {
                Self::shift_leaf(body, run, level, incr, src);
            },
            Element::Number(body, run, level) => {
                Self::shift_leaf(body, run, level, incr, src);
            },
            Element::Operator(body, run, level) => {
                Self::shift_leaf(body, run, level, incr, src);
            },
            Element::Space(_) => {},
            Element::ParsePlaceholder => {},
            Element::Row(children) => {
                Self::shift_children(children, incr, src);
            },
            Element::Fenced { children, .. } => {
                Self::shift_children(children, incr, src);
            },
            Element::Fraction { numer, denom } => {
                (&mut **numer).add_script_level(incr, src);
                (&mut **denom).add_script_level(incr, src);
            },
            Element::Sqrt(child) => {
                (&mut **child).add_script_level(incr, src);
            },
            Element::Root { base, index } => {
                (&mut **base).add_script_level(incr, src);
                (&mut **index).add_script_level(incr, src);
            },
            Element::Subscript { base, script } => {
                (&mut **base).add_script_level(incr, src);
                (&mut **script).add_script_level(incr, src);
            },
            Element::Superscript { base, script } => {
                (&mut **base).add_script_level(incr, src);
                (&mut **script).add_script_level(incr, src);
            },
            Element::Subsuperscript { base, subscript, superscript } => {
                (&mut **base).add_script_level(incr, src);
                (&mut **subscript).add_script_level(incr, src);
                (&mut **superscript).add_script_level(incr, src);
            },
        }
    }

    /// The leaf step of `add_script_level`: shift the level and re-measure
    /// the body, if one has been set, at the new font size.
    fn shift_leaf<P: MetricSource>(
        body: &String,
        run: &mut Option<TextRun>,
        level: &mut usize,
        incr: isize,
        src: &P,
    )
        requires
            incr == 1 || incr == -1,
        ensures
            *final(level) == shifted_level(*old(level) as nat, incr as int),
            *final(run) == match *old(run) {
                Option::Some(_) => Option::Some(
                    run_of(
                        (src.metric_fn())(body@, font_size_for(*final(level) as nat)),
                        font_size_for(*final(level) as nat),
                    ),
                ),
                Option::None => Option::None::<TextRun>,
            },
    {
        let lv: usize = if incr >= 0 {
            if *level == usize::MAX {
                usize::MAX
            } else {
                *level + 1
            }
        } else {
            if *level == 0 {
                0
            } else {
                *level - 1
            }
        };
        *level = lv;
        match run {
            Option::Some(r) => {
                let sz = font_size_at(lv);
                let m = src.measure_text(body.as_str(), sz);
                *r = TextRun::of(m, sz);
            },
            Option::None => {},
        }
    }

    /// Append the finished tree `e` as a child of this node, by the
    /// slot-filling rules: rows and fenced groups take any number of
    /// children in order; fixed-arity kinds fill their first placeholder
    /// slot, left to right, and refuse once full; a square root whose slot
    /// is already taken merges the old content and the newcomer into a row;
    /// filling a script slot shifts the newcomer's script depth one step
    /// (down for a subscript, up for a superscript) through `src`. Appending
    /// into a leaf refuses. On refusal the node is unchanged.
    pub fn append_child<P: MetricSource>(&mut self, e: Element, src: &P) -> (r: Result<
        (),
        MathMLParseError,
    >)
        ensures
            match spec_append(old(self).model(), e.model(), src.metric_fn()) {
                Result::Ok(m) => r is Ok && final(self).model() == m,
                Result::Err(em) => r matches Err(er) && er.model() == em && final(self).model()
                    == old(self).model(),
            },
        decreases *old(self),
    {
        match self {
            Element::Row(children) => {
                proof {
                    lemma_elems_model_snoc(children@, e);
                }
                children.push(e);
                Result::Ok(())
            },
            Element::Fenced { children, .. } => {
                proof {
                    lemma_elems_model_snoc(children@, e);
                }
                children.push(e);
                Result::Ok(())
            },
            Element::Fraction { numer, denom } => {
                if numer.is_placeholder() {
                    *numer = Box::new(e);
                } else if denom.is_placeholder() {
                    *denom = Box::new(e);
                } else {
                    return Result::Err(MathMLParseError::AppendToFullNode);
                }
                Result::Ok(())
            },
            Element::Sqrt(cur) => {
                if cur.is_placeholder() {
                    *cur = Box::new(e);
                    Result::Ok(())
                } else if cur.is_row() {
                    (&mut **cur).append_child(e, src)
                } else {
                    let mut tmp = Element::ParsePlaceholder;
                    core::mem::swap(&mut tmp, &mut **cur);
                    let ghost tg: Element = tmp;
                    let ghost eg: Element = e;
                    let mut merged: Vec<Element> = Vec::new();
                    merged.push(tmp);
                    merged.push(e);
                    proof {
                        assert(merged@ =~= seq![tg, eg]);
                        lemma_elems_model_pair(tg, eg);
                    }
                    **cur = Element::Row(merged);
                    proof {
                        assert((**cur).model() == NodeModel::Row {
                            children: seq![tg.model(), eg.model()],
                        });
                    }
                    Result::Ok(())
                }
            },
            Element::Root { base, index } => {
                if base.is_placeholder() {
                    *base = Box::new(e);
                } else if index.is_placeholder() {
                    *index = Box::new(e);
                } else {
                    return Result::Err(MathMLParseError::AppendToFullNode);
                }
                Result::Ok(())
            },
            Element::Subscript { base, script } => {
                if base.is_placeholder() {
                    *base = Box::new(e);
                } else if script.is_placeholder() {
                    *script = Box::new(e);
                    (&mut **script).add_script_level(-1, src);
                } else {
                    return Result::Err(MathMLParseError::AppendToFullNode);
                }
                Result::Ok(())
            },
            Element::Superscript { base, script } => {
                if base.is_placeholder() {
                    *base = Box::new(e);
                } else if script.is_placeholder() {
                    *script = Box::new(e);
                    (&mut **script).add_script_level(1, src);
                } else {
                    return Result::Err(MathMLParseError::AppendToFullNode);
                }
                Result::Ok(())
            },
            Element::Subsuperscript { base, subscript, superscript } => {
                if base.is_placeholder() {
                    *base = Box::new(e);
                } else if subscript.is_placeholder() {
                    *subscript = Box::new(e);
                    (&mut **subscript).add_script_level(-1, src);
                } else if superscript.is_placeholder() {
                    *superscript = Box::new(e);
                    (&mut **superscript).add_script_level(1, src);
                } else {
                    return Result::Err(MathMLParseError::AppendToFullNode);
                }
                Result::Ok(())
            },
            _ => Result::Err(MathMLParseError::AppendToLeaf),
        }
    }

    /// The bounding box of this finished subtree, computed bottom-up from
    /// the cached leaf metrics by the layout formulas of `extent_of`.
    pub fn bounds(&self) -> (r: Rect)
        requires
            sealed(self.model()),
            weight(self.model()) <= WEIGHT_CAP,
        ensures
            r.extent() == extent_of(self.model()),
        decreases *self,
    {
        match self {
            Element::Id(_, run, _) => Self::leaf_bounds(run),
            Element::Number(_, run, _) => Self::leaf_bounds(run),
            Element::Operator(_, run, _) => Self::leaf_bounds(run),
            Element::Space(_) => Rect::xywh(0, 0, 0, 0),
            Element::ParsePlaceholder => Rect::xywh(0, 0, 0, 0),
            Element::Row(children) => {
                proof {
                    lemma_elems_model_index(children@);
                }
                let wh = Self::row_bounds(children);
                Rect::xywh(0, 0, wh.0, wh.1)
            },
            Element::Fenced { children, .. } => {
                proof {
                    lemma_elems_model_index(children@);
                }
                let wh = Self::row_bounds(children);
                Rect::xywh(0, 0, wh.0, wh.1)
            },
            Element::Fraction { numer, denom } => {
                let nb = numer.bounds();
                let db = denom.bounds();
                proof {
                    lemma_extent_bounded(numer.model());
                    lemma_extent_bounded(denom.model());
                }
                let w = if nb.w >= db.w {
                    nb.w
                } else {
                    db.w
                };
                Rect::xywh(0, 0, w, nb.h + db.h + 2)
            },
            Element::Sqrt(child) => {
                let b = child.bounds();
                proof {
                    lemma_extent_bounded(child.model());
                }
                Rect::xywh(b.x, b.y, b.w + 10, b.h)
            },
            Element::Root { base, index } => {
                let bb = base.bounds();
                let ib = index.bounds();
                proof {
                    lemma_extent_bounded(base.model());
                    lemma_extent_bounded(index.model());
                }
                Rect::xywh(bb.x, bb.y, bb.w + 7 + ib.w, bb.h)
            },
            Element::Subscript { base, script } => {
                let bb = base.bounds();
                let sb = script.bounds();
                proof {
                    lemma_extent_bounded(base.model());
                    lemma_extent_bounded(script.model());
                }
                Rect::xywh(bb.x, bb.y, bb.w + sb.w + 2, bb.h + sb.h / 2)
            },
            Element::Superscript { base, script } => {
                let bb = base.bounds();
                let sb = script.bounds();
                proof {
                    lemma_extent_bounded(base.model());
                    lemma_extent_bounded(script.model());
                }
                Rect::xywh(bb.x, bb.y, bb.w + sb.w + 2, bb.h + sb.h / 2)
            },
            Element::Subsuperscript { base, subscript, superscript } => {
                let bb = base.bounds();
                let ub = subscript.bounds();
                let pb = superscript.bounds();
                proof {
                    lemma_extent_bounded(base.model());
                    lemma_extent_bounded(subscript.model());
                    lemma_extent_bounded(superscript.model());
                }
                let mw = if ub.w >= pb.w {
                    ub.w
                } else {
                    pb.w
                };
                Rect::xywh(bb.x, bb.y, bb.w + mw + 2, bb.h + ub.h / 2 + pb.h / 2)
            },
        }
    }

    /// The leaf step of `bounds`: the cached run's box, offset downward by
    /// half its height about the anchor line.
    fn leaf_bounds(run: &Option<TextRun>) -> (r: Rect)
        ensures
            match *run {
                Option::Some(t) => r.extent() == (Extent {
                    x: 0,
                    y: (t.height as int) / 2,
                    w: t.width as int,
                    h: t.height as int,
                }),
                Option::None => r.extent() == (Extent { x: 0, y: 0, w: 0, h: 0 }),
            },
    {
        match run {
            Option::Some(t) => Rect::xywh(0, (t.height as i64) / 2, t.width as i64, t.height as i64),
            Option::None => Rect::xywh(0, 0, 0, 0),
        }
    }

    /// The row step of `bounds`: the advanced cursor width and the tallest
    /// child height over a sibling sequence.
    fn row_bounds(children: &Vec<Element>) -> (wh: (i64, i64))
        requires
            sealed_seq(elems_model(children@)),
            weight_seq(elems_model(children@)) <= WEIGHT_CAP,
        ensures
            wh.0 == row_w_upto(elems_model(children@), children@.len() as int),
            wh.1 == row_h_upto(elems_model(children@), children@.len() as int),
        decreases *children,
    {
        let ghost cm = elems_model(children@);
        proof {
            lemma_elems_model_index(children@);
        }
        let n = children.len();
        let mut w: i64 = 0;
        let mut h: i64 = 0;
        let mut i: usize = 0;
        while i < n
            invariant
                n == children@.len(),
                cm == elems_model(children@),
                cm.len() == n,
                sealed_seq(cm),
                weight_seq(cm) <= WEIGHT_CAP,
                i <= n,
                w == row_w_upto(cm, i as int),
                h == row_h_upto(cm, i as int),
            decreases n - i,
        {
            proof {
                lemma_elems_model_index(children@);
                lemma_sealed_seq_index(cm);
                lemma_weight_seq_index(cm, i as int);
                assert(decreases_to!(*children => children@));
                assert(decreases_to!(children@ => children@[i as int]));
                assert(decreases_to!(*children => children@[i as int]));
            }
            let b = children[i].bounds();
            proof {
                lemma_row_upto_bounded(cm, i as int);
                lemma_row_upto_bounded(cm, i as int + 1);
                lemma_weight_seq_split(cm, i as int + 1);
                lemma_extent_bounded(cm[i as int]);
            }
            w = w + b.x + b.w + 2;
            if b.h > h {
                h = b.h;
            }
            i += 1;
        }
        (w, h)
    }

    /// The draw primitives this finished subtree issues when placed with its
    /// anchor at `p`, in issue order, by the placement rules of `ops_of`.
    pub fn draw(&self, p: Point) -> (ops: Vec<DrawOp>)
        requires
            sealed(self.model()),
            weight(self.model()) <= WEIGHT_CAP,
            -ANCHOR_CAP <= p.x <= ANCHOR_CAP,
            -ANCHOR_CAP <= p.y <= ANCHOR_CAP,
        ensures
            ops_model(ops@) == ops_of(self.model(), p.x as int, p.y as int),
    {
        proof {
            lemma_extent_bounded(self.model());
            lemma_ymass_bounded(self.model());
        }
        let mut out: Vec<DrawOp> = Vec::new();
        self.draw_into(p.x, p.y, &mut out);
        proof {
            assert(ops_model(out@) =~= ops_of(self.model(), p.x as int, p.y as int));
        }
        out
    }

    /// The recursive step of `draw`: append this subtree's primitives to
    /// `out`.
    #[verifier::rlimit(100)]
    fn draw_into(&self, px: i64, py: i64, out: &mut Vec<DrawOp>)
        requires
            sealed(self.model()),
            weight(self.model()) <= WEIGHT_CAP,
            -MAX_COORD <= px,
            px + extent_of(self.model()).w + 2 <= MAX_COORD,
            -MAX_COORD <= py - ymass(self.model()),
            py + ymass(self.model()) <= MAX_COORD,
        ensures
            ops_model(final(out)@) == ops_model(old(out)@) + ops_of(
                self.model(),
                px as int,
                py as int,
            ),
        decreases *self, 1int,
    {
        proof {
            lemma_extent_bounded(self.model());
            lemma_ymass_bounded(self.model());
        }
        let ghost base_ops = ops_model(out@);
        let ghost goal = ops_of(self.model(), px as int, py as int);
        match self {
            Element::Id(body, run, _) => {
                Self::draw_leaf(body, run, px, py, out);
                proof {
                    assert(ops_model(out@) =~= base_ops + goal);
                }
            },
            Element::Number(body, run, _) => {
                Self::draw_leaf(body, run, px, py, out);
                proof {
                    assert(ops_model(out@) =~= base_ops + goal);
                }
            },
            Element::Operator(body, run, _) => {
                Self::draw_leaf(body, run, px, py, out);
                proof {
                    assert(ops_model(out@) =~= base_ops + goal);
                }
            },
            Element::Space(_) => {
                proof {
                    assert(ops_model(out@) =~= base_ops + goal);
                }
            },
            Element::ParsePlaceholder => {
                proof {
                    assert(ops_model(out@) =~= base_ops + goal);
                }
            },
            Element::Row(children) => {
                proof {
                    lemma_elems_model_index(children@);
                    lemma_ymass_seq_bounded(elems_model(children@));
                }
                Self::draw_children(children, px, py, out);
                proof {
                    assert(ops_model(out@) =~= base_ops + goal);
                }
            },
            Element::Fenced { children, .. } => {
                proof {
                    lemma_elems_model_index(children@);
                    lemma_ymass_seq_bounded(elems_model(children@));
                }
                Self::draw_children(children, px, py, out);
                proof {
                    assert(ops_model(out@) =~= base_ops + goal);
                }
            },
            Element::Fraction { .. } => {
                self.draw_stacked(px, py, out);
            },
            Element::Sqrt(_) => {
                self.draw_stacked(px, py, out);
            },
            Element::Root { .. } => {
                self.draw_stacked(px, py, out);
            },
            Element::Subscript { .. } => {
                self.draw_scripted(px, py, out);
            },
            Element::Superscript { .. } => {
                self.draw_scripted(px, py, out);
            },
            Element::Subsuperscript { .. } => {
                self.draw_scripted(px, py, out);
            },
        }
    }

    /// The fraction and radical arms of `draw_into`.
    #[verifier::rlimit(100)]
    fn draw_stacked(&self, px: i64, py: i64, out: &mut Vec<DrawOp>)
        requires
            self.model() is Fraction || self.model() is Sqrt || self.model() is Root,
            sealed(self.model()),
            weight(self.model()) <= WEIGHT_CAP,
            -MAX_COORD <= px,
            px + extent_of(self.model()).w + 2 <= MAX_COORD,
            -MAX_COORD <= py - ymass(self.model()),
            py + ymass(self.model()) <= MAX_COORD,
        ensures
            ops_model(final(out)@) == ops_model(old(out)@) + ops_of(
                self.model(),
                px as int,
                py as int,
            ),
        decreases *self, 0int,
    {
        proof {
            lemma_extent_bounded(self.model());
            lemma_ymass_bounded(self.model());
        }
        let ghost base_ops = ops_model(out@);
        let ghost goal = ops_of(self.model(), px as int, py as int);
        match self {
            Element::Fraction { numer, denom } => {
                let nb = numer.bounds();
                let db = denom.bounds();
                proof {
                    lemma_extent_bounded(numer.model());
                    lemma_extent_bounded(denom.model());
                    lemma_ymass_bounded(numer.model());
                    lemma_ymass_bounded(denom.model());
                }
                let ghost opsn = ops_of(
                    numer.model(),
                    px as int,
                    py as int - (extent_of(numer.model()).h / 2 + 1),
                );
                let ghost opsd = ops_of(
                    denom.model(),
                    px as int,
                    py as int + extent_of(denom.model()).h / 2 + 1,
                );
                numer.draw_into(px, py - (nb.h / 2 + 1), out);
                proof {
                    assert(ops_model(out@) == base_ops + opsn);
                }
                let bar = if nb.w >= db.w {
                    nb.w
                } else {
                    db.w
                };
                out.push(DrawOp::Line { x1: px, y1: py, x2: px + bar, y2: py });
                let ghost line = seq![
                    OpModel::Line {
                        x1: px as int,
                        y1: py as int,
                        x2: px as int + (if extent_of(numer.model()).w
                            >= extent_of(denom.model()).w {
                            extent_of(numer.model()).w
                        } else {
                            extent_of(denom.model()).w
                        }),
                        y2: py as int,
                    },
                ];
                proof {
                    assert(ops_model(out@) =~= base_ops + opsn + line);
                }
                denom.draw_into(px, py + db.h / 2 + 1, out);
                proof {
                    assert(ops_model(out@) =~= base_ops + opsn + line + opsd);
                    assert(goal =~= opsn + line + opsd);
                    assert(ops_model(out@) =~= base_ops + goal);
                }
            },
            Element::Sqrt(child) => {
                let eb = child.bounds();
                proof {
                    lemma_extent_bounded(child.model());
                    lemma_ymass_bounded(child.model());
                }
                Self::draw_radical(px, py, 2, eb.w, eb.h, out);
                child.draw_into(px + 9, py, out);
                proof {
                    assert(ops_model(out@) =~= base_ops + goal);
                }
            },
            Element::Root { base, index } => {
                let eb = base.bounds();
                let ib = index.bounds();
                proof {
                    lemma_extent_bounded(base.model());
                    lemma_extent_bounded(index.model());
                    lemma_ymass_bounded(base.model());
                    lemma_ymass_bounded(index.model());
                }
                Self::draw_radical(px, py, ib.w, eb.w, eb.h, out);
                base.draw_into(px + ib.w + 7, py, out);
                index.draw_into(px, py - ib.h / 2, out);
                proof {
                    assert(ops_model(out@) =~= base_ops + goal);
                }
            },
            // Unreachable: the dispatcher sends only the three kinds the
            // requires clause names here.
            _ => {
                proof {
                    assert(ops_model(out@) =~= base_ops + goal);
                }
            },
        }
    }

    /// The script arms of `draw_into`.
    #[verifier::rlimit(100)]
    fn draw_scripted(&self, px: i64, py: i64, out: &mut Vec<DrawOp>)
        requires
            self.model() is Subscript || self.model() is Superscript || self.model()
                is Subsuperscript,
            sealed(self.model()),
            weight(self.model()) <= WEIGHT_CAP,
            -MAX_COORD <= px,
            px + extent_of(self.model()).w + 2 <= MAX_COORD,
            -MAX_COORD <= py - ymass(self.model()),
            py + ymass(self.model()) <= MAX_COORD,
        ensures
            ops_model(final(out)@) == ops_model(old(out)@) + ops_of(
                self.model(),
                px as int,
                py as int,
            ),
        decreases *self, 0int,
    {
        proof {
            lemma_extent_bounded(self.model());
            lemma_ymass_bounded(self.model());
        }
        let ghost base_ops = ops_model(out@);
        let ghost goal = ops_of(self.model(), px as int, py as int);
        match self {
            Element::Subscript { base, script } => {
                let bb = base.bounds();
                proof {
                    lemma_extent_bounded(base.model());
                    lemma_extent_bounded(script.model());
                    lemma_ymass_bounded(base.model());
                    lemma_ymass_bounded(script.model());
                }
                base.draw_into(px, py, out);
                script.draw_into(px + bb.w + 2, py + bb.h / 2, out);
                proof {
                    assert(ops_model(out@) =~= base_ops + goal);
                }
            },
            Element::Superscript { base, script } => {
                let bb = base.bounds();
                proof {
                    lemma_extent_bounded(base.model());
                    lemma_extent_bounded(script.model());
                    lemma_ymass_bounded(base.model());
                    lemma_ymass_bounded(script.model());
                }
                base.draw_into(px, py, out);
                script.draw_into(px + bb.w + 2, py - bb.h / 2, out);
                proof {
                    assert(ops_model(out@) =~= base_ops + goal);
                }
            },
            Element::Subsuperscript { base, subscript, superscript } => {
                let bb = base.bounds();
                proof {
                    lemma_extent_bounded(base.model());
                    lemma_extent_bounded(subscript.model());
                    lemma_extent_bounded(superscript.model());
                    lemma_ymass_bounded(base.model());
                    lemma_ymass_bounded(subscript.model());
                    lemma_ymass_bounded(superscript.model());
                }
                base.draw_into(px, py, out);
                subscript.draw_into(px + bb.w + 2, py + bb.h / 2, out);
                superscript.draw_into(px + bb.w + 2, py - bb.h / 2, out);
                proof {
                    assert(ops_model(out@) =~= base_ops + goal);
                }
            },
            // Unreachable: the dispatcher sends only the three kinds the
            // requires clause names here.
            _ => {
                proof {
                    assert(ops_model(out@) =~= base_ops + goal);
                }
            },
        }
    }

    /// The leaf step of `draw`: the body text, centered vertically about the
    /// anchor.
    fn draw_leaf(body: &String, run: &Option<TextRun>, px: i64, py: i64, out: &mut Vec<DrawOp>)
        requires
            -MAX_COORD <= px <= MAX_COORD,
            -MAX_COORD <= py <= MAX_COORD,
        ensures
            ops_model(final(out)@) == ops_model(old(out)@) + (match *run {
                Option::Some(r) => seq![
                    crate::geom::OpModel::Text {
                        x: px as int,
                        y: py as int - (r.height as int) / 2,
                        size: r.size as int,
                        body: body@,
                    },
                ],
                Option::None => Seq::empty(),
            }),
    {
        match run {
            Option::Some(r) => {
                let op = DrawOp::Text {
                    x: px,
                    y: py - (r.height as i64) / 2,
                    size: r.size,
                    body: body.clone(),
                };
                out.push(op);
                proof {
                    assert(ops_model(out@) =~= ops_model(old(out)@) + seq![
                        crate::geom::OpModel::Text {
                            x: px as int,
                            y: py as int - (r.height as int) / 2,
                            size: r.size as int,
                            body: body@,
                        },
                    ]);
                }
            },
            Option::None => {
                proof {
                    assert(ops_model(out@) =~= ops_model(old(out)@) + Seq::empty());
                }
            },
        }
    }

    /// The radical stroke of `draw`: five line segments sized to the box the
    /// stroke encloses.
    fn draw_radical(px: i64, py: i64, d: i64, w: i64, h: i64, out: &mut Vec<DrawOp>)
        requires
            0 <= d,
            0 <= w,
            0 <= h,
            -MAX_COORD <= px,
            px + d + 8 + w <= MAX_COORD,
            -MAX_COORD <= py - (h / 2 + 5),
            py + h / 2 + 5 <= MAX_COORD,
        ensures
            ops_model(final(out)@) == ops_model(old(out)@) + radical_ops(
                px as int,
                py as int,
                d as int,
                w as int,
                h as int,
            ),
    {
        let hh = h / 2;
        out.push(DrawOp::Line { x1: px, y1: py, x2: px + d, y2: py });
        out.push(DrawOp::Line { x1: px + d, y1: py, x2: px + d + 2, y2: py + hh });
        out.push(DrawOp::Line { x1: px + d + 2, y1: py + hh, x2: px + d + 6, y2: py - hh });
        out.push(DrawOp::Line { x1: px + d + 6, y1: py - hh, x2: px + d + 8 + w, y2: py - hh });
        out.push(
            DrawOp::Line { x1: px + d + 8 + w, y1: py - hh, x2: px + d + 8 + w, y2: py + 5 - hh },
        );
        proof {
            assert(ops_model(out@) =~= ops_model(old(out)@) + radical_ops(
                px as int,
                py as int,
                d as int,
                w as int,
                h as int,
            ));
        }
    }

    /// The row step of `draw`: each child at the advancing cursor.
    fn draw_children(children: &Vec<Element>, px: i64, py: i64, out: &mut Vec<DrawOp>)
        requires
            sealed_seq(elems_model(children@)),
            weight_seq(elems_model(children@)) <= WEIGHT_CAP,
            -MAX_COORD <= px,
            px + row_w_upto(elems_model(children@), children@.len() as int) + 2 <= MAX_COORD,
            -MAX_COORD <= py - ymass_seq(elems_model(children@)),
            py + ymass_seq(elems_model(children@)) <= MAX_COORD,
        ensures
            ops_model(final(out)@) == ops_model(old(out)@) + row_ops_upto(
                elems_model(children@),
                px as int,
                py as int,
                children@.len() as int,
            ),
        decreases *children,
    {
        let ghost cm = elems_model(children@);
        proof {
            lemma_elems_model_index(children@);
            lemma_sealed_seq_index(cm);
        }
        let n = children.len();
        let mut cursor: i64 = px;
        let mut i: usize = 0;
        while i < n
            invariant
                n == children@.len(),
                cm == elems_model(children@),
                cm.len() == n,
                sealed_seq(cm),
                weight_seq(cm) <= WEIGHT_CAP,
                forall|j: int| 0 <= j < n ==> sealed(cm[j]),
                forall|j: int| 0 <= j < n ==> cm[j] == children@[j].model(),
                i <= n,
                cursor == px + row_w_upto(cm, i as int),
                -MAX_COORD <= px,
                px + row_w_upto(cm, n as int) + 2 <= MAX_COORD,
                -MAX_COORD <= py - ymass_seq(cm),
                py + ymass_seq(cm) <= MAX_COORD,
                ops_model(out@) == ops_model(old(out)@) + row_ops_upto(
                    cm,
                    px as int,
                    py as int,
                    i as int,
                ),
            decreases n - i,
        {
            proof {
                lemma_weight_seq_index(cm, i as int);
                lemma_ymass_seq_index(cm, i as int);
                lemma_ymass_seq_bounded(cm);
                lemma_row_upto_bounded(cm, i as int);
                lemma_row_upto_bounded(cm, i as int + 1);
                lemma_row_w_upto_mono(cm, i as int + 1, n as int);
                lemma_extent_bounded(cm[i as int]);
                assert(decreases_to!(*children => children@));
                assert(decreases_to!(children@ => children@[i as int]));
                assert(decreases_to!(*children => children@[i as int]));
            }
            let c = &children[i];
            c.draw_into(cursor, py, out);
            let b = c.bounds();
            cursor = cursor + b.x + b.w + 2;
            i += 1;
            proof {
                assert(ops_model(out@) =~= ops_model(old(out)@) + row_ops_upto(
                    cm,
                    px as int,
                    py as int,
                    i as int,
                ));
            }
        }
    }

    /// The sibling step of `add_script_level`: shift every child in place.
    fn shift_children<P: MetricSource>(children: &mut Vec<Element>, incr: isize, src: &P)
        requires
            incr == 1 || incr == -1,
        ensures
            elems_model(final(children)@) == rescaled_seq(
                elems_model(old(children)@),
                incr as int,
                src.metric_fn(),
            ),
        decreases *old(children),
    {
        let ghost ov: Seq<Element> = children@;
        let n = children.len();
        let mut i: usize = 0;
        while i < n
            invariant
                n == children@.len(),
                n == ov.len(),
                ov == old(children)@,
                i <= n,
                incr == 1 || incr == -1,
                forall|j: int| i <= j < n ==> children@[j] == ov[j],
                forall|j: int|
                    0 <= j < i ==> children@[j].model() == rescaled(
                        ov[j].model(),
                        incr as int,
                        src.metric_fn(),
                    ),
            decreases n - i,
        {
            proof {
                assert(children@[i as int] == ov[i as int]);
                assert(decreases_to!(*old(children) => old(children)@));
                assert(decreases_to!(old(children)@ => old(children)@[i as int]));
                assert(decreases_to!(*old(children) => old(children)@[i as int]));
            }
            let c = &mut children[i];
            c.add_script_level(incr, src);
            i += 1;
        }
        proof {
            lemma_elems_model_index(children@);
            lemma_elems_model_index(ov);
            lemma_rescaled_seq_index(elems_model(ov), incr as int, src.metric_fn());
            assert(elems_model(children@) =~= rescaled_seq(
                elems_model(ov),
                incr as int,
                src.metric_fn(),
            ));
        }
    }
}

} // verus!
