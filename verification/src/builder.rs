use vstd::prelude::*;
use crate::events::{
    doc_events, is_stream_end, reader_new, reader_next, AttrModel, Attr, EventModel, MathEvent,
};
use crate::geom::{ops_model, DrawOp, Point, Rect};
use crate::metrics::MetricSource;
use crate::model::{
    extent_of, lemma_filled_is_sealed, lemma_weight_seq_drop_last, lemma_weight_seq_index,
    lemma_weight_seq_snoc, lemma_weight_seq_update, ops_of, sealed, sealed_seq, slots_filled,
    slots_sealed, weight, weight_seq, MetricFn, LeafKind, NodeModel, ANCHOR_CAP, WEIGHT_CAP,
};
use crate::tree::{
    lemma_append_ok, lemma_elems_model_index, lemma_elems_model_snoc, lemma_elems_model_update,
    elems_model, spec_append, spec_set_body, Element, ErrModel, MathMLParseError,
};

verus! {

/// The trees a sequence of markup events stands for.
pub open spec fn events_model(s: Seq<MathEvent>) -> Seq<EventModel> {
    s.map_values(|e: MathEvent| e.model())
}

/// The attributes a vector of exec attributes stands for.
pub open spec fn attrs_model(s: Seq<Attr>) -> Seq<AttrModel> {
    s.map_values(|a: Attr| a.model())
}

/// The value of the first attribute named `key`, or `dflt` if none is.
pub open spec fn attr_or(attrs: Seq<AttrModel>, key: Seq<char>, dflt: Seq<char>) -> Seq<char>
    decreases attrs,
{
    if attrs.len() == 0 {
        dflt
    } else if attrs[0].name == key {
        attrs[0].value
    } else {
        attr_or(attrs.drop_first(), key, dflt)
    }
}

/// The fresh node an element-open event with this tag pushes, or nothing if
/// the tag is outside the recognized set. Textual leaves start empty at
/// nesting level one; fixed-arity kinds start with placeholder slots; a
/// fenced group takes its delimiters and separator from the attributes, with
/// `(`, `)` and `,` as defaults.
pub open spec fn node_for_tag(tag: Seq<char>, attrs: Seq<AttrModel>) -> Option<NodeModel> {
    if tag == "mi"@ {
        Option::Some(
            NodeModel::Leaf {
                kind: LeafKind::Id,
                body: Seq::empty(),
                run: Option::None,
                level: 1,
            },
        )
    } else if tag == "mo"@ {
        Option::Some(
            NodeModel::Leaf {
                kind: LeafKind::Operator,
                body: Seq::empty(),
                run: Option::None,
                level: 1,
            },
        )
    } else if tag == "mn"@ {
        Option::Some(
            NodeModel::Leaf {
                kind: LeafKind::Number,
                body: Seq::empty(),
                run: Option::None,
                level: 1,
            },
        )
    } else if tag == "mspace"@ {
        Option::Some(NodeModel::Space { size: 1 })
    } else if tag == "math"@ || tag == "mrow"@ {
        Option::Some(NodeModel::Row { children: Seq::empty() })
    } else if tag == "msqrt"@ {
        Option::Some(NodeModel::Sqrt { child: Box::new(NodeModel::Placeholder) })
    } else if tag == "mfrac"@ {
        Option::Some(
            NodeModel::Fraction {
                numer: Box::new(NodeModel::Placeholder),
                denom: Box::new(NodeModel::Placeholder),
            },
        )
    } else if tag == "mroot"@ {
        Option::Some(
            NodeModel::Root {
                base: Box::new(NodeModel::Placeholder),
                index: Box::new(NodeModel::Placeholder),
            },
        )
    } else if tag == "mfenced"@ {
        Option::Some(
            NodeModel::Fenced {
                open: attr_or(attrs, "open"@, "("@),
                close: attr_or(attrs, "close"@, ")"@),
                separator: attr_or(attrs, "seperators"@, ","@),
                children: Seq::empty(),
            },
        )
    } else if tag == "msub"@ {
        Option::Some(
            NodeModel::Subscript {
                base: Box::new(NodeModel::Placeholder),
                script: Box::new(NodeModel::Placeholder),
            },
        )
    } else if tag == "msup"@ {
        Option::Some(
            NodeModel::Superscript {
                base: Box::new(NodeModel::Placeholder),
                script: Box::new(NodeModel::Placeholder),
            },
        )
    } else if tag == "msubsup"@ {
        Option::Some(
            NodeModel::Subsuperscript {
                base: Box::new(NodeModel::Placeholder),
                subscript: Box::new(NodeModel::Placeholder),
                superscript: Box::new(NodeModel::Placeholder),
            },
        )
    } else {
        Option::None
    }
}

/// What one step of the builder does to its state.
pub enum StepModel {
    /// The build goes on, with the given start flag and working stack.
    Going(bool, Seq<NodeModel>),
    /// The build is complete; this is the root of the finished tree.
    Finished(NodeModel),
    /// The build fails, terminally, with this error.
    Failed(ErrModel),
}

/// One step of the builder's stack machine. Before the document-start
/// marker, only that marker is accepted. After it: an element-open pushes
/// the node its tag calls for, or fails on an unrecognized tag; text
/// populates the leaf on top of the stack; whitespace between tags is
/// ignored; an element-close pops the finished top — failing if the stack is
/// empty or the top still has unfilled slots — and either returns it as the
/// completed root (when it was alone) or appends it into the node below; a
/// read fault or any other event kind fails the build.
pub open spec fn spec_step(
    started: bool,
    stack: Seq<NodeModel>,
    ev: EventModel,
    mf: MetricFn,
) -> StepModel {
    if !started {
        match ev {
            EventModel::StartDocument => StepModel::Going(true, stack),
            _ => StepModel::Failed(ErrModel::UnexpectedEvent(ev)),
        }
    } else {
        match ev {
            EventModel::StartElement { tag, attrs } => match node_for_tag(tag, attrs) {
                Option::Some(n) => StepModel::Going(true, stack.push(n)),
                Option::None => StepModel::Failed(ErrModel::UnexpectedTag(tag)),
            },
            EventModel::Characters(s) => if stack.len() == 0 {
                StepModel::Failed(ErrModel::UnexpectedEvent(ev))
            } else {
                match spec_set_body(stack.last(), s, mf) {
                    Result::Ok(n) => StepModel::Going(true, stack.update(stack.len() - 1, n)),
                    Result::Err(e) => StepModel::Failed(e),
                }
            },
            EventModel::Whitespace(_) => StepModel::Going(true, stack),
            EventModel::EndElement => if stack.len() == 0 {
                StepModel::Failed(ErrModel::UnexpectedEvent(ev))
            } else if !slots_filled(stack.last()) {
                StepModel::Failed(ErrModel::UnexpectedEvent(ev))
            } else if stack.len() == 1 {
                StepModel::Finished(stack.last())
            } else {
                match spec_append(stack[stack.len() - 2], stack.last(), mf) {
                    Result::Ok(p) => StepModel::Going(
                        true,
                        stack.drop_last().update(stack.len() - 2, p),
                    ),
                    Result::Err(e) => StepModel::Failed(e),
                }
            },
            EventModel::ReadError(s) => StepModel::Failed(ErrModel::XmlFault(s)),
            _ => StepModel::Failed(ErrModel::UnexpectedEvent(ev)),
        }
    }
}

/// Where a build stands after a whole event sequence.
pub enum BuildModel {
    /// The events ran out with the build still in progress.
    Pending(bool, Seq<NodeModel>),
    /// The build completed with this root; any later events are never read.
    Done(NodeModel),
    /// The build failed with this error; any later events are never read.
    Failed(ErrModel),
}

/// The builder's state machine run from a given state over a sequence of
/// events.
pub open spec fn spec_build_from(
    started: bool,
    stack: Seq<NodeModel>,
    events: Seq<EventModel>,
    mf: MetricFn,
) -> BuildModel
    decreases events,
{
    if events.len() == 0 {
        BuildModel::Pending(started, stack)
    } else {
        match spec_step(started, stack, events[0], mf) {
            StepModel::Going(st2, sk2) => spec_build_from(st2, sk2, events.drop_first(), mf),
            StepModel::Finished(n) => BuildModel::Done(n),
            StepModel::Failed(e) => BuildModel::Failed(e),
        }
    }
}

/// The builder's state machine run from scratch: what building a whole
/// event sequence yields.
pub open spec fn spec_build(events: Seq<EventModel>, mf: MetricFn) -> BuildModel {
    spec_build_from(false, Seq::empty(), events, mf)
}

/// The invariant of the working stack: every node on it holds only sealed
/// content in its filled slots.
pub open spec fn stack_inv(s: Seq<NodeModel>) -> bool {
    forall|i: int| 0 <= i < s.len() ==> slots_sealed(#[trigger] s[i])
}

/// One step keeps the stack invariant, grows the stack weight by at most
/// four, and can only finish with a sealed tree no heavier than the stack.
pub proof fn lemma_step_preserves(
    started: bool,
    stack: Seq<NodeModel>,
    ev: EventModel,
    mf: MetricFn,
)
    requires
        stack_inv(stack),
    ensures
        match spec_step(started, stack, ev, mf) {
            StepModel::Going(st2, sk2) => stack_inv(sk2) && weight_seq(sk2) <= weight_seq(stack)
                + 4,
            StepModel::Finished(n) => sealed(n) && weight(n) <= weight_seq(stack),
            StepModel::Failed(_) => true,
        },
{
    reveal_with_fuel(weight, 3);
    reveal_with_fuel(weight_seq, 3);
    reveal_with_fuel(sealed_seq, 2);
    if started {
        match ev {
            EventModel::StartElement { tag, attrs } => {
                match node_for_tag(tag, attrs) {
                    Option::Some(n) => {
                        assert(slots_sealed(n));
                        assert(weight(n) <= 4);
                        lemma_weight_seq_snoc(stack, n);
                        assert forall|i: int|
                            0 <= i < stack.push(n).len() implies slots_sealed(
                            #[trigger] stack.push(n)[i],
                        ) by {
                            if i < stack.len() {
                                assert(stack.push(n)[i] == stack[i]);
                            }
                        }
                    },
                    Option::None => {},
                }
            },
            EventModel::Characters(s) => {
                if stack.len() > 0 {
                    match spec_set_body(stack.last(), s, mf) {
                        Result::Ok(n) => {
                            lemma_weight_seq_update(stack, stack.len() - 1, n);
                        },
                        Result::Err(_) => {},
                    }
                }
            },
            EventModel::EndElement => {
                if stack.len() > 0 && slots_filled(stack.last()) {
                    lemma_filled_is_sealed(stack.last());
                    lemma_weight_seq_index(stack, stack.len() - 1);
                    if stack.len() >= 2 {
                        let parent = stack[stack.len() - 2];
                        let child = stack.last();
                        lemma_append_ok(parent, child, mf);
                        match spec_append(parent, child, mf) {
                            Result::Ok(p) => {
                                lemma_weight_seq_drop_last(stack);
                                assert(stack.drop_last()[stack.len() - 2] == parent);
                                lemma_weight_seq_update(stack.drop_last(), stack.len() - 2, p);
                            },
                            Result::Err(_) => {},
                        }
                    }
                }
            },
            _ => {},
        }
    }
}

/// Whether a tag string equals a literal.
fn tag_is(tag: &String, lit: &str) -> (r: bool)
    ensures
        r == (tag@ == lit@),
{
    *tag == lit.to_owned()
}

/// The value of the first attribute named `key`, or `dflt` if none is.
fn attr_value(attrs: &Vec<Attr>, key: &str, dflt: &str) -> (v: String)
    ensures
        v@ == attr_or(attrs_model(attrs@), key@, dflt@),
{
    let ghost am = attrs_model(attrs@);
    proof {
        assert(am.skip(0) =~= am);
    }
    let n = attrs.len();
    let mut i: usize = 0;
    while i < n
        invariant
            n == attrs@.len(),
            am == attrs_model(attrs@),
            am.len() == n,
            i <= n,
            attr_or(am, key@, dflt@) == attr_or(am.skip(i as int), key@, dflt@),
        decreases n - i,
    {
        if tag_is(&attrs[i].name, key) {
            proof {
                assert(am.skip(i as int)[0] == am[i as int]);
            }
            return attrs[i].value.clone();
        }
        proof {
            assert(am.skip(i as int)[0] == am[i as int]);
            assert(am.skip(i as int).drop_first() =~= am.skip(i as int + 1));
        }
        i += 1;
    }
    proof {
        assert(am.skip(n as int) =~= Seq::<AttrModel>::empty());
    }
    dflt.to_owned()
}

/// The fresh node an element-open event with this tag pushes, or nothing if
/// the tag is outside the recognized set.
fn element_for_tag(tag: &String, attrs: &Vec<Attr>) -> (r: Option<Element>)
    ensures
        match node_for_tag(tag@, attrs_model(attrs@)) {
            Option::Some(n) => r matches Some(el) && el.model() == n,
            Option::None => r is None,
        },
{
    if tag_is(tag, "mi") {
        Option::Some(Element::Id(String::new(), Option::None, 1))
    } else if tag_is(tag, "mo") {
        Option::Some(Element::Operator(String::new(), Option::None, 1))
    } else if tag_is(tag, "mn") {
        Option::Some(Element::Number(String::new(), Option::None, 1))
    } else if tag_is(tag, "mspace") {
        Option::Some(Element::Space(1))
    } else if tag_is(tag, "math") || tag_is(tag, "mrow") {
        {
        let v: Vec<Element> = Vec::new();
        proof {
            assert(v@ =~= Seq::<Element>::empty());
            assert(elems_model(v@) =~= Seq::<NodeModel>::empty());
        }
        let el = Element::Row(v);
        proof {
            assert(el.model() == (NodeModel::Row { children: Seq::empty() }));
            assert(node_for_tag(tag@, attrs_model(attrs@)) == Option::Some(el.model()));
        }
        Option::Some(el)
    }
    } else if tag_is(tag, "msqrt") {
        Option::Some(Element::Sqrt(Box::new(Element::ParsePlaceholder)))
    } else if tag_is(tag, "mfrac") {
        Option::Some(
            Element::Fraction {
                    numer: Box::new(Element::ParsePlaceholder),
                    denom: Box::new(Element::ParsePlaceholder),
                },
        )
    } else if tag_is(tag, "mroot") {
        Option::Some(
            Element::Root {
                    base: Box::new(Element::ParsePlaceholder),
                    index: Box::new(Element::ParsePlaceholder),
                },
        )
    } else if tag_is(tag, "mfenced") {
        {
        let v: Vec<Element> = Vec::new();
        proof {
            assert(elems_model(v@) =~= Seq::<NodeModel>::empty());
        }
        let el = Element::Fenced {
            open: attr_value(attrs, "open", "("),
            close: attr_value(attrs, "close", ")"),
            separator: attr_value(attrs, "seperators", ","),
            children: v,
        };
        proof {
            assert(node_for_tag(tag@, attrs_model(attrs@)) == Option::Some(el.model()));
        }
        Option::Some(el)
    }
    } else if tag_is(tag, "msub") {
        Option::Some(
            Element::Subscript {
                    base: Box::new(Element::ParsePlaceholder),
                    script: Box::new(Element::ParsePlaceholder),
                },
        )
    } else if tag_is(tag, "msup") {
        Option::Some(
            Element::Superscript {
                    base: Box::new(Element::ParsePlaceholder),
                    script: Box::new(Element::ParsePlaceholder),
                },
        )
    } else if tag_is(tag, "msubsup") {
        Option::Some(
            Element::Subsuperscript {
                    base: Box::new(Element::ParsePlaceholder),
                    subscript: Box::new(Element::ParsePlaceholder),
                    superscript: Box::new(Element::ParsePlaceholder),
                },
        )
    } else {
        Option::None
    }
}

/// The tree builder: an explicit stack of in-progress nodes driven by a
/// push-style event stream, one event at a time. A build either returns a
/// complete tree or fails terminally; it never yields a partial tree.
pub struct Builder {
    started: bool,
    stack: Vec<Element>,
}

impl Builder {
    /// Whether the document-start marker has been consumed.
    pub closed spec fn spec_started(&self) -> bool {
        self.started
    }

    /// The trees on the working stack, bottom first.
    pub closed spec fn spec_stack(&self) -> Seq<NodeModel> {
        elems_model(self.stack@)
    }

    /// A fresh builder, before the document-start marker.
    pub fn new() -> (b: Builder)
        ensures
            !b.spec_started(),
            b.spec_stack() == Seq::<NodeModel>::empty(),
    {
        Builder { started: false, stack: Vec::new() }
    }

    /// Feed one event to the builder: the step `spec_step` describes.
    /// `Ok(None)` means the build goes on; `Ok(Some(root))` hands over the
    /// completed tree; an error is terminal for the build.
    pub fn push_event<P: MetricSource>(&mut self, ev: MathEvent, src: &P) -> (r: Result<
        Option<Element>,
        MathMLParseError,
    >)
        ensures
            match spec_step(
                old(self).spec_started(),
                old(self).spec_stack(),
                ev.model(),
                src.metric_fn(),
            ) {
                StepModel::Going(st2, sk2) => r matches Ok(opt) && opt is None
                    && final(self).spec_started() == st2 && final(self).spec_stack() == sk2,
                StepModel::Finished(n) => r matches Ok(opt) && opt matches Some(root)
                    && root.model() == n,
                StepModel::Failed(em) => r matches Err(e) && e.model() == em,
            },
    {
        let ghost pre = self.spec_stack();
        proof {
            lemma_elems_model_index(self.stack@);
        }
        if !self.started {
            match ev {
                MathEvent::StartDocument => {
                    self.started = true;
                    Result::Ok(Option::None)
                },
                other => Result::Err(MathMLParseError::UnexpectedXMLEvent(other)),
            }
        } else {
            match ev {
                MathEvent::StartDocument => Result::Err(
                    MathMLParseError::UnexpectedXMLEvent(MathEvent::StartDocument),
                ),
                MathEvent::StartElement { tag, attrs } => {
                    match element_for_tag(&tag, &attrs) {
                        Option::Some(el) => {
                            proof {
                                lemma_elems_model_snoc(self.stack@, el);
                            }
                            self.stack.push(el);
                            Result::Ok(Option::None)
                        },
                        Option::None => Result::Err(MathMLParseError::UnexpectedXMLTag(tag)),
                    }
                },
                MathEvent::Characters(s) => {
                    if self.stack.len() == 0 {
                        return Result::Err(
                            MathMLParseError::UnexpectedXMLEvent(MathEvent::Characters(s)),
                        );
                    }
                    let li = self.stack.len() - 1;
                    let rr = self.stack[li].set_body(s, src);
                    match rr {
                        Result::Ok(_) => {
                            proof {
                                lemma_elems_model_update(
                                    old(self).stack@,
                                    li as int,
                                    self.stack@[li as int],
                                );
                                assert(old(self).stack@.update(li as int, self.stack@[li as int])
                                    =~= self.stack@);
                            }
                            Result::Ok(Option::None)
                        },
                        Result::Err(e) => Result::Err(e),
                    }
                },
                MathEvent::Whitespace(_) => Result::Ok(Option::None),
                MathEvent::EndElement => {
                    if self.stack.len() == 0 {
                        return Result::Err(
                            MathMLParseError::UnexpectedXMLEvent(MathEvent::EndElement),
                        );
                    }
                    let li = self.stack.len() - 1;
                    if !self.stack[li].is_complete() {
                        return Result::Err(
                            MathMLParseError::UnexpectedXMLEvent(MathEvent::EndElement),
                        );
                    }
                    let top = match self.stack.pop() {
                        Option::Some(t) => t,
                        Option::None => {
                            return Result::Err(
                                MathMLParseError::UnexpectedXMLEvent(MathEvent::EndElement),
                            );
                        },
                    };
                    proof {
                        assert(self.stack@ =~= old(self).stack@.drop_last());
                        lemma_elems_model_index(self.stack@);
                        assert(elems_model(self.stack@) =~= pre.drop_last());
                    }
                    if self.stack.len() == 0 {
                        return Result::Ok(Option::Some(top));
                    }
                    let pi = self.stack.len() - 1;
                    let ghost mid = self.stack@;
                    let rr = self.stack[pi].append_child(top, src);
                    match rr {
                        Result::Ok(_) => {
                            proof {
                                lemma_elems_model_update(mid, pi as int, self.stack@[pi as int]);
                                assert(mid.update(pi as int, self.stack@[pi as int])
                                    =~= self.stack@);
                            }
                            Result::Ok(Option::None)
                        },
                        Result::Err(e) => Result::Err(e),
                    }
                },
                MathEvent::Other(s) => Result::Err(
                    MathMLParseError::UnexpectedXMLEvent(MathEvent::Other(s)),
                ),
                MathEvent::ReadError(s) => Result::Err(MathMLParseError::XMLError(s)),
            }
        }
    }
}

/// A stream-ending event fails the builder in every state: before the
/// document-start marker it is not that marker, and after it the builder
/// recognizes neither an unhandled event kind nor a read fault.
pub proof fn lemma_stream_end_fails(
    started: bool,
    stack: Seq<NodeModel>,
    ev: EventModel,
    mf: MetricFn,
)
    requires
        is_stream_end(ev),
    ensures
        spec_step(started, stack, ev, mf) is Failed,
{
}

/// A run over an event sequence that ends with a stream-ending event never
/// runs out of events mid-build: from any state, its outcome is completion
/// or failure.
pub proof fn lemma_stream_end_no_pending(
    started: bool,
    stack: Seq<NodeModel>,
    events: Seq<EventModel>,
    mf: MetricFn,
)
    requires
        events.len() >= 1,
        is_stream_end(events.last()),
    ensures
        !(spec_build_from(started, stack, events, mf) is Pending),
    decreases events,
{
    if events.len() == 1 {
        assert(events[0] == events.last());
        lemma_stream_end_fails(started, stack, events[0], mf);
    } else {
        match spec_step(started, stack, events[0], mf) {
            StepModel::Going(st2, sk2) => {
                assert(events.drop_first().last() == events.last());
                lemma_stream_end_no_pending(st2, sk2, events.drop_first(), mf);
            },
            _ => {},
        }
    }
}

/// The largest number of markup events one build consumes. A build that
/// would go past it fails instead; the cap keeps every tree a build can
/// return within the weight the geometry passes accept.
pub const EVENT_CAP: usize = 0xc0000;

/// A built mathematical expression: the completed tree of one document.
#[derive(Debug)]
pub struct MathExpression {
    root: Element,
}

impl MathExpression {
    /// The tree this expression stands for.
    pub closed spec fn model(&self) -> NodeModel {
        self.root.model()
    }

    /// The root node of the finished tree.
    pub fn root(&self) -> (r: &Element)
        ensures
            r.model() == self.model(),
    {
        &self.root
    }

    /// Build an expression from a buffered event sequence, exactly as the
    /// stack machine `spec_build` prescribes: the completed tree if the
    /// events describe one, the first error otherwise, and a read-fault
    /// error when the events run out mid-build. Events after completion or
    /// failure are never read. A finished tree is sealed and within the
    /// weight cap, so it is ready for `bounds` and `draw`.
    pub fn from_events<P: MetricSource>(events: Vec<MathEvent>, src: &P) -> (r: Result<
        MathExpression,
        MathMLParseError,
    >)
        requires
            events@.len() <= EVENT_CAP,
        ensures
            match spec_build(events_model(events@), src.metric_fn()) {
                BuildModel::Done(n) => r matches Ok(x) && x.model() == n && sealed(n) && weight(n)
                    <= WEIGHT_CAP,
                BuildModel::Failed(e) => r matches Err(er) && er.model() == e,
                BuildModel::Pending(st, sk) => r matches Err(er) && er.model() == ErrModel::XmlFault(
                    "markup ended before the expression was complete"@,
                ),
            },
    {
        let ghost evm = events_model(events@);
        let ghost mf = src.metric_fn();
        let ghost total = events@.len();
        let mut evs = events;
        let mut b = Builder::new();
        proof {
            reveal_with_fuel(weight_seq, 2);
            assert(weight_seq(b.spec_stack()) == 0);
        }
        while evs.len() > 0
            invariant
                evs@.len() <= total,
                total <= EVENT_CAP,
                mf == src.metric_fn(),
                evm == events_model(events@),
                spec_build(evm, mf) == spec_build_from(
                    b.spec_started(),
                    b.spec_stack(),
                    events_model(evs@),
                    mf,
                ),
                stack_inv(b.spec_stack()),
                weight_seq(b.spec_stack()) <= 4 * (total - evs@.len()),
            decreases evs@.len(),
        {
            let ghost pre_events = evs@;
            let ghost st0 = b.spec_started();
            let ghost sk0 = b.spec_stack();
            let ev = evs.remove(0);
            proof {
                assert(evs@ =~= pre_events.drop_first());
                assert(events_model(pre_events)[0] == ev.model());
                assert(events_model(evs@) =~= events_model(pre_events).drop_first());
                lemma_step_preserves(st0, sk0, ev.model(), mf);
            }
            let rr = b.push_event(ev, src);
            match rr {
                Result::Ok(opt) => match opt {
                    Option::Some(root) => {
                        proof {
                            assert(spec_build(evm, mf) == BuildModel::Done(root.model()));
                            assert(weight(root.model()) <= 4 * total);
                        }
                        return Result::Ok(MathExpression { root });
                    },
                    Option::None => {},
                },
                Result::Err(e) => {
                    proof {
                        assert(spec_build(evm, mf) == BuildModel::Failed(e.model()));
                    }
                    return Result::Err(e);
                },
            }
        }
        proof {
            assert(events_model(evs@) =~= Seq::<EventModel>::empty());
            assert(spec_build(evm, mf) == BuildModel::Pending(b.spec_started(), b.spec_stack()));
        }
        Result::Err(
            MathMLParseError::XMLError(
                "markup ended before the expression was complete".to_owned(),
            ),
        )
    }

    /// Parse a MathML document from bytes and build its expression tree,
    /// pulling events from the streaming reader of the `xml` crate one at a
    /// time and feeding each to the builder. The bytes denote the event
    /// sequence `doc_events`, and whenever that sequence fits the event
    /// budget, the result is exactly what the stack machine `spec_build`
    /// prescribes for it; a document past the budget fails. Whatever the
    /// reader produces, a returned expression is a sealed tree within the
    /// weight cap, ready for `bounds` and `draw`.
    pub fn from_mathml<P: MetricSource>(source: &[u8], src: &P) -> (r: Result<
        MathExpression,
        MathMLParseError,
    >)
        ensures
            r matches Ok(x) ==> sealed(x.model()) && weight(x.model()) <= WEIGHT_CAP,
            doc_events(source@).len() <= EVENT_CAP ==> match spec_build(
                doc_events(source@),
                src.metric_fn(),
            ) {
                BuildModel::Done(n) => r matches Ok(x) && x.model() == n,
                BuildModel::Failed(e) => r matches Err(er) && er.model() == e,
                BuildModel::Pending(st, sk) => r is Err,
            },
    {
        let ghost de = doc_events(source@);
        let ghost mf = src.metric_fn();
        let mut cursor = reader_new(source);
        let mut b = Builder::new();
        let mut remaining: usize = EVENT_CAP;
        proof {
            reveal_with_fuel(weight_seq, 2);
            assert(weight_seq(b.spec_stack()) == 0);
            assert(de.skip(0) =~= de);
        }
        while remaining > 0
            invariant
                remaining <= EVENT_CAP,
                de == doc_events(source@),
                mf == src.metric_fn(),
                cursor.spec_bytes() == source@,
                cursor.spec_pos() == EVENT_CAP - remaining,
                cursor.spec_pos() <= de.len(),
                remaining < EVENT_CAP ==> de.len() >= 1 && is_stream_end(de.last()),
                stack_inv(b.spec_stack()),
                weight_seq(b.spec_stack()) <= 4 * (EVENT_CAP - remaining),
                spec_build(de, mf) == spec_build_from(
                    b.spec_started(),
                    b.spec_stack(),
                    de.skip(cursor.spec_pos() as int),
                    mf,
                ),
            decreases remaining,
        {
            let ghost pos0 = cursor.spec_pos();
            let ghost st0 = b.spec_started();
            let ghost sk0 = b.spec_stack();
            let ev = reader_next(&mut cursor);
            proof {
                if pos0 == de.len() {
                    // The whole document was consumed with the build still in
                    // progress, yet the stream's last event is one the builder
                    // refuses: this point cannot be reached.
                    assert(de.skip(pos0 as int) =~= Seq::<EventModel>::empty());
                    assert(spec_build(de, mf) == BuildModel::Pending(st0, sk0));
                    lemma_stream_end_no_pending(false, Seq::empty(), de, mf);
                    assert(false);
                }
                assert(ev.model() == de[pos0 as int]);
                assert(de.skip(pos0 as int)[0] == de[pos0 as int]);
                assert(de.skip(pos0 as int).drop_first() =~= de.skip(pos0 as int + 1));
                lemma_step_preserves(st0, sk0, ev.model(), mf);
            }
            let rr = b.push_event(ev, src);
            match rr {
                Result::Ok(opt) => match opt {
                    Option::Some(root) => {
                        proof {
                            assert(spec_build(de, mf) == BuildModel::Done(root.model()));
                            assert(weight(root.model()) <= 4 * (EVENT_CAP as int));
                        }
                        return Result::Ok(MathExpression { root });
                    },
                    Option::None => {},
                },
                Result::Err(e) => {
                    proof {
                        assert(spec_build(de, mf) == BuildModel::Failed(e.model()));
                    }
                    return Result::Err(e);
                },
            }
            remaining = remaining - 1;
        }
        proof {
            // The budget ran out, so the document does not fit it: were
            // `de.len() <= EVENT_CAP`, the cursor would have consumed the
            // whole stream with the build still in progress, which its
            // stream-ending last event rules out.
            if de.len() <= EVENT_CAP {
                assert(cursor.spec_pos() == EVENT_CAP);
                assert(de.skip(cursor.spec_pos() as int) =~= Seq::<EventModel>::empty());
                assert(spec_build(de, mf) == BuildModel::Pending(
                    b.spec_started(),
                    b.spec_stack(),
                ));
                lemma_stream_end_no_pending(false, Seq::empty(), de, mf);
                assert(false);
            }
        }
        Result::Err(MathMLParseError::XMLError("markup stream exceeded the event budget".to_owned()))
    }

    /// The bounding box of the expression, by the layout formulas of
    /// `extent_of`.
    pub fn bounds(&self) -> (r: Rect)
        requires
            sealed(self.model()),
            weight(self.model()) <= WEIGHT_CAP,
        ensures
            r.extent() == extent_of(self.model()),
    {
        self.root.bounds()
    }

    /// The draw primitives of the expression placed with its anchor at `p`,
    /// by the placement rules of `ops_of`.
    pub fn draw(&self, p: Point) -> (ops: Vec<DrawOp>)
        requires
            sealed(self.model()),
            weight(self.model()) <= WEIGHT_CAP,
            -ANCHOR_CAP <= p.x <= ANCHOR_CAP,
            -ANCHOR_CAP <= p.y <= ANCHOR_CAP,
        ensures
            ops_model(ops@) == ops_of(self.model(), p.x as int, p.y as int),
    {
        self.root.draw(p)
    }
}

} // verus!
