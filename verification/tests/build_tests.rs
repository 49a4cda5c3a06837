use mathml_layout::builder::{Builder, MathExpression};
use mathml_layout::geom::Rect;
use mathml_layout::events::{Attr, MathEvent};
use mathml_layout::metrics::{MonoMetrics, TextRun};
use mathml_layout::tree::{Element, MathMLParseError};

fn doc(body: Vec<MathEvent>) -> Vec<MathEvent> {
    let mut evs = vec![MathEvent::StartDocument];
    evs.extend(body);
    evs
}

fn open(tag: &str) -> MathEvent {
    MathEvent::StartElement { tag: tag.to_string(), attrs: Vec::new() }
}

fn text(s: &str) -> MathEvent {
    MathEvent::Characters(s.to_string())
}

fn leaf(tag: &str, body: &str) -> Vec<MathEvent> {
    vec![open(tag), text(body), MathEvent::EndElement]
}

#[test]
fn builds_single_identifier_row() {
    let mut evs = vec![open("math")];
    evs.extend(leaf("mi", "x"));
    evs.push(MathEvent::EndElement);
    let expr = MathExpression::from_events(doc(evs), &MonoMetrics).expect("build");
    match expr.root() {
        Element::Row(children) => {
            assert_eq!(children.len(), 1);
            match &children[0] {
                Element::Id(body, run, level) => {
                    assert_eq!(body.as_str(), "x");
                    assert_eq!(*level, 1usize);
                    assert_eq!(*run, Some(TextRun { width: 18, height: 18, size: 18 }));
                }
                other => panic!("expected an identifier leaf, got {:?}", other),
            }
        }
        other => panic!("expected a row root, got {:?}", other),
    }
    let b = expr.bounds();
    assert!(b.h > 0);
    assert_eq!((b.x, b.y, b.w, b.h), (0, 0, 20, 18));
}

#[test]
fn builds_fraction_of_two_numbers() {
    let mut evs = vec![open("math"), open("mfrac")];
    evs.extend(leaf("mn", "3"));
    evs.extend(leaf("mn", "4"));
    evs.push(MathEvent::EndElement);
    evs.push(MathEvent::EndElement);
    let expr = MathExpression::from_events(doc(evs), &MonoMetrics).expect("build");
    match expr.root() {
        Element::Row(children) => {
            assert_eq!(children.len(), 1);
            match &children[0] {
                Element::Fraction { numer, denom } => {
                    assert!(matches!(&**numer, Element::Number(b, _, _) if b.as_str() == "3"));
                    assert!(matches!(&**denom, Element::Number(b, _, _) if b.as_str() == "4"));
                }
                other => panic!("expected a fraction, got {:?}", other),
            }
        }
        other => panic!("expected a row root, got {:?}", other),
    }
}

#[test]
fn third_child_of_fraction_overflows() {
    let mut evs = vec![open("math"), open("mfrac")];
    evs.extend(leaf("mn", "3"));
    evs.extend(leaf("mn", "4"));
    evs.extend(leaf("mn", "5"));
    let err = MathExpression::from_events(doc(evs), &MonoMetrics).unwrap_err();
    assert_eq!(err, MathMLParseError::AppendToFullNode);
}

#[test]
fn superscript_deepens_script_depth() {
    let mut evs = vec![open("msup")];
    evs.extend(leaf("mi", "q"));
    evs.extend(leaf("mn", "2"));
    evs.push(MathEvent::EndElement);
    let expr = MathExpression::from_events(doc(evs), &MonoMetrics).expect("build");
    match expr.root() {
        Element::Superscript { base, script } => {
            match &**base {
                Element::Id(body, run, level) => {
                    assert_eq!(body.as_str(), "q");
                    assert_eq!(*level, 1usize);
                    assert_eq!(*run, Some(TextRun { width: 18, height: 18, size: 18 }));
                }
                other => panic!("expected an identifier base, got {:?}", other),
            }
            match &**script {
                Element::Number(body, run, level) => {
                    assert_eq!(body.as_str(), "2");
                    assert_eq!(*level, 2usize);
                    assert_eq!(*run, Some(TextRun { width: 12, height: 12, size: 12 }));
                }
                other => panic!("expected a number script, got {:?}", other),
            }
        }
        other => panic!("expected a superscript root, got {:?}", other),
    }
}

#[test]
fn unknown_tag_fails_build() {
    let evs = vec![open("math"), open("merror")];
    let err = MathExpression::from_events(doc(evs), &MonoMetrics).unwrap_err();
    assert_eq!(err, MathMLParseError::UnexpectedXMLTag("merror".to_string()));
}

#[test]
fn close_on_empty_stack_is_unexpected() {
    let evs = doc(vec![MathEvent::EndElement]);
    let err = MathExpression::from_events(evs, &MonoMetrics).unwrap_err();
    assert_eq!(err, MathMLParseError::UnexpectedXMLEvent(MathEvent::EndElement));
}

#[test]
fn stream_must_begin_with_document_start() {
    let err = MathExpression::from_events(vec![open("math")], &MonoMetrics).unwrap_err();
    assert_eq!(
        err,
        MathMLParseError::UnexpectedXMLEvent(MathEvent::StartElement {
            tag: "math".to_string(),
            attrs: Vec::new(),
        })
    );
}

#[test]
fn text_outside_leaf_is_append_to_full_node() {
    let evs = doc(vec![open("math"), text("loose")]);
    let err = MathExpression::from_events(evs, &MonoMetrics).unwrap_err();
    assert_eq!(err, MathMLParseError::AppendToFullNode);
}

#[test]
fn child_of_leaf_is_append_to_leaf() {
    let mut evs = vec![open("math"), open("mi")];
    evs.extend(leaf("mo", "+"));
    let err = MathExpression::from_events(doc(evs), &MonoMetrics).unwrap_err();
    assert_eq!(err, MathMLParseError::AppendToLeaf);
}

#[test]
fn close_with_unfilled_slot_is_unexpected() {
    let mut evs = vec![open("math"), open("mfrac")];
    evs.extend(leaf("mn", "3"));
    evs.push(MathEvent::EndElement);
    let err = MathExpression::from_events(doc(evs), &MonoMetrics).unwrap_err();
    assert_eq!(err, MathMLParseError::UnexpectedXMLEvent(MathEvent::EndElement));
}

#[test]
fn close_of_empty_leaf_is_unexpected() {
    let evs = doc(vec![open("math"), open("mi"), MathEvent::EndElement]);
    let err = MathExpression::from_events(evs, &MonoMetrics).unwrap_err();
    assert_eq!(err, MathMLParseError::UnexpectedXMLEvent(MathEvent::EndElement));
}

#[test]
fn exhausted_events_fail_with_read_error() {
    let evs = doc(vec![open("math")]);
    let err = MathExpression::from_events(evs, &MonoMetrics).unwrap_err();
    assert!(matches!(err, MathMLParseError::XMLError(_)));
}

#[test]
fn whitespace_between_tags_is_ignored() {
    let mut evs = vec![open("math"), MathEvent::Whitespace("  ".to_string())];
    evs.extend(leaf("mi", "x"));
    evs.push(MathEvent::Whitespace("\n".to_string()));
    evs.push(MathEvent::EndElement);
    let expr = MathExpression::from_events(doc(evs), &MonoMetrics).expect("build");
    assert_eq!((expr.bounds().w, expr.bounds().h), (20, 18));
}

#[test]
fn sqrt_second_child_merges_into_row() {
    let mut evs = vec![open("math"), open("msqrt")];
    evs.extend(leaf("mi", "x"));
    evs.extend(leaf("mi", "y"));
    evs.push(MathEvent::EndElement);
    evs.push(MathEvent::EndElement);
    let expr = MathExpression::from_events(doc(evs), &MonoMetrics).expect("build");
    match expr.root() {
        Element::Row(children) => match &children[0] {
            Element::Sqrt(inner) => match &**inner {
                Element::Row(pair) => {
                    assert_eq!(pair.len(), 2);
                    assert!(matches!(&pair[0], Element::Id(b, _, _) if b.as_str() == "x"));
                    assert!(matches!(&pair[1], Element::Id(b, _, _) if b.as_str() == "y"));
                }
                other => panic!("expected a merged row, got {:?}", other),
            },
            other => panic!("expected a square root, got {:?}", other),
        },
        other => panic!("expected a row root, got {:?}", other),
    }
    // The merged tree measures exactly as a directly-authored two-child row
    // wrapped in a square root.
    let authored = Element::Sqrt(Box::new(Element::Row(vec![
        Element::Id("x".to_string(), Some(TextRun { width: 18, height: 18, size: 18 }), 1),
        Element::Id("y".to_string(), Some(TextRun { width: 18, height: 18, size: 18 }), 1),
    ])));
    match expr.root() {
        Element::Row(children) => {
            let merged = children[0].bounds();
            let direct = authored.bounds();
            assert_eq!(merged, direct);
        }
        _ => unreachable!(),
    }
}

#[test]
fn nested_subscript_floors_depth_at_zero() {
    let mut evs = vec![open("math"), open("msub")];
    evs.extend(leaf("mi", "a"));
    evs.push(open("msub"));
    evs.extend(leaf("mi", "b"));
    evs.extend(leaf("mi", "c"));
    evs.push(MathEvent::EndElement);
    evs.push(MathEvent::EndElement);
    evs.push(MathEvent::EndElement);
    let expr = MathExpression::from_events(doc(evs), &MonoMetrics).expect("build");
    match expr.root() {
        Element::Row(children) => match &children[0] {
            Element::Subscript { base, script } => {
                assert!(matches!(&**base, Element::Id(b, _, 1) if b.as_str() == "a"));
                match &**script {
                    Element::Subscript { base, script } => {
                        // The inner attach took c to depth 0; the outer attach
                        // then took b to 0 and kept c floored at 0.
                        assert!(matches!(&**base, Element::Id(b, _, 0) if b.as_str() == "b"));
                        assert!(matches!(&**script, Element::Id(b, _, 0) if b.as_str() == "c"));
                    }
                    other => panic!("expected a nested subscript, got {:?}", other),
                }
            }
            other => panic!("expected a subscript, got {:?}", other),
        },
        other => panic!("expected a row root, got {:?}", other),
    }
}

#[test]
fn fenced_takes_delimiters_from_attributes() {
    let mut evs = vec![
        open("math"),
        MathEvent::StartElement {
            tag: "mfenced".to_string(),
            attrs: vec![
                Attr::new("open".to_string(), "[".to_string()),
                Attr::new("close".to_string(), "]".to_string()),
                Attr::new("seperators".to_string(), ";".to_string()),
            ],
        },
    ];
    evs.extend(leaf("mi", "x"));
    evs.push(MathEvent::EndElement);
    evs.push(MathEvent::EndElement);
    let expr = MathExpression::from_events(doc(evs), &MonoMetrics).expect("build");
    match expr.root() {
        Element::Row(children) => match &children[0] {
            Element::Fenced { open, close, separator, children } => {
                assert_eq!(open.as_str(), "[");
                assert_eq!(close.as_str(), "]");
                assert_eq!(separator.as_str(), ";");
                assert_eq!(children.len(), 1);
            }
            other => panic!("expected a fenced group, got {:?}", other),
        },
        other => panic!("expected a row root, got {:?}", other),
    }
}

#[test]
fn fenced_delimiters_default() {
    let mut evs = vec![open("math"), open("mfenced")];
    evs.extend(leaf("mi", "x"));
    evs.push(MathEvent::EndElement);
    evs.push(MathEvent::EndElement);
    let expr = MathExpression::from_events(doc(evs), &MonoMetrics).expect("build");
    match expr.root() {
        Element::Row(children) => match &children[0] {
            Element::Fenced { open, close, separator, .. } => {
                assert_eq!(open.as_str(), "(");
                assert_eq!(close.as_str(), ")");
                assert_eq!(separator.as_str(), ",");
            }
            other => panic!("expected a fenced group, got {:?}", other),
        },
        other => panic!("expected a row root, got {:?}", other),
    }
}

#[test]
fn building_twice_is_deterministic() {
    let mut body = vec![open("math"), open("mfrac"), open("msup")];
    body.extend(leaf("mi", "x"));
    body.extend(leaf("mn", "2"));
    body.push(MathEvent::EndElement);
    body.extend(leaf("mn", "7"));
    body.push(MathEvent::EndElement);
    body.push(MathEvent::EndElement);
    let e1 = MathExpression::from_events(doc(body.clone()), &MonoMetrics).expect("first");
    let e2 = MathExpression::from_events(doc(body), &MonoMetrics).expect("second");
    assert_eq!(e1.bounds(), e2.bounds());
    let p = mathml_layout::geom::Point::xy(13, -7);
    assert_eq!(e1.draw(p), e2.draw(p));
}

#[test]
fn builder_accepts_events_one_at_a_time() {
    let m = MonoMetrics;
    let mut b = Builder::new();
    assert!(matches!(b.push_event(MathEvent::StartDocument, &m), Ok(None)));
    assert!(matches!(b.push_event(open("math"), &m), Ok(None)));
    assert!(matches!(b.push_event(open("mi"), &m), Ok(None)));
    assert!(matches!(b.push_event(text("x"), &m), Ok(None)));
    assert!(matches!(b.push_event(MathEvent::EndElement, &m), Ok(None)));
    let root = match b.push_event(MathEvent::EndElement, &m) {
        Ok(Some(root)) => root,
        other => panic!("expected a completed root, got {:?}", other),
    };
    assert_eq!(root.bounds(), Rect::xywh(0, 0, 20, 18));
}

#[test]
fn read_fault_event_fails_with_xml_error() {
    let evs = doc(vec![open("math"), MathEvent::ReadError("disk gone".to_string())]);
    let err = MathExpression::from_events(evs, &MonoMetrics).unwrap_err();
    assert_eq!(err, MathMLParseError::XMLError("disk gone".to_string()));
}

#[test]
fn error_descriptions_name_each_kind() {
    assert_eq!(MathMLParseError::AppendToLeaf.description(), "attempt to append to leaf");
    assert_eq!(
        MathMLParseError::AppendToFullNode.description(),
        "attempt to append to full node"
    );
    assert_eq!(
        MathMLParseError::UnexpectedXMLTag("merror".to_string()).description(),
        "unexpected XML tag"
    );
    assert_eq!(
        MathMLParseError::UnexpectedXMLEvent(MathEvent::EndElement).description(),
        "unexpected XML event"
    );
    assert_eq!(MathMLParseError::XMLError("eof".to_string()).description(), "xml error");
}
