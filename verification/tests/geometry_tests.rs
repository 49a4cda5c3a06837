use mathml_layout::builder::MathExpression;
use mathml_layout::events::MathEvent;
use mathml_layout::geom::{DrawOp, Point, Rect};
use mathml_layout::metrics::{MetricSource, MonoMetrics, TextMetrics, TextRun};
use mathml_layout::tree::Element;

fn doc(body: Vec<MathEvent>) -> Vec<MathEvent> {
    let mut evs = vec![MathEvent::StartDocument];
    evs.extend(body);
    evs
}

fn tag_open(tag: &str) -> MathEvent {
    MathEvent::StartElement { tag: tag.to_string(), attrs: Vec::new() }
}

fn tag_leaf(tag: &str, body: &str) -> Vec<MathEvent> {
    vec![
        tag_open(tag),
        MathEvent::Characters(body.to_string()),
        MathEvent::EndElement,
    ]
}

fn run18(chars: u16) -> Option<TextRun> {
    Some(TextRun { width: 18 * chars, height: 18, size: 18 })
}

#[test]
fn mono_metrics_measures_square_cells() {
    assert_eq!(
        MonoMetrics.measure_text("abc", 10),
        TextMetrics { width: 30, height: 10 }
    );
    assert_eq!(MonoMetrics.measure_text("", 18), TextMetrics { width: 0, height: 18 });
}

#[test]
fn empty_row_measures_as_zero_box() {
    let evs = doc(vec![tag_open("math"), MathEvent::EndElement]);
    let expr = MathExpression::from_events(evs, &MonoMetrics).expect("build");
    assert_eq!(expr.bounds(), Rect::xywh(0, 0, 0, 0));
}

#[test]
fn row_width_adds_one_gap_per_child() {
    // One child of width 18 gives 18 + 2; two children give 18+2 twice.
    let one = Element::Row(vec![Element::Id("x".to_string(), run18(1), 1)]);
    assert_eq!(one.bounds(), Rect::xywh(0, 0, 20, 18));
    let two = Element::Row(vec![
        Element::Id("x".to_string(), run18(1), 1),
        Element::Id("yy".to_string(), run18(2), 1),
    ]);
    assert_eq!(two.bounds(), Rect::xywh(0, 0, 58, 18));
}

#[test]
fn leaf_box_is_offset_by_half_its_height() {
    let leaf = Element::Id("x".to_string(), run18(1), 1);
    assert_eq!(leaf.bounds(), Rect::xywh(0, 9, 18, 18));
}

#[test]
fn fraction_measures_stacked() {
    let mut evs = vec![tag_open("math"), tag_open("mfrac")];
    evs.extend(tag_leaf("mn", "3"));
    evs.extend(tag_leaf("mn", "41"));
    evs.push(MathEvent::EndElement);
    evs.push(MathEvent::EndElement);
    let expr = MathExpression::from_events(doc(evs), &MonoMetrics).expect("build");
    // Fraction: width max(18, 36) = 36, height 18 + 18 + 2 = 38.
    // Row around it: width 36 + 2, height 38.
    assert_eq!(expr.bounds(), Rect::xywh(0, 0, 38, 38));
}

#[test]
fn sqrt_widens_for_the_radical() {
    let sqrt = Element::Sqrt(Box::new(Element::Id("x".to_string(), run18(1), 1)));
    assert_eq!(sqrt.bounds(), Rect::xywh(0, 9, 28, 18));
}

#[test]
fn root_widens_for_its_index() {
    let mut evs = vec![tag_open("math"), tag_open("mroot")];
    evs.extend(tag_leaf("mi", "x"));
    evs.extend(tag_leaf("mn", "3"));
    evs.push(MathEvent::EndElement);
    evs.push(MathEvent::EndElement);
    let expr = MathExpression::from_events(doc(evs), &MonoMetrics).expect("build");
    // Root: base 18 wide plus 7 plus index 18 = 43; row adds its gap.
    assert_eq!(expr.bounds(), Rect::xywh(0, 0, 45, 18));
}

#[test]
fn superscript_adds_half_script_height() {
    let mut evs = vec![tag_open("msup")];
    evs.extend(tag_leaf("mi", "q"));
    evs.extend(tag_leaf("mn", "2"));
    evs.push(MathEvent::EndElement);
    let expr = MathExpression::from_events(doc(evs), &MonoMetrics).expect("build");
    // Base 18 wide and tall; script at size 12: width 18 + 12 + 2,
    // height 18 + 12/2.
    assert_eq!(expr.bounds(), Rect::xywh(0, 9, 32, 24));
}

#[test]
fn subsuperscript_takes_wider_script() {
    let mut evs = vec![tag_open("msubsup")];
    evs.extend(tag_leaf("mi", "x"));
    evs.extend(tag_leaf("mn", "10"));
    evs.extend(tag_leaf("mn", "2"));
    evs.push(MathEvent::EndElement);
    let expr = MathExpression::from_events(doc(evs), &MonoMetrics).expect("build");
    // Subscript "10" lands at depth 0, so it is measured at size 18 and is
    // 36 wide and 18 tall; superscript "2" lands at depth 2, size 12, so it
    // is 12 wide and 12 tall. Width 18 + max(36, 12) + 2; height
    // 18 + 18/2 + 12/2.
    assert_eq!(expr.bounds(), Rect::xywh(0, 9, 56, 33));
}

#[test]
fn space_is_a_zero_box() {
    let evs = doc(vec![
        tag_open("math"),
        tag_open("mspace"),
        MathEvent::EndElement,
        MathEvent::EndElement,
    ]);
    let expr = MathExpression::from_events(evs, &MonoMetrics).expect("build");
    assert_eq!(expr.bounds(), Rect::xywh(0, 0, 2, 0));
}

#[test]
fn draw_centers_leaf_text_about_the_anchor() {
    let mut evs = vec![tag_open("math")];
    evs.extend(tag_leaf("mi", "x"));
    evs.push(MathEvent::EndElement);
    let expr = MathExpression::from_events(doc(evs), &MonoMetrics).expect("build");
    let ops = expr.draw(Point::xy(100, 50));
    assert_eq!(
        ops,
        vec![DrawOp::Text { x: 100, y: 41, size: 18, body: "x".to_string() }]
    );
}

#[test]
fn draw_stacks_fraction_about_the_bar() {
    let mut evs = vec![tag_open("math"), tag_open("mfrac")];
    evs.extend(tag_leaf("mn", "3"));
    evs.extend(tag_leaf("mn", "4"));
    evs.push(MathEvent::EndElement);
    evs.push(MathEvent::EndElement);
    let expr = MathExpression::from_events(doc(evs), &MonoMetrics).expect("build");
    let ops = expr.draw(Point::xy(100, 50));
    assert_eq!(
        ops,
        vec![
            DrawOp::Text { x: 100, y: 31, size: 18, body: "3".to_string() },
            DrawOp::Line { x1: 100, y1: 50, x2: 118, y2: 50 },
            DrawOp::Text { x: 100, y: 51, size: 18, body: "4".to_string() },
        ]
    );
}

#[test]
fn draw_strokes_five_radical_segments() {
    let mut evs = vec![tag_open("math"), tag_open("msqrt")];
    evs.extend(tag_leaf("mi", "x"));
    evs.push(MathEvent::EndElement);
    evs.push(MathEvent::EndElement);
    let expr = MathExpression::from_events(doc(evs), &MonoMetrics).expect("build");
    let ops = expr.draw(Point::xy(0, 0));
    assert_eq!(ops.len(), 6);
    assert_eq!(ops[0], DrawOp::Line { x1: 0, y1: 0, x2: 2, y2: 0 });
    assert_eq!(ops[1], DrawOp::Line { x1: 2, y1: 0, x2: 4, y2: 9 });
    assert_eq!(ops[2], DrawOp::Line { x1: 4, y1: 9, x2: 8, y2: -9 });
    assert_eq!(ops[3], DrawOp::Line { x1: 8, y1: -9, x2: 28, y2: -9 });
    assert_eq!(ops[4], DrawOp::Line { x1: 28, y1: -9, x2: 28, y2: -4 });
    assert_eq!(ops[5], DrawOp::Text { x: 9, y: -9, size: 18, body: "x".to_string() });
}

#[test]
fn draw_places_scripts_off_the_midline() {
    let mut evs = vec![tag_open("msub")];
    evs.extend(tag_leaf("mi", "a"));
    evs.extend(tag_leaf("mn", "1"));
    evs.push(MathEvent::EndElement);
    let expr = MathExpression::from_events(doc(evs), &MonoMetrics).expect("build");
    let ops = expr.draw(Point::xy(0, 0));
    // Base at the anchor; the depth-zero script (size 18) sits right of the
    // base and half a base height below the midline.
    assert_eq!(
        ops,
        vec![
            DrawOp::Text { x: 0, y: -9, size: 18, body: "a".to_string() },
            DrawOp::Text { x: 20, y: 0, size: 18, body: "1".to_string() },
        ]
    );
}

#[test]
fn parses_mathml_bytes_end_to_end() {
    let src = b"<math><mi>x</mi></math>";
    let expr = MathExpression::from_mathml(src, &MonoMetrics).expect("parse");
    assert_eq!(expr.bounds(), Rect::xywh(0, 0, 20, 18));
    match expr.root() {
        Element::Row(children) => {
            assert!(matches!(&children[0], Element::Id(b, _, 1) if b.as_str() == "x"));
        }
        other => panic!("expected a row root, got {:?}", other),
    }
}

#[test]
fn parses_nested_mathml_with_whitespace() {
    let src = b"<math>\n  <mfrac>\n    <mn>3</mn>\n    <mn>4</mn>\n  </mfrac>\n</math>";
    let expr = MathExpression::from_mathml(src, &MonoMetrics).expect("parse");
    assert_eq!(expr.bounds(), Rect::xywh(0, 0, 20, 38));
}

#[test]
fn parsing_twice_is_deterministic() {
    let src = b"<math><msup><mi>x</mi><mn>2</mn></msup><mo>+</mo><mn>1</mn></math>";
    let e1 = MathExpression::from_mathml(src, &MonoMetrics).expect("first");
    let e2 = MathExpression::from_mathml(src, &MonoMetrics).expect("second");
    assert_eq!(e1.bounds(), e2.bounds());
    let p = Point::xy(-3, 11);
    assert_eq!(e1.draw(p), e2.draw(p));
}

#[test]
fn truncated_markup_fails_with_xml_error() {
    let src = b"<math><mi>x</mi>";
    let err = MathExpression::from_mathml(src, &MonoMetrics).unwrap_err();
    assert!(matches!(err, mathml_layout::tree::MathMLParseError::XMLError(_)));
}

#[test]
fn unknown_tag_in_markup_fails() {
    let src = b"<math><merror>bad</merror></math>";
    let err = MathExpression::from_mathml(src, &MonoMetrics).unwrap_err();
    assert_eq!(
        err,
        mathml_layout::tree::MathMLParseError::UnexpectedXMLTag("merror".to_string())
    );
}
