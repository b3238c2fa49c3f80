//! Tests of the reflow sequence.

use sqlfluffrs::kind::{MetaType, RawSegmentKwargs};
use sqlfluffrs::node::Node;
use sqlfluffrs::reflow::config::ReflowConfig;
use sqlfluffrs::reflow::depthmap::SegmentCounter;
use sqlfluffrs::reflow::sequence::ReflowSequence;

fn make_raw(seg_type: &str, raw: &str, instance_types: Vec<String>) -> Node {
    Node::Raw {
        segment_class: format!("{}Segment", seg_type),
        segment_type: seg_type.to_string(),
class_type: seg_type.to_string(),
        raw: raw.to_string(),
        pos_marker: None,
        instance_types,
        class_types: Vec::new(),
segment_kwargs: RawSegmentKwargs::default(),
    }
}

fn make_keyword(raw: &str) -> Node {
    Node::Raw {
        segment_class: "KeywordSegment".to_string(),
        segment_type: "keyword".to_string(),
class_type: "keyword".to_string(),
        raw: raw.to_string(),
        pos_marker: None,
        instance_types: vec!["keyword".to_string()],
        class_types: Vec::new(),
segment_kwargs: RawSegmentKwargs::default(),
    }
}

fn make_ws(raw: &str) -> Node {
    make_raw("whitespace", raw, vec!["whitespace".to_string()])
}

fn make_newline() -> Node {
    make_raw("newline", "\n", vec!["newline".to_string()])
}

fn make_eof() -> Node {
    Node::Meta {
        meta_type: MetaType::EndOfFile,
        pos_marker: None,
block_uuid: None,
    }
}

fn make_file(children: Vec<Node>) -> Node {
    Node::Segment {
        segment_class: "FileSegment".to_string(),
        segment_type: Some("file".to_string()),
        pos_marker: None,
class_types: Vec::new(),
        children,
    }
}

fn make_statement(children: Vec<Node>) -> Node {
    Node::Segment {
        segment_class: "StatementSegment".to_string(),
        segment_type: Some("statement".to_string()),
        pos_marker: None,
class_types: Vec::new(),
        children,
    }
}

fn make_select_stmt(children: Vec<Node>) -> Node {
    Node::Segment {
        segment_class: "SelectStatementSegment".to_string(),
        segment_type: Some("select_statement".to_string()),
        pos_marker: None,
class_types: Vec::new(),
        children,
    }
}

fn make_select_clause(children: Vec<Node>) -> Node {
    Node::Segment {
        segment_class: "SelectClauseSegment".to_string(),
        segment_type: Some("select_clause".to_string()),
        pos_marker: None,
class_types: Vec::new(),
        children,
    }
}

fn make_comma() -> Node {
    Node::Raw {
        segment_class: "CommaSegment".to_string(),
        segment_type: "comma".to_string(),
class_type: "comma".to_string(),
        raw: ",".to_string(),
        pos_marker: None,
        instance_types: vec!["comma".to_string()],
        class_types: Vec::new(),
segment_kwargs: RawSegmentKwargs::default(),
    }
}

fn make_literal(raw: &str) -> Node {
    Node::Raw {
        segment_class: "NumericLiteralSegment".to_string(),
        segment_type: "numeric_literal".to_string(),
class_type: "numeric_literal".to_string(),
        raw: raw.to_string(),
        pos_marker: None,
        instance_types: vec![
            "numeric_literal".to_string(),
            "literal".to_string(),
        ],
        class_types: Vec::new(),
segment_kwargs: RawSegmentKwargs::default(),
    }
}

fn make_dot() -> Node {
    Node::Raw {
        segment_class: "DotSegment".to_string(),
        segment_type: "dot".to_string(),
class_type: "dot".to_string(),
        raw: ".".to_string(),
        pos_marker: None,
        instance_types: vec!["dot".to_string()],
        class_types: Vec::new(),
segment_kwargs: RawSegmentKwargs::default(),
    }
}

fn make_identifier(raw: &str) -> Node {
    Node::Raw {
        segment_class: "IdentifierSegment".to_string(),
        segment_type: "naked_identifier".to_string(),
class_type: "naked_identifier".to_string(),
        raw: raw.to_string(),
        pos_marker: None,
        instance_types: vec!["naked_identifier".to_string(), "identifier".to_string()],
        class_types: Vec::new(),
segment_kwargs: RawSegmentKwargs::default(),
    }
}


#[test]
fn test_select_1_no_violations() {
    let tree = make_file(vec![
        make_statement(vec![make_select_stmt(vec![make_select_clause(
            vec![
                make_keyword("SELECT"),
                make_ws(" "),
                make_literal("1"),
            ],
        )])]),
        make_newline(),
        make_eof(),
    ]);

    let config = ReflowConfig::default_ansi();
    let seq = ReflowSequence::from_root(&tree, &config, &mut SegmentCounter::new()).respace();
    assert!(
        seq.violations.is_empty(),
        "Expected no violations for 'SELECT 1\\n', got: {:?}",
        seq.violations
    );
}

#[test]
fn test_trailing_whitespace() {
    let tree = make_file(vec![
        make_statement(vec![make_select_stmt(vec![make_select_clause(
            vec![
                make_keyword("SELECT"),
                make_ws(" "),
                make_literal("1"),
            ],
        )])]),
        make_ws("     "),
        make_newline(),
        make_eof(),
    ]);

    let config = ReflowConfig::default_ansi();
    let seq = ReflowSequence::from_root(&tree, &config, &mut SegmentCounter::new()).respace();
    assert!(
        !seq.violations.is_empty(),
        "Expected violations for trailing whitespace"
    );
    assert!(
        seq.violations
            .iter()
            .any(|v| v.description.contains("trailing whitespace")),
        "Expected trailing whitespace violation, got: {:?}",
        seq.violations
    );
}

#[test]
fn test_excessive_whitespace() {
    let tree = make_file(vec![
        make_statement(vec![make_select_stmt(vec![make_select_clause(
            vec![
                make_keyword("SELECT"),
                make_ws("  "),
                make_literal("1"),
            ],
        )])]),
        make_newline(),
        make_eof(),
    ]);

    let config = ReflowConfig::default_ansi();
    let seq = ReflowSequence::from_root(&tree, &config, &mut SegmentCounter::new()).respace();
    assert!(
        !seq.violations.is_empty(),
        "Expected violations for double space"
    );
    assert!(
        seq.violations
            .iter()
            .any(|v| v.description.contains("Expected only single space")),
        "Expected single space violation, got: {:?}",
        seq.violations
    );
}

#[test]
fn test_missing_whitespace() {
    let tree = make_file(vec![
        make_statement(vec![make_select_stmt(vec![make_select_clause(
            vec![make_keyword("SELECT"), make_literal("1")],
        )])]),
        make_newline(),
        make_eof(),
    ]);

    let config = ReflowConfig::default_ansi();
    let seq = ReflowSequence::from_root(&tree, &config, &mut SegmentCounter::new()).respace();
    assert!(
        !seq.violations.is_empty(),
        "Expected violations for missing space"
    );
    assert!(
        seq.violations
            .iter()
            .any(|v| v.description.contains("Expected single whitespace")),
        "Expected missing whitespace violation, got: {:?}",
        seq.violations
    );
}

#[test]
fn test_comma_touch_before() {
    let tree = make_file(vec![
        make_statement(vec![make_select_stmt(vec![make_select_clause(
            vec![
                make_keyword("SELECT"),
                make_ws(" "),
                make_literal("1"),
                make_ws(" "),
                make_comma(),
                make_literal("2"),
            ],
        )])]),
        make_newline(),
        make_eof(),
    ]);

    let config = ReflowConfig::default_ansi();
    let seq = ReflowSequence::from_root(&tree, &config, &mut SegmentCounter::new()).respace();
    let has_touch = seq
        .violations
        .iter()
        .any(|v| v.description.contains("Unexpected whitespace"));
    let has_missing = seq
        .violations
        .iter()
        .any(|v| v.description.contains("Expected single whitespace"));
    assert!(
        has_touch || has_missing,
        "Expected comma-related violations, got: {:?}",
        seq.violations
    );
}

#[test]
fn test_dot_touch_both_sides() {
    let obj_ref = Node::Segment {
        segment_class: "ObjectReferenceSegment".to_string(),
        segment_type: Some("object_reference".to_string()),
        pos_marker: None,
class_types: Vec::new(),
        children: vec![
            make_identifier("a"),
            make_ws(" "),
            make_dot(),
            make_ws(" "),
            make_identifier("b"),
        ],
    };

    let tree = make_file(vec![
        make_statement(vec![make_select_stmt(vec![make_select_clause(
            vec![make_keyword("SELECT"), make_ws(" "), obj_ref],
        )])]),
        make_newline(),
        make_eof(),
    ]);

    let config = ReflowConfig::default_ansi();
    let seq = ReflowSequence::from_root(&tree, &config, &mut SegmentCounter::new()).respace();
    assert!(
        seq.violations.len() >= 2,
        "Expected at least 2 violations for spaces around dot, got: {:?}",
        seq.violations
    );
}

#[test]
fn test_no_violations_for_correct_comma_spacing() {
    let tree = make_file(vec![
        make_statement(vec![make_select_stmt(vec![make_select_clause(
            vec![
                make_keyword("SELECT"),
                make_ws(" "),
                make_literal("1"),
                make_comma(),
                make_ws(" "),
                make_literal("2"),
            ],
        )])]),
        make_newline(),
        make_eof(),
    ]);

    let config = ReflowConfig::default_ansi();
    let seq = ReflowSequence::from_root(&tree, &config, &mut SegmentCounter::new()).respace();
    assert!(
        seq.violations.is_empty(),
        "Expected no violations for 'SELECT 1, 2\\n', got: {:?}",
        seq.violations
    );
}
