//! Tests of respacing on whole trees.

use sqlfluffrs::kind::{MetaType, RawSegmentKwargs};
use sqlfluffrs::node::Node;
use sqlfluffrs::reflow::config::ReflowConfig;
use sqlfluffrs::reflow::depthmap::SegmentCounter;
use sqlfluffrs::reflow::respace::FixType;
use sqlfluffrs::reflow::sequence::ReflowSequence;

fn make_raw(seg_type: &str, raw: &str, instance_types: Vec<String>) -> Node {
    Node::Raw {
        segment_class: format!("{}Segment", seg_type),
        segment_type: seg_type.to_string(),
class_type: seg_type.to_string(),
        raw: raw.to_string(),
        pos_marker: None,
        instance_types,
        class_types: Vec::new(),
segment_kwargs: RawSegmentKwargs::default(),
    }
}

fn make_keyword(raw: &str) -> Node {
    Node::Raw {
        segment_class: "KeywordSegment".to_string(),
        segment_type: "keyword".to_string(),
class_type: "keyword".to_string(),
        raw: raw.to_string(),
        pos_marker: None,
        instance_types: vec!["keyword".to_string()],
        class_types: Vec::new(),
segment_kwargs: RawSegmentKwargs::default(),
    }
}

fn make_ws(raw: &str) -> Node {
    make_raw("whitespace", raw, vec!["whitespace".to_string()])
}

fn make_newline() -> Node {
    make_raw("newline", "\n", vec!["newline".to_string()])
}

fn make_eof() -> Node {
    Node::Meta {
        meta_type: MetaType::EndOfFile,
        pos_marker: None,
block_uuid: None,
    }
}

fn make_literal(raw: &str) -> Node {
    Node::Raw {
        segment_class: "NumericLiteralSegment".to_string(),
        segment_type: "numeric_literal".to_string(),
class_type: "numeric_literal".to_string(),
        raw: raw.to_string(),
        pos_marker: None,
        instance_types: vec![
            "numeric_literal".to_string(),
            "literal".to_string(),
        ],
        class_types: Vec::new(),
segment_kwargs: RawSegmentKwargs::default(),
    }
}

fn make_comma() -> Node {
    Node::Raw {
        segment_class: "CommaSegment".to_string(),
        segment_type: "comma".to_string(),
class_type: "comma".to_string(),
        raw: ",".to_string(),
        pos_marker: None,
        instance_types: vec!["comma".to_string()],
        class_types: Vec::new(),
segment_kwargs: RawSegmentKwargs::default(),
    }
}

fn make_dot() -> Node {
    Node::Raw {
        segment_class: "DotSegment".to_string(),
        segment_type: "dot".to_string(),
class_type: "dot".to_string(),
        raw: ".".to_string(),
        pos_marker: None,
        instance_types: vec!["dot".to_string()],
        class_types: Vec::new(),
segment_kwargs: RawSegmentKwargs::default(),
    }
}

fn make_identifier(raw: &str) -> Node {
    Node::Raw {
        segment_class: "IdentifierSegment".to_string(),
        segment_type: "naked_identifier".to_string(),
class_type: "naked_identifier".to_string(),
        raw: raw.to_string(),
        pos_marker: None,
        instance_types: vec!["naked_identifier".to_string(), "identifier".to_string()],
        class_types: Vec::new(),
segment_kwargs: RawSegmentKwargs::default(),
    }
}

fn make_star() -> Node {
    Node::Raw {
        segment_class: "StarSegment".to_string(),
        segment_type: "star".to_string(),
class_type: "star".to_string(),
        raw: "*".to_string(),
        pos_marker: None,
        instance_types: vec!["star".to_string()],
        class_types: Vec::new(),
segment_kwargs: RawSegmentKwargs::default(),
    }
}

fn make_open_bracket() -> Node {
    Node::Raw {
        segment_class: "StartBracketSegment".to_string(),
        segment_type: "start_bracket".to_string(),
class_type: "start_bracket".to_string(),
        raw: "(".to_string(),
        pos_marker: None,
        instance_types: vec!["start_bracket".to_string()],
        class_types: Vec::new(),
segment_kwargs: RawSegmentKwargs::default(),
    }
}

fn make_close_bracket() -> Node {
    Node::Raw {
        segment_class: "EndBracketSegment".to_string(),
        segment_type: "end_bracket".to_string(),
class_type: "end_bracket".to_string(),
        raw: ")".to_string(),
        pos_marker: None,
        instance_types: vec!["end_bracket".to_string()],
        class_types: Vec::new(),
segment_kwargs: RawSegmentKwargs::default(),
    }
}

fn make_semicolon() -> Node {
    Node::Raw {
        segment_class: "StatementTerminatorSegment".to_string(),
        segment_type: "statement_terminator".to_string(),
class_type: "statement_terminator".to_string(),
        raw: ";".to_string(),
        pos_marker: None,
        instance_types: vec!["statement_terminator".to_string()],
        class_types: Vec::new(),
segment_kwargs: RawSegmentKwargs::default(),
    }
}

fn make_comparison_operator(raw: &str) -> Node {
    Node::Raw {
        segment_class: "ComparisonOperatorSegment".to_string(),
        segment_type: "comparison_operator".to_string(),
class_type: "comparison_operator".to_string(),
        raw: raw.to_string(),
        pos_marker: None,
        instance_types: vec!["comparison_operator".to_string()],
        class_types: Vec::new(),
segment_kwargs: RawSegmentKwargs::default(),
    }
}

#[allow(dead_code)]
fn make_binary_operator(raw: &str) -> Node {
    Node::Raw {
        segment_class: "BinaryOperatorSegment".to_string(),
        segment_type: "binary_operator".to_string(),
class_type: "binary_operator".to_string(),
        raw: raw.to_string(),
        pos_marker: None,
        instance_types: vec!["binary_operator".to_string()],
        class_types: Vec::new(),
segment_kwargs: RawSegmentKwargs::default(),
    }
}

fn make_file(children: Vec<Node>) -> Node {
    Node::Segment {
        segment_class: "FileSegment".to_string(),
        segment_type: Some("file".to_string()),
        pos_marker: None,
class_types: Vec::new(),
        children,
    }
}

fn make_statement(children: Vec<Node>) -> Node {
    Node::Segment {
        segment_class: "StatementSegment".to_string(),
        segment_type: Some("statement".to_string()),
        pos_marker: None,
class_types: Vec::new(),
        children,
    }
}

fn make_select_stmt(children: Vec<Node>) -> Node {
    Node::Segment {
        segment_class: "SelectStatementSegment".to_string(),
        segment_type: Some("select_statement".to_string()),
        pos_marker: None,
class_types: Vec::new(),
        children,
    }
}

fn make_select_clause(children: Vec<Node>) -> Node {
    Node::Segment {
        segment_class: "SelectClauseSegment".to_string(),
        segment_type: Some("select_clause".to_string()),
        pos_marker: None,
class_types: Vec::new(),
        children,
    }
}

fn make_from_clause(children: Vec<Node>) -> Node {
    Node::Segment {
        segment_class: "FromClauseSegment".to_string(),
        segment_type: Some("from_clause".to_string()),
        pos_marker: None,
class_types: Vec::new(),
        children,
    }
}

fn make_where_clause(children: Vec<Node>) -> Node {
    Node::Segment {
        segment_class: "WhereClauseSegment".to_string(),
        segment_type: Some("where_clause".to_string()),
        pos_marker: None,
class_types: Vec::new(),
        children,
    }
}

fn make_object_reference(children: Vec<Node>) -> Node {
    Node::Segment {
        segment_class: "ObjectReferenceSegment".to_string(),
        segment_type: Some("object_reference".to_string()),
        pos_marker: None,
class_types: Vec::new(),
        children,
    }
}

fn respace_violations(tree: &Node) -> Vec<String> {
    let config = ReflowConfig::default_ansi();
    let seq = ReflowSequence::from_root(tree, &config, &mut SegmentCounter::new()).respace();
    seq.violations.iter().map(|v| v.description.clone()).collect()
}

fn respace_has_violations(tree: &Node) -> bool {
    !respace_violations(tree).is_empty()
}


#[test]
fn lt01_pass_select_1_newline() {
    let tree = make_file(vec![
        make_statement(vec![make_select_stmt(vec![make_select_clause(vec![
            make_keyword("SELECT"),
            make_ws(" "),
            make_literal("1"),
        ])])]),
        make_newline(),
        make_eof(),
    ]);
    assert!(!respace_has_violations(&tree), "SELECT 1\\n should pass");
}

#[test]
fn lt01_fail_trailing_whitespace() {
    let tree = make_file(vec![
        make_statement(vec![make_select_stmt(vec![make_select_clause(vec![
            make_keyword("SELECT"),
            make_ws(" "),
            make_literal("1"),
        ])])]),
        make_ws("     "),
        make_newline(),
        make_eof(),
    ]);
    let violations = respace_violations(&tree);
    assert!(
        violations.iter().any(|v| v.contains("trailing whitespace")),
        "Expected trailing whitespace violation, got: {:?}",
        violations
    );
}

#[test]
fn lt01_fail_trailing_whitespace_on_initial_blank_line() {
    let tree = make_file(vec![
        make_ws(" "),
        make_newline(),
        make_statement(vec![make_select_stmt(vec![make_select_clause(vec![
            make_keyword("SELECT"),
            make_ws(" "),
            make_literal("1"),
        ])])]),
        make_ws("     "),
        make_newline(),
        make_eof(),
    ]);
    let violations = respace_violations(&tree);
    let trailing_count = violations
        .iter()
        .filter(|v| v.contains("trailing whitespace"))
        .count();
    assert!(
        trailing_count >= 2,
        "Expected at least 2 trailing ws violations, got {} in: {:?}",
        trailing_count,
        violations
    );
}


#[test]
fn lt01_pass_single_space() {
    let tree = make_file(vec![
        make_statement(vec![make_select_stmt(vec![make_select_clause(vec![
            make_keyword("SELECT"),
            make_ws(" "),
            make_literal("1"),
        ])])]),
        make_newline(),
        make_eof(),
    ]);
    assert!(
        !respace_has_violations(&tree),
        "Single space should not be flagged"
    );
}

#[test]
fn lt01_fail_double_space() {
    let tree = make_file(vec![
        make_statement(vec![make_select_stmt(vec![make_select_clause(vec![
            make_keyword("SELECT"),
            make_ws("  "),
            make_literal("1"),
        ])])]),
        make_newline(),
        make_eof(),
    ]);
    let violations = respace_violations(&tree);
    assert!(
        violations.iter().any(|v| v.contains("single space")),
        "Expected single space violation for double space, got: {:?}",
        violations
    );
}

#[test]
fn lt01_fail_many_spaces() {
    let tree = make_file(vec![
        make_statement(vec![make_select_stmt(vec![make_select_clause(vec![
            make_keyword("SELECT"),
            make_ws("     "),
            make_literal("1"),
        ])])]),
        make_newline(),
        make_eof(),
    ]);
    let violations = respace_violations(&tree);
    assert!(
        violations.iter().any(|v| v.contains("single space")),
        "Expected single space violation for many spaces, got: {:?}",
        violations
    );
}


#[test]
fn lt01_pass_comma_correct() {
    let tree = make_file(vec![
        make_statement(vec![make_select_stmt(vec![make_select_clause(vec![
            make_keyword("SELECT"),
            make_ws(" "),
            make_literal("1"),
            make_comma(),
            make_ws(" "),
            make_literal("2"),
        ])])]),
        make_newline(),
        make_eof(),
    ]);
    assert!(
        !respace_has_violations(&tree),
        "Correct comma spacing should pass"
    );
}

#[test]
fn lt01_fail_space_before_comma() {
    let tree = make_file(vec![
        make_statement(vec![make_select_stmt(vec![make_select_clause(vec![
            make_keyword("SELECT"),
            make_ws(" "),
            make_literal("1"),
            make_ws(" "),
            make_comma(),
            make_ws(" "),
            make_literal("2"),
        ])])]),
        make_newline(),
        make_eof(),
    ]);
    let violations = respace_violations(&tree);
    assert!(
        violations.iter().any(|v| v.contains("Unexpected whitespace")),
        "Expected touch violation before comma, got: {:?}",
        violations
    );
}

#[test]
fn lt01_fail_no_space_after_comma() {
    let tree = make_file(vec![
        make_statement(vec![make_select_stmt(vec![make_select_clause(vec![
            make_keyword("SELECT"),
            make_ws(" "),
            make_literal("1"),
            make_comma(),
            make_literal("2"),
        ])])]),
        make_newline(),
        make_eof(),
    ]);
    let violations = respace_violations(&tree);
    assert!(
        violations
            .iter()
            .any(|v| v.contains("Expected single whitespace")),
        "Expected missing space after comma, got: {:?}",
        violations
    );
}

#[test]
fn lt01_fail_multiple_spaces_after_comma() {
    let tree = make_file(vec![
        make_statement(vec![make_select_stmt(vec![make_select_clause(vec![
            make_keyword("SELECT"),
            make_ws(" "),
            make_literal("1"),
            make_comma(),
            make_ws("  "),
            make_literal("2"),
        ])])]),
        make_newline(),
        make_eof(),
    ]);
    let violations = respace_violations(&tree);
    assert!(
        violations.iter().any(|v| v.contains("single space")),
        "Expected single space violation after comma, got: {:?}",
        violations
    );
}


#[test]
fn lt01_pass_comparison_operator_correct() {
    let tree = make_file(vec![
        make_statement(vec![make_select_stmt(vec![
            make_select_clause(vec![
                make_keyword("SELECT"),
                make_ws(" "),
                make_literal("1"),
            ]),
            make_ws(" "),
            make_where_clause(vec![
                make_keyword("WHERE"),
                make_ws(" "),
                make_literal("1"),
                make_ws(" "),
                make_comparison_operator("="),
                make_ws(" "),
                make_literal("1"),
            ]),
        ])]),
        make_newline(),
        make_eof(),
    ]);
    assert!(
        !respace_has_violations(&tree),
        "Correct operator spacing should pass"
    );
}

#[test]
fn lt01_fail_no_space_around_operator() {
    let tree = make_file(vec![
        make_statement(vec![make_select_stmt(vec![
            make_select_clause(vec![
                make_keyword("SELECT"),
                make_ws(" "),
                make_literal("1"),
            ]),
            make_ws(" "),
            make_where_clause(vec![
                make_keyword("WHERE"),
                make_ws(" "),
                make_literal("1"),
                make_comparison_operator("="),
                make_literal("1"),
            ]),
        ])]),
        make_newline(),
        make_eof(),
    ]);
    let violations = respace_violations(&tree);
    assert!(
        violations.len() >= 2,
        "Expected at least 2 violations for missing spaces around =, got: {:?}",
        violations
    );
}


#[test]
fn lt01_pass_brackets_touch() {
    let tree = make_file(vec![
        make_statement(vec![make_select_stmt(vec![make_select_clause(vec![
            make_keyword("SELECT"),
            make_ws(" "),
            make_open_bracket(),
            make_literal("1"),
            make_close_bracket(),
        ])])]),
        make_newline(),
        make_eof(),
    ]);
    assert!(
        !respace_has_violations(&tree),
        "Bracket touch spacing should pass"
    );
}

#[test]
fn lt01_fail_space_after_open_bracket() {
    let tree = make_file(vec![
        make_statement(vec![make_select_stmt(vec![make_select_clause(vec![
            make_keyword("SELECT"),
            make_ws(" "),
            make_open_bracket(),
            make_ws(" "),
            make_literal("1"),
            make_close_bracket(),
        ])])]),
        make_newline(),
        make_eof(),
    ]);
    let violations = respace_violations(&tree);
    assert!(
        violations.iter().any(|v| v.contains("Unexpected whitespace")),
        "Expected touch violation after (, got: {:?}",
        violations
    );
}

#[test]
fn lt01_fail_space_before_close_bracket() {
    let tree = make_file(vec![
        make_statement(vec![make_select_stmt(vec![make_select_clause(vec![
            make_keyword("SELECT"),
            make_ws(" "),
            make_open_bracket(),
            make_literal("1"),
            make_ws(" "),
            make_close_bracket(),
        ])])]),
        make_newline(),
        make_eof(),
    ]);
    let violations = respace_violations(&tree);
    assert!(
        violations.iter().any(|v| v.contains("Unexpected whitespace")),
        "Expected touch violation before ), got: {:?}",
        violations
    );
}


#[test]
fn lt01_pass_dot_touch() {
    let tree = make_file(vec![
        make_statement(vec![make_select_stmt(vec![make_select_clause(vec![
            make_keyword("SELECT"),
            make_ws(" "),
            make_object_reference(vec![
                make_identifier("a"),
                make_dot(),
                make_identifier("b"),
            ]),
        ])])]),
        make_newline(),
        make_eof(),
    ]);
    assert!(
        !respace_has_violations(&tree),
        "Dot touch spacing should pass"
    );
}

#[test]
fn lt01_fail_space_around_dot() {
    let tree = make_file(vec![
        make_statement(vec![make_select_stmt(vec![make_select_clause(vec![
            make_keyword("SELECT"),
            make_ws(" "),
            make_object_reference(vec![
                make_identifier("a"),
                make_ws(" "),
                make_dot(),
                make_ws(" "),
                make_identifier("b"),
            ]),
        ])])]),
        make_newline(),
        make_eof(),
    ]);
    let violations = respace_violations(&tree);
    assert!(
        violations.len() >= 2,
        "Expected at least 2 violations for spaces around dot, got: {:?}",
        violations
    );
}


#[test]
fn lt01_fail_no_space_after_select() {
    let tree = make_file(vec![
        make_statement(vec![make_select_stmt(vec![make_select_clause(vec![
            make_keyword("SELECT"),
            make_literal("1"),
        ])])]),
        make_newline(),
        make_eof(),
    ]);
    let violations = respace_violations(&tree);
    assert!(
        violations
            .iter()
            .any(|v| v.contains("Expected single whitespace")),
        "Expected missing space violation, got: {:?}",
        violations
    );
}


#[test]
fn lt01_pass_semicolon_touch() {
    let tree = make_file(vec![
        make_statement(vec![make_select_stmt(vec![make_select_clause(vec![
            make_keyword("SELECT"),
            make_ws(" "),
            make_literal("1"),
        ])])]),
        make_semicolon(),
        make_newline(),
        make_eof(),
    ]);
    assert!(
        !respace_has_violations(&tree),
        "Semicolon touch should pass"
    );
}

#[test]
fn lt01_fail_space_before_semicolon() {
    let tree = make_file(vec![
        make_statement(vec![make_select_stmt(vec![make_select_clause(vec![
            make_keyword("SELECT"),
            make_ws(" "),
            make_literal("1"),
        ])])]),
        make_ws(" "),
        make_semicolon(),
        make_newline(),
        make_eof(),
    ]);
    let violations = respace_violations(&tree);
    assert!(
        violations.iter().any(|v| v.contains("Unexpected whitespace")),
        "Expected touch violation before semicolon, got: {:?}",
        violations
    );
}


#[test]
fn lt01_fail_trailing_whitespace_at_eof() {
    let tree = make_file(vec![
        make_statement(vec![make_select_stmt(vec![make_select_clause(vec![
            make_keyword("SELECT"),
            make_ws(" "),
            make_literal("1"),
        ])])]),
        make_newline(),
        make_ws("   "),
        make_eof(),
    ]);
    let violations = respace_violations(&tree);
    assert!(
        violations
            .iter()
            .any(|v| v.contains("end of file") || v.contains("trailing")),
        "Expected trailing ws at EOF violation, got: {:?}",
        violations
    );
}


#[test]
fn lt01_fix_type_delete_for_trailing_ws() {
    let tree = make_file(vec![
        make_statement(vec![make_select_stmt(vec![make_select_clause(vec![
            make_keyword("SELECT"),
            make_ws(" "),
            make_literal("1"),
        ])])]),
        make_ws("     "),
        make_newline(),
        make_eof(),
    ]);
    let config = ReflowConfig::default_ansi();
    let seq = ReflowSequence::from_root(&tree, &config, &mut SegmentCounter::new()).respace();
    assert!(
        seq.violations.iter().any(|v| v.fix_type == FixType::Delete),
        "Trailing ws should produce a Delete fix"
    );
}

#[test]
fn lt01_fix_type_replace_for_excess_space() {
    let tree = make_file(vec![
        make_statement(vec![make_select_stmt(vec![make_select_clause(vec![
            make_keyword("SELECT"),
            make_ws("  "),
            make_literal("1"),
        ])])]),
        make_newline(),
        make_eof(),
    ]);
    let config = ReflowConfig::default_ansi();
    let seq = ReflowSequence::from_root(&tree, &config, &mut SegmentCounter::new()).respace();
    assert!(
        seq.violations
            .iter()
            .any(|v| matches!(v.fix_type, FixType::Replace { .. })),
        "Excess space should produce a Replace fix"
    );
}

#[test]
fn lt01_fix_type_create_for_missing_space() {
    let tree = make_file(vec![
        make_statement(vec![make_select_stmt(vec![make_select_clause(vec![
            make_keyword("SELECT"),
            make_literal("1"),
        ])])]),
        make_newline(),
        make_eof(),
    ]);
    let config = ReflowConfig::default_ansi();
    let seq = ReflowSequence::from_root(&tree, &config, &mut SegmentCounter::new()).respace();
    let has_create = seq.violations.iter().any(|v| {
        matches!(
            v.fix_type,
            FixType::CreateAfter { .. } | FixType::CreateBefore { .. }
        )
    });
    assert!(has_create, "Missing space should produce a Create fix");
}


#[test]
fn lt01_pass_select_star_from_table() {
    let tree = make_file(vec![
        make_statement(vec![make_select_stmt(vec![
            make_select_clause(vec![
                make_keyword("SELECT"),
                make_ws(" "),
                make_star(),
            ]),
            make_ws(" "),
            make_from_clause(vec![
                make_keyword("FROM"),
                make_ws(" "),
                make_identifier("t"),
            ]),
        ])]),
        make_newline(),
        make_eof(),
    ]);
    assert!(
        !respace_has_violations(&tree),
        "SELECT * FROM t should pass"
    );
}

#[test]
fn lt01_fail_multiple_issues() {
    let tree = make_file(vec![
        make_statement(vec![make_select_stmt(vec![make_select_clause(vec![
            make_keyword("SELECT"),
            make_ws("  "),
            make_literal("1"),
            make_ws(" "),
            make_comma(),
            make_literal("2"),
        ])])]),
        make_newline(),
        make_eof(),
    ]);
    let violations = respace_violations(&tree);
    assert!(
        violations.len() >= 2,
        "Expected multiple violations, got {} : {:?}",
        violations.len(),
        violations
    );
}

#[test]
fn lt01_pass_multiline_correct() {
    let tree = make_file(vec![
        make_statement(vec![make_select_stmt(vec![make_select_clause(vec![
            make_keyword("SELECT"),
            make_newline(),
            make_ws("    "),
            make_literal("1"),
            make_comma(),
            make_newline(),
            make_ws("    "),
            make_literal("2"),
        ])])]),
        make_newline(),
        make_eof(),
    ]);
    assert!(
        !respace_has_violations(&tree),
        "Multiline correct spacing should pass"
    );
}
