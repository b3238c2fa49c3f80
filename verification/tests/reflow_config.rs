//! Tests of the reflow configuration, the depth map and the respace steps.

use sqlfluffrs::kind::{MetaType, RawSegmentKwargs};
use sqlfluffrs::node::Node;
use sqlfluffrs::reflow::config::{ConfigDictType, ReflowConfig};
use sqlfluffrs::reflow::depthmap::{to_snake_case, DepthMap, SegmentCounter};
use sqlfluffrs::reflow::respace::{
    determine_constraints, handle_inline_with_space, handle_inline_without_space, process_spacing,
    unpack_constraint, Constraint, FixType,
};

#[test]
fn test_default_config_has_comma() {
    let cfg = ReflowConfig::default_ansi();
    assert!(cfg.config_types.contains("comma"));
    let bc = cfg.get_block_config(&["comma".to_string()], None);
    assert_eq!(bc.spacing_before, "touch");
    assert_eq!(bc.spacing_after, "single");
}

#[test]
fn test_default_config_dot() {
    let cfg = ReflowConfig::default_ansi();
    let bc = cfg.get_block_config(&["dot".to_string()], None);
    assert_eq!(bc.spacing_before, "touch");
    assert_eq!(bc.spacing_after, "touch");
}

#[test]
fn test_default_config_end_of_file() {
    let cfg = ReflowConfig::default_ansi();
    let bc = cfg.get_block_config(&["end_of_file".to_string()], None);
    assert_eq!(bc.spacing_before, "touch");
}

#[test]
fn test_unconfigured_type_defaults_single() {
    let cfg = ReflowConfig::default_ansi();
    let bc = cfg.get_block_config(&["some_random_type".to_string()], None);
    assert_eq!(bc.spacing_before, "single");
    assert_eq!(bc.spacing_after, "single");
}

#[test]
fn test_to_snake_case() {
    assert_eq!(to_snake_case("SelectStatementSegment"), "select_statement");
    assert_eq!(to_snake_case("KeywordSegment"), "keyword");
    assert_eq!(to_snake_case("FromClauseSegment"), "from_clause");
}

fn make_raw(seg_type: &str, raw: &str, instance_types: Vec<String>) -> Node {
    Node::Raw {
        segment_class: format!("{}Segment", seg_type),
        segment_type: seg_type.to_string(),
class_type: seg_type.to_string(),
        raw: raw.to_string(),
        pos_marker: None,
        instance_types,
        class_types: Vec::new(),
segment_kwargs: RawSegmentKwargs::default(),
    }
}

#[test]
fn test_depth_map_simple() {
    let tree = Node::Segment {
        segment_class: "FileSegment".to_string(),
        segment_type: Some("file".to_string()),
        pos_marker: None,
class_types: Vec::new(),
        children: vec![
            Node::Segment {
                segment_class: "StatementSegment".to_string(),
                segment_type: Some("statement".to_string()),
                pos_marker: None,
class_types: Vec::new(),
                children: vec![
                    Node::Segment {
                        segment_class: "SelectStatementSegment".to_string(),
                        segment_type: Some("select_statement".to_string()),
                        pos_marker: None,
class_types: Vec::new(),
                        children: vec![
                            Node::Segment {
                                segment_class: "SelectClauseSegment".to_string(),
                                segment_type: Some("select_clause".to_string()),
                                pos_marker: None,
class_types: Vec::new(),
                                children: vec![
                                    make_raw(
                                        "keyword",
                                        "SELECT",
                                        vec!["keyword".to_string()],
                                    ),
                                    make_raw(
                                        "whitespace",
                                        " ",
                                        vec!["whitespace".to_string()],
                                    ),
                                    make_raw(
                                        "numeric_literal",
                                        "1",
                                        vec![
                                            "numeric_literal".to_string(),
                                            "literal".to_string(),
                                        ],
                                    ),
                                ],
                            },
                        ],
                    },
                ],
            },
            Node::Meta {
                meta_type: MetaType::EndOfFile,
                pos_marker: None,
block_uuid: None,
            },
        ],
    };

    let config = ReflowConfig::from_dict(ConfigDictType::new());
    let (dm, raws) = DepthMap::from_node(&tree, &config, &mut SegmentCounter::new());
    assert_eq!(raws.len(), 4);
    assert_eq!(raws[0].raw, "SELECT");
    assert_eq!(raws[1].raw, " ");
    assert_eq!(raws[2].raw, "1");
    assert_eq!(raws[3].segment_type, "end_of_file");

    let di = dm.get_depth_info(0).unwrap();
    assert_eq!(di.stack_depth, 4);

    let di_ws = dm.get_depth_info(1).unwrap();
    assert_eq!(di_ws.stack_depth, 4);

    let common = di.common_with(di_ws);
    assert_eq!(common.len(), 4);
}

#[test]
fn test_unpack_constraint_simple() {
    let (c, sn) = unpack_constraint("single", false);
    assert_eq!(c, Constraint::Single);
    assert!(!sn);
}

#[test]
fn test_unpack_constraint_touch_inline() {
    let (c, sn) = unpack_constraint("touch:inline", false);
    assert_eq!(c, Constraint::Touch);
    assert!(sn);
}

#[test]
fn test_unpack_constraint_align() {
    let (c, sn) = unpack_constraint("align:keyword:select_clause", false);
    assert_eq!(
        c,
        Constraint::Align("align:keyword:select_clause".to_string())
    );
    assert!(!sn);
}

#[test]
fn test_determine_constraints_no_blocks() {
    let (pre, post, sn) = determine_constraints(None, None, false);
    assert_eq!(pre, Constraint::Single);
    assert_eq!(post, Constraint::Single);
    assert!(!sn);
}

#[test]
fn test_process_spacing_trailing_ws() {
    let types = vec![
        "whitespace".to_string(),
        "newline".to_string(),
    ];
    let raws = vec![" ".to_string(), "\n".to_string()];
    let indices = vec![0, 1];
    let is_literals = vec![true, true];
    let (out_types, out_raws, _, _, violations) =
        process_spacing(&types, &raws, &indices, &is_literals, false);
    assert_eq!(out_types, vec!["newline"]);
    assert_eq!(out_raws, vec!["\n"]);
    assert_eq!(violations.len(), 1);
    assert_eq!(
        violations[0].description,
        "Unnecessary trailing whitespace."
    );
}

#[test]
fn test_process_spacing_non_literal_newline_skipped() {
    let types = vec![
        "whitespace".to_string(),
        "newline".to_string(),
    ];
    let raws = vec!["        ".to_string(), "\n".to_string()];
    let indices = vec![0, 1];
    let is_literals = vec![true, false];
    let (out_types, out_raws, _, _, violations) =
        process_spacing(&types, &raws, &indices, &is_literals, false);
    assert!(violations.is_empty(), "Expected no violations, got: {violations:?}");
    assert_eq!(out_types, vec!["whitespace", "newline"]);
    assert_eq!(out_raws, vec!["        ", "\n"]);
}

#[test]
fn test_inline_with_space_touch() {
    let violations =
        handle_inline_with_space(&Constraint::Touch, &Constraint::Single, None, " ", 0);
    assert_eq!(violations.len(), 1);
    assert_eq!(violations[0].fix_type, FixType::Delete);
}

#[test]
fn test_inline_with_space_single_ok() {
    let violations =
        handle_inline_with_space(&Constraint::Single, &Constraint::Single, None, " ", 0);
    assert!(violations.is_empty());
}

#[test]
fn test_inline_with_space_excess() {
    let violations =
        handle_inline_with_space(&Constraint::Single, &Constraint::Single, None, "  ", 0);
    assert_eq!(violations.len(), 1);
    assert!(violations[0].description.contains("Expected only single space"));
}

#[test]
fn test_inline_without_space_touch() {
    let violations =
        handle_inline_without_space(&Constraint::Touch, &Constraint::Single, None, None);
    assert!(violations.is_empty());
}

#[test]
fn test_inline_without_space_single() {
    let violations =
        handle_inline_without_space(&Constraint::Single, &Constraint::Single, None, None);
    assert!(violations.is_empty());
}
