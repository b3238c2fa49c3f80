//! Tests of re-validation.

use sqlfluffrs::arena::Arena;
use sqlfluffrs::kind::{MetaType, RawSegmentKwargs};
use sqlfluffrs::marker::Slice;
use sqlfluffrs::match_result::MatchResult;
use sqlfluffrs::node::Node;
use sqlfluffrs::revalidate::RevalidateOutcome;
use sqlfluffrs::token::Token;

/// Whether a class has a grammar: only function names have one here.
fn has_grammar(class: &str) -> bool {
    class == "FunctionNameSegment"
}

/// Any number of identifiers with a dot behind each, then a word.
fn rematch(_class: &str, tokens: &Vec<Token>) -> Option<MatchResult> {
    let typed = |i: usize, t: &str| i < tokens.len() && tokens[i].class_types.iter().any(|c| c == t);
    let mut i = 0;
    while typed(i, "identifier") && i + 1 < tokens.len() && tokens[i + 1].raw == "." {
        i += 2;
    }
    if typed(i, "word") {
        Some(MatchResult {
            matched_slice: Slice { start: 0, stop: i + 1 },
            unparsable: false,
        })
    } else {
        Some(MatchResult::empty_at(0))
    }
}

fn leaf(
    class: &str,
    ty: &str,
    text: &str,
    instance: &[&str],
    class_hierarchy: &[&str],
) -> Node {
    Node::new_raw_with_class_types(
        class.to_string(),
        ty.to_string(),
        ty.to_string(),
        text.to_string(),
        None,
        instance.iter().map(|s| s.to_string()).collect(),
        &class_hierarchy
            .iter()
            .map(|s| s.to_string())
            .collect::<Vec<_>>(),
        RawSegmentKwargs::default(),
    )
}

fn function_name(children: Vec<Node>) -> Node {
    Node::Segment {
        segment_class: "FunctionNameSegment".into(),
        segment_type: Some("function_name".into()),
        pos_marker: None,
        class_types: vec!["function_name".to_string()],
        children,
    }
}

#[test]
fn naked_identifier_in_function_name_is_invalid() {
    let tree = function_name(vec![leaf(
        "NakedIdentifierSegment",
        "naked_identifier",
        "foo",
        &["naked_identifier"],
        &["identifier", "raw", "base"],
    )]);
    let arena = Arena::from_node(&tree);
    assert_eq!(
        arena.revalidate_container(arena.root(), &has_grammar, &rematch),
        RevalidateOutcome::Invalid,
    );
}

#[test]
fn function_name_identifier_word_is_valid() {
    let tree = function_name(vec![leaf(
        "WordSegment",
        "function_name_identifier",
        "foo",
        &["function_name_identifier"],
        &["word", "raw", "base"],
    )]);
    let arena = Arena::from_node(&tree);
    assert_eq!(
        arena.revalidate_container(arena.root(), &has_grammar, &rematch),
        RevalidateOutcome::Valid,
    );
}

#[test]
fn unknown_segment_class_is_skipped() {
    let tree = Node::Segment {
        segment_class: "NoSuchSegmentXyz".into(),
        segment_type: Some("no_such".into()),
        pos_marker: None,
        class_types: vec!["no_such".to_string()],
        children: vec![leaf(
            "WordSegment",
            "function_name_identifier",
            "foo",
            &["function_name_identifier"],
            &["word", "raw", "base"],
        )],
    };
    let arena = Arena::from_node(&tree);
    assert_eq!(
        arena.revalidate_container(arena.root(), &has_grammar, &rematch),
        RevalidateOutcome::Skipped,
    );
}

#[test]
fn raw_leaf_without_grammar_is_skipped() {
    let tree = leaf("RawSegment", "raw", "x", &["raw"], &["raw", "base"]);
    let arena = Arena::from_node(&tree);
    assert_eq!(
        arena.revalidate_container(arena.root(), &has_grammar, &rematch),
        RevalidateOutcome::Skipped,
    );
}

#[test]
fn metas_and_trailing_noncode_are_trimmed() {
    let tree = function_name(vec![
        Node::Meta {
            meta_type: MetaType::Indent { is_implicit: false },
            pos_marker: None,
            block_uuid: None,
        },
        leaf(
            "WordSegment",
            "function_name_identifier",
            "foo",
            &["function_name_identifier"],
            &["word", "raw", "base"],
        ),
        leaf(
            "WhitespaceSegment",
            "whitespace",
            " ",
            &["whitespace"],
            &["whitespace", "raw", "base"],
        ),
    ]);
    let arena = Arena::from_node(&tree);
    assert_eq!(
        arena.revalidate_container(arena.root(), &has_grammar, &rematch),
        RevalidateOutcome::Valid,
    );
}

#[test]
fn qualified_function_name_is_valid() {
    let tree = function_name(vec![
        leaf(
            "NakedIdentifierSegment",
            "naked_identifier",
            "schema",
            &["naked_identifier"],
            &["identifier", "raw", "base"],
        ),
        leaf("SymbolSegment", "dot", ".", &["dot"], &["symbol", "raw", "base"]),
        leaf(
            "WordSegment",
            "function_name_identifier",
            "foo",
            &["function_name_identifier"],
            &["word", "raw", "base"],
        ),
    ]);
    let arena = Arena::from_node(&tree);
    assert_eq!(
        arena.revalidate_container(arena.root(), &has_grammar, &rematch),
        RevalidateOutcome::Valid,
    );
}
