//! Concrete instances of the laws, and edge cases of the pieces behind them.

use std::sync::Arc;

use sqlfluffrs::arena::state::NodeId;
use sqlfluffrs::arena::{Arena, MINTED};
use sqlfluffrs::edit::{EditKind, EditOp, NodeSpec, SpecKind};
use sqlfluffrs::frame::{FrameContext, FrameState, GrammarId, GrammarVariant, OneOfState, SequenceState};
use sqlfluffrs::kind::{CaseFold, MetaType, RawSegmentKwargs};
use sqlfluffrs::marker::{PositionMarker, RawSlice, Slice, TemplatedFile};
use sqlfluffrs::match_result::MatchResult;
use sqlfluffrs::node::Node;
use sqlfluffrs::reflow::config::{BlockConfig, ConfigDictType, ConfigElementType, ReflowConfig};
use sqlfluffrs::reflow::depthmap::{to_snake_case, DepthMap, SegmentCounter};
use sqlfluffrs::reflow::elements::{ReflowElement, ReflowPoint};
use sqlfluffrs::reflow::lookup::{TextMap, TypeSet};
use sqlfluffrs::reflow::respace::{
    handle_inline_with_space, pretty_segment_name, process_spacing, unpack_constraint, Constraint,
    FixType,
};
use sqlfluffrs::reflow::sequence::ReflowSequence;
use sqlfluffrs::revalidate::{revalidate_leaf_descriptors, LeafDescriptor, RevalidateOutcome};
use sqlfluffrs::table_driven::{TableFrameResult, TableParseFrame, TableParseFrameStack};
use sqlfluffrs::token::{compute_bracket_pairs, token_text, Token};

fn strings(list: &[&str]) -> Vec<String> {
    list.iter().map(|s| s.to_string()).collect()
}

fn raw(ty: &str, text: &str) -> Node {
    Node::new_raw(
        format!("{}Segment", ty),
        ty.to_string(),
        text.to_string(),
        None,
        strings(&[ty]),
        RawSegmentKwargs::default(),
    )
}

fn segment(class: &str, ty: &str, children: Vec<Node>) -> Node {
    Node::Segment {
        segment_class: class.to_string(),
        segment_type: Some(ty.to_string()),
        pos_marker: None,
        class_types: strings(&[ty]),
        children,
    }
}

fn meta(meta_type: MetaType) -> Node {
    Node::Meta {
        meta_type,
        pos_marker: None,
        block_uuid: None,
    }
}

fn tree() -> Node {
    segment(
        "FileSegment",
        "file",
        vec![
            segment(
                "SelectClauseSegment",
                "select_clause",
                vec![raw("keyword", "SELECT"), raw("whitespace", " "), raw("literal", "1")],
            ),
            raw("newline", "\n"),
            meta(MetaType::EndOfFile),
        ],
    )
}

fn spec(uuid: u128, ty: &str, text: &str) -> NodeSpec {
    NodeSpec {
        uuid,
        marker: None,
        kind: SpecKind::Raw {
            segment_class: "RawSegment".to_string(),
            segment_type: ty.to_string(),
            class_type: ty.to_string(),
            raw: text.to_string(),
            instance_types: Vec::new(),
            class_types: strings(&[ty]),
            kwargs: RawSegmentKwargs::default(),
        },
        source_fixes: Vec::new(),
        children: Vec::new(),
    }
}

fn leaf(arena: &Arena, text: &str) -> NodeId {
    *arena
        .raw_segments(arena.root())
        .iter()
        .find(|&&l| arena.raw(l) == text)
        .expect("leaf found")
}

fn edit(anchor: u128, kind: EditKind, edits: Vec<NodeSpec>) -> EditOp {
    EditOp {
        anchor_uuid: anchor,
        kind,
        edits,
    }
}

// The arena.

#[test]
fn committing_brings_what_staging_predicted() {
    let mut arena = Arena::from_node(&tree());
    let one = arena.uuid(leaf(&arena, "1"));
    let space = arena.uuid(leaf(&arena, " "));
    let summary = arena.stage_edit_batch(
        vec![
            edit(one, EditKind::Replace, vec![spec(11, "literal", "22")]),
            edit(space, EditKind::Replace, vec![spec(12, "whitespace", "  ")]),
        ],
        false,
    );
    assert_eq!(summary.applied, 2);
    assert_eq!(arena.commit_staged(), Some(1));
    assert_eq!(arena.raw(arena.root()), summary.staged_raw);
    assert_eq!(summary.staged_raw, "SELECT  22\n");
    assert_eq!(arena.node_source_fixes(arena.root()), summary.staged_source_fixes);
}

#[test]
fn committing_nothing_gives_nothing() {
    let mut arena = Arena::from_node(&tree());
    assert_eq!(arena.commit_staged(), None);
    assert_eq!(arena.epoch(), 0);
}

#[test]
fn nodes_keep_their_ids_over_a_commit() {
    let mut arena = Arena::from_node(&tree());
    let n = arena.len();
    let keyword = leaf(&arena, "SELECT");
    let uuid = arena.uuid(keyword);
    let space = leaf(&arena, " ");
    let space_uuid = arena.uuid(space);
    arena.stage_edit_batch(vec![edit(space_uuid, EditKind::Delete, vec![])], false);
    arena.commit_staged();
    assert_eq!(arena.len(), n);
    assert_eq!(arena.uuid(keyword), uuid);
    assert_eq!(arena.raw(keyword), "SELECT");
    assert_eq!(arena.node_by_uuid(uuid), Some(keyword));
    assert_eq!(arena.uuid(space), space_uuid);
    assert_eq!(arena.raw(space), " ");
    assert!(arena.is_detached(space));
}

#[test]
fn a_retired_uuid_is_not_given_again() {
    let mut arena = Arena::from_node(&tree());
    let space_uuid = arena.uuid(leaf(&arena, " "));
    arena.stage_edit_batch(vec![edit(space_uuid, EditKind::Delete, vec![])], false);
    arena.commit_staged();
    let id = arena.ingest_spec(&spec(space_uuid, "whitespace", " "), None, 0);
    assert_ne!(arena.uuid(id), space_uuid);
    assert_eq!(arena.node_by_uuid(space_uuid), None);
}

#[test]
fn links_agree_after_edits() {
    let mut arena = Arena::from_node(&tree());
    let one = arena.uuid(leaf(&arena, "1"));
    arena.stage_edit_batch(
        vec![edit(
            one,
            EditKind::Replace,
            vec![spec(31, "literal", "a"), spec(32, "symbol", "+"), spec(33, "literal", "b")],
        )],
        false,
    );
    arena.commit_staged();
    for id in arena.recursive_crawl_all(arena.root()) {
        for (i, &c) in arena.children(id).iter().enumerate() {
            assert_eq!(arena.get_parent(c), Some((id, i)));
        }
    }
    assert_eq!(arena.raw(arena.root()), "SELECT a+b\n");
}

#[test]
fn text_of_a_node_is_that_of_its_leaves() {
    let arena = Arena::from_node(&tree());
    let joined: String = arena
        .raw_segments(arena.root())
        .iter()
        .map(|&l| arena.raw(l))
        .collect();
    assert_eq!(joined, arena.raw(arena.root()));
}

#[test]
fn crawling_finds_every_node_of_the_type() {
    let arena = Arena::from_node(&tree());
    let root = arena.root();
    let found = arena.recursive_crawl(root, &strings(&["raw"]), true, &[], true);
    let all = arena.recursive_crawl_all(root);
    let wanted: Vec<NodeId> = all.into_iter().filter(|&n| arena.is_type(n, "raw")).collect();
    assert_eq!(found, wanted);
}

#[test]
fn a_node_that_stops_the_crawl_is_still_found() {
    let arena = Arena::from_node(&tree());
    let root = arena.root();
    let clause = arena.children(root)[0];
    let stop = strings(&["select_clause"]);
    assert_eq!(arena.recursive_crawl(root, &stop, true, &stop, true), vec![clause]);
    let found = arena.recursive_crawl(root, &strings(&["select_clause", "newline"]), true, &stop, true);
    assert_eq!(found, vec![clause, leaf(&arena, "\n")]);
    let below = arena.recursive_crawl(clause, &strings(&["keyword"]), true, &stop, true);
    assert_eq!(below, vec![leaf(&arena, "SELECT")]);
    assert!(arena.recursive_crawl(root, &strings(&["keyword"]), true, &stop, true).is_empty());
}

#[test]
fn parsed_nodes_have_minted_uuids() {
    let mut arena = Arena::from_node(&tree());
    for id in arena.recursive_crawl_all(arena.root()) {
        assert!(arena.uuid(id) >= MINTED);
    }
    let one = arena.uuid(leaf(&arena, "1"));
    let brought = (1u128 << 120) | 7;
    arena.stage_edit_batch(
        vec![edit(one, EditKind::Replace, vec![spec(brought, "literal", "2")])],
        false,
    );
    arena.commit_staged();
    assert_eq!(arena.node_by_uuid(brought), Some(leaf(&arena, "2")));
}

#[test]
fn only_a_duplicate_uuid_is_minted_anew() {
    let mut arena = Arena::from_node(&tree());
    let one = arena.uuid(leaf(&arena, "1"));
    let space = arena.uuid(leaf(&arena, " "));
    arena.stage_edit_batch(
        vec![edit(
            one,
            EditKind::Replace,
            vec![
                spec(41, "literal", "a"),
                spec(42, "literal", "b"),
                spec(41, "literal", "c"),
                spec(space, "literal", "d"),
            ],
        )],
        false,
    );
    arena.commit_staged();
    assert_eq!(arena.node_by_uuid(42), Some(leaf(&arena, "b")));
    let kept = arena.node_by_uuid(41).unwrap();
    let (a, c) = (leaf(&arena, "a"), leaf(&arena, "c"));
    assert!(kept == a || kept == c);
    assert!(arena.uuid(if kept == a { c } else { a }) >= MINTED);
    assert_eq!(arena.node_by_uuid(space), Some(leaf(&arena, " ")));
    assert!(arena.uuid(leaf(&arena, "d")) >= MINTED);
}

#[test]
fn edits_follow_one_another() {
    let mut arena = Arena::from_node(&tree());
    let root = arena.root();
    let clause = arena.children(root)[0];
    let batches = vec![
        edit(arena.uuid(leaf(&arena, "1")), EditKind::Replace, vec![spec(51, "literal", "2")]),
        edit(51, EditKind::CreateAfter, vec![spec(52, "literal", "3")]),
        edit(arena.uuid(clause), EditKind::Delete, vec![]),
        edit(arena.uuid(leaf(&arena, "\n")), EditKind::CreateBefore, vec![spec(53, "word", "x")]),
    ];
    let mut size = arena.len();
    for (i, op) in batches.into_iter().enumerate() {
        let summary = arena.stage_edit_batch(vec![op], false);
        assert_eq!(arena.commit_staged(), Some(i as u64 + 1));
        assert_eq!(arena.raw(root), summary.staged_raw);
        assert!(arena.len() >= size);
        size = arena.len();
        for id in arena.recursive_crawl_all(root) {
            assert_eq!(arena.node_by_uuid(arena.uuid(id)), Some(id));
            for (place, &c) in arena.children(id).iter().enumerate() {
                assert_eq!(arena.get_parent(c), Some((id, place)));
            }
        }
    }
    assert_eq!(arena.raw(root), "x\n");
    assert_eq!(arena.get_parent(clause), None);
    assert_eq!(arena.raw(clause), "SELECT 23");
    assert_eq!(arena.node_by_uuid(arena.uuid(clause)), None);
    assert_eq!(arena.node_by_uuid(51), None);
}

#[test]
fn paths_lead_where_they_say() {
    let arena = Arena::from_node(&tree());
    let root = arena.root();
    let one = leaf(&arena, "1");
    let path = arena.path_to(root, one);
    assert_eq!(path.len(), 2);
    let mut at = root;
    for step in &path {
        assert_eq!(step.node, at);
        at = arena.children(step.node)[step.idx];
    }
    assert_eq!(at, one);
    assert_eq!(arena.path_to(one, root).len(), 0);
}

#[test]
fn a_node_is_of_a_type_when_it_lists_it() {
    let arena = Arena::from_node(&tree());
    for id in arena.recursive_crawl_all(arena.root()) {
        let listed = arena.class_types(id);
        for t in ["raw", "base", "keyword", "file", "meta", "indent", "no_such"] {
            assert_eq!(arena.is_type(id, t), listed.iter().any(|l| l == t));
        }
    }
}

#[test]
fn upper_case_of_the_text() {
    let arena = Arena::from_node(&segment("S", "s", vec![raw("word", "stra\u{df}e")]));
    assert_eq!(arena.raw_upper(arena.root()), "STRASSE");
}

#[test]
fn a_raw_segment_reads_its_attributes() {
    let node = Node::new_raw_with_class_types(
        "LiteralSegment".to_string(),
        "quoted_literal".to_string(),
        "literal".to_string(),
        "'x'".to_string(),
        None,
        strings(&["quoted_literal"]),
        &strings(&["literal", "raw", "base"]),
        RawSegmentKwargs {
            trim_chars: Some(strings(&["'"])),
            quoted_value: Some(("'(.*)'".to_string(), "1".to_string())),
            escape_replacements: None,
            trim_start: None,
            casefold: CaseFold::Upper,
        },
    );
    let arena = Arena::from_node(&node);
    let root = arena.root();
    assert_eq!(arena.get_type(root), "quoted_literal");
    assert_eq!(arena.class_type(root), "literal");
    assert_eq!(arena.trim_chars(root), Some(strings(&["'"])));
    assert_eq!(
        arena.quoted_value(root),
        Some(("'(.*)'".to_string(), "1".to_string()))
    );
    assert_eq!(arena.escape_replacements(root), None);
    assert_eq!(arena.segment_class(root), Some("LiteralSegment".to_string()));
    assert!(arena.is_raw(root));
}

#[test]
fn planned_lists_do_not_end_with_non_code() {
    let mut arena = Arena::from_node(&tree());
    let one = arena.uuid(leaf(&arena, "1"));
    arena.stage_edit_batch(
        vec![edit(one, EditKind::CreateAfter, vec![spec(41, "whitespace", "\t")])],
        false,
    );
    arena.commit_staged();
    let clause = arena.children(arena.root())[0];
    let last = *arena.children(clause).last().unwrap();
    assert_eq!(arena.raw(last), "1");
    assert_eq!(arena.raw(arena.children(arena.root())[1]), "\t");
}

#[test]
fn depth_info_numbers_the_code() {
    let arena = Arena::from_node(&tree());
    let (stacks, _) = arena.reflow_depth_info(arena.root());
    assert_eq!(stacks.len(), arena.raw_segments(arena.root()).len());
}

fn placed(file: &Arc<TemplatedFile>, start: usize, stop: usize) -> Option<PositionMarker> {
    let slice = Slice { start, stop };
    Some(PositionMarker::new(slice, slice, file, None, None))
}

fn placed_raw(file: &Arc<TemplatedFile>, ty: &str, text: &str, start: usize) -> Node {
    Node::new_raw(
        format!("{}Segment", ty),
        ty.to_string(),
        text.to_string(),
        placed(file, start, start + text.len()),
        strings(&[ty]),
        RawSegmentKwargs::default(),
    )
}

fn placed_tree(file: &Arc<TemplatedFile>) -> Node {
    Node::Segment {
        segment_class: "FileSegment".to_string(),
        segment_type: Some("file".to_string()),
        pos_marker: placed(file, 0, 6),
        class_types: strings(&["file"]),
        children: vec![
            placed_raw(file, "keyword", "a", 0),
            placed_raw(file, "newline", "\n", 1),
            Node::Segment {
                segment_class: "PairSegment".to_string(),
                segment_type: Some("pair".to_string()),
                pos_marker: placed(file, 2, 5),
                class_types: strings(&["pair"]),
                children: vec![
                    placed_raw(file, "literal", "b", 2),
                    placed_raw(file, "whitespace", " ", 3),
                    placed_raw(file, "literal", "c", 4),
                ],
            },
            placed_raw(file, "literal", "d", 5),
        ],
    }
}

fn tidy(arena: &Arena, id: NodeId) -> bool {
    let marker = match arena.pos_marker(id) {
        Some(m) => m,
        None => return false,
    };
    let (mut line, mut pos) = marker.working_loc();
    arena.children(id).iter().all(|&c| {
        let here = arena.pos_marker(c).map(|m| m.working_loc()) == Some((line, pos));
        (line, pos) = marker.infer_next_position(&arena.raw(c), line, pos);
        here && tidy(arena, c)
    })
}

#[test]
fn nodes_stand_where_the_text_before_them_ends() {
    let file = Arc::new(TemplatedFile::from_string("a\nb cd"));
    let mut arena = Arena::from_node(&placed_tree(&file));
    let root = arena.root();
    assert!(tidy(&arena, root));
    let before = arena.pos_marker(root).unwrap().working_loc();
    let newline = arena.uuid(leaf(&arena, "\n"));
    let b = arena.uuid(leaf(&arena, "b"));
    arena.stage_edit_batch(
        vec![
            edit(newline, EditKind::Replace, vec![spec(21, "newline", "\n\n")]),
            edit(b, EditKind::CreateAfter, vec![spec(22, "literal", "xy")]),
        ],
        false,
    );
    arena.commit_staged();
    assert_eq!(arena.raw(root), "a\n\nbxy cd");
    assert!(tidy(&arena, root));
    assert_eq!(arena.pos_marker(root).unwrap().working_loc(), before);
    let loc = |text: &str| arena.pos_marker(leaf(&arena, text)).unwrap().working_loc();
    assert_eq!(loc("b"), (3, 1));
    assert_eq!(loc("xy"), (3, 2));
    assert_eq!(loc("d"), (3, 6));
}

#[test]
fn rendered_nodes_are_templated() {
    let mut file = TemplatedFile::from_string("a\nb cd");
    file.raw_slices = vec![
        RawSlice {
            source_idx: 0,
            is_literal: true,
        },
        RawSlice {
            source_idx: 2,
            is_literal: false,
        },
    ];
    let arena = Arena::from_node(&placed_tree(&Arc::new(file)));
    assert!(!arena.is_templated(leaf(&arena, "a")));
    assert!(arena.is_templated(leaf(&arena, "b")));
    let bare = Arena::from_node(&tree());
    assert!(!bare.is_templated(bare.root()));
}

#[test]
fn leaves_come_with_their_paths() {
    let arena = Arena::from_node(&tree());
    let root = arena.root();
    let found = arena.raw_segments_with_ancestors(root);
    let leaves: Vec<NodeId> = found.iter().map(|(l, _)| *l).collect();
    assert_eq!(leaves, arena.raw_segments(root));
    for (l, steps) in &found {
        let path = arena.path_to(root, *l);
        assert_eq!(steps.len(), path.len());
        for (a, b) in steps.iter().zip(&path) {
            assert_eq!((a.node, a.idx, a.len), (b.node, b.idx, b.len));
            assert_eq!(a.code_idxs, b.code_idxs);
        }
    }
}

// Markers.

#[test]
fn advancing_over_parts_is_advancing_over_the_whole() {
    let file = Arc::new(TemplatedFile::from_string("ab\ncd"));
    let point = Slice { start: 0, stop: 0 };
    let marker = PositionMarker::new(point, point, &file, None, None);
    assert_eq!(marker.infer_next_position("ab\nc", 1, 1), (2, 2));
    let (line, pos) = marker.infer_next_position("ab", 1, 1);
    assert_eq!((line, pos), (1, 3));
    assert_eq!(marker.infer_next_position("\nc", line, pos), (2, 2));
    assert_eq!(file.get_line_pos_of_char_pos(4), (2, 2));
}

#[test]
fn rendered_text_is_not_literal() {
    let mut file = TemplatedFile::from_string("a\nb");
    file.raw_slices = vec![
        RawSlice {
            source_idx: 0,
            is_literal: true,
        },
        RawSlice {
            source_idx: 1,
            is_literal: false,
        },
    ];
    let file = Arc::new(file);
    let at = |start: usize, stop: usize| {
        PositionMarker::new(Slice { start, stop }, Slice { start, stop }, &file, None, None)
    };
    assert!(at(0, 1).is_literal());
    assert!(!at(1, 2).is_literal());
}

#[test]
fn slices_print_without_a_step() {
    assert_eq!(Slice { start: 3, stop: 12 }.to_text(), "slice(3, 12, None)");
}

// Tokens and re-validation.

fn token(raw: &str, code: bool) -> Token {
    Token::synthetic_leaf(raw.to_string(), Vec::new(), Vec::new(), code, false)
}

#[test]
fn brackets_pair_with_each_other() {
    let mut tokens: Vec<Token> = ["(", "[", ")", "]", "}", "("]
        .iter()
        .map(|t| token(t, true))
        .collect();
    tokens.push(token(")", false));
    compute_bracket_pairs(&mut tokens);
    let pairs: Vec<Option<usize>> = tokens.iter().map(|t| t.matching_bracket_idx).collect();
    assert_eq!(
        pairs,
        vec![Some(2), Some(3), Some(0), Some(1), None, None, None]
    );
}

#[test]
fn tokens_print_their_text_escaped() {
    assert_eq!(token("a\n'", true).to_text("[L:1, P:1]"), "<RawSegment: (?) 'a\\n\\''>");
    assert_eq!(token_text("Word", "[L:1, P:2]", "x"), "<Word: ([L:1, P:2]) 'x'>");
    let file = Arc::new(TemplatedFile::from_string("x"));
    let mut placed = token("x", true);
    let all = Slice { start: 0, stop: 1 };
    placed.pos_marker = Some(PositionMarker::new(all, all, &file, None, None));
    assert_eq!(placed.to_text("[L:1, P:1]"), "<RawSegment: ([L:1, P:1]) 'x'>");
}

fn described(raw: &str, is_code: bool, is_meta: bool) -> LeafDescriptor {
    LeafDescriptor {
        raw: raw.to_string(),
        instance_types: Vec::new(),
        class_types: Vec::new(),
        is_code,
        is_meta,
    }
}

fn covers_all(_class: &str, tokens: &Vec<Token>) -> Option<MatchResult> {
    Some(MatchResult {
        matched_slice: Slice {
            start: 0,
            stop: tokens.len(),
        },
        unparsable: false,
    })
}

fn covers_all_badly(_class: &str, tokens: &Vec<Token>) -> Option<MatchResult> {
    Some(MatchResult {
        matched_slice: Slice {
            start: 0,
            stop: tokens.len(),
        },
        unparsable: true,
    })
}

fn covers_one(_class: &str, _tokens: &Vec<Token>) -> Option<MatchResult> {
    Some(MatchResult {
        matched_slice: Slice { start: 0, stop: 1 },
        unparsable: false,
    })
}

fn fails(_class: &str, _tokens: &Vec<Token>) -> Option<MatchResult> {
    None
}

fn three_tokens(_class: &str, tokens: &Vec<Token>) -> Option<MatchResult> {
    assert_eq!(tokens.len(), 3);
    assert_eq!(tokens[0].raw, "f");
    assert_eq!(tokens[1].matching_bracket_idx, Some(2));
    covers_all(_class, tokens)
}

#[test]
fn verdicts_on_leaves() {
    let leaves = vec![
        described("", false, true),
        described(" ", false, false),
        described("f", true, false),
        described("(", true, false),
        described(")", true, false),
        described("\n", false, false),
    ];
    let verdict = |m: fn(&str, &Vec<Token>) -> Option<MatchResult>| {
        revalidate_leaf_descriptors(&leaves, "X", &m)
    };
    assert_eq!(verdict(three_tokens), RevalidateOutcome::Valid);
    assert_eq!(verdict(covers_all), RevalidateOutcome::Valid);
    assert_eq!(verdict(covers_all_badly), RevalidateOutcome::Invalid);
    assert_eq!(verdict(covers_one), RevalidateOutcome::Invalid);
    assert_eq!(verdict(fails), RevalidateOutcome::Invalid);
    let blank = vec![described(" ", false, false), described("", false, true)];
    assert_eq!(
        revalidate_leaf_descriptors(&blank, "X", &fails),
        RevalidateOutcome::Valid
    );
}

fn always(_class: &str) -> bool {
    true
}

fn only_files(class: &str) -> bool {
    class == "FileSegment"
}

#[test]
fn a_clean_match_further_up_rescues_an_edit() {
    let stage = |arena: &mut Arena| {
        let one = arena.uuid(leaf(arena, "1"));
        arena.stage_edit_batch(
            vec![edit(one, EditKind::Replace, vec![spec(51, "symbol", "?")])],
            false,
        );
    };
    let mut arena = Arena::from_node(&tree());
    stage(&mut arena);
    assert!(arena.validate_staged(&only_files, &covers_all));
    assert!(!arena.validate_staged(&only_files, &fails));
    assert!(!arena.validate_staged(&always, &fails));
    let keep_clause = |class: &str, tokens: &Vec<Token>| {
        if class == "SelectClauseSegment" {
            None
        } else {
            covers_all(class, tokens)
        }
    };
    assert!(arena.validate_staged(&always, &keep_clause));
}

#[test]
fn edits_that_keep_their_type_need_no_grammar() {
    let mut arena = Arena::from_node(&tree());
    let one = leaf(&arena, "1");
    let mut same = spec(61, "literal", "2");
    if let SpecKind::Raw { class_types, .. } = &mut same.kind {
        *class_types = arena.class_types(one);
    }
    let uuid = arena.uuid(one);
    arena.stage_edit_batch(vec![edit(uuid, EditKind::Replace, vec![same])], false);
    assert!(arena.validate_staged(&always, &fails));
}

// Frames.

fn frame(id: usize) -> TableParseFrame {
    TableParseFrame::new_child(
        id,
        GrammarId(7),
        3,
        &[GrammarId(1), GrammarId(2), GrammarId(3), GrammarId(4), GrammarId(5)],
        Some(9),
    )
}

fn one_of() -> FrameContext {
    FrameContext::OneOf(OneOfState {
        pruned_children: Vec::new(),
        post_skip_pos: 0,
        longest_match: None,
        tried_elements: 0,
        max_idx: 0,
        last_child_frame_id: None,
        current_child_id: None,
    })
}

fn sequence() -> FrameContext {
    FrameContext::Sequence(SequenceState {
        seq_grammar_id: GrammarId(7),
        start_idx: 0,
        matched_idx: 0,
        max_idx: 9,
        original_max_idx: 9,
        last_child_frame_id: None,
        current_element_idx: 0,
        first_match: true,
        meta_buffer: Vec::new(),
        insert_segments: Vec::new(),
        child_matches: Vec::new(),
        child_terminators: Vec::new(),
    })
}

#[test]
fn frames_keep_their_terminators() {
    let terminators = frame(1).terminators();
    assert_eq!(
        terminators,
        vec![GrammarId(1), GrammarId(2), GrammarId(3), GrammarId(4), GrammarId(5)]
    );
    let none = TableParseFrame::new_child(0, GrammarId(0), 0, &[], None);
    assert!(none.terminators().is_empty());
}

#[test]
fn what_was_pushed_is_popped() {
    let mut stack = TableParseFrameStack::new();
    assert!(stack.pop().is_none());
    assert!(stack.last_mut().is_none());
    stack.push(frame(1));
    stack.push(frame(2));
    assert_eq!(stack.len(), 2);
    assert_eq!(stack.frames()[0].frame_id, 1);
    assert_eq!(stack.pop().map(|f| f.frame_id), Some(2));
    assert_eq!(stack.pop().map(|f| f.frame_id), Some(1));
    assert_eq!(stack.len(), 0);
}

#[test]
fn a_parent_waits_for_its_child() {
    let mut stack = TableParseFrameStack::default();
    assert!(matches!(
        stack.push_child_and_wait(frame(1), frame(2)),
        TableFrameResult::Done
    ));
    assert_eq!(stack.frame_id_counter, 1);
    assert!(matches!(stack.frames()[0].state, FrameState::WaitingForChild));
    assert!(matches!(stack.frames()[1].state, FrameState::Initial));
    assert!(!stack.update_parent_last_child_id(GrammarVariant::OneOf, 5));
    if let Some(top) = stack.last_mut() {
        top.context = one_of();
    }
    assert!(!stack.update_parent_last_child_id(GrammarVariant::Sequence, 5));
    assert!(stack.update_parent_last_child_id(GrammarVariant::OneOf, 5));
    assert!(matches!(
        &stack.frames()[1].context,
        FrameContext::OneOf(OneOfState {
            last_child_frame_id: Some(5),
            ..
        })
    ));
}

#[test]
fn a_parent_finds_what_its_child_left() {
    let mut stack = TableParseFrameStack::new();
    stack.insert_empty_result(4, 11);
    stack.insert_arc_result_with_key(5, Arc::new(MatchResult::empty_at(2)), 8, Some(77));
    let (m, end, key) = stack.result(4).unwrap();
    assert_eq!((m.end(), *end, *key), (11, 11, None));
    assert!(m.is_empty());
    let (_, end, key) = stack.result(5).unwrap();
    assert_eq!((*end, *key), (8, Some(77)));
    assert!(stack.result(6).is_none());
    stack.complete_frame_empty(&frame(6));
    assert_eq!(stack.result(6).unwrap().1, 3);
}

#[test]
fn a_complete_frame_ends_where_its_match_ends() {
    let mut stack = TableParseFrameStack::new();
    let result = MatchResult {
        matched_slice: Slice { start: 3, stop: 8 },
        unparsable: false,
    };
    stack.complete_frame(frame(1), Arc::new(result));
    assert_eq!(stack.frames()[0].end_pos, Some(8));
    assert!(matches!(stack.frames()[0].state, FrameState::Complete(_)));
    stack.transition_to_combining(frame(2), None);
    assert_eq!(stack.frames()[1].end_pos, None);
    assert!(matches!(stack.frames()[1].state, FrameState::Combining));
}

#[test]
fn results_are_left_for_each_frame() {
    let mut stack = TableParseFrameStack::new();
    stack.insert_result(1, MatchResult::empty_at(2), 6);
    stack.insert_arc_result(2, Arc::new(MatchResult::empty_at(3)), 7);
    assert!(matches!(
        stack.complete_frame_empty_at_pos(&frame(3), 12),
        TableFrameResult::Done
    ));
    let found = |id: usize| {
        let (m, end, key) = stack.result(id).unwrap();
        (m.end(), *end, *key)
    };
    assert_eq!(found(1), (2, 6, None));
    assert_eq!(found(2), (3, 7, None));
    assert_eq!(found(3), (12, 12, None));
}

#[test]
fn a_parent_is_told_of_its_child() {
    let mut stack = TableParseFrameStack::new();
    let mut parent = frame(1);
    parent.context = one_of();
    stack.push_child_and_update_parent(parent, frame(2), GrammarVariant::OneOf);
    assert_eq!((stack.len(), stack.frame_id_counter), (2, 1));
    assert!(matches!(
        &stack.frames()[0].context,
        FrameContext::OneOf(OneOfState {
            last_child_frame_id: Some(2),
            ..
        })
    ));
    if let Some(top) = stack.last_mut() {
        top.context = sequence();
    }
    stack.update_sequence_parent_and_push_child(frame(3), 4);
    assert_eq!((stack.len(), stack.frame_id_counter), (3, 2));
    assert!(matches!(stack.frames()[1].state, FrameState::WaitingForChild));
    assert!(matches!(
        &stack.frames()[1].context,
        FrameContext::Sequence(SequenceState {
            last_child_frame_id: Some(3),
            current_element_idx: 4,
            ..
        })
    ));
}

// Reflow.

#[test]
fn the_sequence_has_the_text_of_the_tree() {
    let node = tree();
    let config = ReflowConfig::default_ansi();
    let seq = ReflowSequence::from_root(&node, &config, &mut SegmentCounter::new());
    assert_eq!(seq.get_raw(), node.raw());
    let respaced = seq.respace();
    assert_eq!(respaced.get_raw(), node.raw());
}

#[test]
fn blocks_and_points_alternate() {
    let node = segment(
        "FileSegment",
        "file",
        vec![
            raw("whitespace", " "),
            raw("keyword", "a"),
            raw("keyword", "b"),
            raw("whitespace", " "),
        ],
    );
    let config = ReflowConfig::default_ansi();
    let seq = ReflowSequence::from_root(&node, &config, &mut SegmentCounter::new());
    let shape: Vec<bool> = seq
        .elements
        .iter()
        .map(|e| matches!(e, ReflowElement::Block(_)))
        .collect();
    assert_eq!(shape, vec![false, true, false, true, false]);
}

#[test]
fn findings_are_anchored_in_the_tree() {
    let node = segment(
        "FileSegment",
        "file",
        vec![
            raw("keyword", "SELECT"),
            raw("whitespace", "  "),
            raw("literal", "1"),
            raw("literal", "2"),
            raw("whitespace", " "),
            raw("newline", "\n"),
        ],
    );
    let config = ReflowConfig::default_ansi();
    let seq = ReflowSequence::from_root(&node, &config, &mut SegmentCounter::new()).respace();
    let found: Vec<(usize, FixType)> = seq
        .get_violations()
        .iter()
        .map(|v| (v.anchor_idx, v.fix_type.clone()))
        .collect();
    assert_eq!(
        found,
        vec![
            (1, FixType::Replace { new_text: " ".to_string() }),
            (2, FixType::CreateAfter { new_text: " ".to_string() }),
            (4, FixType::Delete),
        ]
    );
    assert_eq!(
        seq.violations[0].description,
        "Expected only single space before literal. Found \"  \"."
    );
    assert_eq!(
        seq.violations[1].description,
        "Expected single whitespace between literal and literal."
    );
}

#[test]
fn shared_ancestors_are_a_common_prefix() {
    let node = segment(
        "FileSegment",
        "file",
        vec![
            segment("ASegment", "a", vec![raw("word", "x"), raw("word", "y")]),
            segment("BSegment", "b", vec![raw("word", "z")]),
        ],
    );
    let config = ReflowConfig::from_dict(ConfigDictType::new());
    let (map, raws) = DepthMap::from_node(&node, &config, &mut SegmentCounter::new());
    assert_eq!(raws.len(), 3);
    let x = map.get_depth_info(0).unwrap();
    let y = map.get_depth_info(1).unwrap();
    let z = map.get_depth_info(2).unwrap();
    assert_eq!(x.stack_hashes, vec![1, 2]);
    assert_eq!(z.stack_hashes, vec![1, 3]);
    assert_eq!(x.common_with(y), vec![1, 2]);
    assert_eq!(x.common_with(z), vec![1]);
    assert_eq!(z.last_common_hash(x), Some(1));
    assert!(map.get_depth_info(3).is_none());
    assert_eq!(x.stack_positions[&2].pos_type, "start");
    assert_eq!(y.stack_positions[&2].pos_type, "end");
    assert_eq!(z.stack_positions[&3].pos_type, "solo");
}

#[test]
fn trees_of_one_counter_share_no_number() {
    let node = segment("FileSegment", "file", vec![segment("A", "a", vec![raw("word", "x")])]);
    let config = ReflowConfig::from_dict(ConfigDictType::new());
    let mut counter = SegmentCounter::default();
    let (one, _) = DepthMap::from_node(&node, &config, &mut counter);
    let (two, raws) = DepthMap::from_node(&node, &config, &mut counter);
    assert_eq!(raws.len(), 1);
    let (x, y) = (one.get_depth_info(0).unwrap(), two.get_depth_info(0).unwrap());
    assert_eq!(x.stack_hashes, vec![1, 2]);
    assert_eq!(y.stack_hashes, vec![3, 4]);
    assert!(x.common_with(y).is_empty());
    assert_eq!(x.common_with(x), vec![1, 2]);
    let seq = ReflowSequence::from_root(&node, &config, &mut counter);
    match &seq.elements[0] {
        ReflowElement::Block(b) => assert_eq!(b.depth_info.stack_hashes, vec![5, 6]),
        _ => panic!("a block"),
    }
}

#[test]
fn placeholders_for_whitespace_belong_to_points() {
    let placeholder = |source: &str, block: &str| {
        meta(MetaType::Template {
            source_str: source.to_string(),
            block_type: block.to_string(),
        })
    };
    let node = segment(
        "FileSegment",
        "file",
        vec![
            raw("keyword", "a"),
            placeholder(" \n", "literal"),
            placeholder(" x", "literal"),
            placeholder(" ", "templated"),
        ],
    );
    let config = ReflowConfig::default_ansi();
    let (_, raws) = DepthMap::from_node(&node, &config, &mut SegmentCounter::new());
    let consumed: Vec<Option<&str>> = raws.iter().map(|r| r.consumed_whitespace).collect();
    assert_eq!(consumed, vec![None, Some(" \n"), None, None]);
    let seq = ReflowSequence::from_root(&node, &config, &mut SegmentCounter::new());
    assert_eq!(seq.elements.len(), 5);
}

#[test]
fn only_spacing_is_pruned() {
    let types = strings(&["whitespace", "comment", "whitespace", "newline", "whitespace", "whitespace"]);
    let raws = strings(&[" ", "--", "\t", "\n", "  ", "   "]);
    let indices = vec![10, 11, 12, 13, 14, 15];
    let literals = vec![true; 6];
    let (kept, texts, places, last, found) =
        process_spacing(&types, &raws, &indices, &literals, false);
    assert_eq!(kept, strings(&["comment", "newline", "whitespace"]));
    assert_eq!(texts, strings(&["--", "\n", "  "]));
    assert_eq!(places, vec![11, 13, 14]);
    assert_eq!(last, Some(2));
    let told: Vec<(&str, usize)> = found
        .iter()
        .map(|v| (v.description.as_str(), v.anchor_idx))
        .collect();
    assert_eq!(
        told,
        vec![
            ("Unnecessary trailing whitespace.", 10),
            ("Unnecessary trailing whitespace.", 12),
            ("Removing duplicate whitespace.", 15),
        ]
    );
}

#[test]
fn stripped_newlines_do_not_end_the_line() {
    let types = strings(&["whitespace", "newline", "whitespace"]);
    let raws = strings(&[" ", "\n", " "]);
    let (kept, _, _, last, found) =
        process_spacing(&types, &raws, &[0, 1, 2], &[true, true, true], true);
    assert_eq!(kept, strings(&["whitespace"]));
    assert_eq!(last, Some(0));
    assert_eq!(found[0].description, "Unexpected line break.");
    assert_eq!(found.len(), 2);
}

#[test]
fn constraints_by_name() {
    assert_eq!(unpack_constraint("inline", false), (Constraint::Touch, true));
    assert_eq!(unpack_constraint("any", true), (Constraint::Any, true));
    assert_eq!(unpack_constraint("touch:other", false), (Constraint::Touch, false));
    assert_eq!(unpack_constraint("nonsense", false), (Constraint::Single, false));
}

#[test]
fn findings_show_the_whitespace() {
    let found = handle_inline_with_space(&Constraint::Single, &Constraint::Single, None, "\t", 6);
    assert_eq!(found[0].description, "Expected only single space. Found \"\\t\".");
    assert_eq!(found[0].anchor_idx, 6);
    assert_eq!(found[0].edit_text, Some(" ".to_string()));
    let none = handle_inline_with_space(
        &Constraint::Align("align:x".to_string()),
        &Constraint::Single,
        None,
        "\t",
        6,
    );
    assert!(none.is_empty());
}

#[test]
fn names_of_segments() {
    assert_eq!(pretty_segment_name("keyword", "it's", &[]), "'it\\'s' keyword");
    assert_eq!(
        pretty_segment_name("start_bracket", "\\", &strings(&["symbol"])),
        "start bracket '\\\\'"
    );
    assert_eq!(pretty_segment_name("numeric_literal", "1", &[]), "numeric literal");
    assert_eq!(to_snake_case("ABSegmentX"), "a_b_segment_x");
    assert_eq!(to_snake_case("Segment"), "");
}

#[test]
fn empty_settings_overwrite_nothing() {
    let mut block = BlockConfig::default();
    let mut settings = ConfigElementType::new();
    settings.insert("spacing_before".to_string(), "touch".to_string());
    settings.insert("spacing_after".to_string(), String::new());
    block.incorporate(None, Some("any"), None, Some(""), Some(&settings));
    assert_eq!(block.spacing_before, "touch");
    assert_eq!(block.spacing_after, "any");
    block.incorporate(Some(""), None, Some("single"), None, Some(&settings));
    assert_eq!(block.spacing_before, "touch");
    assert_eq!(block.spacing_after, "any");
    assert_eq!(block.spacing_within, Some("single".to_string()));
    assert_eq!(block.line_position, None);
}

#[test]
fn alignment_is_spelled_out() {
    let mut settings = ConfigElementType::new();
    settings.insert("spacing_before".to_string(), "align".to_string());
    settings.insert("align_within".to_string(), "select_clause".to_string());
    settings.insert("align_scope".to_string(), "bracketed".to_string());
    settings.insert("alignment_coordinate_space".to_string(), "source".to_string());
    let mut dict = ConfigDictType::new();
    dict.insert("alias_expression".to_string(), settings);
    let config = ReflowConfig::from_dict(dict);
    let block = config.get_block_config(&strings(&["alias_expression"]), None);
    assert_eq!(
        block.spacing_before,
        "align:alias_expression:select_clause:bracketed:source"
    );
    assert_eq!(block.spacing_after, "single");
    assert_eq!(config.config_types.len(), 1);
}

#[test]
fn boundaries_pass_on_what_parents_want() {
    let mut touch = ConfigElementType::new();
    touch.insert("spacing_before".to_string(), "touch".to_string());
    let mut dict = ConfigDictType::new();
    dict.insert("contents".to_string(), touch);
    let mut inherited: TextMap<Vec<String>> = TextMap::new();
    inherited.insert("bracketed".to_string(), strings(&["contents"]));
    let config = ReflowConfig::from_dict_with_class_types(dict, inherited);
    let node = segment(
        "FileSegment",
        "file",
        vec![
            raw("word", "f"),
            segment("BracketedSegment", "bracketed", vec![raw("open", "("), raw("close", ")")]),
        ],
    );
    let (map, _) = DepthMap::from_node(&node, &config, &mut SegmentCounter::new());
    let open = config.get_block_config(&strings(&["open"]), map.get_depth_info(1));
    let close = config.get_block_config(&strings(&["close"]), map.get_depth_info(2));
    assert_eq!(open.spacing_before, "touch");
    assert_eq!(close.spacing_before, "single");
    assert_eq!(config.extra_class_types("bracketed").to_vec(), strings(&["contents"]));
    assert!(config.extra_class_types("word").is_empty());
    let mut types = TypeSet::new();
    types.insert("contents".to_string());
    assert_eq!(config.get_spacing_within(&types), None);
}

#[test]
fn the_outermost_wish_decides() {
    let wants = |key: &str, value: &str| {
        let mut e = ConfigElementType::new();
        e.insert(key.to_string(), value.to_string());
        e
    };
    let mut inner = wants("spacing_before", "any");
    inner.insert("spacing_within".to_string(), "touch".to_string());
    inner.insert("line_position".to_string(), "alone".to_string());
    let mut dict = ConfigDictType::new();
    dict.insert("outer".to_string(), wants("spacing_before", "touch"));
    dict.insert("inner".to_string(), inner);
    let config = ReflowConfig::from_dict(dict);
    let node = segment(
        "OuterSegment",
        "outer",
        vec![
            segment("InnerSegment", "inner", vec![raw("word", "x"), raw("word", "y")]),
            segment("InnerSegment", "inner", vec![raw("word", "z")]),
        ],
    );
    let (map, _) = DepthMap::from_node(&node, &config, &mut SegmentCounter::new());
    let block = |i: usize| config.get_block_config(&strings(&["word"]), map.get_depth_info(i));
    assert_eq!(block(0).spacing_before, "touch");
    assert_eq!(block(1).spacing_before, "single");
    assert_eq!(block(2).spacing_before, "any");
    assert_eq!(block(0).spacing_within, None);
    assert_eq!(block(0).line_position, None);
}

#[test]
fn points_know_their_whitespace() {
    let point = ReflowPoint::new(
        vec![0, 1, 2],
        strings(&["whitespace", "newline", "indent"]),
        strings(&[" ", "\n", ""]),
        vec![true, true, true],
    );
    assert_eq!(point.raw(), " \n");
    assert!(point.has_newline());
    assert_eq!(point.last_whitespace_idx(), Some(0));
    assert_eq!(ReflowPoint::empty().last_whitespace_idx(), None);
    assert_eq!(ReflowElement::Point(point).raw(), " \n");
}

#[test]
fn names_are_looked_up_by_their_text() {
    let mut map: TextMap<u8> = TextMap::new();
    map.insert("a".to_string(), 1);
    map.insert("b".to_string(), 2);
    map.insert("a".to_string(), 3);
    assert_eq!(map.len(), 2);
    assert_eq!(map.get("a"), Some(&3));
    assert_eq!(map.get("b"), Some(&2));
    assert_eq!(map.get("c"), None);
    let mut set = TypeSet::new();
    set.insert("x".to_string());
    set.insert("x".to_string());
    assert_eq!(set.len(), 1);
    assert!(set.contains("x"));
    assert!(!set.contains("y"));
}
