//! Tests of the arena: reading, editing, positions and re-validation.

use std::sync::Arc;

use sqlfluffrs::arena::state::NodeId;
use sqlfluffrs::arena::Arena;
use sqlfluffrs::edit::{EditKind, EditOp, NodeSpec, SpecKind};
use sqlfluffrs::kind::{MetaType, RawSegmentKwargs};
use sqlfluffrs::marker::{PositionMarker, Slice, TemplatedFile};
use sqlfluffrs::match_result::MatchResult;
use sqlfluffrs::node::Node;
use sqlfluffrs::token::Token;
use sqlfluffrs::tree::SourceFixSpec;

fn set_marker(n: &mut Node, raw_text: &str, pm: PositionMarker) -> bool {
    match n {
        Node::Raw {
            raw, pos_marker, ..
        } if raw == raw_text => {
            *pos_marker = Some(pm);
            true
        }
        Node::Segment { children, .. } | Node::Unparsable { children, .. } => {
            for c in children {
                if set_marker(c, raw_text, pm.clone()) {
                    return true;
                }
            }
            false
        }
        _ => false,
    }
}

/// Whether a class has a grammar: only function names have one here.
fn has_grammar(class: &str) -> bool {
    class == "FunctionNameSegment"
}

/// Any number of identifiers with a dot behind each, then a word.
fn rematch(_class: &str, tokens: &Vec<Token>) -> Option<MatchResult> {
    let typed = |i: usize, t: &str| i < tokens.len() && tokens[i].class_types.iter().any(|c| c == t);
    let mut i = 0;
    while typed(i, "identifier") && i + 1 < tokens.len() && tokens[i + 1].raw == "." {
        i += 2;
    }
    if typed(i, "word") {
        Some(MatchResult {
            matched_slice: Slice { start: 0, stop: i + 1 },
            unparsable: false,
        })
    } else {
        Some(MatchResult::empty_at(0))
    }
}

fn raw(class: &str, ty: &str, text: &str, instance: &[&str]) -> Node {
    Node::new_raw(
        class.to_string(),
        ty.to_string(),
        text.to_string(),
        None,
        instance.iter().map(|s| s.to_string()).collect(),
        RawSegmentKwargs::default(),
    )
}

fn select_tree() -> Node {
    let kw = raw("KeywordSegment", "keyword", "SELECT", &["keyword"]);
    let ws = raw("WhitespaceSegment", "whitespace", " ", &["whitespace"]);
    let ident = raw(
        "IdentifierSegment",
        "naked_identifier",
        "a",
        &["identifier"],
    );
    let col = Node::Segment {
        segment_class: "ColumnReferenceSegment".into(),
        segment_type: Some("column_reference".into()),
        pos_marker: None,
        class_types: vec!["column_reference".to_string()],
        children: vec![ident],
    };
    let select = Node::Segment {
        segment_class: "SelectStatementSegment".into(),
        segment_type: Some("select_statement".into()),
        pos_marker: None,
        class_types: vec!["select_statement".to_string(), "statement".to_string()],
        children: vec![kw, ws, col],
    };
    Node::Segment {
        segment_class: "StatementSegment".into(),
        segment_type: Some("statement".into()),
        pos_marker: None,
        class_types: vec!["statement".to_string()],
        children: vec![select],
    }
}

#[test]
fn raw_matches_node() {
    let node = select_tree();
    let arena = Arena::from_node(&node);
    assert_eq!(arena.raw(arena.root()), node.raw());
    assert_eq!(arena.raw(arena.root()), "SELECT a");
}

#[test]
fn is_type_uses_class_types() {
    let arena = Arena::from_node(&select_tree());
    let root = arena.root();
    assert!(arena.is_type(root, "statement"));
    let select = arena.children(root)[0];
    assert!(arena.is_type(select, "select_statement"));
    assert!(arena.is_type(select, "statement"));
    assert!(!arena.is_type(select, "keyword"));
}

#[test]
fn recursive_crawl_finds_descendants() {
    let arena = Arena::from_node(&select_tree());
    let kws = arena.recursive_crawl(arena.root(), &["keyword".to_string()], true, &[], true);
    assert_eq!(kws.len(), 1);
    assert_eq!(arena.raw(kws[0]), "SELECT");

    let idents = arena.recursive_crawl(
        arena.root(),
        &["naked_identifier".to_string()],
        true,
        &[],
        true,
    );
    assert_eq!(idents.len(), 1);
    assert_eq!(arena.raw(idents[0]), "a");
}

#[test]
fn raw_segments_in_order() {
    let arena = Arena::from_node(&select_tree());
    let raws = arena.raw_segments(arena.root());
    let texts: Vec<String> = raws.iter().map(|&r| arena.raw(r)).collect();
    assert_eq!(texts, vec!["SELECT", " ", "a"]);
}

#[test]
fn parent_links_and_path() {
    let arena = Arena::from_node(&select_tree());
    let root = arena.root();
    let raws = arena.raw_segments(root);
    let ident = *raws.last().unwrap();
    let steps = arena.path_to(root, ident);
    assert!(!steps.is_empty());
    assert_eq!(steps[0].node, root);
    let (p, idx) = arena.get_parent(ident).unwrap();
    assert_eq!(arena.get_type(p), "column_reference");
    assert_eq!(idx, 0);
}

#[test]
fn descendant_type_set_includes_nested() {
    let arena = Arena::from_node(&select_tree());
    let dts = arena.descendant_type_set(arena.root());
    assert!(dts.contains("keyword"));
    assert!(dts.contains("naked_identifier"));
    assert!(dts.contains("select_statement"));
}

#[test]
fn is_code_and_whitespace() {
    let arena = Arena::from_node(&select_tree());
    let raws = arena.raw_segments(arena.root());
    assert!(arena.is_code(raws[0]));
    assert!(!arena.is_code(raws[1]));
    assert!(arena.is_whitespace(raws[1]));
}

#[test]
fn get_child_includes_meta() {
    let tree = Node::Segment {
        segment_class: "SelectStatementSegment".into(),
        segment_type: Some("select_statement".into()),
        pos_marker: None,
        class_types: vec!["select_statement".to_string()],
        children: vec![
            raw("KeywordSegment", "keyword", "SELECT", &["keyword"]),
            Node::Meta {
                meta_type: MetaType::Indent { is_implicit: false },
                pos_marker: None,
                block_uuid: None,
            },
            raw("WhitespaceSegment", "whitespace", " ", &["whitespace"]),
        ],
    };
    let arena = Arena::from_node(&tree);
    let root = arena.root();
    let indent = vec!["indent".to_string()];
    let child = arena.get_child(root, &indent).expect("indent meta found");
    assert!(arena.is_meta(child));
    assert_eq!(arena.get_type(child), "indent");
    assert_eq!(arena.get_children(root, &indent).len(), 1);
    assert!(arena.get_child(root, &["keyword".to_string()]).is_some());
}

#[test]
fn epoch_starts_zero_and_bumps() {
    let mut arena = Arena::from_node(&select_tree());
    assert_eq!(arena.epoch(), 0);
    arena.bump_epoch();
    assert_eq!(arena.epoch(), 1);
}

#[test]
fn nothing_detached_after_ingest() {
    let arena = Arena::from_node(&select_tree());
    for i in 0..arena.len() {
        assert!(!arena.is_detached(NodeId(i as u32)));
    }
}

#[test]
fn source_fixes_aggregate_in_document_order() {
    let mut arena = Arena::from_node(&select_tree());
    let root = arena.root();
    let leaves = arena.raw_segments(root);
    let kw = leaves[0]; // "SELECT"
    let ident = *leaves.last().unwrap(); // "a"
    let f1 = SourceFixSpec {
        edit: "select".to_string(),
        source_slice: Slice { start: 0, stop: 6 },
        templated_slice: Slice { start: 0, stop: 6 },
    };
    let f2 = SourceFixSpec {
        edit: "b".to_string(),
        source_slice: Slice { start: 7, stop: 8 },
        templated_slice: Slice { start: 7, stop: 8 },
    };
    arena.set_source_fixes(ident, vec![f2.clone()]);
    arena.set_source_fixes(kw, vec![f1.clone()]);
    assert_eq!(arena.node_source_fixes(kw), vec![f1.clone()]);
    assert_eq!(arena.node_source_fixes(root), vec![f1, f2]);
    arena.set_source_fixes(kw, Vec::new());
    assert_eq!(arena.node_source_fixes(root).len(), 1);
}

fn raw_spec(uuid: u128, ty: &str, text: &str) -> NodeSpec {
    NodeSpec {
        uuid,
        marker: None,
        kind: SpecKind::Raw {
            segment_class: "RawSegment".to_string(),
            segment_type: ty.to_string(),
            class_type: ty.to_string(),
            raw: text.to_string(),
            instance_types: Vec::new(),
            class_types: vec![ty.to_string()],
            kwargs: RawSegmentKwargs::default(),
        },
        source_fixes: Vec::new(),
        children: Vec::new(),
    }
}

#[test]
fn spec_raw_joins_subtree() {
    let spec = NodeSpec {
        uuid: 1,
        marker: None,
        kind: SpecKind::Segment {
            segment_class: "CastExpressionSegment".to_string(),
            segment_type: Some("cast_expression".to_string()),
            class_types: vec!["cast_expression".to_string()],
        },
        source_fixes: Vec::new(),
        children: vec![raw_spec(2, "keyword", "cast"), raw_spec(3, "symbol", "(")],
    };
    assert_eq!(spec.spec_raw(), "cast(");
    let meta = NodeSpec {
        uuid: 4,
        marker: None,
        kind: SpecKind::Meta {
            meta_type: MetaType::Indent { is_implicit: false },
            block_uuid: None,
        },
        source_fixes: Vec::new(),
        children: Vec::new(),
    };
    assert_eq!(meta.spec_raw(), "");
}

#[test]
fn ingest_spec_preserves_uuid_and_structure() {
    let mut arena = Arena::from_node(&select_tree());
    let before_len = arena.len();
    let spec = NodeSpec {
        uuid: (1u128 << 120) | 42,
        marker: None,
        kind: SpecKind::Segment {
            segment_class: "ColumnReferenceSegment".to_string(),
            segment_type: Some("column_reference".to_string()),
            class_types: vec!["column_reference".to_string()],
        },
        source_fixes: Vec::new(),
        children: vec![raw_spec((1u128 << 120) | 43, "naked_identifier", "b")],
    };
    let id = arena.ingest_spec(&spec, None, 0);
    assert_eq!(arena.len(), before_len + 2);
    assert_eq!(arena.uuid(id), (1u128 << 120) | 42);
    assert_eq!(arena.node_by_uuid((1u128 << 120) | 42), Some(id));
    assert_eq!(arena.raw(id), "b");
    assert_eq!(arena.get_type(id), "column_reference");
    let kids = arena.children(id).to_vec();
    assert_eq!(kids.len(), 1);
    assert_eq!(arena.parent(kids[0]), Some(id));
    assert_eq!(arena.get_type(kids[0]), "naked_identifier");
    assert!(arena.pos_marker(id).is_none());
    assert!(arena.is_detached(id));
}

#[test]
fn ingest_spec_mints_on_uuid_collision() {
    let mut arena = Arena::from_node(&select_tree());
    let existing_uuid = arena.uuid(arena.root());
    let spec = raw_spec(existing_uuid, "whitespace", " ");
    let id = arena.ingest_spec(&spec, None, 0);
    assert_ne!(arena.uuid(id), existing_uuid);
    assert_eq!(arena.node_by_uuid(existing_uuid), Some(arena.root()));
    assert_eq!(arena.node_by_uuid(arena.uuid(id)), Some(id));
}

#[test]
fn ingest_spec_carries_source_fixes() {
    let mut arena = Arena::from_node(&select_tree());
    let mut spec = raw_spec(999, "placeholder", "");
    spec.source_fixes = vec![SourceFixSpec {
        edit: "{%+ if true -%}".to_string(),
        source_slice: Slice {
            start: 14,
            stop: 27,
        },
        templated_slice: Slice {
            start: 14,
            stop: 14,
        },
    }];
    let id = arena.ingest_spec(&spec, None, 0);
    let fixes = arena.node_source_fixes(id);
    assert_eq!(fixes.len(), 1);
    assert_eq!(fixes[0].edit, "{%+ if true -%}");
}


fn file_tree() -> Node {
    let kw = raw("KeywordSegment", "keyword", "SELECT", &["keyword"]);
    let ws = raw("WhitespaceSegment", "whitespace", " ", &["whitespace"]);
    let ident = raw(
        "IdentifierSegment",
        "naked_identifier",
        "a",
        &["identifier"],
    );
    let select = Node::Segment {
        segment_class: "SelectStatementSegment".into(),
        segment_type: Some("select_statement".into()),
        pos_marker: None,
        class_types: vec!["select_statement".to_string(), "statement".to_string()],
        children: vec![kw, ws, ident],
    };
    let stmt = Node::Segment {
        segment_class: "StatementSegment".into(),
        segment_type: Some("statement".into()),
        pos_marker: None,
        class_types: vec!["statement".to_string()],
        children: vec![select],
    };
    let nl = raw("NewlineSegment", "newline", "\n", &["newline"]);
    Node::Segment {
        segment_class: "FileSegment".into(),
        segment_type: Some("file".into()),
        pos_marker: None,
        class_types: vec!["file".to_string()],
        children: vec![stmt, nl],
    }
}

fn leaf_by_raw(arena: &Arena, text: &str) -> NodeId {
    *arena
        .raw_segments(arena.root())
        .iter()
        .find(|&&l| arena.raw(l) == text)
        .expect("leaf found")
}

fn op(anchor: u128, kind: EditKind, edits: Vec<NodeSpec>) -> EditOp {
    EditOp {
        anchor_uuid: anchor,
        kind,
        edits,
    }
}

#[test]
fn stage_delete_and_commit() {
    let mut arena = Arena::from_node(&file_tree());
    let ws = leaf_by_raw(&arena, " ");
    let ws_uuid = arena.uuid(ws);
    let summary = arena.stage_edit_batch(vec![op(ws_uuid, EditKind::Delete, vec![])], false);
    assert!(summary.changed);
    assert_eq!(summary.applied, 1);
    assert_eq!(summary.staged_raw, "SELECTa\n");
    assert!(summary.unapplied_anchors.is_empty());
    assert_eq!(arena.raw(arena.root()), "SELECT a\n");
    assert_eq!(arena.epoch(), 0);
    let epoch = arena.commit_staged().expect("committed");
    assert_eq!(epoch, 1);
    assert_eq!(arena.raw(arena.root()), "SELECTa\n");
    assert!(arena.is_detached(ws));
    assert_eq!(arena.node_by_uuid(ws_uuid), None);
    assert_eq!(arena.raw(ws), " ");
    let select = arena.parent(leaf_by_raw(&arena, "SELECT")).unwrap();
    let kids = arena.children(select).to_vec();
    assert_eq!(kids.len(), 2);
    for (i, &k) in kids.iter().enumerate() {
        assert_eq!(arena.get_parent(k).unwrap().1, i);
        assert_eq!(arena.parent(k), Some(select));
    }
}

#[test]
fn stage_discard_is_identity() {
    let mut arena = Arena::from_node(&file_tree());
    let before_raw = arena.raw(arena.root());
    let before_len = arena.len();
    let ws_uuid = arena.uuid(leaf_by_raw(&arena, " "));
    let _ = arena.stage_edit_batch(vec![op(ws_uuid, EditKind::Delete, vec![])], false);
    assert!(arena.has_staged());
    arena.discard_staged();
    assert!(!arena.has_staged());
    assert_eq!(arena.raw(arena.root()), before_raw);
    assert_eq!(arena.len(), before_len);
    assert_eq!(arena.epoch(), 0);
    assert_eq!(arena.node_by_uuid(ws_uuid), Some(leaf_by_raw(&arena, " ")));
}

#[test]
fn replace_retires_uuid_and_consumed_pos_matches_native() {
    let mut arena = Arena::from_node(&file_tree());
    let kw = leaf_by_raw(&arena, "SELECT");
    let kw_uuid = arena.uuid(kw);
    let mut spec = raw_spec(kw_uuid, "keyword", "select");
    if let SpecKind::Raw { class_types, .. } = &mut spec.kind {
        *class_types = arena.class_types(kw);
    }
    let summary =
        arena.stage_edit_batch(vec![op(kw_uuid, EditKind::Replace, vec![spec])], false);
    assert_eq!(summary.staged_raw, "select a\n");
    arena.commit_staged().unwrap();
    assert_eq!(arena.raw(arena.root()), "select a\n");
    assert_eq!(arena.node_by_uuid(kw_uuid), None);
    let new_node = leaf_by_raw(&arena, "select");
    assert_ne!(new_node, kw);
    assert_ne!(arena.uuid(new_node), kw_uuid);
    assert!(arena.pos_marker(new_node).is_none());
}

#[test]
fn consumed_pos_inherits_marker_on_raw_match() {
    let tf = Arc::new(TemplatedFile::from_string("SELECT a\n"));
    let mk = |start: usize, stop: usize| {
        PositionMarker::new(
            Slice { start, stop },
            Slice { start, stop },
            &tf,
            None,
            None,
        )
    };
    let mut node = file_tree();
    assert!(set_marker(&mut node, "SELECT", mk(0, 6)));
    let mut arena = Arena::from_node(&node);
    let kw = leaf_by_raw(&arena, "SELECT");
    let kw_uuid = arena.uuid(kw);
    let spec = raw_spec((1u128 << 120) | 7, "keyword", "SELECT");
    arena.stage_edit_batch(vec![op(kw_uuid, EditKind::Replace, vec![spec])], false);
    arena.commit_staged().unwrap();
    let new_node = arena.node_by_uuid((1u128 << 120) | 7).expect("new node");
    let pm = arena.pos_marker(new_node).expect("marker inherited");
    assert_eq!(pm.source_slice, Slice { start: 0, stop: 6 });
}

#[test]
fn create_before_and_after_ordering() {
    let mut arena = Arena::from_node(&file_tree());
    let ident = leaf_by_raw(&arena, "a");
    let u = arena.uuid(ident);
    let before = raw_spec(9001, "whitespace", "<");
    let after = raw_spec(9002, "whitespace", ">");
    let summary = arena.stage_edit_batch(
        vec![
            op(u, EditKind::CreateAfter, vec![after]),
            op(u, EditKind::CreateBefore, vec![before]),
        ],
        false,
    );
    assert!(
        summary.staged_raw.contains("<a>") || summary.staged_raw.contains("< a>") || {
            let s = &summary.staged_raw;
            let (ib, ia, ig) = (
                s.find('<').unwrap(),
                s.find('a').unwrap(),
                s.find('>').unwrap(),
            );
            ib < ia && ia < ig
        }
    );
}

#[test]
fn anchor_inside_deleted_subtree_is_unapplied() {
    let mut arena = Arena::from_node(&file_tree());
    let select = arena.parent(leaf_by_raw(&arena, "SELECT")).unwrap();
    let ident = leaf_by_raw(&arena, "a");
    let select_uuid = arena.uuid(select);
    let ident_uuid = arena.uuid(ident);
    let inner_edit = raw_spec(9010, "naked_identifier", "b");
    let summary = arena.stage_edit_batch(
        vec![
            op(select_uuid, EditKind::Delete, vec![]),
            op(ident_uuid, EditKind::Replace, vec![inner_edit]),
        ],
        false,
    );
    assert_eq!(summary.applied, 1);
    assert_eq!(summary.unapplied_anchors, vec![ident_uuid]);
    assert_eq!(summary.staged_raw, "\n");
}

#[test]
fn root_anchor_never_applies() {
    let mut arena = Arena::from_node(&file_tree());
    let root_uuid = arena.uuid(arena.root());
    let summary = arena.stage_edit_batch(vec![op(root_uuid, EditKind::Delete, vec![])], false);
    assert_eq!(summary.applied, 0);
    assert_eq!(summary.unapplied_anchors, vec![root_uuid]);
    assert!(!summary.changed);
}

#[test]
fn nonconde_bubble_up_to_file_root() {
    let mut arena = Arena::from_node(&file_tree());
    let ident = leaf_by_raw(&arena, "a");
    let u = arena.uuid(ident);
    let e1 = raw_spec(9020, "naked_identifier", "b");
    let e2 = raw_spec(9021, "whitespace", "  ");
    let summary = arena.stage_edit_batch(vec![op(u, EditKind::Replace, vec![e1, e2])], false);
    assert_eq!(summary.staged_raw, "SELECT b  \n");
    arena.commit_staged().unwrap();
    assert_eq!(arena.raw(arena.root()), "SELECT b  \n");
    let file_kids = arena.children(arena.root()).to_vec();
    assert_eq!(file_kids.len(), 3);
    assert_eq!(arena.raw(file_kids[1]), "  ");
    for (i, &k) in file_kids.iter().enumerate() {
        assert_eq!(arena.parent(k), Some(arena.root()));
        assert_eq!(arena.get_parent(k).unwrap().1, i);
    }
}

#[test]
fn unparsable_scope_reverts_silently() {
    let kw = raw("KeywordSegment", "keyword", "SELEC", &["keyword"]);
    let unp = Node::Unparsable {
        expected: "select".to_string(),
        pos_marker: None,
        children: vec![kw],
    };
    let stmt = Node::Segment {
        segment_class: "StatementSegment".into(),
        segment_type: Some("statement".into()),
        pos_marker: None,
        class_types: vec!["statement".to_string()],
        children: vec![unp],
    };
    let tree = Node::Segment {
        segment_class: "FileSegment".into(),
        segment_type: Some("file".into()),
        pos_marker: None,
        class_types: vec!["file".to_string()],
        children: vec![stmt],
    };
    let mut arena = Arena::from_node(&tree);
    let kw_id = leaf_by_raw(&arena, "SELEC");
    let u = arena.uuid(kw_id);
    let edit = raw_spec(9030, "keyword", "SELECT");
    let summary = arena.stage_edit_batch(vec![op(u, EditKind::Replace, vec![edit])], false);
    assert_eq!(summary.reverted_containers, 1);
    assert_eq!(summary.staged_raw, "SELEC");
    assert!(!summary.changed);
    let mut arena2 = Arena::from_node(&tree);
    let kw2 = leaf_by_raw(&arena2, "SELEC");
    let u2 = arena2.uuid(kw2);
    let edit2 = raw_spec(9031, "keyword", "SELECT");
    let summary2 = arena2.stage_edit_batch(vec![op(u2, EditKind::Replace, vec![edit2])], false);
    let _ = summary2;
    arena2.discard_staged();
    let edit3 = raw_spec(9032, "keyword", "SELECT");
    let summary3 = arena2.stage_edit_batch(vec![op(u2, EditKind::Replace, vec![edit3])], true);
    assert_eq!(summary3.staged_raw, "SELECT");
    assert!(summary3.changed);
}

#[test]
fn op_inside_replacement_copy_applies() {
    let mut arena = Arena::from_node(&file_tree());
    let select = arena.parent(leaf_by_raw(&arena, "SELECT")).unwrap();
    let select_uuid = arena.uuid(select);
    let kw = leaf_by_raw(&arena, "SELECT");
    let kw_uuid = arena.uuid(kw);
    let copy_spec = NodeSpec {
        uuid: select_uuid,
        marker: None,
        kind: SpecKind::Segment {
            segment_class: "SelectStatementSegment".to_string(),
            segment_type: Some("select_statement".to_string()),
            class_types: vec!["select_statement".to_string()],
        },
        source_fixes: Vec::new(),
        children: vec![
            raw_spec(kw_uuid, "keyword", "SELECT"),
            raw_spec(9040, "whitespace", " "),
            raw_spec(9041, "naked_identifier", "z"),
        ],
    };
    let kw_edit = raw_spec(9042, "keyword", "select");
    let summary = arena.stage_edit_batch(
        vec![
            op(select_uuid, EditKind::Replace, vec![copy_spec]),
            op(kw_uuid, EditKind::Replace, vec![kw_edit]),
        ],
        false,
    );
    assert_eq!(summary.applied, 2);
    assert!(summary.unapplied_anchors.is_empty());
    assert_eq!(summary.staged_raw, "select z\n");
    arena.commit_staged().unwrap();
    assert_eq!(arena.raw(arena.root()), "select z\n");
}

#[test]
fn commit_invalidates_ancestor_caches() {
    let mut arena = Arena::from_node(&file_tree());
    let root = arena.root();
    let _ = arena.raw(root);
    let _ = arena.descendant_type_set(root);
    let ws_uuid = arena.uuid(leaf_by_raw(&arena, " "));
    arena.stage_edit_batch(vec![op(ws_uuid, EditKind::Delete, vec![])], false);
    arena.commit_staged().unwrap();
    assert_eq!(arena.raw(root), "SELECTa\n");
}

#[test]
fn empty_batch_is_noop() {
    let mut arena = Arena::from_node(&file_tree());
    let summary = arena.stage_edit_batch(vec![], false);
    assert!(!summary.changed);
    assert_eq!(summary.applied, 0);
    assert_eq!(summary.staged_raw, "SELECT a\n");
    arena.discard_staged();
    assert_eq!(arena.epoch(), 0);
}


fn marked_file_tree() -> (Node, Arc<TemplatedFile>) {
    let tf = Arc::new(TemplatedFile::from_string("SELECT a\n"));
    let mk = |start: usize, stop: usize| {
        PositionMarker::new(
            Slice { start, stop },
            Slice { start, stop },
            &tf,
            None,
            None,
        )
    };
    let mut kw = raw("KeywordSegment", "keyword", "SELECT", &["keyword"]);
    let mut ws = raw("WhitespaceSegment", "whitespace", " ", &["whitespace"]);
    let mut ident = raw(
        "IdentifierSegment",
        "naked_identifier",
        "a",
        &["identifier"],
    );
    let mut nl = raw("NewlineSegment", "newline", "\n", &["newline"]);
    for (n, (a, b)) in [
        (&mut kw, (0usize, 6usize)),
        (&mut ws, (6, 7)),
        (&mut ident, (7, 8)),
        (&mut nl, (8, 9)),
    ] {
        if let Node::Raw { pos_marker, .. } = n {
            *pos_marker = Some(mk(a, b));
        }
    }
    let select = Node::Segment {
        segment_class: "SelectStatementSegment".into(),
        segment_type: Some("select_statement".into()),
        pos_marker: Some(mk(0, 8)),
        class_types: vec!["select_statement".to_string(), "statement".to_string()],
        children: vec![kw, ws, ident],
    };
    let stmt = Node::Segment {
        segment_class: "StatementSegment".into(),
        segment_type: Some("statement".into()),
        pos_marker: Some(mk(0, 8)),
        class_types: vec!["statement".to_string()],
        children: vec![select],
    };
    let file = Node::Segment {
        segment_class: "FileSegment".into(),
        segment_type: Some("file".into()),
        pos_marker: Some(mk(0, 9)),
        class_types: vec!["file".to_string()],
        children: vec![stmt, nl],
    };
    (file, tf)
}

fn working_of(arena: &Arena, text: &str) -> (usize, usize) {
    arena
        .pos_marker(leaf_by_raw(arena, text))
        .expect("marker")
        .working_loc()
}

#[test]
fn position_pass_updates_working_after_delete() {
    let (node, _tf) = marked_file_tree();
    let mut arena = Arena::from_node(&node);
    assert_eq!(working_of(&arena, "a"), (1, 8));
    let ws_uuid = arena.uuid(leaf_by_raw(&arena, " "));
    arena.stage_edit_batch(vec![op(ws_uuid, EditKind::Delete, vec![])], false);
    arena.commit_staged().unwrap();
    assert_eq!(working_of(&arena, "a"), (1, 7));
    assert_eq!(working_of(&arena, "\n"), (1, 8));
    let a = leaf_by_raw(&arena, "a");
    assert_eq!(
        arena.pos_marker(a).unwrap().source_slice,
        Slice { start: 7, stop: 8 }
    );
}

#[test]
fn position_pass_point_marker_for_insertion() {
    let (node, _tf) = marked_file_tree();
    let mut arena = Arena::from_node(&node);
    let ident = leaf_by_raw(&arena, "a");
    let u = arena.uuid(ident);
    let new = raw_spec(9100, "keyword", "DISTINCT");
    arena.stage_edit_batch(vec![op(u, EditKind::CreateBefore, vec![new])], false);
    arena.commit_staged().unwrap();
    let nn = arena.node_by_uuid(9100).expect("inserted");
    let pm = arena.pos_marker(nn).expect("positioned");
    assert_eq!(pm.source_slice, Slice { start: 7, stop: 7 });
    assert!(pm.templated_slice.is_empty());
    assert_eq!(pm.working_loc(), (1, 8));
    assert_eq!(working_of(&arena, "a"), (1, 16));
}

#[test]
fn position_pass_widened_marker_over_gap() {
    let (node, _tf) = marked_file_tree();
    let mut arena = Arena::from_node(&node);
    let ws = leaf_by_raw(&arena, " ");
    let u = arena.uuid(ws);
    let new = raw_spec(9110, "whitespace", "  ");
    arena.stage_edit_batch(vec![op(u, EditKind::Replace, vec![new])], false);
    arena.commit_staged().unwrap();
    let nn = arena.node_by_uuid(9110).expect("replaced");
    let pm = arena.pos_marker(nn).expect("positioned");
    assert_eq!(pm.source_slice, Slice { start: 6, stop: 7 });
    assert_eq!(working_of(&arena, "a"), (1, 9));
}

#[test]
fn position_pass_recurses_into_new_subtree() {
    let (node, _tf) = marked_file_tree();
    let mut arena = Arena::from_node(&node);
    let ident = leaf_by_raw(&arena, "a");
    let u = arena.uuid(ident);
    let sub = NodeSpec {
        uuid: 9120,
        marker: None,
        kind: SpecKind::Segment {
            segment_class: "ColumnReferenceSegment".to_string(),
            segment_type: Some("column_reference".to_string()),
            class_types: vec!["column_reference".to_string()],
        },
        source_fixes: Vec::new(),
        children: vec![
            raw_spec(9121, "naked_identifier", "b"),
            raw_spec(9122, "dot", "."),
            raw_spec(9123, "naked_identifier", "c"),
        ],
    };
    arena.stage_edit_batch(vec![op(u, EditKind::Replace, vec![sub])], false);
    arena.commit_staged().unwrap();
    let cont = arena.node_by_uuid(9120).unwrap();
    assert!(arena.pos_marker(cont).is_some());
    for uu in [9121u128, 9122, 9123] {
        let n = arena.node_by_uuid(uu).unwrap();
        assert!(arena.pos_marker(n).is_some(), "child {uu} positioned");
    }
    assert_eq!(working_of(&arena, "b"), (1, 8));
    assert_eq!(working_of(&arena, "c"), (1, 10));
    assert_eq!(working_of(&arena, "\n"), (1, 11));
}

#[test]
fn meta_source_str_only_for_template_metas() {
    let tree = Node::Segment {
        segment_class: "FileSegment".into(),
        segment_type: Some("file".into()),
        pos_marker: None,
        class_types: vec!["file".to_string()],
        children: vec![
            raw("KeywordSegment", "keyword", "SELECT", &["keyword"]),
            Node::Meta {
                meta_type: MetaType::Template {
                    source_str: "{{ ref('a') }}".to_string(),
                    block_type: "templated".to_string(),
                },
                pos_marker: None,
                block_uuid: None,
            },
        ],
    };
    let arena = Arena::from_node(&tree);
    let root = arena.root();
    let kids = arena.children(root).to_vec();
    assert_eq!(arena.meta_source_str(kids[0]), None);
    assert_eq!(
        arena.meta_source_str(kids[1]).as_deref(),
        Some("{{ ref('a') }}")
    );
}


fn typed_leaf(
    class: &str,
    ty: &str,
    text: &str,
    instance: &[&str],
    class_hierarchy: &[&str],
) -> Node {
    Node::new_raw_with_class_types(
        class.to_string(),
        ty.to_string(),
        ty.to_string(),
        text.to_string(),
        None,
        instance.iter().map(|s| s.to_string()).collect(),
        &class_hierarchy
            .iter()
            .map(|s| s.to_string())
            .collect::<Vec<_>>(),
        RawSegmentKwargs::default(),
    )
}

fn typed_raw_spec(
    uuid: u128,
    ty: &str,
    text: &str,
    instance: &[&str],
    class_types: &[&str],
) -> NodeSpec {
    NodeSpec {
        uuid,
        marker: None,
        kind: SpecKind::Raw {
            segment_class: "RawSegment".to_string(),
            segment_type: ty.to_string(),
            class_type: ty.to_string(),
            raw: text.to_string(),
            instance_types: instance.iter().map(|s| s.to_string()).collect(),
            class_types: class_types.iter().map(|s| s.to_string()).collect(),
            kwargs: RawSegmentKwargs::default(),
        },
        source_fixes: Vec::new(),
        children: Vec::new(),
    }
}

fn function_name_tree(leaf: Node) -> Node {
    Node::Segment {
        segment_class: "FunctionNameSegment".into(),
        segment_type: Some("function_name".into()),
        pos_marker: None,
        class_types: vec!["function_name".to_string()],
        children: vec![leaf],
    }
}

#[test]
fn validate_staged_rejects_type_changing_replace() {
    let tree = function_name_tree(typed_leaf(
        "WordSegment",
        "function_name_identifier",
        "foo",
        &["function_name_identifier"],
        &["word", "raw", "base"],
    ));
    let mut arena = Arena::from_node(&tree);
    let leaf = leaf_by_raw(&arena, "foo");
    let leaf_uuid = arena.uuid(leaf);
    let spec = typed_raw_spec(
        leaf_uuid,
        "naked_identifier",
        "foo",
        &["naked_identifier"],
        &["identifier", "raw", "base"],
    );
    arena.stage_edit_batch(vec![op(leaf_uuid, EditKind::Replace, vec![spec])], false);
    assert!(
        !arena.validate_staged(&has_grammar, &rematch),
        "type-changing replace should fail grammar re-validation"
    );
}

#[test]
fn validate_staged_accepts_type_preserving_replace() {
    let tree = function_name_tree(typed_leaf(
        "WordSegment",
        "function_name_identifier",
        "foo",
        &["function_name_identifier"],
        &["word", "raw", "base"],
    ));
    let mut arena = Arena::from_node(&tree);
    let leaf = leaf_by_raw(&arena, "foo");
    let leaf_uuid = arena.uuid(leaf);
    let spec = typed_raw_spec(
        leaf_uuid,
        "function_name_identifier",
        "bar",
        &["function_name_identifier"],
        &["word", "raw", "base"],
    );
    arena.stage_edit_batch(vec![op(leaf_uuid, EditKind::Replace, vec![spec])], false);
    assert!(
        arena.validate_staged(&has_grammar, &rematch),
        "type-preserving replace should pass re-validation"
    );
}

#[test]
fn validate_staged_true_when_nothing_staged() {
    let arena = Arena::from_node(&file_tree());
    assert!(arena.validate_staged(&has_grammar, &rematch));
}
