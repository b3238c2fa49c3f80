//! Segment payloads: what a tree node is, apart from its place in the tree.

use vstd::prelude::*;

use crate::text::{clone_texts, contains_str, contains_text, push_unique, same_text};

verus! {

/// How a dialect folds the case of an identifier.
#[derive(Clone, Copy, Debug, PartialEq, Eq, Structural)]
pub enum CaseFold {
    NoFold,
    Upper,
    Lower,
}

/// Lexing and matching attributes of a raw segment.
#[derive(Debug)]
pub struct RawSegmentKwargs {
    pub trim_chars: Option<Vec<String>>,
    pub quoted_value: Option<(String, String)>,
    pub escape_replacements: Option<Vec<(String, String)>>,
    pub trim_start: Option<Vec<String>>,
    pub casefold: CaseFold,
}

/// The texts behind [`RawSegmentKwargs`].
pub struct KwargsView {
    pub trim_chars: Option<Seq<Seq<char>>>,
    pub quoted_value: Option<(Seq<char>, Seq<char>)>,
    pub escape_replacements: Option<Seq<(Seq<char>, Seq<char>)>>,
    pub trim_start: Option<Seq<Seq<char>>>,
    pub casefold: CaseFold,
}

/// The texts of an optional list.
pub open spec fn opt_texts(list: Option<Vec<String>>) -> Option<Seq<Seq<char>>> {
    match list {
        Some(v) => Some(crate::text::texts(v@)),
        None => None,
    }
}

/// The texts of an optional string.
pub open spec fn opt_text(s: Option<String>) -> Option<Seq<char>> {
    match s {
        Some(t) => Some(t@),
        None => None,
    }
}

/// The texts of an optional pair of strings.
pub open spec fn opt_pair(p: Option<(String, String)>) -> Option<(Seq<char>, Seq<char>)> {
    match p {
        Some(t) => Some((t.0@, t.1@)),
        None => None,
    }
}

/// The texts of an optional list of pairs.
pub open spec fn opt_pairs(list: Option<Vec<(String, String)>>) -> Option<
    Seq<(Seq<char>, Seq<char>)>,
> {
    match list {
        Some(v) => Some(v@.map_values(|p: (String, String)| (p.0@, p.1@))),
        None => None,
    }
}

pub(crate) fn clone_opt_texts(list: &Option<Vec<String>>) -> (r: Option<Vec<String>>)
    ensures
        opt_texts(r) == opt_texts(*list),
{
    match list {
        Some(v) => Some(clone_texts(v)),
        None => None,
    }
}

pub(crate) fn clone_opt_text(s: &Option<String>) -> (r: Option<String>)
    ensures
        r == *s,
{
    match s {
        Some(t) => Some(t.clone()),
        None => None,
    }
}

pub(crate) fn clone_opt_pair(p: &Option<(String, String)>) -> (r: Option<(String, String)>)
    ensures
        r == *p,
{
    match p {
        Some(t) => Some((t.0.clone(), t.1.clone())),
        None => None,
    }
}

pub(crate) fn clone_opt_pairs(list: &Option<Vec<(String, String)>>) -> (r: Option<
    Vec<(String, String)>,
>)
    ensures
        opt_pairs(r) == opt_pairs(*list),
{
    match list {
        Some(v) => {
            let mut out: Vec<(String, String)> = Vec::new();
            for i in 0..v.len()
                invariant
                    out@ == v@.take(i as int),
            {
                out.push((v[i].0.clone(), v[i].1.clone()));
            }
            assert(v@.take(v@.len() as int) == v@);
            Some(out)
        },
        None => None,
    }
}

impl RawSegmentKwargs {
    /// The texts behind the attributes.
    pub open spec fn view(self) -> KwargsView {
        KwargsView {
            trim_chars: opt_texts(self.trim_chars),
            quoted_value: opt_pair(self.quoted_value),
            escape_replacements: opt_pairs(self.escape_replacements),
            trim_start: opt_texts(self.trim_start),
            casefold: self.casefold,
        }
    }
}

impl Clone for RawSegmentKwargs {
    fn clone(&self) -> (r: RawSegmentKwargs)
        ensures
            r@ == self@,
    {
        RawSegmentKwargs {
            trim_chars: clone_opt_texts(&self.trim_chars),
            quoted_value: clone_opt_pair(&self.quoted_value),
            escape_replacements: clone_opt_pairs(&self.escape_replacements),
            trim_start: clone_opt_texts(&self.trim_start),
            casefold: self.casefold,
        }
    }
}

impl Default for RawSegmentKwargs {
    fn default() -> (r: RawSegmentKwargs)
        ensures
            r@ == (KwargsView {
                trim_chars: None,
                quoted_value: None,
                escape_replacements: None,
                trim_start: None,
                casefold: CaseFold::NoFold,
            }),
    {
        RawSegmentKwargs {
            trim_chars: None,
            quoted_value: None,
            escape_replacements: None,
            trim_start: None,
            casefold: CaseFold::NoFold,
        }
    }
}

/// A segment that holds no source of its own.
#[derive(Debug)]
pub enum MetaType {
    Indent { is_implicit: bool },
    Dedent { is_implicit: bool },
    Template { source_str: String, block_type: String },
    TemplateLoop,
    EndOfFile,
}

/// The texts behind [`MetaType`].
pub enum MetaView {
    Indent { is_implicit: bool },
    Dedent { is_implicit: bool },
    Template { source_str: Seq<char>, block_type: Seq<char> },
    TemplateLoop,
    EndOfFile,
}

impl MetaType {
    /// The texts behind the meta.
    pub open spec fn view(self) -> MetaView {
        match self {
            MetaType::Indent { is_implicit } => MetaView::Indent { is_implicit },
            MetaType::Dedent { is_implicit } => MetaView::Dedent { is_implicit },
            MetaType::Template { source_str, block_type } => MetaView::Template {
                source_str: source_str@,
                block_type: block_type@,
            },
            MetaType::TemplateLoop => MetaView::TemplateLoop,
            MetaType::EndOfFile => MetaView::EndOfFile,
        }
    }
}

impl Clone for MetaType {
    fn clone(&self) -> (r: MetaType)
        ensures
            r@ == self@,
    {
        match self {
            MetaType::Indent { is_implicit } => MetaType::Indent { is_implicit: *is_implicit },
            MetaType::Dedent { is_implicit } => MetaType::Dedent { is_implicit: *is_implicit },
            MetaType::Template { source_str, block_type } => MetaType::Template {
                source_str: source_str.clone(),
                block_type: block_type.clone(),
            },
            MetaType::TemplateLoop => MetaType::TemplateLoop,
            MetaType::EndOfFile => MetaType::EndOfFile,
        }
    }
}

impl MetaView {
    /// The type name of a meta.
    pub open spec fn name(self) -> Seq<char> {
        match self {
            MetaView::Indent { .. } => "indent"@,
            MetaView::Dedent { .. } => "dedent"@,
            MetaView::Template { .. } => "placeholder"@,
            MetaView::TemplateLoop => "template_loop"@,
            MetaView::EndOfFile => "end_of_file"@,
        }
    }
}

/// The type name of a meta.
pub fn meta_type_str(meta_type: &MetaType) -> (r: &'static str)
    ensures
        r@ == meta_type@.name(),
{
    match meta_type {
        MetaType::Indent { .. } => "indent",
        MetaType::Dedent { .. } => "dedent",
        MetaType::Template { .. } => "placeholder",
        MetaType::TemplateLoop => "template_loop",
        MetaType::EndOfFile => "end_of_file",
    }
}

/// The payload of a tree node.
#[allow(inconsistent_fields)]
#[derive(Debug)]
pub enum NodeKind {
    Raw {
        segment_class: String,
        /// The semantic type.
        segment_type: String,
        /// The class-level type; another than `segment_type` where a parser
        /// gave the instance its own (class `symbol`, instance `star`).
        class_type: String,
        raw: String,
        instance_types: Vec<String>,
        class_types: Vec<String>,
        kwargs: RawSegmentKwargs,
    },
    Segment { segment_class: String, segment_type: Option<String>, class_types: Vec<String> },
    Meta {
        meta_type: MetaType,
        /// The template block that the meta came from.
        block_uuid: Option<u128>,
    },
    Unparsable { expected: String },
    Empty,
}

/// The mathematical payload of a tree node.
#[allow(inconsistent_fields)]
pub enum Kind {
    Raw {
        segment_class: Seq<char>,
        segment_type: Seq<char>,
        class_type: Seq<char>,
        raw: Seq<char>,
        instance_types: Seq<Seq<char>>,
        class_types: Seq<Seq<char>>,
        kwargs: KwargsView,
    },
    Segment {
        segment_class: Seq<char>,
        segment_type: Option<Seq<char>>,
        class_types: Seq<Seq<char>>,
    },
    Meta { meta: MetaView, block_uuid: Option<u128> },
    Unparsable { expected: Seq<char> },
    Empty,
}

impl NodeKind {
    /// The mathematical payload.
    pub open spec fn view(self) -> Kind {
        match self {
            NodeKind::Raw {
                segment_class,
                segment_type,
                class_type,
                raw,
                instance_types,
                class_types,
                kwargs,
            } => Kind::Raw {
                segment_class: segment_class@,
                segment_type: segment_type@,
                class_type: class_type@,
                raw: raw@,
                instance_types: crate::text::texts(instance_types@),
                class_types: crate::text::texts(class_types@),
                kwargs: kwargs@,
            },
            NodeKind::Segment { segment_class, segment_type, class_types } => Kind::Segment {
                segment_class: segment_class@,
                segment_type: opt_text(segment_type),
                class_types: crate::text::texts(class_types@),
            },
            NodeKind::Meta { meta_type, block_uuid } => Kind::Meta { meta: meta_type@, block_uuid },
            NodeKind::Unparsable { expected } => Kind::Unparsable { expected: expected@ },
            NodeKind::Empty => Kind::Empty,
        }
    }
}

/// Whether one of the listed types makes a raw segment non-code.
pub open spec fn non_code_type(t: Seq<char>) -> bool {
    t == "whitespace"@ || t == "newline"@ || t == "comment"@ || t == "inline_comment"@ || t
        == "block_comment"@ || t == "trailing_newline"@
}

/// Whether a raw segment is code: neither whitespace, newline nor comment, by
/// instance types, semantic type or class types.
pub open spec fn raw_code(
    segment_type: Seq<char>,
    instance_types: Seq<Seq<char>>,
    class_types: Seq<Seq<char>>,
) -> bool {
    !((exists|i: int| 0 <= i < instance_types.len() && non_code_type(#[trigger] instance_types[i]))
        || crate::text::has_infix(
        segment_type,
        "comment"@,
    ) || segment_type == "whitespace"@ || segment_type == "newline"@ || class_types.contains(
        "comment"@,
    ))
}

impl Kind {
    /// The types that every node of this shape has.
    pub open spec fn structural(self) -> Seq<Seq<char>> {
        match self {
            Kind::Raw { .. } => seq!["raw"@, "base"@],
            Kind::Segment { .. } => seq!["base"@],
            Kind::Meta { meta: MetaView::Dedent { .. }, .. } => seq![
                "dedent"@,
                "indent"@,
                "meta"@,
                "raw"@,
                "base"@,
            ],
            Kind::Meta { .. } => seq!["meta"@, "raw"@, "base"@],
            Kind::Unparsable { .. } => seq!["unparsable"@, "base"@],
            Kind::Empty => Seq::empty(),
        }
    }

    /// The semantic type.
    pub open spec fn semantic_type(self) -> Seq<char> {
        match self {
            Kind::Raw { segment_type, .. } => segment_type,
            Kind::Segment { segment_type: Some(t), .. } => t,
            Kind::Segment { .. } => ""@,
            Kind::Meta { meta, .. } => meta.name(),
            Kind::Unparsable { .. } => "unparsable"@,
            Kind::Empty => "empty"@,
        }
    }

    /// The class-level type.
    pub open spec fn class_level_type(self) -> Seq<char> {
        match self {
            Kind::Raw { class_type, .. } => class_type,
            _ => self.semantic_type(),
        }
    }

    /// The declared class types.
    pub open spec fn declared(self) -> Seq<Seq<char>> {
        match self {
            Kind::Raw { class_types, .. } => class_types,
            Kind::Segment { class_types, .. } => class_types,
            _ => Seq::empty(),
        }
    }

    /// Whether the node is of the type `t`: structurally, semantically or by a
    /// declared class type.
    pub open spec fn is_type(self, t: Seq<char>) -> bool {
        self.structural().contains(t) || match self {
            Kind::Raw { segment_type, class_types, .. } => segment_type == t
                || class_types.contains(t),
            Kind::Segment { segment_type, class_types, .. } => segment_type == Some(t)
                || class_types.contains(t),
            _ => self.semantic_type() == t,
        }
    }

    /// Whether the node is of one of the types.
    pub open spec fn is_any_type(self, ts: Seq<Seq<char>>) -> bool {
        exists|i: int| 0 <= i < ts.len() && self.is_type(#[trigger] ts[i])
    }

    /// All types of the node: the declared ones, then the semantic one, then
    /// the structural ones, each of the latter only where it is new.
    pub open spec fn type_list(self) -> Seq<Seq<char>> {
        self.structural().fold_left(
            crate::text::with_unique(self.declared(), self.semantic_type()),
            |acc: Seq<Seq<char>>, t: Seq<char>| crate::text::with_unique(acc, t),
        )
    }

    /// The class name, for the nodes that have one.
    pub open spec fn class_name(self) -> Option<Seq<char>> {
        match self {
            Kind::Raw { segment_class, .. } => Some(segment_class),
            Kind::Segment { segment_class, .. } => Some(segment_class),
            _ => None,
        }
    }

    /// The instance types.
    pub open spec fn instances(self) -> Seq<Seq<char>> {
        match self {
            Kind::Raw { instance_types, .. } => instance_types,
            _ => Seq::empty(),
        }
    }

    /// The kind of template block that a placeholder stands for.
    pub open spec fn block_type(self) -> Option<Seq<char>> {
        match self {
            Kind::Meta { meta: MetaView::Template { block_type, .. }, .. } => Some(block_type),
            _ => None,
        }
    }

    /// Whether containers of this kind may start and end with non-code.
    pub open spec fn allows_non_code_ends(self) -> bool {
        self.is_type("file"@) || self.is_type("unparsable"@)
    }
}

/// Whether a raw segment is code.
pub(crate) fn raw_is_code(
    segment_type: &str,
    instance_types: &Vec<String>,
    class_types: &Vec<String>,
) -> (r: bool)
    ensures
        r == raw_code(
            segment_type@,
            crate::text::texts(instance_types@),
            crate::text::texts(class_types@),
        ),
{
    let ghost types = crate::text::texts(instance_types@);
    let mut i: usize = 0;
    while i < instance_types.len()
        invariant
            i <= instance_types@.len(),
            types == crate::text::texts(instance_types@),
            forall|j: int| 0 <= j < i ==> !non_code_type(#[trigger] types[j]),
        decreases instance_types@.len() - i,
    {
        let t = instance_types[i].as_str();
        if same_text(t, "whitespace") || same_text(t, "newline") || same_text(t, "comment")
            || same_text(t, "inline_comment") || same_text(t, "block_comment") || same_text(
            t,
            "trailing_newline",
        ) {
            assert(non_code_type(types[i as int]));
            return false;
        }
        i += 1;
    }
    !(contains_str(segment_type, "comment") || same_text(segment_type, "whitespace") || same_text(
        segment_type,
        "newline",
    ) || contains_text(class_types, "comment"))
}

impl Clone for NodeKind {
    fn clone(&self) -> (r: NodeKind)
        ensures
            r@ == self@,
    {
        match self {
            NodeKind::Raw {
                segment_class,
                segment_type,
                class_type,
                raw,
                instance_types,
                class_types,
                kwargs,
            } => NodeKind::Raw {
                segment_class: segment_class.clone(),
                segment_type: segment_type.clone(),
                class_type: class_type.clone(),
                raw: raw.clone(),
                instance_types: clone_texts(instance_types),
                class_types: clone_texts(class_types),
                kwargs: kwargs.clone(),
            },
            NodeKind::Segment { segment_class, segment_type, class_types } => NodeKind::Segment {
                segment_class: segment_class.clone(),
                segment_type: clone_opt_text(segment_type),
                class_types: clone_texts(class_types),
            },
            NodeKind::Meta { meta_type, block_uuid } => NodeKind::Meta {
                meta_type: meta_type.clone(),
                block_uuid: *block_uuid,
            },
            NodeKind::Unparsable { expected } => NodeKind::Unparsable {
                expected: expected.clone(),
            },
            NodeKind::Empty => NodeKind::Empty,
        }
    }
}

impl NodeKind {
    /// The types that every node of this shape has.
    pub(crate) fn structural_types(&self) -> (r: Vec<String>)
        ensures
            crate::text::texts(r@) == self@.structural(),
    {
        let mut out: Vec<String> = Vec::new();
        match self {
            NodeKind::Raw { .. } => {
                out.push("raw".to_owned());
                out.push("base".to_owned());
            },
            NodeKind::Segment { .. } => {
                out.push("base".to_owned());
            },
            NodeKind::Meta { meta_type: MetaType::Dedent { .. }, .. } => {
                out.push("dedent".to_owned());
                out.push("indent".to_owned());
                out.push("meta".to_owned());
                out.push("raw".to_owned());
                out.push("base".to_owned());
            },
            NodeKind::Meta { .. } => {
                out.push("meta".to_owned());
                out.push("raw".to_owned());
                out.push("base".to_owned());
            },
            NodeKind::Unparsable { .. } => {
                out.push("unparsable".to_owned());
                out.push("base".to_owned());
            },
            NodeKind::Empty => {},
        }
        assert(crate::text::texts(out@) =~= self@.structural());
        out
    }

    /// The semantic type.
    pub(crate) fn type_text(&self) -> (r: String)
        ensures
            r@ == self@.semantic_type(),
    {
        match self {
            NodeKind::Raw { segment_type, .. } => segment_type.clone(),
            NodeKind::Segment { segment_type, .. } => match segment_type {
                Some(t) => t.clone(),
                None => "".to_owned(),
            },
            NodeKind::Meta { meta_type, .. } => meta_type_str(meta_type).to_owned(),
            NodeKind::Unparsable { .. } => "unparsable".to_owned(),
            NodeKind::Empty => "empty".to_owned(),
        }
    }

    /// Whether the node is of the type.
    pub(crate) fn is_type(&self, target: &str) -> (r: bool)
        ensures
            r == self@.is_type(target@),
    {
        let structural = self.structural_types();
        if contains_text(&structural, target) {
            return true;
        }
        match self {
            NodeKind::Raw { segment_type, class_types, .. } => same_text(
                segment_type.as_str(),
                target,
            ) || contains_text(class_types, target),
            NodeKind::Segment { segment_type, class_types, .. } => (match segment_type {
                Some(t) => same_text(t.as_str(), target),
                None => false,
            }) || contains_text(class_types, target),
            _ => {
                let name = self.type_text();
                same_text(name.as_str(), target)
            },
        }
    }

    /// Whether the node is of one of the types.
    pub(crate) fn is_any_type(&self, targets: &[String]) -> (r: bool)
        ensures
            r == self@.is_any_type(crate::text::texts(targets@)),
    {
        let ghost ts = crate::text::texts(targets@);
        let mut i: usize = 0;
        while i < targets.len()
            invariant
                i <= targets@.len(),
                ts == crate::text::texts(targets@),
                forall|j: int| 0 <= j < i ==> !self@.is_type(#[trigger] ts[j]),
            decreases targets@.len() - i,
        {
            if self.is_type(targets[i].as_str()) {
                assert(self@.is_type(ts[i as int]));
                return true;
            }
            i += 1;
        }
        false
    }

    /// All types of the node.
    pub(crate) fn type_list(&self) -> (r: Vec<String>)
        ensures
            crate::text::texts(r@) == self@.type_list(),
    {
        let mut out: Vec<String> = match self {
            NodeKind::Raw { class_types, .. } => clone_texts(class_types),
            NodeKind::Segment { class_types, .. } => clone_texts(class_types),
            _ => Vec::new(),
        };
        assert(crate::text::texts(out@) =~= self@.declared());
        let name = self.type_text();
        push_unique(&mut out, name);
        let structural = self.structural_types();
        let ghost all = self@.structural();
        let ghost start = crate::text::with_unique(self@.declared(), self@.semantic_type());
        let ghost step = |acc: Seq<Seq<char>>, t: Seq<char>| crate::text::with_unique(acc, t);
        assert(all.take(0) =~= Seq::empty());
        for i in 0..structural.len()
            invariant
                all == crate::text::texts(structural@),
                step == (|acc: Seq<Seq<char>>, t: Seq<char>| crate::text::with_unique(acc, t)),
                crate::text::texts(out@) == all.take(i as int).fold_left(start, step),
        {
            assert(all.take(i + 1).drop_last() =~= all.take(i as int));
            push_unique(&mut out, structural[i].clone());
        }
        assert(all.take(all.len() as int) =~= all);
        out
    }
}

proof fn unique_fold_contains(start: Seq<Seq<char>>, more: Seq<Seq<char>>, t: Seq<char>)
    ensures
        more.fold_left(
            start,
            |acc: Seq<Seq<char>>, u: Seq<char>| crate::text::with_unique(acc, u),
        ).contains(t) <==> start.contains(t) || more.contains(t),
    decreases more.len(),
{
    let step = |acc: Seq<Seq<char>>, u: Seq<char>| crate::text::with_unique(acc, u);
    if more.len() > 0 {
        unique_fold_contains(start, more.drop_last(), t);
        let before = more.drop_last().fold_left(start, step);
        if before.contains(t) {
            let i = choose|i: int| 0 <= i < before.len() && before[i] == t;
            assert(before.push(more.last())[i] == t);
        }
        assert(before.push(more.last())[before.len() as int] == more.last());
        if more.drop_last().contains(t) {
            let i = choose|i: int| 0 <= i < more.drop_last().len() && more.drop_last()[i] == t;
            assert(more[i] == t);
        }
        if more.contains(t) {
            let i = choose|i: int| 0 <= i < more.len() && more[i] == t;
            if i < more.len() - 1 {
                assert(more.drop_last()[i] == t);
            }
        }
        if before.push(more.last()).contains(t) {
            let i = choose|i: int|
                0 <= i < before.push(more.last()).len() && before.push(more.last())[i] == t;
            if i < before.len() {
                assert(before[i] == t);
            }
        }
    }
}

/// A node that is of a type lists it.
pub(crate) proof fn type_is_listed(kind: Kind, t: Seq<char>)
    requires
        kind.is_type(t),
    ensures
        kind.type_list().contains(t),
{
    let start = crate::text::with_unique(kind.declared(), kind.semantic_type());
    unique_fold_contains(start, kind.structural(), t);
    if kind.declared().contains(t) {
        let i = choose|i: int| 0 <= i < kind.declared().len() && kind.declared()[i] == t;
        assert(start[i] == t);
    }
    if t == kind.semantic_type() && !kind.declared().contains(t) {
        assert(start[start.len() - 1] == t);
    }
}

/// A node is of a type exactly when its type list holds it; only a segment
/// without a semantic type lists the empty type without being of it.
pub proof fn is_type_is_listed(kind: Kind, t: Seq<char>)
    requires
        !(kind is Segment && kind->Segment_segment_type is None && t == ""@),
    ensures
        kind.is_type(t) == kind.type_list().contains(t),
{
    let start = crate::text::with_unique(kind.declared(), kind.semantic_type());
    unique_fold_contains(start, kind.structural(), t);
    unique_fold_contains(kind.declared(), seq![kind.semantic_type()], t);
    let one = seq![kind.semantic_type()];
    let step = |acc: Seq<Seq<char>>, u: Seq<char>| crate::text::with_unique(acc, u);
    assert(one.drop_last() =~= Seq::empty());
    reveal_with_fuel(Seq::fold_left, 2);
    assert(one.fold_left(kind.declared(), step) == start);
    assert(one.contains(t) <==> t == kind.semantic_type()) by {
        if t == kind.semantic_type() {
            assert(one[0] == t);
        }
    }
}

/// What every node is: a declared or semantic type of its own; but for an empty node
/// `base`; a raw segment or a meta `raw`; a meta `meta`; a dedent `indent` and `dedent`;
/// and what did not parse `unparsable`. It is nothing else.
pub proof fn what_a_node_is(kind: Kind, t: Seq<char>)
    ensures
        kind.is_type(t) <==> {
            ||| kind.declared().contains(t)
            ||| t == "base"@ && !(kind is Empty)
            ||| t == "raw"@ && (kind is Raw || kind is Meta)
            ||| t == "meta"@ && kind is Meta
            ||| (t == "indent"@ || t == "dedent"@) && kind matches Kind::Meta {
                meta: MetaView::Dedent { .. },
                ..
            }
            ||| t == "unparsable"@ && kind is Unparsable
            ||| kind matches Kind::Raw { segment_type, .. } && t == segment_type
            ||| kind matches Kind::Segment { segment_type, .. } && Some(t) == segment_type
            ||| kind matches Kind::Meta { meta, .. } && t == meta.name()
            ||| t == "empty"@ && kind is Empty
        },
{
    let s = kind.structural();
    if s.contains(t) {
        let i = choose|i: int| 0 <= i < s.len() && s[i] == t;
        assert(i == 0 || i == 1 || i == 2 || i == 3 || i == 4);
    }
    match kind {
        Kind::Raw { .. } => {
            assert(s[0] == "raw"@ && s[1] == "base"@);
        },
        Kind::Segment { .. } => {
            assert(s[0] == "base"@);
        },
        Kind::Meta { meta: MetaView::Dedent { .. }, .. } => {
            assert(s[0] == "dedent"@ && s[1] == "indent"@ && s[2] == "meta"@ && s[3] == "raw"@
                && s[4] == "base"@);
        },
        Kind::Meta { .. } => {
            assert(s[0] == "meta"@ && s[1] == "raw"@ && s[2] == "base"@);
        },
        Kind::Unparsable { .. } => {
            assert(s[0] == "unparsable"@ && s[1] == "base"@);
        },
        Kind::Empty => {},
    }
}

/// A node is of one of several types just where it is of one of them.
pub proof fn any_of_two(kind: Kind, a: Seq<Seq<char>>, b: Seq<Seq<char>>)
    ensures
        kind.is_any_type(a + b) <==> kind.is_any_type(a) || kind.is_any_type(b),
        a.len() == 1 ==> kind.is_any_type(a) == kind.is_type(a[0]),
        !kind.is_any_type(Seq::<Seq<char>>::empty()),
{
    if kind.is_any_type(a) {
        let i = choose|i: int| 0 <= i < a.len() && kind.is_type(#[trigger] a[i]);
        assert((a + b)[i] == a[i]);
    }
    if kind.is_any_type(b) {
        let i = choose|i: int| 0 <= i < b.len() && kind.is_type(#[trigger] b[i]);
        assert((a + b)[a.len() + i] == b[i]);
    }
    if kind.is_any_type(a + b) {
        let i = choose|i: int| 0 <= i < (a + b).len() && kind.is_type(#[trigger] (a + b)[i]);
        if i < a.len() {
            assert(a[i] == (a + b)[i]);
        } else {
            assert(b[i - a.len()] == (a + b)[i]);
        }
    }
    if a.len() == 1 && kind.is_type(a[0]) {
        assert(kind.is_type(a[0]));
    }
}

} // verus!
