//! The reflow configuration: which spacing each type of segment wants.

use vstd::prelude::*;

use crate::reflow::depthmap::DepthInfo;
use crate::reflow::lookup::{TextMap, TypeSet};
use crate::text::same_text;

#[allow(unused_imports)]
use crate::reflow::depthmap::{DepthView, Inherited, PositionView};

verus! {

broadcast use vstd::std_specs::hash::group_hash_axioms;

/// The settings of one type: key to value.
pub type ConfigElementType = TextMap<String>;

/// The settings of all types: segment type to settings.
pub type ConfigDictType = TextMap<ConfigElementType>;

/// The reflow configuration.
#[derive(Debug)]
pub struct ReflowConfig {
    pub(crate) config_dict: ConfigDictType,
    /// The types that have settings.
    pub config_types: TypeSet,
    pub tab_space_size: usize,
    pub indent_unit: String,
    pub max_line_length: usize,
    /// The types that a segment type inherits.
    pub class_types_map: TextMap<Vec<String>>,
}

/// The settings of one type.
pub type Settings = Map<Seq<char>, Seq<char>>;

/// The mathematical form of [`ReflowConfig`].
#[verifier::ext_equal]
pub struct ConfigView {
    pub settings: Map<Seq<char>, Settings>,
    pub types: Set<Seq<char>>,
    pub tab_space_size: usize,
    pub indent_unit: Seq<char>,
    pub max_line_length: usize,
    pub inherited: Inherited,
}

/// The settings of one type.
pub open spec fn settings_view(m: ConfigElementType) -> Settings {
    m@.map_values(|v: String| v@)
}

/// The settings of all types.
pub open spec fn dict_view(d: ConfigDictType) -> Map<Seq<char>, Settings> {
    d@.map_values(|m: ConfigElementType| settings_view(m))
}

impl ReflowConfig {
    /// The mathematical form.
    pub open(crate) spec fn view(self) -> ConfigView {
        ConfigView {
            settings: dict_view(self.config_dict),
            types: self.config_types@.to_set(),
            tab_space_size: self.tab_space_size,
            indent_unit: self.indent_unit@,
            max_line_length: self.max_line_length,
            inherited: crate::reflow::depthmap::lists_view(self.class_types_map),
        }
    }
}

/// The spacing that one block wants.
#[derive(Debug)]
pub struct BlockConfig {
    pub spacing_before: String,
    pub spacing_after: String,
    pub spacing_within: Option<String>,
    pub line_position: Option<String>,
}

/// The mathematical form of [`BlockConfig`].
pub struct BlockConfigView {
    pub spacing_before: Seq<char>,
    pub spacing_after: Seq<char>,
    pub spacing_within: Option<Seq<char>>,
    pub line_position: Option<Seq<char>>,
}

/// The text of an optional string slice.
pub open spec fn opt_str(s: Option<&str>) -> Option<Seq<char>> {
    match s {
        Some(t) => Some(t@),
        None => None,
    }
}

/// The settings behind an optional reference.
pub open spec fn opt_settings(m: Option<&ConfigElementType>) -> Option<Settings> {
    match m {
        Some(s) => Some(settings_view(*s)),
        None => None,
    }
}

/// The value on offer: the given one, else that of the settings; an empty value
/// is no offer.
pub open spec fn offer(
    given: Option<Seq<char>>,
    config: Option<Settings>,
    key: Seq<char>,
) -> Option<Seq<char>> {
    let v = match (given, config) {
        (Some(t), _) => Some(t),
        (None, Some(m)) => if m.contains_key(key) {
            Some(m[key])
        } else {
            None
        },
        (None, None) => None,
    };
    if v == Some(""@) {
        None
    } else {
        v
    }
}

/// The value on offer.
fn offered<'a>(
    given: Option<&'a str>,
    config: Option<&'a ConfigElementType>,
    key: &str,
) -> (r: Option<&'a str>)
    ensures
        opt_str(r) == offer(opt_str(given), opt_settings(config), key@),
{
    let v = match given {
        Some(t) => Some(t),
        None => match config {
            Some(m) => match m.get(key) {
                Some(t) => Some(t.as_str()),
                None => None,
            },
            None => None,
        },
    };
    match v {
        Some(t) => if same_text(t, "") {
            None
        } else {
            Some(t)
        },
        None => None,
    }
}

impl BlockConfigView {
    /// The settings without any wish: one space before and after.
    pub open spec fn plain() -> BlockConfigView {
        BlockConfigView {
            spacing_before: "single"@,
            spacing_after: "single"@,
            spacing_within: None,
            line_position: None,
        }
    }

    /// The settings with more taken over: what is on offer replaces what was.
    pub open spec fn incorporated(
        self,
        before: Option<Seq<char>>,
        after: Option<Seq<char>>,
        within: Option<Seq<char>>,
        line_position: Option<Seq<char>>,
        config: Option<Settings>,
    ) -> BlockConfigView {
        BlockConfigView {
            spacing_before: match offer(before, config, "spacing_before"@) {
                Some(t) => t,
                None => self.spacing_before,
            },
            spacing_after: match offer(after, config, "spacing_after"@) {
                Some(t) => t,
                None => self.spacing_after,
            },
            spacing_within: match offer(within, config, "spacing_within"@) {
                Some(t) => Some(t),
                None => self.spacing_within,
            },
            line_position: match offer(line_position, config, "line_position"@) {
                Some(t) => Some(t),
                None => self.line_position,
            },
        }
    }
}

impl BlockConfig {
    /// The mathematical form.
    pub open spec fn view(self) -> BlockConfigView {
        BlockConfigView {
            spacing_before: self.spacing_before@,
            spacing_after: self.spacing_after@,
            spacing_within: crate::kind::opt_text(self.spacing_within),
            line_position: crate::kind::opt_text(self.line_position),
        }
    }

    /// Takes over more settings. A value that is given comes before that of the
    /// settings; a missing or empty one leaves what was.
    pub fn incorporate(
        &mut self,
        before: Option<&str>,
        after: Option<&str>,
        within: Option<&str>,
        line_position: Option<&str>,
        config: Option<&ConfigElementType>,
    )
        ensures
            final(self)@ == old(self)@.incorporated(
                opt_str(before),
                opt_str(after),
                opt_str(within),
                opt_str(line_position),
                opt_settings(config),
            ),
    {
        if let Some(v) = offered(before, config, "spacing_before") {
            self.spacing_before = v.to_owned();
        }
        if let Some(v) = offered(after, config, "spacing_after") {
            self.spacing_after = v.to_owned();
        }
        if let Some(v) = offered(within, config, "spacing_within") {
            self.spacing_within = Some(v.to_owned());
        }
        if let Some(v) = offered(line_position, config, "line_position") {
            self.line_position = Some(v.to_owned());
        }
    }
}

impl Default for BlockConfig {
    fn default() -> (r: BlockConfig)
        ensures
            r@ == (BlockConfigView {
                spacing_before: ""@,
                spacing_after: ""@,
                spacing_within: None,
                line_position: None,
            }),
    {
        BlockConfig {
            spacing_before: "".to_owned(),
            spacing_after: "".to_owned(),
            spacing_within: None,
            line_position: None,
        }
    }
}

/// What `align` stands for in the settings of a type: the type, then where and
/// in which scope to align, and in which coordinates.
pub open spec fn align_text(t: Seq<char>, m: Settings) -> Seq<char> {
    let plain = "align:"@ + t;
    let placed = if m.contains_key("align_within"@) {
        let within = plain + ":"@ + m["align_within"@];
        if m.contains_key("align_scope"@) {
            within + ":"@ + m["align_scope"@]
        } else {
            within
        }
    } else {
        plain
    };
    if m.contains_key("alignment_coordinate_space"@) {
        placed + ":"@ + m["alignment_coordinate_space"@]
    } else {
        placed
    }
}

/// The settings of a type with `align` spelled out under one key.
pub open spec fn align_expanded(t: Seq<char>, m: Settings, key: Seq<char>) -> Settings {
    if m.contains_key(key) && m[key] == "align"@ {
        m.insert(key, align_text(t, m))
    } else {
        m
    }
}

/// The settings of a type with `align` spelled out.
pub open spec fn expanded(t: Seq<char>, m: Settings) -> Settings {
    align_expanded(t, align_expanded(t, m, "spacing_before"@), "spacing_after"@)
}

/// What `align` stands for in the settings of a type.
fn align_string(t: &str, m: &ConfigElementType) -> (r: String)
    ensures
        r@ == align_text(t@, settings_view(*m)),
{
    let mut s = "align:".to_owned();
    s.push_str(t);
    if let Some(within) = m.get("align_within") {
        s.push_str(":");
        s.push_str(within.as_str());
        if let Some(scope) = m.get("align_scope") {
            s.push_str(":");
            s.push_str(scope.as_str());
        }
    }
    if let Some(space) = m.get("alignment_coordinate_space") {
        s.push_str(":");
        s.push_str(space.as_str());
    }
    s
}

/// Spells out `align` under one key.
fn expand_align(t: &str, m: &mut ConfigElementType, key: &str)
    ensures
        settings_view(*final(m)) == align_expanded(t@, settings_view(*old(m)), key@),
{
    let aligned = match m.get(key) {
        Some(v) => same_text(v.as_str(), "align"),
        None => false,
    };
    if aligned {
        let text = align_string(t, m);
        m.insert(key.to_owned(), text);
        assert(settings_view(*m) =~= settings_view(*old(m)).insert(key@, text@));
    }
}

/// The settings of types, under construction.
pub struct Layout {
    pub settings: Map<Seq<char>, Settings>,
}

impl Layout {
    /// The settings in a map.
    pub open spec fn of(d: ConfigDictType) -> Layout {
        Layout { settings: dict_view(d) }
    }

    /// The settings with those of one more type; what is missing is not set.
    pub open spec fn with_type(
        self,
        t: Seq<char>,
        before: Option<Seq<char>>,
        after: Option<Seq<char>>,
        within: Option<Seq<char>>,
        line_position: Option<Seq<char>>,
    ) -> Layout {
        let a = set_if(Map::empty(), "spacing_before"@, before);
        let b = set_if(a, "spacing_after"@, after);
        let c = set_if(b, "spacing_within"@, within);
        Layout { settings: self.settings.insert(t, set_if(c, "line_position"@, line_position)) }
    }
}

/// The settings with a value set, where there is one.
pub open spec fn set_if(m: Settings, key: Seq<char>, value: Option<Seq<char>>) -> Settings {
    match value {
        Some(v) => m.insert(key, v),
        None => m,
    }
}

/// Sets a value, where there is one.
fn put(m: &mut ConfigElementType, key: &str, value: Option<&str>)
    ensures
        settings_view(*final(m)) == set_if(settings_view(*old(m)), key@, opt_str(value)),
{
    if let Some(v) = value {
        m.insert(key.to_owned(), v.to_owned());
        assert(settings_view(*m) =~= settings_view(*old(m)).insert(key@, v@));
    }
}

/// Sets the settings of a type.
fn ins(
    d: &mut ConfigDictType,
    t: &str,
    before: Option<&str>,
    after: Option<&str>,
    within: Option<&str>,
    line_position: Option<&str>,
)
    ensures
        Layout::of(*final(d)) == Layout::of(*old(d)).with_type(
            t@,
            opt_str(before),
            opt_str(after),
            opt_str(within),
            opt_str(line_position),
        ),
{
    let mut m: ConfigElementType = TextMap::new();
    assert(settings_view(m) =~= Map::empty());
    put(&mut m, "spacing_before", before);
    put(&mut m, "spacing_after", after);
    put(&mut m, "spacing_within", within);
    put(&mut m, "line_position", line_position);
    let ghost s = settings_view(m);
    d.insert(t.to_owned(), m);
    assert(dict_view(*d) =~= dict_view(*old(d)).insert(t@, s));
}

/// Punctuation and operators.
pub open spec fn punctuation_layout(d: Layout) -> Layout {
    d
        .with_type("comma"@, Some("touch"@), None, None, Some("trailing"@))
        .with_type("binary_operator"@, None, None, Some("touch"@), Some("leading"@))
        .with_type("comparison_operator"@, None, None, Some("touch"@), Some("leading"@))
        .with_type("assignment_operator"@, None, None, Some("touch"@), Some("leading"@))
        .with_type("statement_terminator"@, Some("touch"@), None, None, Some("trailing"@))
        .with_type("end_of_file"@, Some("touch"@), None, None, None)
        .with_type("set_operator"@, None, None, None, Some("alone:strict"@))
        .with_type("dot"@, Some("touch"@), Some("touch"@), None, None)
        .with_type("casting_operator"@, Some("touch"@), Some("touch:inline"@), None, None)
        .with_type("colon"@, Some("touch"@), None, None, None)
        .with_type("colon_delimiter"@, Some("touch"@), Some("touch"@), None, None)
        .with_type("sign_indicator"@, None, Some("touch:inline"@), None, None)
        .with_type("tilde"@, None, Some("touch:inline"@), None, None)
        .with_type("sqlcmd_operator"@, Some("touch"@), None, None, None)
}

/// Brackets.
pub open spec fn brackets_layout(d: Layout) -> Layout {
    d
        .with_type("start_bracket"@, None, Some("touch"@), None, None)
        .with_type("end_bracket"@, Some("touch"@), None, None, None)
        .with_type("start_square_bracket"@, None, Some("touch"@), None, None)
        .with_type("end_square_bracket"@, Some("touch"@), None, None, None)
        .with_type("start_angle_bracket"@, None, Some("touch"@), None, None)
        .with_type("end_angle_bracket"@, Some("touch"@), None, None, None)
}

/// Identifiers and literals.
pub open spec fn names_layout(d: Layout) -> Layout {
    d
        .with_type("object_reference"@, None, None, Some("touch:inline"@), None)
        .with_type("numeric_literal"@, None, None, Some("touch:inline"@), None)
        .with_type("bind_variable"@, None, None, Some("touch"@), None)
}

/// Functions and types.
pub open spec fn functions_layout(d: Layout) -> Layout {
    d
        .with_type("function_name"@, None, None, Some("touch:inline"@), None)
        .with_type("function_contents"@, Some("touch:inline"@), None, None, None)
        .with_type("function_parameter_list"@, Some("touch:inline"@), None, None, None)
        .with_type("array_type"@, None, None, Some("touch:inline"@), None)
        .with_type("typed_array_literal"@, None, None, Some("touch"@), None)
        .with_type("sized_array_type"@, None, None, Some("touch"@), None)
        .with_type("struct_type"@, None, None, Some("touch:inline"@), None)
        .with_type("bracketed_arguments"@, Some("touch:inline"@), None, None, None)
        .with_type("match_condition"@, None, None, Some("touch:inline"@), None)
        .with_type("typed_struct_literal"@, None, None, Some("touch"@), None)
        .with_type("semi_structured_expression"@, Some("touch:inline"@), None, Some("touch:inline"@), None)
        .with_type("array_accessor"@, Some("touch:inline"@), None, None, None)
        .with_type("path_segment"@, None, None, Some("touch"@), None)
        .with_type("sql_conf_option"@, None, None, Some("touch"@), None)
        .with_type("column_path_operator"@, None, None, Some("touch"@), Some("leading"@))
}

/// Comments and templates: any spacing.
pub open spec fn templates_layout(d: Layout) -> Layout {
    d
        .with_type("comment"@, Some("any"@), Some("any"@), None, None)
        .with_type("placeholder"@, Some("any"@), Some("any"@), None, None)
        .with_type("template_loop"@, Some("any"@), Some("any"@), None, None)
}

/// Clauses: their place on the line.
pub open spec fn clauses_layout(d: Layout) -> Layout {
    d
        .with_type("select_clause"@, None, None, None, Some("alone"@))
        .with_type("from_clause"@, None, None, None, Some("alone"@))
        .with_type("where_clause"@, None, None, None, Some("alone"@))
        .with_type("join_clause"@, None, None, None, Some("alone"@))
        .with_type("groupby_clause"@, None, None, None, Some("alone"@))
        .with_type("orderby_clause"@, None, None, None, Some("leading"@))
        .with_type("having_clause"@, None, None, None, Some("alone"@))
        .with_type("limit_clause"@, None, None, None, Some("alone"@))
}

/// The settings of the ANSI layout.
pub open spec fn ansi_layout() -> Layout {
    let a = punctuation_layout(Layout { settings: Map::empty() });
    let b = brackets_layout(a);
    let c = names_layout(b);
    let d = functions_layout(c);
    let e = templates_layout(d);
    clauses_layout(e)
}

/// Punctuation and operators.
fn add_punctuation(d: &mut ConfigDictType)
    ensures
        Layout::of(*final(d)) == punctuation_layout(Layout::of(*old(d))),
{
    ins(d, "comma", Some("touch"), None, None, Some("trailing"));
    ins(d, "binary_operator", None, None, Some("touch"), Some("leading"));
    ins(d, "comparison_operator", None, None, Some("touch"), Some("leading"));
    ins(d, "assignment_operator", None, None, Some("touch"), Some("leading"));
    ins(d, "statement_terminator", Some("touch"), None, None, Some("trailing"));
    ins(d, "end_of_file", Some("touch"), None, None, None);
    ins(d, "set_operator", None, None, None, Some("alone:strict"));
    ins(d, "dot", Some("touch"), Some("touch"), None, None);
    ins(d, "casting_operator", Some("touch"), Some("touch:inline"), None, None);
    ins(d, "colon", Some("touch"), None, None, None);
    ins(d, "colon_delimiter", Some("touch"), Some("touch"), None, None);
    ins(d, "sign_indicator", None, Some("touch:inline"), None, None);
    ins(d, "tilde", None, Some("touch:inline"), None, None);
    ins(d, "sqlcmd_operator", Some("touch"), None, None, None);
}

/// Brackets.
fn add_brackets(d: &mut ConfigDictType)
    ensures
        Layout::of(*final(d)) == brackets_layout(Layout::of(*old(d))),
{
    ins(d, "start_bracket", None, Some("touch"), None, None);
    ins(d, "end_bracket", Some("touch"), None, None, None);
    ins(d, "start_square_bracket", None, Some("touch"), None, None);
    ins(d, "end_square_bracket", Some("touch"), None, None, None);
    ins(d, "start_angle_bracket", None, Some("touch"), None, None);
    ins(d, "end_angle_bracket", Some("touch"), None, None, None);
}

/// Identifiers and literals.
fn add_names(d: &mut ConfigDictType)
    ensures
        Layout::of(*final(d)) == names_layout(Layout::of(*old(d))),
{
    ins(d, "object_reference", None, None, Some("touch:inline"), None);
    ins(d, "numeric_literal", None, None, Some("touch:inline"), None);
    ins(d, "bind_variable", None, None, Some("touch"), None);
}

/// Functions and types.
fn add_functions(d: &mut ConfigDictType)
    ensures
        Layout::of(*final(d)) == functions_layout(Layout::of(*old(d))),
{
    ins(d, "function_name", None, None, Some("touch:inline"), None);
    ins(d, "function_contents", Some("touch:inline"), None, None, None);
    ins(d, "function_parameter_list", Some("touch:inline"), None, None, None);
    ins(d, "array_type", None, None, Some("touch:inline"), None);
    ins(d, "typed_array_literal", None, None, Some("touch"), None);
    ins(d, "sized_array_type", None, None, Some("touch"), None);
    ins(d, "struct_type", None, None, Some("touch:inline"), None);
    ins(d, "bracketed_arguments", Some("touch:inline"), None, None, None);
    ins(d, "match_condition", None, None, Some("touch:inline"), None);
    ins(d, "typed_struct_literal", None, None, Some("touch"), None);
    ins(d, "semi_structured_expression", Some("touch:inline"), None, Some("touch:inline"), None);
    ins(d, "array_accessor", Some("touch:inline"), None, None, None);
    ins(d, "path_segment", None, None, Some("touch"), None);
    ins(d, "sql_conf_option", None, None, Some("touch"), None);
    ins(d, "column_path_operator", None, None, Some("touch"), Some("leading"));
}

/// Comments and templates: any spacing.
fn add_templates(d: &mut ConfigDictType)
    ensures
        Layout::of(*final(d)) == templates_layout(Layout::of(*old(d))),
{
    ins(d, "comment", Some("any"), Some("any"), None, None);
    ins(d, "placeholder", Some("any"), Some("any"), None, None);
    ins(d, "template_loop", Some("any"), Some("any"), None, None);
}

/// Clauses: their place on the line.
fn add_clauses(d: &mut ConfigDictType)
    ensures
        Layout::of(*final(d)) == clauses_layout(Layout::of(*old(d))),
{
    ins(d, "select_clause", None, None, None, Some("alone"));
    ins(d, "from_clause", None, None, None, Some("alone"));
    ins(d, "where_clause", None, None, None, Some("alone"));
    ins(d, "join_clause", None, None, None, Some("alone"));
    ins(d, "groupby_clause", None, None, None, Some("alone"));
    ins(d, "orderby_clause", None, None, None, Some("leading"));
    ins(d, "having_clause", None, None, None, Some("alone"));
    ins(d, "limit_clause", None, None, None, Some("alone"));
}

impl ConfigView {
    /// What a configuration makes of settings and inherited types.
    pub open spec fn made(settings: Map<Seq<char>, Settings>, inherited: Inherited) -> ConfigView {
        ConfigView {
            settings: Map::new(
                |t: Seq<char>| settings.contains_key(t),
                |t: Seq<char>| expanded(t, settings[t]),
            ),
            types: settings.dom(),
            tab_space_size: 4,
            indent_unit: "space"@,
            max_line_length: 80,
            inherited,
        }
    }

    /// A setting of a type.
    pub open spec fn setting(self, t: Seq<char>, key: Seq<char>) -> Option<Seq<char>> {
        if self.settings.contains_key(t) && self.settings[t].contains_key(key) {
            Some(self.settings[t][key])
        } else {
            None
        }
    }

    /// The settings with the spacing that the listed types want before them.
    pub open spec fn before_all(self, b: BlockConfigView, list: Seq<Seq<char>>) -> BlockConfigView
        decreases list.len(),
    {
        if list.len() == 0 {
            b
        } else {
            let so_far = self.before_all(b, list.drop_last());
            if self.types.contains(list.last()) {
                so_far.incorporated(
                    self.setting(list.last(), "spacing_before"@),
                    None,
                    None,
                    None,
                    None,
                )
            } else {
                so_far
            }
        }
    }

    /// The settings with the spacing that the listed types want after them.
    pub open spec fn after_all(self, b: BlockConfigView, list: Seq<Seq<char>>) -> BlockConfigView
        decreases list.len(),
    {
        if list.len() == 0 {
            b
        } else {
            let so_far = self.after_all(b, list.drop_last());
            if self.types.contains(list.last()) {
                so_far.incorporated(
                    None,
                    self.setting(list.last(), "spacing_after"@),
                    None,
                    None,
                    None,
                )
            } else {
                so_far
            }
        }
    }

    /// The settings with all those of the listed types.
    pub open spec fn own_all(self, b: BlockConfigView, list: Seq<Seq<char>>) -> BlockConfigView
        decreases list.len(),
    {
        if list.len() == 0 {
            b
        } else {
            let so_far = self.own_all(b, list.drop_last());
            if self.types.contains(list.last()) {
                so_far.incorporated(
                    None,
                    None,
                    None,
                    None,
                    if self.settings.contains_key(list.last()) {
                        Some(self.settings[list.last()])
                    } else {
                        None
                    },
                )
            } else {
                so_far
            }
        }
    }

    /// The settings with what the `n` outermost segments above want at their own
    /// boundaries, from the inside out. `start` and `end` say whether the block
    /// is still the first or the last code of all further in.
    pub open spec fn boundary(
        self,
        d: DepthView,
        n: nat,
        start: bool,
        end: bool,
        b: BlockConfigView,
    ) -> BlockConfigView
        decreases n,
    {
        if n == 0 {
            b
        } else {
            let h = d.hashes[n - 1];
            let starts = start && (d.positions.contains_key(h) ==> d.positions[h].opens());
            let ends = end && (d.positions.contains_key(h) ==> d.positions[h].closes());
            if !starts && !ends {
                b
            } else {
                let list = d.class_types[n - 1];
                let with_start = if starts {
                    self.before_all(b, list)
                } else {
                    b
                };
                let with_end = if ends {
                    self.after_all(with_start, list)
                } else {
                    with_start
                };
                self.boundary(d, (n - 1) as nat, starts, ends, with_end)
            }
        }
    }

    /// The spacing that a block of the given types wants: one space, unless the
    /// segments above it that it starts or ends want another, or its own types.
    pub open spec fn block(self, list: Seq<Seq<char>>, depth: Option<DepthView>) -> BlockConfigView {
        let plain = BlockConfigView::plain();
        self.own_all(
            match depth {
                Some(d) => self.boundary(d, d.hashes.len(), true, true, plain),
                None => plain,
            },
            list,
        )
    }

    /// The spacing wanted within a segment of the given types: that of the first
    /// type that has one.
    pub open spec fn within(self, list: Seq<Seq<char>>) -> Option<Seq<char>>
        decreases list.len(),
    {
        if list.len() == 0 {
            None
        } else {
            let v = if self.types.contains(list[0]) {
                offer(self.setting(list[0], "spacing_within"@), None, ""@)
            } else {
                None
            };
            if v is Some {
                v
            } else {
                self.within(list.drop_first())
            }
        }
    }
}

impl PositionView {
    /// Whether nothing stands before the block in its parent.
    pub open spec fn opens(self) -> bool {
        self.pos_type == "solo"@ || self.pos_type == "start"@
    }

    /// Whether nothing stands behind the block in its parent.
    pub open spec fn closes(self) -> bool {
        self.pos_type == "solo"@ || self.pos_type == "end"@
    }
}

impl ReflowConfig {
    /// The configuration with the given settings.
    pub fn from_dict(config_dict: ConfigDictType) -> (r: ReflowConfig)
        ensures
            r@ == ConfigView::made(dict_view(config_dict), Map::empty()),
    {
        let none: TextMap<Vec<String>> = TextMap::new();
        assert(crate::reflow::depthmap::lists_view(none) =~= Map::empty());
        ReflowConfig::from_dict_with_class_types(config_dict, none)
    }

    /// The configuration with the given settings and inherited types.
    pub fn from_dict_with_class_types(
        config_dict: ConfigDictType,
        class_types_map: TextMap<Vec<String>>,
    ) -> (r: ReflowConfig)
        ensures
            r@ == ConfigView::made(
                dict_view(config_dict),
                crate::reflow::depthmap::lists_view(class_types_map),
            ),
    {
        let ghost given = config_dict;
        let ghost keys = given.keys();
        let ghost values = given.values();
        let mut dict = config_dict;
        let mut types = TypeSet::new();
        let n: usize = dict.len();
        assert(keys.take(0) =~= Seq::empty());
        for i in 0..n
            invariant
                n == keys.len(),
                n == values.len(),
                dict.keys() == keys,
                dict.values().len() == n,
                types@ == crate::reflow::depthmap::unique_all(Seq::empty(), keys.take(i as int)),
                forall|j: int|
                    0 <= j < i ==> settings_view(#[trigger] dict.values()[j]) == expanded(
                        keys[j],
                        settings_view(values[j]),
                    ),
                forall|j: int| i <= j < n ==> (#[trigger] dict.values()[j]) == values[j],
        {
            let t = dict.key_at(i).to_owned();
            let mut m = clone_settings(dict.value_at(i));
            expand_align(t.as_str(), &mut m, "spacing_before");
            expand_align(t.as_str(), &mut m, "spacing_after");
            assert(settings_view(m) == expanded(keys[i as int], settings_view(values[i as int])));
            dict.set_at(i, m);
            assert(keys.take(i + 1).drop_last() =~= keys.take(i as int));
            types.insert(t);
        }
        assert(keys.take(n as int) =~= keys);
        proof {
            crate::reflow::depthmap::unique_all_holds(Seq::empty(), keys);
        }
        let r = ReflowConfig {
            config_dict: dict,
            config_types: types,
            tab_space_size: 4,
            indent_unit: "space".to_owned(),
            max_line_length: 80,
            class_types_map,
        };
        proof {
            let want = ConfigView::made(
                dict_view(given),
                crate::reflow::depthmap::lists_view(class_types_map),
            );
            assert(r@.types =~= want.types);
            assert(r@.settings.dom() =~= want.settings.dom());
            assert forall|t: Seq<char>| r@.settings.dom().contains(t) implies #[trigger]
                r@.settings[t] == want.settings[t] by {
                crate::reflow::lookup::place_facts(keys, t);
                let at = crate::reflow::lookup::place_of(keys, t);
                assert(settings_view(dict.values()[at]) == expanded(
                    keys[at],
                    settings_view(values[at]),
                ));
            }
            assert(r@.settings =~= want.settings);
        }
        r
    }

    /// The configuration of the ANSI layout.
    pub fn default_ansi() -> (r: ReflowConfig)
        ensures
            r@ == ConfigView::made(ansi_layout().settings, Map::empty()),
    {
        let mut d: ConfigDictType = TextMap::new();
        assert(dict_view(d) =~= Map::empty());
        add_punctuation(&mut d);
        add_brackets(&mut d);
        add_names(&mut d);
        add_functions(&mut d);
        add_templates(&mut d);
        add_clauses(&mut d);
        ReflowConfig::from_dict(d)
    }

    /// A setting of a type.
    fn lookup(&self, t: &str, key: &str) -> (r: Option<&str>)
        ensures
            opt_str(r) == self@.setting(t@, key@),
    {
        match self.config_dict.get(t) {
            Some(m) => match m.get(key) {
                Some(v) => Some(v.as_str()),
                None => None,
            },
            None => None,
        }
    }

    /// The spacing that a block of the given types wants, where the depth info
    /// says what stands above it.
    pub fn get_block_config(
        &self,
        block_class_types: &[String],
        depth_info: Option<&DepthInfo>,
    ) -> (r: BlockConfig)
        requires
            depth_info is Some ==> depth_info->0.wf(),
        ensures
            r@ == self@.block(
                crate::text::texts(block_class_types@),
                match depth_info {
                    Some(d) => Some(d@),
                    None => None,
                },
            ),
    {
        let mut b = BlockConfig {
            spacing_before: "single".to_owned(),
            spacing_after: "single".to_owned(),
            spacing_within: None,
            line_position: None,
        };
        if let Some(d) = depth_info {
            self.apply_boundary(d, &mut b);
        }
        let ghost start = b@;
        let ghost list = crate::text::texts(block_class_types@);
        assert(list.take(0) =~= Seq::empty());
        for i in 0..block_class_types.len()
            invariant
                list == crate::text::texts(block_class_types@),
                b@ == self@.own_all(start, list.take(i as int)),
        {
            let t = block_class_types[i].as_str();
            assert(list.take(i + 1).drop_last() =~= list.take(i as int));
            assert(list.take(i + 1).last() == t@);
            if self.config_types.contains(t) {
                let m = self.config_dict.get(t);
                b.incorporate(None, None, None, None, m);
            }
        }
        assert(list.take(list.len() as int) =~= list);
        b
    }

    /// Takes over what the segments above want at their own boundaries.
    fn apply_boundary(&self, d: &DepthInfo, b: &mut BlockConfig)
        requires
            d.wf(),
        ensures
            final(b)@ == self@.boundary(d@, d@.hashes.len(), true, true, old(b)@),
    {
        let mut start = true;
        let mut end = true;
        let mut n: usize = d.stack_hashes.len();
        let ghost first = b@;
        while n > 0
            invariant
                d.wf(),
                n <= d.stack_hashes@.len(),
                first == old(b)@,
                self@.boundary(d@, d@.hashes.len(), true, true, first) == self@.boundary(
                    d@,
                    n as nat,
                    start,
                    end,
                    b@,
                ),
            decreases n,
        {
            let h: u64 = d.stack_hashes[n - 1];
            if let Some(pos) = d.stack_positions.get(&h) {
                let solo = same_text(pos.pos_type.as_str(), "solo");
                if !(solo || same_text(pos.pos_type.as_str(), "start")) {
                    start = false;
                }
                if !(solo || same_text(pos.pos_type.as_str(), "end")) {
                    end = false;
                }
            }
            if !start && !end {
                return;
            }
            let list = &d.stack_class_types[n - 1];
            assert(d@.class_types[n - 1] == list@);
            if start {
                self.add_before(list, b);
            }
            if end {
                self.add_after(list, b);
            }
            n -= 1;
        }
    }

    /// Takes over the spacing that the types want before them.
    fn add_before(&self, list: &TypeSet, b: &mut BlockConfig)
        ensures
            final(b)@ == self@.before_all(old(b)@, list@),
    {
        let ghost start = b@;
        let ghost all = list@;
        assert(all.take(0) =~= Seq::empty());
        let n: usize = list.len();
        for i in 0..n
            invariant
                all == list@,
                n == all.len(),
                b@ == self@.before_all(start, all.take(i as int)),
        {
            let t = list.at(i);
            assert(all.take(i + 1).drop_last() =~= all.take(i as int));
            if self.config_types.contains(t) {
                b.incorporate(self.lookup(t, "spacing_before"), None, None, None, None);
            }
        }
        assert(all.take(all.len() as int) =~= all);
    }

    /// Takes over the spacing that the types want after them.
    fn add_after(&self, list: &TypeSet, b: &mut BlockConfig)
        ensures
            final(b)@ == self@.after_all(old(b)@, list@),
    {
        let ghost start = b@;
        let ghost all = list@;
        assert(all.take(0) =~= Seq::empty());
        let n: usize = list.len();
        for i in 0..n
            invariant
                all == list@,
                n == all.len(),
                b@ == self@.after_all(start, all.take(i as int)),
        {
            let t = list.at(i);
            assert(all.take(i + 1).drop_last() =~= all.take(i as int));
            if self.config_types.contains(t) {
                b.incorporate(None, self.lookup(t, "spacing_after"), None, None, None);
            }
        }
        assert(all.take(all.len() as int) =~= all);
    }

    /// The spacing wanted within a segment of the given types: that of the first
    /// type that has one.
    pub fn get_spacing_within(&self, class_types: &TypeSet) -> (r: Option<String>)
        ensures
            crate::kind::opt_text(r) == self@.within(class_types@),
    {
        let ghost all = class_types@;
        let n: usize = class_types.len();
        let mut i: usize = 0;
        assert(all.skip(0) =~= all);
        while i < n
            invariant
                all == class_types@,
                n == all.len(),
                i <= n,
                self@.within(all) == self@.within(all.skip(i as int)),
            decreases n - i,
        {
            let t = class_types.at(i);
            assert(all.skip(i as int)[0] == t@);
            assert(all.skip(i as int).drop_first() =~= all.skip(i + 1));
            if self.config_types.contains(t) {
                if let Some(v) = offered(self.lookup(t, "spacing_within"), None, "") {
                    return Some(v.to_owned());
                }
            }
            i += 1;
        }
        None
    }

    /// The types that a segment type inherits; mostly none.
    pub fn extra_class_types(&self, segment_type: &str) -> (r: &[String])
        ensures
            crate::text::texts(r@) == self@.inherits(segment_type@),
    {
        match self.class_types_map.get(segment_type) {
            Some(v) => v.as_slice(),
            None => {
                let none: &[String] = &[];
                assert(crate::text::texts(none@) =~= Seq::empty());
                none
            },
        }
    }
}

impl ConfigView {
    /// The types that a segment type inherits.
    pub open spec fn inherits(self, t: Seq<char>) -> Seq<Seq<char>> {
        if self.inherited.contains_key(t) {
            self.inherited[t]
        } else {
            Seq::empty()
        }
    }
}

/// A copy of the settings of a type.
fn clone_settings(m: &ConfigElementType) -> (r: ConfigElementType)
    ensures
        settings_view(r) == settings_view(*m),
{
    let mut r: ConfigElementType = TextMap::new();
    let n: usize = m.len();
    for i in 0..n
        invariant
            n == m.keys().len(),
            n == m.values().len(),
            r.keys() == m.keys().take(i as int),
            r.values() == m.values().take(i as int),
    {
        r.append(m.key_at(i).to_owned(), m.value_at(i).clone());
        assert(r.keys() =~= m.keys().take(i + 1));
        assert(r.values() =~= m.values().take(i + 1));
    }
    assert(r.keys() =~= m.keys());
    assert(r.values() =~= m.values());
    r
}

/// A type without settings of its own, with nothing known above it, wants one
/// space on each side.
pub proof fn unconfigured_wants_single(c: ConfigView, list: Seq<Seq<char>>)
    requires
        forall|i: int| 0 <= i < list.len() ==> !c.types.contains(#[trigger] list[i]),
    ensures
        c.block(list, None) == BlockConfigView::plain(),
    decreases list.len(),
{
    if list.len() > 0 {
        assert forall|i: int| 0 <= i < list.drop_last().len() implies !c.types.contains(
            #[trigger] list.drop_last()[i],
        ) by {
            assert(list.drop_last()[i] == list[i]);
        }
        unconfigured_wants_single(c, list.drop_last());
    }
}

impl DepthView {
    /// Whether the block is the first code of the segment at `m` of the stack and of
    /// all further in.
    pub open spec fn opened(self, m: int) -> bool {
        forall|k: int|
            m <= k < self.hashes.len() && self.positions.contains_key(#[trigger] self.hashes[k])
                ==> self.positions[self.hashes[k]].pos_type == "solo"@
                || self.positions[self.hashes[k]].pos_type == "start"@
    }

    /// Whether the block is the last code of the segment at `m` of the stack and of
    /// all further in.
    pub open spec fn closed(self, m: int) -> bool {
        forall|k: int|
            m <= k < self.hashes.len() && self.positions.contains_key(#[trigger] self.hashes[k])
                ==> self.positions[self.hashes[k]].pos_type == "solo"@
                || self.positions[self.hashes[k]].pos_type == "end"@
    }
}

impl ConfigView {
    /// What the listed types want under a key: the last that is not empty.
    pub open spec fn wish(self, key: Seq<char>, list: Seq<Seq<char>>) -> Option<Seq<char>>
        decreases list.len(),
    {
        if list.len() == 0 {
            None
        } else {
            let own = self.setting(list.last(), key);
            if self.types.contains(list.last()) && own is Some && own != Some(""@) {
                own
            } else {
                self.wish(key, list.drop_last())
            }
        }
    }

    /// Whether the segment at `m` of the stack wants some spacing before it, and the
    /// block opens it.
    pub open spec fn asks_before(self, d: DepthView, m: int) -> bool {
        d.opened(m) && self.wish("spacing_before"@, d.class_types[m]) is Some
    }

    /// Whether the segment at `m` of the stack wants some spacing after it, and the
    /// block closes it.
    pub open spec fn asks_after(self, d: DepthView, m: int) -> bool {
        d.closed(m) && self.wish("spacing_after"@, d.class_types[m]) is Some
    }
}

/// The types want what is last among their wishes, and change nothing else.
proof fn before_is_the_wish(c: ConfigView, b: BlockConfigView, list: Seq<Seq<char>>)
    ensures
        c.before_all(b, list) == (BlockConfigView {
            spacing_before: match c.wish("spacing_before"@, list) {
                Some(w) => w,
                None => b.spacing_before,
            },
            ..b
        }),
    decreases list.len(),
{
    if list.len() > 0 {
        before_is_the_wish(c, b, list.drop_last());
    }
}

proof fn after_is_the_wish(c: ConfigView, b: BlockConfigView, list: Seq<Seq<char>>)
    ensures
        c.after_all(b, list) == (BlockConfigView {
            spacing_after: match c.wish("spacing_after"@, list) {
                Some(w) => w,
                None => b.spacing_after,
            },
            ..b
        }),
    decreases list.len(),
{
    if list.len() > 0 {
        after_is_the_wish(c, b, list.drop_last());
    }
}

proof fn boundary_wishes(c: ConfigView, d: DepthView, n: nat, b: BlockConfigView)
    requires
        n <= d.hashes.len(),
    ensures
        ({
            let r = c.boundary(d, n, d.opened(n as int), d.closed(n as int), b);
            &&& r.spacing_within == b.spacing_within
            &&& r.line_position == b.line_position
            &&& forall|m: int|
                0 <= m < n && #[trigger] c.asks_before(d, m) && (forall|k: int|
                    0 <= k < m ==> !(#[trigger] c.asks_before(d, k))) ==> Some(r.spacing_before)
                    == c.wish("spacing_before"@, d.class_types[m])
            &&& (forall|m: int| 0 <= m < n ==> !(#[trigger] c.asks_before(d, m)))
                ==> r.spacing_before == b.spacing_before
            &&& forall|m: int|
                0 <= m < n && #[trigger] c.asks_after(d, m) && (forall|k: int|
                    0 <= k < m ==> !(#[trigger] c.asks_after(d, k))) ==> Some(r.spacing_after)
                    == c.wish("spacing_after"@, d.class_types[m])
            &&& (forall|m: int| 0 <= m < n ==> !(#[trigger] c.asks_after(d, m)))
                ==> r.spacing_after == b.spacing_after
        }),
    decreases n,
{
    if n > 0 {
        let i = n - 1;
        let h = d.hashes[i];
        let starts = d.opened(n as int) && (d.positions.contains_key(h) ==> d.positions[h].opens());
        let ends = d.closed(n as int) && (d.positions.contains_key(h) ==> d.positions[h].closes());
        assert(d.opened(i) == starts);
        assert(d.closed(i) == ends);
        if !starts && !ends {
            assert forall|m: int| 0 <= m < n implies !(#[trigger] c.asks_before(d, m))
                && !c.asks_after(d, m) by {
                if d.opened(m) {
                    assert(d.opened(i));
                }
                if d.closed(m) {
                    assert(d.closed(i));
                }
            }
            assert forall|m: int| 0 <= m < n implies !(#[trigger] c.asks_after(d, m)) by {
                assert(!c.asks_before(d, m));
            }
        } else {
            let list = d.class_types[i];
            let with_start = if starts {
                c.before_all(b, list)
            } else {
                b
            };
            let with_end = if ends {
                c.after_all(with_start, list)
            } else {
                with_start
            };
            before_is_the_wish(c, b, list);
            after_is_the_wish(c, with_start, list);
            boundary_wishes(c, d, i as nat, with_end);
            let r = c.boundary(d, n, d.opened(n as int), d.closed(n as int), b);
            assert(r == c.boundary(d, i as nat, starts, ends, with_end));
            assert forall|m: int|
                0 <= m < n && #[trigger] c.asks_before(d, m) && (forall|k: int|
                    0 <= k < m ==> !(#[trigger] c.asks_before(d, k))) implies Some(
                r.spacing_before,
            ) == c.wish("spacing_before"@, d.class_types[m]) by {}
            assert forall|m: int|
                0 <= m < n && #[trigger] c.asks_after(d, m) && (forall|k: int|
                    0 <= k < m ==> !(#[trigger] c.asks_after(d, k))) implies Some(r.spacing_after)
                == c.wish("spacing_after"@, d.class_types[m]) by {}
            if forall|m: int| 0 <= m < n ==> !(#[trigger] c.asks_before(d, m)) {
                assert(!c.asks_before(d, i));
            }
            if forall|m: int| 0 <= m < n ==> !(#[trigger] c.asks_after(d, m)) {
                assert(!c.asks_after(d, i));
            }
        }
    }
}

/// Of the segments above a block that want spacing at their own boundary, and that
/// the block opens or closes with all further in, the outermost decides. Where none
/// asks, the spacing stays as it was; what is wanted within, and the place on the
/// line, are never taken from above.
pub proof fn outermost_wish_decides(c: ConfigView, d: DepthView, b: BlockConfigView)
    ensures
        ({
            let n = d.hashes.len();
            let r = c.boundary(d, n, true, true, b);
            &&& r.spacing_within == b.spacing_within
            &&& r.line_position == b.line_position
            &&& forall|m: int|
                0 <= m < n && #[trigger] c.asks_before(d, m) && (forall|k: int|
                    0 <= k < m ==> !(#[trigger] c.asks_before(d, k))) ==> Some(r.spacing_before)
                    == c.wish("spacing_before"@, d.class_types[m])
            &&& (forall|m: int| 0 <= m < n ==> !(#[trigger] c.asks_before(d, m)))
                ==> r.spacing_before == b.spacing_before
            &&& forall|m: int|
                0 <= m < n && #[trigger] c.asks_after(d, m) && (forall|k: int|
                    0 <= k < m ==> !(#[trigger] c.asks_after(d, k))) ==> Some(r.spacing_after)
                    == c.wish("spacing_after"@, d.class_types[m])
            &&& (forall|m: int| 0 <= m < n ==> !(#[trigger] c.asks_after(d, m)))
                ==> r.spacing_after == b.spacing_after
        }),
{
    let n = d.hashes.len();
    assert(d.opened(n as int));
    assert(d.closed(n as int));
    boundary_wishes(c, d, n, b);
}

/// The settings of the listed types: under each key the last that is not empty, else
/// what was there before.
proof fn own_is_the_wish(c: ConfigView, b: BlockConfigView, list: Seq<Seq<char>>)
    ensures
        ({
            let r = c.own_all(b, list);
            &&& r.spacing_before == match c.wish("spacing_before"@, list) {
                Some(w) => w,
                None => b.spacing_before,
            }
            &&& r.spacing_after == match c.wish("spacing_after"@, list) {
                Some(w) => w,
                None => b.spacing_after,
            }
            &&& r.spacing_within == match c.wish("spacing_within"@, list) {
                Some(w) => Some(w),
                None => b.spacing_within,
            }
            &&& r.line_position == match c.wish("line_position"@, list) {
                Some(w) => Some(w),
                None => b.line_position,
            }
        }),
    decreases list.len(),
{
    if list.len() > 0 {
        own_is_the_wish(c, b, list.drop_last());
    }
}

/// A wish is that of a listed type, and no later one has a wish that is not empty.
pub proof fn wish_is_the_last(c: ConfigView, key: Seq<char>, list: Seq<Seq<char>>, i: int)
    requires
        0 <= i < list.len(),
        c.types.contains(list[i]),
        c.setting(list[i], key) is Some,
        c.setting(list[i], key) != Some(""@),
        forall|j: int|
            i < j < list.len() ==> !(c.types.contains(#[trigger] list[j]) && c.setting(
                list[j],
                key,
            ) is Some && c.setting(list[j], key) != Some(""@)),
    ensures
        c.wish(key, list) == c.setting(list[i], key),
    decreases list.len(),
{
    if i < list.len() - 1 {
        let rest = list.drop_last();
        let last = list[list.len() - 1];
        assert forall|j: int| i < j < rest.len() implies !(c.types.contains(#[trigger] rest[j])
            && c.setting(rest[j], key) is Some && c.setting(rest[j], key) != Some(""@)) by {
            assert(rest[j] == list[j]);
        }
        wish_is_the_last(c, key, rest, i);
    }
}

/// What the own types of a block want goes before what is wanted above it: its own last
/// wish decides, and only where there is none the outermost segment above that the
/// block opens, or closes, with all further in. Without any wish there is one space.
pub proof fn own_wish_goes_first(c: ConfigView, list: Seq<Seq<char>>, d: DepthView)
    ensures
        ({
            let r = c.block(list, Some(d));
            let n = d.hashes.len();
            &&& c.wish("spacing_before"@, list) is Some ==> Some(r.spacing_before) == c.wish(
                "spacing_before"@,
                list,
            )
            &&& c.wish("spacing_after"@, list) is Some ==> Some(r.spacing_after) == c.wish(
                "spacing_after"@,
                list,
            )
            &&& c.wish("spacing_before"@, list) is None ==> {
                &&& forall|m: int|
                    0 <= m < n && #[trigger] c.asks_before(d, m) && (forall|k: int|
                        0 <= k < m ==> !(#[trigger] c.asks_before(d, k))) ==> Some(
                        r.spacing_before,
                    ) == c.wish("spacing_before"@, d.class_types[m])
                &&& (forall|m: int| 0 <= m < n ==> !(#[trigger] c.asks_before(d, m)))
                    ==> r.spacing_before == "single"@
            }
            &&& c.wish("spacing_after"@, list) is None ==> {
                &&& forall|m: int|
                    0 <= m < n && #[trigger] c.asks_after(d, m) && (forall|k: int|
                        0 <= k < m ==> !(#[trigger] c.asks_after(d, k))) ==> Some(r.spacing_after)
                        == c.wish("spacing_after"@, d.class_types[m])
                &&& (forall|m: int| 0 <= m < n ==> !(#[trigger] c.asks_after(d, m)))
                    ==> r.spacing_after == "single"@
            }
            &&& r.spacing_within == c.wish("spacing_within"@, list)
            &&& r.line_position == c.wish("line_position"@, list)
        }),
{
    let plain = BlockConfigView::plain();
    outermost_wish_decides(c, d, plain);
    own_is_the_wish(c, c.boundary(d, d.hashes.len(), true, true, plain), list);
}

/// Within a segment the first of its types that wants some spacing there decides.
pub proof fn first_wish_within(c: ConfigView, list: Seq<Seq<char>>, i: int)
    requires
        0 <= i < list.len(),
        wants_within(c, list[i]),
        forall|j: int| 0 <= j < i ==> !wants_within(c, #[trigger] list[j]),
    ensures
        c.within(list) == c.setting(list[i], "spacing_within"@),
    decreases list.len(),
{
    if i > 0 {
        let rest = list.drop_first();
        assert(!wants_within(c, list[0]));
        assert forall|j: int| 0 <= j < i - 1 implies !wants_within(c, #[trigger] rest[j]) by {
            assert(rest[j] == list[j + 1]);
        }
        assert(rest[i - 1] == list[i]);
        first_wish_within(c, rest, i - 1);
    }
}

/// Where none of its types wants any spacing within a segment, none is wanted.
pub proof fn no_wish_within(c: ConfigView, list: Seq<Seq<char>>)
    requires
        forall|j: int| 0 <= j < list.len() ==> !wants_within(c, #[trigger] list[j]),
    ensures
        c.within(list) is None,
    decreases list.len(),
{
    if list.len() > 0 {
        let rest = list.drop_first();
        assert(!wants_within(c, list[0]));
        assert forall|j: int| 0 <= j < rest.len() implies !wants_within(c, #[trigger] rest[j]) by {
            assert(rest[j] == list[j + 1]);
        }
        no_wish_within(c, rest);
    }
}

/// Whether a type wants some spacing within its segments.
pub open spec fn wants_within(c: ConfigView, t: Seq<char>) -> bool {
    c.types.contains(t) && c.setting(t, "spacing_within"@) is Some && c.setting(
        t,
        "spacing_within"@,
    ) != Some(""@)
}

/// Spelling out `align` leaves every other setting as it is. The value `align` before or
/// after a type becomes `align:` with the type, behind it where to align, and behind that
/// in which scope, each where it is set, and at the end the coordinates, where they are
/// set.
pub proof fn align_is_spelled_out(t: Seq<char>, m: Settings, key: Seq<char>)
    ensures
        expanded(t, m).dom() == m.dom(),
        m.contains_key(key) && (m[key] != "align"@ || key != "spacing_before"@ && key
            != "spacing_after"@) ==> expanded(t, m)[key] == m[key],
        m.contains_key(key) && m[key] == "align"@ && (key == "spacing_before"@ || key
            == "spacing_after"@) ==> {
            let space = if m.contains_key("alignment_coordinate_space"@) {
                ":"@ + m["alignment_coordinate_space"@]
            } else {
                Seq::empty()
            };
            let got = expanded(t, m)[key];
            &&& !m.contains_key("align_within"@) ==> got == "align:"@ + t + space
            &&& m.contains_key("align_within"@) && !m.contains_key("align_scope"@) ==> got
                == "align:"@ + t + ":"@ + m["align_within"@] + space
            &&& m.contains_key("align_within"@) && m.contains_key("align_scope"@) ==> got
                == "align:"@ + t + ":"@ + m["align_within"@] + ":"@ + m["align_scope"@] + space
        },
{
    reveal_strlit("spacing_before");
    reveal_strlit("spacing_after");
    reveal_strlit("align_within");
    reveal_strlit("align_scope");
    reveal_strlit("alignment_coordinate_space");
    reveal_strlit("align");
    reveal_strlit("align:");
    assert("spacing_before"@.len() == 14 && "spacing_after"@.len() == 13);
    assert("align_within"@.len() == 12 && "align_scope"@.len() == 11);
    assert("alignment_coordinate_space"@.len() == 26);
    let first = align_expanded(t, m, "spacing_before"@);
    assert(first.dom() =~= m.dom());
    assert(expanded(t, m).dom() =~= m.dom());
    assert(align_text(t, first) == align_text(t, m));
    let text = align_text(t, m);
    assert("align"@.len() == 5 && text.len() >= 6);
    let plain = "align:"@ + t;
    assert(plain + Seq::<char>::empty() =~= plain);
    if m.contains_key("align_within"@) {
        let within = plain + ":"@ + m["align_within"@];
        assert(within + Seq::<char>::empty() =~= within);
        if m.contains_key("align_scope"@) {
            let scoped = within + ":"@ + m["align_scope"@];
            assert(scoped + Seq::<char>::empty() =~= scoped);
            if m.contains_key("alignment_coordinate_space"@) {
                let c = m["alignment_coordinate_space"@];
                assert(scoped + ":"@ + c =~= scoped + (":"@ + c));
            }
        } else if m.contains_key("alignment_coordinate_space"@) {
            let c = m["alignment_coordinate_space"@];
            assert(within + ":"@ + c =~= within + (":"@ + c));
        }
    } else if m.contains_key("alignment_coordinate_space"@) {
        let c = m["alignment_coordinate_space"@];
        assert(plain + ":"@ + c =~= plain + (":"@ + c));
    }
}

} // verus!
