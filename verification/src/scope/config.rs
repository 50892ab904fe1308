//! Shared building blocks of scope config files.
//!
//! A "content" entry is either an inline literal or a file next to the
//! config, one of `.html` (used verbatim) or `.md`/`.markdown`
//! (rendered to HTML). A "json" entry is either an inline value or a `.json`
//! file. Exactly one of each pair must be set. Resource ids in a config are
//! plain `i32`s and must be positive.

use vstd::prelude::*;
use crate::json::{entries_map, items_map, lemma_entry_models_map, lemma_models_map, sort_entries, sort_keys, JsonSpec, JsonValue};
use crate::resource::Grant;
use crate::resource_id::ResourceId;
use crate::text::same_str;

verus! {

/// A grant as written in a config file.
#[derive(Debug, Clone, Copy, PartialEq, Eq, Structural)]
pub enum GrantConfig {
    Inherit(i32),
    Independent(i32),
    Purchase(i32),
}

/// The id a grant config names.
pub open spec fn grant_config_id(grant: GrantConfig) -> i32 {
    match grant {
        GrantConfig::Inherit(id) => id,
        GrantConfig::Independent(id) => id,
        GrantConfig::Purchase(id) => id,
    }
}

/// The grant a config names: the same kind, for the same (positive) id.
pub open spec fn grant_of(config: GrantConfig, grant: Grant) -> bool {
    match (config, grant) {
        (GrantConfig::Inherit(c), Grant::Inherit(g)) => g.id() == c,
        (GrantConfig::Independent(c), Grant::Independent(g)) => g.id() == c,
        (GrantConfig::Purchase(c), Grant::Purchase(g)) => g.id() == c,
        _ => false,
    }
}

impl GrantConfig {
    /// The grant of the same kind for the same id.
    pub fn resolve(&self) -> (grant: Grant)
        requires
            grant_config_id(*self) > 0,
        ensures
            grant_of(*self, grant),
    {
        match self {
            GrantConfig::Inherit(id) => Grant::Inherit(to_resource_id(*id)),
            GrantConfig::Independent(id) => Grant::Independent(to_resource_id(*id)),
            GrantConfig::Purchase(id) => Grant::Purchase(to_resource_id(*id)),
        }
    }
}

/// The resource id for a positive `i32` from a config file.
pub fn to_resource_id(id: i32) -> (r: ResourceId)
    requires
        id > 0,
    ensures
        r.id() == id,
{
    ResourceId::new(id).unwrap()
}

/// A content file read from next to the config: its extension (if any) and text.
#[derive(Debug)]
pub struct LoadedFile {
    pub extension: Option<String>,
    pub text: String,
}

/// How a content file is turned into HTML.
#[derive(Debug, Clone, Copy, PartialEq, Eq, Structural)]
pub enum ContentKind {
    Markdown,
    Html,
}

/// The kind of content a file extension stands for; `None` where unsupported.
pub open spec fn content_kind(extension: Option<Seq<char>>) -> Option<ContentKind> {
    match extension {
        Some(e) => if e == "md"@ || e == "markdown"@ {
            Some(ContentKind::Markdown)
        } else if e == "html"@ {
            Some(ContentKind::Html)
        } else {
            None
        },
        None => None,
    }
}

/// The extension of a loaded file, as characters.
pub open spec fn file_extension(file: LoadedFile) -> Option<Seq<char>> {
    match file.extension {
        Some(e) => Some(e@),
        None => None,
    }
}

/// Exactly one of `content` and `content_file` is set, and a file has a supported extension.
pub open spec fn content_source_ok(content: Option<String>, content_file: Option<LoadedFile>) -> bool {
    match (content, content_file) {
        (Some(_), None) => true,
        (None, Some(file)) => content_kind(file_extension(file)) is Some,
        _ => false,
    }
}

/// What Markdown renders to with `comrak`'s default options.
pub uninterp spec fn markdown_html(markdown: Seq<char>) -> Seq<char>;

/// Renders Markdown to HTML with `comrak::markdown_to_html` and default options;
/// its result is named `markdown_html`.
#[verifier::external_body]
fn render_markdown(markdown: &str) -> (html: String)
    ensures
        html@ == markdown_html(markdown@),
{
    comrak::markdown_to_html(markdown, &comrak::Options::default())
}

/// The kind of content for an extension.
pub fn content_kind_of(extension: &Option<String>) -> (kind: Option<ContentKind>)
    ensures
        kind == content_kind(match extension { Some(e) => Some(e@), None => None }),
{
    match extension {
        Some(e) => {
            let e = e.as_str();
            if same_str(e, "md") || same_str(e, "markdown") {
                Some(ContentKind::Markdown)
            } else if same_str(e, "html") {
                Some(ContentKind::Html)
            } else {
                None
            }
        },
        None => None,
    }
}

/// The text a content entry resolves to: the literal, a Markdown file rendered
/// to HTML, or an HTML file verbatim.
pub open spec fn content_text(content: Option<String>, content_file: Option<LoadedFile>) -> Seq<char> {
    match (content, content_file) {
        (Some(literal), _) => literal@,
        (None, Some(file)) => match content_kind(file_extension(file)) {
            Some(ContentKind::Markdown) => markdown_html(file.text@),
            _ => file.text@,
        },
        (None, None) => seq![],
    }
}

/// Resolves a content entry to its text.
pub fn resolve_content(content: &Option<String>, content_file: &Option<LoadedFile>) -> (text: String)
    requires
        content_source_ok(*content, *content_file),
    ensures
        text@ == content_text(*content, *content_file),
{
    match content {
        Some(literal) => literal.clone(),
        None => match content_file {
            Some(file) => match content_kind_of(&file.extension) {
                Some(ContentKind::Markdown) => render_markdown(file.text.as_str()),
                _ => file.text.clone(),
            },
            None => String::new(),
        },
    }
}

/// An inline TOML value of a json entry, as the library holds it: a float is
/// held as the JSON number text it converts to, a datetime as its TOML text.
#[derive(Debug)]
pub enum TomlValue {
    String(String),
    Integer(i64),
    Float(String),
    Boolean(bool),
    Datetime(String),
    Array(Vec<TomlValue>),
    Table(Vec<(String, TomlValue)>),
}

/// The JSON a TOML value converts to: strings, integers and booleans as
/// themselves, a float as its number text, a datetime as a string, arrays
/// item by item, and tables as objects with their keys in order.
pub open spec fn toml_json(v: TomlValue) -> JsonSpec
    decreases v,
{
    match v {
        TomlValue::String(s) => JsonSpec::Str(s@),
        TomlValue::Integer(i) => JsonSpec::Int(i as int),
        TomlValue::Float(t) => JsonSpec::Raw(t@),
        TomlValue::Boolean(b) => JsonSpec::Bool(b),
        TomlValue::Datetime(t) => JsonSpec::Str(t@),
        TomlValue::Array(items) => JsonSpec::Array(toml_jsons(items@)),
        TomlValue::Table(entries) => JsonSpec::Object(sort_keys(toml_entries(entries@))),
    }
}

/// The conversions of a sequence of TOML values.
pub open spec fn toml_jsons(items: Seq<TomlValue>) -> Seq<JsonSpec>
    decreases items,
{
    if items.len() == 0 {
        seq![]
    } else {
        toml_jsons(items.drop_last()).push(toml_json(items.last()))
    }
}

/// The conversions of a table's entries, in the order they are held.
pub open spec fn toml_entries(entries: Seq<(String, TomlValue)>) -> Seq<(Seq<char>, JsonSpec)>
    decreases entries,
{
    if entries.len() == 0 {
        seq![]
    } else {
        toml_entries(entries.drop_last()).push((entries.last().0@, toml_json(entries.last().1)))
    }
}

proof fn lemma_toml_jsons_map(items: Seq<TomlValue>)
    ensures
        toml_jsons(items) == Seq::new(items.len(), |i: int| toml_json(items[i])),
    decreases items.len(),
{
    if items.len() > 0 {
        lemma_toml_jsons_map(items.drop_last());
    }
    assert(toml_jsons(items) =~= Seq::new(items.len(), |i: int| toml_json(items[i])));
}

proof fn lemma_toml_entries_map(entries: Seq<(String, TomlValue)>)
    ensures
        toml_entries(entries) == Seq::new(entries.len(), |i: int| (entries[i].0@, toml_json(entries[i].1))),
    decreases entries.len(),
{
    if entries.len() > 0 {
        lemma_toml_entries_map(entries.drop_last());
    }
    assert(toml_entries(entries) =~= Seq::new(entries.len(), |i: int| (entries[i].0@, toml_json(entries[i].1))));
}

/// Converts an inline TOML value to JSON.
pub fn toml_value_to_json(value: &TomlValue) -> (json: JsonValue)
    ensures
        json@ == toml_json(*value),
    decreases value,
{
    match value {
        TomlValue::String(s) => JsonValue::String(s.clone()),
        TomlValue::Integer(i) => JsonValue::Int(*i),
        TomlValue::Float(t) => JsonValue::Raw(t.clone()),
        TomlValue::Boolean(b) => JsonValue::Bool(*b),
        TomlValue::Datetime(t) => JsonValue::String(t.clone()),
        TomlValue::Array(items) => {
            let mut out: Vec<JsonValue> = Vec::new();
            let mut i: usize = 0;
            while i < items.len()
                invariant
                    i <= items@.len(),
                    *value == TomlValue::Array(*items),
                    items_map(out@) == Seq::new(i as nat, |k: int| toml_json(items@[k])),
                decreases items@.len() - i,
            {
                proof {
                    assert(decreases_to!(*value => value->Array_0));
                    assert(decreases_to!(*items => items@));
                    assert(decreases_to!(items@ => items@[i as int]));
                }
                let j = toml_value_to_json(&items[i]);
                let ghost before = out@;
                out.push(j);
                i = i + 1;
                proof {
                    assert(items_map(out@) =~= items_map(before).push(j@));
                    assert(items_map(out@) =~= Seq::new(i as nat, |k: int| toml_json(items@[k])));
                }
            }
            proof {
                lemma_models_map(out@);
                lemma_toml_jsons_map(items@);
            }
            JsonValue::Array(out)
        },
        TomlValue::Table(entries) => {
            let mut out: Vec<(String, JsonValue)> = Vec::new();
            let mut i: usize = 0;
            while i < entries.len()
                invariant
                    i <= entries@.len(),
                    *value == TomlValue::Table(*entries),
                    entries_map(out@) == Seq::new(i as nat, |k: int| (entries@[k].0@, toml_json(entries@[k].1))),
                decreases entries@.len() - i,
            {
                proof {
                    assert(decreases_to!(*value => value->Table_0));
                    assert(decreases_to!(*entries => entries@));
                    assert(decreases_to!(entries@ => entries@[i as int]));
                    assert(decreases_to!(entries@[i as int] => entries@[i as int].1));
                }
                let j = toml_value_to_json(&entries[i].1);
                let k = entries[i].0.clone();
                let ghost before = out@;
                let ghost item = (k@, j@);
                out.push((k, j));
                i = i + 1;
                proof {
                    assert(entries_map(out@) =~= entries_map(before).push(item));
                    assert(entries_map(out@) =~= Seq::new(i as nat, |k: int| (entries@[k].0@, toml_json(entries@[k].1))));
                }
            }
            proof {
                lemma_entry_models_map(out@);
                lemma_toml_entries_map(entries@);
            }
            JsonValue::Object(sort_entries(out))
        },
    }
}

/// The compact JSON text `serde_json` writes for the value it parses out of
/// `text`, or `None` where `serde_json` refuses the text.
pub uninterp spec fn parsed_json(text: Seq<char>) -> Option<Seq<char>>;

/// Parses a JSON file's text with `serde_json::from_str` into a
/// `serde_json::Value` and writes that value back with `to_string`; the
/// result is named `parsed_json`. Parsing fails on text that is not JSON and
/// on JSON nested deeper than `serde_json`'s recursion limit (128 levels).
#[verifier::external_body]
fn parse_json_text(text: &str) -> (normalized: Option<String>)
    ensures
        match normalized {
            Some(t) => parsed_json(text@) == Some(t@),
            None => parsed_json(text@) is None,
        },
{
    serde_json::from_str::<serde_json::Value>(text).ok().map(|v| v.to_string())
}

/// Exactly one of `json` and `json_file` is set.
pub open spec fn json_source_ok(json: Option<TomlValue>, json_file: Option<String>) -> bool {
    json is Some != json_file is Some
}

/// A json file, if given, holds JSON.
pub open spec fn json_file_ok(json_file: Option<String>) -> bool {
    json_file matches Some(t) ==> parsed_json(t@) is Some
}

/// The JSON a json entry resolves to: the inline TOML value converted, or the
/// value of the file's JSON text.
pub open spec fn json_choice(json: Option<TomlValue>, json_file: Option<String>) -> JsonSpec {
    match json {
        Some(v) => toml_json(v),
        None => JsonSpec::Raw(parsed_json(json_file.unwrap()@).unwrap()),
    }
}

/// Whether a json file's text parses as JSON.
pub(crate) fn json_file_parses(text: &String) -> (ok: bool)
    ensures
        ok == parsed_json(text@) is Some,
{
    parse_json_text(text.as_str()).is_some()
}

/// Resolves a json entry to its value.
pub fn resolve_json(json: &Option<TomlValue>, json_file: &Option<String>) -> (value: JsonValue)
    requires
        json_source_ok(*json, *json_file),
        json_file_ok(*json_file),
    ensures
        value@ == json_choice(*json, *json_file),
{
    match json {
        Some(v) => toml_value_to_json(v),
        None => match json_file {
            Some(text) => match parse_json_text(text.as_str()) {
                Some(t) => JsonValue::Raw(t),
                None => JsonValue::Null,
            },
            None => JsonValue::Null,
        },
    }
}

} // verus!
