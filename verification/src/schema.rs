//! JSON Schema dispatch for frontmatter validation.
//!
//! Adopters ship JSON Schema files (draft 2020-12). A schema is compiled once
//! by the `jsonschema` crate (with the linear-time `regex` engine for
//! `pattern`) and validated against many frontmatter values. Each violation is
//! described by an engine-authored message carrying no document content
//! inline; the failing value rides in a quoted region. The raw schema is also
//! kept as a [`JsonNode`] tree, walked conservatively to classify
//! `$self.<path>` field references.
use vstd::prelude::*;
use vstd::string::StrSliceExecFns;

use jsonschema::error::ValidationErrorKind as K;

use crate::diagnostic::{escape_path_text, escape_text, QuotedRegion};
use crate::error::Error;
use crate::frontmatter::{YamlValue, YamlView};
use crate::text::{decimal, owned, push_decimal, push_str, same_text, views};

verus! {

#[verifier::external_type_specification]
#[verifier::external_body]
pub struct ExJsonNumber(serde_json::Number);

#[verifier::external_type_specification]
#[verifier::external_body]
pub struct ExJsonValue(serde_json::Value);

/// `serde_json::Number::clone`, which `derive` writes over the number's
/// plain representation: the copy equals the original.
#[verifier::external_body]
fn copy_number(n: &serde_json::Number) -> (r: serde_json::Number)
    ensures
        r == *n,
{
    n.clone()
}

// ── The JSON model ─────────────────────────────────────────────────────────

/// A JSON value as the library reads it. Numbers are carried through unread;
/// an object keeps its members in order, and a key given twice keeps its last
/// value (as in a parsed JSON object).
#[derive(Debug)]
pub enum JsonNode {
    Null,
    Bool(bool),
    Number(serde_json::Number),
    Str(String),
    Array(Vec<JsonNode>),
    Object(Vec<(String, JsonNode)>),
}

/// The mathematical form of a [`JsonNode`].
pub enum JsonView {
    Null,
    Bool(bool),
    Number(serde_json::Number),
    Str(Seq<char>),
    Array(Seq<JsonView>),
    Object(Seq<(Seq<char>, JsonView)>),
}

impl JsonNode {
    pub open spec fn view(&self) -> JsonView
        decreases self,
    {
        match self {
            JsonNode::Null => JsonView::Null,
            JsonNode::Bool(b) => JsonView::Bool(*b),
            JsonNode::Number(n) => JsonView::Number(*n),
            JsonNode::Str(s) => JsonView::Str(s@),
            JsonNode::Array(a) => JsonView::Array(
                Seq::new(
                    a.len() as nat,
                    |i: int|
                        if 0 <= i < a.len() {
                            a[i].view()
                        } else {
                            JsonView::Null
                        },
                ),
            ),
            JsonNode::Object(m) => JsonView::Object(
                Seq::new(
                    m.len() as nat,
                    |i: int|
                        if 0 <= i < m.len() {
                            (m[i].0@, m[i].1.view())
                        } else {
                            (Seq::empty(), JsonView::Null)
                        },
                ),
            ),
        }
    }
}

/// The views of an array's elements.
pub open spec fn elements_view(a: Seq<JsonNode>) -> Seq<JsonView> {
    Seq::new(a.len(), |i: int| a[i].view())
}

/// The views of an object's members.
pub open spec fn members_view(m: Seq<(String, JsonNode)>) -> Seq<(Seq<char>, JsonView)> {
    Seq::new(m.len(), |i: int| (m[i].0@, m[i].1.view()))
}

/// The value of the last member named `key`.
pub open spec fn member_at(m: Seq<(Seq<char>, JsonView)>, key: Seq<char>) -> Option<JsonView>
    decreases m.len(),
{
    if m.len() == 0 {
        None
    } else if m.last().0 == key {
        Some(m.last().1)
    } else {
        member_at(m.drop_last(), key)
    }
}

/// `v[key]` for an object, `None` for anything else.
pub open spec fn get(v: JsonView, key: Seq<char>) -> Option<JsonView> {
    match v {
        JsonView::Object(m) => member_at(m, key),
        _ => None,
    }
}

/// The members of a schema level's `properties`, when that is an object.
pub open spec fn properties_of(v: JsonView) -> Option<Seq<(Seq<char>, JsonView)>> {
    match get(v, "properties"@) {
        Some(JsonView::Object(m)) => Some(m),
        _ => None,
    }
}

/// Whether a schema level is an explicitly closed object
/// (`additionalProperties: false`).
pub open spec fn is_closed(v: JsonView) -> bool {
    get(v, "additionalProperties"@) == Some(JsonView::Bool(false))
}

/// The status of a `$self.<path>` field reference against a schema.
#[derive(Debug, Clone, Copy, PartialEq, Eq)]
pub enum FieldPathStatus {
    /// The path resolves to a declared property.
    Declared,
    /// A segment is absent from a level's `properties` and that level is an
    /// explicitly closed object: a likely typo.
    UndeclaredClosed,
    /// The walk could not decide (an open object, a level with no
    /// `properties`, a non-object level, a `$ref` or combinator); never
    /// flagged.
    Unknown,
}

/// The closed-property walk of `path` from schema level `v`.
pub open spec fn path_status(v: JsonView, path: Seq<Seq<char>>) -> FieldPathStatus
    decreases path.len(),
{
    if path.len() == 0 {
        FieldPathStatus::Declared
    } else {
        match properties_of(v) {
            None => FieldPathStatus::Unknown,
            Some(p) => match member_at(p, path[0]) {
                Some(sub) => path_status(sub, path.drop_first()),
                None => if is_closed(v) {
                    FieldPathStatus::UndeclaredClosed
                } else {
                    FieldPathStatus::Unknown
                },
            },
        }
    }
}

/// The schema node `path` declares from level `v`, when every segment is a
/// declared property.
pub open spec fn path_node(v: JsonView, path: Seq<Seq<char>>) -> Option<JsonView>
    decreases path.len(),
{
    if path.len() == 0 {
        Some(v)
    } else {
        match properties_of(v) {
            None => None,
            Some(p) => match member_at(p, path[0]) {
                Some(sub) => path_node(sub, path.drop_first()),
                None => None,
            },
        }
    }
}

/// The single declared `type` string of the node `path` reaches.
pub open spec fn path_type(v: JsonView, path: Seq<Seq<char>>) -> Option<Seq<char>> {
    match path_node(v, path) {
        Some(n) => match get(n, "type"@) {
            Some(JsonView::Str(t)) => Some(t),
            _ => None,
        },
        None => None,
    }
}

/// The declared `enum` array of the node `path` reaches.
pub open spec fn path_enum(v: JsonView, path: Seq<Seq<char>>) -> Option<Seq<JsonView>> {
    match path_node(v, path) {
        Some(n) => match get(n, "enum"@) {
            Some(JsonView::Array(a)) => Some(a),
            _ => None,
        },
        None => None,
    }
}

/// The type and enum walks share the status walk's discipline: a path whose
/// node they can reach is a declared path, and a path flagged as an
/// undeclared key of a closed object reaches no node.
pub proof fn lemma_reachable_paths_are_declared(v: JsonView, path: Seq<Seq<char>>)
    ensures
        path_node(v, path) is Some <==> path_status(v, path) == FieldPathStatus::Declared,
        path_status(v, path) == FieldPathStatus::UndeclaredClosed ==> path_type(v, path) is None
            && path_enum(v, path) is None,
    decreases path.len(),
{
    if path.len() > 0 {
        if let Some(p) = properties_of(v) {
            if let Some(sub) = member_at(p, path[0]) {
                lemma_reachable_paths_are_declared(sub, path.drop_first());
            }
        }
    }
}

/// The last member of `m` named `key`.
fn member<'a>(m: &'a Vec<(String, JsonNode)>, key: &str) -> (r: Option<&'a JsonNode>)
    ensures
        match r {
            Some(n) => member_at(members_view(m@), key@) == Some(n.view()),
            None => member_at(members_view(m@), key@) is None,
        },
{
    let ghost full = members_view(m@);
    let mut i: usize = m.len();
    proof {
        assert(full.take(i as int) =~= full);
    }
    while i > 0
        invariant
            i <= m@.len(),
            full == members_view(m@),
            member_at(full, key@) == member_at(full.take(i as int), key@),
        decreases i,
    {
        proof {
            assert(full.take(i as int).drop_last() =~= full.take(i - 1));
        }
        if same_text(m[i - 1].0.as_str(), key) {
            return Some(&m[i - 1].1);
        }
        i = i - 1;
    }
    proof {
        assert(full.take(0) =~= Seq::<(Seq<char>, JsonView)>::empty());
    }
    None
}

/// The last member of `m` named by a `String` key.
fn member_str<'a>(m: &'a Vec<(String, JsonNode)>, key: &String) -> (r: Option<&'a JsonNode>)
    ensures
        match r {
            Some(n) => member_at(members_view(m@), key@) == Some(n.view()),
            None => member_at(members_view(m@), key@) is None,
        },
{
    member(m, key.as_str())
}

/// `node[key]` for an object node.
fn get_member<'a>(node: &'a JsonNode, key: &str) -> (r: Option<&'a JsonNode>)
    ensures
        match r {
            Some(n) => get(node.view(), key@) == Some(n.view()),
            None => get(node.view(), key@) is None,
        },
{
    match node {
        JsonNode::Object(m) => {
            proof {
                assert(members_view(m@) =~= node.view()->Object_0);
            }
            member(m, key)
        },
        _ => None,
    }
}

/// The members of `node`'s `properties` object.
fn properties<'a>(node: &'a JsonNode) -> (r: Option<&'a Vec<(String, JsonNode)>>)
    ensures
        match r {
            Some(p) => properties_of(node.view()) == Some(members_view(p@)),
            None => properties_of(node.view()) is None,
        },
{
    match get_member(node, "properties") {
        Some(JsonNode::Object(p)) => {
            proof {
                assert(members_view(p@) =~= get(node.view(), "properties"@)->Some_0->Object_0);
            }
            Some(p)
        },
        _ => None,
    }
}

/// Whether `node` declares `additionalProperties: false`.
fn closed(node: &JsonNode) -> (b: bool)
    ensures
        b == is_closed(node.view()),
{
    match get_member(node, "additionalProperties") {
        Some(JsonNode::Bool(false)) => true,
        _ => false,
    }
}

/// A copy of `node` holding the same JSON.
fn copy_json(node: &JsonNode) -> (r: JsonNode)
    ensures
        r.view() == node.view(),
    decreases node,
{
    match node {
        JsonNode::Null => JsonNode::Null,
        JsonNode::Bool(b) => JsonNode::Bool(*b),
        JsonNode::Number(n) => JsonNode::Number(copy_number(n)),
        JsonNode::Str(t) => JsonNode::Str(owned(t.as_str())),
        JsonNode::Array(a) => {
            let mut out: Vec<JsonNode> = Vec::new();
            let mut i: usize = 0;
            while i < a.len()
                invariant
                    i <= a@.len(),
                    *node == JsonNode::Array(*a),
                    out@.len() == i,
                    forall|j: int| 0 <= j < i ==> #[trigger] out@[j].view() == a@[j].view(),
                decreases a.len() - i,
            {
                proof {
                    assert(decreases_to!(*node => node->Array_0));
                    vstd::std_specs::vec::axiom_vec_index_decreases(*a, i as int);
                }
                let c = copy_json(&a[i]);
                out.push(c);
                i = i + 1;
            }
            let ghost outs = out@;
            let r = JsonNode::Array(out);
            proof {
                assert forall|j: int| 0 <= j < outs.len() implies #[trigger] r.view()->Array_0[j]
                    == node.view()->Array_0[j] by {
                    assert(outs[j].view() == a@[j].view());
                }
                assert(r.view()->Array_0 =~= node.view()->Array_0);
            }
            r
        },
        JsonNode::Object(m) => {
            let mut out: Vec<(String, JsonNode)> = Vec::new();
            let mut i: usize = 0;
            while i < m.len()
                invariant
                    i <= m@.len(),
                    *node == JsonNode::Object(*m),
                    out@.len() == i,
                    forall|j: int|
                        0 <= j < i ==> #[trigger] out@[j].0@ == m@[j].0@ && out@[j].1.view()
                            == m@[j].1.view(),
                decreases m.len() - i,
            {
                proof {
                    assert(decreases_to!(*node => node->Object_0));
                    vstd::std_specs::vec::axiom_vec_index_decreases(*m, i as int);
                    assert(decreases_to!(m@[i as int] => m@[i as int].1));
                }
                let k = owned(m[i].0.as_str());
                let c = copy_json(&m[i].1);
                let ghost prev = out@;
                out.push((k, c));
                proof {
                    assert forall|j: int| 0 <= j < i + 1 implies #[trigger] out@[j].0@ == m@[j].0@
                        && out@[j].1.view() == m@[j].1.view() by {
                        if j < i {
                            assert(out@[j] == prev[j]);
                        }
                    }
                }
                i = i + 1;
            }
            let r = JsonNode::Object(out);
            proof {
                assert(r.view()->Object_0 =~= node.view()->Object_0);
            }
            r
        },
    }
}

/// Builds the `serde_json::Value` holding the same JSON as `node` (an
/// object's members inserted in order, so a repeated key keeps its last
/// value).
#[verifier::external_body]
fn to_serde_value(node: &JsonNode) -> serde_json::Value {
    match node {
        JsonNode::Null => serde_json::Value::Null,
        JsonNode::Bool(b) => serde_json::Value::Bool(*b),
        JsonNode::Number(n) => serde_json::Value::Number(n.clone()),
        JsonNode::Str(t) => serde_json::Value::String(t.clone()),
        JsonNode::Array(a) => serde_json::Value::Array(a.iter().map(to_serde_value).collect()),
        JsonNode::Object(m) => serde_json::Value::Object(
            m.iter().map(|(k, v)| (k.clone(), to_serde_value(v))).collect(),
        ),
    }
}

/// Whether `jsonschema` (draft 2020-12, `pattern` on the linear-time `regex`
/// engine, no remote retrieval) compiles `schema`.
pub uninterp spec fn schema_builds(schema: JsonView) -> bool;

/// The refusal text of a schema compile: the compiler's message after a
/// fixed prefix.
pub open spec fn compile_refusal(message: Seq<char>) -> Seq<char> {
    "schema compile failed: "@ + message
}

/// Calls `jsonschema::options().with_draft(Draft202012)
/// .with_pattern_options(PatternOptions::regex()).build(..)` on the JSON of
/// `schema`. Which schemas compile is named, not stated; of a refusal only
/// that it carries the compiler's text is said (which fault a schema with
/// several is reported for is left to the compiler).
#[verifier::external_body]
fn build_validator(schema: &JsonNode) -> (r: Result<CompiledSchema, String>)
    ensures
        r is Ok <==> schema_builds(schema.view()),
{
    jsonschema::options()
        .with_draft(jsonschema::Draft::Draft202012)
        .with_pattern_options(jsonschema::PatternOptions::regex())
        .build(&to_serde_value(schema))
        .map(|validator| CompiledSchema { validator })
        .map_err(|e| e.to_string())
}

// ── The compiled schema ────────────────────────────────────────────────────

/// The validator `jsonschema` compiled, held opaque and carried through
/// unread (Verus refuses a declaration of `jsonschema::Validator`, whose
/// type parameter is bound by a trait of that crate).
#[verifier::external_body]
struct CompiledSchema {
    validator: jsonschema::Validator,
}

/// A compiled JSON Schema ready for validation against many instances,
/// together with the schema's own JSON, kept for field-reference walks.
pub struct Schema {
    compiled: CompiledSchema,
    raw: JsonNode,
}

impl Schema {
    /// The schema JSON this schema was compiled from.
    pub closed spec fn source(&self) -> JsonView {
        self.raw.view()
    }

    /// Compile a schema from its JSON. Refused, with the compiler's
    /// message, when it is not a valid draft 2020-12 schema.
    pub fn compile(schema_json: &JsonNode) -> (r: Result<Self, Error>)
        ensures
            r is Ok <==> schema_builds(schema_json.view()),
            r matches Ok(s) ==> s.source() == schema_json.view(),
            r matches Err(Error::Config(m)) ==> exists|t: Seq<char>| m@ == #[trigger] compile_refusal(t),
    {
        match build_validator(schema_json) {
            Ok(compiled) => Ok(Schema { compiled, raw: copy_json(schema_json) }),
            Err(e) => {
                let mut m = String::new();
                push_str(&mut m, "schema compile failed: ");
                push_str(&mut m, e.as_str());
                proof {
                    assert(m@ == compile_refusal(e@));
                }
                Err(Error::Config(m))
            },
        }
    }

    /// Classify a `$self.<path>` field reference by the closed-property walk
    /// (see [`path_status`]): `UndeclaredClosed` only when a segment is absent
    /// from a level's `properties` and that level is explicitly closed.
    pub fn field_path_status(&self, path: &[String]) -> (r: FieldPathStatus)
        ensures
            r == path_status(self.source(), views(path@)),
    {
        let ghost full = views(path@);
        let mut cur: &JsonNode = &self.raw;
        let mut i: usize = 0;
        proof {
            assert(full.skip(0) =~= full);
        }
        while i < path.len()
            invariant
                i <= path@.len(),
                full == views(path@),
                path_status(self.source(), full) == path_status(cur.view(), full.skip(i as int)),
            decreases path.len() - i,
        {
            proof {
                assert(full.skip(i as int)[0] == path@[i as int]@);
                assert(full.skip(i as int).drop_first() =~= full.skip(i + 1));
            }
            let props = match properties(cur) {
                Some(p) => p,
                None => return FieldPathStatus::Unknown,
            };
            match member_str(props, &path[i]) {
                Some(sub) => {
                    cur = sub;
                },
                None => {
                    return if closed(cur) {
                        FieldPathStatus::UndeclaredClosed
                    } else {
                        FieldPathStatus::Unknown
                    };
                },
            }
            i = i + 1;
        }
        proof {
            assert(full.skip(i as int).len() == 0);
        }
        FieldPathStatus::Declared
    }

    /// The node `path` declares, or `None` when any segment is undecidable.
    fn field_path_node(&self, path: &[String]) -> (r: Option<&JsonNode>)
        ensures
            match r {
                Some(n) => path_node(self.source(), views(path@)) == Some(n.view()),
                None => path_node(self.source(), views(path@)) is None,
            },
    {
        let ghost full = views(path@);
        let mut cur: &JsonNode = &self.raw;
        let mut i: usize = 0;
        proof {
            assert(full.skip(0) =~= full);
        }
        while i < path.len()
            invariant
                i <= path@.len(),
                full == views(path@),
                path_node(self.source(), full) == path_node(cur.view(), full.skip(i as int)),
            decreases path.len() - i,
        {
            proof {
                assert(full.skip(i as int)[0] == path@[i as int]@);
                assert(full.skip(i as int).drop_first() =~= full.skip(i + 1));
            }
            let props = match properties(cur) {
                Some(p) => p,
                None => return None,
            };
            match member_str(props, &path[i]) {
                Some(sub) => {
                    cur = sub;
                },
                None => return None,
            }
            i = i + 1;
        }
        proof {
            assert(full.skip(i as int).len() == 0);
        }
        Some(cur)
    }

    /// The single declared JSON-Schema `type` of a `$self.<path>` field, or
    /// `None` when the path is undecidable or its node has no single string
    /// `type` (an array of types is left unchecked).
    pub fn field_path_type(&self, path: &[String]) -> (r: Option<&str>)
        ensures
            match r {
                Some(t) => path_type(self.source(), views(path@)) == Some(t@),
                None => path_type(self.source(), views(path@)) is None,
            },
    {
        let node = self.field_path_node(path)?;
        match get_member(node, "type") {
            Some(JsonNode::Str(t)) => Some(t.as_str()),
            _ => None,
        }
    }

    /// The declared `enum` of a `$self.<path>` field, or `None` when the path
    /// is undecidable or its node declares no `enum` array.
    pub fn field_path_enum(&self, path: &[String]) -> (r: Option<&[JsonNode]>)
        ensures
            match r {
                Some(a) => path_enum(self.source(), views(path@)) == Some(elements_view(a@)),
                None => path_enum(self.source(), views(path@)) is None,
            },
    {
        let node = self.field_path_node(path)?;
        match get_member(node, "enum") {
            Some(JsonNode::Array(a)) => {
                proof {
                    assert(elements_view(a@) =~= get(node.view(), "enum"@)->Some_0->Array_0);
                }
                Some(a.as_slice())
            },
            _ => None,
        }
    }
}

// ── Violations and their descriptions ──────────────────────────────────────

#[verifier::external_type_specification]
#[verifier::external_body]
pub struct ExErrorKind(jsonschema::error::ValidationErrorKind);

/// What a validation failure was, as far as its description reads it. Schema
/// values (allowed options, constants, numeric limits, property names) are
/// carried as their compact JSON text, `None` where that text could not be
/// produced.
#[derive(Debug, Clone, PartialEq, Eq)]
pub enum ViolationKind {
    AdditionalProperties(Vec<String>),
    UnevaluatedProperties(Vec<String>),
    Required(Option<String>),
    Enum(Option<String>),
    Constant(Option<String>),
    Type,
    Pattern(String),
    Format(String),
    Minimum(Option<String>),
    Maximum(Option<String>),
    ExclusiveMinimum(Option<String>),
    ExclusiveMaximum(Option<String>),
    MinLength(u64),
    MaxLength(u64),
    MinItems(u64),
    MaxItems(u64),
    MinProperties(u64),
    MaxProperties(u64),
    /// Any other keyword.
    Other,
}

/// One validation failure: its kind, the JSON pointers into the instance and
/// into the schema, and the failing value as compact JSON (`None` when it
/// could not be serialized).
#[derive(Debug, Clone, PartialEq, Eq)]
pub struct Violation {
    pub kind: ViolationKind,
    pub instance_path: String,
    pub schema_path: String,
    pub found: Option<String>,
}

/// A single validation failure: where it occurred and an engine-authored
/// message carrying no document content inline; the failing value and any
/// unexpected keys ride in `quoted`.
#[derive(Debug, Clone, PartialEq, Eq)]
pub struct ValidationError {
    /// JSON pointer into the instance (empty at the root).
    pub instance_path: String,
    /// JSON pointer into the schema to the keyword that failed.
    pub schema_path: String,
    pub message: String,
    pub quoted: Vec<QuotedRegion>,
}

/// Compact JSON text of a schema-side value, `None` if serialization fails
/// (`serde_json::to_string`).
#[verifier::external_body]
fn compact_json(v: &serde_json::Value) -> Option<String> {
    serde_json::to_string(v).ok()
}

/// The property-keyed kinds (`AdditionalProperties`, `UnevaluatedProperties`,
/// `Required`), moved field by field; `None` for any other kind.
#[verifier::external_body]
fn property_kind(k: &K) -> (r: Option<ViolationKind>)
    ensures
        r matches Some(v) ==> (v is AdditionalProperties || v is UnevaluatedProperties
            || v is Required),
{
    match k {
        K::AdditionalProperties { unexpected } => Some(ViolationKind::AdditionalProperties(unexpected.clone())),
        K::UnevaluatedProperties { unexpected } => Some(ViolationKind::UnevaluatedProperties(unexpected.clone())),
        K::Required { property } => Some(ViolationKind::Required(compact_json(property))),
        _ => None,
    }
}

/// The value-shaped kinds (`Enum`, `Constant`, `Type`, `Pattern`, `Format`),
/// moved field by field; `None` for any other kind.
#[verifier::external_body]
fn value_kind(k: &K) -> (r: Option<ViolationKind>)
    ensures
        r matches Some(v) ==> (v is Enum || v is Constant || v is Type || v is Pattern
            || v is Format),
{
    match k {
        K::Enum { options } => Some(ViolationKind::Enum(compact_json(options))),
        K::Constant { expected_value } => Some(ViolationKind::Constant(compact_json(expected_value))),
        K::Type { .. } => Some(ViolationKind::Type),
        K::Pattern { pattern } => Some(ViolationKind::Pattern(pattern.clone())),
        K::Format { format } => Some(ViolationKind::Format(format.clone())),
        _ => None,
    }
}

/// The numeric-bound kinds (`Minimum`, `Maximum`, `ExclusiveMinimum`,
/// `ExclusiveMaximum`), moved field by field; `None` for any other kind.
#[verifier::external_body]
fn bound_kind(k: &K) -> (r: Option<ViolationKind>)
    ensures
        r matches Some(v) ==> (v is Minimum || v is Maximum || v is ExclusiveMinimum
            || v is ExclusiveMaximum),
{
    match k {
        K::Minimum { limit } => Some(ViolationKind::Minimum(compact_json(limit))),
        K::Maximum { limit } => Some(ViolationKind::Maximum(compact_json(limit))),
        K::ExclusiveMinimum { limit } => Some(ViolationKind::ExclusiveMinimum(compact_json(limit))),
        K::ExclusiveMaximum { limit } => Some(ViolationKind::ExclusiveMaximum(compact_json(limit))),
        _ => None,
    }
}

/// The count-bound kinds (`MinLength`, `MaxLength`, `MinItems`, `MaxItems`,
/// `MinProperties`, `MaxProperties`), moved field by field; `None` for any
/// other kind.
#[verifier::external_body]
fn count_kind(k: &K) -> (r: Option<ViolationKind>)
    ensures
        r matches Some(v) ==> (v is MinLength || v is MaxLength || v is MinItems
            || v is MaxItems || v is MinProperties || v is MaxProperties),
{
    match k {
        K::MinLength { limit } => Some(ViolationKind::MinLength(*limit)),
        K::MaxLength { limit } => Some(ViolationKind::MaxLength(*limit)),
        K::MinItems { limit } => Some(ViolationKind::MinItems(*limit)),
        K::MaxItems { limit } => Some(ViolationKind::MaxItems(*limit)),
        K::MinProperties { limit } => Some(ViolationKind::MinProperties(*limit)),
        K::MaxProperties { limit } => Some(ViolationKind::MaxProperties(*limit)),
        _ => None,
    }
}

/// The library's form of a `jsonschema` error kind: the first of the
/// property-keyed, value-shaped, numeric-bound and count-bound conversions
/// that applies, `Other` for a kind the descriptions do not single out.
fn violation_kind(k: &K) -> ViolationKind {
    if let Some(v) = property_kind(k) {
        v
    } else if let Some(v) = value_kind(k) {
        v
    } else if let Some(v) = bound_kind(k) {
        v
    } else if let Some(v) = count_kind(k) {
        v
    } else {
        ViolationKind::Other
    }
}

/// ` at <pointer>` with the pointer's break-like characters escaped, or
/// nothing for the root pointer.
pub open spec fn at_text(pointer: Seq<char>) -> Seq<char> {
    if pointer.len() == 0 {
        Seq::empty()
    } else {
        " at "@ + escape_text(pointer)
    }
}

/// Compact JSON text, or `<?>` when there was none.
pub open spec fn compact_text(c: Option<String>) -> Seq<char> {
    match c {
        Some(t) => t@,
        None => "<?>"@,
    }
}

/// Lines joined by line feeds.
pub open spec fn join_lines(ls: Seq<Seq<char>>) -> Seq<char>
    decreases ls.len(),
{
    if ls.len() == 0 {
        Seq::empty()
    } else if ls.len() == 1 {
        ls[0]
    } else {
        join_lines(ls.drop_last()) + "\n"@ + ls.last()
    }
}

/// The `found` region's content: the failing value, or a placeholder.
pub open spec fn found_text(found: Option<String>) -> Seq<char> {
    match found {
        Some(t) => t@,
        None => "<unserializable value>"@,
    }
}

/// The message of a violation, built from schema-side data only.
pub open spec fn violation_message(v: Violation) -> Seq<char> {
    let at = at_text(v.instance_path@);
    match v.kind {
        ViolationKind::AdditionalProperties(u) => "unexpected "@ + (if u.len() == 1 {
            "property"@
        } else {
            "properties"@
        }) + " not permitted by the schema"@ + at,
        ViolationKind::UnevaluatedProperties(u) => "unexpected "@ + (if u.len() == 1 {
            "property"@
        } else {
            "properties"@
        }) + " not permitted by the schema"@ + at,
        ViolationKind::Required(p) => "required property "@ + compact_text(p) + " is missing"@
            + at,
        ViolationKind::Enum(o) => "value"@ + at + " is not one of the schema's allowed options: "@
            + compact_text(o),
        ViolationKind::Constant(e) => "value"@ + at + " must equal the schema constant "@
            + compact_text(e),
        ViolationKind::Type => "value"@ + at + " is not of the type the schema requires"@,
        ViolationKind::Pattern(p) => "value"@ + at + " does not match the schema's required pattern /"@
            + escape_text(p@) + "/"@,
        ViolationKind::Format(f) => "value"@ + at + " does not conform to the '"@ + f@ + "' format"@,
        ViolationKind::Minimum(l) => "value"@ + at + " violates the schema numeric bound ("@
            + compact_text(l) + ")"@,
        ViolationKind::Maximum(l) => "value"@ + at + " violates the schema numeric bound ("@
            + compact_text(l) + ")"@,
        ViolationKind::ExclusiveMinimum(l) => "value"@ + at + " violates the schema numeric bound ("@
            + compact_text(l) + ")"@,
        ViolationKind::ExclusiveMaximum(l) => "value"@ + at + " violates the schema numeric bound ("@
            + compact_text(l) + ")"@,
        ViolationKind::MinLength(l) => "value"@ + at + " violates the schema length bound ("@
            + decimal(l as nat) + ")"@,
        ViolationKind::MaxLength(l) => "value"@ + at + " violates the schema length bound ("@
            + decimal(l as nat) + ")"@,
        ViolationKind::MinItems(l) => "array"@ + at + " violates the schema item-count bound ("@
            + decimal(l as nat) + ")"@,
        ViolationKind::MaxItems(l) => "array"@ + at + " violates the schema item-count bound ("@
            + decimal(l as nat) + ")"@,
        ViolationKind::MinProperties(l) => "object"@ + at
            + " violates the schema property-count bound ("@ + decimal(l as nat) + ")"@,
        ViolationKind::MaxProperties(l) => "object"@ + at
            + " violates the schema property-count bound ("@ + decimal(l as nat) + ")"@,
        ViolationKind::Other => "value"@ + at + " does not satisfy the schema ("@ + (if v.schema_path@.len()
            == 0 {
            Seq::empty()
        } else {
            "at "@ + escape_text(v.schema_path@)
        }) + ")"@,
    }
}

/// The quoted regions of a violation, as (label, content) pairs: the
/// unexpected keys one per line, nothing for a missing required property,
/// otherwise the failing value.
pub open spec fn violation_quoted(v: Violation) -> Seq<(Seq<char>, Seq<char>)> {
    match v.kind {
        ViolationKind::AdditionalProperties(u) => seq![("unexpected"@, join_lines(views(u@)))],
        ViolationKind::UnevaluatedProperties(u) => seq![("unexpected"@, join_lines(views(u@)))],
        ViolationKind::Required(_) => Seq::empty(),
        _ => seq![("found"@, found_text(v.found))],
    }
}

/// The failing document value never rides inline: two violations that differ
/// only in their failing value get the same message.
pub proof fn lemma_message_independent_of_value(a: Violation, b: Violation)
    requires
        a.kind == b.kind,
        a.instance_path@ == b.instance_path@,
        a.schema_path@ == b.schema_path@,
    ensures
        violation_message(a) == violation_message(b),
{
}

/// The (label, content) pairs of quoted regions.
pub open spec fn regions_view(rs: Seq<QuotedRegion>) -> Seq<(Seq<char>, Seq<char>)> {
    Seq::new(rs.len(), |i: int| (rs[i].label@, rs[i].content@))
}

/// No region is marked platform-variant.
pub open spec fn plain_regions(rs: Seq<QuotedRegion>) -> bool {
    forall|i: int| 0 <= i < rs.len() ==> !(#[trigger] rs[i]).platform_variant
}

fn region(label: &str, content: String) -> (r: QuotedRegion)
    ensures
        !r.platform_variant,
        r.label@ == label@,
        r.content@ == content@,
{
    QuotedRegion { platform_variant: false, label: owned(label), content }
}

/// Escape the break-like characters of adopter text interpolated inline.
fn escape_inline(s: &str) -> (r: String)
    ensures
        r@ == escape_text(s@),
{
    escape_path_text(s)
}

/// Render a JSON pointer for inline use (see [`at_text`]).
fn at_pointer(pointer: &str) -> (r: String)
    ensures
        r@ == at_text(pointer@),
{
    if pointer.unicode_len() == 0 {
        return String::new();
    }
    let mut r = String::new();
    push_str(&mut r, " at ");
    let e = escape_inline(pointer);
    push_str(&mut r, e.as_str());
    r
}

fn push_compact(m: &mut String, c: &Option<String>)
    ensures
        final(m)@ == old(m)@ + compact_text(*c),
{
    match c {
        Some(t) => push_str(m, t.as_str()),
        None => push_str(m, "<?>"),
    }
}

fn join_with_lf(ls: &Vec<String>) -> (r: String)
    ensures
        r@ == join_lines(views(ls@)),
{
    let mut r = String::new();
    let mut i: usize = 0;
    while i < ls.len()
        invariant
            i <= ls@.len(),
            r@ == join_lines(views(ls@).take(i as int)),
        decreases ls.len() - i,
    {
        proof {
            assert(views(ls@).take(i + 1).drop_last() =~= views(ls@).take(i as int));
        }
        if i > 0 {
            push_str(&mut r, "\n");
        }
        push_str(&mut r, ls[i].as_str());
        i = i + 1;
    }
    proof {
        assert(views(ls@).take(ls@.len() as int) =~= views(ls@));
    }
    r
}

fn found_region(found: &Option<String>) -> (r: QuotedRegion)
    ensures
        !r.platform_variant,
        r.label@ == "found"@,
        r.content@ == found_text(*found),
{
    match found {
        Some(t) => region("found", owned(t.as_str())),
        None => region("found", owned("<unserializable value>")),
    }
}

/// `<subject><at><rest>`, the shape most violation messages take.
fn subject_message(subject: &str, at: &String, rest: &str) -> (m: String)
    ensures
        m@ == subject@ + at@ + rest@,
{
    let mut m = String::new();
    push_str(&mut m, subject);
    push_str(&mut m, at.as_str());
    push_str(&mut m, rest);
    m
}

/// The message and quoted regions of a violation: the message is built from
/// the failure's kind and schema-side data only (keyword, allowed options,
/// limits), never from the failing document value, which is quoted instead.
pub fn describe(v: &Violation) -> (r: (String, Vec<QuotedRegion>))
    ensures
        r.0@ == violation_message(*v),
        regions_view(r.1@) == violation_quoted(*v),
        plain_regions(r.1@),
{
    let at = at_pointer(v.instance_path.as_str());
    let mut quoted: Vec<QuotedRegion> = Vec::new();
    let mut m: String;
    match &v.kind {
        ViolationKind::AdditionalProperties(u) | ViolationKind::UnevaluatedProperties(u) => {
            m = String::new();
            push_str(&mut m, "unexpected ");
            if u.len() == 1 {
                push_str(&mut m, "property");
            } else {
                push_str(&mut m, "properties");
            }
            push_str(&mut m, " not permitted by the schema");
            push_str(&mut m, at.as_str());
            quoted.push(region("unexpected", join_with_lf(u)));
        },
        ViolationKind::Required(p) => {
            m = String::new();
            push_str(&mut m, "required property ");
            push_compact(&mut m, p);
            push_str(&mut m, " is missing");
            push_str(&mut m, at.as_str());
        },
        ViolationKind::Enum(o) => {
            m = subject_message("value", &at, " is not one of the schema's allowed options: ");
            push_compact(&mut m, o);
        },
        ViolationKind::Constant(e) => {
            m = subject_message("value", &at, " must equal the schema constant ");
            push_compact(&mut m, e);
        },
        ViolationKind::Type => {
            m = subject_message("value", &at, " is not of the type the schema requires");
        },
        ViolationKind::Pattern(p) => {
            m = subject_message("value", &at, " does not match the schema's required pattern /");
            let e = escape_inline(p.as_str());
            push_str(&mut m, e.as_str());
            push_str(&mut m, "/");
        },
        ViolationKind::Format(f) => {
            m = subject_message("value", &at, " does not conform to the '");
            push_str(&mut m, f.as_str());
            push_str(&mut m, "' format");
        },
        ViolationKind::Minimum(l) | ViolationKind::Maximum(l) | ViolationKind::ExclusiveMinimum(l)
        | ViolationKind::ExclusiveMaximum(l) => {
            m = subject_message("value", &at, " violates the schema numeric bound (");
            push_compact(&mut m, l);
            push_str(&mut m, ")");
        },
        ViolationKind::MinLength(l) | ViolationKind::MaxLength(l) => {
            m = subject_message("value", &at, " violates the schema length bound (");
            push_decimal(&mut m, *l);
            push_str(&mut m, ")");
        },
        ViolationKind::MinItems(l) | ViolationKind::MaxItems(l) => {
            m = subject_message("array", &at, " violates the schema item-count bound (");
            push_decimal(&mut m, *l);
            push_str(&mut m, ")");
        },
        ViolationKind::MinProperties(l) | ViolationKind::MaxProperties(l) => {
            m = subject_message("object", &at, " violates the schema property-count bound (");
            push_decimal(&mut m, *l);
            push_str(&mut m, ")");
        },
        ViolationKind::Other => {
            m = subject_message("value", &at, " does not satisfy the schema (");
            if v.schema_path.as_str().unicode_len() > 0 {
                push_str(&mut m, "at ");
                let e = escape_inline(v.schema_path.as_str());
                push_str(&mut m, e.as_str());
            }
            push_str(&mut m, ")");
        },
    }
    match &v.kind {
        ViolationKind::AdditionalProperties(_) | ViolationKind::UnevaluatedProperties(_)
        | ViolationKind::Required(_) => {},
        _ => {
            quoted.push(found_region(&v.found));
        },
    }
    proof {
        assert(regions_view(quoted@) =~= violation_quoted(*v));
    }
    (m, quoted)
}

/// Whether `e` is the description of violation `v`, at the same pointers.
pub open spec fn describes(e: ValidationError, v: Violation) -> bool {
    &&& e.instance_path@ == v.instance_path@
    &&& e.schema_path@ == v.schema_path@
    &&& e.message@ == violation_message(v)
    &&& regions_view(e.quoted@) == violation_quoted(v)
    &&& plain_regions(e.quoted@)
}

/// `es` describes `vs` one for one, in order.
pub open spec fn describes_all(es: Seq<ValidationError>, vs: Seq<Violation>) -> bool {
    &&& es.len() == vs.len()
    &&& forall|i: int| 0 <= i < es.len() ==> describes(#[trigger] es[i], vs[i])
}

/// One validation error per violation, in order, each its description.
pub fn validation_errors(violations: &[Violation]) -> (r: Vec<ValidationError>)
    ensures
        r@.len() == violations@.len(),
        forall|i: int| 0 <= i < r@.len() ==> describes(#[trigger] r@[i], violations@[i]),
{
    let mut out: Vec<ValidationError> = Vec::new();
    let mut i: usize = 0;
    while i < violations.len()
        invariant
            i <= violations@.len(),
            out@.len() == i,
            forall|j: int| 0 <= j < i ==> describes(#[trigger] out@[j], violations@[j]),
        decreases violations.len() - i,
    {
        let v = &violations[i];
        let (message, quoted) = describe(v);
        out.push(
            ValidationError {
                instance_path: owned(v.instance_path.as_str()),
                schema_path: owned(v.schema_path.as_str()),
                message,
                quoted,
            },
        );
        i = i + 1;
    }
    out
}

/// The JSON form serde gives a YAML value (`serde_json::to_value`), `None`
/// when it has none.
pub uninterp spec fn json_of_yaml(yaml: YamlView) -> Option<JsonView>;

/// Builds the `serde_yaml_ng::Value` holding the same YAML as `v`.
#[verifier::external_body]
fn to_serde_yaml(v: &YamlValue) -> serde_yaml_ng::Value {
    match v {
        YamlValue::Null => serde_yaml_ng::Value::Null,
        YamlValue::Bool(b) => serde_yaml_ng::Value::Bool(*b),
        YamlValue::Number(n) => serde_yaml_ng::Value::Number(n.clone()),
        YamlValue::Str(t) => serde_yaml_ng::Value::String(t.clone()),
        YamlValue::Sequence(q) => serde_yaml_ng::Value::Sequence(q.iter().map(to_serde_yaml).collect()),
        YamlValue::Mapping(m) => serde_yaml_ng::Value::Mapping(
            m.iter().map(|(k, x)| (to_serde_yaml(k), to_serde_yaml(x))).collect(),
        ),
        YamlValue::Tagged(t, x) => serde_yaml_ng::Value::Tagged(Box::new(
            serde_yaml_ng::value::TaggedValue { tag: t.clone(), value: to_serde_yaml(x) },
        )),
    }
}

/// Moves a `serde_json::Value` into the library's form, variant by variant.
#[verifier::external_body]
fn from_serde_value(v: &serde_json::Value) -> JsonNode {
    match v {
        serde_json::Value::Null => JsonNode::Null,
        serde_json::Value::Bool(b) => JsonNode::Bool(*b),
        serde_json::Value::Number(n) => JsonNode::Number(n.clone()),
        serde_json::Value::String(t) => JsonNode::Str(t.clone()),
        serde_json::Value::Array(a) => JsonNode::Array(a.iter().map(from_serde_value).collect()),
        serde_json::Value::Object(m) => JsonNode::Object(
            m.iter().map(|(k, x)| (k.clone(), from_serde_value(x))).collect(),
        ),
    }
}

/// Converts a YAML value to JSON through serde (`serde_json::to_value`);
/// `None` for a YAML value with no JSON form. The conversion is named, not
/// stated.
#[verifier::external_body]
fn yaml_to_json(yaml: &YamlValue) -> (r: Option<JsonNode>)
    ensures
        match r {
            Some(j) => json_of_yaml(yaml.view()) == Some(j.view()),
            None => json_of_yaml(yaml.view()) is None,
        },
{
    serde_json::to_value(to_serde_yaml(yaml)).ok().map(|j| from_serde_value(&j))
}

/// The violations `jsonschema` reports when validating `instance` against
/// `schema` (compiled as [`Schema::compile`] compiles it), in its order: the
/// schema's keyword order, and the instance's member order within a keyword.
pub uninterp spec fn schema_violations(schema: JsonView, instance: JsonView) -> Seq<Violation>;

/// Whether `instance` satisfies `schema`: no violation is reported.
pub open spec fn schema_accepts(schema: JsonView, instance: JsonView) -> bool {
    schema_violations(schema, instance).len() == 0
}

/// Every error `Validator::iter_errors` reports for `instance`, in its
/// order, each converted field by field: its kind, the instance and schema
/// pointers as `Display` writes them, and the failing value as compact JSON.
/// Which violations are reported is named, not stated.
#[verifier::external_body]
fn collect_violations(schema: &Schema, instance: &JsonNode) -> (r: Vec<Violation>)
    ensures
        r@ == schema_violations(schema.source(), instance.view()),
{
    let json = to_serde_value(instance);
    let mut out = Vec::new();
    for e in schema.compiled.validator.iter_errors(&json) {
        out.push(Violation {
            kind: violation_kind(e.kind()),
            instance_path: e.instance_path().to_string(),
            schema_path: e.schema_path().to_string(),
            found: serde_json::to_string(e.instance().as_ref()).ok(),
        });
    }
    out
}

/// The single error reported when frontmatter has no JSON form.
pub open spec fn unconvertible(e: ValidationError) -> bool {
    &&& e.instance_path@ == Seq::<char>::empty()
    &&& e.schema_path@ == Seq::<char>::empty()
    &&& e.message@ == "frontmatter could not be converted to JSON for validation"@
    &&& e.quoted@.len() == 0
}

impl Schema {
    /// Validate a YAML frontmatter value against this schema: empty on
    /// success, otherwise one described error per violation, in the
    /// validator's order. A value with no JSON form yields the single
    /// [`unconvertible`] error.
    pub fn validate(&self, frontmatter: &YamlValue) -> (r: Vec<ValidationError>)
        ensures
            match json_of_yaml(frontmatter.view()) {
                None => r@.len() == 1 && unconvertible(r@[0]),
                Some(instance) => describes_all(r@, schema_violations(self.source(), instance)),
            },
            json_of_yaml(frontmatter.view()) matches Some(instance) ==> (r@.len() == 0
                <==> schema_accepts(self.source(), instance)),
    {
        match yaml_to_json(frontmatter) {
            Some(json) => {
                let violations = collect_violations(self, &json);
                let r = validation_errors(violations.as_slice());
                proof {
                    assert(describes_all(r@, violations@));
                }
                r
            },
            None => {
                let e = ValidationError {
                    instance_path: String::new(),
                    schema_path: String::new(),
                    message: owned("frontmatter could not be converted to JSON for validation"),
                    quoted: Vec::new(),
                };
                let r = vec![e];
                r
            },
        }
    }
}

} // verus!
