//! Compiling a JSON Schema document into a regular expression.

use crate::json::{json_string_text, parse_json, parsed_json, string_json_text, JsonValue};
use vstd::prelude::*;

verus! {

pub const BOOLEAN: &'static str = r#"(true|false)"#;
pub const NULL: &'static str = r#"null"#;
pub const INTEGER: &'static str = r#"(-)?(0|[1-9][0-9]*)"#;
pub const NUMBER: &'static str = r#"((-)?(0|[1-9][0-9]*))(\.[0-9]+)?([eE][+-][0-9]+)?"#;
pub const STRING_INNER: &'static str = r#"([^"\\\x00-\x1F\x7F-\x9F]|\\["\\])"#;
pub const STRING: &'static str = r#""([^"\\\x00-\x1F\x7F-\x9F]|\\["\\])*""#;
pub const WHITESPACE: &'static str = r#"[ ]?"#;
pub const DATE_TIME: &'static str = r#""(-?(?:[1-9][0-9]*)?[0-9]{4})-(1[0-2]|0[1-9])-(3[01]|0[1-9]|[12][0-9])T(2[0-3]|[01][0-9]):([0-5][0-9]):([0-5][0-9])(\.[0-9]{3})?(Z)?""#;
pub const DATE: &'static str = r#""(?:\d{4})-(?:0[1-9]|1[0-2])-(?:0[1-9]|[1-2][0-9]|3[0-1])""#;
pub const TIME: &'static str = r#""(2[0-3]|[01][0-9]):([0-5][0-9]):([0-5][0-9])(\.[0-9]+)?(Z)?""#;
pub const UUID: &'static str = r#""[a-fA-F0-9]{8}-[a-fA-F0-9]{4}-[a-fA-F0-9]{4}-[a-fA-F0-9]{4}-[a-fA-F0-9]{12}""#;

/// How deeply schemas may nest, references included.
pub const MAX_DEPTH: u32 = 64;

/// Why a schema has no pattern.
#[derive(Clone, Copy, Debug, PartialEq, Eq, Structural)]
pub enum SchemaError {
    /// The document is not JSON.
    InvalidJson,
    /// No construct of the schema is one this compiler knows.
    UnsupportedSchema,
    /// A `type` that is not one of the known names.
    UnsupportedType,
    /// A string `format` that is not one of the known names.
    UnsupportedFormat,
    /// An `enum` or `const` value that is an array or an object.
    UnsupportedValue,
    /// A `$ref` that does not name a member of the document.
    InvalidReference,
    /// Schemas nest deeper than `MAX_DEPTH`.
    TooDeep,
    /// The whitespace pattern is not a regular expression.
    InvalidWhitespace,
}

impl SchemaError {
    pub fn message(&self) -> (r: String) {
        let text = match self {
            SchemaError::InvalidJson => "the schema is not valid JSON",
            SchemaError::UnsupportedSchema => "unsupported JSON Schema structure",
            SchemaError::UnsupportedType => "unsupported type",
            SchemaError::UnsupportedFormat => "unsupported string format",
            SchemaError::UnsupportedValue => "unsupported value in enum or const",
            SchemaError::InvalidReference => "reference does not resolve",
            SchemaError::TooDeep => "schema nests too deeply",
            SchemaError::InvalidWhitespace => "whitespace pattern is not a valid regex",
        };
        String::from_str(text)
    }
}

/// Whether the regex crate accepts a pattern.
pub uninterp spec fn is_valid_regex(pattern: Seq<char>) -> bool;

/// Relies on regex::Regex::new: whether it accepts the pattern.
#[verifier::external_body]
fn regex_compiles(pattern: &str) -> (r: bool)
    ensures
        r == is_valid_regex(pattern@),
{
    regex::Regex::new(pattern).is_ok()
}

/// The characters that regex::escape prefixes with a backslash.
pub open spec fn is_meta(c: char) -> bool {
    c == '\\' || c == '.' || c == '+' || c == '*' || c == '?' || c == '(' || c == ')' || c == '|' || c == '['
        || c == ']' || c == '{' || c == '}' || c == '^' || c == '$' || c == '#' || c == '&' || c == '-' || c == '~'
}

/// `s` as a regex that matches it literally.
pub open spec fn escaped(s: Seq<char>) -> Seq<char>
    decreases s.len(),
{
    if s.len() == 0 {
        seq![]
    } else {
        escaped(s.drop_last()) + if is_meta(s.last()) {
            seq!['\\', s.last()]
        } else {
            seq![s.last()]
        }
    }
}

/// Relies on regex::escape: every meta character gets a backslash before it.
#[verifier::external_body]
fn escape_regex(s: &str) -> (r: String)
    ensures
        r@ == escaped(s@),
{
    regex::escape(s)
}

/// The parts one after another.
pub open spec fn concat_all(parts: Seq<Seq<char>>) -> Seq<char>
    decreases parts.len(),
{
    if parts.len() == 0 {
        seq![]
    } else {
        concat_all(parts.drop_last()) + parts.last()
    }
}

/// The parts with `sep` between each two.
pub open spec fn join(parts: Seq<Seq<char>>, sep: Seq<char>) -> Seq<char>
    decreases parts.len(),
{
    if parts.len() == 0 {
        seq![]
    } else if parts.len() == 1 {
        parts[0]
    } else {
        join(parts.drop_last(), sep) + sep + parts.last()
    }
}

pub open spec fn views(v: Seq<String>) -> Seq<Seq<char>> {
    v.map_values(|s: String| s@)
}

/// The value of the first member named `key`.
pub open spec fn member(obj: Seq<(String, JsonValue)>, key: Seq<char>) -> Option<JsonValue>
    decreases obj.len(),
{
    if obj.len() == 0 {
        None
    } else if obj[0].0@ == key {
        Some(obj[0].1)
    } else {
        member(obj.drop_first(), key)
    }
}

/// The JSON text of a scalar value.
pub open spec fn literal_text(v: JsonValue) -> Option<Seq<char>> {
    match v {
        JsonValue::Null => Some("null"@),
        JsonValue::Bool(b) => Some(if b { "true"@ } else { "false"@ }),
        JsonValue::Number(n) => Some(n@),
        JsonValue::Str(s) => Some(json_string_text(s@)),
        _ => None,
    }
}

/// The pattern of a string schema with the given `format` member.
pub open spec fn string_pattern(format: Option<JsonValue>) -> Result<Seq<char>, SchemaError> {
    match format {
        None => Ok(STRING@),
        Some(JsonValue::Str(f)) => if f@ == "date-time"@ {
            Ok(DATE_TIME@)
        } else if f@ == "date"@ {
            Ok(DATE@)
        } else if f@ == "time"@ {
            Ok(TIME@)
        } else if f@ == "uuid"@ {
            Ok(UUID@)
        } else {
            Err(SchemaError::UnsupportedFormat)
        },
        Some(_) => Err(SchemaError::UnsupportedFormat),
    }
}

/// The pattern of an array whose items all match `item`.
pub open spec fn array_pattern(item: Seq<char>, ws: Seq<char>) -> Seq<char> {
    "\\["@ + ws + "(("@ + item + ")(,"@ + ws + "("@ + item + "))*)?"@ + ws + "\\]"@
}

/// The pattern of an object whose members, under any names, all match
/// `value`.
pub open spec fn map_pattern(value: Seq<char>, ws: Seq<char>) -> Seq<char> {
    let pair = ws + STRING@ + ws + ":"@ + ws + value;
    "\\{"@ + ws + "("@ + pair + "("@ + ws + ","@ + pair + ")*)?"@ + ws + "\\}"@
}

/// The choices of an `enum`, each escaped, or `None` where one is not a scalar.
pub open spec fn enum_choices(items: Seq<JsonValue>) -> Option<Seq<Seq<char>>>
    decreases items.len(),
{
    if items.len() == 0 {
        Some(seq![])
    } else {
        match (enum_choices(items.drop_last()), literal_text(items.last())) {
            (Some(cs), Some(t)) => Some(cs.push(escaped(t))),
            _ => None,
        }
    }
}

/// The names listed under `required`; strings only.
pub open spec fn required_names(required: Option<JsonValue>) -> Set<Seq<char>> {
    match required {
        Some(JsonValue::Array(a)) => Set::new(
            |s: Seq<char>| exists|i: int| 0 <= i < a@.len() && (#[trigger] a@[i]) is Str && a@[i]->Str_0@ == s,
        ),
        _ => Set::empty(),
    }
}

/// The text before a property's value pattern.
pub open spec fn property_head(name: Seq<char>, ws: Seq<char>) -> Seq<char> {
    ws + "\""@ + escaped(name) + "\""@ + ws + ":"@ + ws
}

/// The index of the last `true`, or -1.
pub open spec fn last_true(flags: Seq<bool>) -> int
    decreases flags.len(),
{
    if flags.len() == 0 {
        -1
    } else if flags.last() {
        flags.len() - 1
    } else {
        last_true(flags.drop_last())
    }
}

/// One property of an object that has required properties: the comma goes
/// after a property before the last required one and before one after it.
pub open spec fn required_piece(sub: Seq<char>, required: bool, i: int, last: int, ws: Seq<char>) -> Seq<char> {
    let with_comma = if i < last {
        sub + ws + ","@
    } else if i > last {
        ws + ","@ + sub
    } else {
        sub
    };
    if required {
        with_comma
    } else {
        "("@ + with_comma + ")?"@
    }
}

/// One alternative of an object without required properties: property `i`
/// is present, those before and after it optional.
pub open spec fn optional_alternative(subs: Seq<Seq<char>>, i: int, ws: Seq<char>) -> Seq<char> {
    concat_all(Seq::new(i as nat, |j: int| "("@ + subs[j] + ws + ",)?"@)) + subs[i] + concat_all(
        Seq::new((subs.len() - i - 1) as nat, |j: int| "("@ + ws + ","@ + subs[i + 1 + j] + ")?"@),
    )
}

/// The pattern of an object from its properties' patterns and which of them
/// are required.
pub open spec fn object_pattern(subs: Seq<Seq<char>>, flags: Seq<bool>, ws: Seq<char>) -> Seq<char> {
    let last = last_true(flags);
    let body = if last >= 0 {
        concat_all(Seq::new(subs.len(), |i: int| required_piece(subs[i], flags[i], i, last, ws)))
    } else {
        "("@ + join(Seq::new(subs.len(), |i: int| optional_alternative(subs, i, ws)), "|"@) + ")?"@
    };
    "\\{"@ + body + ws + "\\}"@
}

/// The patterns of a list of schemas, or the first error.
pub open spec fn patterns_of(items: Seq<JsonValue>, ws: Seq<char>, full: JsonValue, depth: nat) -> Result<
    Seq<Seq<char>>,
    SchemaError,
>
    decreases depth, 1nat, items.len(),
{
    if items.len() == 0 {
        Ok(seq![])
    } else {
        match patterns_of(items.drop_last(), ws, full, depth) {
            Err(e) => Err(e),
            Ok(ps) => match pattern_of(items.last(), ws, full, depth) {
                Err(e) => Err(e),
                Ok(p) => Ok(ps.push(p)),
            },
        }
    }
}

/// The pattern of a `properties` schema.
pub open spec fn properties_pattern(
    props: JsonValue,
    required: Option<JsonValue>,
    ws: Seq<char>,
    full: JsonValue,
    depth: nat,
) -> Result<Seq<char>, SchemaError>
    decreases depth, 2nat, 0nat,
{
    match props {
        JsonValue::Object(p) => match patterns_of(p@.map_values(|e: (String, JsonValue)| e.1), ws, full, depth) {
            Err(e) => Err(e),
            Ok(ps) => Ok(
                object_pattern(
                    Seq::new(p@.len(), |i: int| property_head(p@[i].0@, ws) + ps[i]),
                    Seq::new(p@.len(), |i: int| required_names(required).contains(p@[i].0@)),
                    ws,
                ),
            ),
        },
        _ => Err(SchemaError::UnsupportedSchema),
    }
}

/// The pattern of the alternatives of `anyOf` (`kind` 0), `oneOf` (1) or the
/// parts of `allOf` (2).
pub open spec fn combined_pattern(ps: Seq<Seq<char>>, kind: int) -> Seq<char> {
    if kind == 0 {
        "("@ + join(ps, "|"@) + ")"@
    } else if kind == 1 {
        "("@ + join(Seq::new(ps.len(), |i: int| "(?:"@ + ps[i] + ")"@), "|"@) + ")"@
    } else {
        "("@ + concat_all(ps) + ")"@
    }
}

pub open spec fn combinator_pattern(list: JsonValue, kind: int, ws: Seq<char>, full: JsonValue, depth: nat) -> Result<
    Seq<char>,
    SchemaError,
>
    decreases depth, 2nat, 0nat,
{
    match list {
        JsonValue::Array(a) => match patterns_of(a@, ws, full, depth) {
            Err(e) => Err(e),
            Ok(ps) => Ok(combined_pattern(ps, kind)),
        },
        _ => Err(SchemaError::UnsupportedSchema),
    }
}

/// `path` split at every `/`.
pub open spec fn segments(path: Seq<char>) -> Seq<Seq<char>>
    decreases path.len(),
{
    if path.len() == 0 {
        seq![seq![]]
    } else {
        let prev = segments(path.drop_last());
        if path.last() == '/' {
            prev.push(seq![])
        } else {
            prev.drop_last().push(prev.last().push(path.last()))
        }
    }
}

/// The value reached from `doc` by following the named members in turn;
/// empty names are skipped.
pub open spec fn resolve_segments(doc: JsonValue, segs: Seq<Seq<char>>) -> Option<JsonValue>
    decreases segs.len(),
{
    if segs.len() == 0 {
        Some(doc)
    } else {
        match resolve_segments(doc, segs.drop_last()) {
            None => None,
            Some(cur) => if segs.last().len() == 0 {
                Some(cur)
            } else {
                match cur {
                    JsonValue::Object(o) => member(o@, segs.last()),
                    _ => None,
                }
            },
        }
    }
}

/// The pattern of a `$ref` schema: a reference `#/a/b` names the member `b`
/// of the member `a` of the whole document.
pub open spec fn reference_pattern(target: JsonValue, ws: Seq<char>, full: JsonValue, depth: nat) -> Result<
    Seq<char>,
    SchemaError,
>
    decreases depth, 2nat, 0nat,
{
    match target {
        JsonValue::Str(r) => if r@.len() > 0 && r@[0] == '#' {
            match resolve_segments(full, segments(r@.subrange(1, r@.len() as int))) {
                Some(t) => pattern_of(t, ws, full, depth),
                None => Err(SchemaError::InvalidReference),
            }
        } else {
            Err(SchemaError::InvalidReference)
        },
        _ => Err(SchemaError::InvalidReference),
    }
}

/// The pattern of the type named `t`; `obj` supplies `format` and `items`.
pub open spec fn named_type_pattern(
    t: Seq<char>,
    obj: Seq<(String, JsonValue)>,
    ws: Seq<char>,
    full: JsonValue,
    depth: nat,
) -> Result<Seq<char>, SchemaError>
    decreases depth, 1nat, 0nat,
{
    if t == "boolean"@ {
        Ok(BOOLEAN@)
    } else if t == "null"@ {
        Ok(NULL@)
    } else if t == "integer"@ {
        Ok(INTEGER@)
    } else if t == "number"@ {
        Ok(NUMBER@)
    } else if t == "string"@ {
        string_pattern(member(obj, "format"@))
    } else if t == "array"@ {
        match member(obj, "items"@) {
            Some(item) => match pattern_of(item, ws, full, depth) {
                Err(e) => Err(e),
                Ok(p) => Ok(array_pattern(p, ws)),
            },
            None => Err(SchemaError::UnsupportedSchema),
        }
    } else if t == "object"@ {
        match member(obj, "additionalProperties"@) {
            Some(JsonValue::Object(o)) => match pattern_of(JsonValue::Object(o), ws, full, depth) {
                Err(e) => Err(e),
                Ok(p) => Ok(map_pattern(p, ws)),
            },
            _ => Err(SchemaError::UnsupportedSchema),
        }
    } else {
        Err(SchemaError::UnsupportedType)
    }
}

/// The patterns of a list of type names, each on its own, or the first error.
pub open spec fn type_list_patterns(types: Seq<JsonValue>, ws: Seq<char>, full: JsonValue, depth: nat) -> Result<
    Seq<Seq<char>>,
    SchemaError,
>
    decreases depth, 2nat, types.len(),
{
    if types.len() == 0 {
        Ok(seq![])
    } else {
        match type_list_patterns(types.drop_last(), ws, full, depth) {
            Err(e) => Err(e),
            Ok(ps) => match types.last() {
                JsonValue::Str(t) => match named_type_pattern(t@, seq![], ws, full, depth) {
                    Err(e) => Err(e),
                    Ok(p) => Ok(ps.push(p)),
                },
                _ => Err(SchemaError::UnsupportedType),
            },
        }
    }
}

/// The pattern of a schema with a `type` member: one name, or a list of
/// names of which any may match.
pub open spec fn type_pattern(obj: Seq<(String, JsonValue)>, ws: Seq<char>, full: JsonValue, depth: nat) -> Result<
    Seq<char>,
    SchemaError,
>
    decreases depth, 3nat, 0nat,
{
    match member(obj, "type"@) {
        Some(JsonValue::Str(t)) => named_type_pattern(t@, obj, ws, full, depth),
        Some(JsonValue::Array(a)) => match type_list_patterns(a@, ws, full, depth) {
            Err(e) => Err(e),
            Ok(ps) => Ok("("@ + join(ps, "|"@) + ")"@),
        },
        _ => Err(SchemaError::UnsupportedType),
    }
}

/// The pattern of a schema, given the whitespace pattern and the whole
/// document; `depth` bounds how deeply schemas may still nest.
pub open spec fn pattern_of(v: JsonValue, ws: Seq<char>, full: JsonValue, depth: nat) -> Result<Seq<char>, SchemaError>
    decreases depth, 0nat, 0nat,
{
    if depth == 0 {
        Err(SchemaError::TooDeep)
    } else {
        let d = (depth - 1) as nat;
        match v {
            JsonValue::Object(o) => {
                let obj = o@;
                if obj.len() == 0 {
                    Err(SchemaError::UnsupportedSchema)
                } else if member(obj, "properties"@) is Some {
                    properties_pattern(member(obj, "properties"@)->Some_0, member(obj, "required"@), ws, full, d)
                } else if member(obj, "allOf"@) is Some {
                    combinator_pattern(member(obj, "allOf"@)->Some_0, 2, ws, full, d)
                } else if member(obj, "anyOf"@) is Some {
                    combinator_pattern(member(obj, "anyOf"@)->Some_0, 0, ws, full, d)
                } else if member(obj, "oneOf"@) is Some {
                    combinator_pattern(member(obj, "oneOf"@)->Some_0, 1, ws, full, d)
                } else if member(obj, "enum"@) is Some {
                    match member(obj, "enum"@)->Some_0 {
                        JsonValue::Array(a) => match enum_choices(a@) {
                            Some(cs) => Ok("("@ + join(cs, "|"@) + ")"@),
                            None => Err(SchemaError::UnsupportedValue),
                        },
                        _ => Err(SchemaError::UnsupportedSchema),
                    }
                } else if member(obj, "const"@) is Some {
                    match literal_text(member(obj, "const"@)->Some_0) {
                        Some(t) => Ok(escaped(t)),
                        None => Err(SchemaError::UnsupportedValue),
                    }
                } else if member(obj, "$ref"@) is Some {
                    reference_pattern(member(obj, "$ref"@)->Some_0, ws, full, d)
                } else if member(obj, "type"@) is Some {
                    type_pattern(obj, ws, full, d)
                } else {
                    Err(SchemaError::UnsupportedSchema)
                }
            },
            _ => Err(SchemaError::UnsupportedSchema),
        }
    }
}


/// `r` is the outcome `spec` describes.
pub open spec fn same_outcome(r: Result<String, SchemaError>, spec: Result<Seq<char>, SchemaError>) -> bool {
    match r {
        Ok(p) => spec == Ok::<Seq<char>, SchemaError>(p@),
        Err(e) => spec == Err::<Seq<char>, SchemaError>(e),
    }
}

fn find_member<'a>(obj: &'a Vec<(String, JsonValue)>, key: &str) -> (r: Option<&'a JsonValue>)
    ensures
        match r {
            Some(v) => member(obj@, key@) == Some(*v),
            None => member(obj@, key@) is None,
        },
{
    let k = String::from_str(key);
    let mut i: usize = 0;
    assert(obj@.subrange(0, obj@.len() as int) == obj@);
    while i < obj.len()
        invariant
            i <= obj.len(),
            k@ == key@,
            member(obj@, key@) == member(obj@.subrange(i as int, obj@.len() as int), key@),
        decreases obj.len() - i,
    {
        assert(obj@.subrange(i as int, obj@.len() as int).drop_first() == obj@.subrange(i + 1, obj@.len() as int));
        if obj[i].0 == k {
            return Some(&obj[i].1);
        }
        i += 1;
    }
    None
}

fn concat_strings(parts: &Vec<String>) -> (r: String)
    ensures
        r@ == concat_all(views(parts@)),
{
    let mut out = String::new();
    let mut i: usize = 0;
    while i < parts.len()
        invariant
            i <= parts.len(),
            out@ == concat_all(views(parts@).take(i as int)),
        decreases parts.len() - i,
    {
        assert(views(parts@).take(i + 1).drop_last() == views(parts@).take(i as int));
        out.append(parts[i].as_str());
        i += 1;
    }
    assert(views(parts@).take(parts@.len() as int) == views(parts@));
    out
}

fn join_strings(parts: &Vec<String>, sep: &str) -> (r: String)
    ensures
        r@ == join(views(parts@), sep@),
{
    let mut out = String::new();
    let mut i: usize = 0;
    while i < parts.len()
        invariant
            i <= parts.len(),
            out@ == join(views(parts@).take(i as int), sep@),
        decreases parts.len() - i,
    {
        assert(views(parts@).take(i + 1).drop_last() == views(parts@).take(i as int));
        if i > 0 {
            out.append(sep);
        }
        out.append(parts[i].as_str());
        i += 1;
    }
    assert(views(parts@).take(parts@.len() as int) == views(parts@));
    out
}

fn scalar_text(v: &JsonValue) -> (r: Option<String>)
    ensures
        match r {
            Some(t) => literal_text(*v) == Some(t@),
            None => literal_text(*v) is None,
        },
{
    match v {
        JsonValue::Null => Some(String::from_str("null")),
        JsonValue::Bool(b) => Some(String::from_str(if *b { "true" } else { "false" })),
        JsonValue::Number(n) => Some(n.clone()),
        JsonValue::Str(s) => Some(string_json_text(s.as_str())),
        _ => None,
    }
}

proof fn lemma_patterns_err(items: Seq<JsonValue>, ws: Seq<char>, full: JsonValue, depth: nat, i: int, j: int)
    requires
        0 <= i <= j <= items.len(),
        patterns_of(items.take(i), ws, full, depth) is Err,
    ensures
        patterns_of(items.take(j), ws, full, depth) == patterns_of(items.take(i), ws, full, depth),
    decreases j - i,
{
    if j > i {
        lemma_patterns_err(items, ws, full, depth, i, j - 1);
        assert(items.take(j).drop_last() == items.take(j - 1));
    }
}

proof fn lemma_patterns_len(items: Seq<JsonValue>, ws: Seq<char>, full: JsonValue, depth: nat)
    ensures
        patterns_of(items, ws, full, depth) is Ok ==> patterns_of(items, ws, full, depth)->Ok_0.len() == items.len(),
    decreases items.len(),
{
    if items.len() > 0 {
        lemma_patterns_len(items.drop_last(), ws, full, depth);
    }
}

fn compile_list(items: &Vec<JsonValue>, ws: &str, full: &JsonValue, depth: u32) -> (r: Result<Vec<String>, SchemaError>)
    ensures
        match r {
            Ok(ps) => patterns_of(items@, ws@, *full, depth as nat) == Ok::<Seq<Seq<char>>, SchemaError>(views(ps@)),
            Err(e) => patterns_of(items@, ws@, *full, depth as nat) == Err::<Seq<Seq<char>>, SchemaError>(e),
        },
    decreases depth, 1nat, items@.len(),
{
    let mut out: Vec<String> = Vec::new();
    let mut i: usize = 0;
    assert(items@.take(0) =~= Seq::<JsonValue>::empty());
    assert(views(out@) =~= Seq::<Seq<char>>::empty());
    while i < items.len()
        invariant
            i <= items.len(),
            patterns_of(items@.take(i as int), ws@, *full, depth as nat) == Ok::<Seq<Seq<char>>, SchemaError>(views(out@)),
        decreases items.len() - i,
    {
        assert(items@.take(i + 1).drop_last() == items@.take(i as int));
        assert(items@.take(i + 1).last() == items@[i as int]);
        match compile(&items[i], ws, full, depth) {
            Ok(p) => {
                let ghost before = out@;
                out.push(p);
                assert(views(out@) =~= views(before).push(p@));
            },
            Err(e) => {
                proof {
                    lemma_patterns_err(items@, ws@, *full, depth as nat, i + 1, items@.len() as int);
                    assert(items@.take(items@.len() as int) == items@);
                }
                return Err(e);
            },
        }
        i += 1;
    }
    assert(items@.take(items@.len() as int) == items@);
    Ok(out)
}


pub open spec fn deref_opt(v: Option<&JsonValue>) -> Option<JsonValue> {
    match v {
        Some(x) => Some(*x),
        None => None,
    }
}

fn compile_members(props: &Vec<(String, JsonValue)>, ws: &str, full: &JsonValue, depth: u32) -> (r: Result<Vec<String>, SchemaError>)
    ensures
        match r {
            Ok(ps) => patterns_of(props@.map_values(|e: (String, JsonValue)| e.1), ws@, *full, depth as nat)
                == Ok::<Seq<Seq<char>>, SchemaError>(views(ps@)),
            Err(e) => patterns_of(props@.map_values(|e: (String, JsonValue)| e.1), ws@, *full, depth as nat)
                == Err::<Seq<Seq<char>>, SchemaError>(e),
        },
    decreases depth, 1nat, props@.len(),
{
    let ghost vals = props@.map_values(|e: (String, JsonValue)| e.1);
    let mut out: Vec<String> = Vec::new();
    let mut i: usize = 0;
    assert(vals.take(0) =~= Seq::<JsonValue>::empty());
    assert(views(out@) =~= Seq::<Seq<char>>::empty());
    while i < props.len()
        invariant
            i <= props.len(),
            vals == props@.map_values(|e: (String, JsonValue)| e.1),
            patterns_of(vals.take(i as int), ws@, *full, depth as nat) == Ok::<Seq<Seq<char>>, SchemaError>(views(out@)),
        decreases props.len() - i,
    {
        assert(vals.take(i + 1).drop_last() == vals.take(i as int));
        assert(vals.take(i + 1).last() == props@[i as int].1);
        match compile(&props[i].1, ws, full, depth) {
            Ok(p) => {
                let ghost before = out@;
                out.push(p);
                assert(views(out@) =~= views(before).push(p@));
            },
            Err(e) => {
                proof {
                    lemma_patterns_err(vals, ws@, *full, depth as nat, i + 1, vals.len() as int);
                    assert(vals.take(vals.len() as int) == vals);
                }
                return Err(e);
            },
        }
        i += 1;
    }
    assert(vals.take(vals.len() as int) == vals);
    Ok(out)
}

fn is_required(required: Option<&JsonValue>, name: &String) -> (r: bool)
    ensures
        r == required_names(deref_opt(required)).contains(name@),
{
    match required {
        Some(JsonValue::Array(a)) => {
            let mut i: usize = 0;
            while i < a.len()
                invariant
                    i <= a.len(),
                    deref_opt(required) == Some(JsonValue::Array(*a)),
                    forall|j: int| 0 <= j < i ==> !((#[trigger] a@[j]) is Str && a@[j]->Str_0@ == name@),
                decreases a.len() - i,
            {
                match &a[i] {
                    JsonValue::Str(s) => {
                        if *s == *name {
                            assert(a@[i as int] is Str && a@[i as int]->Str_0@ == name@);
                            assert(deref_opt(required) == Some(JsonValue::Array(*a)));
                            assert(required_names(deref_opt(required)).contains(name@));
                            return true;
                        }
                    },
                    _ => {},
                }
                i += 1;
            }
            false
        },
        _ => false,
    }
}

fn property_text(name: &String, value_pattern: &String, ws: &str) -> (r: String)
    ensures
        r@ == property_head(name@, ws@) + value_pattern@,
{
    let esc = escape_regex(name.as_str());
    String::from_str(ws).concat("\"").concat(esc.as_str()).concat("\"").concat(ws).concat(":").concat(ws).concat(
        value_pattern.as_str(),
    )
}

fn object_text(subs: &Vec<String>, flags: &Vec<bool>, ws: &str) -> (r: String)
    requires
        subs.len() == flags.len(),
    ensures
        r@ == object_pattern(views(subs@), flags@, ws@),
{
    let n = subs.len();
    let mut last: Option<usize> = None;
    let mut i: usize = 0;
    while i < n
        invariant
            i <= n,
            n == flags.len(),
            match last {
                Some(l) => last_true(flags@.take(i as int)) == l as int && l < i,
                None => last_true(flags@.take(i as int)) == -1,
            },
        decreases n - i,
    {
        assert(flags@.take(i + 1).drop_last() == flags@.take(i as int));
        if flags[i] {
            last = Some(i);
        }
        i += 1;
    }
    assert(flags@.take(n as int) == flags@);
    let ghost subs_v = views(subs@);
    let body = match last {
        Some(l) => {
            let mut pieces: Vec<String> = Vec::new();
            let mut k: usize = 0;
            while k < n
                invariant
                    k <= n,
                    n == subs.len(),
                    n == flags.len(),
                    subs_v == views(subs@),
                    last_true(flags@) == l as int,
                    pieces@.len() == k,
                    forall|j: int| 0 <= j < k ==> (#[trigger] pieces@[j])@ == required_piece(subs_v[j], flags@[j], j, l as int, ws@),
                decreases n - k,
            {
                let sub = subs[k].as_str();
                let with_comma = if k < l {
                    String::from_str(sub).concat(ws).concat(",")
                } else if k > l {
                    String::from_str(ws).concat(",").concat(sub)
                } else {
                    String::from_str(sub)
                };
                let piece = if flags[k] {
                    with_comma
                } else {
                    String::from_str("(").concat(with_comma.as_str()).concat(")?")
                };
                pieces.push(piece);
                k += 1;
            }
            let r = concat_strings(&pieces);
            assert(views(pieces@) =~= Seq::new(subs_v.len(), |j: int| required_piece(subs_v[j], flags@[j], j, l as int, ws@)));
            r
        },
        None => {
            let mut alts: Vec<String> = Vec::new();
            let mut k: usize = 0;
            while k < n
                invariant
                    k <= n,
                    n == subs.len(),
                    subs_v == views(subs@),
                    alts@.len() == k,
                    forall|j: int| 0 <= j < k ==> (#[trigger] alts@[j])@ == optional_alternative(subs_v, j, ws@),
                decreases n - k,
            {
                let mut before: Vec<String> = Vec::new();
                let mut j: usize = 0;
                while j < k
                    invariant
                        j <= k < n,
                        n == subs.len(),
                        subs_v == views(subs@),
                        before@.len() == j,
                        forall|q: int| 0 <= q < j ==> (#[trigger] before@[q])@ == "("@ + subs_v[q] + ws@ + ",)?"@,
                    decreases k - j,
                {
                    before.push(String::from_str("(").concat(subs[j].as_str()).concat(ws).concat(",)?"));
                    j += 1;
                }
                let mut after: Vec<String> = Vec::new();
                let mut j: usize = 0;
                while j < n - k - 1
                    invariant
                        j <= n - k - 1,
                        k < n,
                        n == subs.len(),
                        subs_v == views(subs@),
                        after@.len() == j,
                        forall|q: int| 0 <= q < j ==> (#[trigger] after@[q])@ == "("@ + ws@ + ","@ + subs_v[k + 1 + q] + ")?"@,
                    decreases n - k - 1 - j,
                {
                    after.push(String::from_str("(").concat(ws).concat(",").concat(subs[k + 1 + j].as_str()).concat(")?"));
                    j += 1;
                }
                let head = concat_strings(&before);
                let tail = concat_strings(&after);
                proof {
                    assert(views(before@) =~= Seq::new(k as nat, |q: int| "("@ + subs_v[q] + ws@ + ",)?"@));
                    assert(views(after@) =~= Seq::new(
                        (subs_v.len() - k - 1) as nat,
                        |q: int| "("@ + ws@ + ","@ + subs_v[k + 1 + q] + ")?"@,
                    ));
                }
                alts.push(head.concat(subs[k].as_str()).concat(tail.as_str()));
                k += 1;
            }
            let joined = join_strings(&alts, "|");
            assert(views(alts@) =~= Seq::new(subs_v.len(), |j: int| optional_alternative(subs_v, j, ws@)));
            String::from_str("(").concat(joined.as_str()).concat(")?")
        },
    };
    String::from_str("\\{").concat(body.as_str()).concat(ws).concat("\\}")
}

fn compile_properties(props: &JsonValue, required: Option<&JsonValue>, ws: &str, full: &JsonValue, depth: u32) -> (r: Result<String, SchemaError>)
    ensures
        same_outcome(r, properties_pattern(*props, deref_opt(required), ws@, *full, depth as nat)),
    decreases depth, 2nat, 0nat,
{
    match props {
        JsonValue::Object(p) => {
            let ps = match compile_members(p, ws, full, depth) {
                Ok(ps) => ps,
                Err(e) => return Err(e),
            };
            let ghost psv = views(ps@);
            proof {
                lemma_patterns_len(p@.map_values(|e: (String, JsonValue)| e.1), ws@, *full, depth as nat);
            }
            let mut subs: Vec<String> = Vec::new();
            let mut flags: Vec<bool> = Vec::new();
            let mut i: usize = 0;
            while i < p.len()
                invariant
                    i <= p.len(),
                    ps.len() == p.len(),
                    psv == views(ps@),
                    subs@.len() == i,
                    flags@.len() == i,
                    forall|j: int| 0 <= j < i ==> (#[trigger] subs@[j])@ == property_head(p@[j].0@, ws@) + psv[j],
                    forall|j: int| 0 <= j < i ==> (#[trigger] flags@[j]) == required_names(deref_opt(required)).contains(p@[j].0@),
                decreases p.len() - i,
            {
                subs.push(property_text(&p[i].0, &ps[i], ws));
                flags.push(is_required(required, &p[i].0));
                i += 1;
            }
            let r = object_text(&subs, &flags, ws);
            assert(views(subs@) =~= Seq::new(p@.len(), |j: int| property_head(p@[j].0@, ws@) + psv[j]));
            assert(flags@ =~= Seq::new(p@.len(), |j: int| required_names(deref_opt(required)).contains(p@[j].0@)));
            Ok(r)
        },
        _ => Err(SchemaError::UnsupportedSchema),
    }
}

fn combined_text(ps: &Vec<String>, kind: u8) -> (r: String)
    ensures
        r@ == combined_pattern(views(ps@), kind as int),
{
    if kind == 0 {
        let j = join_strings(ps, "|");
        String::from_str("(").concat(j.as_str()).concat(")")
    } else if kind == 1 {
        let mut wrapped: Vec<String> = Vec::new();
        let mut i: usize = 0;
        while i < ps.len()
            invariant
                i <= ps.len(),
                wrapped@.len() == i,
                forall|j: int| 0 <= j < i ==> (#[trigger] wrapped@[j])@ == "(?:"@ + ps@[j]@ + ")"@,
            decreases ps.len() - i,
        {
            wrapped.push(String::from_str("(?:").concat(ps[i].as_str()).concat(")"));
            i += 1;
        }
        let j = join_strings(&wrapped, "|");
        assert(views(wrapped@) =~= Seq::new(views(ps@).len(), |i: int| "(?:"@ + views(ps@)[i] + ")"@));
        String::from_str("(").concat(j.as_str()).concat(")")
    } else {
        let c = concat_strings(ps);
        String::from_str("(").concat(c.as_str()).concat(")")
    }
}

fn compile_combinator(list: &JsonValue, kind: u8, ws: &str, full: &JsonValue, depth: u32) -> (r: Result<String, SchemaError>)
    ensures
        same_outcome(r, combinator_pattern(*list, kind as int, ws@, *full, depth as nat)),
    decreases depth, 2nat, 0nat,
{
    match list {
        JsonValue::Array(a) => match compile_list(a, ws, full, depth) {
            Ok(ps) => Ok(combined_text(&ps, kind)),
            Err(e) => Err(e),
        },
        _ => Err(SchemaError::UnsupportedSchema),
    }
}

proof fn lemma_enum_none(items: Seq<JsonValue>, i: int, j: int)
    requires
        0 <= i <= j <= items.len(),
        enum_choices(items.take(i)) is None,
    ensures
        enum_choices(items.take(j)) is None,
    decreases j - i,
{
    if j > i {
        lemma_enum_none(items, i, j - 1);
        assert(items.take(j).drop_last() == items.take(j - 1));
    }
}

fn compile_enum(list: &JsonValue) -> (r: Result<String, SchemaError>)
    ensures
        same_outcome(
            r,
            match *list {
                JsonValue::Array(a) => match enum_choices(a@) {
                    Some(cs) => Ok("("@ + join(cs, "|"@) + ")"@),
                    None => Err(SchemaError::UnsupportedValue),
                },
                _ => Err(SchemaError::UnsupportedSchema),
            },
        ),
{
    match list {
        JsonValue::Array(a) => {
            let mut cs: Vec<String> = Vec::new();
            let mut i: usize = 0;
            assert(a@.take(0) =~= Seq::<JsonValue>::empty());
            assert(views(cs@) =~= Seq::<Seq<char>>::empty());
            while i < a.len()
                invariant
                    i <= a.len(),
                    *list == JsonValue::Array(*a),
                    enum_choices(a@.take(i as int)) == Some(views(cs@)),
                decreases a.len() - i,
            {
                assert(a@.take(i + 1).drop_last() == a@.take(i as int));
                assert(a@.take(i + 1).last() == a@[i as int]);
                match scalar_text(&a[i]) {
                    Some(t) => {
                        let ghost before = cs@;
                        let e = escape_regex(t.as_str());
                        cs.push(e);
                        assert(views(cs@) =~= views(before).push(e@));
                    },
                    None => {
                        proof {
                            assert(enum_choices(a@.take(i + 1)) is None);
                            lemma_enum_none(a@, i + 1, a@.len() as int);
                            assert(a@.take(a@.len() as int) == a@);
                            assert(enum_choices(a@) is None);
                            assert(*list == JsonValue::Array(*a));
                        }
                        return Err(SchemaError::UnsupportedValue);
                    },
                }
                i += 1;
            }
            assert(a@.take(a@.len() as int) == a@);
            let j = join_strings(&cs, "|");
            Ok(String::from_str("(").concat(j.as_str()).concat(")"))
        },
        _ => Err(SchemaError::UnsupportedSchema),
    }
}

fn is_name(s: &String, name: &str) -> (r: bool)
    ensures
        r == (s@ == name@),
{
    *s == String::from_str(name)
}

fn compile_string(format: Option<&JsonValue>) -> (r: Result<String, SchemaError>)
    ensures
        same_outcome(r, string_pattern(deref_opt(format))),
{
    match format {
        None => Ok(String::from_str(STRING)),
        Some(JsonValue::Str(f)) => if is_name(f, "date-time") {
            Ok(String::from_str(DATE_TIME))
        } else if is_name(f, "date") {
            Ok(String::from_str(DATE))
        } else if is_name(f, "time") {
            Ok(String::from_str(TIME))
        } else if is_name(f, "uuid") {
            Ok(String::from_str(UUID))
        } else {
            Err(SchemaError::UnsupportedFormat)
        },
        Some(_) => Err(SchemaError::UnsupportedFormat),
    }
}

fn compile_named_type(t: &String, obj: &Vec<(String, JsonValue)>, ws: &str, full: &JsonValue, depth: u32) -> (r: Result<
    String,
    SchemaError,
>)
    ensures
        same_outcome(r, named_type_pattern(t@, obj@, ws@, *full, depth as nat)),
    decreases depth, 1nat, 0nat,
{
    if is_name(t, "boolean") {
        Ok(String::from_str(BOOLEAN))
    } else if is_name(t, "null") {
        Ok(String::from_str(NULL))
    } else if is_name(t, "integer") {
        Ok(String::from_str(INTEGER))
    } else if is_name(t, "number") {
        Ok(String::from_str(NUMBER))
    } else if is_name(t, "string") {
        compile_string(find_member(obj, "format"))
    } else if is_name(t, "array") {
        match find_member(obj, "items") {
            Some(item) => match compile(item, ws, full, depth) {
                Ok(p) => Ok(
                    String::from_str("\\[").concat(ws).concat("((").concat(p.as_str()).concat(")(,").concat(ws).concat(
                        "(",
                    ).concat(p.as_str()).concat("))*)?").concat(ws).concat("\\]"),
                ),
                Err(e) => Err(e),
            },
            None => Err(SchemaError::UnsupportedSchema),
        }
    } else if is_name(t, "object") {
        match find_member(obj, "additionalProperties") {
            Some(value) => match value {
                JsonValue::Object(_) => match compile(value, ws, full, depth) {
                    Ok(p) => {
                        let pair = String::from_str(ws).concat(STRING).concat(ws).concat(":").concat(ws).concat(p.as_str());
                        Ok(
                            String::from_str("\\{").concat(ws).concat("(").concat(pair.as_str()).concat("(").concat(ws).concat(
                                ",",
                            ).concat(pair.as_str()).concat(")*)?").concat(ws).concat("\\}"),
                        )
                    },
                    Err(e) => Err(e),
                },
                _ => Err(SchemaError::UnsupportedSchema),
            },
            None => Err(SchemaError::UnsupportedSchema),
        }
    } else {
        Err(SchemaError::UnsupportedType)
    }
}

proof fn lemma_type_list_err(items: Seq<JsonValue>, ws: Seq<char>, full: JsonValue, depth: nat, i: int, j: int)
    requires
        0 <= i <= j <= items.len(),
        type_list_patterns(items.take(i), ws, full, depth) is Err,
    ensures
        type_list_patterns(items.take(j), ws, full, depth) == type_list_patterns(items.take(i), ws, full, depth),
    decreases j - i,
{
    if j > i {
        lemma_type_list_err(items, ws, full, depth, i, j - 1);
        assert(items.take(j).drop_last() == items.take(j - 1));
    }
}

fn compile_type(obj: &Vec<(String, JsonValue)>, ws: &str, full: &JsonValue, depth: u32) -> (r: Result<String, SchemaError>)
    ensures
        same_outcome(r, type_pattern(obj@, ws@, *full, depth as nat)),
    decreases depth, 3nat, 0nat,
{
    match find_member(obj, "type") {
        Some(JsonValue::Str(t)) => compile_named_type(t, obj, ws, full, depth),
        Some(JsonValue::Array(a)) => {
            let no_members: Vec<(String, JsonValue)> = Vec::new();
            let mut out: Vec<String> = Vec::new();
            let mut i: usize = 0;
            assert(a@.take(0) =~= Seq::<JsonValue>::empty());
            assert(views(out@) =~= Seq::<Seq<char>>::empty());
            while i < a.len()
                invariant
                    i <= a.len(),
                    no_members@ == Seq::<(String, JsonValue)>::empty(),
                    member(obj@, "type"@) == Some(JsonValue::Array(*a)),
                    type_list_patterns(a@.take(i as int), ws@, *full, depth as nat) == Ok::<Seq<Seq<char>>, SchemaError>(
                        views(out@),
                    ),
                decreases a.len() - i,
            {
                assert(a@.take(i + 1).drop_last() == a@.take(i as int));
                assert(a@.take(i + 1).last() == a@[i as int]);
                let step = match &a[i] {
                    JsonValue::Str(t) => compile_named_type(t, &no_members, ws, full, depth),
                    _ => Err(SchemaError::UnsupportedType),
                };
                match step {
                    Ok(p) => {
                        let ghost before = out@;
                        out.push(p);
                        assert(views(out@) =~= views(before).push(p@));
                    },
                    Err(e) => {
                        proof {
                            lemma_type_list_err(a@, ws@, *full, depth as nat, i + 1, a@.len() as int);
                            assert(a@.take(a@.len() as int) == a@);
                        }
                        return Err(e);
                    },
                }
                i += 1;
            }
            assert(a@.take(a@.len() as int) == a@);
            let j = join_strings(&out, "|");
            Ok(String::from_str("(").concat(j.as_str()).concat(")"))
        },
        _ => Err(SchemaError::UnsupportedType),
    }
}

/// Relies on String::push: the character is appended.
#[verifier::external_body]
fn push_char(s: &mut String, c: char)
    ensures
        final(s)@ == old(s)@.push(c),
{
    s.push(c);
}

fn reference_segments(r: &str) -> (v: Vec<String>)
    requires
        r@.len() > 0,
    ensures
        views(v@) == segments(r@.subrange(1, r@.len() as int)),
{
    let n = r.unicode_len();
    let mut out: Vec<String> = Vec::new();
    let mut cur = String::new();
    let mut i: usize = 1;
    assert(r@.subrange(1, 1) =~= Seq::<char>::empty());
    assert(views(out@).push(cur@) =~= seq![Seq::<char>::empty()]);
    while i < n
        invariant
            1 <= i <= n,
            n == r@.len(),
            views(out@).push(cur@) == segments(r@.subrange(1, i as int)),
        decreases n - i,
    {
        let c = r.get_char(i);
        assert(r@.subrange(1, i + 1).drop_last() =~= r@.subrange(1, i as int));
        let ghost prev = views(out@).push(cur@);
        if c == '/' {
            let done = cur;
            out.push(done);
            cur = String::new();
            assert(views(out@).push(cur@) =~= prev.push(seq![]));
        } else {
            push_char(&mut cur, c);
            assert(views(out@).push(cur@) =~= prev.drop_last().push(prev.last().push(c)));
        }
        i += 1;
    }
    out.push(cur);
    assert(r@.subrange(1, n as int) == r@.subrange(1, r@.len() as int));
    out
}

proof fn lemma_resolve_none(doc: JsonValue, segs: Seq<Seq<char>>, i: int, j: int)
    requires
        0 <= i <= j <= segs.len(),
        resolve_segments(doc, segs.take(i)) is None,
    ensures
        resolve_segments(doc, segs.take(j)) is None,
    decreases j - i,
{
    if j > i {
        lemma_resolve_none(doc, segs, i, j - 1);
        assert(segs.take(j).drop_last() == segs.take(j - 1));
    }
}

fn resolve_reference<'a>(doc: &'a JsonValue, segs: &Vec<String>) -> (r: Option<&'a JsonValue>)
    ensures
        deref_opt(r) == resolve_segments(*doc, views(segs@)),
{
    let ghost sv = views(segs@);
    let mut cur: &JsonValue = doc;
    let mut i: usize = 0;
    assert(sv.take(0) =~= Seq::<Seq<char>>::empty());
    while i < segs.len()
        invariant
            i <= segs.len(),
            sv == views(segs@),
            resolve_segments(*doc, sv.take(i as int)) == Some(*cur),
        decreases segs.len() - i,
    {
        assert(sv.take(i + 1).drop_last() == sv.take(i as int));
        assert(sv.take(i + 1).last() == segs@[i as int]@);
        let seg = segs[i].as_str();
        if seg.unicode_len() > 0 {
            let next = match cur {
                JsonValue::Object(o) => find_member(o, seg),
                _ => None,
            };
            match next {
                Some(v) => {
                    cur = v;
                },
                None => {
                    proof {
                        lemma_resolve_none(*doc, sv, i + 1, sv.len() as int);
                        assert(sv.take(sv.len() as int) == sv);
                    }
                    return None;
                },
            }
        }
        i += 1;
    }
    assert(sv.take(sv.len() as int) == sv);
    Some(cur)
}

fn compile_reference(target: &JsonValue, ws: &str, full: &JsonValue, depth: u32) -> (r: Result<String, SchemaError>)
    ensures
        same_outcome(r, reference_pattern(*target, ws@, *full, depth as nat)),
    decreases depth, 2nat, 0nat,
{
    match target {
        JsonValue::Str(r) => {
            let text = r.as_str();
            if text.unicode_len() > 0 && text.get_char(0) == '#' {
                let segs = reference_segments(text);
                match resolve_reference(full, &segs) {
                    Some(t) => compile(t, ws, full, depth),
                    None => Err(SchemaError::InvalidReference),
                }
            } else {
                Err(SchemaError::InvalidReference)
            }
        },
        _ => Err(SchemaError::InvalidReference),
    }
}

fn compile(v: &JsonValue, ws: &str, full: &JsonValue, depth: u32) -> (r: Result<String, SchemaError>)
    ensures
        same_outcome(r, pattern_of(*v, ws@, *full, depth as nat)),
    decreases depth, 0nat, 0nat,
{
    if depth == 0 {
        return Err(SchemaError::TooDeep);
    }
    let d = depth - 1;
    match v {
        JsonValue::Object(o) => {
            if o.len() == 0 {
                return Err(SchemaError::UnsupportedSchema);
            }
            if let Some(props) = find_member(o, "properties") {
                return compile_properties(props, find_member(o, "required"), ws, full, d);
            }
            if let Some(list) = find_member(o, "allOf") {
                return compile_combinator(list, 2, ws, full, d);
            }
            if let Some(list) = find_member(o, "anyOf") {
                return compile_combinator(list, 0, ws, full, d);
            }
            if let Some(list) = find_member(o, "oneOf") {
                return compile_combinator(list, 1, ws, full, d);
            }
            if let Some(list) = find_member(o, "enum") {
                return compile_enum(list);
            }
            if let Some(c) = find_member(o, "const") {
                return match scalar_text(c) {
                    Some(t) => Ok(escape_regex(t.as_str())),
                    None => Err(SchemaError::UnsupportedValue),
                };
            }
            if let Some(target) = find_member(o, "$ref") {
                return compile_reference(target, ws, full, d);
            }
            if find_member(o, "type").is_some() {
                return compile_type(o, ws, full, d);
            }
            Err(SchemaError::UnsupportedSchema)
        },
        _ => Err(SchemaError::UnsupportedSchema),
    }
}


pub open spec fn str_opt_view(v: Option<&str>) -> Option<Seq<char>> {
    match v {
        Some(w) => Some(w@),
        None => None,
    }
}

/// What `to_regex` gives: a whitespace pattern that the regex crate refuses
/// is an error; without one, `WHITESPACE` stands between structural tokens.
pub open spec fn to_regex_spec(json: JsonValue, whitespace: Option<Seq<char>>, full: JsonValue) -> Result<Seq<char>, SchemaError> {
    match whitespace {
        Some(w) => if is_valid_regex(w) {
            pattern_of(json, w, full, MAX_DEPTH as nat)
        } else {
            Err(SchemaError::InvalidWhitespace)
        },
        None => pattern_of(json, WHITESPACE@, full, MAX_DEPTH as nat),
    }
}

/// The regular expression of the schema `json`, within the document
/// `full_schema`.
pub fn to_regex(json: &JsonValue, whitespace_pattern: Option<&str>, full_schema: &JsonValue) -> (r: Result<String, SchemaError>)
    ensures
        same_outcome(r, to_regex_spec(*json, str_opt_view(whitespace_pattern), *full_schema)),
{
    match whitespace_pattern {
        Some(w) => {
            if regex_compiles(w) {
                compile(json, w, full_schema, MAX_DEPTH)
            } else {
                Err(SchemaError::InvalidWhitespace)
            }
        },
        None => compile(json, WHITESPACE, full_schema, MAX_DEPTH),
    }
}

/// The regular expression of the schema written in `json`; the document is
/// its own root.
pub fn build_regex_from_schema(json: &str, whitespace_pattern: Option<&str>) -> (r: Result<String, SchemaError>)
    ensures
        match parsed_json(json@) {
            None => r == Err::<String, SchemaError>(SchemaError::InvalidJson),
            Some(v) => same_outcome(r, to_regex_spec(v, str_opt_view(whitespace_pattern), v)),
        },
{
    match parse_json(json) {
        Some(v) => to_regex(&v, whitespace_pattern, &v),
        None => Err(SchemaError::InvalidJson),
    }
}

} // verus!
