//! The configuration checks of the compiler: the subset of JSON Schema that
//! Node Contracts declare for their configuration, and the scan for
//! expression markers, which this Compatibility Profile does not run.

use crate::diagnostic::{self, CompileDiagnostic, DiagV};
use crate::json::{self, Json, JsonV, NumberKind};
use crate::text;
use vstd::prelude::*;

verus! {

/// Whether `value` has the JSON Schema type named `expected`; unknown type
/// names accept every value.
pub open spec fn type_matches_spec(value: JsonV, expected: Seq<char>) -> bool {
    if expected == "object"@ {
        value is Object
    } else if expected == "array"@ {
        value is Array
    } else if expected == "string"@ {
        value is Str
    } else if expected == "boolean"@ {
        value is Bool
    } else if expected == "null"@ {
        value is Null
    } else if expected == "integer"@ {
        match value {
            JsonV::Number(n) => match n.kind {
                NumberKind::Float => json::f64_is_integral(n.float_bits),
                _ => true,
            },
            _ => false,
        }
    } else if expected == "number"@ {
        value is Number
    } else {
        true
    }
}

/// The strings among `items`, in order.
pub open spec fn strings_of(items: Seq<JsonV>) -> Seq<Seq<char>>
    decreases items.len(),
{
    if items.len() == 0 {
        Seq::empty()
    } else {
        let rest = strings_of(items.drop_last());
        match items.last() {
            JsonV::Str(t) => rest.push(t),
            _ => rest,
        }
    }
}

/// The type names a schema's `type` member declares.
pub open spec fn declared_types(declared: JsonV) -> Seq<Seq<char>> {
    match declared {
        JsonV::Str(t) => seq![t],
        JsonV::Array(items) => strings_of(items),
        _ => Seq::empty(),
    }
}

/// Whether `value` has one of the `types`.
pub open spec fn matches_some_type(value: JsonV, types: Seq<Seq<char>>) -> bool {
    exists|i: int| 0 <= i < types.len() && type_matches_spec(value, #[trigger] types[i])
}

/// Whether `value` equals one of the `allowed` values.
pub open spec fn is_allowed(value: JsonV, allowed: Seq<JsonV>) -> bool {
    exists|i: int| 0 <= i < allowed.len() && json::json_eq(#[trigger] allowed[i], value)
}

/// `path.key`.
pub open spec fn member_path(path: Seq<char>, key: Seq<char>) -> Seq<char> {
    path + "."@ + key
}

/// `path[index]`.
pub open spec fn item_path(path: Seq<char>, index: nat) -> Seq<char> {
    path + "["@ + text::decimal(index) + "]"@
}

/// An `invalid_configuration` error.
pub open spec fn invalid(path: Seq<char>, message: Seq<char>) -> DiagV {
    diagnostic::error_v("invalid_configuration"@, path, message)
}

/// The members a schema declares under `properties`, if it is an object.
pub open spec fn declared_properties(s: Seq<(Seq<char>, JsonV)>) -> Seq<(Seq<char>, JsonV)> {
    match json::lookup(s, "properties"@) {
        Some(JsonV::Object(p)) => p,
        _ => Seq::empty(),
    }
}

/// The keys a schema lists under `required`.
pub open spec fn required_keys(s: Seq<(Seq<char>, JsonV)>) -> Seq<Seq<char>> {
    match json::lookup(s, "required"@) {
        Some(JsonV::Array(items)) => strings_of(items),
        _ => Seq::empty(),
    }
}

/// Whether the `type` member rejects `value`.
pub open spec fn type_rejects(value: JsonV, s: Seq<(Seq<char>, JsonV)>) -> bool {
    match json::lookup(s, "type"@) {
        Some(d) => declared_types(d).len() > 0 && !matches_some_type(value, declared_types(d)),
        None => false,
    }
}

/// Whether the `enum` member rejects `value`.
pub open spec fn enum_rejects(value: JsonV, s: Seq<(Seq<char>, JsonV)>) -> bool {
    match json::lookup(s, "enum"@) {
        Some(JsonV::Array(allowed)) => !is_allowed(value, allowed),
        _ => false,
    }
}

/// Whether the `const` member rejects `value`.
pub open spec fn const_rejects(value: JsonV, s: Seq<(Seq<char>, JsonV)>) -> bool {
    match json::lookup(s, "const"@) {
        Some(c) => !json::json_eq(c, value),
        None => false,
    }
}

/// The diagnostics for `value` checked against `schema` at `path`. A schema
/// that is not an object checks nothing. A failed `type`, `enum` or `const`
/// is reported alone; otherwise the object, array, number and string rules
/// are checked in that order.
pub open spec fn schema_diags(value: JsonV, schema: JsonV, path: Seq<char>) -> Seq<DiagV>
    decreases schema, 0nat,
{
    match schema {
        JsonV::Object(s) => {
            if type_rejects(value, s) {
                seq![
                    invalid(
                        path,
                        "value does not match declared type "@ + json::render(
                            json::lookup(s, "type"@).unwrap(),
                        ),
                    ),
                ]
            } else if enum_rejects(value, s) {
                seq![
                    invalid(
                        path,
                        "value is not one of the allowed values "@ + json::render(
                            json::lookup(s, "enum"@).unwrap(),
                        ),
                    ),
                ]
            } else if const_rejects(value, s) {
                seq![
                    invalid(
                        path,
                        "value must equal the declared constant "@ + json::render(
                            json::lookup(s, "const"@).unwrap(),
                        ),
                    ),
                ]
            } else {
                proof {
                    assert(decreases_to!(schema => s));
                }
                object_rules(value, s, path) + array_rules(value, s, path) + number_diags(value, s, path)
                    + length_diags(value, s, path)
            }
        },
        _ => Seq::empty(),
    }
}

/// The rules for an object value: `required`, then each declared property,
/// then `additionalProperties`.
pub open spec fn object_rules(value: JsonV, s: Seq<(Seq<char>, JsonV)>, path: Seq<char>) -> Seq<DiagV>
    decreases s, 2nat,
{
    proof {
        json::lemma_lookup_some(s, "properties"@);
        json::lemma_lookup_some(s, "additionalProperties"@);
        if let Some(JsonV::Object(p)) = json::lookup(s, "properties"@) {
            let i = choose|i: int| 0 <= i < s.len() && s[i].1 == JsonV::Object(p) && s[i].0 == "properties"@;
            assert(decreases_to!(s => s[i]));
            assert(decreases_to!(s[i] => s[i].1));
            assert(decreases_to!(JsonV::Object(p) => p));
        }
        if let Some(a) = json::lookup(s, "additionalProperties"@) {
            let i = choose|i: int| 0 <= i < s.len() && s[i].1 == a && s[i].0 == "additionalProperties"@;
            assert(decreases_to!(s => s[i]));
            assert(decreases_to!(s[i] => s[i].1));
        }
    }
    match value {
        JsonV::Object(o) => required_diags(o, required_keys(s), path) + property_rules(o, s, path)
            + (match json::lookup(s, "additionalProperties"@) {
            Some(a) => extra_diags(o, o, declared_properties(s), a, path),
            None => Seq::empty(),
        }),
        _ => Seq::empty(),
    }
}

/// Each declared property that `o` holds, checked against its schema.
pub open spec fn property_rules(o: Seq<(Seq<char>, JsonV)>, s: Seq<(Seq<char>, JsonV)>, path: Seq<char>) -> Seq<DiagV>
    decreases s, 1nat,
{
    proof {
        json::lemma_lookup_some(s, "properties"@);
        if let Some(JsonV::Object(p)) = json::lookup(s, "properties"@) {
            let i = choose|i: int| 0 <= i < s.len() && s[i].1 == JsonV::Object(p) && s[i].0 == "properties"@;
            assert(decreases_to!(s => s[i]));
            assert(decreases_to!(s[i] => s[i].1));
            assert(decreases_to!(JsonV::Object(p) => p));
        }
    }
    match json::lookup(s, "properties"@) {
        Some(JsonV::Object(p)) => properties_diags(o, p, path),
        _ => Seq::empty(),
    }
}

/// The rules for an array value: each item against `items`, then
/// `minItems` and `maxItems`.
pub open spec fn array_rules(value: JsonV, s: Seq<(Seq<char>, JsonV)>, path: Seq<char>) -> Seq<DiagV>
    decreases s, 0nat,
{
    proof {
        json::lemma_lookup_some(s, "items"@);
        if let Some(a) = json::lookup(s, "items"@) {
            let i = choose|i: int| 0 <= i < s.len() && s[i].1 == a && s[i].0 == "items"@;
            assert(decreases_to!(s => s[i]));
            assert(decreases_to!(s[i] => s[i].1));
        }
    }
    match value {
        JsonV::Array(items) => (match json::lookup(s, "items"@) {
            Some(sub) => items_diags(items, sub, path, items.len()),
            None => Seq::empty(),
        }) + size_diags(items.len(), s, path),
        _ => Seq::empty(),
    }
}

/// One error per required key that `o` lacks.
pub open spec fn required_diags(o: Seq<(Seq<char>, JsonV)>, keys: Seq<Seq<char>>, path: Seq<char>) -> Seq<DiagV>
    decreases keys.len(),
{
    if keys.len() == 0 {
        Seq::empty()
    } else {
        required_diags(o, keys.drop_last(), path) + (if json::lookup(o, keys.last()) is None {
            seq![invalid(member_path(path, keys.last()), "required field is missing"@)]
        } else {
            Seq::empty()
        })
    }
}

/// Each declared property that `o` holds, checked against its schema.
pub open spec fn properties_diags(
    o: Seq<(Seq<char>, JsonV)>,
    props: Seq<(Seq<char>, JsonV)>,
    path: Seq<char>,
) -> Seq<DiagV>
    decreases props, 0nat,
{
    if props.len() == 0 {
        Seq::empty()
    } else {
        proof {
            assert(decreases_to!(props => props[props.len() - 1]));
            assert(decreases_to!(props[props.len() - 1] => props[props.len() - 1].1));
        }
        properties_diags(o, props.drop_last(), path) + (match json::lookup(o, props.last().0) {
            Some(child) => schema_diags(
                child,
                props[props.len() - 1].1,
                member_path(path, props.last().0),
            ),
            None => Seq::empty(),
        })
    }
}

/// Each member of `entries` (a prefix of the object `o`) that `props` does
/// not declare, checked against `additionalProperties`: refused by `false`,
/// accepted by `true`, and checked against it when it is a schema.
pub open spec fn extra_diags(
    entries: Seq<(Seq<char>, JsonV)>,
    o: Seq<(Seq<char>, JsonV)>,
    props: Seq<(Seq<char>, JsonV)>,
    additional: JsonV,
    path: Seq<char>,
) -> Seq<DiagV>
    decreases additional, entries.len(),
{
    if entries.len() == 0 {
        Seq::empty()
    } else {
        let key = entries.last().0;
        extra_diags(entries.drop_last(), o, props, additional, path) + (if json::lookup(props, key) is Some {
            Seq::empty()
        } else {
            match additional {
                JsonV::Bool(false) => seq![
                    invalid(
                        member_path(path, key),
                        "field is not declared by the contract configuration schema"@,
                    ),
                ],
                JsonV::Bool(true) => Seq::empty(),
                _ => schema_diags(json::field(JsonV::Object(o), key), additional, member_path(path, key)),
            }
        })
    }
}

/// The first `n` items, each checked against `sub`.
pub open spec fn items_diags(items: Seq<JsonV>, sub: JsonV, path: Seq<char>, n: nat) -> Seq<DiagV>
    decreases sub, n,
{
    if n == 0 || n > items.len() {
        Seq::empty()
    } else {
        items_diags(items, sub, path, (n - 1) as nat) + schema_diags(
            items[n - 1],
            sub,
            item_path(path, (n - 1) as nat),
        )
    }
}

/// The `minItems` and `maxItems` rules for an array of `len` items.
pub open spec fn size_diags(len: nat, s: Seq<(Seq<char>, JsonV)>, path: Seq<char>) -> Seq<DiagV> {
    (match json::lookup(s, "minItems"@) {
        Some(m) => match json::as_u64(m) {
            Some(min) => if len < min {
                seq![invalid(path, "array has fewer than "@ + text::decimal(min as nat) + " items"@)]
            } else {
                Seq::empty()
            },
            None => Seq::empty(),
        },
        None => Seq::empty(),
    }) + (match json::lookup(s, "maxItems"@) {
        Some(m) => match json::as_u64(m) {
            Some(max) => if len > max {
                seq![invalid(path, "array has more than "@ + text::decimal(max as nat) + " items"@)]
            } else {
                Seq::empty()
            },
            None => Seq::empty(),
        },
        None => Seq::empty(),
    })
}

/// The `minimum` and `maximum` rules, compared as `f64` values.
pub open spec fn number_diags(value: JsonV, s: Seq<(Seq<char>, JsonV)>, path: Seq<char>) -> Seq<DiagV> {
    match value {
        JsonV::Number(n) => (match json::lookup(s, "minimum"@) {
            Some(JsonV::Number(m)) => if json::f64_lt(n.float_bits, m.float_bits) {
                seq![invalid(path, "value "@ + n.float_text + " is below minimum "@ + m.float_text)]
            } else {
                Seq::empty()
            },
            _ => Seq::empty(),
        }) + (match json::lookup(s, "maximum"@) {
            Some(JsonV::Number(m)) => if json::f64_lt(m.float_bits, n.float_bits) {
                seq![invalid(path, "value "@ + n.float_text + " is above maximum "@ + m.float_text)]
            } else {
                Seq::empty()
            },
            _ => Seq::empty(),
        }),
        _ => Seq::empty(),
    }
}

/// The `minLength` and `maxLength` rules, counted in characters.
pub open spec fn length_diags(value: JsonV, s: Seq<(Seq<char>, JsonV)>, path: Seq<char>) -> Seq<DiagV> {
    match value {
        JsonV::Str(t) => (match json::lookup(s, "minLength"@) {
            Some(m) => match json::as_u64(m) {
                Some(min) => if t.len() < min {
                    seq![
                        invalid(
                            path,
                            "string is shorter than "@ + text::decimal(min as nat) + " characters"@,
                        ),
                    ]
                } else {
                    Seq::empty()
                },
                None => Seq::empty(),
            },
            None => Seq::empty(),
        }) + (match json::lookup(s, "maxLength"@) {
            Some(m) => match json::as_u64(m) {
                Some(max) => if t.len() > max {
                    seq![
                        invalid(
                            path,
                            "string is longer than "@ + text::decimal(max as nat) + " characters"@,
                        ),
                    ]
                } else {
                    Seq::empty()
                },
                None => Seq::empty(),
            },
            None => Seq::empty(),
        }),
        _ => Seq::empty(),
    }
}

/// The error for a string that holds an expression marker.
pub open spec fn expression_error(path: Seq<char>) -> DiagV {
    diagnostic::error_v(
        "unsupported_expression"@,
        path,
        "expression markers are not supported in this Compatibility Profile yet"@,
    )
}

/// One error per string, anywhere inside `value`, that holds `{{` or `}}`;
/// object members are visited in order, then array items.
pub open spec fn expression_diags(value: JsonV, path: Seq<char>) -> Seq<DiagV>
    decreases value, 0nat,
{
    match value {
        JsonV::Str(t) => if text::contains_seq(t, "{{"@) || text::contains_seq(t, "}}"@) {
            seq![expression_error(path)]
        } else {
            Seq::empty()
        },
        JsonV::Object(entries) => member_expression_diags(entries, path),
        JsonV::Array(items) => item_expression_diags(items, path, items.len()),
        _ => Seq::empty(),
    }
}

/// `expression_diags` over the members of an object.
pub open spec fn member_expression_diags(entries: Seq<(Seq<char>, JsonV)>, path: Seq<char>) -> Seq<DiagV>
    decreases entries, 0nat,
{
    if entries.len() == 0 {
        Seq::empty()
    } else {
        proof {
            assert(decreases_to!(entries => entries[entries.len() - 1]));
            assert(decreases_to!(entries[entries.len() - 1] => entries[entries.len() - 1].1));
        }
        member_expression_diags(entries.drop_last(), path) + expression_diags(
            entries[entries.len() - 1].1,
            member_path(path, entries.last().0),
        )
    }
}

/// `expression_diags` over the first `n` items of an array.
pub open spec fn item_expression_diags(items: Seq<JsonV>, path: Seq<char>, n: nat) -> Seq<DiagV>
    decreases items, n,
{
    if n == 0 || n > items.len() {
        Seq::empty()
    } else {
        proof {
            assert(decreases_to!(items => items[n - 1]));
        }
        item_expression_diags(items, path, (n - 1) as nat) + expression_diags(
            items[n - 1],
            item_path(path, (n - 1) as nat),
        )
    }
}


/// `path.key`.
pub fn member_path_of(path: &str, key: &str) -> (r: String)
    ensures
        r@ == member_path(path@, key@),
{
    let mut r = text::owned(path);
    text::push_str(&mut r, ".");
    text::push_str(&mut r, key);
    r
}

/// `path[index]`.
pub fn item_path_of(path: &str, index: usize) -> (r: String)
    ensures
        r@ == item_path(path@, index as nat),
{
    let mut r = text::owned(path);
    text::push_str(&mut r, "[");
    let digits = text::decimal_chars(index as u64);
    text::push_chars(&mut r, digits.as_slice());
    text::push_str(&mut r, "]");
    r
}

/// `prefix` followed by the compact JSON text of `j`.
fn with_rendered(prefix: &str, j: &Json) -> (r: String)
    ensures
        r@ == prefix@ + json::render(j@),
{
    let mut r = text::owned(prefix);
    let rendered = json::json_text(j);
    text::push_str(&mut r, rendered.as_str());
    r
}

/// `prefix`, the decimal `n`, then `suffix`.
fn with_decimal(prefix: &str, n: u64, suffix: &str) -> (r: String)
    ensures
        r@ == prefix@ + text::decimal(n as nat) + suffix@,
{
    let mut r = text::owned(prefix);
    let digits = text::decimal_chars(n);
    text::push_chars(&mut r, digits.as_slice());
    text::push_str(&mut r, suffix);
    r
}

/// Whether `value` has the JSON Schema type named `expected`.
pub fn type_matches(value: &Json, expected: &str) -> (r: bool)
    ensures
        r == type_matches_spec(value@, expected@),
{
    if text::str_eq(expected, "object") {
        matches!(value, Json::Object(_))
    } else if text::str_eq(expected, "array") {
        matches!(value, Json::Array(_))
    } else if text::str_eq(expected, "string") {
        matches!(value, Json::String(_))
    } else if text::str_eq(expected, "boolean") {
        matches!(value, Json::Bool(_))
    } else if text::str_eq(expected, "null") {
        matches!(value, Json::Null)
    } else if text::str_eq(expected, "integer") {
        match value {
            Json::Number(n) => match n.kind {
                NumberKind::Float => json::float_is_integral(n.float_bits),
                _ => true,
            },
            _ => false,
        }
    } else if text::str_eq(expected, "number") {
        matches!(value, Json::Number(_))
    } else {
        true
    }
}

/// Whether the declared `type` member rejects `value`: it names at least one
/// type and `value` has none of them.
fn type_rejected(value: &Json, declared: &Json) -> (r: bool)
    ensures
        r == (declared_types(declared@).len() > 0 && !matches_some_type(
            value@,
            declared_types(declared@),
        )),
{
    match declared {
        Json::String(t) => {
            let ok = type_matches(value, t.as_str());
            proof {
                let types = declared_types(declared@);
                assert(types == seq![t@]);
                if ok {
                    assert(type_matches_spec(value@, types[0]));
                }
            }
            !ok
        },
        Json::Array(items) => {
            proof {
                json::lemma_jvs(items@);
            }
            let ghost all = json::jvs(items@);
            let mut named = false;
            let mut matched = false;
            let mut i: usize = 0;
            assert(all.take(0) =~= Seq::<JsonV>::empty());
            while i < items.len()
                invariant
                    0 <= i <= items@.len(),
                    all == json::jvs(items@),
                    all.len() == items@.len(),
                    forall|k: int| 0 <= k < items@.len() ==> #[trigger] all[k] == json::jv(items@[k]),
                    named == (strings_of(all.take(i as int)).len() > 0),
                    matched == matches_some_type(value@, strings_of(all.take(i as int))),
                decreases items@.len() - i,
            {
                let ghost before = strings_of(all.take(i as int));
                assert(all.take(i + 1).drop_last() =~= all.take(i as int));
                assert(all.take(i + 1).last() == json::jv(items@[i as int]));
                if let Json::String(t) = &items[i] {
                    let ok = type_matches(value, t.as_str());
                    proof {
                        let after = strings_of(all.take(i + 1));
                        assert(after == before.push(t@));
                        if matches_some_type(value@, after) {
                            let k = choose|k: int| 0 <= k < after.len() && type_matches_spec(value@, #[trigger] after[k]);
                            if k < before.len() {
                                assert(after[k] == before[k]);
                            }
                        }
                        if matched {
                            let k = choose|k: int| 0 <= k < before.len() && type_matches_spec(value@, #[trigger] before[k]);
                            assert(after[k] == before[k]);
                        }
                        if ok {
                            assert(type_matches_spec(value@, after[before.len() as int]));
                        }
                    }
                    named = true;
                    matched = matched || ok;
                } else {
                    proof {
                        assert(strings_of(all.take(i + 1)) == before);
                    }
                }
                i = i + 1;
            }
            assert(all.take(i as int) =~= all);
            named && !matched
        },
        _ => false,
    }
}

/// Whether `value` equals one of `allowed`.
fn allowed_by(value: &Json, allowed: &Vec<Json>) -> (r: bool)
    ensures
        r == is_allowed(value@, json::jvs(allowed@)),
{
    proof {
        json::lemma_jvs(allowed@);
    }
    let mut i: usize = 0;
    while i < allowed.len()
        invariant
            0 <= i <= allowed@.len(),
            json::jvs(allowed@).len() == allowed@.len(),
            forall|k: int| 0 <= k < allowed@.len() ==> #[trigger] json::jvs(allowed@)[k] == json::jv(allowed@[k]),
            forall|k: int| 0 <= k < i ==> !json::json_eq(#[trigger] json::jvs(allowed@)[k], value@),
        decreases allowed@.len() - i,
    {
        if json::json_equal(&allowed[i], value) {
            assert(json::json_eq(json::jvs(allowed@)[i as int], value@));
            return true;
        }
        i = i + 1;
    }
    false
}

/// The number of characters of `t`.
fn char_count(t: &str) -> (n: usize)
    ensures
        n == t@.len(),
{
    let chars = text::chars_of(t);
    chars.len()
}

/// Adds `d` to the bounded list and records it as done.
proof fn lemma_after_push(base: Seq<DiagV>, done: Seq<DiagV>, d: DiagV)
    ensures
        diagnostic::capped(diagnostic::capped(base + done).push(d)) == diagnostic::capped(base + done.push(d)),
{
    assert(diagnostic::capped(base + done).push(d) =~= diagnostic::capped(base + done) + seq![d]);
    diagnostic::lemma_capped_steps(base, done, seq![d]);
    assert(done + seq![d] =~= done.push(d));
}



/// Checks `value` against the configuration `schema` at `path`, adding the
/// diagnostics of `schema_diags` to the bounded list.
pub fn validate_schema(value: &Json, schema: &Json, path: &str, diags: &mut Vec<CompileDiagnostic>)
    requires
        old(diags)@.len() <= diagnostic::MAX_DIAGNOSTICS,
    ensures
        diagnostic::diag_views(final(diags)@) == diagnostic::capped(
            diagnostic::diag_views(old(diags)@) + schema_diags(value@, schema@, path@),
        ),
        final(diags)@.len() <= diagnostic::MAX_DIAGNOSTICS,
    decreases schema, 3nat,
{
    let ghost base = diagnostic::diag_views(diags@);
    proof {
        diagnostic::lemma_capped_empty(base);
    }
    let s = match schema {
        Json::Object(s) => s,
        _ => {
            return;
        },
    };
    proof {
        json::lemma_jv_entries(s@);
    }
    let ghost sv = json::jv_entries(s@);
    assert(schema@ == JsonV::Object(sv));
    if let Some(declared) = json::member(s, "type") {
        if type_rejected(value, declared) {
            let message = with_rendered("value does not match declared type ", declared);
            diagnostic::push_diagnostic(diags, CompileDiagnostic::error("invalid_configuration", path, message));
            assert(base.push(invalid(path@, message@)) =~= base + schema_diags(value@, schema@, path@));
            return;
        }
    }
    assert(!type_rejects(value@, sv));
    if let Some(listed) = json::member(s, "enum") {
        if let Json::Array(allowed) = listed {
            if !allowed_by(value, allowed) {
                let message = with_rendered("value is not one of the allowed values ", listed);
                diagnostic::push_diagnostic(
                    diags,
                    CompileDiagnostic::error("invalid_configuration", path, message),
                );
                assert(base.push(invalid(path@, message@)) =~= base + schema_diags(value@, schema@, path@));
                return;
            }
        }
    }
    assert(!enum_rejects(value@, sv));
    if let Some(constant) = json::member(s, "const") {
        if !json::json_equal(constant, value) {
            let message = with_rendered("value must equal the declared constant ", constant);
            diagnostic::push_diagnostic(diags, CompileDiagnostic::error("invalid_configuration", path, message));
            assert(base.push(invalid(path@, message@)) =~= base + schema_diags(value@, schema@, path@));
            return;
        }
    }
    assert(!const_rejects(value@, sv));
    check_object_rules(value, schema, s, path, diags);
    let ghost a = object_rules(value@, sv, path@);
    check_array_rules(value, schema, s, path, diags);
    let ghost b = array_rules(value@, sv, path@);
    check_scalar_rules(value, s, path, diags);
    let ghost c = number_diags(value@, sv, path@) + length_diags(value@, sv, path@);
    proof {
        diagnostic::lemma_capped_append(base + a, b);
        diagnostic::lemma_capped_append(base + a + b, c);
        assert(schema_diags(value@, schema@, path@) == a + b + number_diags(value@, sv, path@) + length_diags(value@, sv, path@));
        assert(base + a + b + c =~= base + schema_diags(value@, schema@, path@));
    }
}

/// The object rules of `object_rules`.
fn check_object_rules(
    value: &Json,
    schema: &Json,
    s: &Vec<(String, Json)>,
    path: &str,
    diags: &mut Vec<CompileDiagnostic>,
)
    requires
        *schema == Json::Object(*s),
        old(diags)@.len() <= diagnostic::MAX_DIAGNOSTICS,
    ensures
        diagnostic::diag_views(final(diags)@) == diagnostic::capped(
            diagnostic::diag_views(old(diags)@) + object_rules(value@, json::jv_entries(s@), path@),
        ),
        final(diags)@.len() <= diagnostic::MAX_DIAGNOSTICS,
    decreases schema, 2nat,
{
    let ghost base = diagnostic::diag_views(diags@);
    let ghost sv = json::jv_entries(s@);
    proof {
        diagnostic::lemma_capped_empty(base);
    }
    let o = match value {
        Json::Object(o) => o,
        _ => {
            return;
        },
    };
    proof {
        json::lemma_jv_entries(o@);
    }
    let ghost ov = json::jv_entries(o@);
    assert(value@ == JsonV::Object(ov));
    check_required(o, s, path, diags);
    let ghost a = required_diags(ov, required_keys(sv), path@);
    check_properties(o, schema, s, path, diags);
    let ghost b = property_rules(ov, sv, path@);
    check_additional(o, schema, s, path, diags);
    let ghost c = match json::lookup(sv, "additionalProperties"@) {
        Some(add) => extra_diags(ov, ov, declared_properties(sv), add, path@),
        None => Seq::<DiagV>::empty(),
    };
    proof {
        diagnostic::lemma_capped_append(base + a, b);
        diagnostic::lemma_capped_append(base + a + b, c);
        assert(base + a + b + c =~= base + object_rules(value@, sv, path@));
    }
}

/// One error per `required` key that `o` lacks.
fn check_required(o: &Vec<(String, Json)>, s: &Vec<(String, Json)>, path: &str, diags: &mut Vec<CompileDiagnostic>)
    requires
        old(diags)@.len() <= diagnostic::MAX_DIAGNOSTICS,
    ensures
        diagnostic::diag_views(final(diags)@) == diagnostic::capped(
            diagnostic::diag_views(old(diags)@) + required_diags(
                json::jv_entries(o@),
                required_keys(json::jv_entries(s@)),
                path@,
            ),
        ),
        final(diags)@.len() <= diagnostic::MAX_DIAGNOSTICS,
{
    let ghost base = diagnostic::diag_views(diags@);
    let ghost ov = json::jv_entries(o@);
    proof {
        diagnostic::lemma_capped_empty(base);
        assert(required_diags(ov, Seq::empty(), path@) =~= Seq::<DiagV>::empty());
    }
    let keys = match json::member(s, "required") {
        Some(Json::Array(keys)) => keys,
        _ => {
            return;
        },
    };
    proof {
        json::lemma_jvs(keys@);
    }
    let ghost kv = json::jvs(keys@);
    let mut i: usize = 0;
    assert(kv.take(0) =~= Seq::<JsonV>::empty());
    while i < keys.len()
        invariant
            0 <= i <= keys@.len(),
            kv == json::jvs(keys@),
            kv.len() == keys@.len(),
            forall|k: int| 0 <= k < keys@.len() ==> #[trigger] kv[k] == json::jv(keys@[k]),
            ov == json::jv_entries(o@),
            diags@.len() <= diagnostic::MAX_DIAGNOSTICS,
            diagnostic::diag_views(diags@) == diagnostic::capped(
                base + required_diags(ov, strings_of(kv.take(i as int)), path@),
            ),
        decreases keys@.len() - i,
    {
        assert(kv.take(i + 1).drop_last() =~= kv.take(i as int));
        assert(kv.take(i + 1).last() == json::jv(keys@[i as int]));
        let ghost before = strings_of(kv.take(i as int));
        if let Json::String(key) = &keys[i] {
            let ghost after = strings_of(kv.take(i + 1));
            assert(after == before.push(key@));
            assert(after.drop_last() =~= before);
            assert(after.last() == key@);
            if json::member(o, key.as_str()).is_none() {
                let at = member_path_of(path, key.as_str());
                let d = CompileDiagnostic::error(
                    "invalid_configuration",
                    at.as_str(),
                    text::owned("required field is missing"),
                );
                diagnostic::push_diagnostic(diags, d);
                proof {
                    lemma_after_push(base, required_diags(ov, before, path@), d@);
                    assert(required_diags(ov, after, path@) == required_diags(ov, before, path@).push(d@));
                }
            } else {
                assert(required_diags(ov, after, path@) =~= required_diags(ov, before, path@));
            }
        } else {
            assert(strings_of(kv.take(i + 1)) == before);
        }
        i = i + 1;
    }
    assert(kv.take(i as int) =~= kv);
}

/// Each declared property that `o` holds, checked against its schema.
fn check_properties(
    o: &Vec<(String, Json)>,
    schema: &Json,
    s: &Vec<(String, Json)>,
    path: &str,
    diags: &mut Vec<CompileDiagnostic>,
)
    requires
        *schema == Json::Object(*s),
        old(diags)@.len() <= diagnostic::MAX_DIAGNOSTICS,
    ensures
        diagnostic::diag_views(final(diags)@) == diagnostic::capped(
            diagnostic::diag_views(old(diags)@) + property_rules(json::jv_entries(o@), json::jv_entries(s@), path@),
        ),
        final(diags)@.len() <= diagnostic::MAX_DIAGNOSTICS,
    decreases schema, 1nat,
{
    let ghost base = diagnostic::diag_views(diags@);
    let ghost ov = json::jv_entries(o@);
    proof {
        diagnostic::lemma_capped_empty(base);
        json::lemma_jv_entries(o@);
    }
    let pj = match json::member(s, "properties") {
        Some(pj) => pj,
        None => {
            return;
        },
    };
    let p = match pj {
        Json::Object(p) => p,
        _ => {
            return;
        },
    };
    proof {
        json::lemma_jv_entries(p@);
    }
    let ghost pv = json::jv_entries(p@);
    assert(property_rules(ov, json::jv_entries(s@), path@) == properties_diags(ov, pv, path@));
    let mut i: usize = 0;
    assert(pv.take(0) =~= Seq::<(Seq<char>, JsonV)>::empty());
    while i < p.len()
        invariant
            0 <= i <= p@.len(),
            pv == json::jv_entries(p@),
            pv.len() == p@.len(),
            forall|k: int| 0 <= k < p@.len() ==> #[trigger] pv[k] == (p@[k].0@, json::jv(p@[k].1)),
            ov == json::jv_entries(o@),
            diags@.len() <= diagnostic::MAX_DIAGNOSTICS,
            diagnostic::diag_views(diags@) == diagnostic::capped(
                base + properties_diags(ov, pv.take(i as int), path@),
            ),
            *schema == Json::Object(*s),
            *pj == Json::Object(*p),
            exists|k: int| 0 <= k < s@.len() && s@[k].1 == *pj,
        decreases p@.len() - i,
    {
        let ghost before = properties_diags(ov, pv.take(i as int), path@);
        assert(pv.take(i + 1).drop_last() =~= pv.take(i as int));
        assert(pv.take(i + 1).last() == pv[i as int]);
        assert(pv.take(i + 1)[i as int] == pv[i as int]);
        if let Some(child) = json::member(o, p[i].0.as_str()) {
            let at = member_path_of(path, p[i].0.as_str());
            proof {
                let k = choose|k: int| 0 <= k < s@.len() && s@[k].1 == *pj;
                assert((*schema)->Object_0 == *s);
                assert(decreases_to!(*schema => (*schema)->Object_0));
                assert(decreases_to!(*s => s@));
                assert(decreases_to!(s@ => s@[k]));
                assert(decreases_to!(s@[k] => s@[k].1));
                assert((*pj)->Object_0 == *p);
                assert(decreases_to!(*pj => (*pj)->Object_0));
                assert(decreases_to!(*p => p@));
                assert(decreases_to!(p@ => p@[i as int]));
                assert(decreases_to!(p@[i as int] => p@[i as int].1));
            }
            validate_schema(child, &p[i].1, at.as_str(), diags);
            proof {
                let sub = schema_diags(child@, json::jv(p@[i as int].1), at@);
                diagnostic::lemma_capped_append(base + before, sub);
                assert(properties_diags(ov, pv.take(i + 1), path@) == before + sub);
                assert(base + before + sub =~= base + properties_diags(ov, pv.take(i + 1), path@));
            }
        } else {
            assert(properties_diags(ov, pv.take(i + 1), path@) =~= before);
        }
        i = i + 1;
    }
    assert(pv.take(i as int) =~= pv);
}

/// Each member of `o` that the schema does not declare, checked against
/// `additionalProperties`.
fn check_additional(
    o: &Vec<(String, Json)>,
    schema: &Json,
    s: &Vec<(String, Json)>,
    path: &str,
    diags: &mut Vec<CompileDiagnostic>,
)
    requires
        *schema == Json::Object(*s),
        old(diags)@.len() <= diagnostic::MAX_DIAGNOSTICS,
    ensures
        diagnostic::diag_views(final(diags)@) == diagnostic::capped(
            diagnostic::diag_views(old(diags)@) + match json::lookup(json::jv_entries(s@), "additionalProperties"@) {
                Some(add) => extra_diags(
                    json::jv_entries(o@),
                    json::jv_entries(o@),
                    declared_properties(json::jv_entries(s@)),
                    add,
                    path@,
                ),
                None => Seq::<DiagV>::empty(),
            },
        ),
        final(diags)@.len() <= diagnostic::MAX_DIAGNOSTICS,
    decreases schema, 1nat,
{
    let ghost base = diagnostic::diag_views(diags@);
    let ghost ov = json::jv_entries(o@);
    let ghost sv = json::jv_entries(s@);
    proof {
        diagnostic::lemma_capped_empty(base);
        json::lemma_jv_entries(o@);
    }
    let additional = match json::member(s, "additionalProperties") {
        Some(a) => a,
        None => {
            return;
        },
    };
    let props: Option<&Vec<(String, Json)>> = match json::member(s, "properties") {
        Some(Json::Object(p)) => Some(p),
        _ => None,
    };
    let ghost pv: Seq<(Seq<char>, JsonV)> = declared_properties(sv);
    let null = Json::Null;
    let mut i: usize = 0;
    assert(ov.take(0) =~= Seq::<(Seq<char>, JsonV)>::empty());
    while i < o.len()
        invariant
            0 <= i <= o@.len(),
            ov == json::jv_entries(o@),
            ov.len() == o@.len(),
            forall|k: int| 0 <= k < o@.len() ==> #[trigger] ov[k] == (o@[k].0@, json::jv(o@[k].1)),
            match props {
                Some(p) => pv == json::jv_entries(p@),
                None => pv == Seq::<(Seq<char>, JsonV)>::empty(),
            },
            diags@.len() <= diagnostic::MAX_DIAGNOSTICS,
            diagnostic::diag_views(diags@) == diagnostic::capped(
                base + extra_diags(ov.take(i as int), ov, pv, additional@, path@),
            ),
            *schema == Json::Object(*s),
            exists|k: int| 0 <= k < s@.len() && s@[k].1 == *additional,
            null == Json::Null,
        decreases o@.len() - i,
    {
        let ghost before = extra_diags(ov.take(i as int), ov, pv, additional@, path@);
        assert(ov.take(i + 1).drop_last() =~= ov.take(i as int));
        assert(ov.take(i + 1).last() == ov[i as int]);
        let key = o[i].0.as_str();
        let is_declared = match props {
            Some(p) => json::member(p, key).is_some(),
            None => false,
        };
        if is_declared {
            assert(extra_diags(ov.take(i + 1), ov, pv, additional@, path@) =~= before);
        } else {
            match additional {
                Json::Bool(false) => {
                    let at = member_path_of(path, key);
                    let d = CompileDiagnostic::error(
                        "invalid_configuration",
                        at.as_str(),
                        text::owned("field is not declared by the contract configuration schema"),
                    );
                    diagnostic::push_diagnostic(diags, d);
                    proof {
                        lemma_after_push(base, before, d@);
                        assert(extra_diags(ov.take(i + 1), ov, pv, additional@, path@) == before.push(d@));
                    }
                },
                Json::Bool(true) => {
                    assert(extra_diags(ov.take(i + 1), ov, pv, additional@, path@) =~= before);
                },
                _ => {
                    let child = match json::member(o, key) {
                        Some(c) => c,
                        None => &null,
                    };
                    assert(child@ == json::field(JsonV::Object(ov), key@));
                    let at = member_path_of(path, key);
                    proof {
                        let k = choose|k: int| 0 <= k < s@.len() && s@[k].1 == *additional;
                        assert((*schema)->Object_0 == *s);
                        assert(decreases_to!(*schema => (*schema)->Object_0));
                        assert(decreases_to!(*s => s@));
                        assert(decreases_to!(s@ => s@[k]));
                        assert(decreases_to!(s@[k] => s@[k].1));
                    }
                    validate_schema(child, additional, at.as_str(), diags);
                    proof {
                        let sub = schema_diags(child@, additional@, at@);
                        diagnostic::lemma_capped_append(base + before, sub);
                        assert(extra_diags(ov.take(i + 1), ov, pv, additional@, path@) == before + sub);
                        assert(base + before + sub =~= base + (before + sub));
                    }
                },
            }
        }
        i = i + 1;
    }
    assert(ov.take(i as int) =~= ov);
}

/// The array rules of `array_rules`.
fn check_array_rules(
    value: &Json,
    schema: &Json,
    s: &Vec<(String, Json)>,
    path: &str,
    diags: &mut Vec<CompileDiagnostic>,
)
    requires
        *schema == Json::Object(*s),
        old(diags)@.len() <= diagnostic::MAX_DIAGNOSTICS,
    ensures
        diagnostic::diag_views(final(diags)@) == diagnostic::capped(
            diagnostic::diag_views(old(diags)@) + array_rules(value@, json::jv_entries(s@), path@),
        ),
        final(diags)@.len() <= diagnostic::MAX_DIAGNOSTICS,
    decreases schema, 2nat,
{
    let ghost base = diagnostic::diag_views(diags@);
    let ghost sv = json::jv_entries(s@);
    proof {
        diagnostic::lemma_capped_empty(base);
    }
    let items = match value {
        Json::Array(items) => items,
        _ => {
            return;
        },
    };
    proof {
        json::lemma_jvs(items@);
    }
    let ghost iv = json::jvs(items@);
    let ghost mut done: Seq<DiagV> = Seq::empty();
    assert(base + done =~= base);
    if let Some(sub) = json::member(s, "items") {
        let mut i: usize = 0;
        while i < items.len()
            invariant
                0 <= i <= items@.len(),
                iv == json::jvs(items@),
                iv.len() == items@.len(),
                forall|k: int| 0 <= k < items@.len() ==> #[trigger] iv[k] == json::jv(items@[k]),
                diags@.len() <= diagnostic::MAX_DIAGNOSTICS,
                diagnostic::diag_views(diags@) == diagnostic::capped(
                    base + items_diags(iv, sub@, path@, i as nat),
                ),
                *schema == Json::Object(*s),
                exists|k: int| 0 <= k < s@.len() && s@[k].1 == *sub,
            decreases items@.len() - i,
        {
            let at = item_path_of(path, i);
            proof {
                let k = choose|k: int| 0 <= k < s@.len() && s@[k].1 == *sub;
                assert((*schema)->Object_0 == *s);
                assert(decreases_to!(*schema => (*schema)->Object_0));
                assert(decreases_to!(*s => s@));
                assert(decreases_to!(s@ => s@[k]));
                assert(decreases_to!(s@[k] => s@[k].1));
            }
            validate_schema(&items[i], sub, at.as_str(), diags);
            proof {
                let one = schema_diags(json::jv(items@[i as int]), sub@, at@);
                diagnostic::lemma_capped_append(base + items_diags(iv, sub@, path@, i as nat), one);
                assert(items_diags(iv, sub@, path@, (i + 1) as nat) == items_diags(iv, sub@, path@, i as nat) + one);
                assert(base + items_diags(iv, sub@, path@, i as nat) + one =~= base + items_diags(
                    iv,
                    sub@,
                    path@,
                    (i + 1) as nat,
                ));
            }
            i = i + 1;
        }
        proof {
            done = items_diags(iv, sub@, path@, iv.len());
        }
    }
    let ghost before_size = done;
    let count = items.len() as u64;
    if let Some(m) = json::member(s, "minItems") {
        if let Some(minimum) = m.as_u64() {
            if count < minimum {
                let message = with_decimal("array has fewer than ", minimum, " items");
                let d = CompileDiagnostic::error("invalid_configuration", path, message);
                diagnostic::push_diagnostic(diags, d);
                proof {
                    lemma_after_push(base, done, d@);
                    done = done.push(d@);
                }
            }
        }
    }
    if let Some(m) = json::member(s, "maxItems") {
        if let Some(maximum) = m.as_u64() {
            if count > maximum {
                let message = with_decimal("array has more than ", maximum, " items");
                let d = CompileDiagnostic::error("invalid_configuration", path, message);
                diagnostic::push_diagnostic(diags, d);
                proof {
                    lemma_after_push(base, done, d@);
                    done = done.push(d@);
                }
            }
        }
    }
    proof {
        assert(done =~= before_size + size_diags(iv.len(), sv, path@));
        assert(done == array_rules(value@, sv, path@));
    }
}

/// The number and string rules: `minimum`, `maximum`, `minLength`, `maxLength`.
fn check_scalar_rules(value: &Json, s: &Vec<(String, Json)>, path: &str, diags: &mut Vec<CompileDiagnostic>)
    requires
        old(diags)@.len() <= diagnostic::MAX_DIAGNOSTICS,
    ensures
        diagnostic::diag_views(final(diags)@) == diagnostic::capped(
            diagnostic::diag_views(old(diags)@) + number_diags(value@, json::jv_entries(s@), path@)
                + length_diags(value@, json::jv_entries(s@), path@),
        ),
        final(diags)@.len() <= diagnostic::MAX_DIAGNOSTICS,
{
    let ghost base = diagnostic::diag_views(diags@);
    let ghost sv = json::jv_entries(s@);
    let ghost mut done: Seq<DiagV> = Seq::empty();
    proof {
        diagnostic::lemma_capped_empty(base);
        assert(base + done =~= base);
    }
    if let Json::Number(n) = value {
        if let Some(Json::Number(m)) = json::member(s, "minimum") {
            if json::float_lt(n.float_bits, m.float_bits) {
                let mut message = text::owned("value ");
                text::push_str(&mut message, n.float_text.as_str());
                text::push_str(&mut message, " is below minimum ");
                text::push_str(&mut message, m.float_text.as_str());
                let d = CompileDiagnostic::error("invalid_configuration", path, message);
                diagnostic::push_diagnostic(diags, d);
                proof {
                    lemma_after_push(base, done, d@);
                    done = done.push(d@);
                }
            }
        }
        if let Some(Json::Number(m)) = json::member(s, "maximum") {
            if json::float_lt(m.float_bits, n.float_bits) {
                let mut message = text::owned("value ");
                text::push_str(&mut message, n.float_text.as_str());
                text::push_str(&mut message, " is above maximum ");
                text::push_str(&mut message, m.float_text.as_str());
                let d = CompileDiagnostic::error("invalid_configuration", path, message);
                diagnostic::push_diagnostic(diags, d);
                proof {
                    lemma_after_push(base, done, d@);
                    done = done.push(d@);
                }
            }
        }
    }
    assert(done =~= number_diags(value@, sv, path@));
    let ghost numbers = done;
    if let Json::String(t) = value {
        let length = char_count(t.as_str()) as u64;
        if let Some(m) = json::member(s, "minLength") {
            if let Some(minimum) = m.as_u64() {
                if length < minimum {
                    let message = with_decimal("string is shorter than ", minimum, " characters");
                    let d = CompileDiagnostic::error("invalid_configuration", path, message);
                    diagnostic::push_diagnostic(diags, d);
                    proof {
                        lemma_after_push(base, done, d@);
                        done = done.push(d@);
                    }
                }
            }
        }
        if let Some(m) = json::member(s, "maxLength") {
            if let Some(maximum) = m.as_u64() {
                if length > maximum {
                    let message = with_decimal("string is longer than ", maximum, " characters");
                    let d = CompileDiagnostic::error("invalid_configuration", path, message);
                    diagnostic::push_diagnostic(diags, d);
                    proof {
                        lemma_after_push(base, done, d@);
                        done = done.push(d@);
                    }
                }
            }
        }
    }
    assert(done =~= numbers + length_diags(value@, sv, path@));
}


/// Reports every string inside `value` that holds an expression marker.
pub fn scan_expressions(value: &Json, path: &str, diags: &mut Vec<CompileDiagnostic>)
    requires
        old(diags)@.len() <= diagnostic::MAX_DIAGNOSTICS,
    ensures
        diagnostic::diag_views(final(diags)@) == diagnostic::capped(
            diagnostic::diag_views(old(diags)@) + expression_diags(value@, path@),
        ),
        final(diags)@.len() <= diagnostic::MAX_DIAGNOSTICS,
    decreases value,
{
    let ghost base = diagnostic::diag_views(diags@);
    proof {
        diagnostic::lemma_capped_empty(base);
    }
    match value {
        Json::String(t) => {
            let chars = text::chars_of(t.as_str());
            if text::contains_pair(chars.as_slice(), '{', '{') || text::contains_pair(chars.as_slice(), '}', '}') {
                let d = CompileDiagnostic::error(
                    "unsupported_expression",
                    path,
                    text::owned("expression markers are not supported in this Compatibility Profile yet"),
                );
                diagnostic::push_diagnostic(diags, d);
                proof {
                    reveal_strlit("{{");
                    reveal_strlit("}}");
                    assert(seq!['{', '{'] =~= "{{"@);
                    assert(seq!['}', '}'] =~= "}}"@);
                    assert(base.push(d@) =~= base + expression_diags(value@, path@));
                }
            } else {
                proof {
                    reveal_strlit("{{");
                    reveal_strlit("}}");
                    assert(seq!['{', '{'] =~= "{{"@);
                    assert(seq!['}', '}'] =~= "}}"@);
                }
            }
        },
        Json::Object(entries) => {
            proof {
                json::lemma_jv_entries(entries@);
            }
            let ghost all = json::jv_entries(entries@);
            let mut i: usize = 0;
            assert(all.take(0) =~= Seq::<(Seq<char>, JsonV)>::empty());
            while i < entries.len()
                invariant
                    0 <= i <= entries@.len(),
                    all == json::jv_entries(entries@),
                    all.len() == entries@.len(),
                    forall|k: int| 0 <= k < entries@.len() ==> #[trigger] all[k] == (entries@[k].0@, json::jv(entries@[k].1)),
                    diags@.len() <= diagnostic::MAX_DIAGNOSTICS,
                    diagnostic::diag_views(diags@) == diagnostic::capped(
                        base + member_expression_diags(all.take(i as int), path@),
                    ),
                    *value == Json::Object(*entries),
                decreases entries@.len() - i,
            {
                let at = member_path_of(path, entries[i].0.as_str());
                proof {
                    assert((*value)->Object_0 == *entries);
                    assert(decreases_to!(*value => (*value)->Object_0));
                    assert(decreases_to!(*entries => entries@));
                    assert(decreases_to!(entries@ => entries@[i as int]));
                    assert(decreases_to!(entries@[i as int] => entries@[i as int].1));
                }
                scan_expressions(&entries[i].1, at.as_str(), diags);
                proof {
                    let one = expression_diags(json::jv(entries@[i as int].1), at@);
                    let before = member_expression_diags(all.take(i as int), path@);
                    assert(all.take(i + 1).drop_last() =~= all.take(i as int));
                    assert(all.take(i + 1)[i as int] == all[i as int]);
                    assert(member_expression_diags(all.take(i + 1), path@) == before + one);
                    diagnostic::lemma_capped_append(base + before, one);
                    assert(base + before + one =~= base + (before + one));
                }
                i = i + 1;
            }
            assert(all.take(i as int) =~= all);
        },
        Json::Array(items) => {
            proof {
                json::lemma_jvs(items@);
            }
            let ghost all = json::jvs(items@);
            let mut i: usize = 0;
            while i < items.len()
                invariant
                    0 <= i <= items@.len(),
                    all == json::jvs(items@),
                    all.len() == items@.len(),
                    forall|k: int| 0 <= k < items@.len() ==> #[trigger] all[k] == json::jv(items@[k]),
                    diags@.len() <= diagnostic::MAX_DIAGNOSTICS,
                    diagnostic::diag_views(diags@) == diagnostic::capped(
                        base + item_expression_diags(all, path@, i as nat),
                    ),
                    *value == Json::Array(*items),
                decreases items@.len() - i,
            {
                let at = item_path_of(path, i);
                proof {
                    assert((*value)->Array_0 == *items);
                    assert(decreases_to!(*value => (*value)->Array_0));
                    assert(decreases_to!(*items => items@));
                    assert(decreases_to!(items@ => items@[i as int]));
                }
                scan_expressions(&items[i], at.as_str(), diags);
                proof {
                    let one = expression_diags(json::jv(items@[i as int]), at@);
                    let before = item_expression_diags(all, path@, i as nat);
                    assert(item_expression_diags(all, path@, (i + 1) as nat) == before + one);
                    diagnostic::lemma_capped_append(base + before, one);
                    assert(base + before + one =~= base + (before + one));
                }
                i = i + 1;
            }
        },
        _ => {},
    }
}

} // verus!
