//! A JSON document model: the values the compiler and the Run rules read.
//!
//! Objects keep their members in the order they were read; documents read
//! from text hold keys in ascending order without repeats, as serde_json's
//! map does, and the rules here are stated for that shape. Numbers carry the
//! facts the rules read about them as plain values: which integer (if any)
//! they are, the bits of their nearest `f64`, and their two renderings.

use crate::text;
use vstd::prelude::*;

verus! {

/// How a JSON number was written.
#[derive(Clone, Copy, Debug, PartialEq, Eq)]
pub enum NumberKind {
    /// A non-negative integer.
    PosInt(u64),
    /// A negative integer.
    NegInt(i64),
    /// A number with a fraction or exponent.
    Float,
}

/// A JSON number.
#[derive(Debug)]
pub struct JsonNumber {
    pub kind: NumberKind,
    /// Bits of the number as an `f64` (the exact value for `Float`, the
    /// nearest `f64` for integers).
    pub float_bits: u64,
    /// The number as compact JSON writes it.
    pub text: String,
    /// The number's `f64` value as Rust's `Display` writes it.
    pub float_text: String,
}

/// A JSON value.
#[derive(Debug)]
pub enum Json {
    Null,
    Bool(bool),
    Number(JsonNumber),
    String(String),
    Array(Vec<Json>),
    Object(Vec<(String, Json)>),
}

/// The mathematical value of a JSON number.
pub struct NumberV {
    pub kind: NumberKind,
    pub float_bits: u64,
    pub text: Seq<char>,
    pub float_text: Seq<char>,
}

/// The mathematical value of a JSON value.
pub enum JsonV {
    Null,
    Bool(bool),
    Number(NumberV),
    Str(Seq<char>),
    Array(Seq<JsonV>),
    Object(Seq<(Seq<char>, JsonV)>),
}

pub open spec fn number_view(n: JsonNumber) -> NumberV {
    NumberV { kind: n.kind, float_bits: n.float_bits, text: n.text@, float_text: n.float_text@ }
}

/// The value `j` holds.
pub open spec fn jv(j: Json) -> JsonV
    decreases j,
{
    match j {
        Json::Null => JsonV::Null,
        Json::Bool(b) => JsonV::Bool(b),
        Json::Number(n) => JsonV::Number(number_view(n)),
        Json::String(s) => JsonV::Str(s@),
        Json::Array(items) => JsonV::Array(jvs(items@)),
        Json::Object(entries) => JsonV::Object(jv_entries(entries@)),
    }
}

/// The values of a sequence of JSON values.
pub open spec fn jvs(items: Seq<Json>) -> Seq<JsonV>
    decreases items,
{
    if items.len() == 0 {
        Seq::empty()
    } else {
        jvs(items.drop_last()).push(jv(items.last()))
    }
}

/// The members of a JSON object, by value.
pub open spec fn jv_entries(entries: Seq<(String, Json)>) -> Seq<(Seq<char>, JsonV)>
    decreases entries,
{
    if entries.len() == 0 {
        Seq::empty()
    } else {
        jv_entries(entries.drop_last()).push((entries.last().0@, jv(entries.last().1)))
    }
}

impl View for Json {
    type V = JsonV;

    open spec fn view(&self) -> JsonV {
        jv(*self)
    }
}


/// Element-wise facts about `jvs`.
pub proof fn lemma_jvs(items: Seq<Json>)
    ensures
        jvs(items).len() == items.len(),
        forall|i: int| 0 <= i < items.len() ==> #[trigger] jvs(items)[i] == jv(items[i]),
    decreases items.len(),
{
    if items.len() > 0 {
        lemma_jvs(items.drop_last());
        assert forall|i: int| 0 <= i < items.len() implies #[trigger] jvs(items)[i] == jv(items[i]) by {
            if i < items.len() - 1 {
                assert(items.drop_last()[i] == items[i]);
            }
        }
    }
}

/// Element-wise facts about `jv_entries`.
pub proof fn lemma_jv_entries(entries: Seq<(String, Json)>)
    ensures
        jv_entries(entries).len() == entries.len(),
        forall|i: int|
            0 <= i < entries.len() ==> #[trigger] jv_entries(entries)[i] == (
                entries[i].0@,
                jv(entries[i].1),
            ),
    decreases entries.len(),
{
    if entries.len() > 0 {
        lemma_jv_entries(entries.drop_last());
        assert forall|i: int| 0 <= i < entries.len() implies #[trigger] jv_entries(entries)[i] == (
            entries[i].0@,
            jv(entries[i].1),
        ) by {
            if i < entries.len() - 1 {
                assert(entries.drop_last()[i] == entries[i]);
            }
        }
    }
}

/// The first member named `key`, as a map lookup on an object with unique keys.
pub open spec fn lookup(entries: Seq<(Seq<char>, JsonV)>, key: Seq<char>) -> Option<JsonV>
    decreases entries.len(),
{
    if entries.len() == 0 {
        None
    } else if entries[0].0 == key {
        Some(entries[0].1)
    } else {
        lookup(entries.drop_first(), key)
    }
}

/// A member that `lookup` finds is one of the entries, under that key.
pub proof fn lemma_lookup_some(entries: Seq<(Seq<char>, JsonV)>, key: Seq<char>)
    ensures
        lookup(entries, key) matches Some(v) ==> exists|i: int|
            0 <= i < entries.len() && entries[i].1 == v && entries[i].0 == key,
    decreases entries.len(),
{
    if entries.len() > 0 && entries[0].0 != key {
        lemma_lookup_some(entries.drop_first(), key);
        if let Some(v) = lookup(entries, key) {
            let i = choose|i: int|
                0 <= i < entries.drop_first().len() && entries.drop_first()[i].1 == v
                    && entries.drop_first()[i].0 == key;
            assert(entries[i + 1] == entries.drop_first()[i]);
        }
    } else if entries.len() > 0 {
        assert(entries[0].1 == entries[0].1);
    }
}

/// `value.get(key)`: the member named `key` of an object, `None` otherwise.
pub open spec fn get(value: JsonV, key: Seq<char>) -> Option<JsonV> {
    match value {
        JsonV::Object(entries) => lookup(entries, key),
        _ => None,
    }
}

/// `value[key]`: the member named `key` of an object, `null` otherwise.
pub open spec fn field(value: JsonV, key: Seq<char>) -> JsonV {
    match get(value, key) {
        Some(v) => v,
        None => JsonV::Null,
    }
}

/// `value.as_str()`.
pub open spec fn as_str(value: JsonV) -> Option<Seq<char>> {
    match value {
        JsonV::Str(s) => Some(s),
        _ => None,
    }
}

/// `value.as_bool()`.
pub open spec fn as_bool(value: JsonV) -> Option<bool> {
    match value {
        JsonV::Bool(b) => Some(b),
        _ => None,
    }
}

/// `value.as_u64()`: only non-negative integers.
pub open spec fn as_u64(value: JsonV) -> Option<u64> {
    match value {
        JsonV::Number(n) => match n.kind {
            NumberKind::PosInt(u) => Some(u),
            _ => None,
        },
        _ => None,
    }
}

/// `value.as_f64()`: every number, as the bits of its `f64` value.
pub open spec fn as_f64(value: JsonV) -> Option<u64> {
    match value {
        JsonV::Number(n) => Some(n.float_bits),
        _ => None,
    }
}

/// `value.as_array()`.
pub open spec fn as_array(value: JsonV) -> Option<Seq<JsonV>> {
    match value {
        JsonV::Array(items) => Some(items),
        _ => None,
    }
}

/// `value.as_object()`.
pub open spec fn as_object(value: JsonV) -> Option<Seq<(Seq<char>, JsonV)>> {
    match value {
        JsonV::Object(entries) => Some(entries),
        _ => None,
    }
}

/// Whether the keys of `entries` are strictly ascending, as in serde_json's map.
pub open spec fn keys_ascending(entries: Seq<(Seq<char>, JsonV)>) -> bool {
    forall|i: int, j: int| 0 <= i < j < entries.len() ==> text::seq_lt(entries[i].0, entries[j].0)
}

impl Json {
    /// `as_object`.
    pub fn as_object(&self) -> (r: Option<&Vec<(String, Json)>>)
        ensures
            match r {
                Some(entries) => as_object(self@) == Some(jv_entries(entries@)),
                None => as_object(self@) is None,
            },
    {
        match self {
            Json::Object(entries) => Some(entries),
            _ => None,
        }
    }

    /// `as_array`.
    pub fn as_array(&self) -> (r: Option<&Vec<Json>>)
        ensures
            match r {
                Some(items) => as_array(self@) == Some(jvs(items@)),
                None => as_array(self@) is None,
            },
    {
        match self {
            Json::Array(items) => Some(items),
            _ => None,
        }
    }

    /// `as_str`.
    pub fn as_str(&self) -> (r: Option<&String>)
        ensures
            match r {
                Some(s) => as_str(self@) == Some(s@),
                None => as_str(self@) is None,
            },
    {
        match self {
            Json::String(s) => Some(s),
            _ => None,
        }
    }

    /// `as_bool`.
    pub fn as_bool(&self) -> (r: Option<bool>)
        ensures
            r == as_bool(self@),
    {
        match self {
            Json::Bool(b) => Some(*b),
            _ => None,
        }
    }

    /// `as_u64`.
    pub fn as_u64(&self) -> (r: Option<u64>)
        ensures
            r == as_u64(self@),
    {
        match self {
            Json::Number(n) => match n.kind {
                NumberKind::PosInt(u) => Some(u),
                _ => None,
            },
            _ => None,
        }
    }

    /// `get`: the member named `key`, when `self` is an object holding one.
    pub fn get(&self, key: &str) -> (r: Option<&Json>)
        ensures
            match r {
                Some(v) => get(self@, key@) == Some(v@),
                None => get(self@, key@) is None,
            },
    {
        match self {
            Json::Object(entries) => member(entries, key),
            _ => None,
        }
    }
}

/// The first member of `entries` named `key`.
pub fn member<'a>(entries: &'a Vec<(String, Json)>, key: &str) -> (r: Option<&'a Json>)
    ensures
        match r {
            Some(v) => {
                &&& lookup(jv_entries(entries@), key@) == Some(v@)
                &&& exists|i: int| 0 <= i < entries@.len() && entries@[i].1 == *v
            },
            None => lookup(jv_entries(entries@), key@) is None,
        },
{
    proof {
        lemma_jv_entries(entries@);
    }
    let ghost all = jv_entries(entries@);
    assert(all.skip(0) =~= all);
    let mut i: usize = 0;
    while i < entries.len()
        invariant
            0 <= i <= entries@.len(),
            all == jv_entries(entries@),
            all.len() == entries@.len(),
            forall|k: int| 0 <= k < entries@.len() ==> #[trigger] all[k] == (entries@[k].0@, jv(entries@[k].1)),
            lookup(all, key@) == lookup(all.skip(i as int), key@),
        decreases entries@.len() - i,
    {
        let ghost rest = all.skip(i as int);
        assert(rest[0] == all[i as int]);
        assert(rest.drop_first() =~= all.skip(i + 1));
        if text::str_eq(entries[i].0.as_str(), key) {
            assert(entries@[i as int].1 == entries@[i as int].1);
            return Some(&entries[i].1);
        }
        i = i + 1;
    }
    assert(all.skip(i as int).len() == 0);
    None
}


/// Whether the bits encode a NaN.
pub open spec fn f64_is_nan(b: u64) -> bool {
    (b >> 52u64) & 0x7ffu64 == 0x7ffu64 && b & 0xf_ffff_ffff_ffffu64 != 0
}

/// The bits with negative zero read as positive zero.
pub open spec fn f64_norm(b: u64) -> u64 {
    if b == 0x8000_0000_0000_0000u64 {
        0
    } else {
        b
    }
}

/// A key that orders non-NaN `f64` bit patterns as their values are ordered.
pub open spec fn f64_key(b: u64) -> u64 {
    if b & 0x8000_0000_0000_0000u64 != 0 {
        !b
    } else {
        b | 0x8000_0000_0000_0000u64
    }
}

/// `f64`'s `<` on the values the bits encode.
pub open spec fn f64_lt(a: u64, b: u64) -> bool {
    !f64_is_nan(a) && !f64_is_nan(b) && f64_key(f64_norm(a)) < f64_key(f64_norm(b))
}

/// `f64`'s `==` on the values the bits encode.
pub open spec fn f64_eq(a: u64, b: u64) -> bool {
    !f64_is_nan(a) && !f64_is_nan(b) && f64_norm(a) == f64_norm(b)
}

/// Whether the bits encode a finite `f64` with no fractional part.
pub open spec fn f64_is_integral(b: u64) -> bool {
    let exp = (b >> 52u64) & 0x7ffu64;
    let mant = b & 0xf_ffff_ffff_ffffu64;
    exp != 0x7ffu64 && if exp == 0 {
        mant == 0
    } else if exp < 1023 {
        false
    } else if exp >= 1075 {
        true
    } else {
        mant & ((1u64 << ((1075 - exp) as u64)) - 1) as u64 == 0
    }
}

/// `f64`'s `<`.
pub fn float_lt(a: u64, b: u64) -> (r: bool)
    ensures
        r == f64_lt(a, b),
{
    let a_nan = (a >> 52u64) & 0x7ffu64 == 0x7ffu64 && a & 0xf_ffff_ffff_ffffu64 != 0;
    let b_nan = (b >> 52u64) & 0x7ffu64 == 0x7ffu64 && b & 0xf_ffff_ffff_ffffu64 != 0;
    if a_nan || b_nan {
        return false;
    }
    let an = if a == 0x8000_0000_0000_0000u64 { 0 } else { a };
    let bn = if b == 0x8000_0000_0000_0000u64 { 0 } else { b };
    let ak = if an & 0x8000_0000_0000_0000u64 != 0 { !an } else { an | 0x8000_0000_0000_0000u64 };
    let bk = if bn & 0x8000_0000_0000_0000u64 != 0 { !bn } else { bn | 0x8000_0000_0000_0000u64 };
    ak < bk
}

/// Whether an `f64` is finite with no fractional part.
pub fn float_is_integral(b: u64) -> (r: bool)
    ensures
        r == f64_is_integral(b),
{
    let exp = (b >> 52u64) & 0x7ffu64;
    let mant = b & 0xf_ffff_ffff_ffffu64;
    if exp == 0x7ffu64 {
        false
    } else if exp == 0 {
        mant == 0
    } else if exp < 1023 {
        false
    } else if exp >= 1075 {
        true
    } else {
        let shift = 1075 - exp;
        assert(1u64 << shift >= 1u64) by (bit_vector)
            requires
                shift < 64u64,
        ;
        mant & ((1u64 << shift) - 1) == 0
    }
}

/// serde_json's equality of numbers: integers of the same sign by value,
/// floats by `f64` equality, and never an integer with a float.
pub open spec fn number_eq(a: NumberV, b: NumberV) -> bool {
    match (a.kind, b.kind) {
        (NumberKind::PosInt(x), NumberKind::PosInt(y)) => x == y,
        (NumberKind::NegInt(x), NumberKind::NegInt(y)) => x == y,
        (NumberKind::Float, NumberKind::Float) => f64_eq(a.float_bits, b.float_bits),
        _ => false,
    }
}

/// serde_json's equality of values. Objects compare member by member, which
/// is map equality for objects whose keys are ascending.
pub open spec fn json_eq(a: JsonV, b: JsonV) -> bool
    decreases a,
{
    match (a, b) {
        (JsonV::Null, JsonV::Null) => true,
        (JsonV::Bool(x), JsonV::Bool(y)) => x == y,
        (JsonV::Number(x), JsonV::Number(y)) => number_eq(x, y),
        (JsonV::Str(x), JsonV::Str(y)) => x == y,
        (JsonV::Array(xs), JsonV::Array(ys)) => json_eq_list(xs, ys),
        (JsonV::Object(xs), JsonV::Object(ys)) => json_eq_members(xs, ys),
        _ => false,
    }
}

pub open spec fn json_eq_list(xs: Seq<JsonV>, ys: Seq<JsonV>) -> bool
    decreases xs,
{
    if xs.len() != ys.len() {
        false
    } else if xs.len() == 0 {
        true
    } else {
        json_eq_list(xs.drop_last(), ys.drop_last()) && json_eq(xs.last(), ys.last())
    }
}

pub open spec fn json_eq_members(xs: Seq<(Seq<char>, JsonV)>, ys: Seq<(Seq<char>, JsonV)>) -> bool
    decreases xs,
{
    if xs.len() != ys.len() {
        false
    } else if xs.len() == 0 {
        true
    } else {
        json_eq_members(xs.drop_last(), ys.drop_last()) && xs.last().0 == ys.last().0 && json_eq(
            xs.last().1,
            ys.last().1,
        )
    }
}

/// Whether no number in `v` is a NaN (serde_json never holds one).
pub open spec fn no_nan(v: JsonV) -> bool
    decreases v,
{
    match v {
        JsonV::Number(n) => !f64_is_nan(n.float_bits),
        JsonV::Array(xs) => no_nan_list(xs),
        JsonV::Object(ms) => no_nan_members(ms),
        _ => true,
    }
}

/// Whether no number in the items is a NaN.
pub open spec fn no_nan_list(xs: Seq<JsonV>) -> bool
    decreases xs,
{
    if xs.len() == 0 {
        true
    } else {
        no_nan_list(xs.drop_last()) && no_nan(xs.last())
    }
}

/// Whether no number in the members' values is a NaN.
pub open spec fn no_nan_members(ms: Seq<(Seq<char>, JsonV)>) -> bool
    decreases ms,
{
    if ms.len() == 0 {
        true
    } else {
        no_nan_members(ms.drop_last()) && no_nan(ms.last().1)
    }
}

/// A value without NaNs equals itself.
pub proof fn lemma_json_eq_refl(v: JsonV)
    requires
        no_nan(v),
    ensures
        json_eq(v, v),
    decreases v,
{
    match v {
        JsonV::Array(xs) => lemma_json_eq_list_refl(xs),
        JsonV::Object(ms) => lemma_json_eq_members_refl(ms),
        _ => {},
    }
}

/// A list without NaNs equals itself.
pub proof fn lemma_json_eq_list_refl(xs: Seq<JsonV>)
    requires
        no_nan_list(xs),
    ensures
        json_eq_list(xs, xs),
    decreases xs,
{
    if xs.len() > 0 {
        lemma_json_eq_list_refl(xs.drop_last());
        lemma_json_eq_refl(xs.last());
    }
}

/// Members without NaNs equal themselves.
pub proof fn lemma_json_eq_members_refl(ms: Seq<(Seq<char>, JsonV)>)
    requires
        no_nan_members(ms),
    ensures
        json_eq_members(ms, ms),
    decreases ms,
{
    if ms.len() > 0 {
        lemma_json_eq_members_refl(ms.drop_last());
        lemma_json_eq_refl(ms.last().1);
    }
}

/// Whether two numbers are equal as serde_json compares them.
pub fn number_equal(a: &JsonNumber, b: &JsonNumber) -> (r: bool)
    ensures
        r == number_eq(number_view(*a), number_view(*b)),
{
    match (a.kind, b.kind) {
        (NumberKind::PosInt(x), NumberKind::PosInt(y)) => x == y,
        (NumberKind::NegInt(x), NumberKind::NegInt(y)) => x == y,
        (NumberKind::Float, NumberKind::Float) => {
            let x = a.float_bits;
            let y = b.float_bits;
            let x_nan = (x >> 52u64) & 0x7ffu64 == 0x7ffu64 && x & 0xf_ffff_ffff_ffffu64 != 0;
            let y_nan = (y >> 52u64) & 0x7ffu64 == 0x7ffu64 && y & 0xf_ffff_ffff_ffffu64 != 0;
            let xn = if x == 0x8000_0000_0000_0000u64 { 0 } else { x };
            let yn = if y == 0x8000_0000_0000_0000u64 { 0 } else { y };
            !x_nan && !y_nan && xn == yn
        },
        _ => false,
    }
}

/// Whether two values are equal as serde_json compares them.
pub fn json_equal(a: &Json, b: &Json) -> (r: bool)
    ensures
        r == json_eq(a@, b@),
    decreases a,
{
    match (a, b) {
        (Json::Null, Json::Null) => true,
        (Json::Bool(x), Json::Bool(y)) => *x == *y,
        (Json::Number(x), Json::Number(y)) => number_equal(x, y),
        (Json::String(x), Json::String(y)) => text::str_eq(x.as_str(), y.as_str()),
        (Json::Array(xs), Json::Array(ys)) => {
            proof {
                lemma_jvs(xs@);
                lemma_jvs(ys@);
            }
            if xs.len() != ys.len() {
                return false;
            }
            let mut i: usize = 0;
            assert(jvs(xs@).take(0) =~= Seq::<JsonV>::empty());
            assert(jvs(ys@).take(0) =~= Seq::<JsonV>::empty());
            while i < xs.len()
                invariant
                    xs@.len() == ys@.len(),
                    0 <= i <= xs@.len(),
                    jvs(xs@).len() == xs@.len(),
                    jvs(ys@).len() == ys@.len(),
                    forall|k: int| 0 <= k < xs@.len() ==> #[trigger] jvs(xs@)[k] == jv(xs@[k]),
                    forall|k: int| 0 <= k < ys@.len() ==> #[trigger] jvs(ys@)[k] == jv(ys@[k]),
                    json_eq_list(jvs(xs@).take(i as int), jvs(ys@).take(i as int)),
                    *a == Json::Array(*xs),
                    *b == Json::Array(*ys),
                decreases xs@.len() - i,
            {
                proof {
                    assert((*a)->Array_0 == *xs);
                    assert(decreases_to!(*a => (*a)->Array_0));
                    assert(decreases_to!(*xs => xs@));
                    assert(decreases_to!(xs@ => xs@[i as int]));
                }
                let same = json_equal(&xs[i], &ys[i]);
                assert(jvs(xs@).take(i + 1).last() == jv(xs@[i as int]));
                assert(jvs(ys@).take(i + 1).last() == jv(ys@[i as int]));
                assert(jvs(xs@).take(i + 1).drop_last() =~= jvs(xs@).take(i as int));
                assert(jvs(ys@).take(i + 1).drop_last() =~= jvs(ys@).take(i as int));
                if !same {
                    proof {
                        lemma_eq_list_prefix(jvs(xs@), jvs(ys@), i + 1);
                        assert(a@ == JsonV::Array(jvs(xs@)));
                        assert(b@ == JsonV::Array(jvs(ys@)));
                    }
                    return false;
                }
                i = i + 1;
            }
            assert(jvs(xs@).take(i as int) =~= jvs(xs@));
            assert(jvs(ys@).take(i as int) =~= jvs(ys@));
            true
        },
        (Json::Object(xs), Json::Object(ys)) => {
            proof {
                lemma_jv_entries(xs@);
                lemma_jv_entries(ys@);
            }
            if xs.len() != ys.len() {
                return false;
            }
            let mut i: usize = 0;
            assert(jv_entries(xs@).take(0) =~= Seq::<(Seq<char>, JsonV)>::empty());
            assert(jv_entries(ys@).take(0) =~= Seq::<(Seq<char>, JsonV)>::empty());
            while i < xs.len()
                invariant
                    xs@.len() == ys@.len(),
                    0 <= i <= xs@.len(),
                    jv_entries(xs@).len() == xs@.len(),
                    jv_entries(ys@).len() == ys@.len(),
                    forall|k: int|
                        0 <= k < xs@.len() ==> #[trigger] jv_entries(xs@)[k] == (
                            xs@[k].0@,
                            jv(xs@[k].1),
                        ),
                    forall|k: int|
                        0 <= k < ys@.len() ==> #[trigger] jv_entries(ys@)[k] == (
                            ys@[k].0@,
                            jv(ys@[k].1),
                        ),
                    json_eq_members(jv_entries(xs@).take(i as int), jv_entries(ys@).take(i as int)),
                    *a == Json::Object(*xs),
                    *b == Json::Object(*ys),
                decreases xs@.len() - i,
            {
                proof {
                    assert((*a)->Object_0 == *xs);
                    assert(decreases_to!(*a => (*a)->Object_0));
                    assert(decreases_to!(*xs => xs@));
                    assert(decreases_to!(xs@ => xs@[i as int]));
                    assert(decreases_to!(xs@[i as int] => xs@[i as int].1));
                }
                assert(jv_entries(xs@).take(i + 1).last() == (xs@[i as int].0@, jv(xs@[i as int].1)));
                assert(jv_entries(ys@).take(i + 1).last() == (ys@[i as int].0@, jv(ys@[i as int].1)));
                let same = text::str_eq(xs[i].0.as_str(), ys[i].0.as_str()) && json_equal(
                    &xs[i].1,
                    &ys[i].1,
                );
                assert(jv_entries(xs@).take(i + 1).drop_last() =~= jv_entries(xs@).take(i as int));
                assert(jv_entries(ys@).take(i + 1).drop_last() =~= jv_entries(ys@).take(i as int));
                if !same {
                    proof {
                        lemma_eq_members_prefix(jv_entries(xs@), jv_entries(ys@), i + 1);
                        assert(a@ == JsonV::Object(jv_entries(xs@)));
                        assert(b@ == JsonV::Object(jv_entries(ys@)));
                    }
                    return false;
                }
                i = i + 1;
            }
            assert(jv_entries(xs@).take(i as int) =~= jv_entries(xs@));
            assert(jv_entries(ys@).take(i as int) =~= jv_entries(ys@));
            true
        },
        _ => false,
    }
}

/// Equal lists agree on every prefix.
proof fn lemma_eq_list_prefix(xs: Seq<JsonV>, ys: Seq<JsonV>, n: int)
    requires
        0 <= n <= xs.len(),
        xs.len() == ys.len(),
        !json_eq_list(xs.take(n), ys.take(n)),
    ensures
        !json_eq_list(xs, ys),
    decreases xs.len() - n,
{
    if n < xs.len() {
        assert(xs.take(n + 1).drop_last() =~= xs.take(n));
        assert(ys.take(n + 1).drop_last() =~= ys.take(n));
        lemma_eq_list_prefix(xs, ys, n + 1);
    } else {
        assert(xs.take(n) =~= xs);
        assert(ys.take(n) =~= ys);
    }
}

/// Equal member lists agree on every prefix.
proof fn lemma_eq_members_prefix(
    xs: Seq<(Seq<char>, JsonV)>,
    ys: Seq<(Seq<char>, JsonV)>,
    n: int,
)
    requires
        0 <= n <= xs.len(),
        xs.len() == ys.len(),
        !json_eq_members(xs.take(n), ys.take(n)),
    ensures
        !json_eq_members(xs, ys),
    decreases xs.len() - n,
{
    if n < xs.len() {
        assert(xs.take(n + 1).drop_last() =~= xs.take(n));
        assert(ys.take(n + 1).drop_last() =~= ys.take(n));
        lemma_eq_members_prefix(xs, ys, n + 1);
    } else {
        assert(xs.take(n) =~= xs);
        assert(ys.take(n) =~= ys);
    }
}


/// A lowercase hexadecimal digit.
pub open spec fn hex_lower(d: nat) -> char {
    if d < 10 {
        (48 + d) as char
    } else {
        (87 + d) as char
    }
}

/// How compact JSON writes one character inside a string literal.
pub open spec fn escape_char(c: char) -> Seq<char> {
    if c == '"' {
        seq!['\\', '"']
    } else if c == '\\' {
        seq!['\\', '\\']
    } else if c as int == 8 {
        seq!['\\', 'b']
    } else if c as int == 9 {
        seq!['\\', 't']
    } else if c as int == 10 {
        seq!['\\', 'n']
    } else if c as int == 12 {
        seq!['\\', 'f']
    } else if c as int == 13 {
        seq!['\\', 'r']
    } else if (c as int) < 32 {
        seq!['\\', 'u', '0', '0', hex_lower((c as int / 16) as nat), hex_lower((c as int % 16) as nat)]
    } else {
        seq![c]
    }
}

/// The escaped body of a string literal.
pub open spec fn escape(s: Seq<char>) -> Seq<char>
    decreases s.len(),
{
    if s.len() == 0 {
        Seq::empty()
    } else {
        escape(s.drop_last()) + escape_char(s.last())
    }
}

/// A string literal.
pub open spec fn quote(s: Seq<char>) -> Seq<char> {
    seq!['"'] + escape(s) + seq!['"']
}

/// Compact JSON text of a value, as serde_json's `Display` writes it.
pub open spec fn render(v: JsonV) -> Seq<char>
    decreases v,
{
    match v {
        JsonV::Null => seq!['n', 'u', 'l', 'l'],
        JsonV::Bool(b) => if b {
            seq!['t', 'r', 'u', 'e']
        } else {
            seq!['f', 'a', 'l', 's', 'e']
        },
        JsonV::Number(n) => n.text,
        JsonV::Str(s) => quote(s),
        JsonV::Array(items) => seq!['['] + render_list(items) + seq![']'],
        JsonV::Object(entries) => seq!['{'] + render_members(entries) + seq!['}'],
    }
}

/// Comma-separated renderings of the items.
pub open spec fn render_list(items: Seq<JsonV>) -> Seq<char>
    decreases items,
{
    if items.len() == 0 {
        Seq::empty()
    } else {
        let before = render_list(items.drop_last());
        (if items.len() == 1 {
            before
        } else {
            before.push(',')
        }) + render(items.last())
    }
}

/// Comma-separated `"key":value` renderings of the members.
pub open spec fn render_members(entries: Seq<(Seq<char>, JsonV)>) -> Seq<char>
    decreases entries,
{
    if entries.len() == 0 {
        Seq::empty()
    } else {
        let before = render_members(entries.drop_last());
        (if entries.len() == 1 {
            before
        } else {
            before.push(',')
        }) + quote(entries.last().0).push(':') + render(entries.last().1)
    }
}

fn hex_digit(d: u32) -> (c: char)
    requires
        d < 16,
    ensures
        c == hex_lower(d as nat),
{
    if d < 10 {
        (48u8 + d as u8) as char
    } else {
        (87u8 + d as u8) as char
    }
}

/// Appends the escaped form of `c`.
fn push_escaped_char(out: &mut Vec<char>, c: char)
    ensures
        final(out)@ == old(out)@ + escape_char(c),
{
    let code = c as u32;
    if c == '"' {
        out.push('\\');
        out.push('"');
    } else if c == '\\' {
        out.push('\\');
        out.push('\\');
    } else if code == 8 {
        out.push('\\');
        out.push('b');
    } else if code == 9 {
        out.push('\\');
        out.push('t');
    } else if code == 10 {
        out.push('\\');
        out.push('n');
    } else if code == 12 {
        out.push('\\');
        out.push('f');
    } else if code == 13 {
        out.push('\\');
        out.push('r');
    } else if code < 32 {
        out.push('\\');
        out.push('u');
        out.push('0');
        out.push('0');
        out.push(hex_digit(code / 16));
        out.push(hex_digit(code % 16));
    } else {
        out.push(c);
    }
    assert(final(out)@ =~= old(out)@ + escape_char(c));
}

/// Appends a string literal for `s`.
pub fn push_quoted(out: &mut Vec<char>, s: &str)
    ensures
        final(out)@ == old(out)@ + quote(s@),
{
    let chars = text::chars_of(s);
    out.push('"');
    let ghost start = out@;
    let mut i: usize = 0;
    assert(chars@.take(0) =~= Seq::<char>::empty());
    assert(start + escape(chars@.take(0)) =~= start);
    while i < chars.len()
        invariant
            0 <= i <= chars@.len(),
            chars@ == s@,
            out@ == start + escape(chars@.take(i as int)),
        decreases chars@.len() - i,
    {
        push_escaped_char(out, chars[i]);
        assert(chars@.take(i + 1).drop_last() =~= chars@.take(i as int));
        assert(chars@.take(i + 1).last() == chars@[i as int]);
        assert(out@ =~= start + escape(chars@.take(i + 1)));
        i = i + 1;
    }
    assert(chars@.take(i as int) =~= chars@);
    out.push('"');
    assert(out@ =~= old(out)@ + quote(s@));
}

/// Appends the compact JSON text of `j`.
pub fn push_rendered(out: &mut Vec<char>, j: &Json)
    ensures
        final(out)@ == old(out)@ + render(j@),
    decreases j,
{
    match j {
        Json::Null => {
            out.push('n');
            out.push('u');
            out.push('l');
            out.push('l');
            assert(out@ =~= old(out)@ + render(j@));
        },
        Json::Bool(b) => {
            if *b {
                out.push('t');
                out.push('r');
                out.push('u');
                out.push('e');
            } else {
                out.push('f');
                out.push('a');
                out.push('l');
                out.push('s');
                out.push('e');
            }
            assert(out@ =~= old(out)@ + render(j@));
        },
        Json::Number(n) => {
            let t = text::chars_of(n.text.as_str());
            let mut i: usize = 0;
            while i < t.len()
                invariant
                    0 <= i <= t@.len(),
                    out@ == old(out)@ + t@.take(i as int),
                decreases t@.len() - i,
            {
                out.push(t[i]);
                assert(t@.take(i + 1) =~= t@.take(i as int).push(t@[i as int]));
                i = i + 1;
            }
            assert(t@.take(i as int) =~= t@);
        },
        Json::String(s) => {
            push_quoted(out, s.as_str());
        },
        Json::Array(items) => {
            proof {
                lemma_jvs(items@);
            }
            out.push('[');
            let ghost start = out@;
            let ghost all = jvs(items@);
            let mut i: usize = 0;
            assert(all.take(0) =~= Seq::<JsonV>::empty());
            assert(start + render_list(all.take(0)) =~= start);
            while i < items.len()
                invariant
                    0 <= i <= items@.len(),
                    all == jvs(items@),
                    all.len() == items@.len(),
                    forall|k: int| 0 <= k < items@.len() ==> #[trigger] all[k] == jv(items@[k]),
                    out@ == start + render_list(all.take(i as int)),
                    *j == Json::Array(*items),
                decreases items@.len() - i,
            {
                if i > 0 {
                    out.push(',');
                }
                proof {
                    assert((*j)->Array_0 == *items);
                    assert(decreases_to!(*j => (*j)->Array_0));
                    assert(decreases_to!(*items => items@));
                    assert(decreases_to!(items@ => items@[i as int]));
                }
                push_rendered(out, &items[i]);
                assert(all.take(i + 1).drop_last() =~= all.take(i as int));
                assert(all.take(i + 1).last() == jv(items@[i as int]));
                assert(out@ =~= start + render_list(all.take(i + 1)));
                i = i + 1;
            }
            assert(all.take(i as int) =~= all);
            out.push(']');
            assert(j@ == JsonV::Array(all));
            assert(out@ =~= old(out)@ + render(j@));
        },
        Json::Object(entries) => {
            proof {
                lemma_jv_entries(entries@);
            }
            out.push('{');
            let ghost start = out@;
            let ghost all = jv_entries(entries@);
            let mut i: usize = 0;
            assert(all.take(0) =~= Seq::<(Seq<char>, JsonV)>::empty());
            assert(start + render_members(all.take(0)) =~= start);
            while i < entries.len()
                invariant
                    0 <= i <= entries@.len(),
                    all == jv_entries(entries@),
                    all.len() == entries@.len(),
                    forall|k: int|
                        0 <= k < entries@.len() ==> #[trigger] all[k] == (
                            entries@[k].0@,
                            jv(entries@[k].1),
                        ),
                    out@ == start + render_members(all.take(i as int)),
                    *j == Json::Object(*entries),
                decreases entries@.len() - i,
            {
                let ghost before = out@;
                if i > 0 {
                    out.push(',');
                }
                let ghost mid = out@;
                push_quoted(out, entries[i].0.as_str());
                out.push(':');
                proof {
                    assert((*j)->Object_0 == *entries);
                    assert(decreases_to!(*j => (*j)->Object_0));
                    assert(decreases_to!(*entries => entries@));
                    assert(decreases_to!(entries@ => entries@[i as int]));
                    assert(decreases_to!(entries@[i as int] => entries@[i as int].1));
                }
                push_rendered(out, &entries[i].1);
                assert(all.take(i + 1).drop_last() =~= all.take(i as int));
                assert(all.take(i + 1).last() == (entries@[i as int].0@, jv(entries@[i as int].1)));
                assert(out@ =~= start + render_members(all.take(i + 1)));
                i = i + 1;
            }
            assert(all.take(i as int) =~= all);
            out.push('}');
            assert(j@ == JsonV::Object(all));
            assert(out@ =~= old(out)@ + render(j@));
        },
    }
}

/// The compact JSON text of `j` (serde_json's `Display`).
pub fn json_text(j: &Json) -> (s: String)
    ensures
        s@ == render(j@),
{
    let mut out: Vec<char> = Vec::new();
    push_rendered(&mut out, j);
    assert(out@ =~= render(j@));
    text::string_of(out.as_slice())
}


/// A copy of a number.
pub fn clone_number(n: &JsonNumber) -> (r: JsonNumber)
    ensures
        number_view(r) == number_view(*n),
{
    JsonNumber {
        kind: n.kind,
        float_bits: n.float_bits,
        text: n.text.clone(),
        float_text: n.float_text.clone(),
    }
}

/// A deep copy of `j`.
pub fn clone_json(j: &Json) -> (r: Json)
    ensures
        r@ == j@,
    decreases j,
{
    match j {
        Json::Null => Json::Null,
        Json::Bool(b) => Json::Bool(*b),
        Json::Number(n) => Json::Number(clone_number(n)),
        Json::String(s) => Json::String(s.clone()),
        Json::Array(items) => {
            proof {
                lemma_jvs(items@);
            }
            let mut out: Vec<Json> = Vec::new();
            let mut i: usize = 0;
            while i < items.len()
                invariant
                    0 <= i <= items@.len(),
                    out@.len() == i,
                    forall|k: int| 0 <= k < i ==> #[trigger] jv(out@[k]) == jv(items@[k]),
                    *j == Json::Array(*items),
                decreases items@.len() - i,
            {
                proof {
                    assert((*j)->Array_0 == *items);
                    assert(decreases_to!(*j => (*j)->Array_0));
                    assert(decreases_to!(*items => items@));
                    assert(decreases_to!(items@ => items@[i as int]));
                }
                let c = clone_json(&items[i]);
                out.push(c);
                i = i + 1;
            }
            proof {
                lemma_jvs(out@);
                assert(jvs(out@) =~= jvs(items@));
            }
            Json::Array(out)
        },
        Json::Object(entries) => {
            proof {
                lemma_jv_entries(entries@);
            }
            let mut out: Vec<(String, Json)> = Vec::new();
            let mut i: usize = 0;
            while i < entries.len()
                invariant
                    0 <= i <= entries@.len(),
                    out@.len() == i,
                    forall|k: int|
                        0 <= k < i ==> #[trigger] out@[k].0@ == entries@[k].0@ && jv(out@[k].1) == jv(
                            entries@[k].1,
                        ),
                    *j == Json::Object(*entries),
                decreases entries@.len() - i,
            {
                proof {
                    assert((*j)->Object_0 == *entries);
                    assert(decreases_to!(*j => (*j)->Object_0));
                    assert(decreases_to!(*entries => entries@));
                    assert(decreases_to!(entries@ => entries@[i as int]));
                    assert(decreases_to!(entries@[i as int] => entries@[i as int].1));
                }
                let v = clone_json(&entries[i].1);
                let k = entries[i].0.clone();
                out.push((k, v));
                i = i + 1;
            }
            proof {
                lemma_jv_entries(out@);
                assert(jv_entries(out@) =~= jv_entries(entries@));
            }
            Json::Object(out)
        },
    }
}

} // verus!
