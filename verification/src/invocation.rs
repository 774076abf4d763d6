//! The rules a captured Manual Trigger invocation must meet before a Run is
//! admitted: no field whose name marks a credential, and a bounded size.

use crate::json::{self, Json, JsonV};
use crate::run::{self, RunError};
use crate::text;
use vstd::prelude::*;

verus! {

/// `c` with ASCII capitals lowered and `-` read as `_`.
pub open spec fn normal_char(c: char) -> char {
    if 'A' <= c <= 'Z' {
        ((c as u32) + 32) as char
    } else if c == '-' {
        '_'
    } else {
        c
    }
}

/// A field name lowered (ASCII) with `-` read as `_`.
pub open spec fn normalized(key: Seq<char>) -> Seq<char> {
    key.map_values(|c: char| normal_char(c))
}

/// The field names that always mark a credential.
pub open spec fn sensitive_names() -> Seq<Seq<char>> {
    seq![
        "authorization"@,
        "cookie"@,
        "password"@,
        "passwd"@,
        "secret"@,
        "token"@,
        "api_key"@,
        "apikey"@,
        "private_key"@,
        "access_token"@,
        "refresh_token"@,
        "id_token"@,
        "auth_token"@,
        "bearer_token"@,
        "session_token"@,
        "client_secret"@,
        "credential"@,
        "credentials"@,
        "secret_key"@,
        "signing_key"@,
        "ssh_key"@,
    ]
}

/// The name endings that mark a credential.
pub open spec fn sensitive_suffixes() -> Seq<Seq<char>> {
    seq![
        "_password"@,
        "_passwd"@,
        "_secret"@,
        "_token"@,
        "_credential"@,
        "_credentials"@,
        "_private_key"@,
        "_api_key"@,
    ]
}

/// Whether `s` ends with `suffix`.
pub open spec fn ends_with(s: Seq<char>, suffix: Seq<char>) -> bool {
    s.len() >= suffix.len() && s.subrange(s.len() - suffix.len(), s.len() as int) == suffix
}

/// Whether a (normalized) field name marks a credential.
pub open spec fn is_sensitive(n: Seq<char>) -> bool {
    sensitive_names().contains(n) || exists|i: int|
        0 <= i < sensitive_suffixes().len() && ends_with(n, #[trigger] sensitive_suffixes()[i])
}

/// Whether some field name anywhere inside `value` marks a credential.
pub open spec fn has_sensitive_field(value: JsonV) -> bool
    decreases value, 0nat,
{
    match value {
        JsonV::Object(entries) => members_sensitive(entries),
        JsonV::Array(items) => items_sensitive(items),
        _ => false,
    }
}

/// `has_sensitive_field` over the members of an object.
pub open spec fn members_sensitive(entries: Seq<(Seq<char>, JsonV)>) -> bool
    decreases entries, 0nat,
{
    if entries.len() == 0 {
        false
    } else {
        proof {
            assert(decreases_to!(entries => entries[entries.len() - 1]));
            assert(decreases_to!(entries[entries.len() - 1] => entries[entries.len() - 1].1));
        }
        members_sensitive(entries.drop_last()) || is_sensitive(normalized(entries.last().0))
            || has_sensitive_field(entries[entries.len() - 1].1)
    }
}

/// `has_sensitive_field` over the items of an array.
pub open spec fn items_sensitive(items: Seq<JsonV>) -> bool
    decreases items, 0nat,
{
    if items.len() == 0 {
        false
    } else {
        proof {
            assert(decreases_to!(items => items[items.len() - 1]));
        }
        items_sensitive(items.drop_last()) || has_sensitive_field(items[items.len() - 1])
    }
}

/// A field name lowered (ASCII) with `-` read as `_`.
fn normalize(key: &str) -> (n: Vec<char>)
    ensures
        n@ == normalized(key@),
{
    let chars = text::chars_of(key);
    let mut n: Vec<char> = Vec::new();
    let mut i: usize = 0;
    while i < chars.len()
        invariant
            0 <= i <= chars@.len(),
            chars@ == key@,
            n@ == normalized(key@).take(i as int),
        decreases chars@.len() - i,
    {
        let c = chars[i];
        let m = if 'A' <= c && c <= 'Z' {
            let code = (c as u32) as u8;
            ((code + 32) as char)
        } else if c == '-' {
            '_'
        } else {
            c
        };
        assert(m == normal_char(c));
        n.push(m);
        assert(normalized(key@).take(i + 1) =~= normalized(key@).take(i as int).push(normal_char(c)));
        i = i + 1;
    }
    assert(normalized(key@).take(i as int) =~= normalized(key@));
    n
}

/// Whether `n` ends with `suffix`.
fn ends_with_chars(n: &Vec<char>, suffix: &str) -> (r: bool)
    ensures
        r == ends_with(n@, suffix@),
{
    let s = text::chars_of(suffix);
    if n.len() < s.len() {
        return false;
    }
    let total = n.len();
    let start = total - s.len();
    let mut i: usize = 0;
    while i < s.len()
        invariant
            0 <= i <= s@.len(),
            s@ == suffix@,
            start == n@.len() - s@.len(),
            n@.len() >= s@.len(),
            total == n@.len(),
            forall|k: int| 0 <= k < i ==> n@[start + k] == s@[k],
        decreases s@.len() - i,
    {
        assert(start + i < total);
        if n[start + i] != s[i] {
            assert(n@.subrange(start as int, n@.len() as int)[i as int] != s@[i as int]);
            return false;
        }
        i = i + 1;
    }
    assert(n@.subrange(start as int, n@.len() as int) =~= s@);
    true
}

/// Whether a normalized field name marks a credential.
fn sensitive(n: &Vec<char>) -> (r: bool)
    ensures
        r == is_sensitive(n@),
{
    let names: [&str; 21] = [
        "authorization",
        "cookie",
        "password",
        "passwd",
        "secret",
        "token",
        "api_key",
        "apikey",
        "private_key",
        "access_token",
        "refresh_token",
        "id_token",
        "auth_token",
        "bearer_token",
        "session_token",
        "client_secret",
        "credential",
        "credentials",
        "secret_key",
        "signing_key",
        "ssh_key",
    ];
    let suffixes: [&str; 8] = [
        "_password",
        "_passwd",
        "_secret",
        "_token",
        "_credential",
        "_credentials",
        "_private_key",
        "_api_key",
    ];
    let ghost nv = names@.map_values(|s: &str| s@);
    let ghost sv = suffixes@.map_values(|s: &str| s@);
    assert(nv =~= sensitive_names());
    assert(sv =~= sensitive_suffixes());
    let mut i: usize = 0;
    while i < 21
        invariant
            0 <= i <= 21,
            nv == names@.map_values(|s: &str| s@),
            nv == sensitive_names(),
            forall|k: int| 0 <= k < i ==> nv[k] != n@,
        decreases 21 - i,
    {
        let candidate = text::chars_of(names[i]);
        if text::chars_eq(candidate.as_slice(), n.as_slice()) {
            assert(nv[i as int] == n@);
            return true;
        }
        i = i + 1;
    }
    assert(!sensitive_names().contains(n@));
    let mut j: usize = 0;
    while j < 8
        invariant
            0 <= j <= 8,
            sv == suffixes@.map_values(|s: &str| s@),
            sv == sensitive_suffixes(),
            !sensitive_names().contains(n@),
            forall|k: int| 0 <= k < j ==> !ends_with(n@, sv[k]),
        decreases 8 - j,
    {
        if ends_with_chars(n, suffixes[j]) {
            assert(ends_with(n@, sv[j as int]));
            return true;
        }
        j = j + 1;
    }
    false
}

/// Refuses a value in which some field name, at any depth, marks a
/// credential.
pub fn reject_sensitive_keys(value: &Json) -> (r: Result<(), RunError>)
    ensures
        r is Ok <==> !has_sensitive_field(value@),
        r matches Err(e) ==> e matches RunError::Invalid(f) && f@ == "captured_invocation_sensitive_field"@,
    decreases value,
{
    match value {
        Json::Object(entries) => {
            proof {
                json::lemma_jv_entries(entries@);
            }
            let ghost all = json::jv_entries(entries@);
            let mut i: usize = 0;
            assert(all.take(0) =~= Seq::<(Seq<char>, JsonV)>::empty());
            while i < entries.len()
                invariant
                    0 <= i <= entries@.len(),
                    all == json::jv_entries(entries@),
                    all.len() == entries@.len(),
                    forall|k: int| 0 <= k < entries@.len() ==> #[trigger] all[k] == (entries@[k].0@, json::jv(entries@[k].1)),
                    !members_sensitive(all.take(i as int)),
                    *value == Json::Object(*entries),
                decreases entries@.len() - i,
            {
                assert(all.take(i + 1).drop_last() =~= all.take(i as int));
                assert(all.take(i + 1)[i as int] == all[i as int]);
                let n = normalize(entries[i].0.as_str());
                if sensitive(&n) {
                    proof {
                        lemma_members_prefix(all, i + 1);
                    }
                    return Err(RunError::Invalid("captured_invocation_sensitive_field"));
                }
                proof {
                    assert((*value)->Object_0 == *entries);
                    assert(decreases_to!(*value => (*value)->Object_0));
                    assert(decreases_to!(*entries => entries@));
                    assert(decreases_to!(entries@ => entries@[i as int]));
                    assert(decreases_to!(entries@[i as int] => entries@[i as int].1));
                }
                let nested = reject_sensitive_keys(&entries[i].1);
                if nested.is_err() {
                    proof {
                        lemma_members_prefix(all, i + 1);
                    }
                    return nested;
                }
                i = i + 1;
            }
            assert(all.take(i as int) =~= all);
            Ok(())
        },
        Json::Array(items) => {
            proof {
                json::lemma_jvs(items@);
            }
            let ghost all = json::jvs(items@);
            let mut i: usize = 0;
            assert(all.take(0) =~= Seq::<JsonV>::empty());
            while i < items.len()
                invariant
                    0 <= i <= items@.len(),
                    all == json::jvs(items@),
                    all.len() == items@.len(),
                    forall|k: int| 0 <= k < items@.len() ==> #[trigger] all[k] == json::jv(items@[k]),
                    !items_sensitive(all.take(i as int)),
                    *value == Json::Array(*items),
                decreases items@.len() - i,
            {
                assert(all.take(i + 1).drop_last() =~= all.take(i as int));
                assert(all.take(i + 1)[i as int] == all[i as int]);
                proof {
                    assert((*value)->Array_0 == *items);
                    assert(decreases_to!(*value => (*value)->Array_0));
                    assert(decreases_to!(*items => items@));
                    assert(decreases_to!(items@ => items@[i as int]));
                }
                let nested = reject_sensitive_keys(&items[i]);
                if nested.is_err() {
                    proof {
                        lemma_items_prefix(all, i + 1);
                    }
                    return nested;
                }
                i = i + 1;
            }
            assert(all.take(i as int) =~= all);
            Ok(())
        },
        _ => Ok(()),
    }
}

/// A sensitive prefix makes the whole object sensitive.
proof fn lemma_members_prefix(entries: Seq<(Seq<char>, JsonV)>, n: int)
    requires
        0 <= n <= entries.len(),
        members_sensitive(entries.take(n)),
    ensures
        members_sensitive(entries),
    decreases entries.len() - n,
{
    if n < entries.len() {
        assert(entries.take(n + 1).drop_last() =~= entries.take(n));
        lemma_members_prefix(entries, n + 1);
    } else {
        assert(entries.take(n) =~= entries);
    }
}

/// A sensitive prefix makes the whole array sensitive.
proof fn lemma_items_prefix(items: Seq<JsonV>, n: int)
    requires
        0 <= n <= items.len(),
        items_sensitive(items.take(n)),
    ensures
        items_sensitive(items),
    decreases items.len() - n,
{
    if n < items.len() {
        assert(items.take(n + 1).drop_last() =~= items.take(n));
        lemma_items_prefix(items, n + 1);
    } else {
        assert(items.take(n) =~= items);
    }
}

/// Checks the size of a captured invocation's canonical bytes and returns
/// the weight its admission takes in the writer queue.
pub fn invocation_weight(canonical_length: usize) -> (r: Result<usize, RunError>)
    ensures
        canonical_length > run::MAX_INVOCATION_BYTES ==> (r matches Err(RunError::TooLarge(f)) && f@
            == "captured_invocation"@),
        canonical_length <= run::MAX_INVOCATION_BYTES ==> r == Ok::<usize, RunError>(
            (canonical_length + 4096) as usize,
        ),
{
    if canonical_length > run::MAX_INVOCATION_BYTES {
        return Err(RunError::TooLarge("captured_invocation"));
    }
    Ok(canonical_length + 4096)
}

} // verus!
