//! Random identifiers: a prefix, a hyphen and sixteen random bytes in the
//! URL-safe base64 alphabet without padding.

use base64::Engine;
use rand_core::RngCore;
use vstd::prelude::*;

verus! {

/// The character of the URL-safe base64 alphabet for a six-bit value:
/// `A`–`Z`, `a`–`z`, `0`–`9`, `-`, `_`.
pub open spec fn url_safe_char(v: int) -> char {
    if v < 26 {
        (65 + v) as char
    } else if v < 52 {
        (97 + (v - 26)) as char
    } else if v < 62 {
        (48 + (v - 52)) as char
    } else if v == 62 {
        '-'
    } else {
        '_'
    }
}

/// The URL-safe base64 text of `bytes` without padding: each group of three
/// bytes becomes four characters of six bits each, a last group of one or
/// two bytes becomes two or three characters, its spare bits zero.
pub open spec fn base64_url_no_pad(bytes: Seq<u8>) -> Seq<char>
    decreases bytes.len(),
{
    if bytes.len() == 0 {
        Seq::empty()
    } else if bytes.len() == 1 {
        let b0 = bytes[0] as int;
        seq![url_safe_char(b0 / 4), url_safe_char((b0 % 4) * 16)]
    } else if bytes.len() == 2 {
        let b0 = bytes[0] as int;
        let b1 = bytes[1] as int;
        seq![url_safe_char(b0 / 4), url_safe_char((b0 % 4) * 16 + b1 / 16), url_safe_char((b1 % 16) * 4)]
    } else {
        let b0 = bytes[0] as int;
        let b1 = bytes[1] as int;
        let b2 = bytes[2] as int;
        seq![
            url_safe_char(b0 / 4),
            url_safe_char((b0 % 4) * 16 + b1 / 16),
            url_safe_char((b1 % 16) * 4 + b2 / 64),
            url_safe_char(b2 % 64),
        ] + base64_url_no_pad(bytes.skip(3))
    }
}

/// A character of the URL-safe base64 alphabet.
pub open spec fn is_url_safe_char(c: char) -> bool {
    ('A' <= c <= 'Z') || ('a' <= c <= 'z') || ('0' <= c <= '9') || c == '-' || c == '_'
}

/// The length of the unpadded base64 text of `n` bytes: four characters per
/// three bytes, and two or three for a last group of one or two.
pub open spec fn unpadded_len(n: nat) -> nat {
    n / 3 * 4 + if n % 3 == 1 {
        2nat
    } else if n % 3 == 2 {
        3nat
    } else {
        0nat
    }
}

/// Every character of the URL-safe alphabet is one.
proof fn lemma_url_safe_char(v: int)
    requires
        0 <= v < 64,
    ensures
        is_url_safe_char(url_safe_char(v)),
{
}

/// The base64 text of `bytes` has the unpadded length and only characters of
/// the URL-safe alphabet.
pub proof fn lemma_base64_shape(bytes: Seq<u8>)
    ensures
        base64_url_no_pad(bytes).len() == unpadded_len(bytes.len()),
        forall|i: int|
            0 <= i < base64_url_no_pad(bytes).len() ==> is_url_safe_char(#[trigger] base64_url_no_pad(bytes)[i]),
    decreases bytes.len(),
{
    let t = base64_url_no_pad(bytes);
    if bytes.len() == 0 {
    } else if bytes.len() == 1 {
        let b0 = bytes[0] as int;
        lemma_url_safe_char(b0 / 4);
        lemma_url_safe_char((b0 % 4) * 16);
    } else if bytes.len() == 2 {
        let b0 = bytes[0] as int;
        let b1 = bytes[1] as int;
        lemma_url_safe_char(b0 / 4);
        lemma_url_safe_char((b0 % 4) * 16 + b1 / 16);
        lemma_url_safe_char((b1 % 16) * 4);
    } else {
        let b0 = bytes[0] as int;
        let b1 = bytes[1] as int;
        let b2 = bytes[2] as int;
        lemma_url_safe_char(b0 / 4);
        lemma_url_safe_char((b0 % 4) * 16 + b1 / 16);
        lemma_url_safe_char((b1 % 16) * 4 + b2 / 64);
        lemma_url_safe_char(b2 % 64);
        let rest = bytes.skip(3);
        lemma_base64_shape(rest);
        let head = seq![
            url_safe_char(b0 / 4),
            url_safe_char((b0 % 4) * 16 + b1 / 16),
            url_safe_char((b1 % 16) * 4 + b2 / 64),
            url_safe_char(b2 % 64),
        ];
        assert(t == head + base64_url_no_pad(rest));
        assert(unpadded_len(bytes.len()) == 4 + unpadded_len(rest.len())) by {
            assert(bytes.len() / 3 == rest.len() / 3 + 1);
            assert(bytes.len() % 3 == rest.len() % 3);
        }
        assert forall|i: int| 0 <= i < t.len() implies is_url_safe_char(#[trigger] t[i]) by {
            if i >= 4 {
                assert(t[i] == base64_url_no_pad(rest)[i - 4]);
            }
        }
    }
}

/// `base64::engine::general_purpose::URL_SAFE_NO_PAD.encode(bytes)`: the
/// URL-safe base64 text of `bytes`, without padding. The crate panics when
/// the encoded length overflows `usize`, which `requires` rules out.
#[verifier::external_body]
fn encode_url_safe_no_pad(bytes: &[u8]) -> (s: String)
    requires
        bytes@.len() / 3 * 4 + 3 <= usize::MAX,
    ensures
        s@ == base64_url_no_pad(bytes@),
{
    base64::engine::general_purpose::URL_SAFE_NO_PAD.encode(bytes)
}

/// `rand_core::OsRng.try_fill_bytes` on sixteen bytes: `Some` with the
/// sixteen bytes the operating system delivered, `None` when it reported an
/// error. Nothing is promised of the bytes themselves.
#[verifier::external_body]
fn os_random_bytes() -> (r: Option<Vec<u8>>)
    ensures
        r matches Some(b) ==> b@.len() == 16,
{
    let mut raw = [0u8; 16];
    match rand_core::OsRng.try_fill_bytes(&mut raw) {
        Ok(()) => Some(raw.to_vec()),
        Err(_) => None,
    }
}

/// The identifier text for `prefix` and random bytes `bytes`.
pub open spec fn id_text(prefix: Seq<char>, bytes: Seq<u8>) -> Seq<char> {
    prefix.push('-') + base64_url_no_pad(bytes)
}

/// The identifier `{prefix}-{base64url(bytes)}`.
pub fn id_from_bytes(prefix: &str, bytes: &[u8]) -> (s: String)
    requires
        bytes@.len() / 3 * 4 + 3 <= usize::MAX,
    ensures
        s@ == id_text(prefix@, bytes@),
        s@.len() == prefix@.len() + 1 + unpadded_len(bytes@.len()),
        forall|i: int| prefix@.len() < i < s@.len() ==> is_url_safe_char(#[trigger] s@[i]),
{
    let encoded = encode_url_safe_no_pad(bytes);
    proof {
        lemma_base64_shape(bytes@);
    }
    let mut s = crate::text::owned(prefix);
    crate::text::push_char(&mut s, '-');
    crate::text::push_str(&mut s, encoded.as_str());
    assert forall|i: int| prefix@.len() < i < s@.len() implies is_url_safe_char(#[trigger] s@[i]) by {
        assert(s@[i] == encoded@[i - prefix@.len() - 1]);
    }
    s
}

/// A fresh identifier `{prefix}-{base64url(16 random bytes)}`, or `None`
/// when the operating system's random source failed.
pub fn random_id(prefix: &str) -> (r: Option<String>)
    ensures
        r matches Some(s) ==> {
            &&& exists|b: Seq<u8>| b.len() == 16 && s@ == #[trigger] id_text(prefix@, b)
            &&& s@.len() == prefix@.len() + 23
            &&& s@.subrange(0, prefix@.len() as int) == prefix@
            &&& s@[prefix@.len() as int] == '-'
            &&& forall|i: int| prefix@.len() < i < s@.len() ==> is_url_safe_char(#[trigger] s@[i])
        },
{
    match os_random_bytes() {
        Some(bytes) => {
            let s = id_from_bytes(prefix, bytes.as_slice());
            assert(s@.subrange(0, prefix@.len() as int) =~= prefix@);
            Some(s)
        },
        None => None,
    }
}

} // verus!
