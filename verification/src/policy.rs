//! The versioned compilation policy of the Compatibility Profile and the
//! resource budgets that Node Contracts declare.

use crate::diagnostic::{self, CompileDiagnostic, DiagV};
use crate::json::{self, Json, JsonV};
use crate::text;
use vstd::prelude::*;

verus! {

/// What a Compatibility Profile lets a Workflow use.
#[derive(Debug)]
pub struct CompilePolicy {
    pub allowed_effect_classes: Vec<String>,
    pub allowed_capabilities: Vec<String>,
    pub max_wall_millis: u64,
    pub max_cpu_millis: u64,
    pub max_memory_bytes: u64,
    pub max_input_bytes: u64,
    pub max_output_bytes: u64,
    pub max_artifact_bytes: u64,
    pub max_concurrency: u64,
    pub max_input_count: u64,
    pub max_output_count: u64,
}

/// A policy, by value.
pub struct PolicyV {
    pub allowed_effect_classes: Seq<Seq<char>>,
    pub allowed_capabilities: Seq<Seq<char>>,
    pub max_wall_millis: u64,
    pub max_cpu_millis: u64,
    pub max_memory_bytes: u64,
    pub max_input_bytes: u64,
    pub max_output_bytes: u64,
    pub max_artifact_bytes: u64,
    pub max_concurrency: u64,
    pub max_input_count: u64,
    pub max_output_count: u64,
}

/// The strings of a list, by value.
pub open spec fn string_views(v: Seq<String>) -> Seq<Seq<char>> {
    v.map_values(|s: String| s@)
}

impl View for CompilePolicy {
    type V = PolicyV;

    open spec fn view(&self) -> PolicyV {
        PolicyV {
            allowed_effect_classes: string_views(self.allowed_effect_classes@),
            allowed_capabilities: string_views(self.allowed_capabilities@),
            max_wall_millis: self.max_wall_millis,
            max_cpu_millis: self.max_cpu_millis,
            max_memory_bytes: self.max_memory_bytes,
            max_input_bytes: self.max_input_bytes,
            max_output_bytes: self.max_output_bytes,
            max_artifact_bytes: self.max_artifact_bytes,
            max_concurrency: self.max_concurrency,
            max_input_count: self.max_input_count,
            max_output_count: self.max_output_count,
        }
    }
}

impl CompilePolicy {
    /// The current policy: only pure effects, no capabilities, and the
    /// profile's resource caps.
    pub fn current() -> (p: CompilePolicy)
        ensures
            p@.allowed_effect_classes == seq!["pure"@],
            p@.allowed_capabilities == Seq::<Seq<char>>::empty(),
            p.max_wall_millis == 60_000,
            p.max_cpu_millis == 10_000,
            p.max_memory_bytes == 268_435_456,
            p.max_input_bytes == 67_108_864,
            p.max_output_bytes == 67_108_864,
            p.max_artifact_bytes == 268_435_456,
            p.max_concurrency == 16,
            p.max_input_count == 100_000,
            p.max_output_count == 100_000,
    {
        let mut effects: Vec<String> = Vec::new();
        effects.push(text::owned("pure"));
        let p = CompilePolicy {
            allowed_effect_classes: effects,
            allowed_capabilities: Vec::new(),
            max_wall_millis: 60_000,
            max_cpu_millis: 10_000,
            max_memory_bytes: 268_435_456,
            max_input_bytes: 67_108_864,
            max_output_bytes: 67_108_864,
            max_artifact_bytes: 268_435_456,
            max_concurrency: 16,
            max_input_count: 100_000,
            max_output_count: 100_000,
        };
        assert(p@.allowed_effect_classes =~= seq!["pure"@]);
        assert(p@.allowed_capabilities =~= Seq::<Seq<char>>::empty());
        p
    }
}

/// The nine resource bounds of a Node Contract budget.
#[derive(Clone, Copy, Debug, PartialEq, Eq, Structural)]
pub struct Budget {
    pub artifact_bytes: u64,
    pub concurrency: u64,
    pub cpu_millis: u64,
    pub input_bytes: u64,
    pub input_count: u64,
    pub memory_bytes: u64,
    pub output_bytes: u64,
    pub output_count: u64,
    pub wall_millis: u64,
}

/// `value[a][b]`.
pub open spec fn at2(value: JsonV, a: Seq<char>, b: Seq<char>) -> JsonV {
    json::field(json::field(value, a), b)
}

/// `object.get(key).and_then(Value::as_u64)`.
pub open spec fn u64_member(object: JsonV, key: Seq<char>) -> Option<u64> {
    match json::get(object, key) {
        Some(v) => json::as_u64(v),
        None => None,
    }
}

/// A field of a budget object: its value when it is a non-negative
/// integer, zero otherwise.
pub open spec fn budget_field(object: JsonV, key: Seq<char>) -> u64 {
    match json::as_u64(json::field(object, key)) {
        Some(u) => u,
        None => 0,
    }
}

/// The budget a contract declares under `resources.<which>`.
pub open spec fn budget_of(contract: JsonV, which: Seq<char>) -> Budget {
    let object = at2(contract, "resources"@, which);
    Budget {
        artifact_bytes: budget_field(object, "artifact_bytes"@),
        concurrency: budget_field(object, "concurrency"@),
        cpu_millis: budget_field(object, "cpu_millis"@),
        input_bytes: budget_field(object, "input_bytes"@),
        input_count: budget_field(object, "input_count"@),
        memory_bytes: budget_field(object, "memory_bytes"@),
        output_bytes: budget_field(object, "output_bytes"@),
        output_count: budget_field(object, "output_count"@),
        wall_millis: budget_field(object, "wall_millis"@),
    }
}

/// The diagnostics for one budget field: both bounds must be non-negative
/// integers, the default within the hard bound, and the hard bound within
/// the profile cap.
pub open spec fn budget_field_diags(
    default: JsonV,
    hard: JsonV,
    name: Seq<char>,
    cap: u64,
    path: Seq<char>,
) -> Seq<DiagV> {
    match (u64_member(default, name), u64_member(hard, name)) {
        (Some(d), Some(h)) => (if d > h {
            seq![
                diagnostic::error_v(
                    "budget_inconsistent"@,
                    path + ".resources"@,
                    "budget "@ + name + ": default "@ + text::decimal(d as nat) + " exceeds hard bound "@
                        + text::decimal(h as nat),
                ),
            ]
        } else {
            Seq::empty()
        }) + (if h > cap {
            seq![
                diagnostic::error_v(
                    "budget_exceeds_policy"@,
                    path + ".resources"@,
                    "budget "@ + name + ": hard bound "@ + text::decimal(h as nat) + " exceeds profile cap "@
                        + text::decimal(cap as nat),
                ),
            ]
        } else {
            Seq::empty()
        }),
        _ => seq![
            diagnostic::error_v(
                "contract_budget_invalid"@,
                path + ".resources."@ + name,
                "contract budget fields must be non-negative integers"@,
            ),
        ],
    }
}

/// The budget diagnostics of a contract, field by field in name order.
pub open spec fn budget_diags(contract: JsonV, path: Seq<char>, p: PolicyV) -> Seq<DiagV> {
    let d = at2(contract, "resources"@, "default"@);
    let h = at2(contract, "resources"@, "hard"@);
    budget_field_diags(d, h, "artifact_bytes"@, p.max_artifact_bytes, path)
        + budget_field_diags(d, h, "concurrency"@, p.max_concurrency, path)
        + budget_field_diags(d, h, "cpu_millis"@, p.max_cpu_millis, path)
        + budget_field_diags(d, h, "input_bytes"@, p.max_input_bytes, path)
        + budget_field_diags(d, h, "input_count"@, p.max_input_count, path)
        + budget_field_diags(d, h, "memory_bytes"@, p.max_memory_bytes, path)
        + budget_field_diags(d, h, "output_bytes"@, p.max_output_bytes, path)
        + budget_field_diags(d, h, "output_count"@, p.max_output_count, path)
        + budget_field_diags(d, h, "wall_millis"@, p.max_wall_millis, path)
}

/// `value[key]`, or a `null` owned by the caller when there is no such member.
pub fn field_of<'a>(value: &'a Json, key: &str, null: &'a Json) -> (r: &'a Json)
    requires
        *null == Json::Null,
    ensures
        r@ == json::field(value@, key@),
{
    match value.get(key) {
        Some(v) => v,
        None => null,
    }
}

/// `object.get(key).and_then(Value::as_u64)`.
pub fn u64_member_of(object: &Json, key: &str) -> (r: Option<u64>)
    ensures
        r == u64_member(object@, key@),
{
    match object.get(key) {
        Some(v) => v.as_u64(),
        None => None,
    }
}

/// `"budget " + name`.
fn budget_message(name: &str, first: &str, a: u64, second: &str, b: u64) -> (r: String)
    ensures
        r@ == "budget "@ + name@ + first@ + text::decimal(a as nat) + second@ + text::decimal(b as nat),
{
    let mut r = text::owned("budget ");
    text::push_str(&mut r, name);
    text::push_str(&mut r, first);
    let x = text::decimal_chars(a);
    text::push_chars(&mut r, x.as_slice());
    text::push_str(&mut r, second);
    let y = text::decimal_chars(b);
    text::push_chars(&mut r, y.as_slice());
    r
}

/// Checks one budget field.
fn check_budget_field(
    default: &Json,
    hard: &Json,
    name: &str,
    cap: u64,
    path: &str,
    diags: &mut Vec<CompileDiagnostic>,
)
    requires
        old(diags)@.len() <= diagnostic::MAX_DIAGNOSTICS,
    ensures
        diagnostic::diag_views(final(diags)@) == diagnostic::capped(
            diagnostic::diag_views(old(diags)@) + budget_field_diags(default@, hard@, name@, cap, path@),
        ),
        final(diags)@.len() <= diagnostic::MAX_DIAGNOSTICS,
{
    let ghost base = diagnostic::diag_views(diags@);
    let mut at = text::owned(path);
    text::push_str(&mut at, ".resources");
    match (u64_member_of(default, name), u64_member_of(hard, name)) {
        (Some(d), Some(h)) => {
            let ghost mut done: Seq<DiagV> = Seq::empty();
            proof {
                diagnostic::lemma_capped_empty(base);
                assert(base + done =~= base);
            }
            if d > h {
                let message = budget_message(name, ": default ", d, " exceeds hard bound ", h);
                let e = CompileDiagnostic::error("budget_inconsistent", at.as_str(), message);
                diagnostic::push_diagnostic(diags, e);
                proof {
                    diagnostic::lemma_capped_steps(base, done, seq![e@]);
                    assert(diagnostic::diag_views(diags@) == diagnostic::capped(base + done + seq![e@])) by {
                        assert(base.push(e@) =~= base + seq![e@]);
                        assert(base + done + seq![e@] =~= base + seq![e@]);
                    }
                    done = seq![e@];
                }
            }
            if h > cap {
                let message = budget_message(name, ": hard bound ", h, " exceeds profile cap ", cap);
                let e = CompileDiagnostic::error("budget_exceeds_policy", at.as_str(), message);
                diagnostic::push_diagnostic(diags, e);
                proof {
                    assert(diagnostic::capped(base + done).push(e@) =~= diagnostic::capped(base + done) + seq![e@]);
                    diagnostic::lemma_capped_steps(base, done, seq![e@]);
                    assert(base + done + seq![e@] =~= base + (done + seq![e@]));
                    done = done + seq![e@];
                }
            }
            assert(done =~= budget_field_diags(default@, hard@, name@, cap, path@));
        },
        _ => {
            let mut field_path = text::owned(path);
            text::push_str(&mut field_path, ".resources.");
            text::push_str(&mut field_path, name);
            let e = CompileDiagnostic::error(
                "contract_budget_invalid",
                field_path.as_str(),
                text::owned("contract budget fields must be non-negative integers"),
            );
            diagnostic::push_diagnostic(diags, e);
            assert(base.push(e@) =~= base + budget_field_diags(default@, hard@, name@, cap, path@));
        },
    }
}

/// Checks a contract's budgets against the policy: each of the nine fields
/// of `resources.default` and `resources.hard`, in name order.
pub fn check_budgets(contract: &Json, path: &str, policy: &CompilePolicy, diags: &mut Vec<CompileDiagnostic>)
    requires
        old(diags)@.len() <= diagnostic::MAX_DIAGNOSTICS,
    ensures
        diagnostic::diag_views(final(diags)@) == diagnostic::capped(
            diagnostic::diag_views(old(diags)@) + budget_diags(contract@, path@, policy@),
        ),
        final(diags)@.len() <= diagnostic::MAX_DIAGNOSTICS,
{
    let ghost base = diagnostic::diag_views(diags@);
    let null = Json::Null;
    let resources = field_of(contract, "resources", &null);
    let default = field_of(resources, "default", &null);
    let hard = field_of(resources, "hard", &null);
    let ghost d = default@;
    let ghost h = hard@;
    let ghost p = path@;
    check_budget_field(default, hard, "artifact_bytes", policy.max_artifact_bytes, path, diags);
    let ghost s1 = budget_field_diags(d, h, "artifact_bytes"@, policy.max_artifact_bytes, p);
    check_budget_field(default, hard, "concurrency", policy.max_concurrency, path, diags);
    let ghost s2 = budget_field_diags(d, h, "concurrency"@, policy.max_concurrency, p);
    proof {
        diagnostic::lemma_capped_steps(base, s1, s2);
    }
    check_budget_field(default, hard, "cpu_millis", policy.max_cpu_millis, path, diags);
    let ghost s3 = budget_field_diags(d, h, "cpu_millis"@, policy.max_cpu_millis, p);
    proof {
        diagnostic::lemma_capped_steps(base, s1 + s2, s3);
    }
    check_budget_field(default, hard, "input_bytes", policy.max_input_bytes, path, diags);
    let ghost s4 = budget_field_diags(d, h, "input_bytes"@, policy.max_input_bytes, p);
    proof {
        diagnostic::lemma_capped_steps(base, s1 + s2 + s3, s4);
    }
    check_budget_field(default, hard, "input_count", policy.max_input_count, path, diags);
    let ghost s5 = budget_field_diags(d, h, "input_count"@, policy.max_input_count, p);
    proof {
        diagnostic::lemma_capped_steps(base, s1 + s2 + s3 + s4, s5);
    }
    check_budget_field(default, hard, "memory_bytes", policy.max_memory_bytes, path, diags);
    let ghost s6 = budget_field_diags(d, h, "memory_bytes"@, policy.max_memory_bytes, p);
    proof {
        diagnostic::lemma_capped_steps(base, s1 + s2 + s3 + s4 + s5, s6);
    }
    check_budget_field(default, hard, "output_bytes", policy.max_output_bytes, path, diags);
    let ghost s7 = budget_field_diags(d, h, "output_bytes"@, policy.max_output_bytes, p);
    proof {
        diagnostic::lemma_capped_steps(base, s1 + s2 + s3 + s4 + s5 + s6, s7);
    }
    check_budget_field(default, hard, "output_count", policy.max_output_count, path, diags);
    let ghost s8 = budget_field_diags(d, h, "output_count"@, policy.max_output_count, p);
    proof {
        diagnostic::lemma_capped_steps(base, s1 + s2 + s3 + s4 + s5 + s6 + s7, s8);
    }
    check_budget_field(default, hard, "wall_millis", policy.max_wall_millis, path, diags);
    let ghost s9 = budget_field_diags(d, h, "wall_millis"@, policy.max_wall_millis, p);
    proof {
        diagnostic::lemma_capped_steps(base, s1 + s2 + s3 + s4 + s5 + s6 + s7 + s8, s9);
        assert(s1 + s2 + s3 + s4 + s5 + s6 + s7 + s8 + s9 =~= budget_diags(contract@, path@, policy@));
    }
}

/// The budget a contract declares under `resources.<which>`; a field that is
/// missing or not a non-negative integer reads as zero.
pub fn budget_from(contract: &Json, which: &str) -> (b: Budget)
    ensures
        b == budget_of(contract@, which@),
{
    let null = Json::Null;
    let resources = field_of(contract, "resources", &null);
    let object = field_of(resources, which, &null);
    Budget {
        artifact_bytes: or_zero(field_of(object, "artifact_bytes", &null).as_u64()),
        concurrency: or_zero(field_of(object, "concurrency", &null).as_u64()),
        cpu_millis: or_zero(field_of(object, "cpu_millis", &null).as_u64()),
        input_bytes: or_zero(field_of(object, "input_bytes", &null).as_u64()),
        input_count: or_zero(field_of(object, "input_count", &null).as_u64()),
        memory_bytes: or_zero(field_of(object, "memory_bytes", &null).as_u64()),
        output_bytes: or_zero(field_of(object, "output_bytes", &null).as_u64()),
        output_count: or_zero(field_of(object, "output_count", &null).as_u64()),
        wall_millis: or_zero(field_of(object, "wall_millis", &null).as_u64()),
    }
}

/// The value, or zero.
fn or_zero(v: Option<u64>) -> (r: u64)
    ensures
        r == match v {
            Some(u) => u,
            None => 0,
        },
{
    match v {
        Some(u) => u,
        None => 0,
    }
}

} // verus!
