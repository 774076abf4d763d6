//! Compiler diagnostics and the bounded list that collects them.

use crate::text;
use vstd::prelude::*;

verus! {

/// At most this many diagnostics are kept; later ones are dropped.
pub const MAX_DIAGNOSTICS: usize = 64;

/// One structured compiler finding.
#[derive(Debug)]
pub struct CompileDiagnostic {
    pub code: String,
    pub severity: String,
    pub require_acknowledgement: bool,
    pub path: String,
    pub message: String,
}

/// A diagnostic, by value.
pub struct DiagV {
    pub code: Seq<char>,
    pub severity: Seq<char>,
    pub require_acknowledgement: bool,
    pub path: Seq<char>,
    pub message: Seq<char>,
}

impl View for CompileDiagnostic {
    type V = DiagV;

    open spec fn view(&self) -> DiagV {
        DiagV {
            code: self.code@,
            severity: self.severity@,
            require_acknowledgement: self.require_acknowledgement,
            path: self.path@,
            message: self.message@,
        }
    }
}

/// The diagnostics of a list, by value.
pub open spec fn diag_views(ds: Seq<CompileDiagnostic>) -> Seq<DiagV> {
    ds.map_values(|d: CompileDiagnostic| d@)
}

/// An error diagnostic.
pub open spec fn error_v(code: Seq<char>, path: Seq<char>, message: Seq<char>) -> DiagV {
    DiagV { code, severity: "error"@, require_acknowledgement: false, path, message }
}

/// A warning diagnostic.
pub open spec fn warning_v(code: Seq<char>, path: Seq<char>, message: Seq<char>, ack: bool) -> DiagV {
    DiagV { code, severity: "warning"@, require_acknowledgement: ack, path, message }
}

/// What a bounded list keeps of the diagnostics pushed into it, in order.
pub open spec fn capped(ds: Seq<DiagV>) -> Seq<DiagV> {
    if ds.len() <= MAX_DIAGNOSTICS {
        ds
    } else {
        ds.take(MAX_DIAGNOSTICS as int)
    }
}

/// Whether any diagnostic is an error.
pub open spec fn any_error(ds: Seq<DiagV>) -> bool {
    exists|i: int| 0 <= i < ds.len() && ds[i].severity == "error"@
}

/// Capping before appending more keeps the same diagnostics as capping after.
pub proof fn lemma_capped_append(a: Seq<DiagV>, b: Seq<DiagV>)
    ensures
        capped(capped(a) + b) == capped(a + b),
        capped(a).len() <= MAX_DIAGNOSTICS,
{
    if a.len() > MAX_DIAGNOSTICS {
        assert((a.take(MAX_DIAGNOSTICS as int) + b).take(MAX_DIAGNOSTICS as int) =~= (a + b).take(
            MAX_DIAGNOSTICS as int,
        ));
    } else if a.len() == MAX_DIAGNOSTICS {
        if b.len() > 0 {
            assert((a + b).take(MAX_DIAGNOSTICS as int) =~= a);
        } else {
            assert(a + b =~= a);
        }
    }
}

/// Appending nothing keeps the list.
pub proof fn lemma_capped_empty(a: Seq<DiagV>)
    requires
        a.len() <= MAX_DIAGNOSTICS,
    ensures
        capped(a + Seq::empty()) == a,
        capped(a) == a,
{
    assert(a + Seq::<DiagV>::empty() =~= a);
}

/// Appending in two steps is appending once.
pub proof fn lemma_capped_steps(a: Seq<DiagV>, b: Seq<DiagV>, c: Seq<DiagV>)
    ensures
        capped(capped(a + b) + c) == capped(a + (b + c)),
{
    lemma_capped_append(a + b, c);
    assert(a + b + c =~= a + (b + c));
}

impl CompileDiagnostic {
    /// An error.
    pub fn error(code: &str, path: &str, message: String) -> (d: CompileDiagnostic)
        ensures
            d@ == error_v(code@, path@, message@),
    {
        CompileDiagnostic {
            code: text::owned(code),
            severity: text::owned("error"),
            require_acknowledgement: false,
            path: text::owned(path),
            message,
        }
    }

    /// A warning, designated (it must be acknowledged before publication)
    /// when `require_acknowledgement` is set.
    pub fn warning(code: &str, path: &str, message: String, require_acknowledgement: bool) -> (d:
        CompileDiagnostic)
        ensures
            d@ == warning_v(code@, path@, message@, require_acknowledgement),
    {
        CompileDiagnostic {
            code: text::owned(code),
            severity: text::owned("warning"),
            require_acknowledgement,
            path: text::owned(path),
            message,
        }
    }

    /// Whether any of the diagnostics is an error.
    pub fn has_errors(diagnostics: &[CompileDiagnostic]) -> (r: bool)
        ensures
            r == any_error(diag_views(diagnostics@)),
    {
        let mut i: usize = 0;
        while i < diagnostics.len()
            invariant
                0 <= i <= diagnostics@.len(),
                forall|k: int| 0 <= k < i ==> diagnostics@[k].severity@ != "error"@,
            decreases diagnostics@.len() - i,
        {
            if text::str_eq(diagnostics[i].severity.as_str(), "error") {
                assert(diag_views(diagnostics@)[i as int].severity == "error"@);
                return true;
            }
            i = i + 1;
        }
        assert forall|k: int| 0 <= k < diag_views(diagnostics@).len() implies diag_views(
            diagnostics@,
        )[k].severity != "error"@ by {
            assert(diagnostics@[k].severity@ != "error"@);
        }
        false
    }

    /// A copy of the diagnostic.
    pub fn duplicate(&self) -> (d: CompileDiagnostic)
        ensures
            d@ == self@,
    {
        CompileDiagnostic {
            code: self.code.clone(),
            severity: self.severity.clone(),
            require_acknowledgement: self.require_acknowledgement,
            path: self.path.clone(),
            message: self.message.clone(),
        }
    }
}

/// Adds `d` to a bounded list: it is kept only while fewer than
/// `MAX_DIAGNOSTICS` are held.
pub fn push_diagnostic(diagnostics: &mut Vec<CompileDiagnostic>, d: CompileDiagnostic)
    requires
        old(diagnostics)@.len() <= MAX_DIAGNOSTICS,
    ensures
        diag_views(final(diagnostics)@) == capped(diag_views(old(diagnostics)@).push(d@)),
        final(diagnostics)@.len() <= MAX_DIAGNOSTICS,
{
    let ghost before = diag_views(diagnostics@);
    if diagnostics.len() < MAX_DIAGNOSTICS {
        diagnostics.push(d);
        assert(diag_views(diagnostics@) =~= before.push(d@));
    } else {
        assert(before.push(d@).take(MAX_DIAGNOSTICS as int) =~= before);
    }
}

} // verus!
