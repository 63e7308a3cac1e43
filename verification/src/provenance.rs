//! "How was this map produced?": the `kind: "init"` weaker-evidence tooltip
//! wording, the fidelity -> plain-language explanations (never echoing the raw
//! fidelity token), and the reachability caveat owed when the producer
//! discloses that it over-reports live code.
use vstd::prelude::*;

use crate::graph::Reach;
use crate::models::{CodeGraph, CodeGraphLimitation};
use crate::text::str_eq;

verus! {

impl Reach {
    /// Hover text for this badge on a function of the given magma `kind`.
    pub open spec fn tooltip_for_kind_spec(self, kind: Seq<char>) -> Seq<char> {
        if kind != "init"@ {
            self.tooltip_spec()
        } else {
            match self {
                Reach::Dead => "CANDIDATE — WEAKER EVIDENCE: a const/static initialiser, not a function. Magma models calls, not uses, so an initialiser can never satisfy reachability through any caller, used or not — this badge does not mean 'no caller was found', it means 'callers cannot be observed for this kind of node'. Verify independently before treating this as dead."@,
                Reach::TestOnly => "CANDIDATE — WEAKER EVIDENCE: a const/static initialiser reached only from test wiring. Magma models calls, not uses, so its reachability is inherently weaker evidence than a function's test-only badge — verify independently."@,
                _ => self.tooltip_spec(),
            }
        }
    }

    /// Hover text for this badge on a function of the given magma `kind`
    /// (`func` | `method` | `init`): an `init` node (a const/static
    /// initialiser) gets weaker-evidence wording for `Dead` and `TestOnly`.
    pub fn tooltip_for_kind(self, kind: &str) -> (r: &'static str)
        ensures
            r@ == self.tooltip_for_kind_spec(kind@),
    {
        if !str_eq(kind, "init") {
            return self.tooltip();
        }
        match self {
            Reach::Dead => "CANDIDATE — WEAKER EVIDENCE: a const/static initialiser, not a function. Magma models calls, not uses, so an initialiser can never satisfy reachability through any caller, used or not — this badge does not mean 'no caller was found', it means 'callers cannot be observed for this kind of node'. Verify independently before treating this as dead.",
            Reach::TestOnly => "CANDIDATE — WEAKER EVIDENCE: a const/static initialiser reached only from test wiring. Magma models calls, not uses, so its reachability is inherently weaker evidence than a function's test-only badge — verify independently.",
            _ => self.tooltip(),
        }
    }
}

/// Plain-language description of the analysis method behind a fidelity token.
pub open spec fn fidelity_description_spec(fidelity: Seq<char>) -> Seq<char> {
    if fidelity == "rta"@ {
        "Static call-graph analysis (Rapid Type Analysis): every call site is resolved by reading the source, without running it."@
    } else if fidelity == "semantic"@ {
        "Semantic analysis using the compiler's own type inference to resolve call sites to concrete targets."@
    } else {
        "Analysis method not recognised by this viewer version."@
    }
}

/// Plain-language description of the analysis method behind a fidelity
/// token. Never the raw token; an unknown token gets a conservative fallback.
pub fn fidelity_method_description(fidelity: &str) -> (r: &'static str)
    ensures
        r@ == fidelity_description_spec(fidelity@),
{
    if str_eq(fidelity, "rta") {
        "Static call-graph analysis (Rapid Type Analysis): every call site is resolved by reading the source, without running it."
    } else if str_eq(fidelity, "semantic") {
        "Semantic analysis using the compiler's own type inference to resolve call sites to concrete targets."
    } else {
        "Analysis method not recognised by this viewer version."
    }
}

/// What a DYNAMIC call edge means under this fidelity.
pub open spec fn dynamic_explanation_spec(fidelity: Seq<char>) -> Seq<char> {
    if fidelity == "rta"@ {
        "Dynamic calls are this analysis method's over-approximation: this edge may not occur at runtime."@
    } else if fidelity == "semantic"@ {
        "Dynamic calls were resolved to a concrete target by type inference — not an over-approximation."@
    } else {
        "Dynamic-call resolution method not recognised by this viewer — treat dynamic edges as unverified."@
    }
}

/// Plain-language explanation of what a dynamic call edge means under this
/// fidelity: fidelity modulates the explanation instead of getting a label.
pub fn dynamic_edge_explanation(fidelity: &str) -> (r: &'static str)
    ensures
        r@ == dynamic_explanation_spec(fidelity@),
{
    if str_eq(fidelity, "rta") {
        "Dynamic calls are this analysis method's over-approximation: this edge may not occur at runtime."
    } else if str_eq(fidelity, "semantic") {
        "Dynamic calls were resolved to a concrete target by type inference — not an over-approximation."
    } else {
        "Dynamic-call resolution method not recognised by this viewer — treat dynamic edges as unverified."
    }
}

/// Token law: neither explanation echoes the fidelity token it explains
/// (the one text that could is the fallback itself, offered as a token).
pub proof fn lemma_explanations_never_echo_the_token(fidelity: Seq<char>)
    ensures
        fidelity != "Analysis method not recognised by this viewer version."@
            ==> fidelity_description_spec(fidelity) != fidelity,
        fidelity != "Dynamic-call resolution method not recognised by this viewer — treat dynamic edges as unverified."@
            ==> dynamic_explanation_spec(fidelity) != fidelity,
        dynamic_explanation_spec("rta"@) != dynamic_explanation_spec("semantic"@),
{
    reveal_strlit("rta");
    reveal_strlit("semantic");
    reveal_strlit("Static call-graph analysis (Rapid Type Analysis): every call site is resolved by reading the source, without running it.");
    reveal_strlit("Semantic analysis using the compiler's own type inference to resolve call sites to concrete targets.");
    reveal_strlit("Dynamic calls are this analysis method's over-approximation: this edge may not occur at runtime.");
    reveal_strlit("Dynamic calls were resolved to a concrete target by type inference — not an over-approximation.");
    assert("rta"@.len() != fidelity_description_spec("rta"@).len());
    assert("semantic"@.len() != fidelity_description_spec("semantic"@).len());
    assert("rta"@.len() != dynamic_explanation_spec("rta"@).len());
    assert("semantic"@.len() != dynamic_explanation_spec("semantic"@).len());
    assert(dynamic_explanation_spec("rta"@)[14] != dynamic_explanation_spec("semantic"@)[14]);
}

/// Whether the "producing this map executed the analysed repository's code"
/// disclosure renders: only when the field says so; absent is "don't know".
pub fn discloses_executed_target_code(executed_target_code: Option<bool>) -> (r: bool)
    ensures
        r == (executed_target_code == Some(true)),
{
    match executed_target_code {
        Some(b) => b,
        None => false,
    }
}

/// The limitation effect meaning "this analysis reports more code as live
/// than really is".
pub open spec fn is_over_approx(l: CodeGraphLimitation) -> bool {
    l.effect@ == "over-approximates-live"@
}

/// The first limitation disclosing over-approximation, if any.
pub open spec fn first_over_approx(lims: Seq<CodeGraphLimitation>) -> Option<CodeGraphLimitation>
    decreases lims.len(),
{
    if lims.len() == 0 {
        None
    } else if is_over_approx(lims[0]) {
        Some(lims[0])
    } else {
        first_over_approx(lims.drop_first())
    }
}

proof fn lemma_first_over_approx_none(lims: Seq<CodeGraphLimitation>)
    ensures
        first_over_approx(lims) is None <==> forall|i: int|
            0 <= i < lims.len() ==> !is_over_approx(#[trigger] lims[i]),
    decreases lims.len(),
{
    if lims.len() > 0 {
        lemma_first_over_approx_none(lims.drop_first());
        if !is_over_approx(lims[0]) {
            assert forall|i: int| 1 <= i < lims.len() implies #[trigger] lims[i] == lims.drop_first()[i - 1] by {}
        }
    }
}

/// Does the producer disclose that it over-reports live code? Returns the
/// first such limitation.
pub fn over_approximates_live(limitations: &[CodeGraphLimitation]) -> (r: Option<&CodeGraphLimitation>)
    ensures
        match r {
            None => first_over_approx(limitations@) is None,
            Some(l) => first_over_approx(limitations@) == Some(*l),
        },
        r is None <==> forall|i: int|
            0 <= i < limitations@.len() ==> !is_over_approx(#[trigger] limitations@[i]),
{
    proof {
        lemma_first_over_approx_none(limitations@);
        assert(limitations@.subrange(0, limitations@.len() as int) =~= limitations@);
    }
    let mut i: usize = 0;
    while i < limitations.len()
        invariant
            i <= limitations@.len(),
            first_over_approx(limitations@) == first_over_approx(
                limitations@.subrange(i as int, limitations@.len() as int),
            ),
        decreases limitations@.len() - i,
    {
        let l = &limitations[i];
        let ghost rest = limitations@.subrange(i as int, limitations@.len() as int);
        proof {
            assert(rest[0] == *l);
            assert(rest.drop_first() =~= limitations@.subrange(i + 1, limitations@.len() as int));
        }
        if str_eq(l.effect.as_str(), "over-approximates-live") {
            return Some(l);
        }
        i += 1;
    }
    proof {
        assert(limitations@.subrange(i as int, limitations@.len() as int) =~= Seq::<CodeGraphLimitation>::empty());
    }
    None
}

/// The quantified evidence attached to a caveat: only `root_ratio` is
/// meaningful to a reader, and only when the document carries it.
pub open spec fn evidence_text(lim: CodeGraphLimitation, cg: CodeGraph) -> Seq<char> {
    match (lim.evidenced_by, cg.disclosure) {
        (Some(key), Some(d)) => {
            if key@ == "root_ratio"@ && d.root_percent is Some {
                " ("@ + d.root_percent->0@ + "% of nodes are roots)"@
            } else {
                seq![]
            }
        },
        _ => seq![],
    }
}

/// The caveat sentence for a disclosed over-approximating limitation.
pub open spec fn caveat_text(lim: CodeGraphLimitation, cg: CodeGraph) -> Seq<char> {
    "Reachability is SUPPRESSED by a disclosed limitation of "@ + lim.attribution@ + evidence_text(
        lim,
        cg,
    ) + ": "@ + lim.description@
        + ". An empty dead-code result here is absence of evidence, not evidence of absence."@
}

/// Sentence to attach to an empty/negative reachability badge set when the
/// producer has disclosed over-approximation; `None` when nothing is
/// disclosed, so an honest sweep gains no caveat it did not earn.
pub fn reachability_caveat(cg: &CodeGraph) -> (r: Option<String>)
    ensures
        match first_over_approx(cg.limitations@) {
            None => r is None,
            Some(lim) => r is Some && r->0@ == caveat_text(lim, *cg),
        },
{
    let lim = match over_approximates_live(cg.limitations.as_slice()) {
        Some(l) => l,
        None => return None,
    };
    let mut evidence = String::new();
    if let Some(key) = &lim.evidenced_by {
        if str_eq(key.as_str(), "root_ratio") {
            if let Some(d) = &cg.disclosure {
                if let Some(p) = &d.root_percent {
                    evidence.append(" (");
                    evidence.append(p.as_str());
                    evidence.append("% of nodes are roots)");
                }
            }
        }
    }
    proof {
        assert(evidence@ =~= evidence_text(*lim, *cg));
    }
    let mut out = String::new();
    out.append("Reachability is SUPPRESSED by a disclosed limitation of ");
    out.append(lim.attribution.as_str());
    out.append(evidence.as_str());
    out.append(": ");
    out.append(lim.description.as_str());
    out.append(". An empty dead-code result here is absence of evidence, not evidence of absence.");
    proof {
        assert(out@ =~= caveat_text(*lim, *cg));
    }
    Some(out)
}

/// Plain-language reading of a limitation's `scope`.
pub open spec fn scope_meaning_spec(scope: Seq<char>) -> Seq<char> {
    if scope == "language"@ {
        "inherent to the language; this will not change"@
    } else if scope == "analyzer"@ {
        "a limit of the pinned analyser; moves when the pin moves"@
    } else if scope == "backend"@ {
        "not implemented yet in this backend; fixable"@
    } else {
        "this build cannot tell whether a newer version would lift this"@
    }
}

/// Plain-language reading of a limitation's `scope`: whether waiting for a
/// newer version helps.
pub fn scope_meaning(scope: &str) -> (r: &'static str)
    ensures
        r@ == scope_meaning_spec(scope@),
{
    if str_eq(scope, "language") {
        "inherent to the language; this will not change"
    } else if str_eq(scope, "analyzer") {
        "a limit of the pinned analyser; moves when the pin moves"
    } else if str_eq(scope, "backend") {
        "not implemented yet in this backend; fixable"
    } else {
        "this build cannot tell whether a newer version would lift this"
    }
}

} // verus!
