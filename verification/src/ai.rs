//! Optional narration layer. NARRATES facts, never decides.
//!
//! A provider receives structured findings the engine already computed and
//! returns prose. It cannot change verdicts, scores, or trigger actions,
//! and the app works fully without one.
use vstd::prelude::*;
use crate::present::{human_bytes, spec_human_bytes};
use crate::text::{decimal, write_decimal};
use crate::Finding;

verus! {

/// Turns findings into a short, plain-language explanation.
///
/// Implementations should restate only the evidence they are given —
/// never speculate about files that are not listed.
pub trait AiProvider {
    fn narrate(&self, findings: &[Finding]) -> Result<String, AiError>;
}

#[derive(Clone, Debug)]
pub enum AiError {
    /// No provider is set up.
    NotConfigured,
    /// The provider was asked and failed; the reason.
    Request(String),
}

/// The bytes the findings claim, added up.
pub open spec fn total_claimed(fs: Seq<Finding>) -> int
    decreases fs.len(),
{
    if fs.len() == 0 {
        0
    } else {
        total_claimed(fs.drop_last()) + fs.last().reclaimable
    }
}

/// The first reason of each of the first three findings, for those that
/// have one.
pub open spec fn top_reasons(fs: Seq<Finding>, n: int) -> Seq<Seq<char>>
    decreases n,
{
    if n <= 0 {
        seq![]
    } else {
        top_reasons(fs, n - 1) + if fs[n - 1].reasons@.len() > 0 {
            seq![fs[n - 1].reasons@[0]@]
        } else {
            Seq::<Seq<char>>::empty()
        }
    }
}

/// `parts` joined with "; ".
pub open spec fn joined(parts: Seq<Seq<char>>) -> Seq<char>
    decreases parts.len(),
{
    if parts.len() == 0 {
        seq![]
    } else if parts.len() == 1 {
        parts[0]
    } else {
        joined(parts.drop_last()) + "; "@ + parts.last()
    }
}

/// What the template narrator says of `fs`.
pub open spec fn template_text(fs: Seq<Finding>) -> Seq<char> {
    let total = if total_claimed(fs) > u64::MAX {
        u64::MAX as int
    } else {
        total_claimed(fs)
    };
    let n = if fs.len() < 3 {
        fs.len() as int
    } else {
        3
    };
    "Found "@ + decimal(fs.len()) + " items totalling "@ + spec_human_bytes(total as nat)
        + " reclaimable. Top reasons: "@ + joined(top_reasons(fs, n))
}

/// "Found N items totalling X reclaimable. Top reasons: a; b; c" — the
/// count, the bytes at a readable unit, and the first reason of each of
/// the first three findings.
pub fn template_narration(findings: &[Finding]) -> (s: String)
    ensures
        s@ == template_text(findings@),
{
    let mut total: u64 = 0;
    let mut i: usize = 0;
    while i < findings.len()
        invariant
            i <= findings@.len(),
            total as int == if total_claimed(findings@.take(i as int)) > u64::MAX {
                u64::MAX as int
            } else {
                total_claimed(findings@.take(i as int))
            },
            total_claimed(findings@.take(i as int)) >= 0,
        decreases findings@.len() - i,
    {
        proof {
            assert(findings@.take(i + 1).drop_last() =~= findings@.take(i as int));
        }
        total = total.saturating_add(findings[i].reclaimable);
        i = i + 1;
    }
    proof {
        assert(findings@.take(findings@.len() as int) =~= findings@);
    }
    let mut s = String::from_str("Found ");
    write_decimal(&mut s, findings.len() as u64);
    s.append(" items totalling ");
    let bytes = human_bytes(total);
    s.append(bytes.as_str());
    s.append(" reclaimable. Top reasons: ");
    let n: usize = if findings.len() < 3 { findings.len() } else { 3 };
    let ghost head = s@;
    let mut parts: usize = 0;
    let mut k: usize = 0;
    while k < n
        invariant
            k <= n <= findings@.len(),
            parts == top_reasons(findings@, k as int).len(),
            parts <= k,
            s@ == head + joined(top_reasons(findings@, k as int)),
        decreases n - k,
    {
        let reasons = &findings[k].reasons;
        if reasons.len() > 0 {
            if parts > 0 {
                s.append("; ");
            }
            s.append(reasons[0].as_str());
            parts = parts + 1;
            proof {
                let prev = top_reasons(findings@, k as int);
                let next = top_reasons(findings@, k + 1);
                assert(next =~= prev.push(reasons@[0]@));
                assert(next.drop_last() =~= prev);
                if prev.len() == 0 {
                    assert(joined(next) == next[0]);
                }
            }
        }
        assert(s@ =~= head + joined(top_reasons(findings@, k + 1)));
        k = k + 1;
    }
    assert(s@ =~= template_text(findings@));
    s
}

/// Always-available fallback: deterministic template narration.
pub struct TemplateNarrator;

impl AiProvider for TemplateNarrator {
    fn narrate(&self, findings: &[Finding]) -> (r: Result<String, AiError>)
        ensures
            r matches Ok(s) && s@ == template_text(findings@),
    {
        Ok(template_narration(findings))
    }
}

} // verus!
