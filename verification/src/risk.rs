//! Evidence-based risk scoring. Local, deterministic, explainable.
//!
//! The score is shown to the user; the verdict alone decides actions.
//! Evidence can only make a verdict MORE cautious, never less.
use vstd::prelude::*;
use crate::text::{signed_decimal, write_signed};
use crate::{caution, FileEntry, Verdict};

verus! {

/// Seconds in a day.
pub const SECONDS_PER_DAY: i64 = 86_400;

/// `x / d` rounded toward zero, as integer division does on machine integers.
pub open spec fn div_toward_zero(x: int, d: int) -> int {
    if x >= 0 {
        x / d
    } else {
        -((-x) / d)
    }
}

/// Whole days between an access time and `now`, if there is an access time.
pub open spec fn spec_days_since_access(accessed: Option<i64>, now: i64) -> Option<int> {
    match accessed {
        Some(a) => Some(div_toward_zero(now - a, SECONDS_PER_DAY as int)),
        None => None,
    }
}

/// Days since last access, if the platform reports atime.
fn days_since_access(entry: &FileEntry, now: i64) -> (r: Option<i64>)
    ensures
        r matches Some(d) ==> spec_days_since_access(entry.accessed, now) == Some(d as int),
        r is None <==> entry.accessed is None,
{
    match entry.accessed {
        Some(a) => {
            let diff: i128 = now as i128 - a as i128;
            let days: i128 = if diff >= 0 {
                diff / 86_400
            } else {
                -((-diff) / 86_400)
            };
            Some(days as i64)
        },
        None => None,
    }
}

/// The score a verdict starts from, in hundredths.
pub open spec fn base_score(v: Verdict) -> int {
    match v {
        Verdict::Safe => 90,
        Verdict::Review => 50,
        Verdict::Risky => 20,
        Verdict::Protected => 0,
    }
}

/// The final score, in hundredths: long-untouched files score a little
/// higher (capped at 100), recently used ones clearly lower (floored at 0).
pub open spec fn spec_score(v: Verdict, days: Option<int>) -> int {
    match days {
        Some(d) => if d > 180 {
            if base_score(v) + 5 > 100 { 100 } else { base_score(v) + 5 }
        } else if d < 7 {
            if base_score(v) - 20 < 0 { 0 } else { base_score(v) - 20 }
        } else {
            base_score(v)
        },
        None => base_score(v),
    }
}

/// The evidence behind the score.
pub open spec fn spec_risk_reasons(days: Option<int>) -> Seq<Seq<char>> {
    match days {
        Some(d) => if d > 180 {
            seq!["not accessed in "@ + signed_decimal(d) + " days"@]
        } else if d < 7 {
            seq!["accessed "@ + signed_decimal(d) + " day(s) ago — recently in use"@]
        } else {
            seq![]
        },
        None => seq![],
    }
}

/// The result of [`assess`].
pub struct RiskAssessment {
    /// Removability in hundredths: 0 = definitely keep, 100 = definitely removable.
    pub score: u8,
    pub reasons: Vec<String>,
}

/// The views of a list of strings.
pub open spec fn views(v: Seq<String>) -> Seq<Seq<char>> {
    v.map_values(|s: String| s@)
}

/// Scores an entry from its base verdict and its last access time.
pub fn assess(entry: &FileEntry, base_verdict: Verdict, now: i64) -> (r: RiskAssessment)
    ensures
        r.score as int == spec_score(base_verdict, spec_days_since_access(entry.accessed, now)),
        views(r.reasons@) == spec_risk_reasons(spec_days_since_access(entry.accessed, now)),
{
    let mut score: u8 = match base_verdict {
        Verdict::Safe => 90,
        Verdict::Review => 50,
        Verdict::Risky => 20,
        Verdict::Protected => 0,
    };
    let mut reasons: Vec<String> = Vec::new();
    let days = days_since_access(entry, now);
    if let Some(days) = days {
        if days > 180 {
            score = if score + 5 > 100 { 100 } else { score + 5 };
            let mut reason = String::from_str("not accessed in ");
            write_signed(&mut reason, days);
            reason.append(" days");
            reasons.push(reason);
        } else if days < 7 {
            score = if score < 20 { 0 } else { score - 20 };
            let mut reason = String::from_str("accessed ");
            write_signed(&mut reason, days);
            reason.append(" day(s) ago — recently in use");
            reasons.push(reason);
        }
    }
    proof {
        assert(views(reasons@) =~= spec_risk_reasons(spec_days_since_access(entry.accessed, now)));
    }
    RiskAssessment { score, reasons }
}

/// A verdict once projects are known to reference the file: one step
/// more cautious, except that `Risky` and `Protected` stay as they are.
pub open spec fn spec_downgrade(verdict: Verdict, referenced_by: nat) -> Verdict {
    if referenced_by == 0 {
        verdict
    } else {
        match verdict {
            Verdict::Safe => Verdict::Review,
            Verdict::Review => Verdict::Risky,
            v => v,
        }
    }
}

/// Verdicts can only be downgraded (made more cautious) by evidence.
pub fn downgrade(verdict: Verdict, referenced_by: usize) -> (r: Verdict)
    ensures
        r == spec_downgrade(verdict, referenced_by as nat),
        // Evidence never makes a verdict less cautious ...
        caution(r) >= caution(verdict),
        // ... and moves it at most one step.
        caution(r) <= caution(verdict) + 1,
        // Protected is final.
        verdict == Verdict::Protected ==> r == Verdict::Protected,
        // No evidence, no change.
        referenced_by == 0 ==> r == verdict,
{
    match (verdict, referenced_by) {
        (Verdict::Protected, _) => Verdict::Protected,
        (v, 0) => v,
        (Verdict::Safe, _) => Verdict::Review,
        (Verdict::Review, _) => Verdict::Risky,
        (v, _) => v,
    }
}

/// More references never make a verdict less cautious. The verdict a
/// file gets from `n` referencing projects is at least as cautious as the
/// one it gets from any smaller count.
pub proof fn lemma_downgrade_monotonic(verdict: Verdict, fewer: nat, more: nat)
    requires
        fewer <= more,
    ensures
        caution(spec_downgrade(verdict, fewer)) <= caution(spec_downgrade(verdict, more)),
{
}

/// Downgrading twice is downgrading once at most one more step, and a
/// verdict that already reached `Risky` or `Protected` is a fixed point.
pub proof fn lemma_downgrade_fixed_points(verdict: Verdict, n: nat)
    requires
        verdict == Verdict::Risky || verdict == Verdict::Protected,
    ensures
        spec_downgrade(verdict, n) == verdict,
{
}

} // verus!
