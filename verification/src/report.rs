//! Assembles dedup + graph + rules + risk into Findings — the single
//! structure both the CLI and the desktop UI render.
use vstd::prelude::*;
use vstd::std_specs::hash::group_hash_axioms;
use std::collections::HashSet;
use std::sync::atomic::AtomicBool;
use crate::hash_log::HashLog;
use crate::dedup::{distinct_files, all_true, are_duplicate_sets, as_ints, duplicates_among, hashed_from, ordered_groups, DuplicateSet};
use crate::graph::{entry_paths, references_to, spec_links, ImpactGraph, MAX_ENTRIES};
use crate::risk::{assess, spec_days_since_access, spec_downgrade, spec_risk_reasons, spec_score, views};
use crate::rules::{Rule, RulesDb};
use crate::paths::{PathTable, NO_ENTRY};
use crate::text::{chars_of, decimal, write_decimal};
use crate::{caution, identity_key, key_of, spec_actionable, stop_requested, Category, FileEntry, FileIdentity, Finding, Verdict};

verus! {

broadcast use group_hash_axioms;

/// The coarse phases of [`build_with_progress`], in the order they run.
#[derive(Clone, Copy, Debug, PartialEq, Eq, Structural)]
pub enum ReportStage {
    BuildingImpactGraph,
    ClassifyingEntries,
    FindingDuplicates,
    PreparingFindings,
}

/// Knobs for [`build_with`] that are about the report, not the walk.
#[derive(Clone, Debug)]
pub struct ReportOptions {
    /// Files strictly smaller than this take no part in duplicate
    /// detection. They are still classified, counted and reported.
    pub dedup_min_size: u64,
}

impl Default for ReportOptions {
    /// 1, not 0: a zero-byte file is identical to every other zero-byte
    /// file, so a floor of 0 makes one enormous duplicate set worth
    /// nothing. Empty files still reach the report as findings.
    fn default() -> (r: Self)
        ensures
            r.dedup_min_size == 1,
    {
        ReportOptions { dedup_min_size: 1 }
    }
}

#[derive(Clone, Debug)]
pub struct Report {
    pub findings: Vec<Finding>,
    pub duplicate_sets: Vec<DuplicateSet>,
    pub total_reclaimable: u64,
    pub files_scanned: u64,
}

/// Whether anything will ever offer to move a file with this verdict.
///
/// Quarantine refuses `Protected` and `Risky`, and the UI renders no
/// action for either. One definition, used in both places it matters:
/// what counts towards the reclaimable headline, and what takes part in
/// dedup.
pub fn is_actionable(verdict: Verdict) -> (b: bool)
    ensures
        b == spec_actionable(verdict),
{
    match verdict {
        Verdict::Safe | Verdict::Review => true,
        Verdict::Risky | Verdict::Protected => false,
    }
}

// ---------------------------------------------------------------------------
// Hard links: one file, several names, counted once

/// The identities whose bytes some finding has already claimed.
pub struct CountedIdentities {
    seen: HashSet<u128>,
}

impl CountedIdentities {
    /// The numbers of the identities counted so far (see [`identity_key`]).
    pub closed spec fn view(&self) -> Set<u128> {
        self.seen@
    }

    /// Nothing counted yet.
    pub fn new() -> (c: CountedIdentities)
        ensures
            c@ == Set::<u128>::empty(),
    {
        CountedIdentities { seen: HashSet::new() }
    }

    /// Counts `id`; true when it had not been counted before.
    fn claim(&mut self, id: FileIdentity) -> (fresh: bool)
        ensures
            final(self)@ == old(self)@.insert(identity_key(id)),
            fresh == !old(self)@.contains(identity_key(id)),
    {
        let k = key_of(id);
        self.seen.insert(k)
    }
}

/// Bytes a finding offers: none when nothing will act on it, none when a
/// finding before it already claimed the same file under another name,
/// and its size otherwise.
pub open spec fn reclaim(entry: FileEntry, verdict: Verdict, seen: Set<u128>) -> u64 {
    if !spec_actionable(verdict) {
        0
    } else {
        match entry.identity {
            Some(id) => if seen.contains(identity_key(id)) {
                0
            } else {
                entry.size
            },
            None => entry.size,
        }
    }
}

/// The identities counted once a finding for `entry` has been made.
pub open spec fn seen_after(entry: FileEntry, verdict: Verdict, seen: Set<u128>) -> Set<u128> {
    if spec_actionable(verdict) && entry.identity is Some {
        seen.insert(identity_key(entry.identity->0))
    } else {
        seen
    }
}

fn finding_reclaimable(entry: &FileEntry, verdict: Verdict, counted: &mut CountedIdentities) -> (r: u64)
    ensures
        r == reclaim(*entry, verdict, old(counted)@),
        final(counted)@ == seen_after(*entry, verdict, old(counted)@),
{
    // Bytes nothing will ever offer to move are not reclaimable.
    if !is_actionable(verdict) {
        return 0;
    }
    // Moving one hard-link name does not free the file's blocks. Count the
    // shared bytes once across all findings that point at the same file.
    match entry.identity {
        Some(id) => {
            if counted.claim(id) {
                entry.size
            } else {
                0
            }
        },
        None => entry.size,
    }
}

// ---------------------------------------------------------------------------
// Reasons

/// "matched rule {id}: {description}"
pub open spec fn rule_reason(rule: Rule) -> Seq<char> {
    "matched rule "@ + rule.id@ + ": "@ + rule.description@
}

/// The rule evidence for `path`: the deciding rule's reason, if one fires.
pub open spec fn rule_reasons(rules: RulesDb, path: Seq<char>) -> Seq<Seq<char>> {
    match rules.deciding_rule(path) {
        Some(i) => seq![rule_reason(rules.rule_list()[i])],
        None => seq![],
    }
}

/// "referenced by {n} project" / "... projects"
pub open spec fn reference_reason(n: nat) -> Seq<char> {
    "referenced by "@ + decimal(n) + " project"@ + if n == 1 {
        ""@
    } else {
        "s"@
    }
}

/// The graph evidence: a reason when anything references the path.
pub open spec fn reference_reasons(n: nat) -> Seq<Seq<char>> {
    if n > 0 {
        seq![reference_reason(n)]
    } else {
        seq![]
    }
}

/// What marks a finding made before the whole disk has been seen.
pub open spec fn preview_reason() -> Seq<char> {
    "preview while scanning; final safety check still running"@
}

fn rule_reason_string(rule: &Rule) -> (s: String)
    ensures
        s@ == rule_reason(*rule),
{
    let mut s = String::from_str("matched rule ");
    s.append(rule.id.as_str());
    s.append(": ");
    s.append(rule.description.as_str());
    s
}

fn reference_reason_string(n: usize) -> (s: String)
    ensures
        s@ == reference_reason(n as nat),
{
    let mut s = String::from_str("referenced by ");
    write_decimal(&mut s, n as u64);
    s.append(" project");
    if n != 1 {
        s.append("s");
    }
    proof {
        reveal_strlit("");
    }
    assert(s@ =~= reference_reason(n as nat));
    s
}

// ---------------------------------------------------------------------------
// One finding

/// `f` is the finding for an entry whose verdict `verdict` came from the
/// rules' classification `(cat, _)`, with `extra` as the evidence between
/// the rule's reason and the risk model's.
pub open spec fn finding_is(
    f: Finding,
    entry: FileEntry,
    rules: RulesDb,
    verdict: Verdict,
    extra: Seq<Seq<char>>,
    now: i64,
    seen: Set<u128>,
) -> bool {
    let days = spec_days_since_access(entry.accessed, now);
    &&& f.entry == entry
    &&& f.category == rules.spec_classify(entry.path@).0
    &&& f.verdict == verdict
    &&& f.risk_score == spec_score(verdict, days)
    &&& views(f.reasons@) == rule_reasons(rules, entry.path@) + extra + spec_risk_reasons(days)
    &&& f.reclaimable == reclaim(entry, verdict, seen)
}

/// The reasons list: rule evidence, then `extra`, then the risk model's.
fn reasons_for(rule: Option<&Rule>, extra: Option<String>, risk: Vec<String>) -> (r: Vec<String>)
    ensures
        views(r@) == (match rule {
            Some(x) => seq![rule_reason(*x)],
            None => Seq::<Seq<char>>::empty(),
        }) + (match extra {
            Some(s) => seq![s@],
            None => Seq::<Seq<char>>::empty(),
        }) + views(risk@),
{
    let mut reasons: Vec<String> = Vec::new();
    match rule {
        Some(x) => reasons.push(rule_reason_string(x)),
        None => {},
    }
    match extra {
        Some(s) => reasons.push(s),
        None => {},
    }
    let ghost head = reasons@;
    let mut i: usize = 0;
    while i < risk.len()
        invariant
            i <= risk@.len(),
            reasons@ == head + risk@.take(i as int),
        decreases risk@.len() - i,
    {
        reasons.push(risk[i].clone());
        proof {
            assert(risk@.take(i + 1) =~= risk@.take(i as int).push(risk@[i as int]));
        }
        i = i + 1;
    }
    proof {
        assert(risk@.take(risk@.len() as int) =~= risk@);
        assert(views(reasons@) =~= (match rule {
            Some(x) => seq![rule_reason(*x)],
            None => Seq::<Seq<char>>::empty(),
        }) + (match extra {
            Some(s) => seq![s@],
            None => Seq::<Seq<char>>::empty(),
        }) + views(risk@));
    }
    reasons
}

/// Build the provisional row the UI may show while the filesystem walk is
/// still running.
///
/// This uses only what is known during the walk: the matching rule and the
/// file metadata. It does not consult the impact graph or the duplicate
/// detector, so callers must present it as a preview and must not make it
/// actionable. The final report may make a verdict stricter or change the
/// reclaimable bytes once the whole disk has been seen.
pub fn provisional_finding(
    entry: &FileEntry,
    rules: &RulesDb,
    counted_identities: &mut CountedIdentities,
    now: i64,
) -> (r: Option<Finding>)
    requires
        rules.wf(),
    ensures
        r is None <==> rules.spec_classify(entry.path@).0 == Category::Unknown,
        r is None ==> final(counted_identities)@ == old(counted_identities)@,
        r matches Some(f) ==> finding_is(
            f,
            *entry,
            *rules,
            rules.spec_classify(entry.path@).1,
            seq![preview_reason()],
            now,
            old(counted_identities)@,
        ),
        r is Some ==> final(counted_identities)@ == seen_after(
            *entry,
            rules.spec_classify(entry.path@).1,
            old(counted_identities)@,
        ),
{
    let (category, verdict, rule) = rules.classify(entry.path.as_str());
    if category == Category::Unknown {
        return None;
    }
    let assessment = assess(entry, verdict, now);
    let reasons = reasons_for(
        rule,
        Some(String::from_str("preview while scanning; final safety check still running")),
        assessment.reasons,
    );
    let reclaimable = finding_reclaimable(entry, verdict, counted_identities);
    Some(Finding {
        entry: entry.duplicate(),
        category,
        verdict,
        risk_score: assessment.score,
        reasons,
        reclaimable,
    })
}

/// How many new preview findings make a batch worth sending to the UI.
pub const PREVIEW_BATCH: usize = 25;

/// The provisional findings a running scan shows before its report is
/// ready, with the bytes they offer, capped at `u64::MAX`.
///
/// A scan can find many files per second, so the UI is sent the preview
/// in batches of [`PREVIEW_BATCH`] findings, and once more when the walk
/// ends, rather than once per file.
pub struct ScanPreview {
    pub counted: CountedIdentities,
    pub findings: Vec<Finding>,
    pub total_reclaimable: u64,
}

impl ScanPreview {
    /// The identities whose bytes the preview has counted.
    pub open spec fn counted(&self) -> Set<u128> {
        self.counted@
    }

    /// Nothing seen yet.
    pub fn new() -> (p: ScanPreview)
        ensures
            p.findings@.len() == 0,
            p.total_reclaimable == 0,
            p.counted() == Set::<u128>::empty(),
    {
        ScanPreview { counted: CountedIdentities::new(), findings: Vec::new(), total_reclaimable: 0 }
    }

    /// Offer one walked entry. An entry no rule knows leaves the preview
    /// as it was; any other adds its [`provisional_finding`]. Returns
    /// whether a batch is due: the entry added a finding and the number
    /// of findings is a multiple of [`PREVIEW_BATCH`].
    pub fn offer(&mut self, entry: &FileEntry, rules: &RulesDb, now: i64) -> (due: bool)
        requires
            rules.wf(),
        ensures
            rules.spec_classify(entry.path@).0 == Category::Unknown ==> {
                &&& final(self).findings@ == old(self).findings@
                &&& final(self).total_reclaimable == old(self).total_reclaimable
                &&& final(self).counted() == old(self).counted()
                &&& !due
            },
            rules.spec_classify(entry.path@).0 != Category::Unknown ==> {
                let f = final(self).findings@.last();
                &&& final(self).findings@.len() == old(self).findings@.len() + 1
                &&& final(self).findings@.drop_last() == old(self).findings@
                &&& finding_is(
                    f,
                    *entry,
                    *rules,
                    rules.spec_classify(entry.path@).1,
                    seq![preview_reason()],
                    now,
                    old(self).counted(),
                )
                &&& final(self).total_reclaimable == capped(old(self).total_reclaimable + f.reclaimable)
                &&& final(self).counted() == seen_after(
                    *entry,
                    rules.spec_classify(entry.path@).1,
                    old(self).counted(),
                )
                &&& due == (final(self).findings@.len() % (PREVIEW_BATCH as nat) == 0)
            },
    {
        match provisional_finding(entry, rules, &mut self.counted, now) {
            Some(finding) => {
                self.total_reclaimable = self.total_reclaimable.saturating_add(finding.reclaimable);
                self.findings.push(finding);
                self.findings.len() % PREVIEW_BATCH == 0
            },
            None => false,
        }
    }
}

// ---------------------------------------------------------------------------
// The headline number

/// The paths of the findings that claim bytes.
pub open spec fn counted_paths(fs: Seq<Finding>) -> Set<Seq<char>> {
    Set::new(
        |p: Seq<char>|
            exists|k: int| 0 <= k < fs.len() && fs[k].reclaimable > 0 && #[trigger] fs[k].entry.path@ == p,
    )
}

/// The bytes the findings claim, added up.
pub open spec fn sum_reclaimable(fs: Seq<Finding>) -> int
    decreases fs.len(),
{
    if fs.len() == 0 {
        0
    } else {
        sum_reclaimable(fs.drop_last()) + fs.last().reclaimable
    }
}

/// How many of `paths` are in `counted`.
pub open spec fn already_counted(paths: Seq<String>, counted: Set<Seq<char>>) -> int
    decreases paths.len(),
{
    if paths.len() == 0 {
        0
    } else {
        already_counted(paths.drop_last(), counted) + if counted.contains(paths.last()@) {
            1int
        } else {
            0int
        }
    }
}

/// The bytes a duplicate set adds to the headline: one copy always stays,
/// and copies a finding already claims are not counted again.
pub open spec fn extra_bytes(d: DuplicateSet, counted: Set<Seq<char>>) -> int {
    let redundant: int = if d.paths@.len() >= 1 { d.paths@.len() - 1 } else { 0 };
    let already = already_counted(d.paths@, counted);
    let uncounted: int = if redundant >= already { redundant - already } else { 0 };
    d.size * uncounted
}

pub open spec fn sum_extra(sets: Seq<DuplicateSet>, counted: Set<Seq<char>>) -> int
    decreases sets.len(),
{
    if sets.len() == 0 {
        0
    } else {
        sum_extra(sets.drop_last(), counted) + extra_bytes(sets.last(), counted)
    }
}

/// `t` as a `u64`, or `u64::MAX` where it does not fit.
pub open spec fn capped(t: int) -> u64 {
    if t > u64::MAX {
        u64::MAX
    } else {
        t as u64
    }
}

/// The reclaimable headline: the findings' bytes in full, plus the
/// redundant duplicate copies nobody has counted yet.
pub open spec fn spec_total(fs: Seq<Finding>, sets: Seq<DuplicateSet>) -> u64 {
    capped(sum_reclaimable(fs) + sum_extra(sets, counted_paths(fs)))
}

proof fn lemma_capped_add(s: int, t: int)
    requires
        s >= 0,
        t >= 0,
    ensures
        capped(capped(s) + capped(t)) == capped(s + t),
{
}

proof fn lemma_extra_nonneg(d: DuplicateSet, counted: Set<Seq<char>>)
    ensures
        extra_bytes(d, counted) >= 0,
{
    let redundant: int = if d.paths@.len() >= 1 { d.paths@.len() - 1 } else { 0 };
    let already = already_counted(d.paths@, counted);
    let uncounted: int = if redundant >= already { redundant - already } else { 0 };
    assert(d.size * uncounted >= 0) by (nonlinear_arith)
        requires
            d.size >= 0,
            uncounted >= 0,
    ;
}

proof fn lemma_sums_nonneg(fs: Seq<Finding>, sets: Seq<DuplicateSet>, counted: Set<Seq<char>>)
    ensures
        sum_reclaimable(fs) >= 0,
        sum_extra(sets, counted) >= 0,
    decreases fs.len() + sets.len(),
{
    if fs.len() > 0 {
        lemma_sums_nonneg(fs.drop_last(), sets, counted);
    }
    if sets.len() > 0 {
        lemma_sums_nonneg(fs, sets.drop_last(), counted);
        lemma_extra_nonneg(sets.last(), counted);
    }
}

/// The duplicate set's contribution, computed.
fn set_extra(d: &DuplicateSet, counted: &PathTable, ghost_counted: Ghost<Set<Seq<char>>>) -> (e: u64)
    requires
        counted.wf(),
        forall|p: Seq<char>| counted.view().contains(p) <==> ghost_counted@.contains(p),
    ensures
        e == capped(extra_bytes(*d, ghost_counted@)),
{
    let mut already: usize = 0;
    let mut j: usize = 0;
    while j < d.paths.len()
        invariant
            counted.wf(),
            forall|p: Seq<char>| counted.view().contains(p) <==> ghost_counted@.contains(p),
            j <= d.paths@.len(),
            already == already_counted(d.paths@.take(j as int), ghost_counted@),
            already <= j,
        decreases d.paths@.len() - j,
    {
        let key = chars_of(d.paths[j].as_str());
        let hit = match counted.find(&key) {
            Some(i) => {
                assert(counted.view()[i as int] == key@);
                true
            },
            None => false,
        };
        proof {
            assert(d.paths@.take(j + 1).drop_last() =~= d.paths@.take(j as int));
            assert(hit == counted.view().contains(key@));
        }
        if hit {
            already = already + 1;
        }
        j = j + 1;
    }
    proof {
        assert(d.paths@.take(d.paths@.len() as int) =~= d.paths@);
    }
    let redundant: usize = if d.paths.len() >= 1 { d.paths.len() - 1 } else { 0 };
    let uncounted: usize = if redundant >= already { redundant - already } else { 0 };
    match d.size.checked_mul(uncounted as u64) {
        Some(e) => e,
        None => u64::MAX,
    }
}

/// The reclaimable headline of findings and duplicate sets.
///
/// The two halves of the report overlap, so they can't just be added: a
/// finding offers the file's own bytes, a duplicate set the copies beyond
/// the first, and a file is often both. So findings are counted in full,
/// and a duplicate set adds only the redundant copies nobody has counted.
pub fn total_reclaimable(findings: &Vec<Finding>, duplicate_sets: &Vec<DuplicateSet>) -> (t: u64)
    requires
        findings@.len() < NO_ENTRY - 1,
    ensures
        t == spec_total(findings@, duplicate_sets@),
{
    let ghost fs = findings@;
    let mut counted = PathTable::new();
    let mut from_findings: u64 = 0;
    let mut k: usize = 0;
    proof {
        assert(fs.take(0) =~= Seq::<Finding>::empty());
        assert forall|p: Seq<char>| counted.view().contains(p) <==> counted_paths(fs.take(0)).contains(p) by {}
    }
    while k < findings.len()
        invariant
            fs == findings@,
            fs.len() < NO_ENTRY - 1,
            k <= fs.len(),
            counted.wf(),
            counted.view().len() <= k,
            forall|p: Seq<char>| counted.view().contains(p) <==> counted_paths(fs.take(k as int)).contains(p),
            from_findings == capped(sum_reclaimable(fs.take(k as int))),
        decreases fs.len() - k,
    {
        let ghost before = counted.view();
        let f = &findings[k];
        let ghost fk = fs[k as int];
        if f.reclaimable > 0 {
            let key = chars_of(f.entry.path.as_str());
            counted.insert(key);
        }
        proof {
            let t0 = fs.take(k as int);
            let t1 = fs.take(k + 1);
            assert(t1.drop_last() =~= t0);
            assert forall|p: Seq<char>| counted.view().contains(p) <==> counted_paths(t1).contains(p) by {
                if counted_paths(t1).contains(p) {
                    let x = choose|x: int| 0 <= x < t1.len() && t1[x].reclaimable > 0 && #[trigger] t1[x].entry.path@ == p;
                    if x < k {
                        assert(t0[x] == t1[x]);
                        assert(counted_paths(t0).contains(p));
                        assert(before.contains(p));
                        let y = choose|y: int| 0 <= y < before.len() && before[y] == p;
                        assert(counted.view().contains(before[y])) by {
                            if fk.reclaimable > 0 && !(counted.view() == before) {
                                assert(counted.view()[y] == before[y]);
                            }
                        }
                    } else {
                        assert(x == k);
                        let last = (counted.view().len() - 1) as int;
                        if !(counted.view() == before) {
                            assert(counted.view()[last] == p);
                        } else {
                            assert(exists|i: int| 0 <= i < before.len() && before[i] == p);
                        }
                    }
                }
                if counted.view().contains(p) {
                    let y = choose|y: int| 0 <= y < counted.view().len() && counted.view()[y] == p;
                    if y < before.len() {
                        if fk.reclaimable > 0 && !(counted.view() == before) {
                            assert(counted.view()[y] == before[y]);
                        }
                        assert(before.contains(p));
                        assert(counted_paths(t0).contains(p));
                        let x = choose|x: int| 0 <= x < t0.len() && t0[x].reclaimable > 0 && #[trigger] t0[x].entry.path@ == p;
                        assert(t1[x] == t0[x]);
                    } else {
                        assert(t1[k as int] == fk);
                        assert(t1[k as int].entry.path@ == p);
                    }
                }
            }
            lemma_sums_nonneg(t0, Seq::<DuplicateSet>::empty(), Set::<Seq<char>>::empty());
            lemma_capped_add(sum_reclaimable(t0), fk.reclaimable as int);
        }
        from_findings = from_findings.saturating_add(f.reclaimable);
        k = k + 1;
    }
    proof {
        assert(fs.take(fs.len() as int) =~= fs);
    }
    let ghost cp = counted_paths(fs);
    let ghost sets = duplicate_sets@;
    let mut total: u64 = from_findings;
    let mut j: usize = 0;
    proof {
        assert(sets.take(0) =~= Seq::<DuplicateSet>::empty());
    }
    while j < duplicate_sets.len()
        invariant
            sets == duplicate_sets@,
            j <= sets.len(),
            counted.wf(),
            forall|p: Seq<char>| counted.view().contains(p) <==> cp.contains(p),
            total == capped(sum_reclaimable(fs) + sum_extra(sets.take(j as int), cp)),
        decreases sets.len() - j,
    {
        let e = set_extra(&duplicate_sets[j], &counted, Ghost(cp));
        proof {
            let t0 = sets.take(j as int);
            let t1 = sets.take(j + 1);
            assert(t1.drop_last() =~= t0);
            assert(t1.last() == sets[j as int]);
            lemma_sums_nonneg(fs, t0, cp);
            lemma_extra_nonneg(sets[j as int], cp);
            lemma_capped_add(sum_reclaimable(fs) + sum_extra(t0, cp), extra_bytes(sets[j as int], cp));
        }
        total = total.saturating_add(e);
        j = j + 1;
    }
    proof {
        assert(sets.take(sets.len() as int) =~= sets);
    }
    total
}

// ---------------------------------------------------------------------------
// The pipeline's model

/// The verdict the pipeline gives `path`: the rules' verdict, made more
/// cautious by the projects that reference it.
pub open spec fn final_verdict(rules: RulesDb, links: Seq<(Seq<char>, Seq<char>)>, path: Seq<char>) -> Verdict {
    spec_downgrade(rules.spec_classify(path).1, references_to(links, path))
}

/// Which entries take part in duplicate detection: those at least
/// `min_size` bytes long that something will offer to act on.
pub open spec fn dedup_eligible(es: Seq<FileEntry>, rules: RulesDb, links: Seq<(Seq<char>, Seq<char>)>, min_size: u64) -> Seq<bool> {
    Seq::new(
        es.len(),
        |i: int| es[i].size >= min_size && spec_actionable(final_verdict(rules, links, es[i].path@)),
    )
}

/// Unknown, unremarkable files are not findings.
pub open spec fn is_finding(rules: RulesDb, path: Seq<char>) -> bool {
    rules.spec_classify(path).0 != Category::Unknown
}

/// The identities the findings among the first `i` entries have claimed.
pub open spec fn seen_before(es: Seq<FileEntry>, rules: RulesDb, links: Seq<(Seq<char>, Seq<char>)>, i: int) -> Set<u128>
    decreases i,
{
    if i <= 0 {
        Set::empty()
    } else {
        let prev = seen_before(es, rules, links, i - 1);
        let e = es[i - 1];
        if is_finding(rules, e.path@) {
            seen_after(e, final_verdict(rules, links, e.path@), prev)
        } else {
            prev
        }
    }
}

/// The positions of the entries among the first `n` that become findings.
pub open spec fn finding_positions(es: Seq<FileEntry>, rules: RulesDb, n: int) -> Seq<int>
    decreases n,
{
    if n <= 0 {
        seq![]
    } else {
        finding_positions(es, rules, n - 1) + if is_finding(rules, es[n - 1].path@) {
            seq![n - 1]
        } else {
            seq![]
        }
    }
}

/// `f` is the finding for entry `i`.
pub open spec fn finding_for(f: Finding, es: Seq<FileEntry>, i: int, rules: RulesDb, links: Seq<(Seq<char>, Seq<char>)>, now: i64) -> bool {
    finding_is(
        f,
        es[i],
        rules,
        final_verdict(rules, links, es[i].path@),
        reference_reasons(references_to(links, es[i].path@)),
        now,
        seen_before(es, rules, links, i),
    )
}

/// `fs` holds the findings of `es`, the `k`-th being the finding of the
/// `pi[k]`-th entry that is one: every such entry exactly once, biggest
/// reclaimable first, ties in entry order.
pub open spec fn arranged(fs: Seq<Finding>, pi: Seq<int>, es: Seq<FileEntry>, rules: RulesDb, links: Seq<(Seq<char>, Seq<char>)>, now: i64) -> bool {
    let pos = finding_positions(es, rules, es.len() as int);
    &&& pi.len() == pos.len()
    &&& fs.len() == pos.len()
    &&& forall|k: int| 0 <= k < pi.len() ==> 0 <= #[trigger] pi[k] < pos.len()
    &&& forall|a: int, b: int| 0 <= a < b < pi.len() ==> #[trigger] pi[a] != #[trigger] pi[b]
    &&& forall|k: int| 0 <= k < fs.len() ==> finding_for(#[trigger] fs[k], es, pos[pi[k]], rules, links, now)
    &&& forall|a: int, b: int|
        0 <= a < b < fs.len() ==> (#[trigger] fs[a]).reclaimable > (#[trigger] fs[b]).reclaimable || (
        fs[a].reclaimable == fs[b].reclaimable && pi[a] < pi[b])
}

/// `rep` is the report of `es`, given the entries `after` once duplicate
/// detection has recorded its hashes. Project references are the links
/// the entries imply ([`spec_links`]); verdicts, eligibility for dedup,
/// findings, their order and the headline all follow from them.
pub open spec fn report_from(
    rep: Report,
    es: Seq<FileEntry>,
    after: Seq<FileEntry>,
    rules: RulesDb,
    min_size: u64,
    now: i64,
) -> bool {
    let links = spec_links(entry_paths(es));
    let elig = distinct_files(es, dedup_eligible(es, rules, links, min_size));
    &&& hashed_from(after, es, elig)
    &&& are_duplicate_sets(rep.duplicate_sets@, after, elig)
    &&& rep.files_scanned == es.len()
    &&& exists|pi: Seq<int>| #[trigger] arranged(rep.findings@, pi, after, rules, links, now)
    &&& rep.total_reclaimable == spec_total(rep.findings@, rep.duplicate_sets@)
}

/// `rep` is the report of the entries `es` at time `now`, for the entries
/// as duplicate detection left them (see [`report_from`]).
pub open spec fn is_report_of(rep: Report, es: Seq<FileEntry>, rules: RulesDb, min_size: u64, now: i64) -> bool {
    exists|after: Seq<FileEntry>| #[trigger] report_from(rep, es, after, rules, min_size, now)
}

// ---------------------------------------------------------------------------
// Progress

/// Where the pipeline reports the stage it has reached.
pub trait ProgressSink {
    fn stage(&mut self, stage: ReportStage);
}

/// A sink that keeps the stages it is told, in order.
impl ProgressSink for Vec<ReportStage> {
    fn stage(&mut self, stage: ReportStage)
        ensures
            final(self)@ == old(self)@.push(stage),
    {
        self.push(stage);
    }
}

/// A progress sink together with the record of every stage it was told.
pub struct StageLog<S> {
    pub sink: S,
    seen: Ghost<Seq<ReportStage>>,
}

impl<S: ProgressSink> StageLog<S> {
    /// The stages reported so far, in order.
    pub closed spec fn stages_seen(&self) -> Seq<ReportStage> {
        self.seen@
    }

    /// `sink`, told nothing yet.
    pub fn new(sink: S) -> (l: StageLog<S>)
        ensures
            l.stages_seen() == Seq::<ReportStage>::empty(),
    {
        StageLog { sink, seen: Ghost(Seq::empty()) }
    }

    /// Tell the sink the pipeline reached `stage`.
    pub fn stage(&mut self, stage: ReportStage)
        ensures
            final(self).stages_seen() == old(self).stages_seen().push(stage),
    {
        self.sink.stage(stage);
        proof {
            self.seen@ = self.seen@.push(stage);
        }
    }
}

/// The stages of a complete run, in order.
pub open spec fn all_stages() -> Seq<ReportStage> {
    seq![
        ReportStage::BuildingImpactGraph,
        ReportStage::ClassifyingEntries,
        ReportStage::FindingDuplicates,
        ReportStage::PreparingFindings,
    ]
}

// ---------------------------------------------------------------------------
// The stages

/// What the pipeline worked out about one entry before findings are built.
struct Classified<'a> {
    category: Category,
    /// After the graph's evidence, not the rule's base verdict.
    verdict: Verdict,
    rule: Option<&'a Rule>,
    referenced_by: usize,
}

spec fn classified_as(c: Classified, rules: RulesDb, links: Seq<(Seq<char>, Seq<char>)>, path: Seq<char>) -> bool {
    &&& c.category == rules.spec_classify(path).0
    &&& c.verdict == final_verdict(rules, links, path)
    &&& c.referenced_by == references_to(links, path)
    &&& (c.rule is Some <==> rules.deciding_rule(path) is Some)
    &&& (c.rule matches Some(r) ==> *r == rules.rule_list()[rules.deciding_rule(path)->0])
}

fn classify_entries<'a>(
    entries: &Vec<FileEntry>,
    rules: &'a RulesDb,
    impact: &ImpactGraph,
    cancelled: Option<&AtomicBool>,
) -> (r: Option<Vec<Classified<'a>>>)
    requires
        rules.wf(),
        impact.wf(),
        impact.sources_are_projects(),
        impact.nodes_are_linked(),
    ensures
        cancelled is None ==> r is Some,
        r matches Some(cs) ==> cs@.len() == entries@.len() && forall|i: int|
            0 <= i < entries@.len() ==> classified_as(#[trigger] cs@[i], *rules, impact.links(), entries@[i].path@),
{
    let mut out: Vec<Classified<'a>> = Vec::new();
    let mut i: usize = 0;
    while i < entries.len()
        invariant
            rules.wf(),
            impact.wf(),
            impact.sources_are_projects(),
            impact.nodes_are_linked(),
            i <= entries@.len(),
            out@.len() == i,
            forall|x: int| 0 <= x < i ==> classified_as(#[trigger] out@[x], *rules, impact.links(), entries@[x].path@),
        decreases entries@.len() - i,
    {
        if stop_requested(cancelled) {
            return None;
        }
        let path = entries[i].path.as_str();
        let (category, base, rule) = rules.classify(path);
        // Evidence can only make a verdict more cautious, never less.
        let referenced_by = impact.referencing_projects(path);
        proof {
            impact.lemma_referencing_from_links(path@);
        }
        let verdict = crate::risk::downgrade(base, referenced_by);
        out.push(Classified { category, verdict, rule, referenced_by });
        i = i + 1;
    }
    Some(out)
}

fn eligibility(entries: &Vec<FileEntry>, classes: &Vec<Classified>, min_size: u64, rules: &RulesDb, impact: &ImpactGraph) -> (v: Vec<bool>)
    requires
        classes@.len() == entries@.len(),
        forall|i: int|
            0 <= i < entries@.len() ==> classified_as(#[trigger] classes@[i], *rules, impact.links(), entries@[i].path@),
    ensures
        v@ == dedup_eligible(entries@, *rules, impact.links(), min_size),
{
    let mut v: Vec<bool> = Vec::new();
    let mut i: usize = 0;
    while i < entries.len()
        invariant
            i <= entries@.len(),
            classes@.len() == entries@.len(),
            forall|x: int|
                0 <= x < entries@.len() ==> classified_as(#[trigger] classes@[x], *rules, impact.links(), entries@[x].path@),
            v@ == dedup_eligible(entries@, *rules, impact.links(), min_size).take(i as int),
        decreases entries@.len() - i,
    {
        assert(classified_as(classes@[i as int], *rules, impact.links(), entries@[i as int].path@));
        v.push(entries[i].size >= min_size && is_actionable(classes[i].verdict));
        proof {
            assert(dedup_eligible(entries@, *rules, impact.links(), min_size).take(i + 1) =~= dedup_eligible(
                entries@,
                *rules,
                impact.links(),
                min_size,
            ).take(i as int).push(dedup_eligible(entries@, *rules, impact.links(), min_size)[i as int]));
        }
        i = i + 1;
    }
    proof {
        assert(dedup_eligible(entries@, *rules, impact.links(), min_size).take(entries@.len() as int) =~= dedup_eligible(
            entries@,
            *rules,
            impact.links(),
            min_size,
        ));
    }
    v
}

/// The positions of the findings, and the bytes each claims, in entry
/// order: hard-link names claim their file once, the first one seen.
fn claim_findings(
    entries: &Vec<FileEntry>,
    classes: &Vec<Classified>,
    rules: &RulesDb,
    impact: &ImpactGraph,
    cancelled: Option<&AtomicBool>,
) -> (r: Option<(Vec<usize>, Vec<u64>)>)
    requires
        classes@.len() == entries@.len(),
        forall|i: int|
            0 <= i < entries@.len() ==> classified_as(#[trigger] classes@[i], *rules, impact.links(), entries@[i].path@),
    ensures
        cancelled is None ==> r is Some,
        r matches Some(pr) ==> {
            &&& as_ints(pr.0@) == finding_positions(entries@, *rules, entries@.len() as int)
            &&& pr.1@.len() == pr.0@.len()
            &&& forall|k: int|
                0 <= k < pr.1@.len() ==> #[trigger] pr.1@[k] == reclaim(
                    entries@[pr.0@[k] as int],
                    final_verdict(*rules, impact.links(), entries@[pr.0@[k] as int].path@),
                    seen_before(entries@, *rules, impact.links(), pr.0@[k] as int),
                )
        },
{
    let mut counted = CountedIdentities::new();
    let mut pos: Vec<usize> = Vec::new();
    let mut recl: Vec<u64> = Vec::new();
    let mut i: usize = 0;
    while i < entries.len()
        invariant
            i <= entries@.len(),
            classes@.len() == entries@.len(),
            forall|x: int|
                0 <= x < entries@.len() ==> classified_as(#[trigger] classes@[x], *rules, impact.links(), entries@[x].path@),
            counted@ == seen_before(entries@, *rules, impact.links(), i as int),
            as_ints(pos@) == finding_positions(entries@, *rules, i as int),
            recl@.len() == pos@.len(),
            forall|k: int| 0 <= k < pos@.len() ==> #[trigger] pos@[k] < i,
            forall|k: int|
                0 <= k < recl@.len() ==> #[trigger] recl@[k] == reclaim(
                    entries@[pos@[k] as int],
                    final_verdict(*rules, impact.links(), entries@[pos@[k] as int].path@),
                    seen_before(entries@, *rules, impact.links(), pos@[k] as int),
                ),
        decreases entries@.len() - i,
    {
        if stop_requested(cancelled) {
            return None;
        }
        let c = &classes[i];
        assert(classified_as(classes@[i as int], *rules, impact.links(), entries@[i as int].path@));
        let ghost p0 = pos@;
        // Unknown + unremarkable files aren't findings; don't drown the user.
        if c.category != Category::Unknown {
            let r = finding_reclaimable(&entries[i], c.verdict, &mut counted);
            pos.push(i);
            recl.push(r);
            proof {
                assert(as_ints(pos@) =~= as_ints(p0).push(i as int));
            }
        }
        proof {
            assert forall|k: int| 0 <= k < pos@.len() implies #[trigger] pos@[k] < i + 1 by {
                if k < p0.len() {
                    assert(pos@[k] == p0[k]);
                }
            }
        }
        i = i + 1;
    }
    Some((pos, recl))
}

proof fn lemma_finding_positions(es: Seq<FileEntry>, rules: RulesDb, n: int)
    requires
        0 <= n <= es.len(),
    ensures
        forall|j: int|
            0 <= j < finding_positions(es, rules, n).len() ==> 0 <= #[trigger] finding_positions(es, rules, n)[j] < n
                && is_finding(rules, es[finding_positions(es, rules, n)[j]].path@),
        finding_positions(es, rules, n).len() <= n,
        forall|a: int, b: int|
            0 <= a < b < finding_positions(es, rules, n).len() ==> #[trigger] finding_positions(es, rules, n)[a]
                < #[trigger] finding_positions(es, rules, n)[b],
    decreases n,
{
    if n > 0 {
        lemma_finding_positions(es, rules, n - 1);
        let prev = finding_positions(es, rules, n - 1);
        assert forall|a: int, b: int|
            0 <= a < b < finding_positions(es, rules, n).len() implies #[trigger] finding_positions(es, rules, n)[a]
                < #[trigger] finding_positions(es, rules, n)[b] by {
            assert(finding_positions(es, rules, n)[a] == prev[a]);
            if b < prev.len() {
                assert(finding_positions(es, rules, n)[b] == prev[b]);
            }
        }
        assert forall|j: int| 0 <= j < finding_positions(es, rules, n).len() implies 0 <= #[trigger] finding_positions(es, rules, n)[j] < n
            && is_finding(rules, es[finding_positions(es, rules, n)[j]].path@) by {
            if j < prev.len() {
                assert(finding_positions(es, rules, n)[j] == prev[j]);
            }
        }
    }
}

/// The findings, in the order `order` gives their positions.
fn make_findings(
    entries: &Vec<FileEntry>,
    classes: &Vec<Classified>,
    rules: &RulesDb,
    impact: &ImpactGraph,
    pos: &Vec<usize>,
    recl: &Vec<u64>,
    order: &Vec<usize>,
    now: i64,
) -> (fs: Vec<Finding>)
    requires
        classes@.len() == entries@.len(),
        forall|i: int|
            0 <= i < entries@.len() ==> classified_as(#[trigger] classes@[i], *rules, impact.links(), entries@[i].path@),
        as_ints(pos@) == finding_positions(entries@, *rules, entries@.len() as int),
        recl@.len() == pos@.len(),
        forall|k: int|
            0 <= k < recl@.len() ==> #[trigger] recl@[k] == reclaim(
                entries@[pos@[k] as int],
                final_verdict(*rules, impact.links(), entries@[pos@[k] as int].path@),
                seen_before(entries@, *rules, impact.links(), pos@[k] as int),
            ),
        forall|k: int| 0 <= k < order@.len() ==> #[trigger] order@[k] < recl@.len(),
    ensures
        fs@.len() == order@.len(),
        forall|k: int|
            0 <= k < fs@.len() ==> finding_for(#[trigger] fs@[k], entries@, pos@[order@[k] as int] as int, *rules, impact.links(), now)
                && fs@[k].reclaimable == recl@[order@[k] as int],
{
    proof {
        lemma_finding_positions(entries@, *rules, entries@.len() as int);
        assert forall|k: int| 0 <= k < pos@.len() implies #[trigger] pos@[k] < entries@.len() by {
            assert(as_ints(pos@)[k] == pos@[k] as int);
        }
    }
    let mut fs: Vec<Finding> = Vec::new();
    let mut k: usize = 0;
    while k < order.len()
        invariant
            k <= order@.len(),
            fs@.len() == k,
            classes@.len() == entries@.len(),
            forall|i: int|
                0 <= i < entries@.len() ==> classified_as(#[trigger] classes@[i], *rules, impact.links(), entries@[i].path@),
            recl@.len() == pos@.len(),
            forall|x: int| 0 <= x < pos@.len() ==> #[trigger] pos@[x] < entries@.len(),
            forall|x: int|
                0 <= x < recl@.len() ==> #[trigger] recl@[x] == reclaim(
                    entries@[pos@[x] as int],
                    final_verdict(*rules, impact.links(), entries@[pos@[x] as int].path@),
                    seen_before(entries@, *rules, impact.links(), pos@[x] as int),
                ),
            forall|x: int| 0 <= x < order@.len() ==> #[trigger] order@[x] < recl@.len(),
            forall|x: int|
                0 <= x < k ==> finding_for(#[trigger] fs@[x], entries@, pos@[order@[x] as int] as int, *rules, impact.links(), now)
                    && fs@[x].reclaimable == recl@[order@[x] as int],
        decreases order@.len() - k,
    {
        let o = order[k];
        let p = pos[o];
        let c = &classes[p];
        assert(classified_as(classes@[p as int], *rules, impact.links(), entries@[p as int].path@));
        let entry = &entries[p];
        let assessment = assess(entry, c.verdict, now);
        let extra = if c.referenced_by > 0 {
            Some(reference_reason_string(c.referenced_by))
        } else {
            None
        };
        let reasons = reasons_for(c.rule, extra, assessment.reasons);
        let f = Finding {
            entry: entry.duplicate(),
            category: c.category,
            verdict: c.verdict,
            risk_score: assessment.score,
            reasons,
            reclaimable: recl[o],
        };
        proof {
            assert(recl@[o as int] == reclaim(
                entries@[pos@[o as int] as int],
                final_verdict(*rules, impact.links(), entries@[pos@[o as int] as int].path@),
                seen_before(entries@, *rules, impact.links(), pos@[o as int] as int),
            ));
            assert(finding_for(f, entries@, p as int, *rules, impact.links(), now));
        }
        fs.push(f);
        k = k + 1;
    }
    fs
}

// ---------------------------------------------------------------------------
// The pipeline

/// Seconds since the Unix epoch by the system clock
/// (`SystemTime::now().duration_since(UNIX_EPOCH)`, in whole seconds), or
/// 0 when the clock reads before the epoch. The reading is the machine's,
/// so nothing is stated of it.
#[verifier::external_body]
fn unix_now() -> i64 {
    match std::time::SystemTime::now().duration_since(std::time::UNIX_EPOCH) {
        Ok(d) => d.as_secs() as i64,
        Err(_) => 0,
    }
}

/// The pieces the stages produce make up the report they describe.
proof fn lemma_assembled(
    rep: Report,
    es0: Seq<FileEntry>,
    after: Seq<FileEntry>,
    rules: RulesDb,
    links: Seq<(Seq<char>, Seq<char>)>,
    min_size: u64,
    now: i64,
    pos: Seq<usize>,
    recl: Seq<u64>,
    order: Seq<usize>,
)
    requires
        links == spec_links(entry_paths(es0)),
        hashed_from(after, es0, distinct_files(es0, dedup_eligible(es0, rules, links, min_size))),
        are_duplicate_sets(rep.duplicate_sets@, after, distinct_files(es0, dedup_eligible(es0, rules, links, min_size))),
        rep.files_scanned == es0.len(),
        rep.total_reclaimable == spec_total(rep.findings@, rep.duplicate_sets@),
        as_ints(pos) == finding_positions(after, rules, after.len() as int),
        recl.len() == pos.len(),
        forall|k: int| 0 <= k < order.len() ==> #[trigger] order[k] < recl.len(),
        forall|i: int, j: int| 0 <= i < j < order.len() ==> #[trigger] order[i] != #[trigger] order[j],
        forall|i: int, j: int|
            0 <= i < j < order.len() ==> recl[#[trigger] order[i] as int] > recl[#[trigger] order[j] as int] || (
            recl[order[i] as int] == recl[order[j] as int] && order[i] < order[j]),
        order.len() == recl.len(),
        rep.findings@.len() == order.len(),
        forall|k: int|
            0 <= k < rep.findings@.len() ==> finding_for(#[trigger] rep.findings@[k], after, pos[order[k] as int] as int, rules, links, now)
                && rep.findings@[k].reclaimable == recl[order[k] as int],
    ensures
        report_from(rep, es0, after, rules, min_size, now),
        is_report_of(rep, es0, rules, min_size, now),
{
    let pi = as_ints(order);
    let pos_s = finding_positions(after, rules, after.len() as int);
    assert forall|k: int| 0 <= k < pi.len() implies 0 <= #[trigger] pi[k] < pos_s.len() by {
        assert(pi[k] == order[k] as int);
    }
    assert forall|a: int, b: int| 0 <= a < b < pi.len() implies #[trigger] pi[a] != #[trigger] pi[b] by {
        assert(order[a] != order[b]);
    }
    assert forall|k: int| 0 <= k < rep.findings@.len() implies finding_for(
        #[trigger] rep.findings@[k],
        after,
        pos_s[pi[k]],
        rules,
        links,
        now,
    ) by {
        assert(pi[k] == order[k] as int);
        assert(as_ints(pos)[order[k] as int] == pos[order[k] as int] as int);
    }
    assert forall|a: int, b: int| 0 <= a < b < rep.findings@.len() implies (#[trigger] rep.findings@[a]).reclaimable
        > (#[trigger] rep.findings@[b]).reclaimable || (rep.findings@[a].reclaimable
        == rep.findings@[b].reclaimable && pi[a] < pi[b]) by {
        assert(pi[a] == order[a] as int);
        assert(pi[b] == order[b] as int);
    }
    assert(arranged(rep.findings@, pi, after, rules, links, now));
}

/// The report of `entries_in` at the clock reading `now` (seconds since
/// the Unix epoch), stage by stage, abandoned as soon as `cancelled` is
/// set; with no flag it always completes.
#[verifier::rlimit(80)]
pub fn assemble<S: ProgressSink>(
    entries_in: Vec<FileEntry>,
    rules: &RulesDb,
    opts: &ReportOptions,
    cancelled: Option<&AtomicBool>,
    progress: &mut StageLog<S>,
    now: i64,
) -> (r: Option<Report>)
    requires
        rules.wf(),
        entries_in@.len() <= MAX_ENTRIES,
    ensures
        cancelled is None ==> r is Some,
        r matches Some(rep) ==> is_report_of(rep, entries_in@, *rules, opts.dedup_min_size, now),
        r is Some ==> final(progress).stages_seen() == old(progress).stages_seen() + all_stages(),
{
    let ghost es0 = entries_in@;
    let ghost seen0 = progress.stages_seen();
    let mut entries = entries_in;

    // The graph stage: project roots and the dependency stores they point
    // at, worked out from the same entries the rest of the pipeline sees.
    progress.stage(ReportStage::BuildingImpactGraph);
    if stop_requested(cancelled) {
        return None;
    }
    let impact = ImpactGraph::from_entries(&entries);

    // Classify before dedup: a file nothing will act on has no business
    // in a duplicate set, and hashing it is time spent producing a number
    // nobody can use.
    progress.stage(ReportStage::ClassifyingEntries);
    let classes = match classify_entries(&entries, rules, &impact, cancelled) {
        Some(c) => c,
        None => return None,
    };

    progress.stage(ReportStage::FindingDuplicates);
    let eligible = eligibility(&entries, &classes, opts.dedup_min_size, rules, &impact);
    let mut hashing = HashLog::new();
    let duplicate_sets = match duplicates_among(&mut entries, &eligible, cancelled, &mut hashing) {
        Some(d) => d,
        None => return None,
    };
    let files_scanned = entries.len() as u64;
    proof {
        assert forall|i: int| 0 <= i < entries@.len() implies classified_as(
            #[trigger] classes@[i],
            *rules,
            impact.links(),
            entries@[i].path@,
        ) by {
            assert(entries@[i].path == es0[i].path);
        }
    }

    progress.stage(ReportStage::PreparingFindings);
    let (pos, recl) = match claim_findings(&entries, &classes, rules, &impact, cancelled) {
        Some(pr) => pr,
        None => return None,
    };
    let everything = all_true(recl.len());
    let order = ordered_groups(&recl, &everything);
    let findings = make_findings(&entries, &classes, rules, &impact, &pos, &recl, &order, now);
    proof {
        lemma_finding_positions(entries@, *rules, entries@.len() as int);
        assert(as_ints(pos@).len() == pos@.len());
    }
    let total = total_reclaimable(&findings, &duplicate_sets);
    let rep = Report { findings, duplicate_sets, total_reclaimable: total, files_scanned };
    proof {
        lemma_assembled(rep, es0, entries@, *rules, impact.links(), opts.dedup_min_size, now, pos@, recl@, order@);
        assert(is_report_of(rep, es0, *rules, opts.dedup_min_size, now));
        assert(progress.stages_seen() =~= seen0 + all_stages());
    }
    Some(rep)
}

/// [`build_with_progress`] at a given time: `now` is the clock reading,
/// in seconds since the Unix epoch, that access ages are measured against.
pub fn build_at<S: ProgressSink>(
    entries: Vec<FileEntry>,
    rules: &RulesDb,
    opts: &ReportOptions,
    cancelled: &AtomicBool,
    progress: &mut StageLog<S>,
    now: i64,
) -> (r: Option<Report>)
    requires
        rules.wf(),
        entries@.len() <= MAX_ENTRIES,
    ensures
        r matches Some(rep) ==> is_report_of(rep, entries@, *rules, opts.dedup_min_size, now),
        r is Some ==> final(progress).stages_seen() == old(progress).stages_seen() + all_stages(),
{
    assemble(entries, rules, opts, Some(cancelled), progress, now)
}

/// [`build_with`] plus coarse stage reports for UI progress.
///
/// This is intentionally phase-level, not partial findings. The impact
/// graph must see every entry before it can make verdicts more cautious,
/// and dedup must see every actionable same-size file before it can say
/// which copies are redundant.
pub fn build_with_progress<S: ProgressSink>(
    entries: Vec<FileEntry>,
    rules: &RulesDb,
    opts: &ReportOptions,
    cancelled: &AtomicBool,
    progress: &mut StageLog<S>,
) -> (r: Option<Report>)
    requires
        rules.wf(),
        entries@.len() <= MAX_ENTRIES,
    ensures
        r matches Some(rep) ==> exists|now: i64| is_report_of(rep, entries@, *rules, opts.dedup_min_size, now),
        r is Some ==> final(progress).stages_seen() == old(progress).stages_seen() + all_stages(),
{
    let now = unix_now();
    assemble(entries, rules, opts, Some(cancelled), progress, now)
}

/// [`build_cancellable`] with the report knobs spelled out.
pub fn build_with(
    entries: Vec<FileEntry>,
    rules: &RulesDb,
    opts: &ReportOptions,
    cancelled: &AtomicBool,
) -> (r: Option<Report>)
    requires
        rules.wf(),
        entries@.len() <= MAX_ENTRIES,
    ensures
        r matches Some(rep) ==> exists|now: i64| is_report_of(rep, entries@, *rules, opts.dedup_min_size, now),
{
    let mut stages = StageLog::new(Vec::<ReportStage>::new());
    build_with_progress(entries, rules, opts, cancelled, &mut stages)
}

/// [`build`], abandoned as soon as `cancelled` is set. `None` means it
/// stopped early, so there is no report to show — not an error, just the
/// user's answer arriving before ours.
pub fn build_cancellable(entries: Vec<FileEntry>, rules: &RulesDb, cancelled: &AtomicBool) -> (r: Option<Report>)
    requires
        rules.wf(),
        entries@.len() <= MAX_ENTRIES,
    ensures
        r matches Some(rep) ==> exists|now: i64| is_report_of(rep, entries@, *rules, 1, now),
{
    build_with(entries, rules, &ReportOptions::default(), cancelled)
}

/// The report of `entries`, with the default knobs and no way to stop it.
pub fn build(entries: Vec<FileEntry>, rules: &RulesDb) -> (rep: Report)
    requires
        rules.wf(),
        entries@.len() <= MAX_ENTRIES,
    ensures
        exists|now: i64| is_report_of(rep, entries@, *rules, 1, now),
{
    let mut stages = StageLog::new(Vec::<ReportStage>::new());
    let now = unix_now();
    match assemble(entries, rules, &ReportOptions::default(), None, &mut stages, now) {
        Some(rep) => rep,
        None => Report { findings: Vec::new(), duplicate_sets: Vec::new(), total_reclaimable: 0, files_scanned: 0 },
    }
}

// ---------------------------------------------------------------------------
// Laws of the report

/// Nothing that will never be acted on is on offer: a finding whose
/// verdict is `Risky` or `Protected` claims no bytes.
pub proof fn lemma_unactionable_claims_nothing(
    rep: Report,
    es: Seq<FileEntry>,
    after: Seq<FileEntry>,
    rules: RulesDb,
    min_size: u64,
    now: i64,
)
    requires
        report_from(rep, es, after, rules, min_size, now),
    ensures
        forall|k: int|
            0 <= k < rep.findings@.len() && !spec_actionable(#[trigger] rep.findings@[k].verdict)
                ==> rep.findings@[k].reclaimable == 0,
{
    let links = spec_links(entry_paths(es));
    let pi = choose|pi: Seq<int>| #[trigger] arranged(rep.findings@, pi, after, rules, links, now);
    assert forall|k: int|
        0 <= k < rep.findings@.len() && !spec_actionable(#[trigger] rep.findings@[k].verdict) implies rep.findings@[k].reclaimable == 0 by {
        let pos = finding_positions(after, rules, after.len() as int);
        assert(finding_for(rep.findings@[k], after, pos[pi[k]], rules, links, now));
    }
}

/// Evidence only ever makes a finding more cautious than the rule that
/// classified it.
pub proof fn lemma_findings_no_less_cautious_than_rules(
    rep: Report,
    es: Seq<FileEntry>,
    after: Seq<FileEntry>,
    rules: RulesDb,
    min_size: u64,
    now: i64,
)
    requires
        report_from(rep, es, after, rules, min_size, now),
    ensures
        forall|k: int|
            0 <= k < rep.findings@.len() ==> caution(#[trigger] rep.findings@[k].verdict) >= caution(
                rules.spec_classify(rep.findings@[k].entry.path@).1,
            ) && rep.findings@[k].category != Category::Unknown,
{
    let links = spec_links(entry_paths(es));
    let pi = choose|pi: Seq<int>| #[trigger] arranged(rep.findings@, pi, after, rules, links, now);
    let pos = finding_positions(after, rules, after.len() as int);
    lemma_finding_positions(after, rules, after.len() as int);
    assert forall|k: int| 0 <= k < rep.findings@.len() implies caution(#[trigger] rep.findings@[k].verdict) >= caution(
        rules.spec_classify(rep.findings@[k].entry.path@).1,
    ) && rep.findings@[k].category != Category::Unknown by {
        assert(finding_for(rep.findings@[k], after, pos[pi[k]], rules, links, now));
        let path = after[pos[pi[k]]].path@;
        crate::risk::lemma_downgrade_monotonic(rules.spec_classify(path).1, 0, references_to(links, path));
    }
}

/// Only copies something will act on, and no smaller than the dedup
/// floor, are offered as duplicates: every path in a duplicate set is the
/// path of an entry of at least `min_size` bytes whose verdict is `Safe`
/// or `Review`.
pub proof fn lemma_duplicates_are_actionable(
    rep: Report,
    es: Seq<FileEntry>,
    after: Seq<FileEntry>,
    rules: RulesDb,
    min_size: u64,
    now: i64,
)
    requires
        report_from(rep, es, after, rules, min_size, now),
    ensures
        forall|k: int, j: int|
            0 <= k < rep.duplicate_sets@.len() && 0 <= j < rep.duplicate_sets@[k].paths@.len() ==> exists|i: int|
                0 <= i < es.len() && es[i].path@ == (#[trigger] rep.duplicate_sets@[k].paths@[j])@ && es[i].size
                    >= min_size && spec_actionable(final_verdict(rules, spec_links(entry_paths(es)), es[i].path@)),
{
    let links = spec_links(entry_paths(es));
    let elig = distinct_files(es, dedup_eligible(es, rules, links, min_size));
    let ts = crate::dedup::tags(after, elig);
    assert forall|k: int, j: int|
        0 <= k < rep.duplicate_sets@.len() && 0 <= j < rep.duplicate_sets@[k].paths@.len() implies exists|i: int|
            0 <= i < es.len() && es[i].path@ == (#[trigger] rep.duplicate_sets@[k].paths@[j])@ && es[i].size
                >= min_size && spec_actionable(final_verdict(rules, links, es[i].path@)) by {
        let d = rep.duplicate_sets@[k];
        let h = d.hash@;
        let m = crate::dedup::members(ts, h);
        crate::dedup::lemma_members(ts, h);
        assert(crate::dedup::describes(d, after, elig, h));
        let i = m[j];
        assert(ts[i] == Some(h));
        assert(elig[i]);
        assert(after[i].path == es[i].path);
        assert(d.paths@[j]@ == after[i].path@);
    }
}

proof fn lemma_seen_grows(es: Seq<FileEntry>, rules: RulesDb, links: Seq<(Seq<char>, Seq<char>)>, i: int, j: int)
    requires
        0 <= i <= j,
    ensures
        seen_before(es, rules, links, i).subset_of(seen_before(es, rules, links, j)),
    decreases j - i,
{
    if i < j {
        lemma_seen_grows(es, rules, links, i, j - 1);
    }
}

proof fn lemma_later_name_claims_nothing(
    after: Seq<FileEntry>,
    rules: RulesDb,
    links: Seq<(Seq<char>, Seq<char>)>,
    now: i64,
    px: int,
    py: int,
    fx: Finding,
    fy: Finding,
)
    requires
        0 <= px < py < after.len(),
        finding_for(fx, after, px, rules, links, now),
        finding_for(fy, after, py, rules, links, now),
        fx.entry.identity is Some,
        fx.entry.identity == fy.entry.identity,
        is_finding(rules, after[px].path@),
    ensures
        fx.reclaimable == 0 || fy.reclaimable == 0,
{
    if fx.reclaimable > 0 {
        let id = fx.entry.identity->0;
        assert(fx.entry == after[px]);
        assert(spec_actionable(final_verdict(rules, links, after[px].path@)));
        assert(seen_before(after, rules, links, px + 1).contains(identity_key(id)));
        lemma_seen_grows(after, rules, links, px + 1, py);
    }
}

/// Hard links are counted once: of two findings for names of the same
/// file, at most one claims its bytes.
pub proof fn lemma_hard_links_claimed_once(
    rep: Report,
    es: Seq<FileEntry>,
    after: Seq<FileEntry>,
    rules: RulesDb,
    min_size: u64,
    now: i64,
)
    requires
        report_from(rep, es, after, rules, min_size, now),
    ensures
        forall|a: int, b: int|
            0 <= a < rep.findings@.len() && 0 <= b < rep.findings@.len() && a != b
                && (#[trigger] rep.findings@[a]).entry.identity is Some
                && rep.findings@[a].entry.identity == (#[trigger] rep.findings@[b]).entry.identity
                ==> rep.findings@[a].reclaimable == 0 || rep.findings@[b].reclaimable == 0,
{
    let links = spec_links(entry_paths(es));
    let pi = choose|pi: Seq<int>| #[trigger] arranged(rep.findings@, pi, after, rules, links, now);
    let pos = finding_positions(after, rules, after.len() as int);
    lemma_finding_positions(after, rules, after.len() as int);
    assert forall|a: int, b: int|
        0 <= a < rep.findings@.len() && 0 <= b < rep.findings@.len() && a != b
            && (#[trigger] rep.findings@[a]).entry.identity is Some
            && rep.findings@[a].entry.identity == (#[trigger] rep.findings@[b]).entry.identity
            implies rep.findings@[a].reclaimable == 0 || rep.findings@[b].reclaimable == 0 by {
        let fa = rep.findings@[a];
        let fb = rep.findings@[b];
        assert(finding_for(fa, after, pos[pi[a]], rules, links, now));
        assert(finding_for(fb, after, pos[pi[b]], rules, links, now));
        assert(pi[a] != pi[b]);
        if pi[a] < pi[b] {
            assert(pos[pi[a]] < pos[pi[b]]);
            lemma_later_name_claims_nothing(after, rules, links, now, pos[pi[a]], pos[pi[b]], fa, fb);
        } else {
            assert(pos[pi[b]] < pos[pi[a]]);
            lemma_later_name_claims_nothing(after, rules, links, now, pos[pi[b]], pos[pi[a]], fb, fa);
        }
    }
}
} // verus!
