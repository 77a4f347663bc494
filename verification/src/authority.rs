//! The scan/report authority of the desktop app.
//!
//! A completed report is a review snapshot. Starting or cancelling a scan
//! invalidates the previous snapshot, and only the scan that owns the
//! current generation may publish. The app keeps one [`ScanAuthority`]
//! behind a mutex that covers these short transitions only: scanning and
//! quarantine I/O happen outside it.
use vstd::prelude::*;
use std::sync::atomic::AtomicU64;
use std::sync::Arc;
use crate::actions::{finding_index, quarantine_finding_with_authorization, Authorization, FileSystem, FsLog, QuarantineRecord};
use crate::report::{Report, ReportStage};
use crate::rules::RulesDb;
use crate::scanner::ScanProgress;

verus! {

/// How a finished scan's attempt to publish its report went.
#[derive(Clone, Copy, Debug, PartialEq, Eq, Structural)]
pub enum PublishOutcome {
    /// The report is now the one actions are taken against.
    Published,
    /// The user cancelled this scan; its report is dropped.
    Cancelled,
    /// A newer scan owns the authority; this report is stale.
    Superseded,
}

struct ActiveGeneration {
    generation: u64,
    progress: Arc<ScanProgress>,
}

struct CompletedReport {
    generation: u64,
    report: Arc<Report>,
}

/// The authority's state as the laws speak of it.
pub struct AuthorityModel {
    /// The last generation handed out.
    pub next_generation: u64,
    /// The generation of the running scan, if one runs.
    pub active: Option<u64>,
    /// The generation the user cancelled and that has not answered yet.
    pub cancelled: Option<u64>,
    /// The generation of the published report, if there is one.
    pub report: Option<u64>,
    /// The generation a lease must hold to still be current.
    pub epoch: u64,
}

/// `g + 1`, wrapping at `u64::MAX`.
pub open spec fn next_after(g: u64) -> u64 {
    if g == u64::MAX {
        0
    } else {
        (g + 1) as u64
    }
}

/// The state once a scan has begun: a fresh generation, active, with no
/// report and no pending cancellation.
pub open spec fn spec_begin(m: AuthorityModel) -> AuthorityModel {
    let g = next_after(m.next_generation);
    AuthorityModel { next_generation: g, active: Some(g), cancelled: None, report: None, epoch: g }
}

/// The answer to generation `g` publishing.
pub open spec fn spec_publish_outcome(m: AuthorityModel, g: u64) -> PublishOutcome {
    if m.active == Some(g) && m.epoch == g {
        PublishOutcome::Published
    } else if m.cancelled == Some(g) {
        PublishOutcome::Cancelled
    } else {
        PublishOutcome::Superseded
    }
}

/// The state once generation `g` has tried to publish.
pub open spec fn spec_publish(m: AuthorityModel, g: u64) -> AuthorityModel {
    match spec_publish_outcome(m, g) {
        PublishOutcome::Published => AuthorityModel { active: None, cancelled: None, report: Some(g), ..m },
        PublishOutcome::Cancelled => AuthorityModel { cancelled: None, ..m },
        PublishOutcome::Superseded => m,
    }
}

/// The state once generation `g` has ended without a report.
pub open spec fn spec_abandon(m: AuthorityModel, g: u64) -> AuthorityModel {
    let m1 = if m.active == Some(g) {
        AuthorityModel { active: None, report: None, ..m }
    } else {
        m
    };
    if m1.cancelled == Some(g) {
        AuthorityModel { cancelled: None, ..m1 }
    } else {
        m1
    }
}

/// The state once generation `g` has released the active slot.
pub open spec fn spec_finish_active(m: AuthorityModel, g: u64) -> AuthorityModel {
    if m.active == Some(g) {
        AuthorityModel { active: None, ..m }
    } else {
        m
    }
}

/// The state once the user has cancelled: the running scan, if any, is
/// marked cancelled, the epoch moves past it and the report is dropped.
pub open spec fn spec_cancel(m: AuthorityModel) -> AuthorityModel {
    match m.active {
        Some(g) => AuthorityModel { active: None, cancelled: Some(g), report: None, epoch: next_after(g), ..m },
        None => m,
    }
}

/// The generation a lease would be granted for: the published report's,
/// and only while no scan runs.
pub open spec fn spec_lease(m: AuthorityModel) -> Option<u64> {
    if m.active is Some {
        None
    } else {
        m.report
    }
}

/// Backend-owned scan/report authority.
pub struct ScanAuthority {
    next_generation: u64,
    active: Option<ActiveGeneration>,
    cancelled_generation: Option<u64>,
    report: Option<CompletedReport>,
    /// The epoch, as the authority knows it.
    epoch: u64,
    /// The same epoch, published for leases to check without the lock.
    epoch_cell: Arc<AtomicU64>,
}

/// Permission to act on one published report, for as long as the epoch
/// still names its generation.
pub struct ActionLease {
    pub generation: u64,
    pub report: Arc<Report>,
    /// The authority's shared epoch.
    pub epoch: Arc<AtomicU64>,
}

impl ActionLease {
    /// Whether no scan has begun or been cancelled since the lease was
    /// granted. Read from the shared epoch, which another thread moves.
    pub fn is_current(&self) -> bool {
        self.epoch.load(std::sync::atomic::Ordering::Acquire) == self.generation
    }
}

impl Authorization for ActionLease {
    fn still_authorized(&self) -> bool {
        self.is_current()
    }
}

/// What quarantining is refused with while there is no report to act on.
pub open spec fn no_report_refusal() -> Seq<char> {
    "no current completed scan report; refusing to quarantine — scan again"@
}

/// What a finished report is refused with once a newer scan owns the
/// authority.
pub open spec fn superseded_refusal() -> Seq<char> {
    "scan was superseded by a newer scan"@
}

/// Quarantine the file of the published report's finding for `path`,
/// under a lease on that report. Fails closed: no published report, or a
/// report a newer scan has superseded, moves nothing.
pub fn quarantine_from_authoritative<F: FileSystem>(
    authority: &ScanAuthority,
    path: &str,
    rules: &RulesDb,
    quarantine_dir: &str,
    fs: &mut FsLog<F>,
) -> (r: Result<QuarantineRecord, String>)
    requires
        rules.wf(),
    ensures
        spec_lease(authority@) is None ==> final(fs).steps() == old(fs).steps() && (r matches Err(m) && m@
            == no_report_refusal()),
        r matches Ok(rec) ==> spec_lease(authority@) is Some && rec.original@ == path@,
        r is Ok ==> (authority.published() matches Some(rep) && finding_index(rep.findings@, path@, 0) is Some),
{
    let lease = match authority.lease() {
        Some(l) => l,
        None => {
            return Err(String::from_str("no current completed scan report; refusing to quarantine — scan again"));
        },
    };
    if !lease.is_current() {
        return Err(String::from_str("scan report was superseded; refusing to quarantine — scan again"));
    }
    match quarantine_finding_with_authorization(path, &lease.report, rules, quarantine_dir, &lease, fs) {
        Ok(record) => Ok(record),
        Err(e) => Err(e.describe()),
    }
}

impl ScanAuthority {
    pub closed spec fn view(&self) -> AuthorityModel {
        AuthorityModel {
            next_generation: self.next_generation,
            active: match self.active {
                Some(a) => Some(a.generation),
                None => None,
            },
            cancelled: self.cancelled_generation,
            report: match self.report {
                Some(r) => Some(r.generation),
                None => None,
            },
            epoch: self.epoch,
        }
    }

    /// The report published, if there is one: the one whose generation
    /// the model's `report` names.
    pub closed spec fn published(&self) -> Option<Report> {
        match self.report {
            Some(c) => Some(*c.report),
            None => None,
        }
    }

    /// Nothing running, nothing published.
    pub fn new() -> (a: ScanAuthority)
        ensures
            a@ == (AuthorityModel { next_generation: 0, active: None, cancelled: None, report: None, epoch: 0 }),
            a.published() is None,
    {
        ScanAuthority {
            next_generation: 0,
            active: None,
            cancelled_generation: None,
            report: None,
            epoch: 0,
            epoch_cell: Arc::new(AtomicU64::new(0)),
        }
    }

    /// A new scan, watched through `progress`, takes the authority. The
    /// scan it replaces, if any, is cancelled.
    pub fn begin(&mut self, progress: Arc<ScanProgress>) -> (g: u64)
        ensures
            final(self)@ == spec_begin(old(self)@),
            final(self).published() is None,
            g == final(self)@.next_generation,
    {
        match &self.active {
            Some(previous) => previous.progress.cancel(),
            None => {},
        }
        self.next_generation = self.next_generation.wrapping_add(1);
        let generation = self.next_generation;
        self.epoch = generation;
        self.epoch_cell.store(generation, std::sync::atomic::Ordering::Release);
        self.cancelled_generation = None;
        self.report = None;
        self.active = Some(ActiveGeneration { generation, progress });
        generation
    }

    /// Generation `generation` finished with `report`.
    pub fn publish(&mut self, generation: u64, report: Report) -> (r: PublishOutcome)
        ensures
            r == spec_publish_outcome(old(self)@, generation),
            final(self)@ == spec_publish(old(self)@, generation),
            final(self).published() == if r == PublishOutcome::Published {
                Some(report)
            } else {
                old(self).published()
            },
    {
        self.publish_shared(generation, Arc::new(report))
    }

    /// [`ScanAuthority::publish`] of a report already behind an `Arc`.
    fn publish_shared(&mut self, generation: u64, report: Arc<Report>) -> (r: PublishOutcome)
        ensures
            r == spec_publish_outcome(old(self)@, generation),
            final(self)@ == spec_publish(old(self)@, generation),
            final(self).published() == if r == PublishOutcome::Published {
                Some(*report)
            } else {
                old(self).published()
            },
    {
        let owns = match &self.active {
            Some(active) => active.generation == generation,
            None => false,
        };
        if owns && self.epoch == generation {
            self.report = Some(CompletedReport { generation, report });
            self.active = None;
            self.cancelled_generation = None;
            PublishOutcome::Published
        } else if self.cancelled_generation == Some(generation) {
            self.cancelled_generation = None;
            PublishOutcome::Cancelled
        } else {
            PublishOutcome::Superseded
        }
    }

    /// Settle generation `generation` with how its scan ended, and give
    /// the answer the app hands back for it. `ended` is the report, `None`
    /// when the scan was cancelled, or the message it failed with.
    ///
    /// A report is published if its generation still owns the authority
    /// and then handed back; if the user cancelled the scan while the
    /// report was on its way the answer is `None`, as for any cancelled
    /// scan; if a newer scan took over, the report is refused as stale.
    /// A scan that ended without a report gives up its generation.
    pub fn conclude(&mut self, generation: u64, ended: Result<Option<Report>, String>) -> (r: Result<
        Option<Arc<Report>>,
        String,
    >)
        ensures
            match ended {
                Ok(Some(report)) => {
                    &&& final(self)@ == spec_publish(old(self)@, generation)
                    &&& final(self).published() == if spec_publish_outcome(old(self)@, generation)
                        == PublishOutcome::Published {
                        Some(report)
                    } else {
                        old(self).published()
                    }
                    &&& match spec_publish_outcome(old(self)@, generation) {
                        PublishOutcome::Published => r matches Ok(Some(shared)) && *shared == report,
                        PublishOutcome::Cancelled => r matches Ok(None),
                        PublishOutcome::Superseded => r matches Err(m) && m@ == superseded_refusal(),
                    }
                },
                Ok(None) => final(self)@ == spec_abandon(old(self)@, generation) && (r matches Ok(None))
                    && final(self).published() == abandoned_report(*old(self), generation),
                Err(e) => final(self)@ == spec_abandon(old(self)@, generation) && (r matches Err(m) && m@ == e@)
                    && final(self).published() == abandoned_report(*old(self), generation),
            },
    {
        match ended {
            Ok(Some(report)) => {
                let shared = Arc::new(report);
                match self.publish_shared(generation, shared.clone()) {
                    PublishOutcome::Published => Ok(Some(shared)),
                    PublishOutcome::Cancelled => Ok(None),
                    PublishOutcome::Superseded => Err(String::from_str("scan was superseded by a newer scan")),
                }
            },
            Ok(None) => {
                self.abandon(generation);
                Ok(None)
            },
            Err(message) => {
                self.abandon(generation);
                Err(message)
            },
        }
    }

    /// Generation `generation` ended without a report (cancelled or
    /// failed).
    pub fn abandon(&mut self, generation: u64)
        ensures
            final(self)@ == spec_abandon(old(self)@, generation),
            final(self).published() == abandoned_report(*old(self), generation),
    {
        let owns = match &self.active {
            Some(active) => active.generation == generation,
            None => false,
        };
        if owns {
            self.active = None;
            self.report = None;
        }
        if self.cancelled_generation == Some(generation) {
            self.cancelled_generation = None;
        }
    }

    /// Generation `generation` is done with the active slot; a newer scan
    /// may already own it, in which case nothing changes.
    pub fn finish_active(&mut self, generation: u64)
        ensures
            final(self)@ == spec_finish_active(old(self)@, generation),
            final(self).published() == old(self).published(),
    {
        let owns = match &self.active {
            Some(active) => active.generation == generation,
            None => false,
        };
        if owns {
            self.active = None;
        }
    }

    /// Stop the running scan. Returns whether there was one to stop.
    pub fn cancel(&mut self) -> (stopped: bool)
        ensures
            stopped == old(self)@.active is Some,
            final(self)@ == spec_cancel(old(self)@),
            final(self).published() == if stopped {
                None
            } else {
                old(self).published()
            },
    {
        let active = match self.active.take() {
            Some(a) => a,
            None => return false,
        };
        self.cancelled_generation = Some(active.generation);
        active.progress.cancel();
        let next = active.generation.wrapping_add(1);
        self.epoch = next;
        self.epoch_cell.store(next, std::sync::atomic::Ordering::Release);
        self.report = None;
        true
    }

    /// Permission to act on the published report, if there is one and no
    /// scan is running.
    pub fn lease(&self) -> (l: Option<ActionLease>)
        ensures
            match l {
                Some(lease) => spec_lease(self@) == Some(lease.generation) && self.published() == Some(*lease.report),
                None => spec_lease(self@) is None,
            },
    {
        if self.active.is_some() {
            return None;
        }
        match &self.report {
            Some(completed) => Some(ActionLease {
                generation: completed.generation,
                report: completed.report.clone(),
                epoch: self.epoch_cell.clone(),
            }),
            None => None,
        }
    }
}

/// The report published once generation `g` has ended without one: gone
/// if `g` was the running scan, else as it was.
pub open spec fn abandoned_report(a: ScanAuthority, g: u64) -> Option<Report> {
    if a@.active == Some(g) {
        None
    } else {
        a.published()
    }
}

impl Default for ScanAuthority {
    fn default() -> (a: Self)
        ensures
            a@ == (AuthorityModel { next_generation: 0, active: None, cancelled: None, report: None, epoch: 0 }),
    {
        ScanAuthority::new()
    }
}

// ---------------------------------------------------------------------------
// Laws of the authority

/// What holds in every state the authority can reach: the running scan
/// owns the newest generation and the epoch names it, and a published
/// report is of the generation the epoch names.
pub open spec fn consistent(m: AuthorityModel) -> bool {
    &&& m.active matches Some(g) ==> g == m.next_generation && m.epoch == g
    &&& m.report matches Some(g) ==> g == m.epoch && g == m.next_generation
}

/// Every transition keeps the authority consistent, starting from a
/// fresh one.
pub proof fn lemma_transitions_stay_consistent(m: AuthorityModel, g: u64)
    requires
        consistent(m),
    ensures
        consistent(AuthorityModel { next_generation: 0, active: None, cancelled: None, report: None, epoch: 0 }),
        consistent(spec_begin(m)),
        consistent(spec_publish(m, g)),
        consistent(spec_abandon(m, g)),
        consistent(spec_finish_active(m, g)),
        consistent(spec_cancel(m)),
{
}

/// A lease is granted only for the generation the epoch names, so a
/// lease is current when it is granted.
pub proof fn lemma_leases_start_current(m: AuthorityModel)
    requires
        consistent(m),
    ensures
        spec_lease(m) matches Some(g) ==> g == m.epoch,
{
}

/// Only the scan that owns the current generation can publish: a
/// generation publishes exactly when it is the running one and the epoch
/// still names it.
pub proof fn lemma_only_current_generation_publishes(m: AuthorityModel, g: u64)
    ensures
        spec_publish_outcome(m, g) == PublishOutcome::Published <==> (m.active == Some(g) && m.epoch == g),
        spec_publish_outcome(m, g) == PublishOutcome::Published ==> spec_lease(spec_publish(m, g)) == Some(g),
{
}

/// Beginning a scan supersedes every other generation: afterwards only
/// the new generation can publish, and the old report can't be leased.
pub proof fn lemma_begin_supersedes(m: AuthorityModel, old_g: u64)
    requires
        old_g != spec_begin(m).next_generation,
    ensures
        spec_publish_outcome(spec_begin(m), old_g) == PublishOutcome::Superseded,
        spec_publish_outcome(spec_begin(m), spec_begin(m).next_generation) == PublishOutcome::Published,
        spec_lease(spec_begin(m)) is None,
{
}

/// A cancel wins a race with completion: once the running scan is
/// cancelled, its report is answered `Cancelled` and never published,
/// and nothing can be leased.
pub proof fn lemma_cancel_wins_the_race(m: AuthorityModel)
    requires
        m.active is Some,
    ensures
        spec_publish_outcome(spec_cancel(m), m.active->0) == PublishOutcome::Cancelled,
        spec_lease(spec_cancel(m)) is None,
        spec_lease(spec_publish(spec_cancel(m), m.active->0)) is None,
        spec_cancel(spec_cancel(m)) == spec_cancel(m),
{
}

/// A lease stops being current when the next scan begins: the epoch moves
/// off the leased report's generation.
pub proof fn lemma_leases_end_with_the_next_scan(m: AuthorityModel)
    requires
        consistent(m),
        spec_lease(m) is Some,
    ensures
        spec_begin(m).epoch != spec_lease(m)->0,
{
}

// ---------------------------------------------------------------------------
// The protocol across calls

/// One call on the authority, as the laws across calls speak of it.
pub enum AuthorityOp {
    Begin,
    Publish(u64),
    Abandon(u64),
    FinishActive(u64),
    Cancel,
}

/// The state after the call `op`.
pub open spec fn apply(m: AuthorityModel, op: AuthorityOp) -> AuthorityModel {
    match op {
        AuthorityOp::Begin => spec_begin(m),
        AuthorityOp::Publish(g) => spec_publish(m, g),
        AuthorityOp::Abandon(g) => spec_abandon(m, g),
        AuthorityOp::FinishActive(g) => spec_finish_active(m, g),
        AuthorityOp::Cancel => spec_cancel(m),
    }
}

/// The state after the calls `ops`, in order.
pub open spec fn run(m: AuthorityModel, ops: Seq<AuthorityOp>) -> AuthorityModel
    decreases ops.len(),
{
    if ops.len() == 0 {
        m
    } else {
        apply(run(m, ops.drop_last()), ops.last())
    }
}

/// `op` ends generation `g`'s claim to publish: a cancel, or `g`
/// publishing, being abandoned or releasing the slot.
pub open spec fn ends_claim(op: AuthorityOp, g: u64) -> bool {
    ||| op == AuthorityOp::Cancel
    ||| op == AuthorityOp::Publish(g)
    ||| op == AuthorityOp::Abandon(g)
    ||| op == AuthorityOp::FinishActive(g)
}

/// None of `ops` ends generation `g`'s claim.
pub open spec fn still_claims(ops: Seq<AuthorityOp>, g: u64) -> bool {
    forall|i: int| 0 <= i < ops.len() ==> !ends_claim(#[trigger] ops[i], g)
}

/// Among `ops`, a cancel revoked generation `g` while it still held its
/// claim, and neither `g` publishing nor being abandoned answered that
/// cancel since.
pub open spec fn revoked(ops: Seq<AuthorityOp>, g: u64) -> bool {
    exists|c: int|
        0 <= c < ops.len() && #[trigger] ops[c] == AuthorityOp::Cancel && still_claims(ops.take(c), g) && forall|
            i: int,
        |
            c < i < ops.len() ==> #[trigger] ops[i] != AuthorityOp::Publish(g) && ops[i] != AuthorityOp::Abandon(g)
}

proof fn lemma_standing(m: AuthorityModel, ops: Seq<AuthorityOp>)
    requires
        forall|i: int| 0 <= i < ops.len() ==> #[trigger] ops[i] != AuthorityOp::Begin,
    ensures
        ({
            let b = spec_begin(m);
            let g = b.next_generation;
            let last = run(b, ops);
            &&& still_claims(ops, g) ==> last == b
            &&& revoked(ops, g) ==> last == spec_cancel(b)
            &&& !still_claims(ops, g) && !revoked(ops, g) ==> last.active != Some(g) && last.cancelled != Some(g)
            &&& !(still_claims(ops, g) && revoked(ops, g))
        }),
    decreases ops.len(),
{
    let b = spec_begin(m);
    let g = b.next_generation;
    if ops.len() == 0 {
        assert(!revoked(ops, g));
        return;
    }
    let pre = ops.drop_last();
    let op = ops.last();
    assert forall|i: int| 0 <= i < pre.len() implies #[trigger] pre[i] != AuthorityOp::Begin by {
        assert(pre[i] == ops[i]);
    }
    lemma_standing(m, pre);
    let mid = run(b, pre);
    assert(run(b, ops) == apply(mid, op));
    // How the two predicates grow by one call.
    assert(still_claims(ops, g) <==> (still_claims(pre, g) && !ends_claim(op, g))) by {
        if still_claims(pre, g) && !ends_claim(op, g) {
            assert forall|i: int| 0 <= i < ops.len() implies !ends_claim(#[trigger] ops[i], g) by {
                if i < pre.len() {
                    assert(ops[i] == pre[i]);
                }
            }
        }
        if still_claims(ops, g) {
            assert(!ends_claim(ops[ops.len() - 1], g));
            assert forall|i: int| 0 <= i < pre.len() implies !ends_claim(#[trigger] pre[i], g) by {
                assert(ops[i] == pre[i]);
            }
        }
    }
    assert(revoked(ops, g) <==> ((revoked(pre, g) && op != AuthorityOp::Publish(g) && op != AuthorityOp::Abandon(g))
        || (still_claims(pre, g) && op == AuthorityOp::Cancel))) by {
        if revoked(ops, g) {
            let c = choose|c: int|
                0 <= c < ops.len() && #[trigger] ops[c] == AuthorityOp::Cancel && still_claims(ops.take(c), g)
                    && forall|i: int| c < i < ops.len() ==> #[trigger] ops[i] != AuthorityOp::Publish(g) && ops[i]
                    != AuthorityOp::Abandon(g);
            if c == ops.len() - 1 {
                assert(ops.take(c) =~= pre);
            } else {
                assert(ops.take(c) =~= pre.take(c));
                assert(pre[c] == AuthorityOp::Cancel);
                assert forall|i: int| c < i < pre.len() implies #[trigger] pre[i] != AuthorityOp::Publish(g) && pre[i]
                    != AuthorityOp::Abandon(g) by {
                    assert(pre[i] == ops[i]);
                }
                assert(revoked(pre, g));
                assert(ops[ops.len() - 1] == op);
            }
        }
        if revoked(pre, g) && op != AuthorityOp::Publish(g) && op != AuthorityOp::Abandon(g) {
            let c = choose|c: int|
                0 <= c < pre.len() && #[trigger] pre[c] == AuthorityOp::Cancel && still_claims(pre.take(c), g)
                    && forall|i: int| c < i < pre.len() ==> #[trigger] pre[i] != AuthorityOp::Publish(g) && pre[i]
                    != AuthorityOp::Abandon(g);
            assert(ops.take(c) =~= pre.take(c));
            assert(ops[c] == pre[c]);
            assert forall|i: int| c < i < ops.len() implies #[trigger] ops[i] != AuthorityOp::Publish(g) && ops[i]
                != AuthorityOp::Abandon(g) by {
                if i < pre.len() {
                    assert(ops[i] == pre[i]);
                }
            }
        }
        if still_claims(pre, g) && op == AuthorityOp::Cancel {
            let c = ops.len() - 1;
            assert(ops.take(c) =~= pre);
            assert(ops[c] == AuthorityOp::Cancel);
        }
    }
}

/// The publish protocol across calls. After `begin` hands out generation
/// `g` and no later `begin` runs, `g` publishing is answered `Published`
/// exactly when no cancel, no earlier publish of `g`, no abandoning of `g`
/// and no release of its slot ran since — and then its report is the one
/// leased. It is answered `Cancelled` exactly when a cancel revoked `g`
/// while it held its claim and no publish or abandoning of `g` answered
/// that cancel since, and `Superseded` otherwise. An answer other than
/// `Published` leaves what can be leased as it was.
pub proof fn lemma_publish_protocol(m: AuthorityModel, ops: Seq<AuthorityOp>)
    requires
        forall|i: int| 0 <= i < ops.len() ==> #[trigger] ops[i] != AuthorityOp::Begin,
    ensures
        ({
            let b = spec_begin(m);
            let g = b.next_generation;
            let last = run(b, ops);
            &&& spec_publish_outcome(last, g) == PublishOutcome::Published <==> still_claims(ops, g)
            &&& spec_publish_outcome(last, g) == PublishOutcome::Cancelled <==> revoked(ops, g)
            &&& spec_publish_outcome(last, g) == PublishOutcome::Published ==> spec_lease(spec_publish(last, g))
                == Some(g)
            &&& spec_publish_outcome(last, g) != PublishOutcome::Published ==> spec_lease(spec_publish(last, g))
                == spec_lease(last)
        }),
{
    lemma_standing(m, ops);
}

/// A newer scan supersedes: once a `begin` hands out a generation other
/// than `g`, nothing short of another `begin` lets `g` publish or be
/// answered `Cancelled`.
pub proof fn lemma_newer_scan_supersedes(m: AuthorityModel, ops: Seq<AuthorityOp>, g: u64)
    requires
        forall|i: int| 0 <= i < ops.len() ==> #[trigger] ops[i] != AuthorityOp::Begin,
        spec_begin(m).next_generation != g,
    ensures
        spec_publish_outcome(run(spec_begin(m), ops), g) == PublishOutcome::Superseded,
    decreases ops.len(),
{
    lemma_not_g(m, ops, g);
}

proof fn lemma_not_g(m: AuthorityModel, ops: Seq<AuthorityOp>, g: u64)
    requires
        forall|i: int| 0 <= i < ops.len() ==> #[trigger] ops[i] != AuthorityOp::Begin,
        spec_begin(m).next_generation != g,
    ensures
        run(spec_begin(m), ops).active != Some(g),
        run(spec_begin(m), ops).cancelled != Some(g),
    decreases ops.len(),
{
    if ops.len() > 0 {
        let pre = ops.drop_last();
        assert forall|i: int| 0 <= i < pre.len() implies #[trigger] pre[i] != AuthorityOp::Begin by {
            assert(pre[i] == ops[i]);
        }
        lemma_not_g(m, pre, g);
        assert(ops[ops.len() - 1] != AuthorityOp::Begin);
    }
}

// ---------------------------------------------------------------------------
// Phases the UI shows

/// What the UI says a scan is doing.
#[derive(Clone, Copy, Debug, PartialEq, Eq, Structural)]
pub enum ScanPhase {
    WalkingFiles,
    BuildingImpactGraph,
    ClassifyingFiles,
    CheckingDuplicates,
    PreparingFindings,
}

pub open spec fn spec_phase_label(p: ScanPhase) -> Seq<char> {
    match p {
        ScanPhase::WalkingFiles => "Walking files"@,
        ScanPhase::BuildingImpactGraph => "Building project impact graph"@,
        ScanPhase::ClassifyingFiles => "Classifying files"@,
        ScanPhase::CheckingDuplicates => "Checking duplicate candidates"@,
        ScanPhase::PreparingFindings => "Preparing findings"@,
    }
}

impl ScanPhase {
    /// The phase as the progress line shows it.
    pub fn label(self) -> (s: &'static str)
        ensures
            s@ == spec_phase_label(self),
    {
        match self {
            ScanPhase::WalkingFiles => "Walking files",
            ScanPhase::BuildingImpactGraph => "Building project impact graph",
            ScanPhase::ClassifyingFiles => "Classifying files",
            ScanPhase::CheckingDuplicates => "Checking duplicate candidates",
            ScanPhase::PreparingFindings => "Preparing findings",
        }
    }
}

pub open spec fn spec_phase_for(stage: ReportStage) -> ScanPhase {
    match stage {
        ReportStage::BuildingImpactGraph => ScanPhase::BuildingImpactGraph,
        ReportStage::ClassifyingEntries => ScanPhase::ClassifyingFiles,
        ReportStage::FindingDuplicates => ScanPhase::CheckingDuplicates,
        ReportStage::PreparingFindings => ScanPhase::PreparingFindings,
    }
}

/// The phase the UI shows while the report is in `stage`.
pub fn phase_for_report_stage(stage: ReportStage) -> (p: ScanPhase)
    ensures
        p == spec_phase_for(stage),
{
    match stage {
        ReportStage::BuildingImpactGraph => ScanPhase::BuildingImpactGraph,
        ReportStage::ClassifyingEntries => ScanPhase::ClassifyingFiles,
        ReportStage::FindingDuplicates => ScanPhase::CheckingDuplicates,
        ReportStage::PreparingFindings => ScanPhase::PreparingFindings,
    }
}

} // verus!
