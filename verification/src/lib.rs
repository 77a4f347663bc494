//! # diskern-core
//!
//! The Diskern engine: scanner orchestration, reference graph, rules,
//! risk, duplicate detection, report assembly, quarantine decisions and the
//! scan/report authority. Everything here is:
//! - **Read-only.** Nothing in this crate touches the filesystem; the parts
//!   that must (walking a tree, moving a file) are handed in by the caller.
//! - **Deterministic.** Safety classification comes from [`rules`] +
//!   [`risk`], never from a network call or a model.
//! - **UI-agnostic.** Presentation decisions live in [`present`] as data.
#![allow(unused_imports)]

use vstd::prelude::*;
use std::sync::atomic::AtomicBool;

pub mod text;
pub mod paths;
pub mod risk;
pub mod rules;
pub mod graph;
pub mod entry_order;
pub mod markers;
pub mod dedup;
pub mod hash_log;
pub mod report;
pub mod scanner;
pub mod actions;
pub mod authority;
pub mod present;
pub mod ai;

verus! {

/// Identity of the file a path names, when that file has other names.
///
/// Two hard-linked paths share one identity, so the bytes behind them are
/// counted once. Entries whose file has a single name carry no identity.
#[derive(Clone, Copy, Debug, PartialEq, Eq, Structural, Hash)]
pub struct FileIdentity {
    pub device: u64,
    pub file: u64,
}

/// A single filesystem entry discovered by the scanner.
///
/// `path` is absolute and `/`-separated, as the walker reports it.
#[derive(Clone, Debug)]
pub struct FileEntry {
    pub path: String,
    pub size: u64,
    /// Seconds since epoch; None if the platform couldn't report it.
    pub modified: Option<i64>,
    pub accessed: Option<i64>,
    pub is_symlink: bool,
    /// Present only when the file has more than one name.
    pub identity: Option<FileIdentity>,
    /// BLAKE3 hash (hex) — only computed for size-collision candidates.
    pub hash: Option<String>,
}

impl FileEntry {
    /// A field-for-field copy.
    pub fn duplicate(&self) -> (r: FileEntry)
        ensures
            r == *self,
    {
        FileEntry {
            path: self.path.clone(),
            size: self.size,
            modified: self.modified,
            accessed: self.accessed,
            is_symlink: self.is_symlink,
            identity: self.identity,
            hash: match &self.hash {
                Some(h) => Some(h.clone()),
                None => None,
            },
        }
    }
}

/// The number an identity is remembered by: device and file number side
/// by side in one 128-bit word.
pub open spec fn identity_key(id: FileIdentity) -> u128 {
    (id.device as int * 0x1_0000_0000_0000_0000 + id.file as int) as u128
}

/// Distinct identities are remembered by distinct numbers.
pub proof fn lemma_identity_key_injective(a: FileIdentity, b: FileIdentity)
    ensures
        identity_key(a) == identity_key(b) ==> a == b,
{
    let (da, fa, db, fb) = (a.device as int, a.file as int, b.device as int, b.file as int);
    let m: int = 0x1_0000_0000_0000_0000;
    assert(da * m + fa < 0x1_0000_0000_0000_0000_0000_0000_0000_0000) by (nonlinear_arith)
        requires
            0 <= da < m,
            0 <= fa < m,
            m == 0x1_0000_0000_0000_0000,
    ;
    assert(db * m + fb < 0x1_0000_0000_0000_0000_0000_0000_0000_0000) by (nonlinear_arith)
        requires
            0 <= db < m,
            0 <= fb < m,
            m == 0x1_0000_0000_0000_0000,
    ;
    assert(da * m + fa >= 0 && db * m + fb >= 0) by (nonlinear_arith)
        requires
            0 <= da,
            0 <= fa,
            0 <= db,
            0 <= fb,
            m > 0,
    ;
    if da * m + fa == db * m + fb {
        assert(da == db && fa == fb) by (nonlinear_arith)
            requires
                da * m + fa == db * m + fb,
                0 <= fa < m,
                0 <= fb < m,
                0 <= da,
                0 <= db,
        ;
    }
}

pub fn key_of(id: FileIdentity) -> (k: u128)
    ensures
        k == identity_key(id),
{
    let d = id.device as u128;
    let f = id.file as u128;
    assert(d * 0x1_0000_0000_0000_0000u128 + f <= u128::MAX) by (nonlinear_arith)
        requires
            d <= u64::MAX,
            f <= u64::MAX,
    ;
    d * 0x1_0000_0000_0000_0000u128 + f
}

/// What kind of thing the rules engine believes this is.
#[derive(Clone, Copy, Debug, PartialEq, Eq, Structural, Hash)]
pub enum Category {
    BrowserCache,
    BuildArtifact,
    PackageManagerCache,
    TempFile,
    Log,
    Installer,
    DuplicateFile,
    EmptyDirectory,
    SystemCritical,
    Unknown,
}

/// Deterministic risk verdict. This is the ONLY thing allowed to gate an action.
///
/// Variants are listed from least to most cautious.
#[derive(Clone, Copy, Debug, PartialEq, Eq, Structural, PartialOrd, Ord, Hash)]
pub enum Verdict {
    /// Regenerable, unreferenced, well-known category. Quarantine freely.
    Safe,
    /// Probably fine, but show the user the evidence first.
    Review,
    /// Referenced by something, or unknown provenance. Warn loudly.
    Risky,
    /// System-critical. The UI must not even offer an action.
    Protected,
}

/// How cautious a verdict is: 0 for `Safe` up to 3 for `Protected`.
pub open spec fn caution(v: Verdict) -> nat {
    match v {
        Verdict::Safe => 0,
        Verdict::Review => 1,
        Verdict::Risky => 2,
        Verdict::Protected => 3,
    }
}

/// Whether anything will ever offer to move a file with this verdict.
pub open spec fn spec_actionable(v: Verdict) -> bool {
    v == Verdict::Safe || v == Verdict::Review
}

/// One finding = one row the user sees.
#[derive(Clone, Debug)]
pub struct Finding {
    pub entry: FileEntry,
    pub category: Category,
    pub verdict: Verdict,
    /// How removable the file looks, in hundredths from 0 (keep) to 100
    /// (remove). Shown to the user; the verdict alone decides actions.
    pub risk_score: u8,
    /// Evidence-based reasons ("matched rule chrome-cache: ...",
    /// "referenced by 3 projects").
    pub reasons: Vec<String>,
    /// Bytes reclaimable if acted on.
    pub reclaimable: u64,
}

/// Whether the caller has asked a running stage to stop. Another thread
/// sets the flag, so nothing is known of the answer; a run that was given
/// no flag cannot be stopped.
pub fn stop_requested(flag: Option<&AtomicBool>) -> (b: bool)
    ensures
        flag is None ==> !b,
{
    match flag {
        Some(f) => f.load(std::sync::atomic::Ordering::Relaxed),
        None => false,
    }
}

/// Errors of the engine.
#[derive(Clone, Debug)]
pub enum GenomeError {
    /// An I/O failure at `path`, with the system's description of it.
    Io { path: String, message: String },
    /// The scan was cancelled.
    Cancelled,
    /// A rules or safety refusal.
    Rules(String),
    /// A scan root lies inside an excluded directory.
    ExcludedRoot { path: String, exclude: String },
}

impl GenomeError {
    /// The error as the front ends show it.
    pub fn describe(&self) -> (s: String)
        ensures
            s@ == spec_describe(*self),
    {
        match self {
            GenomeError::Io { path, message } => {
                let mut s = String::from_str("io error at ");
                s.append(path.as_str());
                s.append(": ");
                s.append(message.as_str());
                s
            },
            GenomeError::Cancelled => String::from_str("scan cancelled"),
            GenomeError::Rules(m) => {
                let mut s = String::from_str("rules database error: ");
                s.append(m.as_str());
                s
            },
            GenomeError::ExcludedRoot { path, exclude } => {
                let mut s = String::from_str("scan root ");
                s.append(path.as_str());
                s.append(" is inside the excluded directory ");
                s.append(exclude.as_str());
                s
            },
        }
    }
}

/// The text of an error.
pub open spec fn spec_describe(e: GenomeError) -> Seq<char> {
    match e {
        GenomeError::Io { path, message } => "io error at "@ + path@ + ": "@ + message@,
        GenomeError::Cancelled => "scan cancelled"@,
        GenomeError::Rules(m) => "rules database error: "@ + m@,
        GenomeError::ExcludedRoot { path, exclude } => "scan root "@ + path@ + " is inside the excluded directory "@
            + exclude@,
    }
}

} // verus!
