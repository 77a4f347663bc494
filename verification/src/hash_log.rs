//! A record of the hashing done: every path handed to the hasher, paired
//! with the answer that came back for it.
//!
//! What a file hashes to depends on its bytes on disk, so nothing can say
//! which hash a path has. What can be said is which path each answer was
//! computed from, and that is what this record keeps: duplicate detection
//! states, over it, that every entry carries the answer for its own path.
use vstd::prelude::*;
use std::sync::atomic::AtomicBool;
use crate::dedup::{hash_all, hex_hash};

verus! {

/// A hashing answer as characters, or nothing when the file could not be
/// read or the run was cancelled first.
pub open spec fn answer_view(h: Option<String>) -> Option<Seq<char>> {
    match h {
        Some(s) => Some(s@),
        None => None,
    }
}

/// Each path of `paths` beside the answer at its position in `hs`.
pub open spec fn paired(paths: Seq<String>, hs: Seq<Option<String>>) -> Seq<(Seq<char>, Option<Seq<char>>)> {
    Seq::new(paths.len(), |k: int| (paths[k]@, answer_view(hs[k])))
}

/// The paths hashed, each beside the answer hashing it gave, in the order
/// they were asked for. Only [`HashLog::hash_paths`] adds to it.
pub struct HashLog {
    record: Ghost<Seq<(Seq<char>, Option<Seq<char>>)>>,
}

impl HashLog {
    /// (path, answer) for every path handed to the hasher, in order.
    pub closed spec fn record(&self) -> Seq<(Seq<char>, Option<Seq<char>>)> {
        self.record@
    }

    /// A record of no hashing yet.
    pub fn new() -> (log: HashLog)
        ensures
            log.record() == Seq::<(Seq<char>, Option<Seq<char>>)>::empty(),
    {
        HashLog { record: Ghost(Seq::empty()) }
    }

    /// Hash the file at each of `paths` (in parallel; once `cancelled` is
    /// set the answers not yet given are `None`), one answer per path in
    /// order, and record each path beside its answer.
    pub fn hash_paths(&mut self, paths: &Vec<String>, cancelled: Option<&AtomicBool>) -> (hs: Vec<Option<String>>)
        ensures
            hs@.len() == paths@.len(),
            forall|k: int| 0 <= k < hs@.len() ==> (#[trigger] hs@[k] matches Some(s) ==> hex_hash(s@)),
            final(self).record() == old(self).record() + paired(paths@, hs@),
    {
        let hs = hash_all(paths, cancelled);
        self.record = Ghost(self.record@ + paired(paths@, hs@));
        hs
    }
}

} // verus!
