//! Duplicate detection: size-first staging, then parallel BLAKE3.
//!
//! 1. Group by size — unique sizes cannot be duplicates, skip them.
//! 2. Hash the survivors in parallel (rayon + blake3).
//! 3. Group by hash — groups of 2+ are duplicate sets, biggest waste first.
use vstd::prelude::*;
use vstd::std_specs::hash::group_hash_axioms;
use vstd::seq_lib::group_to_multiset_ensures;
use vstd::multiset::group_multiset_axioms;
use crate::hash_log::{answer_view, paired, HashLog};
use crate::paths::{PathTable, NO_ENTRY};
use crate::text::{chars_of, string_from};
use crate::{identity_key, key_of, lemma_identity_key_injective, stop_requested, FileEntry};
use std::collections::HashSet;
use rayon::iter::{IntoParallelRefIterator, ParallelIterator};
use std::collections::HashMap;
use std::sync::atomic::AtomicBool;

verus! {

broadcast use group_hash_axioms;

// ---------------------------------------------------------------------------
// Outside work, behind trusted items

/// `s` is 64 lowercase hex digits: a BLAKE3 hash as `to_hex` spells it.
pub open spec fn hex_hash(s: Seq<char>) -> bool {
    &&& s.len() == 64
    &&& forall|i: int| 0 <= i < s.len() ==> ('0' <= #[trigger] s[i] <= '9' || 'a' <= s[i] <= 'f')
}

/// The BLAKE3 hash of the file at `path`, as lowercase hex
/// (`blake3::Hasher::update_mmap_rayon`, then `finalize().to_hex()`).
/// What comes back depends on the file's bytes on disk, so nothing is
/// stated of the value beyond its shape: 64 lowercase hex digits, or
/// `None` when the file could not be read.
#[verifier::external_body]
fn hash_file(path: &str) -> (h: Option<String>)
    ensures
        h matches Some(s) ==> hex_hash(s@),
{
    let mut hasher = blake3::Hasher::new();
    hasher.update_mmap_rayon(path).ok()?;
    Some(hasher.finalize().to_hex().to_string())
}

/// `rayon`'s parallel map of [`hash_candidate`] over `paths`, collected in
/// order: one result per path.
#[verifier::external_body]
pub(crate) fn hash_all(paths: &Vec<String>, cancelled: Option<&AtomicBool>) -> (hs: Vec<Option<String>>)
    ensures
        hs@.len() == paths@.len(),
        forall|k: int| 0 <= k < hs@.len() ==> (#[trigger] hs@[k] matches Some(s) ==> hex_hash(s@)),
{
    paths.par_iter().map(|p| hash_candidate(p, cancelled)).collect()
}

/// `<[T]>::sort_unstable` on pairs, which std orders lexicographically:
/// the result holds the same pairs, in ascending order.
#[verifier::external_body]
fn sort_pairs(v: &mut Vec<(u64, u64)>)
    ensures
        final(v)@.to_multiset() == old(v)@.to_multiset(),
        forall|i: int, j: int|
            0 <= i < j < final(v)@.len() ==> pair_le(#[trigger] final(v)@[i], #[trigger] final(v)@[j]),
{
    v.sort_unstable();
}

/// Lexicographic order on pairs, as std's `Ord` for tuples defines it.
pub open spec fn pair_le(a: (u64, u64), b: (u64, u64)) -> bool {
    a.0 < b.0 || (a.0 == b.0 && a.1 <= b.1)
}

/// One candidate's hash: none once the run is cancelled, so a cancel
/// drains the remaining work in the time the slowest file takes.
fn hash_candidate(path: &String, cancelled: Option<&AtomicBool>) -> (h: Option<String>)
    ensures
        h matches Some(s) ==> hex_hash(s@),
{
    if stop_requested(cancelled) {
        return None;
    }
    hash_file(path.as_str())
}

// ---------------------------------------------------------------------------
// What duplicate detection computes

#[derive(Clone, Debug)]
pub struct DuplicateSet {
    pub hash: String,
    pub size: u64,
    pub paths: Vec<String>,
    /// Bytes reclaimable = size * (copies - 1).
    pub wasted: u64,
}

/// How many eligible entries among the first `n` have size `s`.
pub open spec fn size_count(es: Seq<FileEntry>, eligible: Seq<bool>, s: u64, n: int) -> nat
    decreases n,
{
    if n <= 0 {
        0
    } else {
        size_count(es, eligible, s, n - 1) + if eligible[n - 1] && es[n - 1].size == s {
            1nat
        } else {
            0nat
        }
    }
}

/// An entry is hashed when it is eligible and another eligible entry has
/// its size: unique sizes cannot be duplicates.
pub open spec fn is_candidate(es: Seq<FileEntry>, eligible: Seq<bool>, i: int) -> bool {
    eligible[i] && size_count(es, eligible, es[i].size, es.len() as int) >= 2
}

pub open spec fn hash_of(e: FileEntry) -> Option<Seq<char>> {
    match e.hash {
        Some(h) => Some(h@),
        None => None,
    }
}

/// The hash an entry takes part in stage 3 with: its own, when it is
/// eligible; none otherwise.
pub open spec fn tags(es: Seq<FileEntry>, eligible: Seq<bool>) -> Seq<Option<Seq<char>>> {
    Seq::new(es.len(), |i: int| if eligible[i] { hash_of(es[i]) } else { None })
}

/// The distinct hashes among the tags, in order of first appearance.
pub open spec fn hash_keys(ts: Seq<Option<Seq<char>>>) -> Seq<Seq<char>>
    decreases ts.len(),
{
    if ts.len() == 0 {
        seq![]
    } else {
        let ks = hash_keys(ts.drop_last());
        match ts.last() {
            Some(h) => if ks.contains(h) {
                ks
            } else {
                ks.push(h)
            },
            None => ks,
        }
    }
}

/// The positions tagged with hash `h`, in order.
pub open spec fn members(ts: Seq<Option<Seq<char>>>, h: Seq<char>) -> Seq<int>
    decreases ts.len(),
{
    if ts.len() == 0 {
        seq![]
    } else {
        members(ts.drop_last(), h) + if ts.last() == Some(h) {
            seq![ts.len() - 1]
        } else {
            seq![]
        }
    }
}

/// `size * (copies - 1)`, capped at `u64::MAX`.
pub open spec fn wasted_bytes(size: u64, copies: nat) -> u64 {
    if size * (copies - 1) > u64::MAX {
        u64::MAX
    } else {
        (size * (copies - 1)) as u64
    }
}

/// `d` is the duplicate set of the entries carrying hash `h`: those
/// entries' paths in order, the first one's size, and the waste.
pub open spec fn describes(d: DuplicateSet, es: Seq<FileEntry>, eligible: Seq<bool>, h: Seq<char>) -> bool {
    let m = members(tags(es, eligible), h);
    &&& m.len() >= 2
    &&& d.hash@ == h
    &&& d.size == es[m[0]].size
    &&& d.paths@.len() == m.len()
    &&& forall|k: int| 0 <= k < m.len() ==> #[trigger] d.paths@[k]@ == es[m[k]].path@
    &&& d.wasted == wasted_bytes(d.size, m.len())
}

/// The duplicate sets of `es`: one per hash carried by two or more
/// entries, biggest waste first, ties in order of first appearance.
pub open spec fn are_duplicate_sets(sets: Seq<DuplicateSet>, es: Seq<FileEntry>, eligible: Seq<bool>) -> bool {
    let ts = tags(es, eligible);
    let keys = hash_keys(ts);
    &&& forall|k: int|
        0 <= k < sets.len() ==> keys.contains((#[trigger] sets[k]).hash@) && describes(sets[k], es, eligible, sets[k].hash@)
    &&& forall|g: int|
        0 <= g < keys.len() && members(ts, #[trigger] keys[g]).len() >= 2 ==> exists|k: int|
            0 <= k < sets.len() && sets[k].hash@ == keys[g]
    &&& forall|i: int, j: int| 0 <= i < j < sets.len() ==> (#[trigger] sets[i]).hash@ != (#[trigger] sets[j]).hash@
    &&& forall|i: int, j: int|
        0 <= i < j < sets.len() ==> (#[trigger] sets[i]).wasted > (#[trigger] sets[j]).wasted || (
        sets[i].wasted == sets[j].wasted && exists|gi: int, gj: int|
            0 <= gi < gj < keys.len() && keys[gi] == sets[i].hash@ && keys[gj] == sets[j].hash@)
}

/// The entries after hashing: candidates carry what hashing returned,
/// everything else is as it was.
pub open spec fn hashed_from(after: Seq<FileEntry>, before: Seq<FileEntry>, eligible: Seq<bool>) -> bool {
    &&& after.len() == before.len()
    &&& forall|i: int|
        0 <= i < before.len() ==> {
            let a = #[trigger] after[i];
            let b = before[i];
            &&& a.path == b.path
            &&& a.size == b.size
            &&& a.modified == b.modified
            &&& a.accessed == b.accessed
            &&& a.is_symlink == b.is_symlink
            &&& a.identity == b.identity
            &&& !is_candidate(before, eligible, i) ==> a.hash == b.hash
        }
}

/// Each candidate carries what hashing its own path answered: the hashing
/// record, from position `from` on, holds that entry's path beside the
/// hash the entry now records.
pub open spec fn hashed_own_paths(
    after: Seq<FileEntry>,
    before: Seq<FileEntry>,
    eligible: Seq<bool>,
    record: Seq<(Seq<char>, Option<Seq<char>>)>,
    from: int,
) -> bool {
    forall|i: int|
        0 <= i < before.len() && #[trigger] is_candidate(before, eligible, i) ==> exists|k: int|
            from <= k < record.len() && #[trigger] record[k] == (before[i].path@, hash_of(after[i]))
}

// ---------------------------------------------------------------------------
// Stage 1: size buckets

proof fn lemma_size_count_step(es: Seq<FileEntry>, eligible: Seq<bool>, s: u64, n: int)
    requires
        0 <= n,
    ensures
        size_count(es, eligible, s, n + 1) == size_count(es, eligible, s, n) + if eligible[n]
            && es[n].size == s {
            1nat
        } else {
            0nat
        },
{
}

proof fn lemma_size_count_bound(es: Seq<FileEntry>, eligible: Seq<bool>, s: u64, n: int)
    requires
        0 <= n,
    ensures
        size_count(es, eligible, s, n) <= n,
    decreases n,
{
    if n > 0 {
        lemma_size_count_bound(es, eligible, s, n - 1);
    }
}

/// The positions of the entries worth hashing, ascending.
fn candidates(entries: &Vec<FileEntry>, eligible: &Vec<bool>) -> (r: Vec<usize>)
    requires
        eligible@.len() == entries@.len(),
    ensures
        forall|k: int| 0 <= k < r@.len() ==> #[trigger] r@[k] < entries@.len(),
        forall|k: int| 0 <= k < r@.len() ==> is_candidate(entries@, eligible@, #[trigger] r@[k] as int),
        forall|i: int| 0 <= i < entries@.len() && is_candidate(entries@, eligible@, i) ==> r@.contains(i as usize),
        forall|a: int, b: int| 0 <= a < b < r@.len() ==> #[trigger] r@[a] < #[trigger] r@[b],
{
    let n = entries.len();
    let mut counts: HashMap<u64, usize> = HashMap::new();
    let mut i: usize = 0;
    while i < n
        invariant
            n == entries@.len(),
            eligible@.len() == n,
            i <= n,
            forall|s: u64|
                #[trigger] counts@.contains_key(s) ==> counts@[s] as nat == size_count(
                    entries@,
                    eligible@,
                    s,
                    i as int,
                ),
            forall|s: u64|
                !(#[trigger] counts@.contains_key(s)) ==> size_count(entries@, eligible@, s, i as int)
                    == 0,
        decreases n - i,
    {
        proof {
            assert forall|s: u64| true implies size_count(entries@, eligible@, s, i + 1) == size_count(
                entries@,
                eligible@,
                s,
                i as int,
            ) + if eligible@[i as int] && entries@[i as int].size == s {
                1nat
            } else {
                0nat
            } by {
                lemma_size_count_step(entries@, eligible@, s, i as int);
            }
        }
        if eligible[i] {
            let s = entries[i].size;
            let c: usize = match counts.get(&s) {
                Some(c) => *c,
                None => 0,
            };
            proof {
                lemma_size_count_bound(entries@, eligible@, s, i as int);
            }
            counts.insert(s, c + 1);
        }
        i = i + 1;
    }
    let mut r: Vec<usize> = Vec::new();
    let mut j: usize = 0;
    while j < n
        invariant
            n == entries@.len(),
            eligible@.len() == n,
            j <= n,
            forall|s: u64|
                #[trigger] counts@.contains_key(s) ==> counts@[s] as nat == size_count(
                    entries@,
                    eligible@,
                    s,
                    n as int,
                ),
            forall|s: u64|
                !(#[trigger] counts@.contains_key(s)) ==> size_count(entries@, eligible@, s, n as int)
                    == 0,
            forall|k: int| 0 <= k < r@.len() ==> #[trigger] r@[k] < j,
            forall|k: int| 0 <= k < r@.len() ==> is_candidate(entries@, eligible@, #[trigger] r@[k] as int),
            forall|x: int| 0 <= x < j && is_candidate(entries@, eligible@, x) ==> r@.contains(x as usize),
            forall|a: int, b: int| 0 <= a < b < r@.len() ==> #[trigger] r@[a] < #[trigger] r@[b],
        decreases n - j,
    {
        let ghost r0 = r@;
        if eligible[j] {
            let s = entries[j].size;
            let c: usize = match counts.get(&s) {
                Some(c) => *c,
                None => 0,
            };
            if c >= 2 {
                r.push(j);
            }
        }
        proof {
            assert forall|x: int| 0 <= x < j + 1 && is_candidate(entries@, eligible@, x) implies r@.contains(x as usize) by {
                if x < j {
                    let k = choose|k: int| 0 <= k < r0.len() && r0[k] == x as usize;
                    assert(r@[k] == r0[k]);
                } else {
                    assert(r@[r@.len() - 1] == j);
                }
            }
        }
        j = j + 1;
    }
    r
}

// ---------------------------------------------------------------------------
// Stage 3: hash buckets

pub open spec fn as_ints(v: Seq<usize>) -> Seq<int> {
    v.map_values(|x: usize| x as int)
}

proof fn lemma_group_step(ts: Seq<Option<Seq<char>>>, i: int, h: Seq<char>)
    requires
        0 <= i < ts.len(),
    ensures
        members(ts.take(i + 1), h) == members(ts.take(i), h) + if ts[i] == Some(h) {
            seq![i]
        } else {
            seq![]
        },
        hash_keys(ts.take(i + 1)) == match ts[i] {
            Some(k) => if hash_keys(ts.take(i)).contains(k) {
                hash_keys(ts.take(i))
            } else {
                hash_keys(ts.take(i)).push(k)
            },
            None => hash_keys(ts.take(i)),
        },
{
    assert(ts.take(i + 1).drop_last() =~= ts.take(i));
    assert(ts.take(i + 1).last() == ts[i]);
}

/// The distinct hashes the eligible entries carry, and for each the
/// positions of the eligible entries carrying it.
fn group_by_hash(entries: &Vec<FileEntry>, eligible: &Vec<bool>) -> (r: (PathTable, Vec<Vec<usize>>))
    requires
        entries@.len() < NO_ENTRY - 2,
        eligible@.len() == entries@.len(),
    ensures
        r.0.wf(),
        r.0.view() == hash_keys(tags(entries@, eligible@)),
        r.1@.len() == r.0.view().len(),
        forall|g: int|
            0 <= g < r.1@.len() ==> as_ints((#[trigger] r.1@[g])@) == members(
                tags(entries@, eligible@),
                r.0.view()[g],
            ),
{
    let n = entries.len();
    let ghost ts = tags(entries@, eligible@);
    let mut keys = PathTable::new();
    let mut groups: Vec<Vec<usize>> = Vec::new();
    let mut i: usize = 0;
    proof {
        assert(ts.take(0) =~= Seq::<Option<Seq<char>>>::empty());
        assert(keys.view() =~= hash_keys(ts.take(0)));
    }
    while i < n
        invariant
            n == entries@.len(),
            n == eligible@.len(),
            ts == tags(entries@, eligible@),
            n < NO_ENTRY - 2,
            i <= n,
            keys.wf(),
            keys.view().len() <= i,
            keys.view() == hash_keys(ts.take(i as int)),
            groups@.len() == keys.view().len(),
            forall|g: int|
                0 <= g < groups@.len() ==> as_ints((#[trigger] groups@[g])@) == members(
                    ts.take(i as int),
                    keys.view()[g],
                ),
            forall|h: Seq<char>|
                !keys.view().contains(h) ==> #[trigger] members(ts.take(i as int), h)
                    == Seq::<int>::empty(),
        decreases n - i,
    {
        proof {
            assert forall|h: Seq<char>| true implies #[trigger] members(ts.take(i + 1), h)
                == members(ts.take(i as int), h) + if ts[i as int] == Some(h) {
                seq![i as int]
            } else {
                seq![]
            } by {
                lemma_group_step(ts, i as int, h);
            }
            lemma_group_step(ts, i as int, Seq::<char>::empty());
        }
        let ghost keys0 = keys.view();
        let ghost groups0 = groups@;
        let tagged: Option<&String> = if eligible[i] {
            entries[i].hash.as_ref()
        } else {
            None
        };
        match tagged {
            Some(h) => {
                let hc = chars_of(h.as_str());
                let ghost hv = hc@;
                assert(ts[i as int] == Some(hv));
                let (g, added) = keys.insert(hc);
                if added {
                    let mut fresh: Vec<usize> = Vec::new();
                    fresh.push(i);
                    groups.push(fresh);
                    proof {
                        assert(!keys0.contains(hv));
                        assert forall|gg: int|
                            0 <= gg < groups@.len() implies as_ints((#[trigger] groups@[gg])@) == members(
                                ts.take(i + 1),
                                keys.view()[gg],
                            ) by {
                            if gg < groups0.len() {
                                assert(groups@[gg] == groups0[gg]);
                                assert(keys.view()[gg] == keys0[gg]);
                                assert(keys0[gg] != hv);
                            } else {
                                assert(as_ints(groups@[gg]@) =~= seq![i as int]);
                                assert(members(ts.take(i as int), hv) =~= Seq::<int>::empty());
                            }
                        }
                    }
                } else {
                    groups[g].push(i);
                    proof {
                        assert forall|gg: int|
                            0 <= gg < groups@.len() implies as_ints((#[trigger] groups@[gg])@) == members(
                                ts.take(i + 1),
                                keys.view()[gg],
                            ) by {
                            if gg != g {
                                assert(groups@[gg] == groups0[gg]);
                                keys.lemma_distinct();
                                assert(keys.view()[gg] != hv);
                            } else {
                                assert(as_ints(groups@[gg]@) =~= as_ints(groups0[gg]@).push(i as int));
                            }
                        }
                    }
                }
                proof {
                    assert forall|hh: Seq<char>| !keys.view().contains(hh) implies #[trigger] members(
                        ts.take(i + 1),
                        hh,
                    ) == Seq::<int>::empty() by {
                        assert(!keys0.contains(hh)) by {
                            if keys0.contains(hh) {
                                let x = choose|x: int| 0 <= x < keys0.len() && keys0[x] == hh;
                                assert(keys.view()[x] == hh);
                            }
                        }
                        if hh == hv {
                            assert(keys.view()[g as int] == hv);
                        }
                    }
                }
            },
            None => {
                assert(ts[i as int] is None);
                proof {
                    assert forall|gg: int|
                        0 <= gg < groups@.len() implies as_ints((#[trigger] groups@[gg])@) == members(
                            ts.take(i + 1),
                            keys.view()[gg],
                        ) by {
                        assert(members(ts.take(i + 1), keys.view()[gg]) =~= members(ts.take(i as int), keys.view()[gg]));
                    }
                    assert forall|hh: Seq<char>| !keys.view().contains(hh) implies #[trigger] members(
                        ts.take(i + 1),
                        hh,
                    ) == Seq::<int>::empty() by {
                        assert(members(ts.take(i + 1), hh) =~= members(ts.take(i as int), hh));
                    }
                }
            },
        }
        i = i + 1;
    }
    proof {
        assert(ts.take(n as int) =~= ts);
    }
    (keys, groups)
}

// ---------------------------------------------------------------------------
// Ordering the sets

/// The qualifying groups, biggest waste first, ties by group position.
pub(crate) fn ordered_groups(ws: &Vec<u64>, qual: &Vec<bool>) -> (r: Vec<usize>)
    requires
        ws@.len() == qual@.len(),
    ensures
        forall|k: int| 0 <= k < r@.len() ==> #[trigger] r@[k] < ws@.len() && qual@[r@[k] as int],
        forall|g: int| 0 <= g < ws@.len() && qual@[g] ==> r@.contains(g as usize),
        forall|i: int, j: int| 0 <= i < j < r@.len() ==> #[trigger] r@[i] != #[trigger] r@[j],
        forall|i: int, j: int|
            0 <= i < j < r@.len() ==> ws@[#[trigger] r@[i] as int] > ws@[#[trigger] r@[j] as int] || (ws@[r@[i] as int]
                == ws@[r@[j] as int] && r@[i] < r@[j]),
        (forall|g: int| 0 <= g < qual@.len() ==> #[trigger] qual@[g]) ==> r@.len() == ws@.len(),
{
    broadcast use group_to_multiset_ensures, group_multiset_axioms;

    let n = ws.len();
    let mut pairs: Vec<(u64, u64)> = Vec::new();
    let mut g: usize = 0;
    while g < n
        invariant
            n == ws@.len(),
            n == qual@.len(),
            g <= n,
            forall|k: int| 0 <= k < pairs@.len() ==> (#[trigger] pairs@[k]).1 < g && qual@[pairs@[k].1 as int]
                && pairs@[k].0 == u64::MAX - ws@[pairs@[k].1 as int],
            forall|x: int| 0 <= x < g && qual@[x] ==> exists|k: int| 0 <= k < pairs@.len() && (#[trigger] pairs@[k]).1 == x,
            forall|a: int, b: int| 0 <= a < b < pairs@.len() ==> (#[trigger] pairs@[a]).1 < (#[trigger] pairs@[b]).1,
            (forall|x: int| 0 <= x < qual@.len() ==> #[trigger] qual@[x]) ==> pairs@.len() == g,
        decreases n - g,
    {
        if qual[g] {
            let ghost p0 = pairs@;
            pairs.push((u64::MAX - ws[g], g as u64));
            proof {
                assert forall|x: int| 0 <= x < g + 1 && qual@[x] implies exists|k: int| 0 <= k < pairs@.len() && (#[trigger] pairs@[k]).1 == x by {
                    if x < g {
                        let k = choose|k: int| 0 <= k < p0.len() && (#[trigger] p0[k]).1 == x;
                        assert(pairs@[k] == p0[k]);
                    } else {
                        assert(pairs@[pairs@.len() - 1].1 == x);
                    }
                }
            }
        }
        g = g + 1;
    }
    let ghost before = pairs@;
    proof {
        assert(before.no_duplicates());
        before.lemma_multiset_has_no_duplicates();
    }
    sort_pairs(&mut pairs);
    proof {
        assert(pairs@.len() == before.len()) by {
            pairs@.lemma_multiset_has_no_duplicates_conv();
            assert(pairs@.to_multiset().len() == before.to_multiset().len());
        }
        pairs@.lemma_multiset_has_no_duplicates_conv();
        assert forall|x: (u64, u64)| pairs@.contains(x) <==> before.contains(x) by {
            assert(pairs@.contains(x) <==> pairs@.to_multiset().count(x) > 0);
            assert(before.contains(x) <==> before.to_multiset().count(x) > 0);
        }
    }
    let mut r: Vec<usize> = Vec::new();
    let mut k: usize = 0;
    while k < pairs.len()
        invariant
            n == ws@.len(),
            n == qual@.len(),
            k <= pairs@.len(),
            r@.len() == k,
            forall|j: int| 0 <= j < k ==> (#[trigger] r@[j]) as int == pairs@[j].1 as int,
            forall|x: (u64, u64)| pairs@.contains(x) <==> before.contains(x),
            forall|kk: int| 0 <= kk < before.len() ==> (#[trigger] before[kk]).1 < n && qual@[before[kk].1 as int]
                && before[kk].0 == u64::MAX - ws@[before[kk].1 as int],
        decreases pairs@.len() - k,
    {
        let p = pairs[k];
        proof {
            assert(pairs@[k as int] == p);
            assert(pairs@.contains(p));
            assert(before.contains(p));
            let kk = choose|kk: int| 0 <= kk < before.len() && before[kk] == p;
            assert(before[kk].1 < n);
        }
        r.push(p.1 as usize);
        k = k + 1;
    }
    proof {
        assert forall|j: int| 0 <= j < r@.len() implies #[trigger] r@[j] < ws@.len() && qual@[r@[j] as int] && pairs@[j].0 == u64::MAX - ws@[r@[j] as int] by {
            assert(pairs@.contains(pairs@[j]));
            assert(before.contains(pairs@[j]));
            let kk = choose|kk: int| 0 <= kk < before.len() && before[kk] == pairs@[j];
            assert(before[kk].1 < n);
        }
        assert forall|gg: int| 0 <= gg < ws@.len() && qual@[gg] implies r@.contains(gg as usize) by {
            let kk = choose|kk: int| 0 <= kk < before.len() && (#[trigger] before[kk]).1 == gg;
            assert(before.contains(before[kk]));
            assert(pairs@.contains(before[kk]));
            let j = choose|j: int| 0 <= j < pairs@.len() && pairs@[j] == before[kk];
            assert(r@[j] == gg as usize);
        }
        assert forall|i: int, j: int| 0 <= i < j < r@.len() implies #[trigger] r@[i] != #[trigger] r@[j] by {
            assert(pairs@[i] != pairs@[j]);
            assert(pairs@.contains(pairs@[i]));
            assert(pairs@.contains(pairs@[j]));
            assert(before.contains(pairs@[i]));
            assert(before.contains(pairs@[j]));
            let a = choose|a: int| 0 <= a < before.len() && before[a] == pairs@[i];
            let b = choose|b: int| 0 <= b < before.len() && before[b] == pairs@[j];
            assert(before[a].1 < n && before[b].1 < n);
        }
        assert forall|i: int, j: int| 0 <= i < j < r@.len() implies ws@[#[trigger] r@[i] as int] > ws@[#[trigger] r@[j] as int] || (ws@[r@[i] as int]
                == ws@[r@[j] as int] && r@[i] < r@[j]) by {
            assert(pair_le(pairs@[i], pairs@[j]));
            assert(pairs@[i] != pairs@[j]);
            assert(pairs@.contains(pairs@[i]));
            assert(pairs@.contains(pairs@[j]));
            assert(before.contains(pairs@[i]));
            assert(before.contains(pairs@[j]));
            let a = choose|a: int| 0 <= a < before.len() && before[a] == pairs@[i];
            let b = choose|b: int| 0 <= b < before.len() && before[b] == pairs@[j];
            assert(before[a].1 < n && before[b].1 < n);
        }
    }
    r
}


// ---------------------------------------------------------------------------
// Assembling the sets

pub proof fn lemma_members(ts: Seq<Option<Seq<char>>>, h: Seq<char>)
    ensures
        forall|j: int|
            0 <= j < members(ts, h).len() ==> 0 <= #[trigger] members(ts, h)[j] < ts.len()
                && ts[members(ts, h)[j]] == Some(h),
    decreases ts.len(),
{
    if ts.len() > 0 {
        lemma_members(ts.drop_last(), h);
        assert forall|j: int| 0 <= j < members(ts, h).len() implies 0 <= #[trigger] members(ts, h)[j] < ts.len()
            && ts[members(ts, h)[j]] == Some(h) by {
            let m0 = members(ts.drop_last(), h);
            if j < m0.len() {
                assert(members(ts, h)[j] == m0[j]);
                assert(ts.drop_last()[m0[j]] == ts[m0[j]]);
            }
        }
    }
}

/// `size * (copies - 1)`, or `u64::MAX` where that does not fit.
fn waste_of(size: u64, copies: usize) -> (w: u64)
    requires
        copies >= 1,
    ensures
        w == wasted_bytes(size, copies as nat),
{
    let redundant = (copies - 1) as u64;
    match size.checked_mul(redundant) {
        Some(w) => w,
        None => u64::MAX,
    }
}

/// The set for one group of entries.
fn set_of(entries: &Vec<FileEntry>, hash: &Vec<char>, group: &Vec<usize>, wasted: u64) -> (d: DuplicateSet)
    requires
        group@.len() >= 1,
        forall|j: int| 0 <= j < group@.len() ==> #[trigger] group@[j] < entries@.len(),
    ensures
        d.hash@ == hash@,
        d.size == entries@[group@[0] as int].size,
        d.paths@.len() == group@.len(),
        forall|j: int| 0 <= j < group@.len() ==> #[trigger] d.paths@[j]@ == entries@[group@[j] as int].path@,
        d.wasted == wasted,
{
    let mut paths: Vec<String> = Vec::new();
    let mut j: usize = 0;
    while j < group.len()
        invariant
            j <= group@.len(),
            paths@.len() == j,
            forall|x: int| 0 <= x < group@.len() ==> #[trigger] group@[x] < entries@.len(),
            forall|x: int| 0 <= x < j ==> #[trigger] paths@[x]@ == entries@[group@[x] as int].path@,
        decreases group@.len() - j,
    {
        paths.push(entries[group[j]].path.clone());
        j = j + 1;
    }
    DuplicateSet { hash: string_from(hash), size: entries[group[0]].size, paths, wasted }
}

proof fn lemma_sets_are_duplicate_sets(
    sets: Seq<DuplicateSet>,
    es: Seq<FileEntry>,
    eligible: Seq<bool>,
    keys: Seq<Seq<char>>,
    groups: Seq<Vec<usize>>,
    ws: Seq<u64>,
    qual: Seq<bool>,
    order: Seq<usize>,
)
    requires
        keys == hash_keys(tags(es, eligible)),
        keys.len() <= usize::MAX,
        groups.len() == keys.len(),
        ws.len() == keys.len(),
        qual.len() == keys.len(),
        forall|i: int, j: int| 0 <= i < keys.len() && 0 <= j < keys.len() && keys[i] == keys[j] ==> i == j,
        forall|g: int| 0 <= g < groups.len() ==> as_ints((#[trigger] groups[g])@) == members(tags(es, eligible), keys[g]),
        forall|g: int| 0 <= g < groups.len() ==> #[trigger] qual[g] == (groups[g]@.len() >= 2),
        forall|g: int|
            0 <= g < groups.len() && qual[g] ==> #[trigger] ws[g] == wasted_bytes(
                es[groups[g]@[0] as int].size,
                groups[g]@.len(),
            ),
        forall|k: int| 0 <= k < order.len() ==> #[trigger] order[k] < ws.len() && qual[order[k] as int],
        forall|g: int| 0 <= g < ws.len() && qual[g] ==> order.contains(g as usize),
        forall|i: int, j: int| 0 <= i < j < order.len() ==> #[trigger] order[i] != #[trigger] order[j],
        forall|i: int, j: int|
            0 <= i < j < order.len() ==> ws[#[trigger] order[i] as int] > ws[#[trigger] order[j] as int] || (
            ws[order[i] as int] == ws[order[j] as int] && order[i] < order[j]),
        sets.len() == order.len(),
        forall|x: int|
            0 <= x < sets.len() ==> {
                let gg = order[x] as int;
                let d = #[trigger] sets[x];
                &&& d.hash@ == keys[gg]
                &&& d.size == es[groups[gg]@[0] as int].size
                &&& d.paths@.len() == groups[gg]@.len()
                &&& forall|j: int| 0 <= j < groups[gg]@.len() ==> #[trigger] d.paths@[j]@ == es[groups[gg]@[j] as int].path@
                &&& d.wasted == ws[gg]
            },
    ensures
        are_duplicate_sets(sets, es, eligible),
{
    let ts = tags(es, eligible);
    assert forall|k: int| 0 <= k < sets.len() implies keys.contains((#[trigger] sets[k]).hash@) && describes(sets[k], es, eligible, sets[k].hash@) by {
        let g = order[k] as int;
        let m = members(ts, keys[g]);
        assert(as_ints(groups[g]@) == m);
        assert(m.len() == groups[g]@.len());
        assert(m[0] == groups[g]@[0] as int);
        assert forall|j: int| 0 <= j < m.len() implies #[trigger] sets[k].paths@[j]@ == es[m[j]].path@ by {
            assert(m[j] == groups[g]@[j] as int);
        }
        assert(describes(sets[k], es, eligible, keys[g]));
    }
    assert forall|g: int| 0 <= g < keys.len() && members(ts, #[trigger] keys[g]).len() >= 2 implies exists|k: int|
        0 <= k < sets.len() && sets[k].hash@ == keys[g] by {
        assert(as_ints(groups[g]@) == members(ts, keys[g]));
        assert(qual[g]);
        assert(order.contains(g as usize));
        let k = choose|k: int| 0 <= k < order.len() && order[k] == g as usize;
        assert(order[k] as int == g);
        let d = sets[k];
        assert(d.hash@ == keys[order[k] as int]);
    }
    assert forall|i: int, j: int| 0 <= i < j < sets.len() implies (#[trigger] sets[i]).hash@ != (#[trigger] sets[j]).hash@ by {
        assert(order[i] != order[j]);
        assert(order[i] < ws.len() && order[j] < ws.len());
    }
    assert forall|i: int, j: int| 0 <= i < j < sets.len() implies (#[trigger] sets[i]).wasted > (#[trigger] sets[j]).wasted || (
        sets[i].wasted == sets[j].wasted && exists|gi: int, gj: int|
            0 <= gi < gj < keys.len() && keys[gi] == sets[i].hash@ && keys[gj] == sets[j].hash@) by {
        let gi = order[i] as int;
        let gj = order[j] as int;
        assert(ws[gi] > ws[gj] || (ws[gi] == ws[gj] && gi < gj));
        assert(order[i] < ws.len() && order[j] < ws.len());
        if ws[gi] == ws[gj] {
            assert(keys[gi] == sets[i].hash@ && keys[gj] == sets[j].hash@);
        }
    }
}

/// The three stages, with a cancellation flag or none.
fn duplicates_of(
    entries: &mut Vec<FileEntry>,
    eligible: &Vec<bool>,
    cancelled: Option<&AtomicBool>,
    log: &mut HashLog,
) -> (r: Option<Vec<DuplicateSet>>)
    requires
        eligible@.len() == old(entries)@.len(),
        old(entries)@.len() < NO_ENTRY - 2,
    ensures
        cancelled is None ==> r is Some,
        r is Some ==> hashed_own_paths(
            final(entries)@,
            old(entries)@,
            eligible@,
            final(log).record(),
            old(log).record().len() as int,
        ),
        r is None ==> final(entries)@ == old(entries)@,
        r is Some ==> hashed_from(final(entries)@, old(entries)@, eligible@),
        r is Some ==> forall|i: int|
            0 <= i < old(entries)@.len() && is_candidate(old(entries)@, eligible@, i)
                ==> (#[trigger] final(entries)@[i].hash matches Some(h) ==> h@.len() == 64),
        r matches Some(sets) ==> are_duplicate_sets(sets@, final(entries)@, eligible@),
{
    // Stage 1: only sizes another eligible entry shares.
    let cands = candidates(entries, eligible);
    let mut paths: Vec<String> = Vec::new();
    let mut k: usize = 0;
    while k < cands.len()
        invariant
            k <= cands@.len(),
            paths@.len() == k,
            forall|x: int| 0 <= x < cands@.len() ==> #[trigger] cands@[x] < entries@.len(),
            forall|x: int| 0 <= x < k ==> #[trigger] paths@[x]@ == entries@[cands@[x] as int].path@,
        decreases cands@.len() - k,
    {
        paths.push(entries[cands[k]].path.clone());
        k = k + 1;
    }

    // Stage 2: hash them, each candidate's own file.
    let ghost base = log.record().len() as int;
    let mut hashes = log.hash_paths(&paths, cancelled);
    let ghost hs0 = hashes@;
    if stop_requested(cancelled) {
        return None;
    }
    let ghost before = entries@;
    while hashes.len() > 0
        invariant
            hashes@.len() <= cands@.len(),
            hs0.len() == cands@.len(),
            hashes@ == hs0.take(hashes@.len() as int),
            forall|x: int|
                hashes@.len() <= x < cands@.len() ==> hash_of(#[trigger] entries@[cands@[x] as int]) == answer_view(
                    hs0[x],
                ),
            entries@.len() == before.len(),
            eligible@.len() == before.len(),
            forall|x: int| 0 <= x < cands@.len() ==> #[trigger] cands@[x] < before.len(),
            forall|x: int| 0 <= x < cands@.len() ==> is_candidate(before, eligible@, #[trigger] cands@[x] as int),
            forall|a: int, b: int| 0 <= a < b < cands@.len() ==> #[trigger] cands@[a] < #[trigger] cands@[b],
            forall|x: int| 0 <= x < hashes@.len() ==> (#[trigger] hashes@[x] matches Some(s) ==> s@.len() == 64),
            forall|i: int| 0 <= i < before.len() ==> {
                let a = #[trigger] entries@[i];
                let b = before[i];
                &&& a.path == b.path
                &&& a.size == b.size
                &&& a.modified == b.modified
                &&& a.accessed == b.accessed
                &&& a.is_symlink == b.is_symlink
                &&& a.identity == b.identity
                &&& !is_candidate(before, eligible@, i) ==> a.hash == b.hash
            },
            forall|i: int| 0 <= i < before.len() && is_candidate(before, eligible@, i) ==> cands@.contains(i as usize),
            forall|x: int|
                hashes@.len() <= x < cands@.len() ==> (#[trigger] entries@[cands@[x] as int].hash matches Some(h) ==> h@.len() == 64),
            forall|i: int|
                0 <= i < before.len() && is_candidate(before, eligible@, i) && (forall|x: int|
                    hashes@.len() <= x < cands@.len() ==> cands@[x] != i) ==> #[trigger] entries@[i] == before[i],
        decreases hashes@.len(),
    {
        let ghost e0 = entries@;
        let ghost hs1 = hashes@;
        let h = hashes.pop().unwrap();
        let idx = cands[hashes.len()];
        entries[idx].hash = h;
        proof {
            assert(h == hs0[hashes@.len() as int]);
            assert(hashes@ =~= hs0.take(hashes@.len() as int));
            assert forall|x: int|
                hashes@.len() <= x < cands@.len() implies hash_of(#[trigger] entries@[cands@[x] as int]) == answer_view(
                hs0[x],
            ) by {
                if x > hashes@.len() {
                    assert(cands@[x] != cands@[hashes@.len() as int]);
                    assert(entries@[cands@[x] as int] == e0[cands@[x] as int]);
                }
            }
            assert forall|i: int|
                0 <= i < before.len() && is_candidate(before, eligible@, i) && (forall|x: int|
                    hashes@.len() <= x < cands@.len() ==> cands@[x] != i) implies #[trigger] entries@[i] == before[i] by {
                assert(cands@[hashes@.len() as int] != i);
                assert(entries@[i] == e0[i]);
                assert forall|x: int| hashes@.len() + 1 <= x < cands@.len() implies cands@[x] != i by {}
            }
            assert forall|x: int|
                hashes@.len() <= x < cands@.len() implies (#[trigger] entries@[cands@[x] as int].hash matches Some(h) ==> h@.len() == 64) by {
                if x > hashes@.len() {
                    assert(cands@[x] != cands@[hashes@.len() as int]);
                    assert(entries@[cands@[x] as int] == e0[cands@[x] as int]);
                }
            }
        }
    }
    proof {
        assert forall|i: int| 0 <= i < before.len() && is_candidate(before, eligible@, i) implies (#[trigger] entries@[i].hash matches Some(h) ==> h@.len() == 64) by {
            assert(cands@.contains(i as usize));
            let x = choose|x: int| 0 <= x < cands@.len() && cands@[x] == i as usize;
            assert(entries@[cands@[x] as int].hash matches Some(h) ==> h@.len() == 64);
        }
        assert forall|i: int| 0 <= i < before.len() && #[trigger] is_candidate(before, eligible@, i) implies exists|k: int|
            base <= k < log.record().len() && #[trigger] log.record()[k] == (before[i].path@, hash_of(entries@[i])) by {
            assert(cands@.contains(i as usize));
            let x = choose|x: int| 0 <= x < cands@.len() && cands@[x] == i as usize;
            assert(hash_of(entries@[cands@[x] as int]) == answer_view(hs0[x]));
            assert(paired(paths@, hs0)[x] == (paths@[x]@, answer_view(hs0[x])));
            assert(log.record()[base + x] == paired(paths@, hs0)[x]);
        }
    }

    // Stage 3: group the eligible entries by hash.
    let (keys, groups) = group_by_hash(entries, eligible);
    let ghost ts = tags(entries@, eligible@);
    proof {
        assert forall|g: int, j: int| 0 <= g < groups@.len() && 0 <= j < groups@[g]@.len() implies #[trigger] groups@[g]@[j] < entries@.len() by {
            lemma_members(ts, keys.view()[g]);
            assert(as_ints(groups@[g]@)[j] == groups@[g]@[j] as int);
            assert(members(ts, keys.view()[g])[j] == groups@[g]@[j] as int);
        }
    }
    let mut ws: Vec<u64> = Vec::new();
    let mut qual: Vec<bool> = Vec::new();
    let mut g: usize = 0;
    while g < groups.len()
        invariant
            g <= groups@.len(),
            ws@.len() == g,
            qual@.len() == g,
            forall|x: int, j: int| 0 <= x < groups@.len() && 0 <= j < groups@[x]@.len() ==> #[trigger] groups@[x]@[j] < entries@.len(),
            forall|x: int| 0 <= x < g ==> #[trigger] qual@[x] == (groups@[x]@.len() >= 2),
            forall|x: int|
                0 <= x < g && qual@[x] ==> #[trigger] ws@[x] == wasted_bytes(
                    entries@[groups@[x]@[0] as int].size,
                    groups@[x]@.len(),
                ),
        decreases groups@.len() - g,
    {
        let c = groups[g].len();
        if c >= 1 {
            let size = entries[groups[g][0]].size;
            ws.push(waste_of(size, c));
        } else {
            ws.push(0);
        }
        qual.push(c >= 2);
        g = g + 1;
    }

    // Biggest waste first.
    let order = ordered_groups(&ws, &qual);
    let mut sets: Vec<DuplicateSet> = Vec::new();
    let mut k: usize = 0;
    while k < order.len()
        invariant
            k <= order@.len(),
            sets@.len() == k,
            keys.wf(),
            groups@.len() == keys.view().len(),
            ws@.len() == groups@.len(),
            qual@.len() == groups@.len(),
            keys.view() == hash_keys(tags(entries@, eligible@)),
            forall|x: int| 0 <= x < groups@.len() ==> as_ints((#[trigger] groups@[x])@) == members(tags(entries@, eligible@), keys.view()[x]),
            forall|x: int|
                0 <= x < groups@.len() && qual@[x] ==> #[trigger] ws@[x] == wasted_bytes(
                    entries@[groups@[x]@[0] as int].size,
                    groups@[x]@.len(),
                ),
            forall|x: int| 0 <= x < order@.len() ==> #[trigger] order@[x] < ws@.len() && qual@[order@[x] as int],
            forall|x: int| 0 <= x < ws@.len() && qual@[x] ==> order@.contains(x as usize),
            forall|i: int, j: int| 0 <= i < j < order@.len() ==> #[trigger] order@[i] != #[trigger] order@[j],
            forall|i: int, j: int|
                0 <= i < j < order@.len() ==> ws@[#[trigger] order@[i] as int] > ws@[#[trigger] order@[j] as int] || (
                ws@[order@[i] as int] == ws@[order@[j] as int] && order@[i] < order@[j]),
            forall|x: int, j: int| 0 <= x < groups@.len() && 0 <= j < groups@[x]@.len() ==> #[trigger] groups@[x]@[j] < entries@.len(),
            forall|x: int| 0 <= x < groups@.len() ==> #[trigger] qual@[x] == (groups@[x]@.len() >= 2),
            forall|x: int|
                0 <= x < k ==> {
                    let gg = order@[x] as int;
                    let d = #[trigger] sets@[x];
                    &&& d.hash@ == keys.view()[gg]
                    &&& d.size == entries@[groups@[gg]@[0] as int].size
                    &&& d.paths@.len() == groups@[gg]@.len()
                    &&& forall|j: int| 0 <= j < groups@[gg]@.len() ==> #[trigger] d.paths@[j]@ == entries@[groups@[gg]@[j] as int].path@
                    &&& d.wasted == ws@[gg]
                },
        decreases order@.len() - k,
    {
        let gg = order[k];
        assert(qual@[gg as int]);
        let d = set_of(entries, keys.key(gg), &groups[gg], ws[gg]);
        sets.push(d);
        k = k + 1;
    }
    let n_groups = ws.len();
    proof {
        keys.lemma_distinct();
        lemma_sets_are_duplicate_sets(sets@, entries@, eligible@, keys.view(), groups@, ws@, qual@, order@);
    }
    Some(sets)
}


/// Of several names of one file, only the first eligible one takes part:
/// hard links share their blocks, so they are not copies of each other.
pub open spec fn distinct_files(es: Seq<FileEntry>, eligible: Seq<bool>) -> Seq<bool> {
    Seq::new(
        es.len(),
        |i: int|
            eligible[i] && !(es[i].identity is Some && exists|j: int|
                0 <= j < i && eligible[j] && #[trigger] es[j].identity == es[i].identity),
    )
}

fn first_names(entries: &Vec<FileEntry>, eligible: &Vec<bool>) -> (v: Vec<bool>)
    requires
        eligible@.len() == entries@.len(),
    ensures
        v@ == distinct_files(entries@, eligible@),
{
    let mut seen: HashSet<u128> = HashSet::new();
    let mut v: Vec<bool> = Vec::new();
    let mut i: usize = 0;
    while i < entries.len()
        invariant
            i <= entries@.len(),
            eligible@.len() == entries@.len(),
            v@ == distinct_files(entries@, eligible@).take(i as int),
            forall|k: u128|
                #[trigger] seen@.contains(k) <==> exists|j: int|
                    0 <= j < i && eligible@[j] && entries@[j].identity is Some && identity_key(
                        entries@[j].identity->0,
                    ) == k,
        decreases entries@.len() - i,
    {
        let ghost seen0 = seen@;
        let keep = if eligible[i] {
            match entries[i].identity {
                Some(id) => {
                    let k = key_of(id);
                    let fresh = seen.insert(k);
                    proof {
                        assert(fresh == !seen0.contains(identity_key(id)));
                        if fresh {
                            assert forall|j: int| 0 <= j < i && eligible@[j] implies #[trigger] entries@[j].identity != entries@[i as int].identity by {
                                if entries@[j].identity == Some(id) {
                                    assert(seen0.contains(identity_key(id)));
                                }
                            }
                        } else {
                            let j = choose|j: int|
                                0 <= j < i && eligible@[j] && entries@[j].identity is Some && identity_key(
                                    entries@[j].identity->0,
                                ) == identity_key(id);
                            lemma_identity_key_injective(entries@[j].identity->0, id);
                            assert(entries@[j].identity == entries@[i as int].identity);
                        }
                    }
                    fresh
                },
                None => true,
            }
        } else {
            false
        };
        v.push(keep);
        proof {
            assert(v@ =~= distinct_files(entries@, eligible@).take(i + 1));
            assert forall|k: u128| #[trigger] seen@.contains(k) <==> exists|j: int|
                0 <= j < i + 1 && eligible@[j] && entries@[j].identity is Some && identity_key(
                    entries@[j].identity->0,
                ) == k by {
                if seen@.contains(k) && !seen0.contains(k) {
                    assert(eligible@[i as int] && entries@[i as int].identity is Some && identity_key(
                        entries@[i as int].identity->0,
                    ) == k);
                }
                if exists|j: int|
                    0 <= j < i + 1 && eligible@[j] && entries@[j].identity is Some && identity_key(
                        entries@[j].identity->0,
                    ) == k {
                    let j = choose|j: int|
                        0 <= j < i + 1 && eligible@[j] && entries@[j].identity is Some && identity_key(
                            entries@[j].identity->0,
                        ) == k;
                    if j < i {
                        assert(seen0.contains(k));
                    }
                }
            }
        }
        i = i + 1;
    }
    proof {
        assert(distinct_files(entries@, eligible@).take(entries@.len() as int) =~= distinct_files(entries@, eligible@));
    }
    v
}

/// The three stages over the entries `eligible` admits, each file once
/// however many names it has, with a cancellation flag or none. Every
/// file hashed is noted in `log` beside the answer hashing it gave, and
/// each candidate ends up carrying the answer for its own path.
pub fn duplicates_among(
    entries: &mut Vec<FileEntry>,
    eligible: &Vec<bool>,
    cancelled: Option<&AtomicBool>,
    log: &mut HashLog,
) -> (r: Option<Vec<DuplicateSet>>)
    requires
        eligible@.len() == old(entries)@.len(),
        old(entries)@.len() < NO_ENTRY - 2,
    ensures
        cancelled is None ==> r is Some,
        r is Some ==> hashed_own_paths(
            final(entries)@,
            old(entries)@,
            distinct_files(old(entries)@, eligible@),
            final(log).record(),
            old(log).record().len() as int,
        ),
        r is None ==> final(entries)@ == old(entries)@,
        r is Some ==> hashed_from(final(entries)@, old(entries)@, distinct_files(old(entries)@, eligible@)),
        r is Some ==> forall|i: int|
            0 <= i < old(entries)@.len() && is_candidate(old(entries)@, distinct_files(old(entries)@, eligible@), i)
                ==> (#[trigger] final(entries)@[i].hash matches Some(h) ==> h@.len() == 64),
        r matches Some(sets) ==> are_duplicate_sets(sets@, final(entries)@, distinct_files(old(entries)@, eligible@)),
{
    let distinct = first_names(entries, eligible);
    duplicates_of(entries, &distinct, cancelled, log)
}

/// The contract of [`find_duplicates_filtered`], over every entry.
pub open spec fn all_eligible(n: nat) -> Seq<bool> {
    Seq::new(n, |i: int| true)
}

pub(crate) fn all_true(n: usize) -> (v: Vec<bool>)
    ensures
        v@ == all_eligible(n as nat),
{
    let mut v: Vec<bool> = Vec::new();
    let mut i: usize = 0;
    while i < n
        invariant
            i <= n,
            v@ == all_eligible(i as nat),
        decreases n - i,
    {
        v.push(true);
        proof {
            assert(v@ =~= all_eligible((i + 1) as nat));
        }
        i = i + 1;
    }
    v
}

/// Find duplicate sets among the entries `eligible` admits. Eligible
/// entries whose size another eligible entry shares are hashed, and the
/// hash is recorded on the entry; then eligible entries that carry the
/// same hash form a set, biggest waste first. `None` means `cancelled` was
/// set and the entries are as they were.
///
/// Hashing is where a scan of a real disk spends most of its time, so each
/// candidate checks the flag before it is read: an in-flight run drains
/// in about the time the longest single file takes.
pub fn find_duplicates_filtered(
    entries: &mut Vec<FileEntry>,
    eligible: &Vec<bool>,
    cancelled: &AtomicBool,
) -> (r: Option<Vec<DuplicateSet>>)
    requires
        eligible@.len() == old(entries)@.len(),
        old(entries)@.len() < NO_ENTRY - 2,
    ensures
        r is None ==> final(entries)@ == old(entries)@,
        r is Some ==> hashed_from(final(entries)@, old(entries)@, distinct_files(old(entries)@, eligible@)),
        r is Some ==> forall|i: int|
            0 <= i < old(entries)@.len() && is_candidate(old(entries)@, distinct_files(old(entries)@, eligible@), i)
                ==> (#[trigger] final(entries)@[i].hash matches Some(h) ==> h@.len() == 64),
        r matches Some(sets) ==> are_duplicate_sets(sets@, final(entries)@, distinct_files(old(entries)@, eligible@)),
{
    let mut log = HashLog::new();
    duplicates_among(entries, eligible, Some(cancelled), &mut log)
}

/// [`find_duplicates`], abandoned as soon as `cancelled` is set. `None`
/// means it stopped early, the result would be incomplete, and the entries
/// are as they were.
pub fn find_duplicates_cancellable(entries: &mut Vec<FileEntry>, cancelled: &AtomicBool) -> (r: Option<Vec<DuplicateSet>>)
    requires
        old(entries)@.len() < NO_ENTRY - 2,
    ensures
        r is None ==> final(entries)@ == old(entries)@,
        r is Some ==> hashed_from(
            final(entries)@,
            old(entries)@,
            distinct_files(old(entries)@, all_eligible(old(entries)@.len())),
        ),
        r matches Some(sets) ==> are_duplicate_sets(
            sets@,
            final(entries)@,
            distinct_files(old(entries)@, all_eligible(old(entries)@.len())),
        ),
{
    let eligible = all_true(entries.len());
    let mut log = HashLog::new();
    duplicates_among(entries, &eligible, Some(cancelled), &mut log)
}

/// Find duplicate sets among all entries. Mutates entries in place to
/// record computed hashes.
pub fn find_duplicates(entries: &mut Vec<FileEntry>) -> (sets: Vec<DuplicateSet>)
    requires
        old(entries)@.len() < NO_ENTRY - 2,
    ensures
        hashed_from(final(entries)@, old(entries)@, distinct_files(old(entries)@, all_eligible(old(entries)@.len()))),
        are_duplicate_sets(sets@, final(entries)@, distinct_files(old(entries)@, all_eligible(old(entries)@.len()))),
{
    let eligible = all_true(entries.len());
    let mut log = HashLog::new();
    match duplicates_among(entries, &eligible, None, &mut log) {
        Some(sets) => sets,
        None => Vec::new(),
    }
}

/// Names of one file are never offered as copies of each other: no two
/// paths of a duplicate set belong to entries with the same identity.
pub proof fn lemma_one_name_per_file(sets: Seq<DuplicateSet>, es: Seq<FileEntry>, eligible: Seq<bool>)
    requires
        eligible.len() == es.len(),
        are_duplicate_sets(sets, es, distinct_files(es, eligible)),
    ensures
        forall|k: int, a: int, b: int|
            0 <= k < sets.len() && 0 <= a < b < members(tags(es, distinct_files(es, eligible)), sets[k].hash@).len()
                ==> es[#[trigger] members(tags(es, distinct_files(es, eligible)), sets[k].hash@)[a]].identity is None
                || es[members(tags(es, distinct_files(es, eligible)), sets[k].hash@)[a]].identity
                != es[#[trigger] members(tags(es, distinct_files(es, eligible)), sets[k].hash@)[b]].identity,
{
    let d = distinct_files(es, eligible);
    let ts = tags(es, d);
    assert forall|k: int, a: int, b: int|
        0 <= k < sets.len() && 0 <= a < b < members(ts, sets[k].hash@).len() implies es[#[trigger] members(
            ts,
            sets[k].hash@,
        )[a]].identity is None || es[members(ts, sets[k].hash@)[a]].identity != es[#[trigger] members(
            ts,
            sets[k].hash@,
        )[b]].identity by {
        let h = sets[k].hash@;
        let m = members(ts, h);
        lemma_members(ts, h);
        lemma_members_increase(ts, h);
        assert(m[a] < m[b]);
        assert(d[m[b]]);
        assert(d[m[a]]);
        assert(eligible[m[a]]);
    }
}

/// Two files share a duplicate set only because their own contents hash
/// alike: when no entry carried a hash beforehand and every candidate
/// carries what hashing its own path answered, each path of each set was
/// handed to the hasher and came back with the set's hash.
pub proof fn lemma_sets_rest_on_own_hashes(
    sets: Seq<DuplicateSet>,
    after: Seq<FileEntry>,
    before: Seq<FileEntry>,
    eligible: Seq<bool>,
    record: Seq<(Seq<char>, Option<Seq<char>>)>,
    from: int,
)
    requires
        eligible.len() == before.len(),
        forall|i: int| 0 <= i < before.len() ==> (#[trigger] before[i]).hash is None,
        hashed_from(after, before, eligible),
        hashed_own_paths(after, before, eligible, record, from),
        are_duplicate_sets(sets, after, eligible),
    ensures
        forall|s: int, j: int|
            0 <= s < sets.len() && 0 <= j < sets[s].paths@.len() ==> exists|k: int|
                from <= k < record.len() && record[k] == ((#[trigger] sets[s].paths@[j])@, Some(sets[s].hash@)),
{
    let ts = tags(after, eligible);
    assert forall|s: int, j: int| 0 <= s < sets.len() && 0 <= j < sets[s].paths@.len() implies exists|k: int|
        from <= k < record.len() && record[k] == ((#[trigger] sets[s].paths@[j])@, Some(sets[s].hash@)) by {
        let h = sets[s].hash@;
        assert(describes(sets[s], after, eligible, h));
        let m = members(ts, h);
        lemma_members(ts, h);
        let i = m[j];
        assert(0 <= i < ts.len());
        assert(ts[i] == Some(h));
        assert(eligible[i] && hash_of(after[i]) == Some(h));
        assert(before[i].hash is None);
        assert(is_candidate(before, eligible, i));
        let k = choose|k: int| from <= k < record.len() && #[trigger] record[k] == (before[i].path@, hash_of(after[i]));
        assert(after[i].path == before[i].path);
        assert(sets[s].paths@[j]@ == after[i].path@);
    }
}

proof fn lemma_members_increase(ts: Seq<Option<Seq<char>>>, h: Seq<char>)
    ensures
        forall|a: int, b: int|
            0 <= a < b < members(ts, h).len() ==> #[trigger] members(ts, h)[a] < #[trigger] members(ts, h)[b],
    decreases ts.len(),
{
    if ts.len() > 0 {
        lemma_members_increase(ts.drop_last(), h);
        lemma_members(ts.drop_last(), h);
        let prev = members(ts.drop_last(), h);
        assert forall|a: int, b: int|
            0 <= a < b < members(ts, h).len() implies #[trigger] members(ts, h)[a] < #[trigger] members(ts, h)[b] by {
            assert(members(ts, h)[a] == prev[a]);
            if b < prev.len() {
                assert(members(ts, h)[b] == prev[b]);
            }
        }
    }
}

} // verus!
