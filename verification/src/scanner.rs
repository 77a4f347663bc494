//! Read-only filesystem walk: the decisions around it.
//!
//! The walk itself (parallel directory reads, metadata) is the caller's
//! [`Walker`]. What is decided here: how excludes are normalized and
//! matched (on whole path components), which roots are walked and in what
//! order, which children a walk may descend into, which walk results are
//! errors and which are skipped, and the live progress counters.
//! Hashing is NOT done here — see [`crate::dedup`].
use vstd::prelude::*;
use std::sync::atomic::{AtomicBool, AtomicU64};
use std::sync::Arc;
use crate::graph::{ascii_lower, lower_char};
use crate::paths::{PathTable, NO_ENTRY};
use crate::text::{chars_of, string_from};
use crate::{stop_requested, FileEntry, GenomeError};

verus! {

/// The operating systems with a built-in exclude list.
#[derive(Clone, Copy, Debug, PartialEq, Eq, Structural)]
pub enum Platform {
    Linux,
    Windows,
    MacOs,
    Other,
}

#[derive(Clone, Debug)]
pub struct ScanOptions {
    pub roots: Vec<String>,
    /// Directories never walked, given as paths rather than globs
    /// (e.g. "/proc", "C:\\Windows\\WinSxS"). Matched on whole path
    /// components after ASCII case folding and `\` → `/`, so case and
    /// separator style don't have to line up with the root.
    pub excludes: Vec<String>,
    /// Default false — symlink loops are real.
    pub follow_symlinks: bool,
}

/// Paths never scanned on `platform`.
pub open spec fn spec_default_excludes(platform: Platform) -> Seq<Seq<char>> {
    match platform {
        Platform::Linux => seq!["/proc"@, "/sys"@, "/dev"@, "/run"@],
        Platform::Windows => seq!["C:\\Windows\\WinSxS"@, "C:\\Windows\\System32"@],
        Platform::MacOs => seq!["/System"@, "/private/var/db"@],
        Platform::Other => seq![],
    }
}

/// Paths never scanned on `platform`. Keep in sync with the rules db.
pub fn default_excludes(platform: Platform) -> (v: Vec<String>)
    ensures
        v@.len() == spec_default_excludes(platform).len(),
        forall|i: int| 0 <= i < v@.len() ==> #[trigger] v@[i]@ == spec_default_excludes(platform)[i],
{
    let mut v: Vec<String> = Vec::new();
    match platform {
        Platform::Linux => {
            v.push(String::from_str("/proc"));
            v.push(String::from_str("/sys"));
            v.push(String::from_str("/dev"));
            v.push(String::from_str("/run"));
        },
        Platform::Windows => {
            v.push(String::from_str("C:\\Windows\\WinSxS"));
            v.push(String::from_str("C:\\Windows\\System32"));
        },
        Platform::MacOs => {
            v.push(String::from_str("/System"));
            v.push(String::from_str("/private/var/db"));
        },
        Platform::Other => {},
    }
    v
}

impl ScanOptions {
    /// No roots yet, the platform's excludes, symlinks not followed.
    pub fn for_platform(platform: Platform) -> (o: ScanOptions)
        ensures
            o.roots@.len() == 0,
            o.excludes@.len() == spec_default_excludes(platform).len(),
            forall|i: int| 0 <= i < o.excludes@.len() ==> #[trigger] o.excludes@[i]@ == spec_default_excludes(platform)[i],
            !o.follow_symlinks,
    {
        ScanOptions { roots: Vec::new(), excludes: default_excludes(platform), follow_symlinks: false }
    }
}

/// The system directories each platform never scans: on Linux the kernel's
/// virtual filesystems `/proc`, `/sys`, `/dev` and `/run`; on Windows the
/// component store and `System32`; on macOS the sealed system volume
/// `/System` and `/private/var/db`; elsewhere nothing.
pub proof fn lemma_platform_excludes()
    ensures
        spec_default_excludes(Platform::Linux) == seq!["/proc"@, "/sys"@, "/dev"@, "/run"@],
        spec_default_excludes(Platform::Windows) == seq!["C:\\Windows\\WinSxS"@, "C:\\Windows\\System32"@],
        spec_default_excludes(Platform::MacOs) == seq!["/System"@, "/private/var/db"@],
        spec_default_excludes(Platform::Other) == Seq::<Seq<char>>::empty(),
        spec_default_excludes(Platform::MacOs).contains("/System"@),
        spec_default_excludes(Platform::MacOs).contains("/private/var/db"@),
{
    assert(spec_default_excludes(Platform::MacOs)[0] == "/System"@);
    assert(spec_default_excludes(Platform::MacOs)[1] == "/private/var/db"@);
}

/// Live progress, shared with the UI via atomics (cheap to poll).
#[derive(Debug)]
pub struct ScanProgress {
    pub files_seen: AtomicU64,
    pub bytes_seen: AtomicU64,
    pub cancelled: AtomicBool,
}

impl ScanProgress {
    /// Nothing seen, not cancelled.
    pub fn new() -> ScanProgress {
        ScanProgress { files_seen: AtomicU64::new(0), bytes_seen: AtomicU64::new(0), cancelled: AtomicBool::new(false) }
    }

    /// Ask every stage polling this progress to stop.
    pub fn cancel(&self) {
        self.cancelled.store(true, std::sync::atomic::Ordering::Relaxed);
    }

    /// One more file of `size` bytes seen.
    pub fn record_file(&self, size: u64) {
        self.files_seen.fetch_add(1, std::sync::atomic::Ordering::Relaxed);
        self.bytes_seen.fetch_add(size, std::sync::atomic::Ordering::Relaxed);
    }
}

// ---------------------------------------------------------------------------
// Excludes

/// One character as excludes compare it: `\` is `/`, ASCII letters fold
/// to lower case.
pub open spec fn fold(c: char) -> char {
    if c == '\\' {
        '/'
    } else {
        ascii_lower(c)
    }
}

pub open spec fn folded(s: Seq<char>) -> Seq<char> {
    s.map_values(|c: char| fold(c))
}

/// `s` without its trailing `/`s.
pub open spec fn trim_end_slashes(s: Seq<char>) -> Seq<char>
    decreases s.len(),
{
    if s.len() > 0 && s.last() == '/' {
        trim_end_slashes(s.drop_last())
    } else {
        s
    }
}

/// Lowercased, `/`-separated, no trailing separator — except that `/`
/// itself stays the root rather than becoming a prefix of every path.
pub open spec fn spec_normalize_exclude(e: Seq<char>) -> Seq<char> {
    let n = folded(e);
    let t = trim_end_slashes(n);
    if t.len() == 0 {
        n
    } else {
        t
    }
}

proof fn lemma_trim_end_slashes(s: Seq<char>)
    ensures
        trim_end_slashes(s).len() <= s.len(),
        trim_end_slashes(s) == s.take(trim_end_slashes(s).len() as int),
        forall|i: int| trim_end_slashes(s).len() <= i < s.len() ==> s[i] == '/',
        trim_end_slashes(s).len() > 0 ==> trim_end_slashes(s).last() != '/',
    decreases s.len(),
{
    if s.len() > 0 && s.last() == '/' {
        lemma_trim_end_slashes(s.drop_last());
        let t = trim_end_slashes(s.drop_last());
        assert(s.take(t.len() as int) =~= s.drop_last().take(t.len() as int));
        assert forall|i: int| t.len() <= i < s.len() implies s[i] == '/' by {
            if i < s.len() - 1 {
                assert(s[i] == s.drop_last()[i]);
            }
        }
    } else {
        assert(s.take(s.len() as int) =~= s);
    }
}

proof fn lemma_fold_plain(c: char)
    ensures
        fold(c) != '\\',
        !('A' <= fold(c) && fold(c) <= 'Z'),
        fold(fold(c)) == fold(c),
{
}

/// A normalized exclude is normalized already: normalizing it again
/// changes nothing. It holds no `\` and no ASCII capital, and ends in `/`
/// only when it is nothing but `/`s — the root.
pub proof fn lemma_normalize_exclude_settled(e: Seq<char>)
    ensures
        spec_normalize_exclude(spec_normalize_exclude(e)) == spec_normalize_exclude(e),
        forall|i: int|
            0 <= i < spec_normalize_exclude(e).len() ==> #[trigger] spec_normalize_exclude(e)[i] != '\\' && !(
            'A' <= spec_normalize_exclude(e)[i] && spec_normalize_exclude(e)[i] <= 'Z'),
        spec_normalize_exclude(e).len() > 0 && spec_normalize_exclude(e).last() == '/' ==> forall|i: int|
            0 <= i < spec_normalize_exclude(e).len() ==> #[trigger] spec_normalize_exclude(e)[i] == '/',
{
    let n = folded(e);
    let t = trim_end_slashes(n);
    let r = spec_normalize_exclude(e);
    lemma_trim_end_slashes(n);
    assert forall|i: int| 0 <= i < n.len() implies #[trigger] n[i] != '\\' && !('A' <= n[i] && n[i] <= 'Z')
        && fold(n[i]) == n[i] by {
        lemma_fold_plain(e[i]);
    }
    assert forall|i: int| 0 <= i < r.len() implies #[trigger] r[i] != '\\' && !('A' <= r[i] && r[i] <= 'Z')
        && fold(r[i]) == r[i] by {
        if t.len() > 0 {
            assert(r[i] == n.take(t.len() as int)[i]);
        }
    }
    assert(folded(r) =~= r);
    if t.len() == 0 {
        assert(r == n);
        assert forall|i: int| 0 <= i < r.len() implies #[trigger] r[i] == '/' by {}
        lemma_trim_end_slashes(r);
        assert(spec_normalize_exclude(r) == r);
    } else {
        assert(r == t);
        lemma_trim_end_slashes(r);
        assert(trim_end_slashes(r) == r);
    }
}

/// `path`, folded, is `exclude` itself or lies inside it: the exclude is
/// a whole-component prefix of the path.
pub open spec fn spec_is_within(path: Seq<char>, exclude: Seq<char>) -> bool {
    &&& exclude.len() <= path.len()
    &&& forall|i: int| 0 <= i < exclude.len() ==> fold(#[trigger] path[i]) == exclude[i]
    &&& (path.len() == exclude.len() || path[exclude.len() as int] == '/' || path[exclude.len() as int] == '\\')
}

fn fold_char(c: char) -> (r: char)
    ensures
        r == fold(c),
{
    if c == '\\' {
        '/'
    } else {
        lower_char(c)
    }
}

/// Lowercased, `/`-separated, no trailing separator. An exclude written
/// `C:\\Windows\\WinSxS` has to match a root typed `c:\\windows\\winsxs`.
///
/// ASCII case folding, not Unicode: these are directory names like
/// `Windows` and `System`, and it lets [`is_within`] fold the path a
/// character at a time instead of building a folded copy of it.
pub fn normalize_exclude(exclude: &str) -> (r: String)
    ensures
        r@ == spec_normalize_exclude(exclude@),
{
    let cs = chars_of(exclude);
    let mut n: Vec<char> = Vec::new();
    let mut i: usize = 0;
    while i < cs.len()
        invariant
            i <= cs@.len(),
            cs@ == exclude@,
            n@ == folded(cs@.take(i as int)),
        decreases cs@.len() - i,
    {
        n.push(fold_char(cs[i]));
        proof {
            assert(folded(cs@.take(i + 1)) =~= folded(cs@.take(i as int)).push(fold(cs@[i as int])));
        }
        i = i + 1;
    }
    proof {
        assert(cs@.take(cs@.len() as int) =~= cs@);
    }
    let mut end: usize = n.len();
    proof {
        assert(n@.take(end as int) =~= n@);
    }
    while end > 0 && n[end - 1] == '/'
        invariant
            end <= n@.len(),
            trim_end_slashes(n@.take(end as int)) == trim_end_slashes(n@),
        decreases end,
    {
        proof {
            assert(n@.take(end as int).drop_last() =~= n@.take(end - 1));
        }
        end = end - 1;
    }
    if end == 0 {
        proof {
            assert(trim_end_slashes(n@.take(0)) == n@.take(0));
        }
        string_from(&n)
    } else {
        let mut t: Vec<char> = Vec::new();
        let mut k: usize = 0;
        while k < end
            invariant
                k <= end <= n@.len(),
                t@ == n@.take(k as int),
            decreases end - k,
        {
            t.push(n[k]);
            proof {
                assert(n@.take(k + 1) =~= n@.take(k as int).push(n@[k as int]));
            }
            k = k + 1;
        }
        proof {
            assert(trim_end_slashes(n@.take(end as int)) == n@.take(end as int));
        }
        string_from(&t)
    }
}

/// Is `path`, folded as it goes, the already-normalized `exclude` itself
/// or something inside it? Compared on whole path components: `/run`
/// does not contain `/runtime-data`.
///
/// This runs for every child of every directory the walk opens, so it
/// folds the path as it compares and stops at the first character that
/// differs.
pub fn is_within(path: &Vec<char>, exclude: &Vec<char>) -> (r: bool)
    ensures
        r == spec_is_within(path@, exclude@),
{
    if exclude.len() > path.len() {
        return false;
    }
    let mut i: usize = 0;
    while i < exclude.len()
        invariant
            exclude@.len() <= path@.len(),
            i <= exclude@.len(),
            forall|j: int| 0 <= j < i ==> fold(#[trigger] path@[j]) == exclude@[j],
        decreases exclude@.len() - i,
    {
        if fold_char(path[i]) != exclude[i] {
            return false;
        }
        i = i + 1;
    }
    // Ends exactly there, or carries on at a component boundary — which a
    // trailing separator on the path itself also satisfies.
    if path.len() == exclude.len() {
        true
    } else {
        let sep = path[exclude.len()];
        sep == '/' || sep == '\\'
    }
}

pub open spec fn views_of(v: Seq<String>) -> Seq<Seq<char>> {
    v.map_values(|s: String| s@)
}

/// The first exclude that contains `path`, if any.
pub open spec fn first_within(path: Seq<char>, excludes: Seq<Seq<char>>, i: int) -> Option<int>
    decreases excludes.len() - i,
{
    if i < 0 || i >= excludes.len() {
        None
    } else if spec_is_within(path, excludes[i]) {
        Some(i)
    } else {
        first_within(path, excludes, i + 1)
    }
}

/// Which exclude, if any, contains `path`: its position in `excludes`.
pub fn excluded_by(path: &str, excludes: &Vec<String>) -> (r: Option<usize>)
    ensures
        r matches Some(i) ==> i < excludes@.len(),
        r == (match first_within(path@, views_of(excludes@), 0) {
            Some(i) => Some(i as usize),
            None => None::<usize>,
        }),
{
    let p = chars_of(path);
    let mut i: usize = 0;
    while i < excludes.len()
        invariant
            p@ == path@,
            i <= excludes@.len(),
            first_within(path@, views_of(excludes@), 0) == first_within(path@, views_of(excludes@), i as int),
        decreases excludes@.len() - i,
    {
        let ex = chars_of(excludes[i].as_str());
        if is_within(&p, &ex) {
            return Some(i);
        }
        i = i + 1;
    }
    None
}

/// True when `path` *is* an excluded directory or sits inside one.
pub fn is_excluded(path: &str, excludes: &Vec<String>) -> (r: bool)
    ensures
        r == exists|i: int| 0 <= i < excludes@.len() && spec_is_within(path@, #[trigger] excludes@[i]@),
{
    if excludes.len() == 0 {
        return false;
    }
    let p = chars_of(path);
    let mut i: usize = 0;
    while i < excludes.len()
        invariant
            p@ == path@,
            i <= excludes@.len(),
            forall|j: int| 0 <= j < i ==> !spec_is_within(path@, #[trigger] excludes@[j]@),
        decreases excludes@.len() - i,
    {
        let ex = chars_of(excludes[i].as_str());
        if is_within(&p, &ex) {
            return true;
        }
        i = i + 1;
    }
    false
}

// ---------------------------------------------------------------------------
// Roots

/// The paths in order of first appearance, each once.
pub open spec fn first_occurrences(s: Seq<Seq<char>>) -> Seq<Seq<char>>
    decreases s.len(),
{
    if s.len() == 0 {
        seq![]
    } else {
        let d = first_occurrences(s.drop_last());
        if d.contains(s.last()) {
            d
        } else {
            d.push(s.last())
        }
    }
}

/// The roots to walk, once each, in the order first given.
pub fn planned_roots(roots: &Vec<String>) -> (r: Vec<String>)
    requires
        roots@.len() < NO_ENTRY - 1,
    ensures
        views_of(r@) == first_occurrences(views_of(roots@)),
{
    let mut seen = PathTable::new();
    let mut planned: Vec<String> = Vec::new();
    let mut i: usize = 0;
    proof {
        assert(views_of(roots@).take(0) =~= Seq::<Seq<char>>::empty());
        assert(views_of(planned@) =~= first_occurrences(views_of(roots@).take(0)));
    }
    while i < roots.len()
        invariant
            roots@.len() < NO_ENTRY - 1,
            i <= roots@.len(),
            seen.wf(),
            seen.view().len() <= i,
            seen.view() == views_of(planned@),
            views_of(planned@) == first_occurrences(views_of(roots@).take(i as int)),
        decreases roots@.len() - i,
    {
        let key = chars_of(roots[i].as_str());
        let ghost before = seen.view();
        let (_, added) = seen.insert(key);
        if added {
            planned.push(roots[i].clone());
        }
        proof {
            let s1 = views_of(roots@).take(i + 1);
            assert(s1.drop_last() =~= views_of(roots@).take(i as int));
            assert(s1.last() == roots@[i as int]@);
            if added {
                assert(!before.contains(roots@[i as int]@));
                assert(views_of(planned@) =~= before.push(roots@[i as int]@));
            } else {
                let j = choose|j: int| 0 <= j < before.len() && before[j] == roots@[i as int]@;
                assert(before.contains(roots@[i as int]@));
            }
        }
        i = i + 1;
    }
    proof {
        assert(views_of(roots@).take(roots@.len() as int) =~= views_of(roots@));
    }
    planned
}

/// Everything a walk of one root needs to know to prune itself.
pub struct WalkPlan {
    /// The root this walk starts from.
    pub root: String,
    /// Normalized excludes.
    pub excludes: Vec<String>,
    /// Every root of the scan: another root's tree is walked from that
    /// root, not counted twice from this one.
    pub roots: Vec<String>,
    pub follow_symlinks: bool,
}

/// A path separator, either way round.
pub open spec fn is_sep(c: char) -> bool {
    c == '/' || c == '\\'
}

/// `p` is `r`, or lies below it: whole components, spelled alike.
pub open spec fn under(p: Seq<char>, r: Seq<char>) -> bool {
    ||| p == r
    ||| (r.len() < p.len() && p.take(r.len() as int) == r && ((r.len() > 0 && is_sep(r.last())) || is_sep(
        p[r.len() as int],
    )))
}

/// `q` is another root of the scan nested below the root `plan` walks:
/// its tree is walked from it, not from `plan.root`.
pub open spec fn nested_root(plan: WalkPlan, q: Seq<char>) -> bool {
    q != plan.root@ && under(q, plan.root@)
}

/// Whether a walk by `plan` keeps the entry at `p`: not within an
/// exclude, at or below the root, and not at or below another root of
/// the scan nested below this one.
pub open spec fn kept(plan: WalkPlan, p: Seq<char>) -> bool {
    &&& !(exists|i: int| 0 <= i < plan.excludes@.len() && spec_is_within(p, #[trigger] plan.excludes@[i]@))
    &&& under(p, plan.root@)
    &&& !(exists|i: int|
        0 <= i < plan.roots@.len() && nested_root(plan, #[trigger] plan.roots@[i]@) && under(p, plan.roots@[i]@))
}

/// Whether `p` is `r` or lies below it.
fn path_under(p: &Vec<char>, r: &Vec<char>) -> (b: bool)
    ensures
        b == under(p@, r@),
{
    if r.len() > p.len() {
        return false;
    }
    let mut i: usize = 0;
    while i < r.len()
        invariant
            r@.len() <= p@.len(),
            i <= r@.len(),
            forall|j: int| 0 <= j < i ==> p@[j] == r@[j],
        decreases r@.len() - i,
    {
        if p[i] != r[i] {
            proof {
                assert(p@.take(r@.len() as int)[i as int] != r@[i as int]);
            }
            return false;
        }
        i = i + 1;
    }
    proof {
        assert(p@.take(r@.len() as int) =~= r@);
    }
    if r.len() == p.len() {
        assert(p@ =~= r@);
        return true;
    }
    let after = p[r.len()];
    if after == '/' || after == '\\' {
        return true;
    }
    if r.len() > 0 {
        let last = r[r.len() - 1];
        return last == '/' || last == '\\';
    }
    false
}

impl WalkPlan {
    /// Whether the walk may keep (and descend into) the child at `path`:
    /// not excluded, at or below its root, and not at or below another
    /// root of the same scan nested below its own.
    pub fn keep(&self, path: &str) -> (r: bool)
        ensures
            r == kept(*self, path@),
    {
        if is_excluded(path, &self.excludes) {
            return false;
        }
        let p = chars_of(path);
        let root = chars_of(self.root.as_str());
        if !path_under(&p, &root) {
            return false;
        }
        let mut i: usize = 0;
        while i < self.roots.len()
            invariant
                i <= self.roots@.len(),
                p@ == path@,
                root@ == self.root@,
                forall|j: int| 0 <= j < i ==> !(nested_root(*self, #[trigger] self.roots@[j]@) && under(path@, self.roots@[j]@)),
            decreases self.roots@.len() - i,
        {
            let q = chars_of(self.roots[i].as_str());
            if !path_eq(self.roots[i].as_str(), self.root.as_str()) && path_under(&q, &root) && path_under(&p, &q) {
                return false;
            }
            i = i + 1;
        }
        true
    }
}

/// Whether two paths are spelled alike.
fn path_eq(a: &str, b: &str) -> (r: bool)
    ensures
        r == (a@ == b@),
{
    let x = chars_of(a);
    let y = chars_of(b);
    if x.len() != y.len() {
        assert(a@.len() != b@.len());
        return false;
    }
    let mut i: usize = 0;
    while i < x.len()
        invariant
            x@ == a@,
            y@ == b@,
            x@.len() == y@.len(),
            i <= x@.len(),
            forall|j: int| 0 <= j < i ==> x@[j] == y@[j],
        decreases x@.len() - i,
    {
        if x[i] != y[i] {
            assert(a@[i as int] != b@[i as int]);
            return false;
        }
        i = i + 1;
    }
    assert(x@ =~= y@);
    true
}

// ---------------------------------------------------------------------------
// Walk results

/// What a walk reports about one entry.
#[derive(Debug)]
pub enum Walked {
    /// A regular file and its metadata.
    File(FileEntry),
    /// A directory, a symlink not followed, or anything else that is not
    /// a regular file.
    NotAFile,
    /// The walk could not read an entry, a directory's children or an
    /// entry's metadata. `at_root` when that entry is the root itself.
    Failed { path: String, message: String, at_root: bool },
}

/// `e` as the scan records it: no hash yet.
pub open spec fn unhashed(e: FileEntry) -> FileEntry {
    FileEntry {
        path: e.path,
        size: e.size,
        modified: e.modified,
        accessed: e.accessed,
        is_symlink: e.is_symlink,
        identity: e.identity,
        hash: None,
    }
}

/// The paths of `es`, in order.
pub open spec fn paths_of(es: Seq<FileEntry>) -> Seq<Seq<char>> {
    es.map_values(|e: FileEntry| e.path@)
}

/// The files among the first `n` walk results that `plan` keeps, as
/// recorded: each path once, and none that `prior` already holds.
pub open spec fn files_in(items: Seq<Walked>, n: int, plan: WalkPlan, prior: Seq<Seq<char>>) -> Seq<FileEntry>
    decreases n,
{
    if n <= 0 {
        seq![]
    } else {
        let before = files_in(items, n - 1, plan, prior);
        before + match items[n - 1] {
            Walked::File(e) => if kept(plan, e.path@) && !prior.contains(e.path@) && !paths_of(before).contains(
                e.path@,
            ) {
                seq![unhashed(e)]
            } else {
                Seq::<FileEntry>::empty()
            },
            _ => Seq::<FileEntry>::empty(),
        }
    }
}

/// The first result at or after `i` that reports a failure at the root.
pub open spec fn first_root_failure(items: Seq<Walked>, i: int) -> Option<int>
    decreases items.len() - i,
{
    if i < 0 || i >= items.len() {
        None
    } else if items[i] matches Walked::Failed { at_root, .. } && at_root {
        Some(i)
    } else {
        first_root_failure(items, i + 1)
    }
}

/// Where a consumer sees scan entries as they are collected, for
/// provisional UI feedback: the complete answer is still the list the
/// scan returns.
pub trait EntrySink {
    fn entry(&mut self, entry: &FileEntry);
}

/// A sink that keeps copies of the entries it is shown.
impl EntrySink for Vec<FileEntry> {
    fn entry(&mut self, entry: &FileEntry)
        ensures
            final(self)@ == old(self)@.push(*entry),
    {
        self.push(entry.duplicate());
    }
}

/// A sink that ignores what it is shown.
pub struct IgnoreEntries;

impl EntrySink for IgnoreEntries {
    fn entry(&mut self, entry: &FileEntry) {
    }
}

/// A sink together with the record of every entry it was shown.
pub struct EntryLog<S> {
    pub sink: S,
    shown: Ghost<Seq<FileEntry>>,
}

impl<S: EntrySink> EntryLog<S> {
    /// The entries shown so far, in order.
    pub closed spec fn shown(&self) -> Seq<FileEntry> {
        self.shown@
    }

    /// `sink`, shown nothing yet.
    pub fn new(sink: S) -> (l: EntryLog<S>)
        ensures
            l.shown() == Seq::<FileEntry>::empty(),
    {
        EntryLog { sink, shown: Ghost(Seq::empty()) }
    }

    /// Show `entry` to the sink.
    pub fn entry(&mut self, entry: &FileEntry)
        ensures
            final(self).shown() == old(self).shown().push(*entry),
    {
        self.sink.entry(entry);
        proof {
            self.shown@ = self.shown@.push(*entry);
        }
    }
}

/// What collecting a walk is refused with once the scan has recorded as
/// many files as it can tell apart.
pub open spec fn too_many_files() -> Seq<char> {
    "too many files to record"@
}

/// Records one root's walk results, as walked by `plan`. A failure at the
/// root stops the scan with an I/O error; a failure below it is skipped
/// (permission errors on descendants must not sink a scan); anything but
/// a regular file is skipped, and so is a file the plan prunes or a path
/// `seen` already holds. Each file recorded moves the progress counters,
/// is shown to `sink`, and is stored, in that order, and `seen` learns
/// its path. `Cancelled` once `progress` is cancelled.
pub fn collect_walked<S: EntrySink>(
    items: Vec<Walked>,
    plan: &WalkPlan,
    progress: &ScanProgress,
    out: &mut Vec<FileEntry>,
    seen: &mut PathTable,
    sink: &mut EntryLog<S>,
) -> (r: Result<(), GenomeError>)
    requires
        old(seen).wf(),
        old(seen).view() == paths_of(old(out)@),
    ensures
        final(seen).wf(),
        final(seen).view() == paths_of(final(out)@),
        final(sink).shown() == old(sink).shown() + final(out)@.skip(old(out)@.len() as int),
        exists|n: int|
            0 <= n <= items@.len() && final(out)@ == old(out)@ + files_in(items@, n, *plan, paths_of(old(out)@)),
        r is Ok ==> first_root_failure(items@, 0) is None && final(out)@ == old(out)@ + files_in(
            items@,
            items@.len() as int,
            *plan,
            paths_of(old(out)@),
        ),
        r matches Err(GenomeError::Io { path, message }) ==> (first_root_failure(items@, 0) matches Some(j)
            && items@[j] == (Walked::Failed { path, message, at_root: true }) && final(out)@ == old(out)@
            + files_in(items@, j, *plan, paths_of(old(out)@))) || (final(out)@.len() >= NO_ENTRY - 2
            && message@ == too_many_files()),
        r matches Err(e) ==> e is Io || e is Cancelled,
        r matches Err(GenomeError::Cancelled) ==> exists|n: int|
            0 <= n <= items@.len() && first_root_failure(items@, 0) == first_root_failure(items@, n)
                && final(out)@ == old(out)@ + files_in(items@, n, *plan, paths_of(old(out)@)),
{
    let ghost out0 = out@;
    let ghost prior = paths_of(out0);
    let ghost shown0 = sink.shown();
    let ghost all = items@;
    let n = items.len();
    let mut i: usize = 0;
    proof {
        assert(files_in(all, 0, *plan, prior) =~= Seq::<FileEntry>::empty());
        assert(out@ =~= out0 + files_in(all, 0, *plan, prior));
        assert(out@.skip(out0.len() as int) =~= Seq::<FileEntry>::empty());
    }
    while i < n
        invariant
            n == all.len(),
            i <= n,
            items@ == all,
            out0 == old(out)@,
            prior == paths_of(out0),
            shown0 == old(sink).shown(),
            out@ == out0 + files_in(all, i as int, *plan, prior),
            first_root_failure(all, 0) == first_root_failure(all, i as int),
            seen.wf(),
            seen.view() == paths_of(out@),
            sink.shown() == shown0 + out@.skip(out0.len() as int),
        decreases n - i,
    {
        if stop_requested(Some(&progress.cancelled)) {
            assert(0 <= i <= items@.len() && first_root_failure(items@, 0) == first_root_failure(items@, i as int)
                && out@ == out0 + files_in(items@, i as int, *plan, prior));
            return Err(GenomeError::Cancelled);
        }
        let item = &items[i];
        let ghost out_before = out@;
        let ghost shown_before = sink.shown();
        let ghost fresh_before = files_in(all, i as int, *plan, prior);
        match item {
            Walked::Failed { path, message, at_root } => {
                if *at_root {
                    let p = path.clone();
                    let m = message.clone();
                    assert(first_root_failure(all, i as int) == Some(i as int));
                    assert(items@[i as int] == (Walked::Failed { path: p, message: m, at_root: true }));
                    return Err(GenomeError::Io { path: p, message: m });
                }
            },
            Walked::NotAFile => {},
            Walked::File(e) => if plan.keep(e.path.as_str()) {
                let key = chars_of(e.path.as_str());
                let known = seen.find(&key);
                proof {
                    assert(paths_of(out@) =~= prior + paths_of(fresh_before));
                    let pp = e.path@;
                    let fb = paths_of(fresh_before);
                    if prior.contains(pp) {
                        let j = choose|j: int| 0 <= j < prior.len() && prior[j] == pp;
                        assert(paths_of(out@)[j] == pp);
                        assert(seen.view()[j] == key@);
                    }
                    if fb.contains(pp) {
                        let j = choose|j: int| 0 <= j < fb.len() && fb[j] == pp;
                        assert(paths_of(out@)[prior.len() + j] == pp);
                        assert(seen.view()[prior.len() + j] == key@);
                    }
                    if let Some(j) = known {
                        assert(paths_of(out@)[j as int] == pp);
                        if j < prior.len() {
                            assert(prior[j as int] == pp);
                        } else {
                            assert(fb[j - prior.len()] == pp);
                        }
                    }
                    assert(known is None <==> !(prior.contains(pp) || fb.contains(pp)));
                }
                if known.is_none() {
                    if seen.len() >= NO_ENTRY - 2 {
                        return Err(
                            GenomeError::Io { path: e.path.clone(), message: String::from_str("too many files to record") },
                        );
                    }
                    progress.record_file(e.size);
                    let recorded = FileEntry {
                        path: e.path.clone(),
                        size: e.size,
                        modified: e.modified,
                        accessed: e.accessed,
                        is_symlink: e.is_symlink,
                        identity: e.identity,
                        hash: None,
                    };
                    sink.entry(&recorded);
                    seen.insert(key);
                    out.push(recorded);
                    proof {
                        assert(paths_of(out@) =~= paths_of(out_before).push(e.path@));
                        assert(out@.skip(out0.len() as int) =~= out_before.skip(out0.len() as int).push(recorded));
                    }
                }
            },
        }
        proof {
            assert(files_in(all, i + 1, *plan, prior) == fresh_before + match all[i as int] {
                Walked::File(e) => if kept(*plan, e.path@) && !prior.contains(e.path@) && !paths_of(
                    fresh_before,
                ).contains(e.path@) {
                    seq![unhashed(e)]
                } else {
                    Seq::<FileEntry>::empty()
                },
                _ => Seq::<FileEntry>::empty(),
            });
            assert(out@ =~= out0 + files_in(all, i + 1, *plan, prior));
        }
        i = i + 1;
    }
    Ok(())
}

// ---------------------------------------------------------------------------
// The scan

/// One answer a [`Walker`] gave, as the contracts speak of it.
pub enum WalkAnswer {
    /// `root` made absolute, or the message of the failure.
    Absolute { root: Seq<char>, result: Result<Seq<char>, Seq<char>> },
    /// A walk by `plan`, and what it reported.
    Walk { plan: WalkPlan, items: Seq<Walked> },
}

/// The filesystem side of a scan. Nothing is assumed of what it answers:
/// [`WalkLog`] records each answer, and the contracts speak of that
/// record.
pub trait Walker {
    /// `root` made absolute against the current directory — without
    /// touching the filesystem, resolving `..` or following symlinks — or
    /// the system's description of the error that prevented it.
    fn absolute(&mut self, root: &str) -> Result<String, String>;

    /// Every entry under `plan.root`, the root included, in walk order,
    /// descending only into children [`WalkPlan::keep`] accepts. May stop
    /// early once `progress` is cancelled.
    fn walk(&mut self, plan: &WalkPlan, progress: &ScanProgress) -> Vec<Walked>;
}

/// A walker together with the record of every answer it gave.
pub struct WalkLog<W> {
    pub walker: W,
    answers: Ghost<Seq<WalkAnswer>>,
}

impl<W: Walker> WalkLog<W> {
    /// The answers given so far, in order.
    pub closed spec fn answers(&self) -> Seq<WalkAnswer> {
        self.answers@
    }

    /// `walker`, with nothing asked of it yet.
    pub fn new(walker: W) -> (l: WalkLog<W>)
        ensures
            l.answers() == Seq::<WalkAnswer>::empty(),
    {
        WalkLog { walker, answers: Ghost(Seq::empty()) }
    }

    /// [`Walker::absolute`], recorded.
    pub fn absolute(&mut self, root: &str) -> (r: Result<String, String>)
        ensures
            final(self).answers() == old(self).answers().push(
                WalkAnswer::Absolute {
                    root: root@,
                    result: match r {
                        Ok(a) => Ok(a@),
                        Err(m) => Err(m@),
                    },
                },
            ),
    {
        let r = self.walker.absolute(root);
        proof {
            let result = match &r {
                Ok(a) => Ok(a@),
                Err(m) => Err(m@),
            };
            self.answers@ = self.answers@.push(WalkAnswer::Absolute { root: root@, result });
        }
        r
    }

    /// [`Walker::walk`], recorded.
    pub fn walk(&mut self, plan: &WalkPlan, progress: &ScanProgress) -> (r: Vec<Walked>)
        ensures
            final(self).answers() == old(self).answers().push(WalkAnswer::Walk { plan: *plan, items: r@ }),
    {
        let r = self.walker.walk(plan, progress);
        proof {
            self.answers@ = self.answers@.push(WalkAnswer::Walk { plan: *plan, items: r@ });
        }
        r
    }
}

/// `ans` makes each of `roots` absolute, in order, and every one succeeded.
pub open spec fn made_absolute(ans: Seq<WalkAnswer>, roots: Seq<Seq<char>>) -> bool {
    &&& ans.len() == roots.len()
    &&& forall|i: int|
        0 <= i < ans.len() ==> (#[trigger] ans[i] matches WalkAnswer::Absolute { root, result } && root
            == roots[i] && result is Ok)
}

/// `ans` asks to make the first of `roots` absolute, in order, each
/// succeeding but perhaps the last.
pub open spec fn asked_absolute(ans: Seq<WalkAnswer>, roots: Seq<Seq<char>>) -> bool {
    &&& ans.len() <= roots.len()
    &&& forall|i: int|
        0 <= i < ans.len() ==> (#[trigger] ans[i] matches WalkAnswer::Absolute { root, result } && root
            == roots[i] && (i < ans.len() - 1 ==> result is Ok))
}

/// The absolute paths the answers `ans` gave.
pub open spec fn absolute_values(ans: Seq<WalkAnswer>) -> Seq<Seq<char>> {
    ans.map_values(
        |a: WalkAnswer|
            match a {
                WalkAnswer::Absolute { result: Ok(p), .. } => p,
                _ => Seq::<char>::empty(),
            },
    )
}

/// `ans` walks each of `walked`, in order, each by a plan that knows the
/// scan's `excludes`, its `roots`, and `follow`.
pub open spec fn walks_planned(
    ans: Seq<WalkAnswer>,
    walked: Seq<Seq<char>>,
    roots: Seq<Seq<char>>,
    excludes: Seq<Seq<char>>,
    follow: bool,
) -> bool {
    &&& ans.len() == walked.len()
    &&& forall|i: int|
        0 <= i < ans.len() ==> (#[trigger] ans[i] matches WalkAnswer::Walk { plan, .. } && plan.root@
            == walked[i] && views_of(plan.excludes@) == excludes && views_of(plan.roots@) == roots
            && plan.follow_symlinks == follow)
}

/// The files the walks among `ans` reported and their plans keep, in
/// order, each path once.
pub open spec fn walked_files(ans: Seq<WalkAnswer>) -> Seq<FileEntry>
    decreases ans.len(),
{
    if ans.len() == 0 {
        seq![]
    } else {
        let before = walked_files(ans.drop_last());
        before + match ans.last() {
            WalkAnswer::Walk { plan, items } => files_in(items, items.len() as int, plan, paths_of(before)),
            _ => Seq::<FileEntry>::empty(),
        }
    }
}

/// The excludes as the scan uses them.
pub open spec fn normalized_excludes(excludes: Seq<String>) -> Seq<Seq<char>> {
    excludes.map_values(|e: String| spec_normalize_exclude(e@))
}

/// `p` lies within one of `excludes`.
pub open spec fn within_any(p: Seq<char>, excludes: Seq<Seq<char>>) -> bool {
    exists|j: int| 0 <= j < excludes.len() && spec_is_within(p, #[trigger] excludes[j])
}

/// What a scan of `opts` asked of its walker, as the answers `new` given
/// during the scan, and how that ended in `r`, whatever the outcome: it
/// made the roots absolute in order, and the first that could not be
/// made absolute ends the scan with that failure; if all were, it walked
/// distinct absolute roots in the order first given, each by a plan that
/// knows the normalized excludes and all the roots.
pub open spec fn scan_calls(opts: ScanOptions, new: Seq<WalkAnswer>, r: Result<Vec<FileEntry>, GenomeError>) -> bool {
    let n = opts.roots@.len() as int;
    let planned = first_occurrences(absolute_values(new.take(n)));
    ||| {
        &&& 0 < new.len() <= n
        &&& asked_absolute(new, views_of(opts.roots@))
        &&& new.last() matches WalkAnswer::Absolute { result: Err(m), .. }
        &&& r matches Err(GenomeError::Io { path, message }) && path@ == opts.roots@[new.len() - 1]@ && message@ == m
    }
    ||| walk_calls(opts, new)
}

/// The planned root a scan of `opts` stopped at with an `ExcludedRoot`
/// error naming `path`: the one after those `new` walked.
pub open spec fn stopped_at_excluded(opts: ScanOptions, new: Seq<WalkAnswer>, path: Seq<char>) -> bool {
    let n = opts.roots@.len() as int;
    let planned = first_occurrences(absolute_values(new.take(n)));
    &&& walk_calls(opts, new)
    &&& new.len() - n < planned.len()
    &&& path == planned[new.len() - n]
}

/// Every root of `opts` was made absolute, and `new` goes on to walk
/// distinct absolute roots in the order first given, each by a plan that
/// knows the normalized excludes and all the roots.
pub open spec fn walk_calls(opts: ScanOptions, new: Seq<WalkAnswer>) -> bool {
    let n = opts.roots@.len() as int;
    let planned = first_occurrences(absolute_values(new.take(n)));
    &&& new.len() >= n
    &&& made_absolute(new.take(n), views_of(opts.roots@))
    &&& new.len() - n <= planned.len()
    &&& walks_planned(
        new.skip(n),
        planned.take(new.len() - n),
        planned,
        normalized_excludes(opts.excludes@),
        opts.follow_symlinks,
    )
}

/// What a successful scan of `opts` did, as the answers `new` its walker
/// gave during the scan: it made every root absolute, walked each distinct
/// absolute root once, in the order first given — none of them within an
/// exclude — and returned the files those walks kept, each path once.
pub open spec fn scanned(opts: ScanOptions, new: Seq<WalkAnswer>, out: Seq<FileEntry>) -> bool {
    let n = opts.roots@.len() as int;
    let planned = first_occurrences(absolute_values(new.take(n)));
    &&& new.len() >= n
    &&& made_absolute(new.take(n), views_of(opts.roots@))
    &&& walks_planned(new.skip(n), planned, planned, normalized_excludes(opts.excludes@), opts.follow_symlinks)
    &&& forall|t: int| 0 <= t < planned.len() ==> !within_any(#[trigger] planned[t], normalized_excludes(opts.excludes@))
    &&& out == walked_files(new.skip(n))
}

/// Walk the roots and return every file entry. Read-only.
pub fn scan<W: Walker>(opts: &ScanOptions, progress: Arc<ScanProgress>, walker: &mut WalkLog<W>) -> (r: Result<
    Vec<FileEntry>,
    GenomeError,
>)
    requires
        opts.roots@.len() < NO_ENTRY - 1,
    ensures
        r matches Ok(out) ==> forall|i: int| 0 <= i < out@.len() ==> (#[trigger] out@[i]).hash is None,
        r matches Ok(out) ==> forall|i: int, j: int|
            0 <= i < out@.len() && 0 <= j < opts.excludes@.len() ==> !spec_is_within(
                (#[trigger] out@[i]).path@,
                spec_normalize_exclude(#[trigger] opts.excludes@[j]@),
            ),
        r matches Ok(out) ==> forall|i: int, j: int|
            0 <= i < j < out@.len() ==> (#[trigger] out@[i]).path@ != (#[trigger] out@[j]).path@,
        r matches Err(GenomeError::ExcludedRoot { path, exclude }) ==> exists|j: int|
            0 <= j < opts.excludes@.len() && exclude@ == spec_normalize_exclude(#[trigger] opts.excludes@[j]@)
                && spec_is_within(path@, exclude@),
        r matches Err(GenomeError::ExcludedRoot { path, .. }) ==> stopped_at_excluded(
            *opts,
            final(walker).answers().skip(old(walker).answers().len() as int),
            path@,
        ),
        opts.roots@.len() == 0 ==> (r matches Ok(out) && out@.len() == 0),
        final(walker).answers().take(old(walker).answers().len() as int) == old(walker).answers(),
        scan_calls(*opts, final(walker).answers().skip(old(walker).answers().len() as int), r),
        r matches Ok(out) ==> scanned(
            *opts,
            final(walker).answers().skip(old(walker).answers().len() as int),
            out@,
        ),
{
    let mut ignore = EntryLog::new(IgnoreEntries);
    scan_with(opts, progress, walker, &mut ignore)
}

/// [`scan`] plus a sink shown each collected file entry.
///
/// The sink is shown an entry after the progress counters move and before
/// the entry is stored in the final scan list. It is for provisional UI
/// feedback only: the complete report still comes from the returned list,
/// so the impact graph and duplicate detector can make the final safety
/// decision.
///
/// Roots are made absolute (anchored rules only match absolute paths) and
/// walked once each, in the order first given. A root the exclude list
/// covers is an error, not an empty scan: the walk would drop every entry
/// and the report would look like a clean disk.
pub fn scan_with<W: Walker, S: EntrySink>(
    opts: &ScanOptions,
    progress: Arc<ScanProgress>,
    walker: &mut WalkLog<W>,
    on_entry: &mut EntryLog<S>,
) -> (r: Result<Vec<FileEntry>, GenomeError>)
    requires
        opts.roots@.len() < NO_ENTRY - 1,
    ensures
        r matches Ok(out) ==> forall|i: int| 0 <= i < out@.len() ==> (#[trigger] out@[i]).hash is None,
        r matches Ok(out) ==> forall|i: int, j: int|
            0 <= i < out@.len() && 0 <= j < opts.excludes@.len() ==> !spec_is_within(
                (#[trigger] out@[i]).path@,
                spec_normalize_exclude(#[trigger] opts.excludes@[j]@),
            ),
        r matches Ok(out) ==> forall|i: int, j: int|
            0 <= i < j < out@.len() ==> (#[trigger] out@[i]).path@ != (#[trigger] out@[j]).path@,
        r matches Err(GenomeError::ExcludedRoot { path, exclude }) ==> exists|j: int|
            0 <= j < opts.excludes@.len() && exclude@ == spec_normalize_exclude(#[trigger] opts.excludes@[j]@)
                && spec_is_within(path@, exclude@),
        r matches Err(GenomeError::ExcludedRoot { path, .. }) ==> stopped_at_excluded(
            *opts,
            final(walker).answers().skip(old(walker).answers().len() as int),
            path@,
        ),
        opts.roots@.len() == 0 ==> (r matches Ok(out) && out@.len() == 0),
        final(walker).answers().take(old(walker).answers().len() as int) == old(walker).answers(),
        scan_calls(*opts, final(walker).answers().skip(old(walker).answers().len() as int), r),
        r matches Ok(out) ==> scanned(
            *opts,
            final(walker).answers().skip(old(walker).answers().len() as int),
            out@,
        ),
        r matches Ok(out) ==> final(on_entry).shown() == old(on_entry).shown() + out@,
{
    let ghost a0 = walker.answers();
    let ghost shown0 = on_entry.shown();
    // Normalized once for the whole scan: the root check below and every
    // directory the walk opens use it.
    let mut excludes: Vec<String> = Vec::new();
    let mut k: usize = 0;
    while k < opts.excludes.len()
        invariant
            k <= opts.excludes@.len(),
            excludes@.len() == k,
            forall|j: int| 0 <= j < k ==> #[trigger] excludes@[j]@ == spec_normalize_exclude(opts.excludes@[j]@),
        decreases opts.excludes@.len() - k,
    {
        excludes.push(normalize_exclude(opts.excludes[k].as_str()));
        k = k + 1;
    }
    proof {
        assert(views_of(excludes@) =~= normalized_excludes(opts.excludes@));
        assert(a0.take(a0.len() as int) =~= a0);
        assert(a0.skip(a0.len() as int) =~= Seq::<WalkAnswer>::empty());
        assert(views_of(opts.roots@).take(0) =~= Seq::<Seq<char>>::empty());
    }
    let mut absolute: Vec<String> = Vec::new();
    let mut k: usize = 0;
    proof {
        assert(views_of(absolute@) =~= absolute_values(walker.answers().skip(a0.len() as int)));
    }
    while k < opts.roots.len()
        invariant
            k <= opts.roots@.len(),
            absolute@.len() == k,
            walker.answers().len() == a0.len() + k,
            walker.answers().take(a0.len() as int) == a0,
            a0 == old(walker).answers(),
            made_absolute(walker.answers().skip(a0.len() as int), views_of(opts.roots@).take(k as int)),
            views_of(absolute@) == absolute_values(walker.answers().skip(a0.len() as int)),
        decreases opts.roots@.len() - k,
    {
        let ghost before = walker.answers();
        let answer = walker.absolute(opts.roots[k].as_str());
        proof {
            assert(walker.answers().take(a0.len() as int) =~= before.take(a0.len() as int));
            assert(walker.answers().skip(a0.len() as int) =~= before.skip(a0.len() as int).push(
                walker.answers().last(),
            ));
            let new = walker.answers().skip(a0.len() as int);
            assert forall|t: int| 0 <= t < new.len() implies (#[trigger] new[t] matches WalkAnswer::Absolute {
                root,
                result,
            } && root == views_of(opts.roots@)[t] && (t < new.len() - 1 ==> result is Ok)) by {
                if t < k {
                    assert(new[t] == before.skip(a0.len() as int)[t]);
                    assert(views_of(opts.roots@).take(k as int)[t] == views_of(opts.roots@)[t]);
                }
            }
            assert(asked_absolute(new, views_of(opts.roots@)));
        }
        match answer {
            Ok(a) => absolute.push(a),
            Err(message) => {
                let path = opts.roots[k].clone();
                proof {
                    let new = walker.answers().skip(a0.len() as int);
                    assert(new.last() == WalkAnswer::Absolute { root: opts.roots@[k as int]@, result: Err(message@) });
                }
                return Err(GenomeError::Io { path, message });
            },
        }
        proof {
            let new = walker.answers().skip(a0.len() as int);
            assert(views_of(opts.roots@).take(k + 1) =~= views_of(opts.roots@).take(k as int).push(
                opts.roots@[k as int]@,
            ));
            assert forall|t: int| 0 <= t < new.len() implies (#[trigger] new[t] matches WalkAnswer::Absolute {
                root,
                result,
            } && root == views_of(opts.roots@).take(k + 1)[t] && result is Ok) by {
                if t < k {
                    assert(new[t] == before.skip(a0.len() as int)[t]);
                }
            }
            assert(new.len() == k + 1);
            assert(new[k as int] == walker.answers().last());
            assert(absolute_values(new)[k as int] == absolute@[k as int]@);
            assert forall|t: int| 0 <= t < k implies absolute_values(new)[t] == views_of(absolute@)[t] by {
                assert(new[t] == before.skip(a0.len() as int)[t]);
                assert(absolute_values(before.skip(a0.len() as int))[t] == views_of(absolute@)[t]);
            }
            assert(views_of(absolute@) =~= absolute_values(new));
        }
        k = k + 1;
    }
    let ghost a1 = walker.answers();
    proof {
        assert(views_of(opts.roots@).take(opts.roots@.len() as int) =~= views_of(opts.roots@));
        assert(a1.skip(a0.len() as int).take(opts.roots@.len() as int) =~= a1.skip(a0.len() as int));
    }
    let roots = planned_roots(&absolute);
    let ghost n0 = a1.len();
    proof {
        if opts.roots@.len() == 0 {
            assert(views_of(absolute@) =~= Seq::<Seq<char>>::empty());
            assert(views_of(roots@).len() == 0);
        }
        assert(walker.answers().skip(n0 as int) =~= Seq::<WalkAnswer>::empty());
        assert(views_of(roots@).take(0) =~= Seq::<Seq<char>>::empty());
    }
    let mut out: Vec<FileEntry> = Vec::new();
    let mut seen = PathTable::new();
    proof {
        assert(paths_of(out@) =~= Seq::<Seq<char>>::empty());
        assert(out@.skip(0) =~= out@);
    }
    let mut i: usize = 0;
    while i < roots.len()
        invariant
            i <= roots@.len(),
            excludes@.len() == opts.excludes@.len(),
            forall|j: int| 0 <= j < excludes@.len() ==> #[trigger] excludes@[j]@ == spec_normalize_exclude(opts.excludes@[j]@),
            views_of(excludes@) == normalized_excludes(opts.excludes@),
            forall|x: int| 0 <= x < out@.len() ==> (#[trigger] out@[x]).hash is None,
            forall|x: int, j: int|
                0 <= x < out@.len() && 0 <= j < excludes@.len() ==> !spec_is_within(
                    (#[trigger] out@[x]).path@,
                    #[trigger] excludes@[j]@,
                ),
            forall|t: int| 0 <= t < i ==> !within_any(#[trigger] views_of(roots@)[t], normalized_excludes(opts.excludes@)),
            n0 == a1.len(),
            a0.len() <= n0,
            a0 == old(walker).answers(),
            shown0 == old(on_entry).shown(),
            opts.roots@.len() == 0 ==> roots@.len() == 0,
            n0 == a0.len() + opts.roots@.len(),
            a1.skip(a0.len() as int).len() == opts.roots@.len(),
            made_absolute(a1.skip(a0.len() as int), views_of(opts.roots@)),
            views_of(roots@) == first_occurrences(absolute_values(a1.skip(a0.len() as int))),
            walker.answers().len() == n0 + i,
            walker.answers().take(n0 as int) == a1,
            a1.take(a0.len() as int) == a0,
            walks_planned(
                walker.answers().skip(n0 as int),
                views_of(roots@).take(i as int),
                views_of(roots@),
                normalized_excludes(opts.excludes@),
                opts.follow_symlinks,
            ),
            out@ == walked_files(walker.answers().skip(n0 as int)),
            seen.wf(),
            seen.view() == paths_of(out@),
            on_entry.shown() == shown0 + out@,
        decreases roots@.len() - i,
    {
        proof {
            assert(walker.answers().take(n0 as int).take(a0.len() as int) =~= walker.answers().take(a0.len() as int));
            let new = walker.answers().skip(a0.len() as int);
            let n = opts.roots@.len() as int;
            assert(new.take(n) =~= a1.skip(a0.len() as int));
            assert(new.skip(n) =~= walker.answers().skip(n0 as int));
            assert(walk_calls(*opts, new));
        }
        if stop_requested(Some(&progress.cancelled)) {
            return Err(GenomeError::Cancelled);
        }
        let root = &roots[i];
        match excluded_by(root.as_str(), &excludes) {
            Some(j) => {
                proof {
                    assert(spec_is_within(root@, excludes@[j as int]@)) by {
                        lemma_first_within(root@, views_of(excludes@), 0);
                    }
                    let new = walker.answers().skip(a0.len() as int);
                    let n = opts.roots@.len() as int;
                    assert(new.take(n) =~= a1.skip(a0.len() as int));
                    assert(new.len() - n == i);
                    assert(views_of(roots@)[i as int] == root@);
                    assert(stopped_at_excluded(*opts, new, root@));
                }
                return Err(GenomeError::ExcludedRoot { path: root.clone(), exclude: excludes[j].clone() });
            },
            None => {},
        }
        proof {
            lemma_none_within(root@, views_of(excludes@), 0);
            assert(!within_any(views_of(roots@)[i as int], normalized_excludes(opts.excludes@))) by {
                if within_any(views_of(roots@)[i as int], normalized_excludes(opts.excludes@)) {
                    let j = choose|j: int| 0 <= j < normalized_excludes(opts.excludes@).len() && spec_is_within(
                        views_of(roots@)[i as int],
                        #[trigger] normalized_excludes(opts.excludes@)[j],
                    );
                    assert(views_of(excludes@)[j] == normalized_excludes(opts.excludes@)[j]);
                }
            }
        }
        let plan = WalkPlan {
            root: root.clone(),
            excludes: crate::rules::copy_strings(&excludes),
            roots: crate::rules::copy_strings(&roots),
            follow_symlinks: opts.follow_symlinks,
        };
        let ghost before = walker.answers();
        let items = walker.walk(&plan, &progress);
        let ghost out_before = out@;
        proof {
            assert(walker.answers().take(n0 as int) =~= before.take(n0 as int));
            assert(walker.answers().take(n0 as int).take(a0.len() as int) =~= walker.answers().take(a0.len() as int));
            let new = walker.answers().skip(n0 as int);
            let old_new = before.skip(n0 as int);
            assert(new =~= old_new.push(WalkAnswer::Walk { plan, items: items@ }));
            assert(views_of(roots@).take(i + 1) =~= views_of(roots@).take(i as int).push(roots@[i as int]@));
            assert(views_of(plan.excludes@) =~= views_of(excludes@));
            assert(views_of(plan.roots@) =~= views_of(roots@));
            assert forall|t: int| 0 <= t < new.len() implies (#[trigger] new[t] matches WalkAnswer::Walk {
                plan,
                ..
            } && plan.root@ == views_of(roots@).take(i + 1)[t] && views_of(plan.excludes@) == normalized_excludes(
                opts.excludes@,
            ) && views_of(plan.roots@) == views_of(roots@) && plan.follow_symlinks == opts.follow_symlinks) by {
                if t < i {
                    assert(new[t] == old_new[t]);
                }
            }
            let whole = walker.answers().skip(a0.len() as int);
            let n = opts.roots@.len() as int;
            assert(whole.take(n) =~= a1.skip(a0.len() as int));
            assert(whole.skip(n) =~= new);
            assert(walk_calls(*opts, whole));
        }
        match collect_walked(items, &plan, &progress, &mut out, &mut seen, on_entry) {
            Ok(()) => {},
            Err(e) => return Err(e),
        }
        proof {
            let fresh = files_in(items@, items@.len() as int, plan, paths_of(out_before));
            let new = walker.answers().skip(n0 as int);
            assert(new.drop_last() =~= before.skip(n0 as int));
            assert(out@ == walked_files(new));
            assert(on_entry.shown() =~= shown0 + out@);
            lemma_files_kept(items@, items@.len() as int, plan, paths_of(out_before));
            assert forall|x: int| 0 <= x < out@.len() implies (#[trigger] out@[x]).hash is None by {
                if x >= out_before.len() {
                    assert(out@[x] == fresh[x - out_before.len()]);
                }
            }
            assert forall|x: int, j: int|
                0 <= x < out@.len() && 0 <= j < excludes@.len() implies !spec_is_within(
                    (#[trigger] out@[x]).path@,
                    #[trigger] excludes@[j]@,
                ) by {
                if x >= out_before.len() {
                    assert(out@[x] == fresh[x - out_before.len()]);
                    assert(kept(plan, fresh[x - out_before.len()].path@));
                    assert(plan.excludes@[j] == excludes@[j]);
                }
            }
        }
        i = i + 1;
    }
    proof {
        assert forall|x: int, j: int| 0 <= x < out@.len() && 0 <= j < opts.excludes@.len() implies !spec_is_within(
            (#[trigger] out@[x]).path@,
            spec_normalize_exclude(#[trigger] opts.excludes@[j]@),
        ) by {
            assert(excludes@[j]@ == spec_normalize_exclude(opts.excludes@[j]@));
        }
        seen.lemma_distinct();
        assert forall|x: int, y: int| 0 <= x < y < out@.len() implies (#[trigger] out@[x]).path@ != (
        #[trigger] out@[y]).path@ by {
            assert(seen.view()[x] == out@[x].path@);
            assert(seen.view()[y] == out@[y].path@);
        }
        let fin = walker.answers();
        let new = fin.skip(a0.len() as int);
        let n = opts.roots@.len() as int;
        assert(fin.take(n0 as int).take(a0.len() as int) =~= fin.take(a0.len() as int));
        assert(new.take(n) =~= a1.skip(a0.len() as int));
        assert(new.skip(n) =~= fin.skip(n0 as int));
        assert(views_of(roots@).take(roots@.len() as int) =~= views_of(roots@));
        assert(scanned(*opts, new, out@));
        assert(walk_calls(*opts, new));
    }
    Ok(out)
}

proof fn lemma_none_within(path: Seq<char>, excludes: Seq<Seq<char>>, i: int)
    requires
        0 <= i,
    ensures
        first_within(path, excludes, i) is None ==> forall|j: int| i <= j < excludes.len() ==> !spec_is_within(path, #[trigger] excludes[j]),
    decreases excludes.len() - i,
{
    if i < excludes.len() && !spec_is_within(path, excludes[i]) {
        lemma_none_within(path, excludes, i + 1);
    }
}

proof fn lemma_first_within(path: Seq<char>, excludes: Seq<Seq<char>>, i: int)
    requires
        0 <= i,
    ensures
        first_within(path, excludes, i) matches Some(j) ==> i <= j < excludes.len() && spec_is_within(path, excludes[j]),
    decreases excludes.len() - i,
{
    if i < excludes.len() && !spec_is_within(path, excludes[i]) {
        lemma_first_within(path, excludes, i + 1);
    }
}

proof fn lemma_files_kept(items: Seq<Walked>, n: int, plan: WalkPlan, prior: Seq<Seq<char>>)
    ensures
        forall|x: int| 0 <= x < files_in(items, n, plan, prior).len() ==> (#[trigger] files_in(items, n, plan, prior)[
            x
        ]).hash is None && kept(plan, files_in(items, n, plan, prior)[x].path@),
    decreases n,
{
    if n > 0 {
        lemma_files_kept(items, n - 1, plan, prior);
        let prev = files_in(items, n - 1, plan, prior);
        assert forall|x: int| 0 <= x < files_in(items, n, plan, prior).len() implies (#[trigger] files_in(
            items,
            n,
            plan,
            prior,
        )[x]).hash is None && kept(plan, files_in(items, n, plan, prior)[x].path@) by {
            if x < prev.len() {
                assert(files_in(items, n, plan, prior)[x] == prev[x]);
            }
        }
    }
}

} // verus!
