//! The ONLY module that decides to modify the filesystem — and it only
//! moves.
//!
//! Design rule: Diskern never hard-deletes. Files are moved to a
//! quarantine directory, and every move can be undone until the user
//! explicitly purges quarantine. The filesystem calls themselves are the
//! caller's [`FileSystem`]; what is decided here is whether a file may be
//! moved at all, where it goes, and in what order the calls are made.
use vstd::prelude::*;
use crate::paths::{join, join_chars, parent, parent_len, prefix};
use crate::text::{chars_of, decimal, signed_decimal, string_from, write_decimal, write_signed};
use crate::report::Report;
use crate::rules::RulesDb;
use crate::{caution, spec_actionable, Finding, GenomeError, Verdict};

verus! {

#[derive(Clone, Debug)]
pub struct QuarantineRecord {
    pub original: String,
    pub quarantined_to: String,
    pub at_epoch: i64,
}

/// One filesystem call, as the contracts speak of it.
pub enum FsStep {
    CreateDirAll(Seq<char>),
    Rename { from: Seq<char>, to: Seq<char>, ok: bool },
    Copy { from: Seq<char>, to: Seq<char>, ok: bool },
    RemoveFile { path: Seq<char>, ok: bool },
    Probe { path: Seq<char>, answer: bool },
}

/// The filesystem a move is carried out on. Nothing is assumed of what
/// its calls return: [`FsLog`] records each call and its answer, and the
/// contracts speak of that record.
pub trait FileSystem {
    /// Create `dir` and any missing parents; the system's description of
    /// the failure otherwise.
    fn create_dir_all(&mut self, dir: &str) -> Result<(), String>;

    /// Rename `from` to `to`; false when the rename failed (across
    /// filesystems, for one).
    fn rename(&mut self, from: &str, to: &str) -> bool;

    /// Copy the bytes of `from` to a new file `to`.
    fn copy(&mut self, from: &str, to: &str) -> Result<(), String>;

    /// Remove the file `path`.
    fn remove_file(&mut self, path: &str) -> Result<(), String>;

    /// Whether something is at `path`.
    fn occupied(&mut self, path: &str) -> bool;

    /// Seconds since the Unix epoch by the clock. Touches no file.
    fn now(&mut self) -> i64;
}

/// A filesystem together with the record of every call made through it
/// and what each call answered.
pub struct FsLog<F> {
    pub fs: F,
    recorded: Ghost<Seq<FsStep>>,
}

impl<F: FileSystem> FsLog<F> {
    /// The calls made so far, in order, with their answers.
    pub closed spec fn steps(&self) -> Seq<FsStep> {
        self.recorded@
    }

    /// `fs`, with nothing recorded yet.
    pub fn new(fs: F) -> (l: FsLog<F>)
        ensures
            l.steps() == Seq::<FsStep>::empty(),
    {
        FsLog { fs, recorded: Ghost(Seq::empty()) }
    }

    pub fn create_dir_all(&mut self, dir: &str) -> (r: Result<(), String>)
        ensures
            final(self).steps() == old(self).steps().push(FsStep::CreateDirAll(dir@)),
    {
        let r = self.fs.create_dir_all(dir);
        proof {
            self.recorded@ = self.recorded@.push(FsStep::CreateDirAll(dir@));
        }
        r
    }

    pub fn rename(&mut self, from: &str, to: &str) -> (ok: bool)
        ensures
            final(self).steps() == old(self).steps().push(FsStep::Rename { from: from@, to: to@, ok }),
    {
        let ok = self.fs.rename(from, to);
        proof {
            self.recorded@ = self.recorded@.push(FsStep::Rename { from: from@, to: to@, ok });
        }
        ok
    }

    pub fn copy(&mut self, from: &str, to: &str) -> (r: Result<(), String>)
        ensures
            final(self).steps() == old(self).steps().push(FsStep::Copy { from: from@, to: to@, ok: r is Ok }),
    {
        let r = self.fs.copy(from, to);
        proof {
            self.recorded@ = self.recorded@.push(FsStep::Copy { from: from@, to: to@, ok: r is Ok });
        }
        r
    }

    pub fn remove_file(&mut self, path: &str) -> (r: Result<(), String>)
        ensures
            final(self).steps() == old(self).steps().push(FsStep::RemoveFile { path: path@, ok: r is Ok }),
    {
        let r = self.fs.remove_file(path);
        proof {
            self.recorded@ = self.recorded@.push(FsStep::RemoveFile { path: path@, ok: r is Ok });
        }
        r
    }

    pub fn occupied(&mut self, path: &str) -> (b: bool)
        ensures
            final(self).steps() == old(self).steps().push(FsStep::Probe { path: path@, answer: b }),
    {
        let b = self.fs.occupied(path);
        proof {
            self.recorded@ = self.recorded@.push(FsStep::Probe { path: path@, answer: b });
        }
        b
    }

    pub fn now(&mut self) -> (t: i64)
        ensures
            final(self).steps() == old(self).steps(),
    {
        self.fs.now()
    }
}

/// A filesystem on which nothing exists and every call succeeds without
/// doing anything; the clock reads `clock`.
pub struct DryRun {
    clock: i64,
}

impl DryRun {
    /// The time the clock reads.
    pub closed spec fn clock_reading(&self) -> i64 {
        self.clock
    }

    pub fn new(clock: i64) -> (d: DryRun)
        ensures
            d.clock_reading() == clock,
    {
        DryRun { clock }
    }
}

impl FileSystem for DryRun {
    fn create_dir_all(&mut self, dir: &str) -> (r: Result<(), String>) {
        Ok(())
    }

    fn rename(&mut self, from: &str, to: &str) -> (ok: bool) {
        true
    }

    fn copy(&mut self, from: &str, to: &str) -> (r: Result<(), String>) {
        Ok(())
    }

    fn remove_file(&mut self, path: &str) -> (r: Result<(), String>) {
        Ok(())
    }

    fn occupied(&mut self, path: &str) -> (b: bool)
        ensures
            !b,
    {
        false
    }

    fn now(&mut self) -> (t: i64)
        ensures
            t == old(self).clock_reading(),
            final(self).clock_reading() == old(self).clock_reading(),
    {
        self.clock
    }
}

// ---------------------------------------------------------------------------
// Moving a file

/// The calls a move of `from` to `to` makes: a rename; when that fails, a
/// copy; and only when the copy succeeded, the removal of `from`.
pub open spec fn move_steps(steps: Seq<FsStep>, from: Seq<char>, to: Seq<char>) -> bool {
    ||| steps == seq![FsStep::Rename { from, to, ok: true }]
    ||| steps == seq![FsStep::Rename { from, to, ok: false }, FsStep::Copy { from, to, ok: false }]
    ||| steps.len() == 3 && steps[0] == (FsStep::Rename { from, to, ok: false }) && steps[1] == (FsStep::Copy {
        from,
        to,
        ok: true,
    }) && (steps[2] matches FsStep::RemoveFile { path, .. } && path == from)
}

/// Whether a move that made the calls `steps` succeeded.
pub open spec fn move_succeeded(steps: Seq<FsStep>) -> bool {
    ||| steps[0] matches FsStep::Rename { ok, .. } && ok
    ||| steps.len() == 3 && (steps[2] matches FsStep::RemoveFile { ok, .. } && ok)
}

/// Move a file, in the one direction this crate is allowed to move things.
///
/// `rename` is the fast path and fails across filesystems — the normal
/// case here: quarantine lives in the app's data directory, and the files
/// come from wherever the scan pointed. The fallback copies, then removes:
/// if the removal fails the file exists in both places, which is
/// recoverable; removing first and failing to copy would not be.
pub fn move_file<F: FileSystem>(fs: &mut FsLog<F>, from: &str, to: &str) -> (r: Result<(), GenomeError>)
    ensures
        final(fs).steps().len() > old(fs).steps().len(),
        final(fs).steps().subrange(0, old(fs).steps().len() as int) == old(fs).steps(),
        move_steps(final(fs).steps().subrange(old(fs).steps().len() as int, final(fs).steps().len() as int), from@, to@),
        r is Ok <==> move_succeeded(
            final(fs).steps().subrange(old(fs).steps().len() as int, final(fs).steps().len() as int),
        ),
        r matches Err(e) ==> e matches GenomeError::Io { path, .. } && path@ == from@,
{
    let ghost s0 = fs.steps();
    if fs.rename(from, to) {
        assert(fs.steps().subrange(s0.len() as int, fs.steps().len() as int) =~= seq![
            FsStep::Rename { from: from@, to: to@, ok: true },
        ]);
        return Ok(());
    }
    copy_then_remove(fs, from, to)
}

/// The fallback half of [`move_file`].
fn copy_then_remove<F: FileSystem>(fs: &mut FsLog<F>, from: &str, to: &str) -> (r: Result<(), GenomeError>)
    requires
        old(fs).steps().len() >= 1,
        old(fs).steps().last() == (FsStep::Rename { from: from@, to: to@, ok: false }),
    ensures
        ({
            let s0 = old(fs).steps().drop_last();
            let tail = final(fs).steps().subrange(s0.len() as int, final(fs).steps().len() as int);
            &&& final(fs).steps().len() > s0.len()
            &&& final(fs).steps().subrange(0, s0.len() as int) == s0
            &&& move_steps(tail, from@, to@)
            &&& (r is Ok <==> move_succeeded(tail))
        }),
        r matches Err(e) ==> e matches GenomeError::Io { path, .. } && path@ == from@,
{
    let ghost s0 = old(fs).steps().drop_last();
    let ghost rename = old(fs).steps().last();
    match fs.copy(from, to) {
        Ok(()) => {},
        Err(message) => {
            let ghost tail = fs.steps().subrange(s0.len() as int, fs.steps().len() as int);
            assert(tail =~= seq![rename, FsStep::Copy { from: from@, to: to@, ok: false }]);
            assert(fs.steps().subrange(0, s0.len() as int) =~= s0);
            return Err(GenomeError::Io { path: String::from_str(from), message });
        },
    }
    let r = fs.remove_file(from);
    let ghost tail = fs.steps().subrange(s0.len() as int, fs.steps().len() as int);
    let ghost removal = fs.steps().last();
    assert(tail =~= seq![rename, FsStep::Copy { from: from@, to: to@, ok: true }, removal]);
    assert(fs.steps().subrange(0, s0.len() as int) =~= s0);
    match r {
        Ok(()) => Ok(()),
        Err(message) => Err(GenomeError::Io { path: String::from_str(from), message }),
    }
}

// ---------------------------------------------------------------------------
// Quarantine

/// `Debug` spelling of a verdict.
pub open spec fn verdict_name(v: Verdict) -> Seq<char> {
    match v {
        Verdict::Safe => "Safe"@,
        Verdict::Review => "Review"@,
        Verdict::Risky => "Risky"@,
        Verdict::Protected => "Protected"@,
    }
}

/// The refusal for moving `file` with verdict `v`.
pub open spec fn refusal(file: Seq<char>, v: Verdict) -> Seq<char> {
    "refusing to quarantine "@ + file + " with verdict "@ + verdict_name(v)
}

/// A path flattened into one file name: every `/`, `\` and `:` becomes `_`.
pub open spec fn flattened(p: Seq<char>) -> Seq<char> {
    p.map_values(|c: char| if c == '/' || c == '\\' || c == ':' { '_' } else { c })
}

/// Where `file` goes in `dir` when quarantined at time `stamp`.
pub open spec fn quarantine_path(dir: Seq<char>, file: Seq<char>, stamp: i64) -> Seq<char> {
    join(dir, signed_decimal(stamp as int) + "_"@ + flattened(file))
}

fn verdict_name_str(v: Verdict) -> (s: &'static str)
    ensures
        s@ == verdict_name(v),
{
    match v {
        Verdict::Safe => "Safe",
        Verdict::Review => "Review",
        Verdict::Risky => "Risky",
        Verdict::Protected => "Protected",
    }
}

/// The first quarantine file name tried for `file` at time `stamp`.
pub fn quarantine_destination(dir: &str, file: &str, stamp: i64) -> (dest: String)
    ensures
        dest@ == quarantine_path(dir@, file@, stamp),
{
    let mut name = String::new();
    write_signed(&mut name, stamp);
    name.append("_");
    let head = chars_of(name.as_str());
    let f = chars_of(file);
    let mut v: Vec<char> = prefix(&head, head.len());
    proof {
        assert(head@.take(head@.len() as int) =~= head@);
    }
    let ghost base = v@;
    let mut i: usize = 0;
    while i < f.len()
        invariant
            i <= f@.len(),
            f@ == file@,
            v@ == base + flattened(f@.take(i as int)),
        decreases f@.len() - i,
    {
        let c = f[i];
        v.push(if c == '/' || c == '\\' || c == ':' { '_' } else { c });
        proof {
            assert(flattened(f@.take(i + 1)) =~= flattened(f@.take(i as int)).push(
                if f@[i as int] == '/' || f@[i as int] == '\\' || f@[i as int] == ':' { '_' } else { f@[i as int] },
            ));
        }
        i = i + 1;
    }
    proof {
        assert(f@.take(f@.len() as int) =~= f@);
    }
    let d = chars_of(dir);
    let joined = join_chars(&d, &v);
    let dest = string_from(&joined);
    assert(dest@ =~= quarantine_path(dir@, file@, stamp));
    dest
}

/// The `n`-th name tried for a quarantined file whose first choice is
/// `base`: `base` itself, then `base-1`, `base-2`, and so on.
pub open spec fn numbered(base: Seq<char>, n: nat) -> Seq<char> {
    if n == 0 {
        base
    } else {
        base + "-"@ + decimal(n)
    }
}

/// `steps` asked whether each of the first `k` names for `base` was taken,
/// and each was.
pub open spec fn all_taken(steps: Seq<FsStep>, base: Seq<char>, k: int) -> bool {
    &&& steps.len() >= k
    &&& forall|i: int| 0 <= i < k ==> #[trigger] steps[i] == FsStep::Probe { path: numbered(base, i as nat), answer: true }
}

/// `steps` asked after the names for `base` in turn until the `k`-th was
/// free: every name before it was taken.
pub open spec fn first_free(steps: Seq<FsStep>, base: Seq<char>, k: nat) -> bool {
    &&& steps.len() == k + 1
    &&& all_taken(steps, base, k as int)
    &&& steps[k as int] == FsStep::Probe { path: numbered(base, k), answer: false }
}

/// The first name for `base` the filesystem reports free, asking name by
/// name; `None` once every name a `u64` can number is taken.
fn free_name<F: FileSystem>(fs: &mut FsLog<F>, base: &String) -> (r: Option<String>)
    ensures
        final(fs).steps().subrange(0, old(fs).steps().len() as int) == old(fs).steps(),
        final(fs).steps().len() >= old(fs).steps().len(),
        ({
            let tail = final(fs).steps().subrange(old(fs).steps().len() as int, final(fs).steps().len() as int);
            match r {
                Some(name) => exists|k: nat| first_free(tail, base@, k) && name@ == #[trigger] numbered(base@, k),
                None => all_taken(tail, base@, tail.len() as int),
            }
        }),
{
    let ghost s0 = fs.steps();
    let mut n: u64 = 0;
    let mut name = base.clone();
    proof {
        assert(fs.steps().subrange(0, s0.len() as int) =~= s0);
        assert(fs.steps().subrange(s0.len() as int, fs.steps().len() as int) =~= Seq::<FsStep>::empty());
    }
    loop
        invariant
            s0 == old(fs).steps(),
            fs.steps().len() == s0.len() + n,
            fs.steps().subrange(0, s0.len() as int) == s0,
            all_taken(fs.steps().subrange(s0.len() as int, fs.steps().len() as int), base@, n as int),
            name@ == numbered(base@, n as nat),
        decreases u64::MAX - n,
    {
        let ghost before = fs.steps();
        let taken = fs.occupied(name.as_str());
        let ghost tail = fs.steps().subrange(s0.len() as int, fs.steps().len() as int);
        proof {
            assert(fs.steps().subrange(0, s0.len() as int) =~= before.subrange(0, s0.len() as int));
            assert forall|i: int| 0 <= i < n implies #[trigger] tail[i] == before.subrange(
                s0.len() as int,
                before.len() as int,
            )[i] by {}
            assert(tail[n as int] == FsStep::Probe { path: numbered(base@, n as nat), answer: taken });
        }
        if !taken {
            proof {
                assert(first_free(tail, base@, n as nat));
            }
            return Some(name);
        }
        if n == u64::MAX {
            proof {
                assert(all_taken(tail, base@, tail.len() as int));
            }
            return None;
        }
        n = n + 1;
        let mut next = base.clone();
        next.append("-");
        write_decimal(&mut next, n);
        name = next;
        proof {
            assert(name@ =~= numbered(base@, n as nat));
        }
    }
}

/// What moving `file` into quarantine in `dir` did, as the calls it made
/// (`s0` before, `s` after) and its result `r`: it created `dir`; unless
/// that failed, it read the clock and asked name by name, starting from
/// the quarantine path for that time, until one was free; and it moved
/// the file to that name, and the record says so. When every name is
/// taken it moves nothing.
pub open spec fn quarantine_outcome(
    file: Seq<char>,
    dir: Seq<char>,
    s0: Seq<FsStep>,
    s: Seq<FsStep>,
    r: Result<QuarantineRecord, GenomeError>,
) -> bool {
    let tail = s.subrange(s0.len() + 1int, s.len() as int);
    &&& s.len() > s0.len()
    &&& s.subrange(0, s0.len() as int) == s0
    &&& s[s0.len() as int] == FsStep::CreateDirAll(dir)
    &&& {
        ||| (s.len() == s0.len() + 1 && (r matches Err(GenomeError::Io { path, .. }) && path@ == dir))
        ||| exists|stamp: i64|
            {
                let base = #[trigger] quarantine_path(dir, file, stamp);
                ||| (all_taken(tail, base, tail.len() as int) && (r matches Err(GenomeError::Io { path, .. })
                    && path@ == dir))
                ||| exists|k: nat|
                    {
                        let probes = tail.take(k + 1int);
                        let moves = tail.skip(k + 1int);
                        &&& tail.len() > k + 1
                        &&& first_free(probes, base, k)
                        &&& move_steps(moves, file, #[trigger] numbered(base, k))
                        &&& (r is Ok <==> move_succeeded(moves))
                        &&& (r matches Ok(rec) ==> rec.original@ == file && rec.quarantined_to@ == numbered(
                            base,
                            k,
                        ) && rec.at_epoch == stamp)
                        &&& (r matches Err(e) ==> e matches GenomeError::Io { path, .. } && path@ == file)
                    }
            }
    }
}

/// Move a file into quarantine. Refuses `Protected` and `Risky` before
/// touching anything — callers can't bypass safety by calling this
/// directly.
pub fn quarantine<F: FileSystem>(file: &str, verdict: Verdict, quarantine_dir: &str, fs: &mut FsLog<F>) -> (r: Result<
    QuarantineRecord,
    GenomeError,
>)
    ensures
        !spec_actionable(verdict) ==> final(fs).steps() == old(fs).steps() && (r matches Err(GenomeError::Rules(m))
            && m@ == refusal(file@, verdict)),
        spec_actionable(verdict) ==> quarantine_outcome(file@, quarantine_dir@, old(fs).steps(), final(fs).steps(), r),
{
    match verdict {
        Verdict::Protected | Verdict::Risky => {
            let mut m = String::from_str("refusing to quarantine ");
            m.append(file);
            m.append(" with verdict ");
            m.append(verdict_name_str(verdict));
            return Err(GenomeError::Rules(m));
        },
        Verdict::Safe | Verdict::Review => {},
    }
    let ghost s0 = fs.steps();
    let made = fs.create_dir_all(quarantine_dir);
    proof {
        assert(fs.steps().subrange(0, s0.len() as int) =~= s0);
    }
    match made {
        Ok(()) => {},
        Err(message) => return Err(GenomeError::Io { path: String::from_str(quarantine_dir), message }),
    }
    // Flatten the path into a quarantine file name, and number it when a
    // file of the same name, quarantined in the same second, is there.
    let stamp = fs.now();
    let first = quarantine_destination(quarantine_dir, file, stamp);
    let ghost s1 = fs.steps();
    let dest = match free_name(fs, &first) {
        Some(d) => d,
        None => {
            proof {
                let tail = fs.steps().subrange(s0.len() + 1int, fs.steps().len() as int);
                assert(fs.steps().subrange(0, s0.len() as int) =~= s0) by {
                    assert forall|x: int| 0 <= x < s0.len() implies fs.steps()[x] == s0[x] by {
                        assert(fs.steps().subrange(0, s1.len() as int)[x] == fs.steps()[x]);
                    }
                }
                assert(fs.steps()[s0.len() as int] == fs.steps().subrange(0, s1.len() as int)[s0.len() as int]);
                assert(tail =~= fs.steps().subrange(s1.len() as int, fs.steps().len() as int));
                assert(quarantine_path(quarantine_dir@, file@, stamp) == first@);
            }
            return Err(
                GenomeError::Io {
                    path: String::from_str(quarantine_dir),
                    message: String::from_str("no free quarantine name"),
                },
            );
        },
    };
    let ghost s2 = fs.steps();
    let moved = move_file(fs, file, dest.as_str());
    proof {
        let s = fs.steps();
        assert(s.subrange(0, s2.len() as int) == s2);
        assert(s.subrange(0, s0.len() as int) =~= s0) by {
            assert forall|x: int| 0 <= x < s0.len() implies s[x] == s0[x] by {
                assert(s.subrange(0, s2.len() as int)[x] == s[x]);
                assert(s2.subrange(0, s1.len() as int)[x] == s2[x]);
            }
        }
        assert(s[s0.len() as int] == s.subrange(0, s2.len() as int)[s0.len() as int]);
        assert(s2[s0.len() as int] == s2.subrange(0, s1.len() as int)[s0.len() as int]);
        let tail = s.subrange(s0.len() + 1int, s.len() as int);
        let ptail = s2.subrange(s1.len() as int, s2.len() as int);
        let base = quarantine_path(quarantine_dir@, file@, stamp);
        assert(base == first@);
        let k = choose|k: nat| first_free(ptail, base, k) && dest@ == #[trigger] numbered(base, k);
        assert(tail.take(k + 1int) =~= ptail);
        assert(tail.skip(k + 1int) =~= s.subrange(s2.len() as int, s.len() as int));
        assert(dest@ == numbered(base, k));
    }
    match moved {
        Ok(()) => {},
        Err(e) => return Err(e),
    }
    Ok(QuarantineRecord { original: String::from_str(file), quarantined_to: dest, at_epoch: stamp })
}

/// What restoring over an occupied path is refused with.
pub open spec fn occupied_refusal(path: Seq<char>) -> Seq<char> {
    "refusing to restore over "@ + path + ": something is already there"@
}

/// Put a quarantined file back where it came from, recreating its
/// directory if it was removed meanwhile.
///
/// The calls it makes: whether something is at the original path, and if
/// so nothing more — restore refuses rather than overwrite what is there
/// now (a cache the app rebuilt, say). Otherwise the creation of the
/// original's parent directory, when it has one; then, unless that
/// failed, a move from the quarantine back to the original. A failure
/// names the directory that could not be created, or the quarantined file
/// that could not be moved.
pub fn restore<F: FileSystem>(record: &QuarantineRecord, fs: &mut FsLog<F>) -> (r: Result<(), GenomeError>)
    ensures
        ({
            let s0 = old(fs).steps();
            let s = final(fs).steps();
            let start = s0.len() + 1int;
            let k = match parent(record.original@) {
                Some(_) => start + 1,
                None => start,
            };
            &&& s.len() >= start
            &&& s.subrange(0, s0.len() as int) == s0
            &&& s[s0.len() as int] matches FsStep::Probe { path, answer } && path == record.original@
            &&& {
                ||| (s[s0.len() as int] == FsStep::Probe { path: record.original@, answer: true } && s.len() == start
                    && (r matches Err(GenomeError::Rules(m)) && m@ == occupied_refusal(record.original@)))
                ||| {
                    &&& s[s0.len() as int] == FsStep::Probe { path: record.original@, answer: false }
                    &&& k <= s.len()
                    &&& parent(record.original@) matches Some(dir) ==> s[start] == FsStep::CreateDirAll(dir)
                    &&& {
                        ||| (parent(record.original@) matches Some(dir) && s.len() == k && (r matches Err(
                            GenomeError::Io { path, .. },
                        ) && path@ == dir))
                        ||| {
                            let tail = s.subrange(k, s.len() as int);
                            &&& move_steps(tail, record.quarantined_to@, record.original@)
                            &&& (r is Ok <==> move_succeeded(tail))
                            &&& (r matches Err(e) ==> e matches GenomeError::Io { path, .. } && path@
                                == record.quarantined_to@)
                        }
                    }
                }
            }
        }),
{
    let ghost s0 = fs.steps();
    let taken = fs.occupied(record.original.as_str());
    proof {
        assert(fs.steps().subrange(0, s0.len() as int) =~= s0);
    }
    if taken {
        let mut m = String::from_str("refusing to restore over ");
        m.append(record.original.as_str());
        m.append(": something is already there");
        return Err(GenomeError::Rules(m));
    }
    let ghost sp = fs.steps();
    let original = chars_of(record.original.as_str());
    proof {
        assert(original@.take(original@.len() as int) =~= original@);
    }
    match parent_len(&original, original.len()) {
        Some(l) => {
            let p = string_from(&prefix(&original, l));
            let made = fs.create_dir_all(p.as_str());
            proof {
                assert(fs.steps().subrange(0, sp.len() as int) =~= sp);
                assert(fs.steps().subrange(0, s0.len() as int) =~= s0) by {
                    assert forall|x: int| 0 <= x < s0.len() implies fs.steps()[x] == s0[x] by {
                        assert(fs.steps().subrange(0, sp.len() as int)[x] == fs.steps()[x]);
                        assert(sp.subrange(0, s0.len() as int)[x] == sp[x]);
                    }
                }
                assert(fs.steps()[s0.len() as int] == sp[s0.len() as int]);
            }
            match made {
                Ok(()) => {},
                Err(message) => return Err(GenomeError::Io { path: p, message }),
            }
        },
        None => {},
    }
    let ghost s1 = fs.steps();
    let r = move_file(fs, record.quarantined_to.as_str(), record.original.as_str());
    proof {
        assert forall|x: int| 0 <= x < s1.len() implies fs.steps()[x] == s1[x] by {
            assert(fs.steps().subrange(0, s1.len() as int)[x] == fs.steps()[x]);
        }
        assert(fs.steps().subrange(0, s0.len() as int) =~= s0) by {
            assert forall|x: int| 0 <= x < s0.len() implies fs.steps()[x] == s0[x] by {
                assert(sp.subrange(0, s0.len() as int)[x] == sp[x]);
                if parent(record.original@) is Some {
                    assert(s1.subrange(0, sp.len() as int)[x] == s1[x]);
                }
            }
        }
        assert(fs.steps()[s0.len() as int] == s1[s0.len() as int]);
        assert(s1[s0.len() as int] == sp[s0.len() as int]) by {
            if parent(record.original@) is Some {
                assert(s1.subrange(0, sp.len() as int)[s0.len() as int] == s1[s0.len() as int]);
            }
        }
        if parent(record.original@) is Some {
            assert(fs.steps()[s0.len() + 1int] == s1[s0.len() + 1int]);
        }
    }
    r
}

// ---------------------------------------------------------------------------
// Acting on a report

/// Whether the report an action is about is still the one in force.
pub trait Authorization {
    fn still_authorized(&self) -> bool;
}

/// The position of the first finding of `fs` for `path`.
pub open spec fn finding_index(fs: Seq<Finding>, path: Seq<char>, i: int) -> Option<int>
    decreases fs.len() - i,
{
    if i < 0 || i >= fs.len() {
        None
    } else if fs[i].entry.path@ == path {
        Some(i)
    } else {
        finding_index(fs, path, i + 1)
    }
}

/// The more cautious of two verdicts.
pub open spec fn stricter(a: Verdict, b: Verdict) -> Verdict {
    if caution(a) >= caution(b) {
        a
    } else {
        b
    }
}

/// The verdict an action on `path` is held to: the report's verdict for
/// it, tightened by what the rules say of it now.
pub open spec fn acting_verdict(report_verdict: Verdict, rules: RulesDb, path: Seq<char>) -> Verdict {
    stricter(report_verdict, rules.spec_classify(path).1)
}

fn stricter_of(a: Verdict, b: Verdict) -> (v: Verdict)
    ensures
        v == stricter(a, b),
{
    let ca: u8 = match a {
        Verdict::Safe => 0,
        Verdict::Review => 1,
        Verdict::Risky => 2,
        Verdict::Protected => 3,
    };
    let cb: u8 = match b {
        Verdict::Safe => 0,
        Verdict::Review => 1,
        Verdict::Risky => 2,
        Verdict::Protected => 3,
    };
    if ca >= cb {
        a
    } else {
        b
    }
}

proof fn lemma_finding_index(fs: Seq<Finding>, path: Seq<char>, i: int)
    requires
        0 <= i,
    ensures
        finding_index(fs, path, i) matches Some(j) ==> i <= j < fs.len() && fs[j].entry.path@ == path,
    decreases fs.len() - i,
{
    if i < fs.len() && fs[i].entry.path@ != path {
        lemma_finding_index(fs, path, i + 1);
    }
}

fn find_finding(fs: &Vec<Finding>, path: &str) -> (r: Option<usize>)
    ensures
        r matches Some(i) ==> i < fs@.len(),
        match r {
            Some(i) => finding_index(fs@, path@, 0) == Some(i as int),
            None => finding_index(fs@, path@, 0) is None,
        },
{
    let mut i: usize = 0;
    while i < fs.len()
        invariant
            i <= fs@.len(),
            finding_index(fs@, path@, 0) == finding_index(fs@, path@, i as int),
        decreases fs@.len() - i,
    {
        if path_matches(fs[i].entry.path.as_str(), path) {
            return Some(i);
        }
        i = i + 1;
    }
    None
}

fn path_matches(a: &str, b: &str) -> (r: bool)
    ensures
        r == (a@ == b@),
{
    let x = chars_of(a);
    let y = chars_of(b);
    if x.len() != y.len() {
        assert(a@.len() != b@.len());
        return false;
    }
    let mut i: usize = 0;
    while i < x.len()
        invariant
            x@ == a@,
            y@ == b@,
            x@.len() == y@.len(),
            i <= x@.len(),
            forall|j: int| 0 <= j < i ==> x@[j] == y@[j],
        decreases x@.len() - i,
    {
        if x[i] != y[i] {
            assert(a@[i as int] != b@[i as int]);
            return false;
        }
        i = i + 1;
    }
    assert(x@ =~= y@);
    true
}

/// What an action on `path` is refused with when the report has no
/// finding for it.
pub open spec fn not_in_report(path: Seq<char>) -> Seq<char> {
    "no finding for "@ + path + " in the current report"@
}

/// What an action is refused with once the report it was granted on is
/// no longer the one in force.
pub open spec fn superseded_report() -> Seq<char> {
    "scan report was superseded; refusing to quarantine — scan again"@
}

/// Quarantine the file of `report`'s finding for `path`.
///
/// Nothing here trusts a verdict the caller claims: the finding comes from
/// the report, its verdict is tightened by what the rules say of the path
/// now, and `authorization` is asked last, just before anything moves. A
/// refusal touches nothing.
pub fn quarantine_finding_with_authorization<F: FileSystem, A: Authorization>(
    path: &str,
    report: &Report,
    rules: &RulesDb,
    quarantine_dir: &str,
    authorization: &A,
    fs: &mut FsLog<F>,
) -> (r: Result<QuarantineRecord, GenomeError>)
    requires
        rules.wf(),
    ensures
        finding_index(report.findings@, path@, 0) is None ==> final(fs).steps() == old(fs).steps() && (r matches Err(
            GenomeError::Rules(m),
        ) && m@ == not_in_report(path@)),
        finding_index(report.findings@, path@, 0) matches Some(i) ==> 0 <= i < report.findings@.len(),
        finding_index(report.findings@, path@, 0) matches Some(i) ==> {
            let v = acting_verdict(report.findings@[i].verdict, *rules, path@);
            &&& !spec_actionable(v) ==> final(fs).steps() == old(fs).steps() && (r matches Err(
                GenomeError::Rules(m),
            ) && m@ == refusal(path@, v))
            &&& spec_actionable(v) ==> {
                ||| (final(fs).steps() == old(fs).steps() && (r matches Err(GenomeError::Rules(m)) && m@
                    == superseded_report()))
                ||| quarantine_outcome(path@, quarantine_dir@, old(fs).steps(), final(fs).steps(), r)
            }
        },
{
    proof {
        lemma_finding_index(report.findings@, path@, 0);
    }
    let i = match find_finding(&report.findings, path) {
        Some(i) => i,
        None => {
            let mut m = String::from_str("no finding for ");
            m.append(path);
            m.append(" in the current report");
            return Err(GenomeError::Rules(m));
        },
    };
    let (_, now_verdict, _) = rules.classify(path);
    let verdict = stricter_of(report.findings[i].verdict, now_verdict);
    if !spec_actionable_exec(verdict) {
        let mut m = String::from_str("refusing to quarantine ");
        m.append(path);
        m.append(" with verdict ");
        m.append(verdict_name_str(verdict));
        return Err(GenomeError::Rules(m));
    }
    if !authorization.still_authorized() {
        return Err(GenomeError::Rules(String::from_str("scan report was superseded; refusing to quarantine — scan again")));
    }
    quarantine(path, verdict, quarantine_dir, fs)
}

fn spec_actionable_exec(v: Verdict) -> (b: bool)
    ensures
        b == spec_actionable(v),
{
    match v {
        Verdict::Safe | Verdict::Review => true,
        _ => false,
    }
}

} // verus!
