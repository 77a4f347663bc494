//! Presentation decisions shared by the front ends, as data: byte counts
//! at a readable unit, labels, and how a list of findings is grouped for
//! display. Printing them is the front end's business.
use vstd::prelude::*;
use crate::text::{decimal, digit, digit_char, write_decimal};
use crate::dedup::{all_true, ordered_groups};
use crate::{Category, Finding, Verdict};

verus! {

/// `1000^k`.
pub open spec fn pow1000(k: nat) -> nat
    decreases k,
{
    if k == 0 {
        1
    } else {
        1000 * pow1000((k - 1) as nat)
    }
}

/// The unit `n` bytes are shown in, counting up from `k` (0 = B, up to
/// 4 = TB): the next unit up while the value in this one is at least
/// 999.95 — anything that large would round to "1000.0" at one decimal.
pub open spec fn unit_from(n: nat, k: nat) -> nat
    decreases 4 - k,
{
    if k < 4 && n * 20 >= 19999 * pow1000(k) {
        unit_from(n, k + 1)
    } else {
        k
    }
}

/// `n` bytes in unit `k`, in tenths, rounded to the nearest tenth; an
/// exact half goes to the even tenth, as one-decimal formatting does.
pub open spec fn tenths(n: nat, k: nat) -> nat {
    let q = (n * 10) / pow1000(k);
    let r = (n * 10) % pow1000(k);
    if r * 2 > pow1000(k) || (r * 2 == pow1000(k) && q % 2 == 1) {
        q + 1
    } else {
        q
    }
}

pub open spec fn unit_name(k: nat) -> Seq<char> {
    if k == 0 {
        "B"@
    } else if k == 1 {
        "KB"@
    } else if k == 2 {
        "MB"@
    } else if k == 3 {
        "GB"@
    } else {
        "TB"@
    }
}

/// Bytes at the largest unit that keeps the number short: whole bytes
/// below 1000, otherwise one decimal place. Decimal units.
pub open spec fn spec_human_bytes(n: nat) -> Seq<char> {
    let k = unit_from(n, 0);
    if k == 0 {
        decimal(n) + " B"@
    } else {
        let t = tenths(n, k);
        decimal(t / 10) + "."@ + seq![digit_char(t % 10)] + " "@ + unit_name(k)
    }
}

proof fn lemma_pow1000_values()
    ensures
        pow1000(0) == 1,
        pow1000(1) == 1000,
        pow1000(2) == 1_000_000,
        pow1000(3) == 1_000_000_000,
        pow1000(4) == 1_000_000_000_000,
{
    reveal_with_fuel(pow1000, 5);
}

proof fn lemma_unit_from_bound(n: nat, k: nat)
    requires
        k <= 4,
    ensures
        k <= unit_from(n, k) <= 4,
        unit_from(n, k) < 4 ==> n * 20 < 19999 * pow1000(unit_from(n, k)),
    decreases 4 - k,
{
    if k < 4 && n * 20 >= 19999 * pow1000(k) {
        lemma_unit_from_bound(n, k + 1);
    }
}

fn unit_label(k: u64) -> (s: &'static str)
    requires
        1 <= k <= 4,
    ensures
        s@ == unit_name(k as nat),
{
    if k == 1 {
        "KB"
    } else if k == 2 {
        "MB"
    } else if k == 3 {
        "GB"
    } else {
        "TB"
    }
}

/// Bytes at the largest unit that keeps the number short. Decimal units,
/// matching what disk vendors report.
pub fn human_bytes(n: u64) -> (s: String)
    ensures
        s@ == spec_human_bytes(n as nat),
{
    proof {
        lemma_pow1000_values();
    }
    let wide = n as u128;
    let mut k: u64 = 0;
    let mut scale: u128 = 1;
    while k < 4 && wide * 20 >= 19999 * scale
        invariant
            k <= 4,
            wide == n,
            scale == pow1000(k as nat),
            scale <= 1_000_000_000_000,
            unit_from(n as nat, k as nat) == unit_from(n as nat, 0),
            pow1000(0) == 1,
            pow1000(1) == 1000,
            pow1000(2) == 1_000_000,
            pow1000(3) == 1_000_000_000,
            pow1000(4) == 1_000_000_000_000,
        decreases 4 - k,
    {
        assert(pow1000((k + 1) as nat) == 1000 * pow1000(k as nat));
        assert(k + 1 <= 4);
        scale = scale * 1000;
        k = k + 1;
    }
    let mut s = String::new();
    if k == 0 {
        write_decimal(&mut s, n);
        s.append(" B");
        assert(s@ =~= spec_human_bytes(n as nat));
    } else {
        let q = (wide * 10) / scale;
        let rem = (wide * 10) % scale;
        let t = if rem * 2 > scale || (rem * 2 == scale && q % 2 == 1) {
            q + 1
        } else {
            q
        };
        assert(t == tenths(n as nat, k as nat));
        assert(scale >= 1000);
        assert(q <= 184467440737095516) by (nonlinear_arith)
            requires
                q as int == (wide * 10) as int / scale as int,
                scale >= 1000,
                wide <= 18446744073709551615,
        ;
        assert(t <= 184467440738095516);
        let whole = (t / 10) as u64;
        let frac = (t % 10) as u64;
        write_decimal(&mut s, whole);
        s.append(".");
        crate::text::push_char(&mut s, digit(frac));
        s.append(" ");
        s.append(unit_label(k));
        assert(s@ =~= spec_human_bytes(n as nat));
    }
    s
}

// ---------------------------------------------------------------------------
// Labels

pub open spec fn spec_verdict_label(v: Verdict) -> Seq<char> {
    match v {
        Verdict::Safe => "Safe to remove"@,
        Verdict::Review => "Review first"@,
        Verdict::Risky => "Risky — not recommended"@,
        Verdict::Protected => "Protected — do not touch"@,
    }
}

/// The verdict as both front ends describe it.
pub fn verdict_label(v: Verdict) -> (s: &'static str)
    ensures
        s@ == spec_verdict_label(v),
{
    match v {
        Verdict::Safe => "Safe to remove",
        Verdict::Review => "Review first",
        Verdict::Risky => "Risky — not recommended",
        Verdict::Protected => "Protected — do not touch",
    }
}

pub open spec fn spec_category_label(c: Category) -> Seq<char> {
    match c {
        Category::BrowserCache => "Browser cache"@,
        Category::BuildArtifact => "Build artifacts"@,
        Category::PackageManagerCache => "Package manager cache"@,
        Category::TempFile => "Temporary files"@,
        Category::Log => "Logs"@,
        Category::Installer => "Installers"@,
        Category::DuplicateFile => "Duplicate file"@,
        Category::EmptyDirectory => "Empty folders"@,
        Category::SystemCritical => "System critical"@,
        Category::Unknown => "Unrecognized"@,
    }
}

/// The category as both front ends describe it.
pub fn category_label(c: Category) -> (s: &'static str)
    ensures
        s@ == spec_category_label(c),
{
    match c {
        Category::BrowserCache => "Browser cache",
        Category::BuildArtifact => "Build artifacts",
        Category::PackageManagerCache => "Package manager cache",
        Category::TempFile => "Temporary files",
        Category::Log => "Logs",
        Category::Installer => "Installers",
        Category::DuplicateFile => "Duplicate file",
        Category::EmptyDirectory => "Empty folders",
        Category::SystemCritical => "System critical",
        Category::Unknown => "Unrecognized",
    }
}

// ---------------------------------------------------------------------------
// Grouping findings for display

/// The categories of the findings at positions `idx`, in order of first
/// appearance, each once.
pub open spec fn cat_keys(fs: Seq<Finding>, idx: Seq<usize>) -> Seq<Category>
    decreases idx.len(),
{
    if idx.len() == 0 {
        seq![]
    } else {
        let ks = cat_keys(fs, idx.drop_last());
        let c = fs[idx.last() as int].category;
        if ks.contains(c) {
            ks
        } else {
            ks.push(c)
        }
    }
}

/// The positions among `idx` whose finding has category `c`, in order.
pub open spec fn cat_members(fs: Seq<Finding>, idx: Seq<usize>, c: Category) -> Seq<usize>
    decreases idx.len(),
{
    if idx.len() == 0 {
        seq![]
    } else {
        cat_members(fs, idx.drop_last(), c) + if fs[idx.last() as int].category == c {
            seq![idx.last()]
        } else {
            seq![]
        }
    }
}

/// The bytes the findings at positions `ms` claim, added up.
pub open spec fn claimed(fs: Seq<Finding>, ms: Seq<usize>) -> int
    decreases ms.len(),
{
    if ms.len() == 0 {
        0
    } else {
        claimed(fs, ms.drop_last()) + fs[ms.last() as int].reclaimable
    }
}

/// `t`, or `u64::MAX` where it does not fit.
pub open spec fn capped_u64(t: int) -> u64 {
    if t > u64::MAX {
        u64::MAX
    } else {
        t as u64
    }
}

/// `gs` groups the findings at positions `idx` by category: one group per
/// category, holding its findings in their order, biggest claimed total
/// first, ties in order of first appearance.
pub open spec fn grouped(gs: Seq<(Category, Vec<usize>)>, fs: Seq<Finding>, idx: Seq<usize>) -> bool {
    let keys = cat_keys(fs, idx);
    &&& gs.len() == keys.len()
    &&& forall|k: int| 0 <= k < gs.len() ==> keys.contains((#[trigger] gs[k]).0) && gs[k].1@ == cat_members(fs, idx, gs[k].0)
    &&& forall|a: int, b: int| 0 <= a < b < gs.len() ==> (#[trigger] gs[a]).0 != (#[trigger] gs[b]).0
    &&& forall|a: int, b: int|
        0 <= a < b < gs.len() ==> capped_u64(claimed(fs, (#[trigger] gs[a]).1@)) > capped_u64(
            claimed(fs, (#[trigger] gs[b]).1@),
        ) || (capped_u64(claimed(fs, gs[a].1@)) == capped_u64(claimed(fs, gs[b].1@)) && keys.index_of(
            gs[a].0,
        ) < keys.index_of(gs[b].0))
}

proof fn lemma_cat_step(fs: Seq<Finding>, idx: Seq<usize>, i: int, c: Category)
    requires
        0 <= i < idx.len(),
    ensures
        cat_members(fs, idx.take(i + 1), c) == cat_members(fs, idx.take(i), c) + if fs[idx[i] as int].category
            == c {
            seq![idx[i]]
        } else {
            seq![]
        },
        cat_keys(fs, idx.take(i + 1)) == if cat_keys(fs, idx.take(i)).contains(fs[idx[i] as int].category) {
            cat_keys(fs, idx.take(i))
        } else {
            cat_keys(fs, idx.take(i)).push(fs[idx[i] as int].category)
        },
{
    assert(idx.take(i + 1).drop_last() =~= idx.take(i));
    assert(idx.take(i + 1).last() == idx[i]);
}

proof fn lemma_claimed_nonneg(fs: Seq<Finding>, ms: Seq<usize>)
    ensures
        claimed(fs, ms) >= 0,
    decreases ms.len(),
{
    if ms.len() > 0 {
        lemma_claimed_nonneg(fs, ms.drop_last());
    }
}

proof fn lemma_keys_distinct(fs: Seq<Finding>, idx: Seq<usize>)
    ensures
        cat_keys(fs, idx).no_duplicates(),
    decreases idx.len(),
{
    if idx.len() > 0 {
        lemma_keys_distinct(fs, idx.drop_last());
    }
}

/// The capped total the findings at positions `ms` claim.
fn claimed_total(fs: &Vec<Finding>, ms: &Vec<usize>) -> (t: u64)
    requires
        forall|k: int| 0 <= k < ms@.len() ==> #[trigger] ms@[k] < fs@.len(),
    ensures
        t == capped_u64(claimed(fs@, ms@)),
{
    let mut t: u64 = 0;
    let mut k: usize = 0;
    while k < ms.len()
        invariant
            k <= ms@.len(),
            forall|x: int| 0 <= x < ms@.len() ==> #[trigger] ms@[x] < fs@.len(),
            t == capped_u64(claimed(fs@, ms@.take(k as int))),
        decreases ms@.len() - k,
    {
        proof {
            assert(ms@.take(k + 1).drop_last() =~= ms@.take(k as int));
            lemma_claimed_nonneg(fs@, ms@.take(k as int));
        }
        t = t.saturating_add(fs[ms[k]].reclaimable);
        k = k + 1;
    }
    proof {
        assert(ms@.take(ms@.len() as int) =~= ms@);
    }
    t
}

/// Group the findings at positions `idx` by category, biggest claimed
/// total first. Within a group the findings keep their order, so findings
/// that arrive sorted by size stay sorted.
pub fn by_category(fs: &Vec<Finding>, idx: &Vec<usize>) -> (gs: Vec<(Category, Vec<usize>)>)
    requires
        forall|k: int| 0 <= k < idx@.len() ==> #[trigger] idx@[k] < fs@.len(),
    ensures
        grouped(gs@, fs@, idx@),
{
    let mut cats: Vec<Category> = Vec::new();
    let mut groups: Vec<Vec<usize>> = Vec::new();
    let mut i: usize = 0;
    proof {
        assert(idx@.take(0) =~= Seq::<usize>::empty());
        assert(cats@ =~= cat_keys(fs@, idx@.take(0)));
    }
    while i < idx.len()
        invariant
            i <= idx@.len(),
            forall|k: int| 0 <= k < idx@.len() ==> #[trigger] idx@[k] < fs@.len(),
            cats@ == cat_keys(fs@, idx@.take(i as int)),
            groups@.len() == cats@.len(),
            forall|g: int| 0 <= g < groups@.len() ==> (#[trigger] groups@[g])@ == cat_members(fs@, idx@.take(i as int), cats@[g]),
            forall|c: Category| !cats@.contains(c) ==> #[trigger] cat_members(fs@, idx@.take(i as int), c) == Seq::<usize>::empty(),
            cats@.len() <= i,
        decreases idx@.len() - i,
    {
        let p = idx[i];
        let c = fs[p].category;
        proof {
            assert forall|cc: Category| true implies #[trigger] cat_members(fs@, idx@.take(i + 1), cc) == cat_members(
                fs@,
                idx@.take(i as int),
                cc,
            ) + if fs@[idx@[i as int] as int].category == cc {
                seq![idx@[i as int]]
            } else {
                seq![]
            } by {
                lemma_cat_step(fs@, idx@, i as int, cc);
            }
            lemma_cat_step(fs@, idx@, i as int, c);
            lemma_keys_distinct(fs@, idx@.take(i as int));
        }
        let ghost cats0 = cats@;
        let ghost groups0 = groups@;
        let mut g: usize = 0;
        let mut found = false;
        while g < cats.len() && !found
            invariant
                g <= cats@.len(),
                cats@ == cats0,
                found ==> g < cats@.len() && cats@[g as int] == c,
                forall|x: int| 0 <= x < g ==> cats@[x] != c,
            decreases cats@.len() - g + if found { 0int } else { 1int },
        {
            if cats[g] == c {
                found = true;
            } else {
                g = g + 1;
            }
        }
        if found {
            groups[g].push(p);
            proof {
                assert(cats0.contains(c));
                assert forall|gg: int| 0 <= gg < groups@.len() implies (#[trigger] groups@[gg])@ == cat_members(
                    fs@,
                    idx@.take(i + 1),
                    cats@[gg],
                ) by {
                    if gg != g {
                        assert(groups@[gg] == groups0[gg]);
                        assert(cats0[gg] != c) by {
                            assert(cats0.no_duplicates());
                        }
                    }
                }
            }
        } else {
            cats.push(c);
            let mut fresh: Vec<usize> = Vec::new();
            fresh.push(p);
            groups.push(fresh);
            proof {
                assert(!cats0.contains(c));
                assert forall|gg: int| 0 <= gg < groups@.len() implies (#[trigger] groups@[gg])@ == cat_members(
                    fs@,
                    idx@.take(i + 1),
                    cats@[gg],
                ) by {
                    if gg < groups0.len() {
                        assert(groups@[gg] == groups0[gg]);
                        assert(cats0[gg] != c);
                    } else {
                        assert(cat_members(fs@, idx@.take(i as int), c) == Seq::<usize>::empty());
                        assert(groups@[gg]@ =~= seq![p]);
                    }
                }
            }
        }
        proof {
            assert forall|cc: Category| !cats@.contains(cc) implies #[trigger] cat_members(
                fs@,
                idx@.take(i + 1),
                cc,
            ) == Seq::<usize>::empty() by {
                if cc == c {
                    if found {
                        assert(cats@[g as int] == c);
                    } else {
                        assert(cats@[cats@.len() - 1] == c);
                    }
                }
                assert(!cats0.contains(cc)) by {
                    if cats0.contains(cc) {
                        let x = choose|x: int| 0 <= x < cats0.len() && cats0[x] == cc;
                        assert(cats@[x] == cc);
                    }
                }
            }
        }
        i = i + 1;
    }
    proof {
        assert(idx@.take(idx@.len() as int) =~= idx@);
        lemma_keys_distinct(fs@, idx@);
    }
    // Subtotals, then biggest first.
    let mut totals: Vec<u64> = Vec::new();
    let mut g: usize = 0;
    while g < groups.len()
        invariant
            g <= groups@.len(),
            totals@.len() == g,
            groups@.len() == cats@.len(),
            forall|k: int| 0 <= k < idx@.len() ==> #[trigger] idx@[k] < fs@.len(),
            forall|x: int| 0 <= x < groups@.len() ==> (#[trigger] groups@[x])@ == cat_members(fs@, idx@, cats@[x]),
            forall|x: int| 0 <= x < g ==> #[trigger] totals@[x] == capped_u64(claimed(fs@, groups@[x]@)),
        decreases groups@.len() - g,
    {
        proof {
            lemma_members_in(fs@, idx@, cats@[g as int]);
        }
        totals.push(claimed_total(fs, &groups[g]));
        g = g + 1;
    }
    let everything = all_true(totals.len());
    let order = ordered_groups(&totals, &everything);
    let mut gs: Vec<(Category, Vec<usize>)> = Vec::new();
    let mut k: usize = 0;
    while k < order.len()
        invariant
            k <= order@.len(),
            gs@.len() == k,
            order@.len() == totals@.len(),
            totals@.len() == groups@.len(),
            groups@.len() == cats@.len(),
            forall|x: int| 0 <= x < order@.len() ==> #[trigger] order@[x] < totals@.len(),
            forall|x: int|
                0 <= x < k ==> (#[trigger] gs@[x]).0 == cats@[order@[x] as int] && gs@[x].1@ == groups@[order@[x] as int]@,
        decreases order@.len() - k,
    {
        let o = order[k];
        let mut copy: Vec<usize> = Vec::new();
        let mut j: usize = 0;
        while j < groups[o].len()
            invariant
                o < groups@.len(),
                j <= groups@[o as int]@.len(),
                copy@ == groups@[o as int]@.take(j as int),
            decreases groups@[o as int]@.len() - j,
        {
            copy.push(groups[o][j]);
            proof {
                assert(groups@[o as int]@.take(j + 1) =~= groups@[o as int]@.take(j as int).push(groups@[o as int]@[j as int]));
            }
            j = j + 1;
        }
        proof {
            assert(groups@[o as int]@.take(groups@[o as int]@.len() as int) =~= groups@[o as int]@);
        }
        gs.push((cats[o], copy));
        k = k + 1;
    }
    proof {
        let keys = cat_keys(fs@, idx@);
        assert(cats@ == keys);
        assert forall|a: int, b: int| 0 <= a < b < gs@.len() implies (#[trigger] gs@[a]).0 != (#[trigger] gs@[b]).0 by {
            assert(order@[a] != order@[b]);
        }
        assert forall|a: int, b: int|
            0 <= a < b < gs@.len() implies capped_u64(claimed(fs@, (#[trigger] gs@[a]).1@)) > capped_u64(
                claimed(fs@, (#[trigger] gs@[b]).1@),
            ) || (capped_u64(claimed(fs@, gs@[a].1@)) == capped_u64(claimed(fs@, gs@[b].1@)) && keys.index_of(
                gs@[a].0,
            ) < keys.index_of(gs@[b].0)) by {
            let oa = order@[a] as int;
            let ob = order@[b] as int;
            assert(totals@[oa] == capped_u64(claimed(fs@, groups@[oa]@)));
            assert(totals@[ob] == capped_u64(claimed(fs@, groups@[ob]@)));
            assert(keys[oa] == keys[oa]);
            assert(keys[ob] == keys[ob]);
            let ia = keys.index_of(keys[oa]);
            let ib = keys.index_of(keys[ob]);
            assert(0 <= ia < keys.len() && keys[ia] == keys[oa]);
            assert(0 <= ib < keys.len() && keys[ib] == keys[ob]);
            assert(ia == oa);
            assert(ib == ob);
        }
    }
    gs
}

proof fn lemma_members_in(fs: Seq<Finding>, idx: Seq<usize>, c: Category)
    requires
        forall|k: int| 0 <= k < idx.len() ==> #[trigger] idx[k] < fs.len(),
    ensures
        forall|k: int| 0 <= k < cat_members(fs, idx, c).len() ==> #[trigger] cat_members(fs, idx, c)[k] < fs.len(),
    decreases idx.len(),
{
    if idx.len() > 0 {
        lemma_members_in(fs, idx.drop_last(), c);
        let prev = cat_members(fs, idx.drop_last(), c);
        assert forall|k: int| 0 <= k < cat_members(fs, idx, c).len() implies #[trigger] cat_members(fs, idx, c)[k] < fs.len() by {
            if k < prev.len() {
                assert(cat_members(fs, idx, c)[k] == prev[k]);
            } else {
                assert(idx[idx.len() - 1] < fs.len());
            }
        }
    }
}

// ---------------------------------------------------------------------------
// The findings listing

/// One category within a verdict's section of the listing.
pub struct CategoryListing {
    pub category: Category,
    /// Positions of the findings in this group, in their order.
    pub findings: Vec<usize>,
    /// The bytes they claim, capped at `u64::MAX`.
    pub subtotal: u64,
    /// How many of them to show: all when the cap is 0.
    pub shown: usize,
}

/// One verdict's section of the listing.
pub struct VerdictListing {
    pub verdict: Verdict,
    pub count: usize,
    /// The bytes the section's findings claim, capped at `u64::MAX`.
    pub total: u64,
    pub groups: Vec<CategoryListing>,
}

/// Verdicts are listed safest first, which is also `Verdict`'s order.
pub open spec fn verdict_order() -> Seq<Verdict> {
    seq![Verdict::Safe, Verdict::Review, Verdict::Risky, Verdict::Protected]
}

/// The positions among the first `n` findings whose verdict is `v`.
pub open spec fn with_verdict(fs: Seq<Finding>, v: Verdict, n: int) -> Seq<usize>
    decreases n,
{
    if n <= 0 {
        seq![]
    } else {
        with_verdict(fs, v, n - 1) + if fs[n - 1].verdict == v {
            seq![(n - 1) as usize]
        } else {
            seq![]
        }
    }
}

/// How many of `len` items a cap of `top` shows: all when `top` is 0.
pub open spec fn shown_count(top: usize, len: nat) -> nat {
    if top == 0 || top >= len {
        len
    } else {
        top as nat
    }
}

/// `cl` lists the groups `gs` with their subtotals and shown counts.
pub open spec fn lists_groups(cl: Seq<CategoryListing>, gs: Seq<(Category, Vec<usize>)>, fs: Seq<Finding>, top: usize) -> bool {
    &&& cl.len() == gs.len()
    &&& forall|k: int|
        0 <= k < cl.len() ==> {
            let c = #[trigger] cl[k];
            &&& c.category == gs[k].0
            &&& c.findings@ == gs[k].1@
            &&& c.subtotal == capped_u64(claimed(fs, gs[k].1@))
            &&& c.shown == shown_count(top, gs[k].1@.len())
        }
}

/// `s` is the section for verdict `v`.
pub open spec fn section_for(s: VerdictListing, fs: Seq<Finding>, v: Verdict, top: usize) -> bool {
    let idx = with_verdict(fs, v, fs.len() as int);
    &&& s.verdict == v
    &&& s.count == idx.len()
    &&& s.total == capped_u64(claimed(fs, idx))
    &&& exists|gs: Seq<(Category, Vec<usize>)>| #[trigger] grouped(gs, fs, idx) && lists_groups(s.groups@, gs, fs, top)
}

/// The verdicts that get a section: those `wanted` admits that some
/// finding has, safest first.
pub open spec fn listed_verdicts(fs: Seq<Finding>, wanted: Option<Verdict>) -> Seq<Verdict> {
    verdict_order().filter(
        |v: Verdict|
            (wanted is None || wanted == Some(v)) && with_verdict(fs, v, fs.len() as int).len() > 0,
    )
}

proof fn lemma_with_verdict(fs: Seq<Finding>, v: Verdict, n: int)
    requires
        0 <= n <= fs.len(),
        fs.len() <= usize::MAX,
    ensures
        forall|k: int| 0 <= k < with_verdict(fs, v, n).len() ==> #[trigger] with_verdict(fs, v, n)[k] < n,
        with_verdict(fs, v, n).len() <= n,
    decreases n,
{
    if n > 0 {
        lemma_with_verdict(fs, v, n - 1);
        let prev = with_verdict(fs, v, n - 1);
        assert forall|k: int| 0 <= k < with_verdict(fs, v, n).len() implies #[trigger] with_verdict(fs, v, n)[k] < n by {
            if k < prev.len() {
                assert(with_verdict(fs, v, n)[k] == prev[k]);
            }
        }
    }
}

fn positions_with(fs: &Vec<Finding>, v: Verdict) -> (idx: Vec<usize>)
    ensures
        idx@ == with_verdict(fs@, v, fs@.len() as int),
{
    let mut idx: Vec<usize> = Vec::new();
    let mut i: usize = 0;
    while i < fs.len()
        invariant
            i <= fs@.len(),
            idx@ == with_verdict(fs@, v, i as int),
        decreases fs@.len() - i,
    {
        if fs[i].verdict == v {
            idx.push(i);
        }
        proof {
            assert(with_verdict(fs@, v, i + 1) =~= idx@);
        }
        i = i + 1;
    }
    idx
}

fn section(fs: &Vec<Finding>, v: Verdict, idx: Vec<usize>, top: usize) -> (s: VerdictListing)
    requires
        idx@ == with_verdict(fs@, v, fs@.len() as int),
    ensures
        section_for(s, fs@, v, top),
{
    let count = fs.len();
    proof {
        lemma_with_verdict(fs@, v, count as int);
    }
    let total = claimed_total(fs, &idx);
    let gs = by_category(fs, &idx);
    let mut groups: Vec<CategoryListing> = Vec::new();
    let mut k: usize = 0;
    while k < gs.len()
        invariant
            k <= gs@.len(),
            groups@.len() == k,
            grouped(gs@, fs@, idx@),
            forall|x: int| 0 <= x < idx@.len() ==> #[trigger] idx@[x] < fs@.len(),
            forall|x: int|
                0 <= x < k ==> {
                    let c = #[trigger] groups@[x];
                    &&& c.category == gs@[x].0
                    &&& c.findings@ == gs@[x].1@
                    &&& c.subtotal == capped_u64(claimed(fs@, gs@[x].1@))
                    &&& c.shown == shown_count(top, gs@[x].1@.len())
                },
        decreases gs@.len() - k,
    {
        let (category, members) = (gs[k].0, &gs[k].1);
        proof {
            assert(gs@[k as int].1@ == cat_members(fs@, idx@, gs@[k as int].0));
            lemma_members_in(fs@, idx@, gs@[k as int].0);
        }
        let subtotal = claimed_total(fs, members);
        let n = members.len();
        let shown = if top == 0 || top >= n { n } else { top };
        let mut copy: Vec<usize> = Vec::new();
        let mut j: usize = 0;
        while j < members.len()
            invariant
                j <= members@.len(),
                copy@ == members@.take(j as int),
            decreases members@.len() - j,
        {
            copy.push(members[j]);
            proof {
                assert(members@.take(j + 1) =~= members@.take(j as int).push(members@[j as int]));
            }
            j = j + 1;
        }
        proof {
            assert(members@.take(members@.len() as int) =~= members@);
        }
        groups.push(CategoryListing { category, findings: copy, subtotal, shown });
        k = k + 1;
    }
    let s = VerdictListing { verdict: v, count: idx.len(), total, groups };
    assert(lists_groups(s.groups@, gs@, fs@, top));
    s
}

/// The findings listing: a section per verdict, safest first, for each
/// verdict `wanted` admits that some finding has; within a section the
/// findings grouped by category, biggest total first. At most `top`
/// findings of a group are to be shown, all of them when `top` is 0.
pub fn listing(fs: &Vec<Finding>, wanted: Option<Verdict>, top: usize) -> (ls: Vec<VerdictListing>)
    ensures
        ls@.len() == listed_verdicts(fs@, wanted).len(),
        forall|k: int| 0 <= k < ls@.len() ==> section_for(#[trigger] ls@[k], fs@, listed_verdicts(fs@, wanted)[k], top),
{
    let order: [Verdict; 4] = [Verdict::Safe, Verdict::Review, Verdict::Risky, Verdict::Protected];
    let ghost pred = |v: Verdict|
        (wanted is None || wanted == Some(v)) && with_verdict(fs@, v, fs@.len() as int).len() > 0;
    let mut ls: Vec<VerdictListing> = Vec::new();
    let mut i: usize = 0;
    proof {
        assert(order@ =~= verdict_order());
        assert(verdict_order().take(0).filter(pred) =~= Seq::<Verdict>::empty());
    }
    while i < 4
        invariant
            i <= 4,
            order@ == verdict_order(),
            pred == (|v: Verdict|
                (wanted is None || wanted == Some(v)) && with_verdict(fs@, v, fs@.len() as int).len() > 0),
            ls@.len() == verdict_order().take(i as int).filter(pred).len(),
            forall|k: int|
                0 <= k < ls@.len() ==> section_for(#[trigger] ls@[k], fs@, verdict_order().take(i as int).filter(pred)[k], top),
        decreases 4 - i,
    {
        let v = order[i];
        let admitted = match wanted {
            Some(w) => w == v,
            None => true,
        };
        let ghost before = verdict_order().take(i as int).filter(pred);
        proof {
            assert(verdict_order().take(i + 1) =~= verdict_order().take(i as int).push(v));
            verdict_order().take(i as int).lemma_filter_push(v, pred);
        }
        if admitted {
            let idx = positions_with(fs, v);
            if idx.len() > 0 {
                let s = section(fs, v, idx, top);
                ls.push(s);
            }
        }
        proof {
            assert forall|k: int|
                0 <= k < ls@.len() implies section_for(#[trigger] ls@[k], fs@, verdict_order().take(i + 1).filter(pred)[k], top) by {
                if k < before.len() {
                    assert(verdict_order().take(i + 1).filter(pred)[k] == before[k]);
                }
            }
        }
        i = i + 1;
    }
    proof {
        assert(verdict_order().take(4) =~= verdict_order());
    }
    ls
}

// ---------------------------------------------------------------------------
// Summary lines

/// "1 file", "2 files": a count and its noun, plural unless it is one.
pub open spec fn spec_count_of(n: nat, noun: Seq<char>) -> Seq<char> {
    decimal(n) + " "@ + noun + if n == 1 {
        ""@
    } else {
        "s"@
    }
}

/// A count and its noun, plural unless the count is one.
pub fn count_of(n: u64, noun: &str) -> (s: String)
    ensures
        s@ == spec_count_of(n as nat, noun@),
{
    let mut s = String::new();
    write_decimal(&mut s, n);
    s.append(" ");
    s.append(noun);
    if n != 1 {
        s.append("s");
    }
    proof {
        reveal_strlit("");
    }
    assert(s@ =~= spec_count_of(n as nat, noun@));
    s
}

/// How many of `len` items a cap of `top` shows: all when `top` is 0.
pub fn shown(top: usize, len: usize) -> (n: usize)
    ensures
        n == shown_count(top, len as nat),
{
    if top == 0 || top >= len {
        len
    } else {
        top
    }
}

/// The bytes the duplicate sets waste, added up and capped at `u64::MAX`.
pub open spec fn spec_total_wasted(sets: Seq<crate::dedup::DuplicateSet>) -> int
    decreases sets.len(),
{
    if sets.len() == 0 {
        0
    } else {
        spec_total_wasted(sets.drop_last()) + sets.last().wasted
    }
}

pub fn total_wasted(sets: &Vec<crate::dedup::DuplicateSet>) -> (t: u64)
    ensures
        t == capped_u64(spec_total_wasted(sets@)),
{
    let mut t: u64 = 0;
    let mut k: usize = 0;
    while k < sets.len()
        invariant
            k <= sets@.len(),
            t == capped_u64(spec_total_wasted(sets@.take(k as int))),
            spec_total_wasted(sets@.take(k as int)) >= 0,
        decreases sets@.len() - k,
    {
        proof {
            assert(sets@.take(k + 1).drop_last() =~= sets@.take(k as int));
        }
        t = t.saturating_add(sets[k].wasted);
        k = k + 1;
    }
    proof {
        assert(sets@.take(sets@.len() as int) =~= sets@);
    }
    t
}

/// Whole bytes are shown below 1000, and no other unit but the last is
/// ever shown with four digits before the point: a value that would round
/// to "1000.0" moves to the next unit.
pub proof fn lemma_no_four_digit_mantissa(n: nat)
    ensures
        unit_from(n, 0) == 0 ==> n < 1000,
        1 <= unit_from(n, 0) < 4 ==> tenths(n, unit_from(n, 0)) < 10000,
{
    lemma_unit_from_bound(n, 0);
    lemma_pow1000_values();
    let k = unit_from(n, 0);
    if 1 <= k < 4 {
        let d = pow1000(k);
        assert(d >= 1000);
        assert(n * 20 < 19999 * d);
        let q = (n * 10) / d;
        let r = (n * 10) % d;
        assert(n * 10 == q * d + r && 0 <= r < d) by (nonlinear_arith)
            requires
                d > 0,
                q == (n * 10) / d,
                r == (n * 10) % d,
        ;
        assert(q <= 9999 && (q == 9999 ==> r * 2 < d)) by (nonlinear_arith)
            requires
                n * 10 == q * d + r,
                0 <= r < d,
                n * 20 < 19999 * d,
                d >= 1000,
        ;
    }
}

} // verus!
