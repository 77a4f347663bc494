//! The references the graph finds do not depend on the order the walk
//! delivers the entries in.
use vstd::prelude::*;
use crate::graph::{
    add_root, enclosing_store, has_root, linked, links_into, links_upto, marked_root, nearest_linked, project_roots,
    references_to, seen_stores, shared_store, spec_links, targets, ImpactGraph, ProjectKind,
};
use crate::paths::parent;

verus! {

/// The references project root `r` makes, given all the roots and the
/// stores seen.
pub open spec fn root_links(
    r: (Seq<char>, ProjectKind),
    roots: Seq<(Seq<char>, ProjectKind)>,
    seen: Set<Seq<char>>,
) -> Seq<(Seq<char>, Seq<char>)> {
    targets(r, roots, seen).map_values(|t: Seq<char>| (r.0, t))
}

/// The references of the roots in `list`, in order.
pub open spec fn links_of(
    list: Seq<(Seq<char>, ProjectKind)>,
    roots: Seq<(Seq<char>, ProjectKind)>,
    seen: Set<Seq<char>>,
) -> Seq<(Seq<char>, Seq<char>)>
    decreases list.len(),
{
    if list.len() == 0 {
        seq![]
    } else {
        links_of(list.drop_last(), roots, seen) + root_links(list.last(), roots, seen)
    }
}

proof fn lemma_links_upto_is_links_of(roots: Seq<(Seq<char>, ProjectKind)>, seen: Set<Seq<char>>, n: int)
    requires
        0 <= n <= roots.len(),
    ensures
        links_upto(roots, seen, n) == links_of(roots.take(n), roots, seen),
    decreases n,
{
    if n > 0 {
        lemma_links_upto_is_links_of(roots, seen, n - 1);
        assert(roots.take(n).drop_last() =~= roots.take(n - 1));
        assert(roots.take(n).last() == roots[n - 1]);
    } else {
        assert(roots.take(0) =~= Seq::<(Seq<char>, ProjectKind)>::empty());
    }
}

proof fn lemma_shared_same_roots(
    q: Seq<char>,
    kind: ProjectKind,
    r1: Seq<(Seq<char>, ProjectKind)>,
    r2: Seq<(Seq<char>, ProjectKind)>,
    seen: Set<Seq<char>>,
)
    requires
        forall|x: (Seq<char>, ProjectKind)| r1.contains(x) <==> r2.contains(x),
    ensures
        shared_store(q, kind, r1, seen) == shared_store(q, kind, r2, seen),
    decreases q.len(),
{
    match parent(q) {
        Some(a) => if a.len() < q.len() {
            lemma_shared_same_roots(a, kind, r1, r2, seen);
            assert(has_root(r1, a, kind) == has_root(r2, a, kind));
        },
        None => {},
    }
}

proof fn lemma_links_of_same_roots(
    list: Seq<(Seq<char>, ProjectKind)>,
    r1: Seq<(Seq<char>, ProjectKind)>,
    r2: Seq<(Seq<char>, ProjectKind)>,
    seen: Set<Seq<char>>,
)
    requires
        forall|x: (Seq<char>, ProjectKind)| r1.contains(x) <==> r2.contains(x),
    ensures
        links_of(list, r1, seen) == links_of(list, r2, seen),
    decreases list.len(),
{
    if list.len() > 0 {
        lemma_links_of_same_roots(list.drop_last(), r1, r2, seen);
        lemma_shared_same_roots(list.last().0, list.last().1, r1, r2, seen);
        assert(targets(list.last(), r1, seen) == targets(list.last(), r2, seen));
    }
}

proof fn lemma_links_into_concat(a: Seq<(Seq<char>, Seq<char>)>, b: Seq<(Seq<char>, Seq<char>)>, key: Seq<char>)
    ensures
        links_into(a + b, key) == links_into(a, key) + links_into(b, key),
    decreases b.len(),
{
    if b.len() == 0 {
        assert(a + b =~= a);
    } else {
        lemma_links_into_concat(a, b.drop_last(), key);
        assert((a + b).drop_last() =~= a + b.drop_last());
        assert((a + b).last() == b.last());
    }
}

proof fn lemma_linked_concat(a: Seq<(Seq<char>, Seq<char>)>, b: Seq<(Seq<char>, Seq<char>)>, k: Seq<char>)
    ensures
        linked(a + b, k) <==> (linked(a, k) || linked(b, k)),
{
    let c = a + b;
    if linked(c, k) {
        let e = choose|e: int| 0 <= e < c.len() && (#[trigger] c[e].0 == k || c[e].1 == k);
        if e < a.len() {
            assert(c[e] == a[e]);
        } else {
            assert(c[e] == b[e - a.len()]);
        }
    }
    if linked(a, k) {
        let e = choose|e: int| 0 <= e < a.len() && (#[trigger] a[e].0 == k || a[e].1 == k);
        assert(c[e] == a[e]);
    }
    if linked(b, k) {
        let e = choose|e: int| 0 <= e < b.len() && (#[trigger] b[e].0 == k || b[e].1 == k);
        assert(c[a.len() + e] == b[e]);
    }
}

proof fn lemma_into_remove(
    list: Seq<(Seq<char>, ProjectKind)>,
    roots: Seq<(Seq<char>, ProjectKind)>,
    seen: Set<Seq<char>>,
    key: Seq<char>,
    j: int,
)
    requires
        0 <= j < list.len(),
    ensures
        links_into(links_of(list, roots, seen), key) == links_into(links_of(list.remove(j), roots, seen), key)
            + links_into(root_links(list[j], roots, seen), key),
    decreases list.len(),
{
    let dl = list.drop_last();
    lemma_links_into_concat(links_of(dl, roots, seen), root_links(list.last(), roots, seen), key);
    if j == list.len() - 1 {
        assert(list.remove(j) =~= dl);
    } else {
        lemma_into_remove(dl, roots, seen, key, j);
        let rm = list.remove(j);
        assert(rm.drop_last() =~= dl.remove(j));
        assert(rm.last() == list.last());
        assert(dl[j] == list[j]);
        lemma_links_into_concat(links_of(dl.remove(j), roots, seen), root_links(list.last(), roots, seen), key);
    }
}

proof fn lemma_into_permutation(
    l1: Seq<(Seq<char>, ProjectKind)>,
    l2: Seq<(Seq<char>, ProjectKind)>,
    roots: Seq<(Seq<char>, ProjectKind)>,
    seen: Set<Seq<char>>,
    key: Seq<char>,
)
    requires
        l1.to_multiset() == l2.to_multiset(),
    ensures
        links_into(links_of(l1, roots, seen), key) == links_into(links_of(l2, roots, seen), key),
    decreases l1.len(),
{
    broadcast use {vstd::seq_lib::group_to_multiset_ensures, vstd::multiset::group_multiset_axioms};

    assert(l1.len() == l1.to_multiset().len());
    assert(l2.len() == l2.to_multiset().len());
    if l1.len() == 0 {
        assert(l2.len() == 0);
        assert(l2 =~= l1);
    } else {
        let a = l1.last();
        let dl = l1.drop_last();
        assert(dl.push(a) =~= l1);
        assert(l1[l1.len() - 1] == a);
        assert(l1.contains(a));
        assert(l1.to_multiset().count(a) > 0);
        assert(l2.to_multiset().count(a) > 0);
        assert(l2.contains(a));
        let j = choose|j: int| 0 <= j < l2.len() && l2[j] == a;
        let rm = l2.remove(j);
        assert(rm.to_multiset() =~= l2.to_multiset().remove(a));
        assert(dl.to_multiset() =~= l1.to_multiset().remove(a));
        lemma_into_permutation(dl, rm, roots, seen, key);
        lemma_into_remove(l2, roots, seen, key, j);
        lemma_links_into_concat(links_of(dl, roots, seen), root_links(a, roots, seen), key);
    }
}

proof fn lemma_linked_links_of(
    list: Seq<(Seq<char>, ProjectKind)>,
    roots: Seq<(Seq<char>, ProjectKind)>,
    seen: Set<Seq<char>>,
    k: Seq<char>,
)
    ensures
        linked(links_of(list, roots, seen), k) <==> exists|i: int|
            0 <= i < list.len() && linked(root_links(#[trigger] list[i], roots, seen), k),
    decreases list.len(),
{
    if list.len() > 0 {
        let dl = list.drop_last();
        lemma_linked_links_of(dl, roots, seen, k);
        lemma_linked_concat(links_of(dl, roots, seen), root_links(list.last(), roots, seen), k);
        if exists|i: int| 0 <= i < dl.len() && linked(root_links(#[trigger] dl[i], roots, seen), k) {
            let i = choose|i: int| 0 <= i < dl.len() && linked(root_links(#[trigger] dl[i], roots, seen), k);
            assert(list[i] == dl[i]);
        }
        if exists|i: int| 0 <= i < list.len() && linked(root_links(#[trigger] list[i], roots, seen), k) {
            let i = choose|i: int| 0 <= i < list.len() && linked(root_links(#[trigger] list[i], roots, seen), k);
            if i < dl.len() {
                assert(list[i] == dl[i]);
            }
        }
    }
}

proof fn lemma_nearest_linked_agree(l1: Seq<(Seq<char>, Seq<char>)>, l2: Seq<(Seq<char>, Seq<char>)>, p: Seq<char>)
    requires
        forall|k: Seq<char>| linked(l1, k) <==> linked(l2, k),
    ensures
        nearest_linked(l1, p) == nearest_linked(l2, p),
    decreases p.len(),
{
    if !linked(l1, p) {
        match parent(p) {
            Some(q) => if q.len() < p.len() {
                lemma_nearest_linked_agree(l1, l2, q);
            },
            None => {},
        }
    }
}

proof fn lemma_add_root_elements(rb: Seq<(Seq<char>, ProjectKind)>, d: Seq<char>, k: ProjectKind)
    ensures
        forall|x: (Seq<char>, ProjectKind)| add_root(rb, d, k).contains(x) <==> (rb.contains(x) || x == (d, k)),
        rb.no_duplicates() ==> add_root(rb, d, k).no_duplicates(),
{
    let r = add_root(rb, d, k);
    if !rb.contains((d, k)) {
        assert forall|x: (Seq<char>, ProjectKind)| r.contains(x) <==> (rb.contains(x) || x == (d, k)) by {
            if r.contains(x) {
                let j = choose|j: int| 0 <= j < r.len() && r[j] == x;
                if j < rb.len() {
                    assert(rb[j] == r[j]);
                }
            }
            if rb.contains(x) {
                let j = choose|j: int| 0 <= j < rb.len() && rb[j] == x;
                assert(r[j] == rb[j]);
            }
            if x == (d, k) {
                assert(r[rb.len() as int] == x);
            }
        }
        if rb.no_duplicates() {
            assert forall|a: int, b: int| 0 <= a < r.len() && 0 <= b < r.len() && a != b implies r[a] != r[b] by {
                if a < rb.len() && b < rb.len() {
                    assert(r[a] == rb[a] && r[b] == rb[b]);
                } else if a < rb.len() {
                    assert(r[a] == rb[a]);
                    assert(rb.contains(rb[a]));
                } else if b < rb.len() {
                    assert(r[b] == rb[b]);
                    assert(rb.contains(rb[b]));
                }
            }
        }
    }
}

/// The roots the paths mark, when `mark` says what each path marks —
/// [`project_roots`] with the marking left open.
pub open spec fn roots_by(
    mark: spec_fn(Seq<char>) -> Option<(Seq<char>, ProjectKind)>,
    paths: Seq<Seq<char>>,
) -> Seq<(Seq<char>, ProjectKind)>
    decreases paths.len(),
{
    if paths.len() == 0 {
        seq![]
    } else {
        let before = roots_by(mark, paths.drop_last());
        match mark(paths.last()) {
            Some((d, k)) => add_root(before, d, k),
            None => before,
        }
    }
}

pub(crate) proof fn lemma_roots_by_marked(paths: Seq<Seq<char>>)
    ensures
        project_roots(paths) == roots_by(|p: Seq<char>| marked_root(p), paths),
    decreases paths.len(),
{
    if paths.len() > 0 {
        lemma_roots_by_marked(paths.drop_last());
    }
}

/// The roots `mark` finds: each (directory, kind) once, and exactly those
/// some path marks.
pub(crate) proof fn lemma_roots_by_elements(mark: spec_fn(Seq<char>) -> Option<(Seq<char>, ProjectKind)>, paths: Seq<Seq<char>>)
    ensures
        roots_by(mark, paths).no_duplicates(),
        forall|x: (Seq<char>, ProjectKind)|
            roots_by(mark, paths).contains(x) <==> exists|i: int| 0 <= i < paths.len() && mark(#[trigger] paths[i]) == Some(x),
    decreases paths.len(),
{
    if paths.len() > 0 {
        let before = paths.drop_last();
        lemma_roots_by_elements(mark, before);
        let rb = roots_by(mark, before);
        let r = roots_by(mark, paths);
        match mark(paths.last()) {
            Some((d, k)) => {
                lemma_add_root_elements(rb, d, k);
            },
            None => {},
        }
        assert forall|x: (Seq<char>, ProjectKind)| r.contains(x) <==> exists|i: int|
            0 <= i < paths.len() && mark(#[trigger] paths[i]) == Some(x) by {
            assert(r.contains(x) <==> (rb.contains(x) || mark(paths.last()) == Some(x)));
            if exists|i: int| 0 <= i < paths.len() && mark(#[trigger] paths[i]) == Some(x) {
                let i = choose|i: int| 0 <= i < paths.len() && mark(#[trigger] paths[i]) == Some(x);
                if i < before.len() {
                    assert(before[i] == paths[i]);
                }
            }
            if rb.contains(x) {
                let i = choose|i: int| 0 <= i < before.len() && mark(#[trigger] before[i]) == Some(x);
                assert(paths[i] == before[i]);
            }
            if mark(paths.last()) == Some(x) {
                assert(paths[paths.len() - 1] == paths.last());
            }
        }
    }
}

proof fn lemma_no_dup_same_multiset(a: Seq<(Seq<char>, ProjectKind)>, b: Seq<(Seq<char>, ProjectKind)>)
    requires
        a.no_duplicates(),
        b.no_duplicates(),
        forall|x: (Seq<char>, ProjectKind)| a.contains(x) <==> b.contains(x),
    ensures
        a.to_multiset() == b.to_multiset(),
{
    broadcast use {vstd::seq_lib::group_to_multiset_ensures, vstd::multiset::group_multiset_axioms};

    a.lemma_multiset_has_no_duplicates();
    b.lemma_multiset_has_no_duplicates();
    assert forall|x: (Seq<char>, ProjectKind)| a.to_multiset().count(x) == b.to_multiset().count(x) by {
        if a.contains(x) {
            assert(a.to_multiset().contains(x));
            assert(b.to_multiset().contains(x));
        }
    }
    assert(a.to_multiset() =~= b.to_multiset());
}

/// Paths in another order mark the same roots.
proof fn lemma_same_roots(
    mark: spec_fn(Seq<char>) -> Option<(Seq<char>, ProjectKind)>,
    ps: Seq<Seq<char>>,
    qs: Seq<Seq<char>>,
)
    requires
        ps.to_multiset() == qs.to_multiset(),
    ensures
        forall|x: (Seq<char>, ProjectKind)| roots_by(mark, ps).contains(x) <==> roots_by(mark, qs).contains(x),
{
    broadcast use vstd::seq_lib::group_to_multiset_ensures;

    lemma_roots_by_elements(mark, ps);
    lemma_roots_by_elements(mark, qs);
    assert forall|x: (Seq<char>, ProjectKind)| roots_by(mark, ps).contains(x) <==> roots_by(mark, qs).contains(x) by {
        if roots_by(mark, ps).contains(x) {
            let i = choose|i: int| 0 <= i < ps.len() && mark(#[trigger] ps[i]) == Some(x);
            assert(ps.contains(ps[i]));
            assert(ps.to_multiset().count(ps[i]) > 0);
            assert(qs.contains(ps[i]));
            let j = choose|j: int| 0 <= j < qs.len() && qs[j] == ps[i];
            assert(mark(qs[j]) == Some(x));
        }
        if roots_by(mark, qs).contains(x) {
            let j = choose|j: int| 0 <= j < qs.len() && mark(#[trigger] qs[j]) == Some(x);
            assert(qs.contains(qs[j]));
            assert(qs.to_multiset().count(qs[j]) > 0);
            assert(ps.contains(qs[j]));
            let i = choose|i: int| 0 <= i < ps.len() && ps[i] == qs[j];
            assert(mark(ps[i]) == Some(x));
        }
    }
}

/// Paths in another order sit inside the same stores.
proof fn lemma_same_seen(ps: Seq<Seq<char>>, qs: Seq<Seq<char>>)
    requires
        ps.to_multiset() == qs.to_multiset(),
    ensures
        seen_stores(ps) == seen_stores(qs),
{
    broadcast use vstd::seq_lib::group_to_multiset_ensures;

    let sp = seen_stores(ps);
    let sq = seen_stores(qs);
    assert forall|t: Seq<char>| sp.contains(t) <==> sq.contains(t) by {
        if sp.contains(t) {
            let i = choose|i: int| 0 <= i < ps.len() && enclosing_store(ps[i]) == Some(t);
            assert(ps.contains(ps[i]));
            assert(ps.to_multiset().count(ps[i]) > 0);
            assert(qs.contains(ps[i]));
            let j = choose|j: int| 0 <= j < qs.len() && qs[j] == ps[i];
            assert(enclosing_store(qs[j]) == Some(t));
        }
        if sq.contains(t) {
            let j = choose|j: int| 0 <= j < qs.len() && enclosing_store(qs[j]) == Some(t);
            assert(qs.contains(qs[j]));
            assert(qs.to_multiset().count(qs[j]) > 0);
            assert(ps.contains(qs[j]));
            let i = choose|i: int| 0 <= i < ps.len() && ps[i] == qs[j];
            assert(enclosing_store(ps[i]) == Some(t));
        }
    }
    assert(sp =~= sq);
}

/// Roots listed in another order make the same links appear.
proof fn lemma_same_linked(
    rp: Seq<(Seq<char>, ProjectKind)>,
    rq: Seq<(Seq<char>, ProjectKind)>,
    sp: Set<Seq<char>>,
)
    requires
        forall|x: (Seq<char>, ProjectKind)| rp.contains(x) <==> rq.contains(x),
    ensures
        forall|k: Seq<char>| linked(links_of(rp, rp, sp), k) <==> linked(links_of(rq, rp, sp), k),
{
    assert forall|k: Seq<char>| linked(links_of(rp, rp, sp), k) <==> linked(links_of(rq, rp, sp), k) by {
        lemma_linked_links_of(rp, rp, sp, k);
        lemma_linked_links_of(rq, rp, sp, k);
        if exists|i: int| 0 <= i < rp.len() && linked(root_links(#[trigger] rp[i], rp, sp), k) {
            let i = choose|i: int| 0 <= i < rp.len() && linked(root_links(#[trigger] rp[i], rp, sp), k);
            assert(rp.contains(rp[i]));
            let j = choose|j: int| 0 <= j < rq.len() && rq[j] == rp[i];
            assert(linked(root_links(rq[j], rp, sp), k));
        }
        if exists|j: int| 0 <= j < rq.len() && linked(root_links(#[trigger] rq[j], rp, sp), k) {
            let j = choose|j: int| 0 <= j < rq.len() && linked(root_links(#[trigger] rq[j], rp, sp), k);
            assert(rq.contains(rq[j]));
            let i = choose|i: int| 0 <= i < rp.len() && rp[i] == rq[j];
            assert(linked(root_links(rp[i], rp, sp), k));
        }
    }
}

/// Two lists of the same roots, each once, imply the same number of
/// projects referencing every path.
proof fn lemma_refs_same(rp: Seq<(Seq<char>, ProjectKind)>, rq: Seq<(Seq<char>, ProjectKind)>, sp: Set<Seq<char>>)
    requires
        rp.no_duplicates(),
        rq.no_duplicates(),
        forall|x: (Seq<char>, ProjectKind)| rp.contains(x) <==> rq.contains(x),
    ensures
        forall|p: Seq<char>|
            #[trigger] references_to(links_upto(rp, sp, rp.len() as int), p) == references_to(
                links_upto(rq, sp, rq.len() as int),
                p,
            ),
{
    lemma_links_upto_is_links_of(rp, sp, rp.len() as int);
    lemma_links_upto_is_links_of(rq, sp, rq.len() as int);
    assert(rp.take(rp.len() as int) =~= rp);
    assert(rq.take(rq.len() as int) =~= rq);
    lemma_links_of_same_roots(rq, rq, rp, sp);
    let lp = links_of(rp, rp, sp);
    let lq = links_of(rq, rp, sp);
    lemma_no_dup_same_multiset(rp, rq);
    lemma_same_linked(rp, rq, sp);
    assert forall|p: Seq<char>| #[trigger] references_to(lp, p) == references_to(lq, p) by {
        lemma_nearest_linked_agree(lp, lq, p);
        match nearest_linked(lp, p) {
            Some(k) => {
                lemma_into_permutation(rp, rq, rp, sp, k);
            },
            None => {},
        }
    }
}

/// The order the walk delivers entries in changes nothing: the paths in
/// any other order imply the same references — the same project roots,
/// and for every path the same number of projects referencing it.
pub proof fn lemma_links_ignore_order(ps: Seq<Seq<char>>, qs: Seq<Seq<char>>)
    requires
        ps.to_multiset() == qs.to_multiset(),
    ensures
        forall|x: (Seq<char>, ProjectKind)| project_roots(ps).contains(x) <==> project_roots(qs).contains(x),
        forall|p: Seq<char>| #[trigger] references_to(spec_links(ps), p) == references_to(spec_links(qs), p),
{
    let mark = |p: Seq<char>| marked_root(p);
    lemma_roots_by_marked(ps);
    lemma_roots_by_marked(qs);
    lemma_same_roots(mark, ps, qs);
    lemma_roots_by_elements(mark, ps);
    lemma_roots_by_elements(mark, qs);
    lemma_same_seen(ps, qs);
    let rp = project_roots(ps);
    let rq = project_roots(qs);
    let sp = seen_stores(ps);
    lemma_refs_same(rp, rq, sp);
    assert(spec_links(ps) == links_upto(rp, sp, rp.len() as int));
    assert(spec_links(qs) == links_upto(rq, sp, rq.len() as int));
}

/// Two graphs built from the same entries in different orders — as
/// [`ImpactGraph::from_entries`] builds them — report the same number of
/// projects referencing every path.
pub proof fn lemma_graphs_ignore_order(g1: ImpactGraph, g2: ImpactGraph, ps: Seq<Seq<char>>, qs: Seq<Seq<char>>)
    requires
        ps.to_multiset() == qs.to_multiset(),
        g1.wf(),
        g1.sources_are_projects(),
        g1.nodes_are_linked(),
        g1.links() == spec_links(ps),
        g2.wf(),
        g2.sources_are_projects(),
        g2.nodes_are_linked(),
        g2.links() == spec_links(qs),
    ensures
        forall|p: Seq<char>| #[trigger] g1.spec_referencing(p) == g2.spec_referencing(p),
{
    lemma_links_ignore_order(ps, qs);
    assert forall|p: Seq<char>| #[trigger] g1.spec_referencing(p) == g2.spec_referencing(p) by {
        g1.lemma_referencing_from_links(p);
        g2.lemma_referencing_from_links(p);
    }
}

} // verus!
