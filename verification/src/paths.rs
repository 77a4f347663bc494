//! Paths as character sequences, and a hashed table of paths.
//!
//! Paths here are the `/`-separated strings the walker reports, with no
//! trailing separator. `parent`, `file_name` and the ancestor chain follow
//! `std::path::Path` on such paths: the parent of `/a/b` is `/a`, of `/a`
//! is `/`, of a bare `a` is the empty path, and `/` and the empty path have
//! none.
use vstd::prelude::*;
use vstd::std_specs::hash::group_hash_axioms;
use std::collections::HashMap;

verus! {

broadcast use group_hash_axioms;

/// Index of the last `/` in `p`, or -1 if there is none.
pub open spec fn last_sep(p: Seq<char>) -> int
    decreases p.len(),
{
    if p.len() == 0 {
        -1
    } else if p.last() == '/' {
        p.len() - 1
    } else {
        last_sep(p.drop_last())
    }
}

/// The directory holding `p`, as `Path::parent` gives it.
pub open spec fn parent(p: Seq<char>) -> Option<Seq<char>> {
    if p.len() == 0 || p == seq!['/'] {
        None
    } else if last_sep(p) < 0 {
        Some(Seq::empty())
    } else if last_sep(p) == 0 {
        Some(seq!['/'])
    } else {
        Some(p.take(last_sep(p)))
    }
}

/// The last component of `p`, as `Path::file_name` gives it.
pub open spec fn file_name(p: Seq<char>) -> Option<Seq<char>> {
    if p.len() == 0 || p == seq!['/'] {
        None
    } else {
        Some(p.skip(last_sep(p) + 1))
    }
}

/// `p` followed by `/` and `name` (`Path::join` of a single component).
pub open spec fn join(p: Seq<char>, name: Seq<char>) -> Seq<char> {
    if p.len() > 0 && p.last() == '/' {
        p + name
    } else {
        p + seq!['/'] + name
    }
}

pub proof fn lemma_last_sep_bounds(p: Seq<char>)
    ensures
        -1 <= last_sep(p) < p.len(),
        last_sep(p) >= 0 ==> p[last_sep(p)] == '/',
        forall|j: int| last_sep(p) < j < p.len() ==> p[j] != '/',
    decreases p.len(),
{
    if p.len() > 0 && p.last() != '/' {
        let q = p.drop_last();
        lemma_last_sep_bounds(q);
        assert forall|j: int| last_sep(p) < j < p.len() implies p[j] != '/' by {
            if j < p.len() - 1 {
                assert(p[j] == q[j]);
            }
        }
    }
}

/// `k` is the last separator position if `p[k]` is one and nothing after is.
pub proof fn lemma_last_sep_is(p: Seq<char>, k: int)
    requires
        -1 <= k < p.len(),
        k >= 0 ==> p[k] == '/',
        forall|j: int| k < j < p.len() ==> p[j] != '/',
    ensures
        last_sep(p) == k,
    decreases p.len(),
{
    if p.len() > 0 && p.last() != '/' {
        lemma_last_sep_is(p.drop_last(), k);
    }
}

/// A parent is strictly shorter than its child.
pub proof fn lemma_parent_shorter(p: Seq<char>)
    ensures
        parent(p) matches Some(q) ==> q.len() < p.len(),
{
    lemma_last_sep_bounds(p);
    if p.len() == 1 && last_sep(p) == 0 {
        assert(p =~= seq!['/']);
    }
}

/// `p`, then its parent, then that one's parent, up to the top.
pub open spec fn ancestors(p: Seq<char>) -> Seq<Seq<char>>
    decreases p.len(),
{
    match parent(p) {
        Some(q) => if q.len() < p.len() {
            seq![p] + ancestors(q)
        } else {
            seq![p]
        },
        None => seq![p],
    }
}

/// Index of the last `/` among the first `cur` characters of `p`, if any.
pub fn last_sep_before(p: &Vec<char>, cur: usize) -> (k: Option<usize>)
    requires
        cur <= p@.len(),
    ensures
        match k {
            Some(k) => k as int == last_sep(p@.take(cur as int)),
            None => last_sep(p@.take(cur as int)) == -1,
        },
{
    let mut j: usize = cur;
    while j > 0 && p[j - 1] != '/'
        invariant
            j <= cur <= p@.len(),
            forall|m: int| j <= m < cur ==> p@[m] != '/',
        decreases j,
    {
        j = j - 1;
    }
    proof {
        lemma_last_sep_is(p@.take(cur as int), j - 1);
    }
    if j == 0 {
        None
    } else {
        Some(j - 1)
    }
}

/// The length of the prefix of `p` that is the parent of its first `cur`
/// characters, if they have a parent.
pub fn parent_len(p: &Vec<char>, cur: usize) -> (r: Option<usize>)
    requires
        cur <= p@.len(),
    ensures
        match r {
            None => parent(p@.take(cur as int)) is None,
            Some(l) => l < cur && parent(p@.take(cur as int)) == Some(p@.take(l as int)),
        },
{
    let ghost t = p@.take(cur as int);
    if cur == 0 {
        return None;
    }
    if cur == 1 && p[0] == '/' {
        assert(t =~= seq!['/']);
        return None;
    }
    assert(t != seq!['/']) by {
        if t.len() == 1 {
            assert(t[0] == p@[0]);
        }
    }
    match last_sep_before(p, cur) {
        None => {
            assert(p@.take(0) =~= Seq::<char>::empty());
            Some(0)
        },
        Some(k) => {
            proof {
                lemma_last_sep_bounds(t);
            }
            if k == 0 {
                assert(p@.take(1) =~= seq!['/']);
                Some(1)
            } else {
                assert(t.take(k as int) =~= p@.take(k as int));
                Some(k)
            }
        },
    }
}

/// One step of the path fingerprint.
pub open spec fn fp_step(h: u64, c: char) -> u64 {
    h.wrapping_mul(31).wrapping_add(c as u32 as u64)
}

/// A fingerprint of a path, used only to find candidates quickly; equality
/// is always decided on the characters.
pub open spec fn fingerprint(s: Seq<char>) -> u64
    decreases s.len(),
{
    if s.len() == 0 {
        7
    } else {
        fp_step(fingerprint(s.drop_last()), s.last())
    }
}

pub proof fn lemma_fingerprint_take(s: Seq<char>, i: int)
    requires
        0 <= i < s.len(),
    ensures
        fingerprint(s.take(i + 1)) == fp_step(fingerprint(s.take(i)), s[i]),
{
    assert(s.take(i + 1).drop_last() =~= s.take(i));
}

/// `fps[i]` is the fingerprint of the first `i` characters of `p`.
pub fn prefix_fingerprints(p: &Vec<char>) -> (fps: Vec<u64>)
    ensures
        fps@.len() == p@.len() + 1,
        forall|i: int| 0 <= i <= p@.len() ==> #[trigger] fps@[i] == fingerprint(p@.take(i)),
{
    let mut fps: Vec<u64> = Vec::new();
    fps.push(7);
    proof {
        assert(p@.take(0) =~= Seq::<char>::empty());
    }
    let mut i: usize = 0;
    while i < p.len()
        invariant
            i <= p@.len(),
            fps@.len() == i + 1,
            forall|j: int| 0 <= j <= i ==> #[trigger] fps@[j] == fingerprint(p@.take(j)),
        decreases p@.len() - i,
    {
        let c = p[i];
        let h = fps[i].wrapping_mul(31).wrapping_add(c as u32 as u64);
        proof {
            lemma_fingerprint_take(p@, i as int);
        }
        fps.push(h);
        i = i + 1;
    }
    fps
}

/// Whether the first `len` characters of `p` spell `key`.
pub fn prefix_equals(p: &Vec<char>, len: usize, key: &Vec<char>) -> (r: bool)
    requires
        len <= p@.len(),
    ensures
        r == (p@.take(len as int) == key@),
{
    if key.len() != len {
        proof {
            assert(p@.take(len as int).len() != key@.len());
        }
        return false;
    }
    let mut i: usize = 0;
    while i < len
        invariant
            len <= p@.len(),
            key@.len() == len,
            i <= len,
            forall|j: int| 0 <= j < i ==> p@[j] == key@[j],
        decreases len - i,
    {
        if p[i] != key[i] {
            proof {
                assert(p@.take(len as int)[i as int] != key@[i as int]);
            }
            return false;
        }
        i = i + 1;
    }
    proof {
        assert(p@.take(len as int) =~= key@);
    }
    true
}

/// The first `len` characters of `p`.
pub fn prefix(p: &Vec<char>, len: usize) -> (v: Vec<char>)
    requires
        len <= p@.len(),
    ensures
        v@ == p@.take(len as int),
{
    let mut v: Vec<char> = Vec::new();
    let mut i: usize = 0;
    while i < len
        invariant
            i <= len <= p@.len(),
            v@ == p@.take(i as int),
        decreases len - i,
    {
        v.push(p[i]);
        proof {
            assert(p@.take(i + 1) =~= p@.take(i as int).push(p@[i as int]));
        }
        i = i + 1;
    }
    v
}

/// `root` joined with the single component `name`.
pub fn join_chars(root: &Vec<char>, name: &Vec<char>) -> (v: Vec<char>)
    ensures
        v@ == join(root@, name@),
{
    let mut v: Vec<char> = prefix(root, root.len());
    proof {
        assert(root@.take(root@.len() as int) =~= root@);
    }
    if !(root.len() > 0 && root[root.len() - 1] == '/') {
        v.push('/');
    }
    let ghost base = v@;
    let mut i: usize = 0;
    while i < name.len()
        invariant
            i <= name@.len(),
            v@ == base + name@.take(i as int),
        decreases name@.len() - i,
    {
        v.push(name[i]);
        proof {
            assert(name@.take(i + 1) =~= name@.take(i as int).push(name@[i as int]));
        }
        i = i + 1;
    }
    proof {
        assert(name@.take(name@.len() as int) =~= name@);
    }
    v
}

/// Whether `p[start..end]` spells `key`.
pub fn subrange_equals(p: &Vec<char>, start: usize, end: usize, key: &Vec<char>) -> (r: bool)
    requires
        start <= end <= p@.len(),
    ensures
        r == (p@.subrange(start as int, end as int) == key@),
{
    if end - start != key.len() {
        proof {
            assert(p@.subrange(start as int, end as int).len() != key@.len());
        }
        return false;
    }
    let mut i: usize = 0;
    while i < key.len()
        invariant
            start <= end <= p@.len(),
            end - start == key@.len(),
            i <= key@.len(),
            forall|j: int| 0 <= j < i ==> p@[start + j] == key@[j],
        decreases key@.len() - i,
    {
        if p[start + i] != key[i] {
            proof {
                assert(p@.subrange(start as int, end as int)[i as int] != key@[i as int]);
            }
            return false;
        }
        i = i + 1;
    }
    proof {
        assert(p@.subrange(start as int, end as int) =~= key@);
    }
    true
}

/// Marks the end of a fingerprint chain.
pub const NO_ENTRY: usize = usize::MAX;

/// A set of distinct paths, each with a stable index (its insertion
/// order), found by fingerprint in expected constant time.
pub struct PathTable {
    keys: Vec<Vec<char>>,
    /// Fingerprint → the highest index with that fingerprint.
    heads: HashMap<u64, usize>,
    /// Index → the next lower index with the same fingerprint, or `NO_ENTRY`.
    chain: Vec<usize>,
}

impl PathTable {
    /// The paths, in insertion order.
    pub closed spec fn view(&self) -> Seq<Seq<char>> {
        Seq::new(self.keys@.len(), |i: int| self.keys@[i]@)
    }

    /// The table's internal consistency: distinct keys, and fingerprint
    /// chains that link every key with a given fingerprint, highest first.
    pub closed spec fn wf(&self) -> bool {
        let n = self.keys@.len();
        &&& self.chain@.len() == n
        &&& n < NO_ENTRY
        &&& forall|i: int, j: int|
            0 <= i < j < n ==> #[trigger] self.keys@[i]@ != #[trigger] self.keys@[j]@
        &&& forall|i: int|
            0 <= i < n ==> {
                let h = fingerprint(#[trigger] self.keys@[i]@);
                let c = self.chain@[i];
                &&& self.heads@.contains_key(h)
                &&& i <= self.heads@[h]
                &&& (c == NO_ENTRY || (c < i && fingerprint(self.keys@[c as int]@) == h))
                &&& forall|j: int|
                    (if c == NO_ENTRY { 0 } else { c + 1 }) <= j < i ==> fingerprint(
                        self.keys@[j]@,
                    ) != h
            }
        &&& forall|h: u64|
            #[trigger] self.heads@.contains_key(h) ==> {
                let top = self.heads@[h] as int;
                &&& 0 <= top < n
                &&& fingerprint(self.keys@[top]@) == h
                &&& forall|j: int| top < j < n ==> fingerprint(#[trigger] self.keys@[j]@) != h
            }
    }

    /// An empty table.
    pub fn new() -> (t: PathTable)
        ensures
            t.wf(),
            t.view() == Seq::<Seq<char>>::empty(),
    {
        let t = PathTable { keys: Vec::new(), heads: HashMap::new(), chain: Vec::new() };
        assert(t.view() =~= Seq::<Seq<char>>::empty());
        t
    }

    /// No path is held twice.
    pub proof fn lemma_distinct(&self)
        requires
            self.wf(),
        ensures
            forall|i: int, j: int|
                0 <= i < self.view().len() && 0 <= j < self.view().len() && self.view()[i]
                    == self.view()[j] ==> i == j,
    {
        assert forall|i: int, j: int|
            0 <= i < self.view().len() && 0 <= j < self.view().len() && self.view()[i]
                == self.view()[j] implies i == j by {
            if i < j {
                assert(self.keys@[i]@ != self.keys@[j]@);
            } else if j < i {
                assert(self.keys@[j]@ != self.keys@[i]@);
            }
        }
    }

    /// The path at index `i`.
    pub fn key(&self, i: usize) -> (k: &Vec<char>)
        requires
            self.wf(),
            i < self.view().len(),
        ensures
            k@ == self.view()[i as int],
    {
        &self.keys[i]
    }

    /// Number of paths held.
    pub fn len(&self) -> (n: usize)
        requires
            self.wf(),
        ensures
            n == self.view().len(),
    {
        self.keys.len()
    }

    /// The index of the first `len` characters of `p`, if the table holds
    /// that path. `h` is its fingerprint.
    pub fn find_prefix(&self, p: &Vec<char>, len: usize, h: u64) -> (r: Option<usize>)
        requires
            self.wf(),
            len <= p@.len(),
            h == fingerprint(p@.take(len as int)),
        ensures
            match r {
                Some(i) => i < self.view().len() && self.view()[i as int] == p@.take(len as int),
                None => forall|i: int|
                    0 <= i < self.view().len() ==> self.view()[i] != p@.take(len as int),
            },
    {
        let target: Ghost<Seq<char>> = Ghost(p@.take(len as int));
        let n = self.keys.len();
        let mut cur: usize = match self.heads.get(&h) {
            Some(top) => *top,
            None => {
                proof {
                    assert forall|i: int| 0 <= i < self.view().len() implies self.view()[i]
                        != target@ by {
                        if self.view()[i] == target@ {
                            assert(fingerprint(self.keys@[i]@) == h);
                        }
                    }
                }
                return None;
            },
        };
        // Every index above `cur` with fingerprint `h` has been ruled out.
        loop
            invariant
                self.wf(),
                n == self.keys@.len(),
                len <= p@.len(),
                target@ == p@.take(len as int),
                h == fingerprint(target@),
                cur == NO_ENTRY || (cur < n && fingerprint(self.keys@[cur as int]@) == h),
                forall|j: int|
                    (if cur == NO_ENTRY { 0 } else { cur + 1 }) <= j < n ==> (fingerprint(
                        #[trigger] self.keys@[j]@,
                    ) != h || self.keys@[j]@ != target@),
            decreases (if cur == NO_ENTRY { 0 } else { cur + 1 }),
        {
            if cur == NO_ENTRY {
                proof {
                    assert forall|i: int| 0 <= i < self.view().len() implies self.view()[i]
                        != target@ by {
                        if self.view()[i] == target@ {
                            assert(fingerprint(self.keys@[i]@) == h);
                        }
                    }
                }
                return None;
            }
            if prefix_equals(p, len, &self.keys[cur]) {
                return Some(cur);
            }
            let next = self.chain[cur];
            proof {
                assert(fingerprint(self.keys@[cur as int]@) == h);
            }
            cur = next;
        }
    }

    /// The index of `key`, if the table holds it.
    pub fn find(&self, key: &Vec<char>) -> (r: Option<usize>)
        requires
            self.wf(),
        ensures
            match r {
                Some(i) => i < self.view().len() && self.view()[i as int] == key@,
                None => forall|i: int| 0 <= i < self.view().len() ==> self.view()[i] != key@,
            },
    {
        let fps = prefix_fingerprints(key);
        proof {
            assert(key@.take(key@.len() as int) =~= key@);
        }
        self.find_prefix(key, key.len(), fps[key.len()])
    }

    /// Adds `key` unless it is already present. Returns its index and
    /// whether it was added.
    pub fn insert(&mut self, key: Vec<char>) -> (r: (usize, bool))
        requires
            old(self).wf(),
            old(self).view().len() < NO_ENTRY - 1,
        ensures
            final(self).wf(),
            r.0 < final(self).view().len(),
            final(self).view()[r.0 as int] == key@,
            r.1 ==> final(self).view() == old(self).view().push(key@),
            !r.1 ==> final(self).view() == old(self).view(),
            r.1 == (forall|i: int|
                0 <= i < old(self).view().len() ==> old(self).view()[i] != key@),
    {
        let fps = prefix_fingerprints(&key);
        let h = fps[key.len()];
        proof {
            assert(key@.take(key@.len() as int) =~= key@);
        }
        match self.find_prefix(&key, key.len(), h) {
            Some(i) => (i, false),
            None => {
                let i = self.keys.len();
                let below: usize = match self.heads.get(&h) {
                    Some(top) => *top,
                    None => NO_ENTRY,
                };
                let ghost old_self = *self;
                let ghost kv = key@;
                self.keys.push(key);
                self.chain.push(below);
                self.heads.insert(h, i);
                proof {
                    let n = self.keys@.len();
                    assert(self.keys@[i as int]@ == kv);
                    assert forall|a: int| 0 <= a < i implies self.keys@[a] == old_self.keys@[a] by {}
                    assert forall|a: int, b: int|
                        0 <= a < b < n implies #[trigger] self.keys@[a]@
                        != #[trigger] self.keys@[b]@ by {
                        if b == i {
                            assert(old_self.view()[a] == old_self.keys@[a]@);
                        }
                    }
                    assert forall|a: int| 0 <= a < n implies {
                        let ha = fingerprint(#[trigger] self.keys@[a]@);
                        let c = self.chain@[a];
                        &&& self.heads@.contains_key(ha)
                        &&& a <= self.heads@[ha]
                        &&& (c == NO_ENTRY || (c < a && fingerprint(self.keys@[c as int]@) == ha))
                        &&& forall|j: int|
                            (if c == NO_ENTRY { 0 } else { c + 1 }) <= j < a ==> fingerprint(
                                self.keys@[j]@,
                            ) != ha
                    } by {
                        if a < i {
                            let ha = fingerprint(self.keys@[a]@);
                            assert(old_self.heads@.contains_key(ha));
                        }
                    }
                    assert forall|hh: u64| #[trigger] self.heads@.contains_key(hh) implies {
                        let top = self.heads@[hh] as int;
                        &&& 0 <= top < n
                        &&& fingerprint(self.keys@[top]@) == hh
                        &&& forall|j: int|
                            top < j < n ==> fingerprint(#[trigger] self.keys@[j]@) != hh
                    } by {
                        if hh != h {
                            assert(old_self.heads@.contains_key(hh));
                        }
                    }
                    assert(self.view() =~= old_self.view().push(kv));
                }
                (i, true)
            },
        }
    }
}

} // verus!
