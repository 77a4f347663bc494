//! Deterministic rules database — the safety authority.
//!
//! A rule matches path patterns and yields a Category + base Verdict. The
//! risk module may DOWNGRADE a verdict (Safe -> Review) based on evidence;
//! it may never upgrade one (Risky -> Safe). Protected is final.
//!
//! Patterns are globs, matched against the normalized path (lowercased,
//! `\` rewritten to `/`) with `*` stopping at a path separator. That
//! anchoring is the point: a plain substring test made `/tmp/` fire on
//! `/home/user/tmp/tax-return.pdf`, which is user data, not scratch space.
//!
//! Glob compilation and matching are `globset`'s, reached only through the
//! trusted items at the top of this module.
use vstd::prelude::*;
use crate::text::{chars_of, string_from};
use crate::{Category, Verdict};
use globset::{GlobBuilder, GlobSet, GlobSetBuilder};

verus! {

// ---------------------------------------------------------------------------
// globset, behind trusted items

#[verifier::external_type_specification]
#[verifier::external_body]
pub struct ExGlobSet(GlobSet);

#[verifier::external_type_specification]
#[verifier::external_body]
pub struct ExGlobSetBuilder(GlobSetBuilder);

/// Whether `GlobBuilder::new(pattern).literal_separator(true).build()`
/// succeeds.
pub uninterp spec fn glob_is_valid(pattern: Seq<char>) -> bool;

/// Whether the glob built from `pattern` with `literal_separator(true)`
/// matches `path`.
pub uninterp spec fn glob_matches(pattern: Seq<char>, path: Seq<char>) -> bool;

/// The patterns of the globs a `GlobSetBuilder` holds, in order.
pub uninterp spec fn builder_patterns(b: GlobSetBuilder) -> Seq<Seq<char>>;

/// The patterns of the globs a `GlobSet` was built from, in order.
pub uninterp spec fn set_patterns(s: GlobSet) -> Seq<Seq<char>>;

/// `GlobSetBuilder::new`: a builder holding no globs.
#[verifier::external_body]
fn new_builder() -> (b: GlobSetBuilder)
    ensures
        builder_patterns(b) == Seq::<Seq<char>>::empty(),
{
    GlobSetBuilder::new()
}

/// `GlobBuilder::new(pattern).literal_separator(true).build()`, and on
/// success `GlobSetBuilder::add` of the glob it built. Returns whether the
/// pattern was a valid glob (and so was added).
#[verifier::external_body]
fn add_pattern(b: &mut GlobSetBuilder, pattern: &str) -> (added: bool)
    ensures
        added == glob_is_valid(pattern@),
        added ==> builder_patterns(*final(b)) == builder_patterns(*old(b)).push(pattern@),
        !added ==> builder_patterns(*final(b)) == builder_patterns(*old(b)),
{
    match GlobBuilder::new(pattern).literal_separator(true).build() {
        Ok(glob) => {
            b.add(glob);
            true
        },
        Err(_) => false,
    }
}

/// Whether `GlobSetBuilder::build` succeeds on a builder holding the globs
/// built from `patterns`: it fails when the combined regexes exceed its
/// size limits, which depends on the patterns alone.
pub uninterp spec fn glob_set_builds(patterns: Seq<Seq<char>>) -> bool;

/// `GlobSetBuilder::build`. It succeeds exactly when the builder's
/// patterns can be built into one set, and then the set holds exactly the
/// builder's globs.
#[verifier::external_body]
fn build_set(b: &GlobSetBuilder) -> (r: Option<GlobSet>)
    ensures
        r is Some <==> glob_set_builds(builder_patterns(*b)),
        r matches Some(s) ==> set_patterns(s) == builder_patterns(*b),
{
    b.build().ok()
}

/// `GlobSet::empty`: a set that matches nothing.
#[verifier::external_body]
fn empty_set() -> (s: GlobSet)
    ensures
        set_patterns(s) == Seq::<Seq<char>>::empty(),
{
    GlobSet::empty()
}

/// Whether any of the globs built from `patterns` matches `path`.
pub open spec fn any_glob_matches(patterns: Seq<Seq<char>>, path: Seq<char>) -> bool {
    exists|j: int| 0 <= j < patterns.len() && glob_matches(#[trigger] patterns[j], path)
}

/// `GlobSet::is_match`: whether any glob in the set matches `path`.
#[verifier::external_body]
fn set_is_match(s: &GlobSet, path: &str) -> (r: bool)
    ensures
        r == (exists|j: int| 0 <= j < set_patterns(*s).len() && glob_matches(#[trigger] set_patterns(*s)[j], path@)),
{
    s.is_match(path)
}

/// What `str::to_lowercase` returns for `s` (Unicode lowercase mapping).
pub uninterp spec fn unicode_lowercase(s: Seq<char>) -> Seq<char>;

/// `str::to_lowercase`.
#[verifier::external_body]
fn lowercase(s: &str) -> (r: String)
    ensures
        r@ == unicode_lowercase(s@),
{
    s.to_lowercase()
}

// ---------------------------------------------------------------------------
// Rules

#[derive(Debug)]
pub struct Rule {
    pub id: String,
    /// Globs matched against the normalized path. `*` matches within one
    /// path component, `**` spans components, so `**/node_modules/**`
    /// reaches any depth while `/tmp/**` stays at the filesystem root.
    pub patterns: Vec<String>,
    pub category: Category,
    pub verdict: Verdict,
    /// Shown to the user as evidence.
    pub description: String,
}

pub open spec fn string_views(v: Seq<String>) -> Seq<Seq<char>> {
    v.map_values(|s: String| s@)
}

/// A copy of a list of strings.
pub fn copy_strings(v: &Vec<String>) -> (r: Vec<String>)
    ensures
        r@ == v@,
{
    let mut r: Vec<String> = Vec::new();
    let mut i: usize = 0;
    while i < v.len()
        invariant
            i <= v@.len(),
            r@ == v@.take(i as int),
        decreases v@.len() - i,
    {
        r.push(v[i].clone());
        proof {
            assert(v@.take(i + 1) =~= v@.take(i as int).push(v@[i as int]));
        }
        i = i + 1;
    }
    assert(v@.take(v@.len() as int) =~= v@);
    r
}

impl Rule {
    /// Same id, patterns, category, verdict and description.
    pub open spec fn same_as(&self, other: &Rule) -> bool {
        &&& self.id == other.id
        &&& self.patterns@ == other.patterns@
        &&& self.category == other.category
        &&& self.verdict == other.verdict
        &&& self.description == other.description
    }

    /// A field-for-field copy.
    pub fn duplicate(&self) -> (r: Rule)
        ensures
            r.same_as(self),
    {
        Rule {
            id: self.id.clone(),
            patterns: copy_strings(&self.patterns),
            category: self.category,
            verdict: self.verdict,
            description: self.description.clone(),
        }
    }
}

/// The patterns of a rule that are valid globs, in order.
pub open spec fn valid_patterns(ps: Seq<Seq<char>>) -> Seq<Seq<char>>
    decreases ps.len(),
{
    if ps.len() == 0 {
        seq![]
    } else if glob_is_valid(ps.last()) {
        valid_patterns(ps.drop_last()).push(ps.last())
    } else {
        valid_patterns(ps.drop_last())
    }
}

/// The test a pattern must pass to take part in a rule's matcher.
pub open spec fn is_valid_glob() -> spec_fn(Seq<char>) -> bool {
    |x: Seq<char>| glob_is_valid(x)
}

proof fn lemma_valid_patterns_filter(ps: Seq<Seq<char>>)
    ensures
        valid_patterns(ps) == ps.filter(is_valid_glob()),
    decreases ps.len(),
{
    reveal(Seq::filter);
    if ps.len() > 0 {
        lemma_valid_patterns_filter(ps.drop_last());
    }
}

/// The valid patterns are the patterns of `ps` that are valid globs: each
/// kept one is one of them, and none of them is left out.
proof fn lemma_valid_patterns_members(ps: Seq<Seq<char>>)
    ensures
        forall|j: int|
            0 <= j < valid_patterns(ps).len() ==> glob_is_valid(#[trigger] valid_patterns(ps)[j]) && ps.contains(
                valid_patterns(ps)[j],
            ),
        forall|a: int| 0 <= a < ps.len() && glob_is_valid(#[trigger] ps[a]) ==> valid_patterns(ps).contains(ps[a]),
    decreases ps.len(),
{
    if ps.len() > 0 {
        let before = ps.drop_last();
        lemma_valid_patterns_members(before);
        let vb = valid_patterns(before);
        let v = valid_patterns(ps);
        assert forall|j: int| 0 <= j < v.len() implies glob_is_valid(#[trigger] v[j]) && ps.contains(v[j]) by {
            if j < vb.len() {
                assert(v[j] == vb[j]);
                let a = choose|a: int| 0 <= a < before.len() && before[a] == vb[j];
                assert(ps[a] == before[a]);
            } else {
                assert(v[j] == ps.last());
                assert(ps[ps.len() - 1] == ps.last());
            }
        }
        assert forall|a: int| 0 <= a < ps.len() && glob_is_valid(#[trigger] ps[a]) implies v.contains(ps[a]) by {
            if a < before.len() {
                assert(before[a] == ps[a]);
                assert(vb.contains(before[a]));
                let j = choose|j: int| 0 <= j < vb.len() && vb[j] == before[a];
                assert(v[j] == vb[j]);
            } else {
                assert(v[v.len() - 1] == ps.last());
            }
        }
    }
}

/// The patterns a rule's matcher holds: its valid patterns, or none at
/// all when globset cannot build them into one set.
pub open spec fn matcher_patterns(ps: Seq<Seq<char>>) -> Seq<Seq<char>> {
    if glob_set_builds(valid_patterns(ps)) {
        valid_patterns(ps)
    } else {
        Seq::empty()
    }
}

/// Lowercase, `/`-separated: `\` becomes `/`, then Unicode lowercasing.
pub open spec fn normalized(p: Seq<char>) -> Seq<char> {
    unicode_lowercase(p.map_values(|c: char| if c == '\\' { '/' } else { c }))
}

pub struct RulesDb {
    pub version: u32,
    pub rules: Vec<Rule>,
    /// One compiled matcher per rule, in rule order.
    matchers: Vec<GlobSet>,
}

impl RulesDb {
    /// The rules, in priority order.
    pub closed spec fn rule_list(&self) -> Seq<Rule> {
        self.rules@
    }

    /// The database's version number.
    pub closed spec fn spec_version(&self) -> u32 {
        self.version
    }

    /// The patterns rule `i` was compiled from: its valid patterns, or none
    /// at all when globset cannot build them into one set.
    pub closed spec fn compiled(&self, i: int) -> Seq<Seq<char>> {
        set_patterns(self.matchers@[i])
    }

    pub closed spec fn wf(&self) -> bool {
        &&& self.matchers@.len() == self.rule_list().len()
        &&& forall|i: int|
            0 <= i < self.rule_list().len() ==> #[trigger] self.compiled(i) == matcher_patterns(
                string_views(self.rule_list()[i].patterns@),
            )
    }

    /// Whether rule `i` fires on the (already normalized) path `p`.
    pub open spec fn fires(&self, i: int, p: Seq<char>) -> bool {
        any_glob_matches(self.compiled(i), p)
    }

    /// The first rule at or after `i` that fires on `p`.
    pub open spec fn first_from(&self, p: Seq<char>, i: int) -> Option<int>
        decreases self.rule_list().len() - i,
    {
        if i < 0 || i >= self.rule_list().len() {
            None
        } else if self.fires(i, p) {
            Some(i)
        } else {
            self.first_from(p, i + 1)
        }
    }

    /// The rule that decides the path `path`: the first one that fires on
    /// its normalized form.
    pub open spec fn deciding_rule(&self, path: Seq<char>) -> Option<int> {
        self.first_from(normalized(path), 0)
    }

    /// The category and verdict the rules give `path`: the deciding rule's,
    /// or `Unknown` and `Review` when none fires.
    pub open spec fn spec_classify(&self, path: Seq<char>) -> (Category, Verdict) {
        match self.deciding_rule(path) {
            Some(i) => (self.rule_list()[i].category, self.rule_list()[i].verdict),
            None => (Category::Unknown, Verdict::Review),
        }
    }

    /// A rule whose valid patterns globset can build into one set fires on
    /// a path exactly when one of its valid patterns matches it.
    pub proof fn lemma_fires_on_valid_patterns(&self, i: int, p: Seq<char>)
        requires
            self.wf(),
            0 <= i < self.rule_list().len(),
            glob_set_builds(valid_patterns(string_views(self.rule_list()[i].patterns@))),
        ensures
            self.fires(i, p) <==> any_glob_matches(valid_patterns(string_views(self.rule_list()[i].patterns@)), p),
    {
    }

    /// The patterns rule `i` was written with.
    pub open spec fn patterns_of(&self, i: int) -> Seq<Seq<char>> {
        string_views(self.rule_list()[i].patterns@)
    }

    /// Every valid pattern of a rule counts: the rule fires on a path
    /// exactly when one of its patterns that is a valid glob matches it,
    /// provided globset can build the valid patterns, in the order they
    /// were written, into one set. When it cannot, the rule fires on
    /// nothing.
    pub proof fn lemma_rule_fires_iff_a_valid_pattern_matches(&self, i: int, p: Seq<char>)
        requires
            self.wf(),
            0 <= i < self.rule_list().len(),
        ensures
            glob_set_builds(self.patterns_of(i).filter(is_valid_glob())) ==> (self.fires(i, p) <==> exists|j: int|
                0 <= j < self.patterns_of(i).len() && glob_is_valid(self.patterns_of(i)[j]) && glob_matches(
                    #[trigger] self.patterns_of(i)[j],
                    p,
                )),
            !glob_set_builds(self.patterns_of(i).filter(is_valid_glob())) ==> !self.fires(i, p),
    {
        let ps = self.patterns_of(i);
        let vp = valid_patterns(ps);
        lemma_valid_patterns_filter(ps);
        lemma_valid_patterns_members(ps);
        assert(self.compiled(i) == matcher_patterns(ps));
        if glob_set_builds(vp) {
            if self.fires(i, p) {
                let j = choose|j: int| 0 <= j < vp.len() && glob_matches(#[trigger] vp[j], p);
                assert(glob_is_valid(vp[j]) && ps.contains(vp[j]));
                let a = choose|a: int| 0 <= a < ps.len() && ps[a] == vp[j];
                assert(glob_is_valid(ps[a]) && glob_matches(ps[a], p));
            }
            if exists|j: int| 0 <= j < ps.len() && glob_is_valid(ps[j]) && glob_matches(#[trigger] ps[j], p) {
                let a = choose|a: int| 0 <= a < ps.len() && glob_is_valid(ps[a]) && glob_matches(#[trigger] ps[a], p);
                assert(vp.contains(ps[a]));
                let j = choose|j: int| 0 <= j < vp.len() && vp[j] == ps[a];
                assert(glob_matches(vp[j], p));
            }
        } else {
            assert(self.compiled(i) =~= Seq::<Seq<char>>::empty());
        }
    }

    proof fn lemma_first_from_skip(&self, p: Seq<char>, i: int, j: int)
        requires
            0 <= i <= j,
            forall|k: int| i <= k < j ==> !self.fires(k, p),
        ensures
            self.first_from(p, i) == self.first_from(p, j),
        decreases j - i,
    {
        if i < j {
            self.lemma_first_from_skip(p, i + 1, j);
        }
    }

    /// Build a db from rules held in memory, compiling every rule's globs.
    pub fn new(version: u32, rules: Vec<Rule>) -> (db: RulesDb)
        ensures
            db.wf(),
            db.spec_version() == version,
            db.rule_list() == rules@,
    {
        let mut matchers: Vec<GlobSet> = Vec::new();
        let mut i: usize = 0;
        while i < rules.len()
            invariant
                i <= rules@.len(),
                matchers@.len() == i,
                forall|k: int|
                    0 <= k < i ==> #[trigger] set_patterns(matchers@[k]) == matcher_patterns(
                        string_views(rules@[k].patterns@),
                    ),
            decreases rules@.len() - i,
        {
            matchers.push(compile(&rules[i]));
            i = i + 1;
        }
        let db = RulesDb { version, rules, matchers };
        assert forall|k: int| 0 <= k < db.rule_list().len() implies #[trigger] db.compiled(k)
            == matcher_patterns(string_views(db.rule_list()[k].patterns@)) by {}
        db
    }

    /// First matching rule wins; order in the db is priority order.
    /// Protected rules are listed first for exactly that reason. A path no
    /// rule matches is `Unknown` and `Review` — never `Safe`.
    pub fn classify(&self, path: &str) -> (r: (Category, Verdict, Option<&Rule>))
        requires
            self.wf(),
        ensures
            match r.2 {
                Some(rule) => exists|i: int|
                    0 <= i < self.rule_list().len() && *rule == self.rule_list()[i] && self.fires(
                        i,
                        normalized(path@),
                    ) && (forall|k: int| 0 <= k < i ==> !self.fires(k, normalized(path@)))
                        && r.0 == rule.category && r.1 == rule.verdict,
                None => (forall|k: int|
                    0 <= k < self.rule_list().len() ==> !self.fires(k, normalized(path@)))
                    && r.0 == Category::Unknown && r.1 == Verdict::Review,
            },
            (r.0, r.1) == self.spec_classify(path@),
            r.2 is Some <==> self.deciding_rule(path@) is Some,
            r.2 matches Some(rule) ==> *rule == self.rule_list()[self.deciding_rule(path@)->0],
    {
        let p = normalize(path);
        let mut i: usize = 0;
        while i < self.rules.len()
            invariant
                self.wf(),
                p@ == normalized(path@),
                i <= self.rule_list().len(),
                forall|k: int| 0 <= k < i ==> !self.fires(k, normalized(path@)),
            decreases self.rule_list().len() - i,
        {
            if set_is_match(&self.matchers[i], p.as_str()) {
                let rule = &self.rules[i];
                proof {
                    self.lemma_first_from_skip(normalized(path@), 0, i as int);
                }
                return (rule.category, rule.verdict, Some(rule));
            }
            i = i + 1;
        }
        proof {
            self.lemma_first_from_skip(normalized(path@), 0, i as int);
        }
        (Category::Unknown, Verdict::Review, None)
    }
}

impl Clone for RulesDb {
    /// A clone compiles its own matchers from the copied rules.
    fn clone(&self) -> (r: Self)
        ensures
            r.spec_version() == self.spec_version(),
            r.rule_list().len() == self.rule_list().len(),
            forall|i: int| 0 <= i < r.rule_list().len() ==> #[trigger] r.rule_list()[i].same_as(&self.rule_list()[i]),
            r.wf(),
    {
        let mut rules: Vec<Rule> = Vec::new();
        let mut i: usize = 0;
        while i < self.rules.len()
            invariant
                i <= self.rule_list().len(),
                rules@.len() == i,
                forall|k: int| 0 <= k < i ==> #[trigger] rules@[k].same_as(&self.rule_list()[k]),
            decreases self.rule_list().len() - i,
        {
            rules.push(self.rules[i].duplicate());
            i = i + 1;
        }
        RulesDb::new(self.version, rules)
    }
}

/// Lowercase, `/`-separated. Windows hands us `C:\Users\...`; the rules
/// are written once, in one shape, and the path is bent to fit them.
pub fn normalize(path: &str) -> (r: String)
    ensures
        r@ == normalized(path@),
{
    let cs = chars_of(path);
    let mut out: Vec<char> = Vec::new();
    let mut i: usize = 0;
    while i < cs.len()
        invariant
            cs@ == path@,
            i <= cs@.len(),
            out@ == cs@.take(i as int).map_values(|c: char| if c == '\\' { '/' } else { c }),
        decreases cs@.len() - i,
    {
        let c = cs[i];
        out.push(if c == '\\' { '/' } else { c });
        proof {
            assert(cs@.take(i + 1).map_values(|c: char| if c == '\\' { '/' } else { c }) =~= cs@.take(
                i as int,
            ).map_values(|c: char| if c == '\\' { '/' } else { c }).push(
                if c == '\\' { '/' } else { c },
            ));
        }
        i = i + 1;
    }
    assert(cs@.take(cs@.len() as int) =~= cs@);
    let replaced = string_from(&out);
    lowercase(replaced.as_str())
}

/// A rule's matcher: a set of its patterns that are valid globs. A pattern
/// that doesn't compile is dropped, not fatal — one bad line in a rules
/// file must not take the whole scan down. A set globset cannot build
/// matches nothing.
fn compile(rule: &Rule) -> (s: GlobSet)
    ensures
        set_patterns(s) == matcher_patterns(string_views(rule.patterns@)),
{
    let mut builder = new_builder();
    let mut i: usize = 0;
    let ghost ps = string_views(rule.patterns@);
    while i < rule.patterns.len()
        invariant
            ps == string_views(rule.patterns@),
            i <= rule.patterns@.len(),
            builder_patterns(builder) == valid_patterns(ps.take(i as int)),
        decreases rule.patterns@.len() - i,
    {
        let _ = add_pattern(&mut builder, rule.patterns[i].as_str());
        proof {
            assert(ps.take(i + 1).drop_last() =~= ps.take(i as int));
            assert(ps.take(i + 1).last() == rule.patterns@[i as int]@);
        }
        i = i + 1;
    }
    assert(ps.take(rule.patterns@.len() as int) =~= ps);
    match build_set(&builder) {
        Some(set) => set,
        None => empty_set(),
    }
}

/// Whether every pattern of every rule is a valid glob. A protected rule
/// that silently matches nothing is the worst failure this module has, so
/// a rules file can be checked before it is used.
pub fn invalid_pattern(rules: &Vec<Rule>) -> (r: Option<(usize, usize)>)
    ensures
        match r {
            Some((i, j)) => i < rules@.len() && j < rules@[i as int].patterns@.len()
                && !glob_is_valid(rules@[i as int].patterns@[j as int]@),
            None => forall|i: int, j: int|
                0 <= i < rules@.len() && 0 <= j < rules@[i].patterns@.len() ==> glob_is_valid(
                    #[trigger] rules@[i].patterns@[j]@,
                ),
        },
{
    let mut i: usize = 0;
    while i < rules.len()
        invariant
            i <= rules@.len(),
            forall|a: int, b: int|
                0 <= a < i && 0 <= b < rules@[a].patterns@.len() ==> glob_is_valid(
                    #[trigger] rules@[a].patterns@[b]@,
                ),
        decreases rules@.len() - i,
    {
        let mut j: usize = 0;
        while j < rules[i].patterns.len()
            invariant
                i < rules@.len(),
                j <= rules@[i as int].patterns@.len(),
                forall|a: int, b: int|
                    0 <= a < i && 0 <= b < rules@[a].patterns@.len() ==> glob_is_valid(
                        #[trigger] rules@[a].patterns@[b]@,
                    ),
                forall|b: int| 0 <= b < j ==> glob_is_valid(#[trigger] rules@[i as int].patterns@[b]@),
            decreases rules@[i as int].patterns@.len() - j,
        {
            let mut probe = new_builder();
            if !add_pattern(&mut probe, rules[i].patterns[j].as_str()) {
                return Some((i, j));
            }
            j = j + 1;
        }
        i = i + 1;
    }
    None
}

} // verus!
