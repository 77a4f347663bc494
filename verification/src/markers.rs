//! Which project roots the entries mark: exactly the directories holding
//! a marker file (`Cargo.toml`, `package.json`, `pyproject.toml`) that sits
//! in no dependency store.
use vstd::prelude::*;
use crate::entry_order::{lemma_roots_by_elements, lemma_roots_by_marked};
use crate::graph::{enclosing_store, lower, marked_root, project_roots, ProjectKind};
use crate::paths::{file_name, parent};

verus! {

/// A file named `Cargo.toml`, `package.json` or `pyproject.toml` (ASCII
/// case ignored) that sits in no dependency store makes the directory
/// holding it a project root: a Cargo, npm or Python one respectively.
pub proof fn lemma_marker_files_mark_roots(paths: Seq<Seq<char>>, i: int, d: Seq<char>, n: Seq<char>)
    requires
        0 <= i < paths.len(),
        enclosing_store(paths[i]) is None,
        parent(paths[i]) == Some(d),
        file_name(paths[i]) == Some(n),
    ensures
        lower(n) == "cargo.toml"@ ==> project_roots(paths).contains((d, ProjectKind::Cargo)),
        lower(n) == "package.json"@ ==> project_roots(paths).contains((d, ProjectKind::Npm)),
        lower(n) == "pyproject.toml"@ ==> project_roots(paths).contains((d, ProjectKind::Python)),
{
    reveal_strlit("cargo.toml");
    reveal_strlit("package.json");
    reveal_strlit("pyproject.toml");
    let mark = |p: Seq<char>| marked_root(p);
    lemma_roots_by_marked(paths);
    lemma_roots_by_elements(mark, paths);
    if lower(n) == "cargo.toml"@ {
        assert(mark(paths[i]) == Some((d, ProjectKind::Cargo)));
    }
    if lower(n) == "package.json"@ {
        assert(lower(n).len() == 12);
        assert(mark(paths[i]) == Some((d, ProjectKind::Npm)));
    }
    if lower(n) == "pyproject.toml"@ {
        assert(lower(n).len() == 14);
        assert(mark(paths[i]) == Some((d, ProjectKind::Python)));
    }
}

/// `p` is a marker file of root `x`: a file outside every dependency store,
/// in directory `x.0`, named `Cargo.toml` for a Cargo root, `package.json`
/// for an npm one and `pyproject.toml` for a Python one (ASCII case
/// ignored).
pub open spec fn is_marker_of(p: Seq<char>, x: (Seq<char>, ProjectKind)) -> bool {
    &&& enclosing_store(p) is None
    &&& parent(p) == Some(x.0)
    &&& file_name(p) is Some
    &&& {
        let n = lower(file_name(p)->0);
        ||| x.1 == ProjectKind::Cargo && n == "cargo.toml"@
        ||| x.1 == ProjectKind::Npm && n == "package.json"@
        ||| x.1 == ProjectKind::Python && n == "pyproject.toml"@
    }
}

proof fn lemma_marked_root_is_marker(p: Seq<char>, x: (Seq<char>, ProjectKind))
    requires
        marked_root(p) == Some(x),
    ensures
        is_marker_of(p, x),
{
}

/// Every project root comes from a marker file among the entries.
pub proof fn lemma_roots_come_from_marker_files(paths: Seq<Seq<char>>)
    ensures
        forall|x: (Seq<char>, ProjectKind)|
            #[trigger] project_roots(paths).contains(x) ==> exists|i: int|
                0 <= i < paths.len() && is_marker_of(#[trigger] paths[i], x),
{
    let mark = |p: Seq<char>| marked_root(p);
    lemma_roots_by_marked(paths);
    lemma_roots_by_elements(mark, paths);
    assert forall|x: (Seq<char>, ProjectKind)| #[trigger] project_roots(paths).contains(x) implies exists|i: int|
        0 <= i < paths.len() && is_marker_of(#[trigger] paths[i], x) by {
        let i = choose|i: int| 0 <= i < paths.len() && mark(#[trigger] paths[i]) == Some(x);
        lemma_marked_root_is_marker(paths[i], x);
    }
}

} // verus!
