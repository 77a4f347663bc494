use diskern_core::graph::ImpactGraph;
use diskern_core::FileEntry;

fn entries(paths: &[&str]) -> Vec<FileEntry> {
    paths
        .iter()
        .map(|p| FileEntry {
            path: p.to_string(),
            size: 1,
            modified: None,
            accessed: None,
            is_symlink: false,
            identity: None,
            hash: None,
        })
        .collect()
}

#[test]
fn a_project_references_the_store_beside_it() {
    let graph = ImpactGraph::from_entries(&entries(&[
        "/home/u/proj/package.json",
        "/home/u/proj/src/index.js",
        "/home/u/proj/node_modules/react/index.js",
    ]));

    assert_eq!(
        graph.referencing_projects("/home/u/proj/node_modules/react/index.js"),
        1
    );
    // The project's own source is referenced by nothing.
    assert_eq!(graph.referencing_projects("/home/u/proj/src/index.js"), 0);
}

#[test]
fn an_unreferenced_store_is_referenced_by_nobody() {
    let graph =
        ImpactGraph::from_entries(&entries(&["/home/u/old-thing/node_modules/react/index.js"]));

    assert_eq!(
        graph.referencing_projects("/home/u/old-thing/node_modules/react/index.js"),
        0
    );
}

#[test]
fn a_package_json_inside_node_modules_is_not_a_project() {
    let graph = ImpactGraph::from_entries(&entries(&[
        "/home/u/proj/package.json",
        "/home/u/proj/node_modules/react/package.json",
        "/home/u/proj/node_modules/react/node_modules/loose/package.json",
    ]));

    assert_eq!(
        graph.referencing_projects("/home/u/proj/node_modules/react/package.json"),
        1
    );
}

#[test]
fn hoisted_workspace_members_all_reference_the_shared_store() {
    let graph = ImpactGraph::from_entries(&entries(&[
        "/repo/package.json",
        "/repo/packages/a/package.json",
        "/repo/packages/b/package.json",
        "/repo/node_modules/react/index.js",
    ]));

    assert_eq!(
        graph.referencing_projects("/repo/node_modules/react/index.js"),
        3
    );
}

#[test]
fn a_member_with_its_own_store_does_not_borrow_the_roots() {
    let graph = ImpactGraph::from_entries(&entries(&[
        "/repo/package.json",
        "/repo/packages/a/package.json",
        "/repo/packages/a/node_modules/x/index.js",
        "/repo/node_modules/react/index.js",
    ]));

    assert_eq!(
        graph.referencing_projects("/repo/packages/a/node_modules/x/index.js"),
        1
    );
    assert_eq!(
        graph.referencing_projects("/repo/node_modules/react/index.js"),
        1
    );
}

#[test]
fn cargo_workspace_members_share_one_target() {
    let graph = ImpactGraph::from_entries(&entries(&[
        "/repo/Cargo.toml",
        "/repo/crates/core/Cargo.toml",
        "/repo/crates/cli/Cargo.toml",
        "/repo/target/debug/app",
    ]));

    assert_eq!(graph.referencing_projects("/repo/target/debug/app"), 3);
}

#[test]
fn a_path_outside_every_node_is_referenced_by_nobody() {
    let graph = ImpactGraph::from_entries(&entries(&[
        "/home/u/proj/package.json",
        "/home/u/proj/node_modules/react/index.js",
    ]));
    assert_eq!(graph.referencing_projects("/elsewhere/file"), 0);
}

#[test]
fn a_directory_with_two_markers_is_a_project_of_both_kinds() {
    let paths = [
        "/w/d/Cargo.toml",
        "/w/d/package.json",
        "/w/d/target/x",
        "/w/d/node_modules/y",
    ];
    let orders: [[usize; 4]; 4] = [[0, 1, 2, 3], [1, 0, 2, 3], [2, 3, 1, 0], [3, 0, 2, 1]];
    for order in orders {
        let listed: Vec<&str> = order.iter().map(|&i| paths[i]).collect();
        let graph = ImpactGraph::from_entries(&entries(&listed));
        assert_eq!(graph.referencing_projects("/w/d/target/x"), 1, "{listed:?}");
        assert_eq!(graph.referencing_projects("/w/d/node_modules/y"), 1, "{listed:?}");
    }
}
