use dephell::analysis::analyze_repo;
use dephell::exclusive::get_exclusive_deps;
use dephell::graph::{DependencyEdge, EdgeKind, Graph, PackageNode};
use dephell::reach::{direct_dependencies, get_root_importers, transitive_dependencies};
use dephell::record::PackageRisk;
use dephell::roots::select_roots;

fn package(id: &str, name: &str, version: &str, is_root: bool) -> PackageNode {
    PackageNode {
        id: id.to_string(),
        name: name.to_string(),
        version: version.to_string(),
        description: None,
        repository: None,
        manifest_path: format!("/src/{}/Cargo.toml", id),
        is_root,
    }
}

fn edge(from: &str, to: &str, kind: EdgeKind) -> DependencyEdge {
    DependencyEdge { from: from.to_string(), to: to.to_string(), kind }
}

fn sorted(mut list: Vec<String>) -> Vec<String> {
    list.sort();
    list
}

fn texts(list: &[&str]) -> Vec<String> {
    list.iter().map(|s| s.to_string()).collect()
}

#[test]
fn shared_dependency_is_not_exclusive() {
    let graph = Graph::new(
        vec![
            package("A", "a", "0.1.0", true),
            package("B", "b", "1.0.0", false),
            package("C", "c", "1.0.0", false),
        ],
        vec![
            edge("A", "B", EdgeKind::Normal),
            edge("B", "C", EdgeKind::Normal),
            edge("A", "C", EdgeKind::Normal),
        ],
    )
    .unwrap();
    let a = graph.index_of("A").unwrap();
    let b = graph.index_of("B").unwrap();
    let c = graph.index_of("C").unwrap();
    let roots = select_roots(&graph, &None, &None).unwrap();
    assert_eq!(roots, vec![a]);
    assert_eq!(direct_dependencies(&graph, &roots), vec![b, c]);
    assert_eq!(transitive_dependencies(&graph, &roots), vec![b, c]);
    assert_eq!(get_root_importers(&graph, &roots, c), vec![a]);
    assert_eq!(get_exclusive_deps(&graph, &roots, b), Vec::<usize>::new());
    assert_eq!(get_exclusive_deps(&graph, &roots, c), Vec::<usize>::new());
}

#[test]
fn dependencies_behind_one_package_are_exclusive() {
    let graph = Graph::new(
        vec![
            package("A", "a", "0.1.0", true),
            package("B", "b", "1.0.0", false),
            package("C", "c", "1.0.0", false),
            package("D", "d", "1.0.0", false),
        ],
        vec![
            edge("A", "B", EdgeKind::Normal),
            edge("B", "C", EdgeKind::Normal),
            edge("B", "D", EdgeKind::Normal),
        ],
    )
    .unwrap();
    let b = graph.index_of("B").unwrap();
    let c = graph.index_of("C").unwrap();
    let d = graph.index_of("D").unwrap();
    let roots = select_roots(&graph, &None, &None).unwrap();
    assert_eq!(get_exclusive_deps(&graph, &roots, b), vec![c, d]);
}

#[test]
fn versions_of_one_name_share_a_record() {
    let graph = Graph::new(
        vec![
            package("R1", "app", "0.1.0", true),
            package("R2", "tool", "0.1.0", true),
            package("foo 1.0", "foo", "1.0", false),
            package("foo 2.0", "foo", "2.0", false),
        ],
        vec![
            edge("R1", "foo 1.0", EdgeKind::Normal),
            edge("R2", "foo 2.0", EdgeKind::Normal),
        ],
    )
    .unwrap();
    let findings: Vec<Option<PackageRisk>> = Vec::new();
    let out = analyze_repo(&graph, &None, &None, &findings).unwrap();
    assert_eq!(out.records.len(), 1);
    let foo = &out.records[0];
    assert_eq!(foo.name, "foo");
    assert_eq!(sorted(foo.versions.clone()), texts(&["1.0", "2.0"]));
    assert_eq!(sorted(foo.root_importers.clone()), texts(&["R1", "R2"]));
    assert_eq!(out.per_package.len(), 2);
    assert_eq!(out.per_package[0].root_importers, texts(&["R1"]));
    assert_eq!(out.per_package[1].root_importers, texts(&["R2"]));
}
