use dephell::graph::{DependencyEdge, Direction, EdgeKind, Graph, PackageNode};
use dephell::reach::{
    dependencies_of, direct_dependencies, get_root_importers, transitive_dependencies,
    FilteredView,
};
use dephell::roots::select_roots;

fn node(id: &str, is_root: bool) -> PackageNode {
    PackageNode {
        id: id.to_string(),
        name: id.to_lowercase(),
        version: "1.0.0".to_string(),
        description: Some(format!("the package {}", id)),
        repository: None,
        manifest_path: format!("/src/{}/Cargo.toml", id),
        is_root,
    }
}

fn link(from: &str, to: &str, kind: EdgeKind) -> DependencyEdge {
    DependencyEdge { from: from.to_string(), to: to.to_string(), kind }
}

fn names(list: &[&str]) -> Option<Vec<String>> {
    Some(list.iter().map(|s| s.to_string()).collect())
}

/// R1 -> A -> B -> C, R2 -> B, R2 -(dev)-> D, C -> A, D -> E, R1 -(build)-> F
fn sample() -> Graph {
    Graph::new(
        vec![
            node("R1", true),
            node("R2", true),
            node("A", false),
            node("B", false),
            node("C", false),
            node("D", false),
            node("E", false),
            node("F", false),
        ],
        vec![
            link("R1", "A", EdgeKind::Normal),
            link("A", "B", EdgeKind::Normal),
            link("B", "C", EdgeKind::Normal),
            link("R2", "B", EdgeKind::Normal),
            link("R2", "D", EdgeKind::Dev),
            link("C", "A", EdgeKind::Normal),
            link("D", "E", EdgeKind::Normal),
            link("R1", "F", EdgeKind::Build),
            link("R1", "A", EdgeKind::Build),
        ],
    )
    .unwrap()
}

#[test]
fn an_edge_to_an_unknown_package_is_refused() {
    let result = Graph::new(
        vec![node("A", true), node("B", false)],
        vec![
            link("A", "B", EdgeKind::Normal),
            link("B", "C", EdgeKind::Normal),
            link("X", "A", EdgeKind::Normal),
        ],
    );
    assert_eq!(result.err().map(|e| e.edge), Some(1));
    let result = Graph::new(vec![], vec![link("A", "A", EdgeKind::Dev)]);
    assert_eq!(result.err().map(|e| e.edge), Some(0));
    assert!(Graph::new(vec![], vec![]).is_ok());
}

#[test]
fn packages_and_edges_can_be_looked_up() {
    let graph = sample();
    assert_eq!(graph.len(), 8);
    assert_eq!(graph.index_of("A"), Some(2));
    assert_eq!(graph.index_of("Z"), None);
    assert_eq!(graph.package(3).id, "B");
    assert_eq!(graph.package_by_id("E").map(|p| p.name.clone()), Some("e".to_string()));
    assert!(graph.package_by_id("e").is_none());
    assert_eq!(
        graph.all_package_ids(),
        vec!["R1", "R2", "A", "B", "C", "D", "E", "F"]
    );
    let from_r1: Vec<(usize, usize, EdgeKind)> =
        graph.edges_from(0).iter().map(|l| (l.from, l.to, l.kind)).collect();
    assert_eq!(
        from_r1,
        vec![(0, 2, EdgeKind::Normal), (0, 7, EdgeKind::Build), (0, 2, EdgeKind::Build)]
    );
    let to_a: Vec<(usize, usize, EdgeKind)> =
        graph.edges_to(2).iter().map(|l| (l.from, l.to, l.kind)).collect();
    assert_eq!(
        to_a,
        vec![(0, 2, EdgeKind::Normal), (4, 2, EdgeKind::Normal), (0, 2, EdgeKind::Build)]
    );
    assert!(graph.edges_from(99).is_empty());
    assert_eq!(graph.neighbours(Direction::Forward, 0), &vec![2, 7]);
    assert_eq!(graph.neighbours(Direction::Reverse, 2), &vec![0, 4]);
    assert_eq!(graph.neighbours(Direction::Forward, 1), &vec![3]);
}

#[test]
fn the_first_package_of_an_identity_stands_for_it() {
    let graph = Graph::new(
        vec![node("A", true), node("B", false), node("B", false)],
        vec![link("A", "B", EdgeKind::Normal)],
    )
    .unwrap();
    assert_eq!(graph.index_of("B"), Some(1));
    assert_eq!(graph.edges_to(1).len(), 1);
    assert_eq!(graph.edges_to(2).len(), 0);
}

#[test]
fn roots_are_chosen_by_name() {
    let graph = sample();
    assert_eq!(select_roots(&graph, &None, &None).unwrap(), vec![0, 1]);
    assert_eq!(select_roots(&graph, &names(&["r2"]), &None).unwrap(), vec![1]);
    assert_eq!(select_roots(&graph, &None, &names(&["r2"])).unwrap(), vec![0]);
    // a list of wanted names decides alone
    assert_eq!(select_roots(&graph, &names(&["r1"]), &names(&["r1"])).unwrap(), vec![0]);
    // a package that is no root package is never chosen
    assert_eq!(select_roots(&graph, &names(&["a", "r1"]), &None).unwrap(), vec![0]);
    assert!(select_roots(&graph, &names(&["a"]), &None).is_err());
    assert!(select_roots(&graph, &names(&[]), &None).is_err());
    assert!(select_roots(&graph, &None, &names(&["r1", "r2"])).is_err());
    assert_eq!(select_roots(&graph, &None, &names(&[])).unwrap(), vec![0, 1]);
}

#[test]
fn dev_only_edges_are_not_followed() {
    let graph = sample();
    let roots = vec![0, 1];
    // D and E hang on a dev-only edge
    assert_eq!(direct_dependencies(&graph, &roots), vec![2, 3, 7]);
    assert_eq!(transitive_dependencies(&graph, &roots), vec![2, 3, 4, 7]);
    assert_eq!(get_root_importers(&graph, &roots, 5), Vec::<usize>::new());
    assert_eq!(get_root_importers(&graph, &roots, 6), Vec::<usize>::new());
    assert_eq!(dependencies_of(&graph, 5), vec![6]);
}

#[test]
fn importers_are_the_roots_with_a_path() {
    let graph = sample();
    let roots = vec![0, 1];
    assert_eq!(get_root_importers(&graph, &roots, 2), vec![0, 1]);
    assert_eq!(get_root_importers(&graph, &roots, 3), vec![0, 1]);
    assert_eq!(get_root_importers(&graph, &roots, 7), vec![0]);
    // only the roots that are analysed count
    assert_eq!(get_root_importers(&graph, &vec![1], 7), Vec::<usize>::new());
    assert_eq!(get_root_importers(&graph, &vec![1, 1, 99], 2), vec![1]);
    // a root package has no importers
    assert_eq!(get_root_importers(&graph, &roots, 0), Vec::<usize>::new());
    // nor has what is no package
    assert_eq!(get_root_importers(&graph, &roots, 99), Vec::<usize>::new());
}

#[test]
fn a_package_is_not_among_its_own_dependencies() {
    let graph = sample();
    // A, B and C lie on a cycle
    assert_eq!(dependencies_of(&graph, 2), vec![3, 4]);
    assert_eq!(dependencies_of(&graph, 3), vec![2, 4]);
    assert_eq!(dependencies_of(&graph, 4), vec![2, 3]);
    assert_eq!(dependencies_of(&graph, 0), vec![2, 3, 4, 7]);
    assert_eq!(dependencies_of(&graph, 7), Vec::<usize>::new());
}

#[test]
fn a_view_leaves_out_the_edges_into_one_package() {
    let graph = sample();
    let whole = FilteredView::whole(&graph).reachable(&vec![0], Direction::Forward);
    assert_eq!(whole, vec![true, false, true, true, true, false, false, true]);
    let without_a =
        FilteredView::without_edges_into(&graph, 2).reachable(&vec![0], Direction::Forward);
    assert_eq!(without_a, vec![true, false, false, false, false, false, false, true]);
    let without_a =
        FilteredView::without_edges_into(&graph, 2).reachable(&vec![0, 1], Direction::Forward);
    assert_eq!(without_a, vec![true, true, false, true, true, false, false, true]);
    let back = FilteredView::whole(&graph).reachable(&vec![4], Direction::Reverse);
    assert_eq!(back, vec![true, true, true, true, true, false, false, false]);
    let back = FilteredView::without_edges_into(&graph, 3).reachable(&vec![4], Direction::Reverse);
    assert_eq!(back, vec![false, false, false, true, true, false, false, false]);
    let nothing = FilteredView::whole(&graph).reachable(&vec![99], Direction::Forward);
    assert_eq!(nothing, vec![false; 8]);
}
