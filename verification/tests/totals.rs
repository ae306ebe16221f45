use dephell::exclusive::get_exclusive_deps;
use dephell::graph::{DependencyEdge, EdgeKind, Graph, PackageNode};
use dephell::totals::{aggregate, Metrics};

fn node(id: &str, is_root: bool) -> PackageNode {
    PackageNode {
        id: id.to_string(),
        name: id.to_string(),
        version: "1.0.0".to_string(),
        description: None,
        repository: None,
        manifest_path: String::new(),
        is_root,
    }
}

fn link(from: &str, to: &str) -> DependencyEdge {
    DependencyEdge { from: from.to_string(), to: to.to_string(), kind: EdgeKind::Normal }
}

fn counts(loc: u64, rust_loc: u64, unsafe_loc: u64) -> Option<Metrics> {
    Some(Metrics { loc, rust_loc, unsafe_loc })
}

#[test]
fn a_total_is_the_own_count_plus_the_totals_below() {
    // R -> A -> B -> D, A -> C -> D
    let graph = Graph::new(
        vec![node("R", true), node("A", false), node("B", false), node("C", false), node("D", false)],
        vec![link("R", "A"), link("A", "B"), link("B", "D"), link("A", "C"), link("C", "D")],
    )
    .unwrap();
    let own = vec![counts(1000, 1000, 0), counts(1, 1, 0), counts(20, 10, 1), counts(300, 0, 2), counts(4000, 4000, 30)];
    let totals = aggregate(&graph, &own);
    assert_eq!(totals[0], None);
    assert_eq!(totals[4], counts(4000, 4000, 30));
    assert_eq!(totals[2], counts(4020, 4010, 31));
    assert_eq!(totals[3], counts(4300, 4000, 32));
    // D is counted once through B and once through C
    assert_eq!(totals[1], counts(8321, 8011, 63));
}

#[test]
fn an_edge_named_twice_counts_once() {
    let mut edges = vec![link("A", "B"), link("A", "B")];
    edges.push(DependencyEdge { from: "A".to_string(), to: "B".to_string(), kind: EdgeKind::Build });
    edges.push(DependencyEdge { from: "A".to_string(), to: "C".to_string(), kind: EdgeKind::Dev });
    let graph = Graph::new(vec![node("A", false), node("B", false), node("C", false)], edges).unwrap();
    let own = vec![counts(1, 0, 0), counts(10, 0, 0), counts(100, 0, 0)];
    assert_eq!(aggregate(&graph, &own), vec![counts(11, 0, 0), counts(10, 0, 0), counts(100, 0, 0)]);
}

#[test]
fn packages_on_a_cycle_have_no_total() {
    // A -> B -> A, C -> A, D alone
    let graph = Graph::new(
        vec![node("A", false), node("B", false), node("C", false), node("D", false)],
        vec![link("A", "B"), link("B", "A"), link("C", "A")],
    )
    .unwrap();
    let own = vec![counts(1, 1, 1), counts(2, 2, 2), counts(3, 3, 3), counts(4, 4, 4)];
    assert_eq!(aggregate(&graph, &own), vec![None, None, None, counts(4, 4, 4)]);
    // a package that depends on itself
    let graph = Graph::new(vec![node("A", false)], vec![link("A", "A")]).unwrap();
    assert_eq!(aggregate(&graph, &vec![counts(1, 1, 1)]), vec![None]);
}

#[test]
fn a_root_package_on_the_way_adds_nothing() {
    // A -> R -> A: the way round leads over a root package
    let graph = Graph::new(
        vec![node("A", false), node("R", true), node("B", false)],
        vec![link("A", "R"), link("R", "A"), link("A", "B")],
    )
    .unwrap();
    let own = vec![counts(1, 1, 1), counts(50, 50, 50), counts(2, 2, 2)];
    assert_eq!(aggregate(&graph, &own), vec![counts(3, 3, 3), None, counts(2, 2, 2)]);
}

#[test]
fn without_own_counts_there_is_no_total() {
    // A -> B -> C, and nothing is known of B
    let graph = Graph::new(
        vec![node("A", false), node("B", false), node("C", false)],
        vec![link("A", "B"), link("B", "C")],
    )
    .unwrap();
    assert_eq!(aggregate(&graph, &vec![counts(1, 0, 0), None, counts(3, 0, 0)]), vec![None, None, counts(3, 0, 0)]);
    // counts that end before the last package
    assert_eq!(aggregate(&graph, &vec![counts(1, 0, 0), counts(2, 0, 0)]), vec![None, None, None]);
    assert_eq!(aggregate(&graph, &vec![]), vec![None, None, None]);
}

#[test]
fn a_sum_that_does_not_fit_gives_no_total() {
    let graph = Graph::new(
        vec![node("A", false), node("B", false), node("C", false)],
        vec![link("A", "B"), link("B", "C")],
    )
    .unwrap();
    let own = vec![counts(0, 0, 0), counts(1, 0, 0), counts(u64::MAX, 5, 0)];
    assert_eq!(aggregate(&graph, &own), vec![None, None, counts(u64::MAX, 5, 0)]);
    let own = vec![counts(0, 0, 0), counts(1, 0, 0), counts(u64::MAX - 1, 5, 0)];
    assert_eq!(
        aggregate(&graph, &own),
        vec![counts(u64::MAX, 5, 0), counts(u64::MAX, 5, 0), counts(u64::MAX - 1, 5, 0)]
    );
}

#[test]
fn a_long_chain_listed_backwards_is_settled() {
    // one package after the other in a chain: every pass settles one package more
    let n = 50;
    let packages: Vec<PackageNode> = (0..n).map(|i| node(&format!("link{}", i), false)).collect();
    let edges: Vec<DependencyEdge> =
        (0..n - 1).map(|i| link(&format!("link{}", i), &format!("link{}", i + 1))).collect();
    let graph = Graph::new(packages, edges).unwrap();
    let own: Vec<Option<Metrics>> = (0..n).map(|_| counts(1, 1, 0)).collect();
    let totals = aggregate(&graph, &own);
    for i in 0..n {
        assert_eq!(totals[i], counts((n - i) as u64, (n - i) as u64, 0));
    }
}

#[test]
fn exclusive_dependencies_have_no_other_way_in() {
    // R -> A -> B -> C, R -> D -> C, B -> E -> F, F -> B
    let graph = Graph::new(
        vec![
            node("R", true),
            node("A", false),
            node("B", false),
            node("C", false),
            node("D", false),
            node("E", false),
            node("F", false),
        ],
        vec![
            link("R", "A"),
            link("A", "B"),
            link("B", "C"),
            link("R", "D"),
            link("D", "C"),
            link("B", "E"),
            link("E", "F"),
            link("F", "B"),
        ],
    )
    .unwrap();
    let roots = vec![0];
    assert_eq!(get_exclusive_deps(&graph, &roots, 1), vec![2, 5, 6]);
    assert_eq!(get_exclusive_deps(&graph, &roots, 2), vec![5, 6]);
    assert_eq!(get_exclusive_deps(&graph, &roots, 3), Vec::<usize>::new());
    assert_eq!(get_exclusive_deps(&graph, &roots, 4), Vec::<usize>::new());
    assert_eq!(get_exclusive_deps(&graph, &roots, 5), vec![6]);
    assert_eq!(get_exclusive_deps(&graph, &roots, 99), Vec::<usize>::new());
    // with no root analysed, whatever lies below a package is its own
    assert_eq!(get_exclusive_deps(&graph, &vec![], 4), vec![3]);
}
