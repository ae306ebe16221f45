use dephell::analysis::{analyze_repo, describe, Analysis};
use dephell::graph::{DependencyEdge, EdgeKind, Graph, PackageNode};
use dephell::metrics::is_rust_source;
use dephell::record::{assemble, create_or_update_dependency, PackageRisk};
use dephell::totals::Metrics;

fn node(id: &str, name: &str, version: &str, is_root: bool) -> PackageNode {
    PackageNode {
        id: id.to_string(),
        name: name.to_string(),
        version: version.to_string(),
        description: None,
        repository: None,
        manifest_path: format!("/src/{}/Cargo.toml", id),
        is_root,
    }
}

fn link(from: &str, to: &str, kind: EdgeKind) -> DependencyEdge {
    DependencyEdge { from: from.to_string(), to: to.to_string(), kind }
}

fn texts(list: &[&str]) -> Vec<String> {
    list.iter().map(|s| s.to_string()).collect()
}

fn sorted(list: &Vec<String>) -> Vec<String> {
    let mut list = list.clone();
    list.sort();
    list
}

fn finding(loc: u64, rust_loc: u64, unsafe_loc: u64) -> PackageRisk {
    let mut f = PackageRisk::default();
    f.loc = loc;
    f.rust_loc = rust_loc;
    f.unsafe_loc = unsafe_loc;
    f
}

/// app -> foo 1.0 -> bar -> baz, tool -> foo 2.0 -> baz, app -(dev)-> dev
fn sample() -> Graph {
    let mut foo1 = node("foo 1.0", "foo", "1.0", false);
    foo1.repository = Some("https://github.com/x/foo".to_string());
    let mut foo2 = node("foo 2.0", "foo", "2.0", false);
    foo2.repository = Some("https://github.com/y/foo".to_string());
    foo2.description = Some("the second foo".to_string());
    Graph::new(
        vec![
            node("app", "app", "0.1.0", true),
            node("tool", "tool", "0.1.0", true),
            foo1,
            foo2,
            node("bar", "bar", "0.3.0", false),
            node("baz", "baz", "0.4.0", false),
            node("dev", "dev", "0.5.0", false),
        ],
        vec![
            link("app", "foo 1.0", EdgeKind::Normal),
            link("tool", "foo 2.0", EdgeKind::Normal),
            link("foo 1.0", "bar", EdgeKind::Normal),
            link("bar", "baz", EdgeKind::Build),
            link("foo 2.0", "baz", EdgeKind::Normal),
            link("app", "dev", EdgeKind::Dev),
        ],
    )
    .unwrap()
}

fn findings() -> Vec<Option<PackageRisk>> {
    let mut foo1 = finding(100, 90, 1);
    foo1.used = true;
    foo1.stargazers_count = Some(7);
    let mut foo2 = finding(200, 180, 2);
    foo2.stargazers_count = Some(8);
    foo2.crates_io_dependent = Some(99);
    foo2.crates_io_last_updated = Some("2020-02-02".to_string());
    vec![
        None,
        None,
        Some(foo1),
        Some(foo2),
        Some(finding(30, 30, 0)),
        Some(finding(4, 0, 0)),
        Some(finding(5000, 5000, 5000)),
    ]
}

fn record<'a>(out: &'a Analysis, name: &str) -> &'a PackageRisk {
    out.records.iter().find(|r| r.name == name).unwrap()
}

#[test]
fn the_analysis_gives_one_record_for_each_name() {
    let graph = sample();
    let out = analyze_repo(&graph, &None, &None, &findings()).unwrap();
    assert_eq!(out.roots, vec![0, 1]);
    assert_eq!(sorted(&out.root_crates), texts(&["app", "tool"]));
    assert_eq!(sorted(&out.main_dependencies), texts(&["foo"]));
    assert_eq!(out.packages, vec![2, 3, 4, 5]);
    assert_eq!(out.per_package.len(), 4);
    let names: Vec<String> = out.records.iter().map(|r| r.name.clone()).collect();
    assert_eq!(names, texts(&["foo", "bar", "baz"]));

    let foo = record(&out, "foo");
    assert_eq!(sorted(&foo.versions), texts(&["1.0", "2.0"]));
    assert_eq!(sorted(&foo.root_importers), texts(&["app", "tool"]));
    assert_eq!(sorted(&foo.direct_dependencies), texts(&["bar", "baz"]));
    assert_eq!(sorted(&foo.transitive_dependencies), texts(&["bar", "baz"]));
    assert_eq!(sorted(&foo.exclusive_deps_introduced), texts(&["bar"]));
    // the first value that is there stands, and the clash is noted
    assert_eq!(out.conflicts, texts(&["foo"]));
    assert_eq!(foo.repo, Some("https://github.com/x/foo".to_string()));
    assert_eq!(foo.description, Some("the second foo".to_string()));
    assert_eq!(foo.manifest_path, "/src/foo 1.0/Cargo.toml");
    assert_eq!(foo.stargazers_count, Some(7));
    assert_eq!(foo.crates_io_dependent, Some(99));
    assert_eq!(foo.crates_io_last_updated, Some("2020-02-02".to_string()));
    assert_eq!(foo.active_contributors, None);
    assert!(foo.used);
    assert!(!foo.internal);
    // own counts and totals are added up
    assert_eq!((foo.loc, foo.rust_loc, foo.unsafe_loc), (300, 270, 3));
    assert!(foo.total_calculated);
    assert_eq!((foo.total_loc, foo.total_rust_loc, foo.total_unsafe_loc), (134 + 204, 120 + 180, 1 + 2));

    let bar = record(&out, "bar");
    assert_eq!(bar.versions, texts(&["0.3.0"]));
    assert_eq!(bar.root_importers, texts(&["app"]));
    assert_eq!(bar.exclusive_deps_introduced, Vec::<String>::new());
    assert_eq!((bar.total_loc, bar.total_rust_loc, bar.total_unsafe_loc), (34, 30, 0));
    assert!(!bar.used);

    let baz = record(&out, "baz");
    assert_eq!(sorted(&baz.root_importers), texts(&["app", "tool"]));
    assert_eq!(baz.direct_dependencies, Vec::<String>::new());
    assert_eq!((baz.loc, baz.total_loc), (4, 4));
    assert!(baz.total_calculated);
}

#[test]
fn the_choice_of_roots_shapes_the_analysis() {
    let graph = sample();
    let only = Some(texts(&["tool"]));
    let out = analyze_repo(&graph, &only, &None, &findings()).unwrap();
    assert_eq!(out.roots, vec![1]);
    assert_eq!(out.packages, vec![3, 5]);
    let foo = record(&out, "foo");
    assert_eq!(foo.versions, texts(&["2.0"]));
    assert_eq!(foo.root_importers, texts(&["tool"]));
    assert_eq!(foo.exclusive_deps_introduced, texts(&["baz"]));
    let ignored = Some(texts(&["tool"]));
    let out = analyze_repo(&graph, &None, &ignored, &findings()).unwrap();
    assert_eq!(out.roots, vec![0]);
    assert_eq!(out.packages, vec![2, 4, 5]);
    assert!(analyze_repo(&graph, &Some(texts(&["nothing"])), &None, &findings()).is_err());
    assert!(analyze_repo(&graph, &None, &Some(texts(&["app", "tool"])), &findings()).is_err());
}

#[test]
fn two_runs_give_the_same_records() {
    let graph = sample();
    let first = analyze_repo(&graph, &None, &None, &findings()).unwrap();
    let second = analyze_repo(&graph, &None, &None, &findings()).unwrap();
    assert_eq!(format!("{:?}", first), format!("{:?}", second));
}

#[test]
fn a_package_without_findings_has_no_totals() {
    let graph = sample();
    let mut found = findings();
    found[5] = None;
    let out = analyze_repo(&graph, &None, &None, &found).unwrap();
    let baz = record(&out, "baz");
    assert!(!baz.total_calculated);
    assert_eq!((baz.loc, baz.total_loc), (0, 0));
    let bar = record(&out, "bar");
    assert!(!bar.total_calculated);
    assert_eq!((bar.loc, bar.total_loc), (30, 0));
    let foo = record(&out, "foo");
    assert!(!foo.total_calculated);
    assert_eq!((foo.loc, foo.total_loc), (300, 0));
    // no findings at all
    let out = analyze_repo(&graph, &None, &None, &vec![]).unwrap();
    assert!(out.records.iter().all(|r| !r.total_calculated && r.loc == 0));
}

#[test]
fn packages_on_a_cycle_are_marked() {
    // R -> A -> B -> A, R -> C
    let graph = Graph::new(
        vec![
            node("R", "r", "1", true),
            node("A", "a", "1", false),
            node("B", "b", "1", false),
            node("C", "c", "1", false),
        ],
        vec![
            link("R", "A", EdgeKind::Normal),
            link("A", "B", EdgeKind::Normal),
            link("B", "A", EdgeKind::Normal),
            link("R", "C", EdgeKind::Normal),
        ],
    )
    .unwrap();
    let found = vec![None, Some(finding(1, 1, 0)), Some(finding(2, 2, 0)), Some(finding(3, 3, 0))];
    let out = analyze_repo(&graph, &None, &None, &found).unwrap();
    assert!(!record(&out, "a").total_calculated);
    assert!(!record(&out, "b").total_calculated);
    assert!(record(&out, "c").total_calculated);
    assert_eq!(record(&out, "a").transitive_dependencies, texts(&["b"]));
    assert_eq!(record(&out, "b").transitive_dependencies, texts(&["a"]));
}

#[test]
fn a_package_is_described_from_graph_and_finding() {
    let graph = sample();
    let roots = vec![0, 1];
    let total = Some(Metrics { loc: 34, rust_loc: 30, unsafe_loc: 0 });
    let bar = describe(&graph, &roots, 4, &Some(finding(30, 30, 0)), total);
    assert_eq!(bar.name, "bar");
    assert_eq!(bar.versions, texts(&["0.3.0"]));
    assert_eq!(bar.direct_dependencies, texts(&["baz"]));
    assert_eq!(bar.root_importers, texts(&["app"]));
    assert_eq!((bar.loc, bar.total_loc, bar.total_calculated), (30, 34, true));
    let bar = describe(&graph, &roots, 4, &None, None);
    assert_eq!((bar.loc, bar.total_loc, bar.total_calculated), (0, 0, false));
}

#[test]
fn records_of_one_name_are_merged() {
    let mut first = finding(1, 1, 1);
    first.name = "x".to_string();
    first.versions = texts(&["1", "1"]);
    first.total_calculated = true;
    first.total_loc = 10;
    let mut second = finding(2, 2, 2);
    second.name = "x".to_string();
    second.versions = texts(&["2", "1"]);
    second.repo = Some("r".to_string());
    second.manifest_path = "m".to_string();
    second.internal = true;
    second.total_loc = 77;
    let mut third = finding(u64::MAX, 0, 0);
    third.name = "y".to_string();
    third.total_loc = 5;
    let mut fourth = finding(1, 0, 0);
    fourth.name = "y".to_string();
    fourth.total_calculated = true;
    fourth.total_loc = 6;
    let mut fifth = finding(0, 0, 0);
    fifth.name = "z".to_string();
    fifth.total_calculated = true;
    fifth.total_loc = u64::MAX;
    let mut sixth = finding(0, 0, 0);
    sixth.name = "z".to_string();
    sixth.total_calculated = true;
    sixth.total_loc = 1;
    let (records, conflicts) = assemble(&vec![first, third, second, fourth, fifth, sixth]);
    assert_eq!(records.len(), 3);
    assert_eq!(conflicts, Vec::<String>::new());
    let x = &records[0];
    assert_eq!(x.name, "x");
    assert_eq!(x.versions, texts(&["1", "2"]));
    assert_eq!(x.repo, Some("r".to_string()));
    assert_eq!(x.manifest_path, "m");
    assert!(x.internal);
    assert_eq!((x.loc, x.rust_loc, x.unsafe_loc), (3, 3, 3));
    // the totals of the second are not established
    assert_eq!((x.total_calculated, x.total_loc), (false, 0));
    let y = &records[1];
    assert_eq!(y.name, "y");
    assert_eq!(y.loc, u64::MAX);
    assert_eq!((y.total_calculated, y.total_loc), (false, 0));
    let z = &records[2];
    // the sum of the totals does not fit
    assert_eq!((z.total_calculated, z.total_loc), (false, 0));

    let mut records: Vec<PackageRisk> = Vec::new();
    let mut a = finding(1, 0, 0);
    a.name = "a".to_string();
    a.total_calculated = true;
    a.total_loc = 4;
    assert!(!create_or_update_dependency(&mut records, &a));
    assert!(!create_or_update_dependency(&mut records, &a));
    a.repo = Some("here".to_string());
    assert!(!create_or_update_dependency(&mut records, &a));
    assert!(!create_or_update_dependency(&mut records, &a));
    a.repo = Some("there".to_string());
    assert!(create_or_update_dependency(&mut records, &a));
    assert_eq!(records[0].repo, Some("here".to_string()));
    records.truncate(0);
    a.repo = None;
    assert!(!create_or_update_dependency(&mut records, &a));
    assert!(!create_or_update_dependency(&mut records, &a));
    assert_eq!(records.len(), 1);
    assert_eq!((records[0].loc, records[0].total_calculated, records[0].total_loc), (2, true, 8));
}

#[test]
fn rust_files_are_told_by_their_extension() {
    assert!(is_rust_source("src/lib.rs"));
    assert!(is_rust_source("/a/b.c/main.rs"));
    assert!(!is_rust_source("src/lib.c"));
    assert!(!is_rust_source("src/rs"));
    assert!(!is_rust_source(".rs"));
    assert!(!is_rust_source("lib.rs.orig"));
    assert!(!is_rust_source("lib.RS"));
}

#[test]
fn clashes_are_noted_by_name() {
    let part = |name: &str, stars: Option<u64>, path: &str| {
        let mut p = PackageRisk::default();
        p.name = name.to_string();
        p.stargazers_count = stars;
        p.manifest_path = path.to_string();
        p
    };
    let parts = vec![
        part("a", None, ""),
        part("b", Some(1), "/b"),
        part("a", Some(2), "/a"),
        part("b", Some(1), ""),
        part("c", Some(3), "/c"),
        part("a", Some(2), "/a"),
        part("c", Some(3), "/c2"),
        part("a", Some(4), "/a"),
        part("c", Some(5), "/c"),
    ];
    let (records, conflicts) = assemble(&parts);
    assert_eq!(records.len(), 3);
    assert_eq!(conflicts, texts(&["c", "a"]));
    assert_eq!(records[0].stargazers_count, Some(2));
    assert_eq!(records[2].manifest_path, "/c");
}

#[test]
fn a_record_does_not_name_itself_among_its_transitive_dependencies() {
    // app -> foo 1.0 -> foo 2.0 -> bar -> foo 3.0
    let graph = Graph::new(
        vec![
            node("app", "app", "0.1.0", true),
            node("foo 1.0", "foo", "1.0", false),
            node("foo 2.0", "foo", "2.0", false),
            node("bar", "bar", "1.0", false),
            node("foo 3.0", "foo", "3.0", false),
        ],
        vec![
            link("app", "foo 1.0", EdgeKind::Normal),
            link("foo 1.0", "foo 2.0", EdgeKind::Normal),
            link("foo 2.0", "bar", EdgeKind::Normal),
            link("bar", "foo 3.0", EdgeKind::Normal),
        ],
    )
    .unwrap();
    let out = analyze_repo(&graph, &None, &None, &vec![]).unwrap();
    let foo = record(&out, "foo");
    assert_eq!(sorted(&foo.versions), texts(&["1.0", "2.0", "3.0"]));
    assert_eq!(foo.transitive_dependencies, texts(&["bar"]));
    assert_eq!(sorted(&foo.direct_dependencies), texts(&["bar", "foo"]));
    assert_eq!(sorted(&foo.exclusive_deps_introduced), texts(&["bar", "foo 2.0", "foo 3.0"]));
    let bar = record(&out, "bar");
    assert_eq!(bar.transitive_dependencies, texts(&["foo"]));
}
