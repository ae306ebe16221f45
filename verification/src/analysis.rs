//! The whole analysis: from the graph, the choice of root packages and what
//! scanners and reputation services found out about each package, to one
//! risk record for each name among the third-party packages.

use crate::exclusive::{get_exclusive_deps, is_exclusive};
use crate::graph::{
    all_below, ascending, lemma_push_contains, Direction, Graph, GraphModel, PackageNode,
};
use crate::names::{add_name, distinct_texts, has_text, text_set};
use crate::reach::{
    dependencies_of, depends_on, direct_dependencies, get_root_importers, imports,
    is_direct_dependency, is_transitive_dependency, lists_exactly, transitive_dependencies,
};
use crate::record::{
    assemble, assembled, clashed, copy_text, lemma_merged_has_source, merged, text_of, well_kept,
    PackageRisk, Risk,
};
use crate::roots::{is_selected, select_roots, EmptyRootSetError};
use crate::totals::{aggregate, total_of, Metrics};
use vstd::prelude::*;

verus! {

/// The identity of a package, or its name.
pub open spec fn label_of(p: PackageNode, by_id: bool) -> Seq<char> {
    if by_id {
        p.id@
    } else {
        p.name@
    }
}

/// The names, or the identities, of the packages for which `member` holds.
pub open spec fn labels_of(m: GraphModel, by_id: bool, member: spec_fn(int) -> bool) -> Set<
    Seq<char>,
> {
    Set::new(
        |t: Seq<char>|
            exists|d: int| m.is_node(d) && #[trigger] member(d)
                && label_of(m.packages[d], by_id) == t,
    )
}

/// The same packages have the same labels.
pub proof fn lemma_labels_agree(
    m: GraphModel,
    by_id: bool,
    a: spec_fn(int) -> bool,
    b: spec_fn(int) -> bool,
)
    requires
        forall|d: int| m.is_node(d) ==> (#[trigger] a(d) <==> #[trigger] b(d)),
    ensures
        labels_of(m, by_id, a) == labels_of(m, by_id, b),
{
    assert forall|t: Seq<char>| labels_of(m, by_id, a).contains(t) <==> labels_of(
        m,
        by_id,
        b,
    ).contains(t) by {
        if labels_of(m, by_id, a).contains(t) {
            let d = choose|d: int|
                m.is_node(d) && #[trigger] a(d) && label_of(m.packages[d], by_id) == t;
            assert(b(d));
        }
        if labels_of(m, by_id, b).contains(t) {
            let d = choose|d: int|
                m.is_node(d) && #[trigger] b(d) && label_of(m.packages[d], by_id) == t;
            assert(a(d));
        }
    }
    assert(labels_of(m, by_id, a) =~= labels_of(m, by_id, b));
}

/// `list` holds the position `d`.
pub open spec fn holds_position(list: Seq<usize>, d: int) -> bool {
    exists|k: int| 0 <= k < list.len() && #[trigger] list[k] as int == d
}

/// The names, or the identities, of the packages at `positions`.
pub open spec fn labels_at_positions(m: GraphModel, by_id: bool, positions: Seq<usize>) -> Set<
    Seq<char>,
> {
    labels_of(m, by_id, |d: int| holds_position(positions, d))
}

/// What one position more adds to the labels.
proof fn lemma_one_label_more(m: GraphModel, by_id: bool, positions: Seq<usize>, p: usize)
    requires
        m.is_node(p as int),
    ensures
        labels_at_positions(m, by_id, positions.push(p)) == labels_at_positions(
            m,
            by_id,
            positions,
        ).insert(label_of(m.packages[p as int], by_id)),
{
    let short = positions;
    let long = positions.push(p);
    let in_short = |d: int| holds_position(short, d);
    let in_long = |d: int| holds_position(long, d);
    let from_short = labels_of(m, by_id, in_short);
    let from_long = labels_of(m, by_id, in_long);
    let label = label_of(m.packages[p as int], by_id);
    assert forall|t: Seq<char>| from_long.contains(t) <==> from_short.contains(t) || t
        == label by {
        if from_long.contains(t) {
            let d = choose|d: int|
                m.is_node(d) && #[trigger] in_long(d) && label_of(m.packages[d], by_id) == t;
            assert(holds_position(long, d));
            let x = choose|x: int| 0 <= x < long.len() && #[trigger] long[x] as int == d;
            if x < short.len() {
                assert(short[x] as int == d);
                assert(in_short(d));
            }
        }
        if from_short.contains(t) {
            let d = choose|d: int|
                m.is_node(d) && #[trigger] in_short(d) && label_of(m.packages[d], by_id) == t;
            assert(holds_position(short, d));
            let x = choose|x: int| 0 <= x < short.len() && #[trigger] short[x] as int == d;
            assert(long[x] as int == d);
            assert(in_long(d));
        }
        if t == label {
            assert(long[short.len() as int] as int == p as int);
            assert(in_long(p as int));
        }
    }
    assert(from_long =~= from_short.insert(label));
}

/// The names, or the identities, of the packages at `positions`, each once.
pub fn labels_at(graph: &Graph, positions: &Vec<usize>, by_id: bool) -> (list: Vec<String>)
    requires
        all_below(positions@, graph.spec_len()),
    ensures
        distinct_texts(list@),
        text_set(list@) == labels_at_positions(graph@, by_id, positions@),
{
    let ghost m = graph@;
    let mut list: Vec<String> = Vec::new();
    let mut k: usize = 0;
    assert(text_set(list@) =~= labels_at_positions(m, by_id, positions@.take(0)));
    while k < positions.len()
        invariant
            k <= positions.len(),
            m == graph@,
            all_below(positions@, graph.spec_len()),
            distinct_texts(list@),
            text_set(list@) == labels_at_positions(m, by_id, positions@.take(k as int)),
        decreases positions.len() - k,
    {
        let package = graph.package(positions[k]);
        if by_id {
            add_name(&mut list, &package.id);
        } else {
            add_name(&mut list, &package.name);
        }
        proof {
            assert(positions@.take(k as int + 1) == positions@.take(k as int).push(
                positions@[k as int],
            ));
            lemma_one_label_more(m, by_id, positions@.take(k as int), positions@[k as int]);
        }
        k += 1;
    }
    assert(positions@.take(k as int) == positions@);
    list
}

/// What was found out about the package `v`, if anything.
pub open spec fn finding_of(findings: Seq<Option<PackageRisk>>, v: int) -> Option<PackageRisk> {
    if 0 <= v < findings.len() {
        findings[v]
    } else {
        None
    }
}

/// The own counts of each package, as far as `findings` holds them.
pub open spec fn own_counts(findings: Seq<Option<PackageRisk>>) -> Seq<Option<Metrics>> {
    Seq::new(
        findings.len(),
        |v: int|
            match findings[v] {
                Some(f) => Some(
                    Metrics { loc: f.loc, rust_loc: f.rust_loc, unsafe_loc: f.unsafe_loc },
                ),
                None => None,
            },
    )
}

/// `v` depends on `d`, directly or not, and `d` goes by another name than `v`.
pub open spec fn depends_on_other(m: GraphModel, v: int, d: int) -> bool {
    depends_on(m, v, d) && m.packages[d].name@ != m.packages[v].name@
}

/// The record of the package `v` alone.
///
/// From the graph: name, version, repository, description and manifest
/// path of the package; the names of its direct dependencies and of its
/// transitive ones, but for its own name; the identities of the members of
/// `roots` that import it and of the packages that it alone brings in. From
/// `finding`: whether it is used, its own counts, and what the reputation
/// services said; without a finding, no counts and nothing said. The total
/// counts are `total`.
pub open spec fn described(
    g: &Graph,
    roots: Seq<usize>,
    v: int,
    finding: Option<PackageRisk>,
    total: Option<Metrics>,
) -> Risk {
    let m = g@;
    let package = m.packages[v];
    Risk {
        name: package.name@,
        versions: set![package.version@],
        repo: text_of(package.repository),
        description: text_of(package.description),
        manifest_path: package.manifest_path@,
        total_calculated: total is Some,
        internal: package.is_root,
        used: finding is Some && finding->0.used,
        direct_dependencies: labels_of(m, false, |d: int| m.link(v, d)),
        transitive_dependencies: labels_of(m, false, |d: int| depends_on_other(m, v, d)),
        root_importers: labels_of(m, true, |r: int| imports(m, roots, r, v)),
        exclusive_deps_introduced: labels_of(m, true, |d: int| is_exclusive(m, roots, v, d)),
        loc: if finding is Some {
            finding->0.loc
        } else {
            0
        },
        total_loc: if total is Some {
            total->0.loc
        } else {
            0
        },
        rust_loc: if finding is Some {
            finding->0.rust_loc
        } else {
            0
        },
        total_rust_loc: if total is Some {
            total->0.rust_loc
        } else {
            0
        },
        unsafe_loc: if finding is Some {
            finding->0.unsafe_loc
        } else {
            0
        },
        total_unsafe_loc: if total is Some {
            total->0.unsafe_loc
        } else {
            0
        },
        stargazers_count: if finding is Some {
            finding->0.stargazers_count
        } else {
            None
        },
        active_contributors: if finding is Some {
            finding->0.active_contributors
        } else {
            None
        },
        crates_io_dependent: if finding is Some {
            finding->0.crates_io_dependent
        } else {
            None
        },
        crates_io_last_updated: if finding is Some {
            text_of(finding->0.crates_io_last_updated)
        } else {
            None
        },
    }
}

/// A list that holds exactly the packages for which `member` holds names them.
proof fn lemma_listed_labels(
    m: GraphModel,
    by_id: bool,
    list: Seq<usize>,
    member: spec_fn(int) -> bool,
)
    requires
        m.packages.len() <= usize::MAX,
        lists_exactly(list, m.packages.len(), member),
    ensures
        labels_at_positions(m, by_id, list) == labels_of(m, by_id, member),
{
    let held = |d: int| holds_position(list, d);
    assert forall|d: int| m.is_node(d) implies (#[trigger] held(d) <==> #[trigger] member(d)) by {
        let x = d as usize;
        if holds_position(list, d) {
            let k = choose|k: int| 0 <= k < list.len() && #[trigger] list[k] as int == d;
            assert(list.contains(list[k]));
        }
        if member(d) {
            assert(list.contains(x));
            let k = choose|k: int| 0 <= k < list.len() && list[k] == x;
            assert(list[k] as int == d);
        }
    }
    lemma_labels_agree(m, by_id, held, member);
}

/// Those of `positions` that go by another name than `package`.
fn named_otherwise(graph: &Graph, positions: &Vec<usize>, package: usize) -> (list: Vec<usize>)
    requires
        package < graph.spec_len(),
        all_below(positions@, graph.spec_len()),
        ascending(positions@),
    ensures
        ascending(list@),
        all_below(list@, graph.spec_len()),
        forall|x: usize|
            list@.contains(x) <==> positions@.contains(x) && graph@.packages[x as int].name@
                != graph@.packages[package as int].name@,
{
    let ghost m = graph@;
    let own = graph.package(package);
    let mut list: Vec<usize> = Vec::new();
    let mut k: usize = 0;
    while k < positions.len()
        invariant
            k <= positions.len(),
            m == graph@,
            package < m.packages.len(),
            *own == m.packages[package as int],
            all_below(positions@, m.packages.len()),
            ascending(positions@),
            ascending(list@),
            all_below(list@, m.packages.len()),
            forall|j: int| 0 <= j < list.len() && k < positions.len()
                ==> #[trigger] list[j] < positions[k as int],
            forall|x: usize|
                list@.contains(x) <==> positions@.take(k as int).contains(x)
                    && m.packages[x as int].name@
                    != m.packages[package as int].name@,
        decreases positions.len() - k,
    {
        let p = positions[k];
        let ghost before = list@;
        let other = !(graph.package(p).name == own.name);
        if other {
            list.push(p);
        }
        proof {
            assert(positions@.take(k as int + 1) == positions@.take(k as int).push(p));
            assert forall|x: usize|
                list@.contains(x) <==> positions@.take(k as int + 1).contains(x)
                    && m.packages[x as int].name@ != m.packages[package as int].name@ by {
                lemma_push_contains(positions@.take(k as int), p, x);
                if other {
                    lemma_push_contains(before, p, x);
                }
            }
            assert forall|j: int| 0 <= j < list.len() && k + 1 < positions.len()
                implies #[trigger] list[j]
                < positions[k as int + 1] by {
                if j < before.len() {
                    assert(before[j] < positions[k as int]);
                }
            }
        }
        k += 1;
    }
    assert(positions@.take(k as int) == positions@);
    list
}

/// The record of the package `package` alone.
pub fn describe(
    graph: &Graph,
    roots: &Vec<usize>,
    package: usize,
    finding: &Option<PackageRisk>,
    total: Option<Metrics>,
) -> (record: PackageRisk)
    requires
        package < graph.spec_len(),
    ensures
        record.wf(),
        record@ == described(graph, roots@, package as int, *finding, total),
{
    proof {
        use_type_invariant(graph);
    }
    let ghost m = graph@;
    let node = graph.package(package);
    let direct = graph.neighbours(Direction::Forward, package);
    let all_below_it = dependencies_of(graph, package);
    let below = named_otherwise(graph, &all_below_it, package);
    let importers = get_root_importers(graph, roots, package);
    let exclusive = get_exclusive_deps(graph, roots, package);
    proof {
        graph.lemma_neighbours(package as int);
        graph.lemma_links_join_packages();
        graph.lemma_len_fits();
    }
    let direct_names = labels_at(graph, direct, false);
    let below_names = labels_at(graph, &below, false);
    let importer_ids = labels_at(graph, &importers, true);
    let exclusive_ids = labels_at(graph, &exclusive, true);
    let mut versions: Vec<String> = Vec::new();
    add_name(&mut versions, &node.version);
    let (loc, rust_loc, unsafe_loc) = match finding {
        Some(f) => (f.loc, f.rust_loc, f.unsafe_loc),
        None => (0, 0, 0),
    };
    let (total_loc, total_rust_loc, total_unsafe_loc) = match total {
        Some(t) => (t.loc, t.rust_loc, t.unsafe_loc),
        None => (0, 0, 0),
    };
    let record = PackageRisk {
        name: node.name.clone(),
        versions,
        repo: copy_text(&node.repository),
        description: copy_text(&node.description),
        manifest_path: node.manifest_path.clone(),
        total_calculated: total.is_some(),
        internal: node.is_root,
        used: match finding {
            Some(f) => f.used,
            None => false,
        },
        direct_dependencies: direct_names,
        transitive_dependencies: below_names,
        root_importers: importer_ids,
        exclusive_deps_introduced: exclusive_ids,
        loc,
        total_loc,
        rust_loc,
        total_rust_loc,
        unsafe_loc,
        total_unsafe_loc,
        stargazers_count: match finding {
            Some(f) => f.stargazers_count,
            None => None,
        },
        active_contributors: match finding {
            Some(f) => f.active_contributors,
            None => None,
        },
        crates_io_dependent: match finding {
            Some(f) => f.crates_io_dependent,
            None => None,
        },
        crates_io_last_updated: match finding {
            Some(f) => copy_text(&f.crates_io_last_updated),
            None => None,
        },
    };
    proof {
        let want = described(graph, roots@, package as int, *finding, total);
        let v = package as int;
        assert(record@.versions =~= want.versions);
        assert(record@.direct_dependencies == want.direct_dependencies) by {
            let held = |d: int| holds_position(direct@, d);
            let linked = |d: int| m.link(v, d);
            assert forall|d: int| m.is_node(d) implies (#[trigger] held(d) <==> #[trigger] linked(
                d,
            )) by {
                let x = d as usize;
                if holds_position(direct@, d) {
                    let k = choose|k: int| 0 <= k < direct@.len()
                        && #[trigger] direct@[k] as int == d;
                    assert(direct@.contains(direct@[k]));
                }
                if m.link(v, d) {
                    assert(direct@.contains(x));
                    let k = choose|k: int| 0 <= k < direct@.len() && direct@[k] == x;
                    assert(direct@[k] as int == d);
                }
            }
            lemma_labels_agree(m, false, held, linked);
        }
        assert(record@.transitive_dependencies == want.transitive_dependencies) by {
            assert(lists_exactly(below@, m.packages.len(), |d: int| depends_on_other(m, v, d)));
            lemma_listed_labels(m, false, below@, |d: int| depends_on_other(m, v, d));
        }
        assert(record@.root_importers == want.root_importers) by {
            lemma_listed_labels(m, true, importers@, |r: int| imports(m, roots@, r, v));
        }
        assert(record@.exclusive_deps_introduced == want.exclusive_deps_introduced) by {
            lemma_listed_labels(m, true, exclusive@, |d: int| is_exclusive(m, roots@, v, d));
        }
        assert(record@ =~= want);
    }
    record
}

/// What an analysis found.
#[derive(Debug)]
pub struct Analysis {
    /// The root packages that were analysed, in ascending order.
    pub roots: Vec<usize>,
    /// Their names.
    pub root_crates: Vec<String>,
    /// The names of their direct dependencies.
    pub main_dependencies: Vec<String>,
    /// The third-party packages they pull in, in ascending order.
    pub packages: Vec<usize>,
    /// The record of each of `packages` alone, in the same order.
    pub per_package: Vec<PackageRisk>,
    /// One record for each name among `packages`.
    pub records: Vec<PackageRisk>,
    /// The names under which versions were merged that disagree in a text
    /// or number, of which the record holds the first only.
    pub conflicts: Vec<String>,
}

/// `out` is what the analysis of the graph finds, given the choice of root
/// packages and what was found out about each package.
pub open spec fn is_analysis(
    g: &Graph,
    packages: Option<Vec<String>>,
    to_ignore: Option<Vec<String>>,
    findings: Seq<Option<PackageRisk>>,
    out: Analysis,
) -> bool {
    let m = g@;
    let n = g.spec_len();
    &&& lists_exactly(out.roots@, n, |v: int| is_selected(m, packages, to_ignore, v))
    &&& distinct_texts(out.root_crates@)
    &&& text_set(out.root_crates@) == labels_at_positions(m, false, out.roots@)
    &&& distinct_texts(out.main_dependencies@)
    &&& text_set(out.main_dependencies@) == labels_of(
        m,
        false,
        |d: int| is_direct_dependency(m, out.roots@, d),
    )
    &&& lists_exactly(out.packages@, n, |v: int| is_transitive_dependency(m, out.roots@, v))
    &&& out.per_package.len() == out.packages.len()
    &&& forall|i: int|
        0 <= i < out.packages.len() ==> (#[trigger] out.per_package[i]).wf() && out.per_package[i]@
            == described(
            g,
            out.roots@,
            out.packages[i] as int,
            finding_of(findings, out.packages[i] as int),
            total_of(g, own_counts(findings), out.packages[i] as int),
        )
    &&& assembled(out.per_package@, out.records@)
    &&& distinct_texts(out.conflicts@)
    &&& forall|t: Seq<char>|
        has_text(out.conflicts@, t) <==> clashed(out.per_package@, t, out.per_package.len() as nat)
}

/// Analyses the graph.
///
/// The root packages are chosen by `packages` and `to_ignore`; the work
/// fails where none is left. `findings[v]` holds what was found out about
/// the package `v`: whether it is used, its own counts, stars, contributors,
/// dependents and last update; nothing else of it is read. A package
/// without a finding has no counts of its own and therefore no total counts,
/// and neither has any package that depends on it.
pub fn analyze_repo(
    graph: &Graph,
    packages: &Option<Vec<String>>,
    to_ignore: &Option<Vec<String>>,
    findings: &Vec<Option<PackageRisk>>,
) -> (r: Result<Analysis, EmptyRootSetError>)
    ensures
        match r {
            Ok(out) => out.roots.len() > 0 && is_analysis(
                graph,
                *packages,
                *to_ignore,
                findings@,
                out,
            ),
            Err(_) => forall|v: int| !is_selected(graph@, *packages, *to_ignore, v),
        },
{
    proof {
        use_type_invariant(graph);
    }
    let ghost m = graph@;
    let roots = match select_roots(graph, packages, to_ignore) {
        Ok(roots) => roots,
        Err(e) => { return Err(e); },
    };
    let root_crates = labels_at(graph, &roots, false);
    let direct = direct_dependencies(graph, &roots);
    let main_dependencies = labels_at(graph, &direct, false);
    proof {
        graph.lemma_len_fits();
        lemma_listed_labels(m, false, direct@, |d: int| is_direct_dependency(m, roots@, d));
    }
    let closure = transitive_dependencies(graph, &roots);
    let mut own: Vec<Option<Metrics>> = Vec::new();
    let mut v: usize = 0;
    while v < findings.len()
        invariant
            v <= findings.len(),
            own.len() == v,
            forall|i: int| 0 <= i < v ==> #[trigger] own[i] == own_counts(findings@)[i],
        decreases findings.len() - v,
    {
        let counts = match &findings[v] {
            Some(f) => Some(Metrics { loc: f.loc, rust_loc: f.rust_loc, unsafe_loc: f.unsafe_loc }),
            None => None,
        };
        own.push(counts);
        v += 1;
    }
    assert(own@ =~= own_counts(findings@));
    let totals = aggregate(graph, &own);
    let nothing: Option<PackageRisk> = None;
    let mut per_package: Vec<PackageRisk> = Vec::new();
    let mut i: usize = 0;
    while i < closure.len()
        invariant
            i <= closure.len(),
            graph.wf(),
            all_below(closure@, graph.spec_len()),
            nothing is None,
            per_package.len() == i,
            totals.len() == graph.spec_len(),
            forall|x: int|
                0 <= x < totals.len() ==> #[trigger] totals[x] == total_of(
                    graph,
                    own_counts(findings@),
                    x,
                ),
            forall|j: int|
                0 <= j < i ==> (#[trigger] per_package[j]).wf() && per_package[j]@ == described(
                    graph,
                    roots@,
                    closure[j] as int,
                    finding_of(findings@, closure[j] as int),
                    total_of(graph, own_counts(findings@), closure[j] as int),
                ),
        decreases closure.len() - i,
    {
        let p = closure[i];
        let finding = if p < findings.len() {
            &findings[p]
        } else {
            &nothing
        };
        let record = describe(graph, &roots, p, finding, totals[p]);
        per_package.push(record);
        i += 1;
    }
    let (records, conflicts) = assemble(&per_package);
    let out = Analysis {
        roots,
        root_crates,
        main_dependencies,
        packages: closure,
        per_package,
        records,
        conflicts,
    };
    Ok(out)
}

/// Two ascending lists with the same members are the same list.
pub proof fn lemma_ascending_lists_agree(a: Seq<usize>, b: Seq<usize>)
    requires
        ascending(a),
        ascending(b),
        forall|x: usize| a.contains(x) <==> b.contains(x),
    ensures
        a == b,
    decreases a.len(),
{
    if a.len() == 0 {
        if b.len() > 0 {
            assert(b.contains(b[0]));
        }
        assert(a =~= b);
    } else {
        assert(a.contains(a.last()));
        let top = a.last();
        let at = choose|k: int| 0 <= k < b.len() && b[k] == top;
        assert(b.contains(b.last()));
        let back = choose|k: int| 0 <= k < a.len() && a[k] == b.last();
        assert(at == b.len() - 1);
        let a0 = a.drop_last();
        let b0 = b.drop_last();
        assert forall|x: usize| a0.contains(x) <==> b0.contains(x) by {
            if a0.contains(x) {
                let k = choose|k: int| 0 <= k < a0.len() && a0[k] == x;
                assert(a[k] == x && a.contains(x));
                let j = choose|j: int| 0 <= j < b.len() && b[j] == x;
                assert(j != b.len() - 1);
                assert(b0[j] == x);
            }
            if b0.contains(x) {
                let k = choose|k: int| 0 <= k < b0.len() && b0[k] == x;
                assert(b[k] == x && b.contains(x));
                let j = choose|j: int| 0 <= j < a.len() && a[j] == x;
                assert(j != a.len() - 1);
                assert(a0[j] == x);
            }
        }
        lemma_ascending_lists_agree(a0, b0);
        assert(a =~= a0.push(top));
        assert(b =~= b0.push(top));
    }
}

/// Two lists that hold exactly the same packages are the same list.
pub proof fn lemma_exact_lists_agree(
    a: Seq<usize>,
    b: Seq<usize>,
    n: nat,
    member: spec_fn(int) -> bool,
)
    requires
        lists_exactly(a, n, member),
        lists_exactly(b, n, member),
    ensures
        a == b,
{
    assert forall|x: usize| a.contains(x) <==> b.contains(x) by {
        if a.contains(x) {
            let k = choose|k: int| 0 <= k < a.len() && a[k] == x;
            assert(a[k] < n);
        }
        if b.contains(x) {
            let k = choose|k: int| 0 <= k < b.len() && b[k] == x;
            assert(b[k] < n);
        }
    }
    lemma_ascending_lists_agree(a, b);
}

/// Parts that are the same as mathematical values merge to the same records.
pub proof fn lemma_merged_by_value(
    a: Seq<PackageRisk>,
    b: Seq<PackageRisk>,
    name: Seq<char>,
    k: nat,
)
    requires
        a.len() == b.len(),
        forall|i: int| 0 <= i < a.len() ==> (#[trigger] a[i])@ == b[i]@,
    ensures
        merged(a, name, k) == merged(b, name, k),
    decreases k,
{
    if k > 0 && k <= a.len() {
        lemma_merged_by_value(a, b, name, (k - 1) as nat);
        assert(a[k - 1]@ == b[k - 1]@);
    }
}

/// Parts that are the same as mathematical values clash alike.
pub proof fn lemma_clashed_by_value(
    a: Seq<PackageRisk>,
    b: Seq<PackageRisk>,
    name: Seq<char>,
    k: nat,
)
    requires
        a.len() == b.len(),
        forall|i: int| 0 <= i < a.len() ==> (#[trigger] a[i])@ == b[i]@,
    ensures
        clashed(a, name, k) == clashed(b, name, k),
    decreases k,
{
    if k > 0 && k <= a.len() {
        lemma_clashed_by_value(a, b, name, (k - 1) as nat);
        lemma_merged_by_value(a, b, name, (k - 1) as nat);
        assert(a[k - 1]@ == b[k - 1]@);
    }
}

/// Every record of `a` is, as a mathematical value, a record of `b`.
pub open spec fn records_among(a: Seq<PackageRisk>, b: Seq<PackageRisk>) -> bool {
    forall|j: int| 0 <= j < a.len() ==> has_record(b, (#[trigger] a[j])@)
}

/// One of `records` is, as a mathematical value, `r`.
pub open spec fn has_record(records: Seq<PackageRisk>, r: Risk) -> bool {
    exists|k: int| 0 <= k < records.len() && (#[trigger] records[k])@ == r
}

proof fn lemma_records_among(
    parts_a: Seq<PackageRisk>,
    parts_b: Seq<PackageRisk>,
    a: Seq<PackageRisk>,
    b: Seq<PackageRisk>,
)
    requires
        parts_a.len() == parts_b.len(),
        forall|i: int| 0 <= i < parts_a.len() ==> (#[trigger] parts_a[i])@ == parts_b[i]@,
        assembled(parts_a, a),
        assembled(parts_b, b),
    ensures
        records_among(a, b),
{
    assert forall|j: int| 0 <= j < a.len() implies has_record(b, (#[trigger] a[j])@) by {
        let name = a[j].name@;
        let n = parts_a.len();
        assert(merged(parts_a, name, n) == Some(a[j]@));
        lemma_merged_by_value(parts_a, parts_b, name, n);
        lemma_merged_has_source(parts_b, name, n);
        let i = choose|i: int| 0 <= i < n && i < parts_b.len() && (#[trigger] parts_b[i]).name@
            == name;
        let k = choose|k: int|
            0 <= k < b.len() && (#[trigger] b[k]).name@ == (#[trigger] parts_b[i]).name@;
        assert(merged(parts_b, b[k].name@, n) == Some(b[k]@));
    }
}

/// Two lists of records without repeated names that hold the same records
/// are equally long.
proof fn lemma_equally_many(a: Seq<PackageRisk>, b: Seq<PackageRisk>)
    requires
        well_kept(a),
        well_kept(b),
        records_among(a, b),
        records_among(b, a),
    ensures
        a.len() == b.len(),
{
    let names_a = a.map_values(|r: PackageRisk| r.name@);
    let names_b = b.map_values(|r: PackageRisk| r.name@);
    assert(names_a.no_duplicates()) by {
        assert forall|i: int, j: int|
            0 <= i < names_a.len() && 0 <= j < names_a.len() && i != j implies names_a[i]
            != names_a[j] by {
            assert(a[i].name@ != a[j].name@);
        }
    }
    assert(names_b.no_duplicates()) by {
        assert forall|i: int, j: int|
            0 <= i < names_b.len() && 0 <= j < names_b.len() && i != j implies names_b[i]
            != names_b[j] by {
            assert(b[i].name@ != b[j].name@);
        }
    }
    names_a.unique_seq_to_set();
    names_b.unique_seq_to_set();
    assert(names_a.to_set() =~= names_b.to_set()) by {
        assert forall|t: Seq<char>| names_a.to_set().contains(t) <==> names_b.to_set().contains(
            t,
        ) by {
            if names_a.to_set().contains(t) {
                let j = choose|j: int| 0 <= j < names_a.len() && names_a[j] == t;
                assert(has_record(b, a[j]@));
                let k = choose|k: int| 0 <= k < b.len() && (#[trigger] b[k])@ == a[j]@;
                assert(names_b[k] == t);
            }
            if names_b.to_set().contains(t) {
                let j = choose|j: int| 0 <= j < names_b.len() && names_b[j] == t;
                assert(has_record(a, b[j]@));
                let k = choose|k: int| 0 <= k < a.len() && (#[trigger] a[k])@ == b[j]@;
                assert(names_a[k] == t);
            }
        }
    }
}

/// The analysis is determined by what it is given: two results for the same
/// graph, the same choice of root packages and the same findings list the
/// same root packages and the same third-party packages, describe each
/// package alike, and hold the same records, in whatever order.
pub proof fn lemma_analysis_is_determined(
    g: &Graph,
    packages: Option<Vec<String>>,
    to_ignore: Option<Vec<String>>,
    findings: Seq<Option<PackageRisk>>,
    a: Analysis,
    b: Analysis,
)
    requires
        is_analysis(g, packages, to_ignore, findings, a),
        is_analysis(g, packages, to_ignore, findings, b),
    ensures
        a.roots@ == b.roots@,
        a.packages@ == b.packages@,
        text_set(a.root_crates@) == text_set(b.root_crates@),
        text_set(a.main_dependencies@) == text_set(b.main_dependencies@),
        a.per_package.len() == b.per_package.len(),
        forall|i: int| 0 <= i < a.per_package.len() ==> (#[trigger] a.per_package[i])@
            == b.per_package[i]@,
        a.records.len() == b.records.len(),
        records_among(a.records@, b.records@),
        records_among(b.records@, a.records@),
        text_set(a.conflicts@) == text_set(b.conflicts@),
{
    let m = g@;
    let n = g.spec_len();
    lemma_exact_lists_agree(a.roots@, b.roots@, n, |v: int| is_selected(m, packages, to_ignore, v));
    lemma_exact_lists_agree(
        a.packages@,
        b.packages@,
        n,
        |v: int| is_transitive_dependency(m, a.roots@, v),
    );
    lemma_records_among(a.per_package@, b.per_package@, a.records@, b.records@);
    lemma_records_among(b.per_package@, a.per_package@, b.records@, a.records@);
    lemma_equally_many(a.records@, b.records@);
    assert forall|t: Seq<char>| has_text(a.conflicts@, t) <==> has_text(b.conflicts@, t) by {
        lemma_clashed_by_value(a.per_package@, b.per_package@, t, a.per_package.len() as nat);
    }
    assert(text_set(a.conflicts@) =~= text_set(b.conflicts@));
}

/// Where no part counts its own name among its transitive dependencies,
/// neither does what the parts give when merged.
pub proof fn lemma_merged_keeps_own_name_out(parts: Seq<PackageRisk>, name: Seq<char>, k: nat)
    requires
        forall|i: int|
            0 <= i < parts.len() ==> !(#[trigger] parts[i])@.transitive_dependencies.contains(
                parts[i]@.name,
            ),
    ensures
        merged(parts, name, k) is Some ==> !merged(
            parts,
            name,
            k,
        )->0.transitive_dependencies.contains(name),
    decreases k,
{
    if k > 0 && k <= parts.len() {
        lemma_merged_keeps_own_name_out(parts, name, (k - 1) as nat);
        assert(!parts[k - 1]@.transitive_dependencies.contains(parts[k - 1]@.name));
    }
}

/// No record of an analysis counts its own name among its transitive dependencies.
pub proof fn lemma_no_record_depends_on_itself(
    g: &Graph,
    packages: Option<Vec<String>>,
    to_ignore: Option<Vec<String>>,
    findings: Seq<Option<PackageRisk>>,
    out: Analysis,
    j: int,
)
    requires
        is_analysis(g, packages, to_ignore, findings, out),
        0 <= j < out.records.len(),
    ensures
        !out.records[j]@.transitive_dependencies.contains(out.records[j]@.name),
{
    let m = g@;
    let parts = out.per_package@;
    assert forall|i: int| 0 <= i < parts.len()
        implies !(#[trigger] parts[i])@.transitive_dependencies.contains(
    parts[i]@.name) by {
        let v = out.packages[i] as int;
        let own = parts[i]@.name;
        assert(own == m.packages[v].name@);
        if parts[i]@.transitive_dependencies.contains(own) {
            let member = |d: int| depends_on_other(m, v, d);
            let d = choose|d: int|
                m.is_node(d) && #[trigger] member(d) && label_of(m.packages[d], false) == own;
            assert(depends_on_other(m, v, d));
        }
    }
    lemma_merged_keeps_own_name_out(parts, out.records[j].name@, parts.len());
}

} // verus!
