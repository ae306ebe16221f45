//! Reachability over the edges that are not dev-only: the traversal, the
//! direct and transitive dependencies of the roots, and the roots that
//! import a package.

use crate::graph::{all_below, ascending, lemma_push_contains, Direction, Graph, GraphModel};
use vstd::prelude::*;

verus! {

/// A read-only view of a graph in which every edge into one package may be
/// left out. The graph itself is never changed.
pub struct FilteredView<'a> {
    pub graph: &'a Graph,
    /// The package whose incoming edges are left out, if any.
    pub cut: Option<usize>,
}

pub open spec fn cut_of(cut: Option<usize>) -> Option<int> {
    match cut {
        Some(c) => Some(c as int),
        None => None,
    }
}

/// Some member of `seeds` walks to `v` in the given direction.
pub open spec fn reached(
    m: GraphModel,
    dir: Direction,
    cut: Option<int>,
    seeds: Seq<usize>,
    v: int,
) -> bool {
    exists|k: int| 0 <= k < seeds.len() && m.walks_to(dir, cut, #[trigger] seeds[k] as int, v)
}

/// `flags` marks exactly the packages for which `member` holds.
pub open spec fn marks(flags: Seq<bool>, n: nat, member: spec_fn(int) -> bool) -> bool {
    &&& flags.len() == n
    &&& forall|v: int| 0 <= v < n ==> (#[trigger] flags[v] <==> member(v))
}

/// `list` holds, in ascending order, exactly the packages for which `member` holds.
pub open spec fn lists_exactly(list: Seq<usize>, n: nat, member: spec_fn(int) -> bool) -> bool {
    &&& ascending(list)
    &&& all_below(list, n)
    &&& forall|v: usize| v < n ==> (#[trigger] list.contains(v) <==> member(v as int))
}

/// A walk grows by one step at its end.
pub proof fn lemma_walk_extend(
    m: GraphModel,
    dir: Direction,
    cut: Option<int>,
    u: int,
    v: int,
    w: int,
)
    requires
        m.walks_to(dir, cut, u, v),
        m.step(dir, cut, v, w),
        m.is_node(w),
    ensures
        m.walks_to(dir, cut, u, w),
{
    let p = choose|p: Seq<int>| #[trigger] m.is_walk(dir, cut, p) && p[0] == u && p.last() == v;
    let q = p.push(w);
    assert forall|i: int| 0 <= i < q.len() - 1
        implies m.step(dir, cut, #[trigger] q[i], q[i + 1]) by {
        if i < p.len() - 1 {
            assert(q[i] == p[i] && q[i + 1] == p[i + 1]);
        }
    }
    assert forall|i: int| 0 <= i < q.len() implies m.is_node(#[trigger] q[i]) by {
        if i < p.len() {
            assert(q[i] == p[i]);
        }
    }
    assert(m.is_walk(dir, cut, q) && q[0] == u && q.last() == w);
}

/// Every package walks to itself.
pub proof fn lemma_walk_self(m: GraphModel, dir: Direction, cut: Option<int>, u: int)
    requires
        m.is_node(u),
    ensures
        m.walks_to(dir, cut, u, u),
{
    let p = seq![u];
    assert(m.is_walk(dir, cut, p) && p[0] == u && p.last() == u);
}

/// A walk read backwards is a walk in the other direction.
pub proof fn lemma_walk_reverse(m: GraphModel, cut: Option<int>, u: int, v: int)
    ensures
        m.walks_to(Direction::Reverse, cut, u, v) <==> m.walks_to(Direction::Forward, cut, v, u),
{
    if m.walks_to(Direction::Reverse, cut, u, v) {
        let p = choose|p: Seq<int>| #[trigger]
            m.is_walk(Direction::Reverse, cut, p) && p[0] == u && p.last() == v;
        let q = p.reverse();
        assert forall|i: int| 0 <= i < q.len() - 1 implies m.step(
            Direction::Forward,
            cut,
            #[trigger] q[i],
            q[i + 1],
        ) by {
            let j = p.len() - 2 - i;
            assert(q[i] == p[j + 1] && q[i + 1] == p[j]);
            assert(m.step(Direction::Reverse, cut, p[j], p[j + 1]));
        }
        assert(m.is_walk(Direction::Forward, cut, q) && q[0] == v && q.last() == u);
    }
    if m.walks_to(Direction::Forward, cut, v, u) {
        let p = choose|p: Seq<int>| #[trigger]
            m.is_walk(Direction::Forward, cut, p) && p[0] == v && p.last() == u;
        let q = p.reverse();
        assert forall|i: int| 0 <= i < q.len() - 1 implies m.step(
            Direction::Reverse,
            cut,
            #[trigger] q[i],
            q[i + 1],
        ) by {
            let j = p.len() - 2 - i;
            assert(q[i] == p[j + 1] && q[i + 1] == p[j]);
            assert(m.step(Direction::Forward, cut, p[j], p[j + 1]));
        }
        assert(m.is_walk(Direction::Reverse, cut, q) && q[0] == u && q.last() == v);
    }
}

/// A list of distinct packages is no longer than the package list.
pub proof fn lemma_distinct_is_short(list: Seq<usize>, n: nat)
    requires
        list.no_duplicates(),
        all_below(list, n),
    ensures
        list.len() <= n,
{
    let ints = list.map_values(|x: usize| x as int);
    assert forall|i: int, j: int| 0 <= i < ints.len() && 0 <= j < ints.len() && i != j
        implies ints[i]
        != ints[j] by {
        assert(list[i] != list[j]);
    }
    ints.unique_seq_to_set();
    vstd::set_lib::lemma_int_range(0, n as int);
    assert(ints.to_set().subset_of(vstd::set_lib::set_int_range(0, n as int))) by {
        assert forall|x: int| ints.to_set().contains(x) implies 0 <= x < n by {
            let k = choose|k: int| 0 <= k < ints.len() && ints[k] == x;
            assert(list[k] < n);
        }
    }
    vstd::set_lib::lemma_len_subset(ints.to_set(), vstd::set_lib::set_int_range(0, n as int));
}

/// A set of packages that holds the start of a walk and is closed under
/// steps holds the end of the walk.
proof fn lemma_closed_holds_walk(
    m: GraphModel,
    dir: Direction,
    cut: Option<int>,
    flags: Seq<bool>,
    p: Seq<int>,
    i: int,
)
    requires
        m.is_walk(dir, cut, p),
        flags.len() == m.packages.len(),
        flags[p[0]],
        forall|a: int, b: int|
            m.is_node(a) && m.is_node(b) && flags[a] && #[trigger] m.step(dir, cut, a, b)
                ==> flags[b],
        0 <= i < p.len(),
    ensures
        flags[p[i]],
    decreases i,
{
    if i > 0 {
        lemma_closed_holds_walk(m, dir, cut, flags, p, i - 1);
        assert(m.step(dir, cut, p[i - 1], p[i - 1 + 1]));
        assert(m.is_node(p[i - 1]) && m.is_node(p[i]));
    }
}

/// Marking a package that was not marked and appending it to the list of
/// marked packages keeps the two in step.
proof fn lemma_grow(order: Seq<usize>, flags: Seq<bool>, x: usize, n: nat)
    requires
        flags.len() == n,
        x < n,
        !flags[x as int],
        order.no_duplicates(),
        all_below(order, n),
        forall|v: usize| v < n ==> (#[trigger] order.contains(v) <==> flags[v as int]),
    ensures
        order.push(x).no_duplicates(),
        all_below(order.push(x), n),
        forall|v: usize|
            v < n ==> (#[trigger] order.push(x).contains(v)
                <==> flags.update(x as int, true)[v as int]),
{
    assert(!order.contains(x));
    assert forall|v: usize| v < n implies (#[trigger] order.push(x).contains(v) <==> flags.update(
        x as int,
        true,
    )[v as int]) by {
        lemma_push_contains(order, x, v);
        assert(order.contains(v) <==> flags[v as int]);
    }
}

/// `n` flags, none of them set.
pub fn no_flags(n: usize) -> (flags: Vec<bool>)
    ensures
        flags.len() == n,
        forall|v: int| 0 <= v < n ==> !#[trigger] flags[v],
{
    let mut flags: Vec<bool> = Vec::new();
    let mut i: usize = 0;
    while i < n
        invariant
            i <= n,
            flags.len() == i,
            forall|v: int| 0 <= v < i ==> !#[trigger] flags[v],
        decreases n - i,
    {
        flags.push(false);
        i += 1;
    }
    flags
}

/// Flags for the members of `list` that are packages of a graph with `n` packages.
pub fn flags_of(list: &Vec<usize>, n: usize) -> (flags: Vec<bool>)
    ensures
        flags.len() == n,
        forall|v: usize| v < n ==> (#[trigger] flags[v as int] <==> list@.contains(v)),
{
    let mut flags = no_flags(n);
    let mut k: usize = 0;
    while k < list.len()
        invariant
            k <= list.len(),
            flags.len() == n,
            forall|v: usize|
                v < n ==> (#[trigger] flags[v as int] <==> list@.take(k as int).contains(v)),
        decreases list.len() - k,
    {
        let x = list[k];
        proof {
            assert(list@.take(k as int + 1) == list@.take(k as int).push(x));
            assert forall|v: usize|
                list@.take(k as int + 1).contains(v) <==> list@.take(k as int).contains(v) || v
                    == x by {
                lemma_push_contains(list@.take(k as int), x, v);
            }
        }
        if x < n {
            flags[x] = true;
        }
        k += 1;
    }
    assert(list@.take(k as int) == list@);
    flags
}

/// The set flags, as an ascending list of positions.
pub fn listed(flags: &Vec<bool>) -> (list: Vec<usize>)
    ensures
        lists_exactly(list@, flags.len() as nat, |v: int| flags[v]),
{
    let mut list: Vec<usize> = Vec::new();
    let mut v: usize = 0;
    while v < flags.len()
        invariant
            v <= flags.len(),
            ascending(list@),
            all_below(list@, v as nat),
            forall|x: usize| x < v ==> (#[trigger] list@.contains(x) <==> flags[x as int]),
        decreases flags.len() - v,
    {
        let ghost before = list@;
        proof {
            if before.contains(v) {
                let k = choose|k: int| 0 <= k < before.len() && before[k] == v;
                assert(before[k] < v);
            }
        }
        if flags[v] {
            list.push(v);
        }
        proof {
            assert forall|x: usize| x < v + 1 implies (#[trigger] list@.contains(x)
                <==> flags[x as int]) by {
                if flags[v as int] {
                    lemma_push_contains(before, v, x);
                }
                assert(before.contains(x) <==> x < v && flags[x as int]);
            }
        }
        v += 1;
    }
    proof {
        assert forall|x: usize| x < flags.len() implies (#[trigger] list@.contains(x) <==> (|
            v: int,
        | flags[v])(x as int)) by {}
    }
    list
}

impl<'a> FilteredView<'a> {
    /// The view that leaves nothing out.
    pub fn whole(graph: &'a Graph) -> (view: Self)
        ensures
            view.graph == graph,
            view.cut.is_none(),
    {
        FilteredView { graph, cut: None }
    }

    /// The view in which every edge into `package` is left out.
    pub fn without_edges_into(graph: &'a Graph, package: usize) -> (view: Self)
        ensures
            view.graph == graph,
            view.cut == Some(package),
    {
        FilteredView { graph, cut: Some(package) }
    }

    /// Marks every package to which some member of `seeds` walks in the given
    /// direction. Members of `seeds` that are no packages are passed over.
    pub fn reachable(&self, seeds: &Vec<usize>, dir: Direction) -> (flags: Vec<bool>)
        ensures
            marks(
                flags@,
                self.graph.spec_len(),
                |v: int| reached(self.graph@, dir, cut_of(self.cut), seeds@, v),
            ),
    {
        let graph = self.graph;
        proof {
            use_type_invariant(graph);
        }
        let n = graph.len();
        let ghost m = graph@;
        let ghost cut = cut_of(self.cut);
        let mut flags = no_flags(n);
        let mut order: Vec<usize> = Vec::new();
        let mut k: usize = 0;
        while k < seeds.len()
            invariant
                k <= seeds.len(),
                n == m.packages.len(),
                flags.len() == n,
                order@.no_duplicates(),
                all_below(order@, n as nat),
                forall|v: usize| v < n ==> (#[trigger] order@.contains(v) <==> flags[v as int]),
                forall|v: int| 0 <= v < n && #[trigger] flags[v]
                    ==> reached(m, dir, cut, seeds@, v),
                forall|j: int| 0 <= j < k && seeds[j] < n ==> flags[#[trigger] seeds[j] as int],
            decreases seeds.len() - k,
        {
            let s = seeds[k];
            if s < n && !flags[s] {
                let ghost before = order@;
                let ghost marked = flags@;
                flags[s] = true;
                order.push(s);
                proof {
                    lemma_walk_self(m, dir, cut, s as int);
                    lemma_grow(before, marked, s, n as nat);
                }
            }
            k += 1;
        }
        proof {
            lemma_distinct_is_short(order@, n as nat);
        }
        let mut head: usize = 0;
        while head < order.len()
            invariant
                head <= order.len(),
                order.len() <= n,
                graph.wf(),
                m == graph@,
                cut == cut_of(self.cut),
                n == m.packages.len(),
                flags.len() == n,
                order@.no_duplicates(),
                all_below(order@, n as nat),
                forall|v: usize| v < n ==> (#[trigger] order@.contains(v) <==> flags[v as int]),
                forall|v: int| 0 <= v < n && #[trigger] flags[v]
                    ==> reached(m, dir, cut, seeds@, v),
                forall|j: int|
                    0 <= j < seeds.len() && seeds[j] < n ==> flags[#[trigger] seeds[j] as int],
                forall|i: int, w: int|
                    0 <= i < head && m.is_node(w) && #[trigger] m.step(
                        dir,
                        cut,
                        order[i] as int,
                        w,
                    ) ==> flags[w],
            decreases n - head,
        {
            let u = order[head];
            let list = graph.neighbours(dir, u);
            let closed = match (dir, self.cut) {
                (Direction::Reverse, Some(c)) => c == u,
                _ => false,
            };
            proof {
                graph.lemma_neighbours(u as int);
                assert(order@.contains(u));
            }
            let mut j: usize = 0;
            while j < list.len() && !closed
                invariant
                    j <= list.len(),
                    head < order.len(),
                    u == order[head as int],
                    u < n,
                    graph.wf(),
                    m == graph@,
                    cut == cut_of(self.cut),
                    closed <==> (dir == Direction::Reverse && cut == Some(u as int)),
                    flags[u as int],
                    list@ == graph.spec_neighbours(dir, u as int),
                    all_below(list@, n as nat),
                    n == m.packages.len(),
                    flags.len() == n,
                    order@.no_duplicates(),
                    all_below(order@, n as nat),
                    forall|v: usize| v < n ==> (#[trigger] order@.contains(v) <==> flags[v as int]),
                    forall|v: int|
                        0 <= v < n && #[trigger] flags[v] ==> reached(m, dir, cut, seeds@, v),
                    forall|j: int|
                        0 <= j < seeds.len() && seeds[j] < n ==> flags[#[trigger] seeds[j] as int],
                    forall|i: int, w: int|
                        0 <= i < head && m.is_node(w) && #[trigger] m.step(
                            dir,
                            cut,
                            order[i] as int,
                            w,
                        ) ==> flags[w],
                    forall|i: int|
                        0 <= i < j && m.step(dir, cut, u as int, #[trigger] list[i] as int)
                            ==> flags[list[i] as int],
                decreases list.len() - j,
            {
                let w = list[j];
                let skipped = match (dir, self.cut) {
                    (Direction::Forward, Some(c)) => c == w,
                    _ => false,
                };
                proof {
                    graph.lemma_neighbours(u as int);
                    assert(list@.contains(w));
                }
                if !skipped && !flags[w] {
                    let ghost before = order@;
                    let ghost marked = flags@;
                    flags[w] = true;
                    order.push(w);
                    proof {
                        assert(m.step(dir, cut, u as int, w as int));
                        assert(reached(m, dir, cut, seeds@, u as int));
                        let s = choose|s: int|
                            0 <= s < seeds@.len() && m.walks_to(
                                dir,
                                cut,
                                #[trigger] seeds@[s] as int,
                                u as int,
                            );
                        lemma_walk_extend(m, dir, cut, seeds@[s] as int, u as int, w as int);
                        lemma_grow(before, marked, w, n as nat);
                        assert forall|i: int| 0 <= i <= head implies order@[i] == before[i] by {}
                    }
                }
                j += 1;
            }
            proof {
                graph.lemma_neighbours(u as int);
                assert forall|w: int| m.is_node(w) && #[trigger] m.step(
                    dir,
                    cut,
                    u as int,
                    w,
                ) implies flags[w] by {
                    assert(list@.contains(w as usize));
                    let i = choose|i: int| 0 <= i < list@.len() && list@[i] == w as usize;
                    assert(m.step(dir, cut, u as int, list[i] as int));
                }
                lemma_distinct_is_short(order@, n as nat);
            }
            head += 1;
        }
        proof {
            assert forall|v: int| 0 <= v < n && reached(m, dir, cut, seeds@, v)
                implies flags[v] by {
                let s = choose|s: int|
                    0 <= s < seeds@.len() && m.walks_to(dir, cut, #[trigger] seeds@[s] as int, v);
                let p = choose|p: Seq<int>| #[trigger]
                    m.is_walk(dir, cut, p) && p[0] == seeds@[s] as int && p.last() == v;
                assert(m.is_node(p[0]));
                assert forall|a: int, b: int|
                    m.is_node(a) && m.is_node(b) && flags@[a] && #[trigger] m.step(
                        dir,
                        cut,
                        a,
                        b,
                    ) implies flags@[b] by {
                    assert(order@.contains(a as usize));
                    let i = choose|i: int| 0 <= i < order@.len() && order@[i] == a as usize;
                    assert(m.step(dir, cut, order[i] as int, b));
                }
                lemma_closed_holds_walk(m, dir, cut, flags@, p, p.len() - 1);
            }
        }
        flags
    }
}

/// `d` is the target of an edge that is not dev-only and leaves a member of `roots`.
pub open spec fn is_direct_dependency(m: GraphModel, roots: Seq<usize>, d: int) -> bool {
    exists|k: int| 0 <= k < roots.len() && m.link(#[trigger] roots[k] as int, d)
}

/// `v` is no root package and can be reached from a direct dependency of `roots`.
pub open spec fn is_transitive_dependency(m: GraphModel, roots: Seq<usize>, v: int) -> bool {
    &&& m.is_node(v)
    &&& !m.packages[v].is_root
    &&& exists|d: int| #[trigger] is_direct_dependency(m, roots, d) && m.reaches(None, d, v)
}

/// `v` is another package than `p`, no root package, and can be reached from `p`.
pub open spec fn depends_on(m: GraphModel, p: int, v: int) -> bool {
    &&& m.is_node(v)
    &&& v != p
    &&& !m.packages[v].is_root
    &&& m.reaches(None, p, v)
}

/// `r` is a member of `roots` from which the package `p`, itself no root
/// package, can be reached.
pub open spec fn imports(m: GraphModel, roots: Seq<usize>, r: int, p: int) -> bool {
    &&& exists|k: int| 0 <= k < roots.len() && #[trigger] roots[k] as int == r
    &&& m.is_node(p)
    &&& !m.packages[p].is_root
    &&& m.reaches(None, r, p)
}

/// The direct dependencies of the roots `roots`, in ascending order.
pub fn direct_dependencies(graph: &Graph, roots: &Vec<usize>) -> (list: Vec<usize>)
    ensures
        lists_exactly(
            list@,
            graph.spec_len(),
            |d: int| is_direct_dependency(graph@, roots@, d),
        ),
{
    proof {
        use_type_invariant(graph);
    }
    let flags = direct_flags(graph, roots);
    listed(&flags)
}

fn direct_flags(graph: &Graph, roots: &Vec<usize>) -> (flags: Vec<bool>)
    ensures
        marks(flags@, graph.spec_len(), |d: int| is_direct_dependency(graph@, roots@, d)),
{
    proof {
        use_type_invariant(graph);
    }
    let n = graph.len();
    let ghost m = graph@;
    let mut flags = no_flags(n);
    let mut k: usize = 0;
    while k < roots.len()
        invariant
            k <= roots.len(),
            graph.wf(),
            m == graph@,
            n == m.packages.len(),
            flags.len() == n,
            forall|d: int|
                0 <= d < n ==> (#[trigger] flags[d] <==> is_direct_dependency(
                    m,
                    roots@.take(k as int),
                    d,
                )),
        decreases roots.len() - k,
    {
        let r = roots[k];
        let ghost start = flags@;
        if r < n {
            let list = graph.neighbours(Direction::Forward, r);
            let mut j: usize = 0;
            while j < list.len()
                invariant
                    j <= list.len(),
                    r < n,
                    graph.wf(),
                    m == graph@,
                    n == m.packages.len(),
                    flags.len() == n,
                    list@ == graph.successors(r as int),
                    forall|d: int|
                        0 <= d < n ==> (#[trigger] flags[d] <==> start[d] || list@.take(
                            j as int,
                        ).contains(d as usize)),
                decreases list.len() - j,
            {
                let d = list[j];
                proof {
                    graph.lemma_neighbours(r as int);
                    assert(list@.take(j as int + 1) == list@.take(j as int).push(d));
                    assert forall|x: usize|
                        list@.take(j as int + 1).contains(x) <==> list@.take(j as int).contains(x)
                            || x == d by {
                        lemma_push_contains(list@.take(j as int), d, x);
                    }
                }
                flags[d] = true;
                j += 1;
            }
            assert(list@.take(j as int) == list@);
        }
        proof {
            let before = roots@.take(k as int);
            let after = roots@.take(k as int + 1);
            assert(after == before.push(r));
            assert forall|d: int| 0 <= d < n implies (#[trigger] flags[d] <==> is_direct_dependency(
                m,
                after,
                d,
            )) by {
                if r < n {
                    graph.lemma_neighbours(r as int);
                    assert(graph.successors(r as int).contains(d as usize) <==> m.link(
                        r as int,
                        d,
                    ));
                } else {
                    graph.lemma_links_join_packages();
                    assert(!m.link(r as int, d));
                }
                if is_direct_dependency(m, before, d) {
                    let i = choose|i: int|
                        0 <= i < before.len() && m.link(#[trigger] before[i] as int, d);
                    assert(after[i] == before[i]);
                }
                if m.link(r as int, d) {
                    assert(after[k as int] == r);
                }
                if is_direct_dependency(m, after, d) {
                    let i = choose|i: int|
                        0 <= i < after.len() && m.link(#[trigger] after[i] as int, d);
                    if i < k {
                        assert(before[i] == after[i]);
                    }
                }
            }
        }
        k += 1;
    }
    assert(roots@.take(k as int) == roots@);
    flags
}

/// Marks the packages that are no root packages and can be reached from a
/// direct dependency of `roots`.
pub fn transitive_flags(graph: &Graph, roots: &Vec<usize>) -> (flags: Vec<bool>)
    ensures
        marks(flags@, graph.spec_len(), |v: int| is_transitive_dependency(graph@, roots@, v)),
{
    proof {
        use_type_invariant(graph);
    }
    let n = graph.len();
    let ghost m = graph@;
    let direct = direct_dependencies(graph, roots);
    let found = FilteredView::whole(graph).reachable(&direct, Direction::Forward);
    let mut flags = no_flags(n);
    let mut v: usize = 0;
    while v < n
        invariant
            v <= n,
            graph.wf(),
            m == graph@,
            n == m.packages.len(),
            flags.len() == n,
            found.len() == n,
            forall|x: int|
                0 <= x < v ==> (#[trigger] flags[x] <==> found[x] && !m.packages[x].is_root),
            forall|x: int| v <= x < n ==> !#[trigger] flags[x],
        decreases n - v,
    {
        if found[v] && !graph.package(v).is_root {
            flags[v] = true;
        }
        v += 1;
    }
    proof {
        assert forall|x: int| 0 <= x < n implies (#[trigger] flags[x] <==> is_transitive_dependency(
            m,
            roots@,
            x,
        )) by {
            if reached(m, Direction::Forward, None, direct@, x) {
                let k = choose|k: int|
                    0 <= k < direct@.len() && m.walks_to(
                        Direction::Forward,
                        None,
                        #[trigger] direct@[k] as int,
                        x,
                    );
                assert(direct@.contains(direct@[k]));
                assert(is_direct_dependency(m, roots@, direct@[k] as int));
            }
            if is_transitive_dependency(m, roots@, x) {
                let d = choose|d: int| #[trigger]
                    is_direct_dependency(m, roots@, d) && m.reaches(None, d, x);
                graph.lemma_links_join_packages();
                assert(direct@.contains(d as usize));
                let k = choose|k: int| 0 <= k < direct@.len() && direct@[k] == d as usize;
                assert(m.walks_to(Direction::Forward, None, direct@[k] as int, x));
            }
        }
    }
    flags
}

/// The transitive dependencies of the roots `roots`, in ascending order:
/// the third-party packages that the roots pull in.
pub fn transitive_dependencies(graph: &Graph, roots: &Vec<usize>) -> (list: Vec<usize>)
    ensures
        lists_exactly(
            list@,
            graph.spec_len(),
            |v: int| is_transitive_dependency(graph@, roots@, v),
        ),
{
    proof {
        use_type_invariant(graph);
    }
    let flags = transitive_flags(graph, roots);
    listed(&flags)
}

/// The packages on which `package` depends, directly or not, in ascending
/// order; neither `package` itself nor a root package is among them.
pub fn dependencies_of(graph: &Graph, package: usize) -> (list: Vec<usize>)
    ensures
        lists_exactly(list@, graph.spec_len(), |v: int| depends_on(graph@, package as int, v)),
{
    proof {
        use_type_invariant(graph);
    }
    let n = graph.len();
    let ghost m = graph@;
    let mut seeds: Vec<usize> = Vec::new();
    seeds.push(package);
    let found = FilteredView::whole(graph).reachable(&seeds, Direction::Forward);
    let mut flags = no_flags(n);
    let mut v: usize = 0;
    while v < n
        invariant
            v <= n,
            graph.wf(),
            m == graph@,
            n == m.packages.len(),
            flags.len() == n,
            found.len() == n,
            forall|x: int|
                0 <= x < v ==> (#[trigger] flags[x] <==> found[x] && x != package
                    && !m.packages[x].is_root),
            forall|x: int| v <= x < n ==> !#[trigger] flags[x],
        decreases n - v,
    {
        if found[v] && v != package && !graph.package(v).is_root {
            flags[v] = true;
        }
        v += 1;
    }
    proof {
        assert forall|x: int| 0 <= x < n implies (#[trigger] flags[x] <==> depends_on(
            m,
            package as int,
            x,
        )) by {
            lemma_single_seed(m, Direction::Forward, None, seeds@, package, x);
        }
    }
    listed(&flags)
}

/// What a single seed reaches.
pub proof fn lemma_single_seed(
    m: GraphModel,
    dir: Direction,
    cut: Option<int>,
    seeds: Seq<usize>,
    s: usize,
    v: int,
)
    requires
        seeds == seq![s],
    ensures
        reached(m, dir, cut, seeds, v) <==> m.walks_to(dir, cut, s as int, v),
{
    if m.walks_to(dir, cut, s as int, v) {
        assert(seeds[0] == s);
    }
}

/// The members of `roots` that import `dependency`, in ascending order:
/// those from which it can be reached. A root package has no importers.
pub fn get_root_importers(graph: &Graph, roots: &Vec<usize>, dependency: usize) -> (list: Vec<
    usize,
>)
    ensures
        lists_exactly(
            list@,
            graph.spec_len(),
            |r: int| imports(graph@, roots@, r, dependency as int),
        ),
{
    proof {
        use_type_invariant(graph);
    }
    let n = graph.len();
    let ghost m = graph@;
    let mut flags = no_flags(n);
    if dependency < n && !graph.package(dependency).is_root {
        let mut seeds: Vec<usize> = Vec::new();
        seeds.push(dependency);
        let found = FilteredView::whole(graph).reachable(&seeds, Direction::Reverse);
        let chosen = flags_of(roots, n);
        let mut v: usize = 0;
        while v < n
            invariant
                v <= n,
                n == m.packages.len(),
                flags.len() == n,
                found.len() == n,
                chosen.len() == n,
                forall|x: int| 0 <= x < v ==> (#[trigger] flags[x] <==> found[x] && chosen[x]),
                forall|x: int| v <= x < n ==> !#[trigger] flags[x],
            decreases n - v,
        {
            if found[v] && chosen[v] {
                flags[v] = true;
            }
            v += 1;
        }
        proof {
            assert forall|x: int| 0 <= x < n implies (#[trigger] flags[x] <==> imports(
                m,
                roots@,
                x,
                dependency as int,
            )) by {
                lemma_single_seed(m, Direction::Reverse, None, seeds@, dependency, x);
                lemma_walk_reverse(m, None, dependency as int, x);
                assert(chosen[x] <==> roots@.contains(x as usize));
                if roots@.contains(x as usize) {
                    let k = choose|k: int| 0 <= k < roots@.len() && roots@[k] == x as usize;
                    assert(roots@[k] as int == x);
                }
            }
        }
    }
    listed(&flags)
}

/// A member of `roots` imports a package that is no root package exactly
/// if a path of edges that are not dev-only leads from it to the package.
pub proof fn lemma_importers_are_the_roots_with_a_path(
    m: GraphModel,
    roots: Seq<usize>,
    r: usize,
    p: int,
)
    requires
        roots.contains(r),
        m.is_node(p),
        !m.packages[p].is_root,
    ensures
        imports(m, roots, r as int, p) <==> exists|path: Seq<int>| #[trigger]
            m.is_path(None, path) && path[0] == r as int && path.last() == p,
{
    let k = choose|k: int| 0 <= k < roots.len() && roots[k] == r;
    assert(roots[k] as int == r as int);
    if m.reaches(None, r as int, p) {
        let path = choose|path: Seq<int>| #[trigger]
            m.is_walk(Direction::Forward, None, path) && path[0] == r as int && path.last() == p;
        assert(m.is_path(None, path));
    }
    if exists|path: Seq<int>| #[trigger]
        m.is_path(None, path) && path[0] == r as int && path.last() == p {
        let path = choose|path: Seq<int>| #[trigger]
            m.is_path(None, path) && path[0] == r as int && path.last() == p;
        assert(m.is_walk(Direction::Forward, None, path));
    }
}

} // verus!
