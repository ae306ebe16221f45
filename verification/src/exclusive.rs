//! The dependencies that one package alone brings in.

use crate::graph::{Direction, Graph, GraphModel};
use crate::reach::{
    lemma_single_seed, listed, lists_exactly, no_flags, reached, FilteredView,
};
use vstd::prelude::*;

verus! {

/// `d` is reached from `p`, is neither `p` nor a root package, and is
/// reached from no member of `roots` once every edge into `p` is left out.
pub open spec fn is_exclusive(m: GraphModel, roots: Seq<usize>, p: int, d: int) -> bool {
    &&& m.is_node(d)
    &&& d != p
    &&& !m.packages[d].is_root
    &&& m.reaches(None, p, d)
    &&& !m.reaches_from(Some(p), roots, d)
}

/// The dependencies of `dependency` that only it brings in, in ascending
/// order: those that no member of `roots` reaches any more once the edges
/// into `dependency` are left out.
pub fn get_exclusive_deps(graph: &Graph, roots: &Vec<usize>, dependency: usize) -> (list: Vec<
    usize,
>)
    ensures
        lists_exactly(
            list@,
            graph.spec_len(),
            |d: int| is_exclusive(graph@, roots@, dependency as int, d),
        ),
{
    proof {
        use_type_invariant(graph);
    }
    let n = graph.len();
    let ghost m = graph@;
    let mut seeds: Vec<usize> = Vec::new();
    seeds.push(dependency);
    let below = FilteredView::whole(graph).reachable(&seeds, Direction::Forward);
    let kept = FilteredView::without_edges_into(graph, dependency).reachable(
        roots,
        Direction::Forward,
    );
    let mut flags = no_flags(n);
    let mut v: usize = 0;
    while v < n
        invariant
            v <= n,
            m == graph@,
            n == m.packages.len(),
            flags.len() == n,
            below.len() == n,
            kept.len() == n,
            forall|x: int|
                0 <= x < v ==> (#[trigger] flags[x] <==> below[x] && !kept[x] && x != dependency
                    && !m.packages[x].is_root),
            forall|x: int| v <= x < n ==> !#[trigger] flags[x],
        decreases n - v,
    {
        if below[v] && !kept[v] && v != dependency && !graph.package(v).is_root {
            flags[v] = true;
        }
        v += 1;
    }
    proof {
        assert forall|x: int| 0 <= x < n implies (#[trigger] flags[x] <==> is_exclusive(
            m,
            roots@,
            dependency as int,
            x,
        )) by {
            lemma_single_seed(m, Direction::Forward, None, seeds@, dependency, x);
            assert(reached(m, Direction::Forward, Some(dependency as int), roots@, x)
                == m.reaches_from(Some(dependency as int), roots@, x));
        }
    }
    listed(&flags)
}

/// An exclusive dependency of `p` is never `p` itself, and no path that
/// starts at a member of `roots` and avoids `p` altogether ends at it.
pub proof fn lemma_exclusive_has_no_other_way(
    m: GraphModel,
    roots: Seq<usize>,
    p: int,
    d: int,
    path: Seq<int>,
)
    requires
        is_exclusive(m, roots, p, d),
    ensures
        d != p,
        !({
            &&& m.is_path(None, path)
            &&& exists|k: int| 0 <= k < roots.len() && #[trigger] roots[k] as int == path[0]
            &&& path.last() == d
            &&& forall|i: int| 0 <= i < path.len() ==> #[trigger] path[i] != p
        }),
{
    if m.is_path(None, path) && (exists|k: int|
        0 <= k < roots.len() && #[trigger] roots[k] as int == path[0]) && path.last() == d && (
    forall|i: int| 0 <= i < path.len() ==> #[trigger] path[i] != p) {
        assert forall|i: int| 0 <= i < path.len() - 1 implies m.step(
            Direction::Forward,
            Some(p),
            #[trigger] path[i],
            path[i + 1],
        ) by {
            assert(m.step(Direction::Forward, None, path[i], path[i + 1]));
            assert(path[i + 1] != p);
        }
        assert(m.is_walk(Direction::Forward, Some(p), path));
        let k = choose|k: int| 0 <= k < roots.len() && #[trigger] roots[k] as int == path[0];
        assert(m.reaches(Some(p), roots[k] as int, d));
        assert(m.reaches_from(Some(p), roots, d));
    }
}

} // verus!
