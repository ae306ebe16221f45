//! The resolved dependency graph: packages, the edges between them, and what
//! it means for one package to reach another.
//!
//! A graph is built once from the flat lists a resolver hands over and is
//! read-only afterwards. Packages are addressed by their position in the
//! package list; the identity strings of the resolver are kept with each
//! package and are resolved to positions when the graph is built.

use vstd::prelude::*;

verus! {

/// Why one package depends on another.
#[derive(Clone, Copy, Debug, PartialEq, Eq, Structural)]
pub enum EdgeKind {
    Normal,
    Build,
    Dev,
}

/// A package as the resolver reported it.
#[derive(Clone, Debug)]
pub struct PackageNode {
    /// Opaque unique key of the package.
    pub id: String,
    pub name: String,
    pub version: String,
    pub description: Option<String>,
    pub repository: Option<String>,
    pub manifest_path: String,
    /// The package belongs to the project under analysis.
    pub is_root: bool,
}

/// A dependency as the resolver reported it, both ends named by identity.
#[derive(Clone, Debug)]
pub struct DependencyEdge {
    pub from: String,
    pub to: String,
    pub kind: EdgeKind,
}

/// A dependency whose ends are positions in the package list.
#[derive(Clone, Copy, Debug)]
pub struct Link {
    pub from: usize,
    pub to: usize,
    pub kind: EdgeKind,
}

/// An edge names a package that is not in the package list.
#[derive(Debug)]
pub struct MalformedGraphError {
    /// Position of the first such edge in the edge list.
    pub edge: usize,
}

/// Direction in which edges are followed.
#[derive(Clone, Copy, Debug, PartialEq, Eq, Structural)]
pub enum Direction {
    /// From a package to what it depends on.
    Forward,
    /// From a package to what depends on it.
    Reverse,
}

/// The mathematical content of a graph.
pub ghost struct GraphModel {
    pub packages: Seq<PackageNode>,
    pub links: Seq<Link>,
}

impl GraphModel {
    pub open spec fn is_node(self, u: int) -> bool {
        0 <= u < self.packages.len()
    }

    /// Some edge that is not dev-only leads from `u` to `v`.
    pub open spec fn link(self, u: int, v: int) -> bool {
        exists|e: int|
            0 <= e < self.links.len() && (#[trigger] self.links[e]).from == u && self.links[e].to
                == v && self.links[e].kind != EdgeKind::Dev
    }

    /// `link`, in the view of the graph in which every edge into `cut` is removed.
    pub open spec fn link_without(self, cut: Option<int>, u: int, v: int) -> bool {
        self.link(u, v) && cut != Some(v)
    }

    /// One step of a traversal from `a` to `b` in the given direction.
    pub open spec fn step(self, dir: Direction, cut: Option<int>, a: int, b: int) -> bool {
        match dir {
            Direction::Forward => self.link_without(cut, a, b),
            Direction::Reverse => self.link_without(cut, b, a),
        }
    }

    /// `p` is a walk along steps of the given direction; a single package is a walk.
    pub open spec fn is_walk(self, dir: Direction, cut: Option<int>, p: Seq<int>) -> bool {
        &&& p.len() > 0
        &&& forall|i: int| 0 <= i < p.len() ==> self.is_node(#[trigger] p[i])
        &&& forall|i: int|
            0 <= i < p.len() - 1 ==> self.step(dir, cut, #[trigger] p[i], p[i + 1])
    }

    pub open spec fn walks_to(self, dir: Direction, cut: Option<int>, u: int, v: int) -> bool {
        exists|p: Seq<int>| #[trigger] self.is_walk(dir, cut, p) && p[0] == u && p.last() == v
    }

    /// `p` is a path of edges that are not dev-only and do not lead into `cut`.
    pub open spec fn is_path(self, cut: Option<int>, p: Seq<int>) -> bool {
        self.is_walk(Direction::Forward, cut, p)
    }

    /// `v` can be reached from `u` (every package reaches itself).
    pub open spec fn reaches(self, cut: Option<int>, u: int, v: int) -> bool {
        self.walks_to(Direction::Forward, cut, u, v)
    }

    /// `v` can be reached from some member of `seeds`.
    pub open spec fn reaches_from(self, cut: Option<int>, seeds: Seq<usize>, v: int) -> bool {
        exists|k: int| 0 <= k < seeds.len() && self.reaches(cut, #[trigger] seeds[k] as int, v)
    }

    /// `i` is the first position in the package list that carries the identity `id`.
    pub open spec fn is_position_of(self, id: Seq<char>, i: int) -> bool {
        &&& self.is_node(i)
        &&& self.packages[i].id@ == id
        &&& forall|j: int| 0 <= j < i ==> (#[trigger] self.packages[j]).id@ != id
    }

    pub open spec fn knows(self, id: Seq<char>) -> bool {
        exists|i: int| 0 <= i < self.packages.len() && (#[trigger] self.packages[i]).id@ == id
    }
}

/// The packages and edges of a resolved dependency graph.
pub struct Graph {
    packages: Vec<PackageNode>,
    links: Vec<Link>,
    succ: Vec<Vec<usize>>,
    pred: Vec<Vec<usize>>,
}

impl View for Graph {
    type V = GraphModel;

    closed spec fn view(&self) -> GraphModel {
        GraphModel { packages: self.packages@, links: self.links@ }
    }
}

/// Every position in `list` is a package of a graph with `n` packages.
pub open spec fn all_below(list: Seq<usize>, n: nat) -> bool {
    forall|k: int| 0 <= k < list.len() ==> #[trigger] list[k] < n
}

/// `list` grows strictly from each element to the next.
pub open spec fn ascending(list: Seq<usize>) -> bool {
    forall|j: int, k: int| 0 <= j < k < list.len() ==> #[trigger] list[j] < #[trigger] list[k]
}

/// `lists[a]` holds, each once, the packages `b` with `related(a, b)`.
spec fn lists_hold(lists: Seq<Vec<usize>>, n: nat, related: spec_fn(int, int) -> bool) -> bool {
    &&& lists.len() == n
    &&& forall|a: int| 0 <= a < n ==> (#[trigger] lists[a])@.no_duplicates()
    &&& forall|a: int, k: int|
        0 <= a < n && 0 <= k < lists[a].len() ==> (#[trigger] lists[a][k]) < n && related(
            a,
            lists[a][k] as int,
        )
    &&& forall|a: int, b: usize|
        0 <= a < n && b < n && #[trigger] related(a, b as int) ==> lists[a]@.contains(b)
}

fn list_has(list: &Vec<usize>, x: usize) -> (r: bool)
    ensures
        r == list@.contains(x),
{
    let mut k: usize = 0;
    while k < list.len()
        invariant
            k <= list.len(),
            forall|j: int| 0 <= j < k ==> list[j] != x,
        decreases list.len() - k,
    {
        if list[k] == x {
            return true;
        }
        k += 1;
    }
    false
}

/// The first position in `packages` that carries the identity `id`.
fn find_package(packages: &Vec<PackageNode>, id: &String) -> (r: Option<usize>)
    ensures
        match r {
            Some(i) => (GraphModel { packages: packages@, links: Seq::empty() }).is_position_of(
                id@,
                i as int,
            ),
            None => !(GraphModel { packages: packages@, links: Seq::empty() }).knows(id@),
        },
{
    let mut i: usize = 0;
    while i < packages.len()
        invariant
            i <= packages.len(),
            forall|j: int| 0 <= j < i ==> (#[trigger] packages[j]).id@ != id@,
        decreases packages.len() - i,
    {
        if packages[i].id == *id {
            return Some(i);
        }
        i += 1;
    }
    None
}

impl Graph {
    /// Number of packages.
    pub open spec fn spec_len(&self) -> nat {
        self@.packages.len()
    }

    /// The graph's tables agree with its packages and edges.
    #[verifier::type_invariant]
    pub closed spec fn wf(&self) -> bool {
        let m = self@;
        &&& forall|e: int|
            0 <= e < m.links.len() ==> m.is_node((#[trigger] m.links[e]).from as int) && m.is_node(
                m.links[e].to as int,
            )
        &&& lists_hold(self.succ@, m.packages.len(), |a: int, b: int| m.link(a, b))
        &&& lists_hold(self.pred@, m.packages.len(), |a: int, b: int| m.link(b, a))
    }

    /// The packages on which `u` directly depends by an edge that is not
    /// dev-only, each once.
    pub closed spec fn successors(&self, u: int) -> Seq<usize> {
        self.succ@[u]@
    }

    /// The packages that directly depend on `v` by an edge that is not
    /// dev-only, each once.
    pub closed spec fn predecessors(&self, v: int) -> Seq<usize> {
        self.pred@[v]@
    }

    /// What `successors` and `predecessors` hold.
    pub proof fn lemma_neighbours(&self, u: int)
        requires
            self.wf(),
            self@.is_node(u),
        ensures
            self.successors(u).no_duplicates(),
            self.predecessors(u).no_duplicates(),
            all_below(self.successors(u), self.spec_len()),
            all_below(self.predecessors(u), self.spec_len()),
            forall|v: usize| #[trigger] self.successors(u).contains(v) <==> self@.link(u, v as int),
            forall|v: usize|
                #[trigger] self.predecessors(u).contains(v) <==> self@.link(v as int, u),
    {
        let m = self@;
        let fwd = |a: int, b: int| m.link(a, b);
        let bwd = |a: int, b: int| m.link(b, a);
        self.lemma_links_join_packages();
        assert forall|v: usize| #[trigger] self.successors(u).contains(v) <==> m.link(
            u,
            v as int,
        ) by {
            if m.link(u, v as int) {
                assert(fwd(u, v as int));
            }
            if self.successors(u).contains(v) {
                let k = choose|k: int|
                    0 <= k < self.successors(u).len() && self.successors(u)[k] == v;
                assert(fwd(u, self.succ@[u][k] as int));
            }
        }
        assert forall|v: usize| #[trigger] self.predecessors(u).contains(v) <==> m.link(
            v as int,
            u,
        ) by {
            if m.link(v as int, u) {
                assert(bwd(u, v as int));
            }
            if self.predecessors(u).contains(v) {
                let k = choose|k: int|
                    0 <= k < self.predecessors(u).len() && self.predecessors(u)[k] == v;
                assert(bwd(u, self.pred@[u][k] as int));
            }
        }
        assert forall|k: int| 0 <= k < self.successors(u).len() implies #[trigger] self.successors(
            u,
        )[k] < self.spec_len() by {
            assert(self.succ@[u][k] < m.packages.len());
        }
        assert forall|k: int|
            0 <= k < self.predecessors(u).len() implies #[trigger] self.predecessors(u)[k]
            < self.spec_len() by {
            assert(self.pred@[u][k] < m.packages.len());
        }
    }

    /// The packages can be counted by a machine word.
    pub proof fn lemma_len_fits(&self)
        ensures
            self.spec_len() <= usize::MAX,
    {
        assert(self.packages@.len() == self.packages.len());
    }

    /// Both ends of every edge are packages of the graph.
    pub proof fn lemma_links_join_packages(&self)
        requires
            self.wf(),
        ensures
            forall|a: int, b: int| #[trigger]
                self@.link(a, b) ==> self@.is_node(a) && self@.is_node(b),
            forall|cut: Option<int>, a: int, b: int| #[trigger]
                self@.link_without(cut, a, b) ==> self@.is_node(a) && self@.is_node(b),
    {
        let m = self@;
        assert forall|a: int, b: int| #[trigger] m.link(a, b) implies m.is_node(a) && m.is_node(
            b,
        ) by {
            let e = choose|e: int|
                0 <= e < m.links.len() && (#[trigger] m.links[e]).from == a && m.links[e].to == b
                    && m.links[e].kind != EdgeKind::Dev;
            assert(m.is_node(m.links[e].from as int));
        }
    }

    /// Number of packages.
    pub fn len(&self) -> (n: usize)
        ensures
            n == self.spec_len(),
    {
        self.packages.len()
    }

    /// The package at position `node`.
    pub fn package(&self, node: usize) -> (p: &PackageNode)
        requires
            node < self.spec_len(),
        ensures
            *p == self@.packages[node as int],
    {
        &self.packages[node]
    }

    /// The position of the package with identity `id`.
    pub fn index_of(&self, id: &str) -> (r: Option<usize>)
        ensures
            match r {
                Some(i) => self@.is_position_of(id@, i as int),
                None => !self@.knows(id@),
            },
    {
        let wanted = id.to_owned();
        find_package(&self.packages, &wanted)
    }

    /// The package with identity `id`.
    pub fn package_by_id(&self, id: &str) -> (r: Option<&PackageNode>)
        ensures
            match r {
                Some(p) => exists|i: int| #[trigger]
                    self@.is_position_of(id@, i) && *p == self@.packages[i],
                None => !self@.knows(id@),
            },
    {
        match self.index_of(id) {
            Some(i) => Some(&self.packages[i]),
            None => None,
        }
    }

    /// The identities of all packages, in the order of the package list.
    pub fn all_package_ids(&self) -> (ids: Vec<String>)
        ensures
            ids.len() == self.spec_len(),
            forall|i: int| 0 <= i < ids.len() ==> (#[trigger] ids[i])@ == self@.packages[i].id@,
    {
        let mut ids: Vec<String> = Vec::new();
        let mut i: usize = 0;
        while i < self.packages.len()
            invariant
                i <= self.packages.len(),
                ids.len() == i,
                forall|j: int| 0 <= j < i ==> (#[trigger] ids[j])@ == self.packages[j].id@,
            decreases self.packages.len() - i,
        {
            ids.push(self.packages[i].id.clone());
            i += 1;
        }
        ids
    }

    /// The edges that leave `node`, dev-only ones included, in the order of the edge list.
    pub fn edges_from(&self, node: usize) -> (out: Vec<Link>)
        ensures
            out@ == self@.links.filter(|l: Link| l.from == node),
    {
        let mut out: Vec<Link> = Vec::new();
        let mut e: usize = 0;
        let ghost keep = |l: Link| l.from == node;
        while e < self.links.len()
            invariant
                e <= self.links.len(),
                keep == |l: Link| l.from == node,
                out@ == self.links@.take(e as int).filter(keep),
            decreases self.links.len() - e,
        {
            proof {
                lemma_filter_next(self.links@, e as int, keep);
            }
            if self.links[e].from == node {
                out.push(self.links[e]);
            }
            e += 1;
        }
        assert(self.links@.take(e as int) == self.links@);
        out
    }

    /// The edges that enter `node`, dev-only ones included, in the order of the edge list.
    pub fn edges_to(&self, node: usize) -> (out: Vec<Link>)
        ensures
            out@ == self@.links.filter(|l: Link| l.to == node),
    {
        let mut out: Vec<Link> = Vec::new();
        let mut e: usize = 0;
        let ghost keep = |l: Link| l.to == node;
        while e < self.links.len()
            invariant
                e <= self.links.len(),
                keep == |l: Link| l.to == node,
                out@ == self.links@.take(e as int).filter(keep),
            decreases self.links.len() - e,
        {
            proof {
                lemma_filter_next(self.links@, e as int, keep);
            }
            if self.links[e].to == node {
                out.push(self.links[e]);
            }
            e += 1;
        }
        assert(self.links@.take(e as int) == self.links@);
        out
    }

    /// The neighbours of `node` in the given direction.
    pub fn neighbours(&self, dir: Direction, node: usize) -> (list: &Vec<usize>)
        requires
            node < self.spec_len(),
        ensures
            list@ == self.spec_neighbours(dir, node as int),
    {
        proof {
            use_type_invariant(self);
        }
        match dir {
            Direction::Forward => &self.succ[node],
            Direction::Reverse => &self.pred[node],
        }
    }

    pub open spec fn spec_neighbours(&self, dir: Direction, u: int) -> Seq<usize> {
        match dir {
            Direction::Forward => self.successors(u),
            Direction::Reverse => self.predecessors(u),
        }
    }

    /// Builds the graph from the resolver's flat lists. Fails at the first
    /// edge one of whose ends names no package of the list. An identity that
    /// several packages of the list carry stands for the first of them.
    pub fn new(packages: Vec<PackageNode>, edges: Vec<DependencyEdge>) -> (r: Result<
        Graph,
        MalformedGraphError,
    >)
        ensures
            match r {
                Ok(g) => {
                    &&& g.wf()
                    &&& g@.packages == packages@
                    &&& g@.links.len() == edges.len()
                    &&& forall|e: int|
                        0 <= e < edges.len() ==> {
                            &&& g@.is_position_of(
                                edges[e].from@,
                                (#[trigger] g@.links[e]).from as int,
                            )
                            &&& g@.is_position_of(edges[e].to@, g@.links[e].to as int)
                            &&& g@.links[e].kind == edges[e].kind
                        }
                },
                Err(err) => {
                    let m = GraphModel { packages: packages@, links: Seq::empty() };
                    &&& err.edge < edges.len()
                    &&& !m.knows(edges[err.edge as int].from@) || !m.knows(
                        edges[err.edge as int].to@,
                    )
                    &&& forall|e: int|
                        0 <= e < err.edge ==> m.knows((#[trigger] edges[e]).from@) && m.knows(
                            edges[e].to@,
                        )
                },
            },
    {
        let n = packages.len();
        let mut succ: Vec<Vec<usize>> = Vec::new();
        let mut pred: Vec<Vec<usize>> = Vec::new();
        let mut i: usize = 0;
        while i < n
            invariant
                i <= n,
                succ.len() == i,
                pred.len() == i,
                forall|a: int| 0 <= a < i ==> (#[trigger] succ[a])@ == Seq::<usize>::empty(),
                forall|a: int| 0 <= a < i ==> (#[trigger] pred[a])@ == Seq::<usize>::empty(),
            decreases n - i,
        {
            succ.push(Vec::new());
            pred.push(Vec::new());
            i += 1;
        }
        let mut links: Vec<Link> = Vec::new();
        let ghost base = GraphModel { packages: packages@, links: Seq::empty() };
        let mut e: usize = 0;
        while e < edges.len()
            invariant
                e <= edges.len(),
                n == packages.len(),
                base == (GraphModel { packages: packages@, links: Seq::empty() }),
                links.len() == e,
                forall|k: int|
                    0 <= k < e ==> {
                        &&& base.is_position_of(edges[k].from@, (#[trigger] links[k]).from as int)
                        &&& base.is_position_of(edges[k].to@, links[k].to as int)
                        &&& links[k].kind == edges[k].kind
                    },
                forall|k: int|
                    0 <= k < e ==> base.knows((#[trigger] edges[k]).from@) && base.knows(
                        edges[k].to@,
                    ),
                lists_hold(
                    succ@,
                    n as nat,
                    |a: int, b: int| (GraphModel { packages: packages@, links: links@ }).link(a, b),
                ),
                lists_hold(
                    pred@,
                    n as nat,
                    |a: int, b: int| (GraphModel { packages: packages@, links: links@ }).link(b, a),
                ),
                forall|a: usize, b: usize|
                    a < n && b < n ==> (#[trigger] succ[a as int]@.contains(b)
                        <==> #[trigger] pred[b as int]@.contains(
                        a,
                    )),
            decreases edges.len() - e,
        {
            let from = find_package(&packages, &edges[e].from);
            let to = find_package(&packages, &edges[e].to);
            let kind = edges[e].kind;
            match (from, to) {
                (Some(u), Some(v)) => {
                    let ghost before = GraphModel { packages: packages@, links: links@ };
                    let ghost old_succ = succ@;
                    let ghost old_pred = pred@;
                    links.push(Link { from: u, to: v, kind });
                    let ghost after = GraphModel { packages: packages@, links: links@ };
                    proof {
                        assert(base.knows(edges[e as int].from@));
                        assert(base.knows(edges[e as int].to@));
                        assert forall|a: int, b: int| before.link(a, b) implies after.link(
                            a,
                            b,
                        ) by {
                            let x = choose|x: int|
                                0 <= x < before.links.len() && (#[trigger] before.links[x]).from
                                    == a && before.links[x].to == b && before.links[x].kind
                                    != EdgeKind::Dev;
                            assert(after.links[x] == before.links[x]);
                        }
                        assert forall|a: int, b: int| after.link(a, b) implies before.link(a, b)
                            || (a == u && b == v && kind != EdgeKind::Dev) by {
                            let x = choose|x: int|
                                0 <= x < after.links.len() && (#[trigger] after.links[x]).from == a
                                    && after.links[x].to == b && after.links[x].kind
                                    != EdgeKind::Dev;
                            if x < before.links.len() {
                                assert(before.links[x] == after.links[x]);
                            }
                        }
                        if kind != EdgeKind::Dev {
                            assert(after.links[e as int].from == u);
                            assert(after.link(u as int, v as int));
                        }
                    }
                    if kind != EdgeKind::Dev && !list_has(&succ[u], v) {
                        succ[u].push(v);
                        pred[v].push(u);
                        proof {
                            assert(succ@[u as int]@ == old_succ[u as int]@.push(v));
                            assert(pred@[v as int]@ == old_pred[v as int]@.push(u));
                            assert(!old_pred[v as int]@.contains(u));
                            assert forall|a: int| 0 <= a < n
                                implies (#[trigger] succ@[a])@.no_duplicates() by {
                                if a != u {
                                    assert(succ@[a] == old_succ[a]);
                                }
                            }
                            assert forall|a: int| 0 <= a < n
                                implies (#[trigger] pred@[a])@.no_duplicates() by {
                                if a != v {
                                    assert(pred@[a] == old_pred[a]);
                                }
                            }
                            assert forall|a: int, b: usize| 0 <= a < n && b < n implies (
                            #[trigger] succ@[a]@.contains(b) <==> old_succ[a]@.contains(b) || (a
                                == u && b == v)) by {
                                if a != u {
                                    assert(succ@[a] == old_succ[a]);
                                } else {
                                    lemma_push_contains(old_succ[a]@, v, b);
                                }
                            }
                            assert forall|a: usize, b: int| a < n && 0 <= b < n implies (
                            #[trigger] pred@[b]@.contains(a) <==> old_pred[b]@.contains(a) || (a
                                == u && b == v)) by {
                                if b != v {
                                    assert(pred@[b] == old_pred[b]);
                                } else {
                                    lemma_push_contains(old_pred[b]@, u, a);
                                }
                            }
                        }
                    }
                    proof {
                        let fwd = |a: int, b: int| after.link(a, b);
                        let bwd = |a: int, b: int| after.link(b, a);
                        let fwd0 = |a: int, b: int| before.link(a, b);
                        let bwd0 = |a: int, b: int| before.link(b, a);
                        assert(lists_hold(old_succ, n as nat, fwd0));
                        assert(lists_hold(old_pred, n as nat, bwd0));
                        assert forall|a: int, k: int|
                            0 <= a < n && 0 <= k < succ@[a].len() implies (#[trigger] succ@[a][k])
                            < n && fwd(a, succ@[a][k] as int) by {
                            let b = succ@[a][k];
                            assert(succ@[a]@.contains(b));
                            if a == u && b == v && kind != EdgeKind::Dev {
                            } else {
                                assert(old_succ[a]@.contains(b));
                                let j = choose|j: int|
                                    0 <= j < old_succ[a]@.len() && old_succ[a]@[j] == b;
                                assert(old_succ[a][j] < n && fwd0(a, old_succ[a][j] as int));
                            }
                        }
                        assert forall|a: int, b: usize|
                            0 <= a < n && b < n && #[trigger] fwd(a, b as int)
                                implies succ@[a]@.contains(
                            b) by {
                            if before.link(a, b as int) {
                                assert(fwd0(a, b as int));
                            }
                        }
                        assert forall|a: int, k: int|
                            0 <= a < n && 0 <= k < pred@[a].len() implies (#[trigger] pred@[a][k])
                            < n && bwd(a, pred@[a][k] as int) by {
                            let b = pred@[a][k];
                            assert(pred@[a]@.contains(b));
                            if a == v && b == u && kind != EdgeKind::Dev {
                            } else {
                                assert(old_pred[a]@.contains(b));
                                let j = choose|j: int|
                                    0 <= j < old_pred[a]@.len() && old_pred[a]@[j] == b;
                                assert(old_pred[a][j] < n && bwd0(a, old_pred[a][j] as int));
                            }
                        }
                        assert forall|a: int, b: usize|
                            0 <= a < n && b < n && #[trigger] bwd(a, b as int)
                                implies pred@[a]@.contains(
                            b) by {
                            if before.link(b as int, a) {
                                assert(bwd0(a, b as int));
                            }
                        }
                    }
                },
                _ => {
                    return Err(MalformedGraphError { edge: e });
                },
            }
            e += 1;
        }
        let g = Graph { packages, links, succ, pred };
        proof {
            let m = g@;
            assert(m.packages == base.packages);
            assert forall|k: int| 0 <= k < m.links.len() implies m.is_node(
                (#[trigger] m.links[k]).from as int,
            ) && m.is_node(m.links[k].to as int) by {
                assert(base.is_position_of(edges[k].from@, g.links[k].from as int));
            }
            assert forall|k: int| 0 <= k < edges.len() implies {
                &&& m.is_position_of(edges[k].from@, (#[trigger] m.links[k]).from as int)
                &&& m.is_position_of(edges[k].to@, m.links[k].to as int)
                &&& m.links[k].kind == edges[k].kind
            } by {
                assert(base.is_position_of(edges[k].from@, g.links[k].from as int));
                assert(base.is_position_of(edges[k].to@, g.links[k].to as int));
            }
        }
        Ok(g)
    }
}

/// Filtering one element more of a sequence.
pub proof fn lemma_filter_next<A>(s: Seq<A>, i: int, keep: spec_fn(A) -> bool)
    requires
        0 <= i < s.len(),
    ensures
        s.take(i + 1).filter(keep) == if keep(s[i]) {
            s.take(i).filter(keep).push(s[i])
        } else {
            s.take(i).filter(keep)
        },
{
    assert(s.take(i + 1).drop_last() == s.take(i));
    reveal(Seq::filter);
}

/// Membership in a sequence that grew by one element.
pub proof fn lemma_push_contains(s: Seq<usize>, x: usize, y: usize)
    ensures
        s.push(x).contains(y) <==> s.contains(y) || x == y,
{
    if s.contains(y) {
        let j = choose|j: int| 0 <= j < s.len() && s[j] == y;
        assert(s.push(x)[j] == y);
    }
    if x == y {
        assert(s.push(x)[s.len() as int] == y);
    }
}

} // verus!
