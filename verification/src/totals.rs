//! Totals of line counts over a package and everything below it.
//!
//! The total of a package is its own count plus the totals of its direct
//! dependencies. A package gets a total once all its direct dependencies have
//! one; packages on a cycle, packages without counts of their own and
//! packages whose sums do not fit the counters never get one, and neither
//! does anything that depends on them. Root packages are not counted: a
//! dependency on one adds nothing.

use crate::graph::{all_below, Direction, Graph};
use crate::reach::lemma_distinct_is_short;
use vstd::prelude::*;

verus! {

/// Line counts of a package.
#[derive(Clone, Copy, Debug, PartialEq, Eq, Structural)]
pub struct Metrics {
    /// Lines of code in any language.
    pub loc: u64,
    /// Lines of Rust code.
    pub rust_loc: u64,
    /// Lines of unsafe code.
    pub unsafe_loc: u64,
}

/// Line counts as unbounded numbers.
pub ghost struct Tally {
    pub loc: int,
    pub rust_loc: int,
    pub unsafe_loc: int,
}

impl Tally {
    pub open spec fn of(m: Metrics) -> Tally {
        Tally { loc: m.loc as int, rust_loc: m.rust_loc as int, unsafe_loc: m.unsafe_loc as int }
    }

    pub open spec fn plus(self, m: Metrics) -> Tally {
        Tally {
            loc: self.loc + m.loc,
            rust_loc: self.rust_loc + m.rust_loc,
            unsafe_loc: self.unsafe_loc + m.unsafe_loc,
        }
    }

    /// Every count fits a counter.
    pub open spec fn fits(self) -> bool {
        &&& 0 <= self.loc <= u64::MAX
        &&& 0 <= self.rust_loc <= u64::MAX
        &&& 0 <= self.unsafe_loc <= u64::MAX
    }

    pub open spec fn as_metrics(self) -> Metrics {
        Metrics {
            loc: self.loc as u64,
            rust_loc: self.rust_loc as u64,
            unsafe_loc: self.unsafe_loc as u64,
        }
    }

    pub open spec fn below(self, other: Tally) -> bool {
        &&& self.loc <= other.loc
        &&& self.rust_loc <= other.rust_loc
        &&& self.unsafe_loc <= other.unsafe_loc
    }
}

/// The counts that are known of the package `v` itself.
pub open spec fn own_of(own: Seq<Option<Metrics>>, v: int) -> Option<Metrics> {
    if 0 <= v < own.len() {
        own[v]
    } else {
        None
    }
}

/// The package `v` is counted: it is no root package and has counts of its own.
pub open spec fn is_counted(g: &Graph, own: Seq<Option<Metrics>>, v: int) -> bool {
    &&& g@.is_node(v)
    &&& !g@.packages[v].is_root
    &&& own_of(own, v) is Some
}

/// The own counts of `v` plus the totals of the first `k` of its direct
/// dependencies, where each of them has a total that takes fewer than
/// `rounds` rounds to establish.
pub open spec fn subtotal(
    g: &Graph,
    own: Seq<Option<Metrics>>,
    v: int,
    rounds: nat,
    k: nat,
) -> Option<Tally>
    decreases rounds, k,
{
    if rounds == 0 || !is_counted(g, own, v) || k > g.successors(v).len() {
        None
    } else if k == 0 {
        Some(Tally::of(own_of(own, v)->0))
    } else {
        let d = g.successors(v)[k - 1] as int;
        match subtotal(g, own, v, rounds, (k - 1) as nat) {
            None => None,
            Some(sum) => if g@.packages[d].is_root {
                Some(sum)
            } else {
                match total_within(g, own, d, (rounds - 1) as nat) {
                    Some(t) => Some(sum.plus(t)),
                    None => None,
                }
            },
        }
    }
}

/// The total of `v`, if it can be established in `rounds` rounds: one round
/// for a package without counted dependencies, one more than its dependencies
/// take for any other.
pub open spec fn total_within(
    g: &Graph,
    own: Seq<Option<Metrics>>,
    v: int,
    rounds: nat,
) -> Option<Metrics>
    decreases rounds, g.successors(v).len() + 1,
{
    if rounds == 0 || !is_counted(g, own, v) {
        None
    } else {
        match subtotal(g, own, v, rounds, g.successors(v).len()) {
            Some(sum) => if sum.fits() {
                Some(sum.as_metrics())
            } else {
                None
            },
            None => None,
        }
    }
}

/// The total of `v`, if it has one.
pub open spec fn total_of(g: &Graph, own: Seq<Option<Metrics>>, v: int) -> Option<Metrics> {
    total_within(g, own, v, g.spec_len())
}

/// The own counts of `v` plus the totals, taken from `totals`, of the first
/// `k` of its direct dependencies.
pub open spec fn known_subtotal(
    g: &Graph,
    own: Seq<Option<Metrics>>,
    totals: Seq<Option<Metrics>>,
    v: int,
    k: nat,
) -> Option<Tally>
    decreases k,
{
    if !is_counted(g, own, v) || k > g.successors(v).len() {
        None
    } else if k == 0 {
        Some(Tally::of(own_of(own, v)->0))
    } else {
        let d = g.successors(v)[k - 1] as int;
        match known_subtotal(g, own, totals, v, (k - 1) as nat) {
            None => None,
            Some(sum) => if g@.packages[d].is_root {
                Some(sum)
            } else {
                match totals[d] {
                    Some(t) => Some(sum.plus(t)),
                    None => None,
                }
            },
        }
    }
}

/// The total of `v` as far as `totals` lets it be computed.
pub open spec fn known_total(
    g: &Graph,
    own: Seq<Option<Metrics>>,
    totals: Seq<Option<Metrics>>,
    v: int,
) -> Option<Metrics> {
    match known_subtotal(g, own, totals, v, g.successors(v).len()) {
        Some(sum) => if sum.fits() {
            Some(sum.as_metrics())
        } else {
            None
        },
        None => None,
    }
}

/// A total that is established stays established, unchanged, in later rounds.
pub proof fn lemma_total_stays(
    g: &Graph,
    own: Seq<Option<Metrics>>,
    v: int,
    early: nat,
    late: nat,
)
    requires
        early <= late,
        total_within(g, own, v, early) is Some,
    ensures
        total_within(g, own, v, late) == total_within(g, own, v, early),
    decreases early, g.successors(v).len() + 1,
{
    lemma_subtotal_stays(g, own, v, early, late, g.successors(v).len());
}

proof fn lemma_subtotal_stays(
    g: &Graph,
    own: Seq<Option<Metrics>>,
    v: int,
    early: nat,
    late: nat,
    k: nat,
)
    requires
        early <= late,
        subtotal(g, own, v, early, k) is Some,
    ensures
        subtotal(g, own, v, late, k) == subtotal(g, own, v, early, k),
    decreases early, k,
{
    if k > 0 {
        let d = g.successors(v)[k - 1] as int;
        lemma_subtotal_stays(g, own, v, early, late, (k - 1) as nat);
        if !g@.packages[d].is_root {
            lemma_total_stays(g, own, d, (early - 1) as nat, (late - 1) as nat);
        }
    }
}

/// Two rounds in which `v` has a total give the same total.
pub proof fn lemma_total_is_unique(
    g: &Graph,
    own: Seq<Option<Metrics>>,
    v: int,
    a: nat,
    b: nat,
)
    requires
        total_within(g, own, v, a) is Some,
        total_within(g, own, v, b) is Some,
    ensures
        total_within(g, own, v, a) == total_within(g, own, v, b),
{
    if a <= b {
        lemma_total_stays(g, own, v, a, b);
    } else {
        lemma_total_stays(g, own, v, b, a);
    }
}

/// A sum only grows as more dependencies are added.
proof fn lemma_known_subtotal_grows(
    g: &Graph,
    own: Seq<Option<Metrics>>,
    totals: Seq<Option<Metrics>>,
    v: int,
    j: nat,
    k: nat,
)
    requires
        j <= k,
        known_subtotal(g, own, totals, v, k) is Some,
    ensures
        known_subtotal(g, own, totals, v, j) is Some,
        known_subtotal(g, own, totals, v, j)->0.below(known_subtotal(g, own, totals, v, k)->0),
        0 <= known_subtotal(g, own, totals, v, j)->0.loc,
        0 <= known_subtotal(g, own, totals, v, j)->0.rust_loc,
        0 <= known_subtotal(g, own, totals, v, j)->0.unsafe_loc,
    decreases k,
{
    if k > 0 {
        lemma_known_subtotal_grows(g, own, totals, v, 0, (k - 1) as nat);
        if j < k {
            lemma_known_subtotal_grows(g, own, totals, v, j, (k - 1) as nat);
        } else {
            lemma_known_subtotal_grows(g, own, totals, v, (k - 1) as nat, (k - 1) as nat);
        }
    }
}

/// Where `totals` holds only totals that are established within `rounds`
/// rounds, what it lets be computed is established within one round more.
proof fn lemma_known_is_sound(
    g: &Graph,
    own: Seq<Option<Metrics>>,
    totals: Seq<Option<Metrics>>,
    v: int,
    rounds: nat,
    k: nat,
)
    requires
        g.wf(),
        totals.len() == g.spec_len(),
        forall|u: int|
            0 <= u < totals.len() && (#[trigger] totals[u]) is Some ==> total_within(
                g,
                own,
                u,
                rounds,
            ) == totals[u],
        known_subtotal(g, own, totals, v, k) is Some,
    ensures
        subtotal(g, own, v, rounds + 1, k) == known_subtotal(g, own, totals, v, k),
    decreases k,
{
    if k > 0 {
        lemma_known_is_sound(g, own, totals, v, rounds, (k - 1) as nat);
        g.lemma_neighbours(v);
        let d = g.successors(v)[k - 1] as int;
        assert(0 <= d < totals.len());
    }
}

/// Where `totals` holds every total that is established within `rounds - 1`
/// rounds, it lets every sum be computed that is established within `rounds`.
proof fn lemma_known_is_complete(
    g: &Graph,
    own: Seq<Option<Metrics>>,
    totals: Seq<Option<Metrics>>,
    v: int,
    rounds: nat,
    k: nat,
)
    requires
        g.wf(),
        totals.len() == g.spec_len(),
        rounds > 0,
        forall|u: int|
            0 <= u < totals.len() && (#[trigger] total_within(g, own, u, (rounds - 1) as nat))
                is Some ==> totals[u] == total_within(g, own, u, (rounds - 1) as nat),
        subtotal(g, own, v, rounds, k) is Some,
    ensures
        known_subtotal(g, own, totals, v, k) == subtotal(g, own, v, rounds, k),
    decreases k,
{
    if k > 0 {
        lemma_known_is_complete(g, own, totals, v, rounds, (k - 1) as nat);
        g.lemma_neighbours(v);
        let d = g.successors(v)[k - 1] as int;
        assert(0 <= d < totals.len());
        if !g@.packages[d].is_root {
            let t = total_within(g, own, d, (rounds - 1) as nat);
            assert(t is Some);
            assert(totals[d] == t);
        }
    }
}

/// A package with a total: each of its counted direct dependencies has one
/// that was established a round earlier.
pub proof fn lemma_dependencies_come_first(
    g: &Graph,
    own: Seq<Option<Metrics>>,
    v: int,
    rounds: nat,
    k: nat,
    i: int,
)
    requires
        subtotal(g, own, v, rounds, k) is Some,
        0 <= i < k,
        !g@.packages[g.successors(v)[i] as int].is_root,
    ensures
        rounds > 0,
        total_within(g, own, g.successors(v)[i] as int, (rounds - 1) as nat) is Some,
    decreases k,
{
    if i < k - 1 {
        lemma_dependencies_come_first(g, own, v, rounds, (k - 1) as nat, i);
    }
}

/// The total of `v` as far as `totals` lets it be computed: `None` where a
/// counted direct dependency has no total yet or a sum does not fit.
fn try_total(graph: &Graph, own: &Vec<Option<Metrics>>, totals: &Vec<Option<Metrics>>, v: usize)
    -> (r:
    Option<Metrics>)
    requires
        totals.len() == graph.spec_len(),
        is_counted(graph, own@, v as int),
    ensures
        r == known_total(graph, own@, totals@, v as int),
{
    proof {
        use_type_invariant(graph);
    }
    let list = graph.neighbours(Direction::Forward, v);
    let mine = match own[v] {
        Some(m) => m,
        None => { return None; },
    };
    let mut sum = mine;
    let mut k: usize = 0;
    while k < list.len()
        invariant
            k <= list.len(),
            graph.wf(),
            totals.len() == graph.spec_len(),
            is_counted(graph, own@, v as int),
            list@ == graph.successors(v as int),
            known_subtotal(graph, own@, totals@, v as int, k as nat) == Some(Tally::of(sum)),
        decreases list.len() - k,
    {
        let d = list[k];
        proof {
            graph.lemma_neighbours(v as int);
        }
        if !graph.package(d).is_root {
            match totals[d] {
                None => {
                    proof {
                        if known_subtotal(
                            graph,
                            own@,
                            totals@,
                            v as int,
                            list.len() as nat,
                        ) is Some {
                            lemma_known_subtotal_grows(
                                graph,
                                own@,
                                totals@,
                                v as int,
                                (k + 1) as nat,
                                list.len() as nat,
                            );
                        }
                    }
                    return None;
                },
                Some(t) => {
                    let loc = sum.loc.checked_add(t.loc);
                    let rust_loc = sum.rust_loc.checked_add(t.rust_loc);
                    let unsafe_loc = sum.unsafe_loc.checked_add(t.unsafe_loc);
                    match (loc, rust_loc, unsafe_loc) {
                        (Some(loc), Some(rust_loc), Some(unsafe_loc)) => {
                            sum = Metrics { loc, rust_loc, unsafe_loc };
                        },
                        _ => {
                            proof {
                                if known_subtotal(
                                    graph,
                                    own@,
                                    totals@,
                                    v as int,
                                    list.len() as nat,
                                ) is Some {
                                    lemma_known_subtotal_grows(
                                        graph,
                                        own@,
                                        totals@,
                                        v as int,
                                        (k + 1) as nat,
                                        list.len() as nat,
                                    );
                                }
                            }
                            return None;
                        },
                    }
                },
            }
        }
        k += 1;
    }
    Some(sum)
}

/// The total of every package that has one.
///
/// Packages are tried in passes: a pass tries every package that has no
/// total yet and gives it one where all its counted direct dependencies have
/// theirs; the work ends with the first pass that gives none. `own[v]` holds
/// the own counts of the package `v`; a package without counts of its own,
/// or beyond the end of `own`, gets no total.
pub fn aggregate(graph: &Graph, own: &Vec<Option<Metrics>>) -> (totals: Vec<Option<Metrics>>)
    ensures
        totals.len() == graph.spec_len(),
        forall|v: int| 0 <= v < totals.len() ==> #[trigger] totals[v] == total_of(graph, own@, v),
{
    proof {
        use_type_invariant(graph);
    }
    let n = graph.len();
    let mut totals: Vec<Option<Metrics>> = Vec::new();
    let mut pending: Vec<usize> = Vec::new();
    let mut v: usize = 0;
    while v < n
        invariant
            v <= n,
            n == graph.spec_len(),
            totals.len() == v,
            forall|u: int| 0 <= u < v ==> (#[trigger] totals[u]) is None,
            all_below(pending@, v as nat),
            pending@.no_duplicates(),
            forall|i: int| 0 <= i < pending.len()
                ==> is_counted(graph, own@, #[trigger] pending[i] as int),
            forall|u: int|
                0 <= u < v && is_counted(graph, own@, u) ==> exists|i: int|
                    0 <= i < pending.len() && #[trigger] pending[i] as int == u,
        decreases n - v,
    {
        totals.push(None);
        let counted = !graph.package(v).is_root && v < own.len() && own[v].is_some();
        if counted {
            let ghost before = pending@;
            pending.push(v);
            proof {
                assert forall|u: int| 0 <= u < v + 1 && is_counted(graph, own@, u) implies exists|
                    i: int,
                |
                    0 <= i < pending.len() && #[trigger] pending[i] as int == u by {
                    if u < v {
                        let i = choose|i: int|
                            0 <= i < before.len() && #[trigger] before[i] as int == u;
                        assert(pending[i] as int == u);
                    } else {
                        assert(pending[before.len() as int] as int == u);
                    }
                }
            }
        }
        v += 1;
    }
    let ghost mut done: Seq<usize> = Seq::empty();
    let mut progress = true;
    while progress
        invariant
            graph.wf(),
            n == graph.spec_len(),
            totals.len() == n,
            all_below(pending@, n as nat),
            pending@.no_duplicates(),
            all_below(done, n as nat),
            done.no_duplicates(),
            forall|i: int| 0 <= i < done.len() ==> totals[#[trigger] done[i] as int] is Some,
            forall|i: int|
                0 <= i < pending.len() ==> is_counted(graph, own@, #[trigger] pending[i] as int)
                    && totals[pending[i] as int] is None,
            forall|u: int|
                0 <= u < n && is_counted(graph, own@, u) && (#[trigger] totals[u]) is None
                    ==> exists|i: int| 0 <= i < pending.len() && #[trigger] pending[i] as int == u,
            forall|u: int|
                0 <= u < n && (#[trigger] totals[u]) is Some ==> total_within(
                    graph,
                    own@,
                    u,
                    done.len(),
                ) == totals[u],
            !progress ==> forall|i: int|
                0 <= i < pending.len() ==> known_total(
                    graph,
                    own@,
                    totals@,
                    #[trigger] pending[i] as int,
                ) is None,
        decreases pending.len() + (if progress { 1nat } else { 0nat }),
    {
        progress = false;
        let mut next: Vec<usize> = Vec::new();
        let ghost start = totals@;
        let mut i: usize = 0;
        while i < pending.len()
            invariant
                i <= pending.len(),
                graph.wf(),
                n == graph.spec_len(),
                totals.len() == n,
                all_below(pending@, n as nat),
                pending@.no_duplicates(),
                all_below(next@, n as nat),
                next@.no_duplicates(),
                all_below(done, n as nat),
                done.no_duplicates(),
                forall|j: int| 0 <= j < done.len() ==> totals[#[trigger] done[j] as int] is Some,
                forall|j: int|
                    0 <= j < pending.len()
                        ==> is_counted(graph, own@, #[trigger] pending[j] as int),
                forall|j: int|
                    i <= j < pending.len() ==> totals[#[trigger] pending[j] as int] is None,
                forall|j: int|
                    0 <= j < next.len() ==> totals[#[trigger] next[j] as int] is None && exists|
                        a: int,
                    |
                        0 <= a < i && #[trigger] pending[a] == next[j],
                forall|u: int|
                    0 <= u < n && is_counted(graph, own@, u) && (#[trigger] totals[u]) is None ==> (
                    exists|j: int| 0 <= j < next.len() && #[trigger] next[j] as int == u) || (
                    exists|j: int| i <= j < pending.len() && #[trigger] pending[j] as int == u),
                forall|u: int|
                    0 <= u < n && (#[trigger] totals[u]) is Some ==> total_within(
                        graph,
                        own@,
                        u,
                        done.len(),
                    ) == totals[u],
                next.len() + (if progress { 1nat } else { 0nat }) <= i,
                !progress ==> totals@ == start,
                !progress ==> forall|j: int|
                    0 <= j < next.len() ==> known_total(
                        graph,
                        own@,
                        totals@,
                        #[trigger] next[j] as int,
                    ) is None,
                !progress ==> next@ == pending@.take(i as int),
            decreases pending.len() - i,
        {
            let v = pending[i];
            let ghost before = totals@;
            let ghost listed = next@;
            match try_total(graph, own, &totals, v) {
                Some(t) => {
                    totals[v] = Some(t);
                    progress = true;
                    proof {
                        let rounds = done.len();
                        lemma_known_is_sound(
                            graph,
                            own@,
                            before,
                            v as int,
                            rounds,
                            graph.successors(v as int).len(),
                        );
                        assert(total_within(graph, own@, v as int, rounds + 1) == Some(t));
                        assert(!done.contains(v)) by {
                            if done.contains(v) {
                                let j = choose|j: int| 0 <= j < done.len() && done[j] == v;
                                assert(before[done[j] as int] is Some);
                            }
                        }
                        let grown = done.push(v);
                        assert forall|u: int|
                            0 <= u < n && (#[trigger] totals[u]) is Some implies total_within(
                            graph,
                            own@,
                            u,
                            grown.len(),
                        ) == totals[u] by {
                            if u != v {
                                assert(before[u] is Some);
                                lemma_total_stays(graph, own@, u, rounds, rounds + 1);
                            }
                        }
                        assert forall|j: int| 0 <= j < grown.len()
                            implies totals[#[trigger] grown[j] as int] is Some by {
                            if j < done.len() {
                                assert(before[done[j] as int] is Some);
                            }
                        }
                        assert forall|j: int|
                            i + 1 <= j < pending.len()
                                implies totals[#[trigger] pending[j] as int] is None by {
                            assert(pending[j] != pending[i as int]);
                        }
                        assert forall|j: int| 0 <= j < next.len()
                            implies totals[#[trigger] next[j] as int] is None
                            && exists|a: int| 0 <= a < i + 1 && #[trigger] pending[a]
                                == next[j] by {
                            let a = choose|a: int| 0 <= a < i && #[trigger] pending[a] == next[j];
                            assert(pending[a] != pending[i as int]);
                        }
                        assert forall|u: int|
                            0 <= u < n && is_counted(graph, own@, u) && (#[trigger] totals[u])
                                is None implies (exists|j: int|
                            0 <= j < next.len() && #[trigger] next[j] as int == u) || (exists|
                            j: int,
                        |
                            i + 1 <= j < pending.len() && #[trigger] pending[j] as int == u) by {
                            assert(before[u] is None);
                            if !(exists|j: int| 0 <= j < next.len() && #[trigger] next[j] as int
                                == u) {
                                let j = choose|j: int|
                                    i <= j < pending.len() && #[trigger] pending[j] as int == u;
                                assert(j != i);
                            }
                        }
                        done = grown;
                    }
                },
                None => {
                    next.push(v);
                    proof {
                        assert(!listed.contains(v)) by {
                            if listed.contains(v) {
                                let j = choose|j: int| 0 <= j < listed.len() && listed[j] == v;
                                let a = choose|a: int| 0 <= a < i && #[trigger] pending[a]
                                    == listed[j];
                                assert(pending[a] == pending[i as int]);
                            }
                        }
                        assert forall|j: int| 0 <= j < next.len()
                            implies totals[#[trigger] next[j] as int] is None
                            && exists|a: int| 0 <= a < i + 1 && #[trigger] pending[a]
                                == next[j] by {
                            if j < listed.len() {
                                let a = choose|a: int|
                                    0 <= a < i && #[trigger] pending[a] == listed[j];
                                assert(pending[a] == next[j]);
                            } else {
                                assert(pending[i as int] == next[j]);
                            }
                        }
                        assert forall|u: int|
                            0 <= u < n && is_counted(graph, own@, u) && (#[trigger] totals[u])
                                is None implies (exists|j: int|
                            0 <= j < next.len() && #[trigger] next[j] as int == u) || (exists|
                            j: int,
                        |
                            i + 1 <= j < pending.len() && #[trigger] pending[j] as int == u) by {
                            if exists|j: int| 0 <= j < listed.len()
                                && #[trigger] listed[j] as int == u {
                                let j = choose|j: int|
                                    0 <= j < listed.len() && #[trigger] listed[j] as int == u;
                                assert(next[j] as int == u);
                            } else {
                                let j = choose|j: int|
                                    i <= j < pending.len() && #[trigger] pending[j] as int == u;
                                if j == i {
                                    assert(next[listed.len() as int] as int == u);
                                }
                            }
                        }
                        if !progress {
                            assert(pending@.take(i as int + 1) == pending@.take(i as int).push(v));
                        }
                    }
                },
            }
            i += 1;
        }
        proof {
            if !progress {
                assert(pending@.take(i as int) == pending@);
            }
            assert forall|u: int|
                0 <= u < n && is_counted(graph, own@, u) && (#[trigger] totals[u])
                    is None implies exists|j: int|
                0 <= j < next.len() && #[trigger] next[j] as int == u by {
                if !(exists|j: int| 0 <= j < next.len() && #[trigger] next[j] as int == u) {
                    let j = choose|j: int|
                        i <= j < pending.len() && #[trigger] pending[j] as int == u;
                }
            }
            lemma_distinct_is_short(done, n as nat);
        }
        pending = next;
    }
    proof {
        lemma_distinct_is_short(done, n as nat);
        assert forall|v: int| 0 <= v < totals.len() implies #[trigger] totals[v] == total_of(
            graph,
            own@,
            v,
        ) by {
            if totals[v] is Some {
                lemma_total_stays(graph, own@, v, done.len(), n as nat);
            } else {
                lemma_nothing_is_missing(graph, own@, totals@, pending@, done.len(), v, n as nat);
            }
        }
    }
    totals
}

/// Once a pass gives no package a total, every total that can be
/// established at all is in `totals`.
proof fn lemma_nothing_is_missing(
    g: &Graph,
    own: Seq<Option<Metrics>>,
    totals: Seq<Option<Metrics>>,
    pending: Seq<usize>,
    reached: nat,
    v: int,
    rounds: nat,
)
    requires
        g.wf(),
        totals.len() == g.spec_len(),
        0 <= v < totals.len(),
        forall|u: int|
            0 <= u < totals.len() && is_counted(g, own, u) && (#[trigger] totals[u]) is None
                ==> exists|i: int| 0 <= i < pending.len() && #[trigger] pending[i] as int == u,
        forall|u: int|
            0 <= u < totals.len() && (#[trigger] totals[u]) is Some ==> total_within(
                g,
                own,
                u,
                reached,
            ) == totals[u],
        forall|i: int|
            0 <= i < pending.len() ==> known_total(g, own, totals, #[trigger] pending[i] as int)
                is None,
    ensures
        total_within(g, own, v, rounds) is Some ==> totals[v] == total_within(g, own, v, rounds),
    decreases rounds,
{
    if total_within(g, own, v, rounds) is Some {
        if totals[v] is Some {
            lemma_total_is_unique(g, own, v, rounds, reached);
        } else {
            let i = choose|i: int| 0 <= i < pending.len() && #[trigger] pending[i] as int == v;
            assert(known_total(g, own, totals, pending[i] as int) is None);
            assert forall|u: int|
                0 <= u < totals.len() && (#[trigger] total_within(
                    g,
                    own,
                    u,
                    (rounds - 1) as nat,
                )) is Some implies totals[u] == total_within(g, own, u, (rounds - 1) as nat) by {
                lemma_nothing_is_missing(
                    g,
                    own,
                    totals,
                    pending,
                    reached,
                    u,
                    (rounds - 1) as nat,
                );
            }
            lemma_known_is_complete(g, own, totals, v, rounds, g.successors(v).len());
        }
    }
}

/// The totals of the first `k` direct dependencies of `v`, added up; a
/// dependency that is a root package adds nothing.
pub open spec fn dependency_sum(g: &Graph, own: Seq<Option<Metrics>>, v: int, k: nat) -> Tally
    decreases k,
{
    if k == 0 || k > g.successors(v).len() {
        Tally { loc: 0, rust_loc: 0, unsafe_loc: 0 }
    } else {
        let d = g.successors(v)[k - 1] as int;
        let rest = dependency_sum(g, own, v, (k - 1) as nat);
        match total_of(g, own, d) {
            Some(t) => if g@.packages[d].is_root {
                rest
            } else {
                rest.plus(t)
            },
            None => rest,
        }
    }
}

proof fn lemma_subtotal_is_own_plus_dependencies(
    g: &Graph,
    own: Seq<Option<Metrics>>,
    p: int,
    k: nat,
)
    requires
        g.wf(),
        subtotal(g, own, p, g.spec_len(), k) is Some,
    ensures
        ({
            let sum = subtotal(g, own, p, g.spec_len(), k)->0;
            let mine = own_of(own, p)->0;
            let below = dependency_sum(g, own, p, k);
            &&& sum.loc == mine.loc + below.loc
            &&& sum.rust_loc == mine.rust_loc + below.rust_loc
            &&& sum.unsafe_loc == mine.unsafe_loc + below.unsafe_loc
        }),
        forall|i: int|
            0 <= i < k && !g@.packages[g.successors(p)[i] as int].is_root ==> (#[trigger] total_of(
                g,
                own,
                g.successors(p)[i] as int,
            )) is Some,
    decreases k,
{
    if k > 0 {
        let n = g.spec_len();
        lemma_subtotal_is_own_plus_dependencies(g, own, p, (k - 1) as nat);
        let d = g.successors(p)[k - 1] as int;
        if !g@.packages[d].is_root {
            lemma_total_stays(g, own, d, (n - 1) as nat, n);
        }
    }
}

/// The total of a package is its own count plus the totals of its direct
/// dependencies, each of which has a total.
pub proof fn lemma_total_is_own_plus_dependencies(g: &Graph, own: Seq<Option<Metrics>>, p: int)
    requires
        g.wf(),
        total_of(g, own, p) is Some,
    ensures
        ({
            let total = total_of(g, own, p)->0;
            let mine = own_of(own, p)->0;
            let below = dependency_sum(g, own, p, g.successors(p).len());
            &&& total.loc == mine.loc + below.loc
            &&& total.rust_loc == mine.rust_loc + below.rust_loc
            &&& total.unsafe_loc == mine.unsafe_loc + below.unsafe_loc
        }),
        forall|i: int|
            0 <= i < g.successors(p).len() && !g@.packages[g.successors(p)[i] as int].is_root ==> (
            #[trigger] total_of(g, own, g.successors(p)[i] as int)) is Some,
{
    lemma_subtotal_is_own_plus_dependencies(g, own, p, g.successors(p).len());
}

/// `cycle` leads from a package back to it, along edges that are not
/// dev-only and over packages that are no root packages.
pub open spec fn is_cycle(g: &Graph, cycle: Seq<int>) -> bool {
    &&& cycle.len() >= 2
    &&& cycle[0] == cycle.last()
    &&& forall|i: int|
        0 <= i < cycle.len() ==> g@.is_node(#[trigger] cycle[i]) && !g@.packages[cycle[i]].is_root
    &&& forall|i: int| 0 <= i < cycle.len() - 1 ==> g@.link(#[trigger] cycle[i], cycle[i + 1])
}

/// No own count is missing and no sum is too large for a counter.
pub open spec fn counts_are_sound(g: &Graph, own: Seq<Option<Metrics>>) -> bool {
    &&& forall|a: int| g@.is_node(a) && !g@.packages[a].is_root ==> is_counted(g, own, a)
    &&& forall|a: int, rounds: nat|
        (#[trigger] subtotal(g, own, a, rounds, g.successors(a).len())) is Some ==> subtotal(
            g,
            own,
            a,
            rounds,
            g.successors(a).len(),
        )->0.fits()
}

proof fn lemma_cycle_never_settles(
    g: &Graph,
    own: Seq<Option<Metrics>>,
    cycle: Seq<int>,
    j: int,
    rounds: nat,
)
    requires
        g.wf(),
        is_cycle(g, cycle),
        0 <= j < cycle.len(),
    ensures
        total_within(g, own, cycle[j], rounds) is None,
    decreases rounds,
{
    if total_within(g, own, cycle[j], rounds) is Some {
        let here = if j == cycle.len() - 1 {
            0
        } else {
            j
        };
        let v = cycle[here];
        assert(v == cycle[j]);
        let w = cycle[here + 1];
        assert(g@.link(cycle[here], cycle[here + 1]));
        g.lemma_neighbours(v);
        assert(g.successors(v).contains(w as usize));
        let i = choose|i: int| 0 <= i < g.successors(v).len() && g.successors(v)[i] == w as usize;
        lemma_dependencies_come_first(g, own, v, rounds, g.successors(v).len(), i);
        lemma_cycle_never_settles(g, own, cycle, here + 1, (rounds - 1) as nat);
    }
}

/// No package on a cycle has a total.
pub proof fn lemma_cycle_has_no_total(
    g: &Graph,
    own: Seq<Option<Metrics>>,
    cycle: Seq<int>,
    j: int,
)
    requires
        g.wf(),
        is_cycle(g, cycle),
        0 <= j < cycle.len(),
    ensures
        total_of(g, own, cycle[j]) is None,
{
    lemma_cycle_never_settles(g, own, cycle, j, g.spec_len());
}

proof fn lemma_blocked_at(g: &Graph, own: Seq<Option<Metrics>>, v: int, rounds: nat, k: nat) -> (d:
    int)
    requires
        g.wf(),
        g@.is_node(v),
        is_counted(g, own, v),
        rounds >= 1,
        k <= g.successors(v).len(),
        subtotal(g, own, v, rounds, k) is None,
    ensures
        g@.link(v, d),
        g@.is_node(d),
        !g@.packages[d].is_root,
        total_within(g, own, d, (rounds - 1) as nat) is None,
    decreases k,
{
    if k == 0 {
        0
    } else if subtotal(g, own, v, rounds, (k - 1) as nat) is None {
        lemma_blocked_at(g, own, v, rounds, (k - 1) as nat)
    } else {
        g.lemma_neighbours(v);
        let d = g.successors(v)[k - 1];
        assert(g.successors(v).contains(d));
        d as int
    }
}

/// From a package without a total, a walk of any length leads over
/// packages without a total, as long as no own count is missing and no sum
/// is too large.
proof fn lemma_stuck_walk(g: &Graph, own: Seq<Option<Metrics>>, v: int, rounds: nat) -> (walk: Seq<
    int,
>)
    requires
        g.wf(),
        counts_are_sound(g, own),
        g@.is_node(v),
        !g@.packages[v].is_root,
        total_within(g, own, v, rounds) is None,
    ensures
        walk.len() == rounds + 1,
        walk[0] == v,
        forall|i: int|
            0 <= i < walk.len() ==> g@.is_node(#[trigger] walk[i]) && !g@.packages[walk[i]].is_root,
        forall|i: int| 0 <= i < walk.len() - 1 ==> g@.link(#[trigger] walk[i], walk[i + 1]),
    decreases rounds,
{
    if rounds == 0 {
        seq![v]
    } else {
        let d = lemma_blocked_at(g, own, v, rounds, g.successors(v).len());
        let rest = lemma_stuck_walk(g, own, d, (rounds - 1) as nat);
        let walk = seq![v] + rest;
        assert forall|i: int| 0 <= i < walk.len() - 1 implies g@.link(
            #[trigger] walk[i],
            walk[i + 1],
        ) by {
            if i > 0 {
                assert(walk[i] == rest[i - 1] && walk[i + 1] == rest[i - 1 + 1]);
            } else {
                assert(walk[1] == rest[0]);
            }
        }
        assert forall|i: int| 0 <= i < walk.len() implies g@.is_node(#[trigger] walk[i])
            && !g@.packages[walk[i]].is_root by {
            if i > 0 {
                assert(walk[i] == rest[i - 1]);
            }
        }
        walk
    }
}

/// A walk over more packages than the graph has comes by one of them twice.
proof fn lemma_long_walk_repeats(walk: Seq<int>, n: nat) -> (at: (int, int))
    requires
        walk.len() > n,
        forall|i: int| 0 <= i < walk.len() ==> 0 <= #[trigger] walk[i] < n,
    ensures
        0 <= at.0 < at.1 < walk.len(),
        walk[at.0] == walk[at.1],
{
    if walk.no_duplicates() {
        walk.unique_seq_to_set();
        vstd::set_lib::lemma_int_range(0, n as int);
        assert(walk.to_set().subset_of(vstd::set_lib::set_int_range(0, n as int))) by {
            assert forall|x: int| walk.to_set().contains(x) implies 0 <= x < n by {
                let k = choose|k: int| 0 <= k < walk.len() && walk[k] == x;
            }
        }
        vstd::set_lib::lemma_len_subset(walk.to_set(), vstd::set_lib::set_int_range(0, n as int));
        (0, 0)
    } else {
        let (i, j) = choose|i: int, j: int|
            0 <= i < walk.len() && 0 <= j < walk.len() && i != j && walk[i] == walk[j];
        if i < j {
            (i, j)
        } else {
            (j, i)
        }
    }
}

/// In a graph without cycles, where no own count is missing and no sum is
/// too large, every package that is no root package has a total.
pub proof fn lemma_without_cycles_every_total_is_there(
    g: &Graph,
    own: Seq<Option<Metrics>>,
    v: int,
)
    requires
        g.wf(),
        counts_are_sound(g, own),
        forall|cycle: Seq<int>| !is_cycle(g, cycle),
        g@.is_node(v),
        !g@.packages[v].is_root,
    ensures
        total_of(g, own, v) is Some,
{
    if total_of(g, own, v) is None {
        let n = g.spec_len();
        let walk = lemma_stuck_walk(g, own, v, n);
        let (i, j) = lemma_long_walk_repeats(walk, n);
        let cycle = walk.subrange(i, j + 1);
        assert forall|x: int| 0 <= x < cycle.len() - 1 implies g@.link(
            #[trigger] cycle[x],
            cycle[x + 1],
        ) by {
            assert(cycle[x] == walk[i + x] && cycle[x + 1] == walk[i + x + 1]);
        }
        assert forall|x: int| 0 <= x < cycle.len() implies g@.is_node(#[trigger] cycle[x])
            && !g@.packages[cycle[x]].is_root by {
            assert(cycle[x] == walk[i + x]);
        }
        assert(is_cycle(g, cycle));
    }
}

} // verus!
