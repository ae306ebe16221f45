//! Which root packages are analysed.

use crate::graph::{Graph, GraphModel};
use crate::names::{has_text, holds_name};
use crate::reach::{listed, lists_exactly, no_flags};
use vstd::prelude::*;

verus! {

/// No root package is left to analyse.
#[derive(Debug)]
pub struct EmptyRootSetError;

/// The package `v` is a root package that the lists let through. A list of
/// wanted names decides alone where there is one; otherwise the list of
/// unwanted names decides, and without either every root package passes.
pub open spec fn is_selected(
    m: GraphModel,
    wanted: Option<Vec<String>>,
    unwanted: Option<Vec<String>>,
    v: int,
) -> bool {
    &&& m.is_node(v)
    &&& m.packages[v].is_root
    &&& match wanted {
        Some(names) => has_text(names@, m.packages[v].name@),
        None => match unwanted {
            Some(names) => !has_text(names@, m.packages[v].name@),
            None => true,
        },
    }
}

/// The root packages to analyse, in ascending order: with `packages`, the
/// root packages named in it; else with `to_ignore`, those not named in it;
/// else all of them. Fails where none is left.
pub fn select_roots(
    graph: &Graph,
    packages: &Option<Vec<String>>,
    to_ignore: &Option<Vec<String>>,
) -> (r: Result<Vec<usize>, EmptyRootSetError>)
    ensures
        match r {
            Ok(roots) => roots.len() > 0 && lists_exactly(
                roots@,
                graph.spec_len(),
                |v: int| is_selected(graph@, *packages, *to_ignore, v),
            ),
            Err(_) => forall|v: int| !is_selected(graph@, *packages, *to_ignore, v),
        },
{
    let n = graph.len();
    let ghost m = graph@;
    let mut flags = no_flags(n);
    let mut v: usize = 0;
    while v < n
        invariant
            v <= n,
            m == graph@,
            n == m.packages.len(),
            flags.len() == n,
            forall|x: int|
                0 <= x < v ==> (#[trigger] flags[x] <==> is_selected(m, *packages, *to_ignore, x)),
            forall|x: int| v <= x < n ==> !#[trigger] flags[x],
        decreases n - v,
    {
        let package = graph.package(v);
        let passes = package.is_root && match packages {
            Some(names) => holds_name(names, &package.name),
            None => match to_ignore {
                Some(names) => !holds_name(names, &package.name),
                None => true,
            },
        };
        if passes {
            flags[v] = true;
        }
        v += 1;
    }
    let roots = listed(&flags);
    if roots.len() == 0 {
        proof {
            assert forall|x: int| !is_selected(m, *packages, *to_ignore, x) by {
                if is_selected(m, *packages, *to_ignore, x) {
                    assert(flags[x]);
                    assert(roots@.contains(x as usize));
                }
            }
        }
        Err(EmptyRootSetError)
    } else {
        Ok(roots)
    }
}

} // verus!
