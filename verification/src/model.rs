//! The mathematical model of the layering sweep.
//!
//! A graph on `n` nodes is given as a successor sequence of length `n`: entry
//! `i` is either the single successor of node `i`, or the sentinel value `n`
//! meaning "no successor". A frontier is a sequence of node indices (possibly
//! with sentinel entries, which stand for retired positions). The sweep
//! repeatedly drops sentinel entries, stops when nothing is left, and
//! otherwise stamps every surviving node with the current step number and
//! replaces each by its successor.

use vstd::prelude::*;

verus! {

/// Every entry of `s` is a node index in `[0, n)` or the sentinel `n`.
pub open spec fn entries_in_range(s: Seq<usize>, n: int) -> bool {
    forall|i: int| 0 <= i < s.len() ==> (#[trigger] s[i]) as int <= n
}

/// Every entry of `s` is a node index in `[0, n)`; the sentinel does not occur.
pub open spec fn nodes_only(s: Seq<usize>, n: int) -> bool {
    forall|i: int| 0 <= i < s.len() ==> ((#[trigger] s[i]) as int) < n
}

/// The frontier with every sentinel entry removed, order preserved.
pub open spec fn retire(f: Seq<usize>, n: int) -> Seq<usize>
    decreases f.len(),
{
    if f.len() == 0 {
        Seq::<usize>::empty()
    } else if f.last() as int == n {
        retire(f.drop_last(), n)
    } else {
        retire(f.drop_last(), n).push(f.last())
    }
}

/// Each frontier node replaced by its successor.
pub open spec fn advance(f: Seq<usize>, succ: Seq<usize>) -> Seq<usize> {
    Seq::new(f.len(), |i: int| succ[f[i] as int])
}

/// `labels` with every node listed in `f` stamped with `step`; nodes stamped
/// more than once keep the one value `step` all the same.
pub open spec fn stamp(labels: Seq<usize>, f: Seq<usize>, step: usize) -> Seq<usize>
    decreases f.len(),
{
    if f.len() == 0 {
        labels
    } else {
        stamp(labels, f.drop_last(), step).update(f.last() as int, step)
    }
}

/// Does the frontier list node `v`?
pub open spec fn has_node(f: Seq<usize>, v: int) -> bool {
    exists|k: int| 0 <= k < f.len() && f[k] as int == v
}

/// The sentinel-free frontier that the sweep stamps at its `k`-th stamping
/// step, counting from 0: retire the given frontier, then advance and retire
/// `k` more times.
pub open spec fn live_at(frontier: Seq<usize>, succ: Seq<usize>, k: nat) -> Seq<usize>
    decreases k,
{
    let live = retire(frontier, succ.len() as int);
    if k == 0 {
        live
    } else {
        live_at(advance(live, succ), succ, (k - 1) as nat)
    }
}

/// Does `path` trace the successor mapping: every entry a valid node, and
/// each later entry the successor of the one before it?
pub open spec fn is_chain(path: Seq<usize>, succ: Seq<usize>) -> bool {
    &&& (forall|i: int| 0 <= i < path.len() ==> ((#[trigger] path[i]) as int) < succ.len())
    &&& (forall|i: int| 1 <= i < path.len() ==> #[trigger] path[i] == succ[path[i - 1] as int])
}

/// A successor chain that returns to its first node: a cycle in the graph.
pub open spec fn is_cycle(path: Seq<usize>, succ: Seq<usize>) -> bool {
    &&& path.len() >= 2
    &&& is_chain(path, succ)
    &&& path[0] == path[path.len() - 1]
}

/// Can the frontier walk into a cycle: does some successor chain lead from a
/// node the retired frontier lists to the first node of a cycle?
pub open spec fn cycle_reachable_from(frontier: Seq<usize>, succ: Seq<usize>) -> bool {
    exists|p: Seq<usize>, cyc: Seq<usize>|
        {
            &&& #[trigger] is_chain(p, succ)
            &&& p.len() >= 1
            &&& has_node(retire(frontier, succ.len() as int), p[0] as int)
            &&& #[trigger] is_cycle(cyc, succ)
            &&& p[p.len() - 1] == cyc[0]
        }
}

/// One run of the layering loop, starting at step number `step`.
///
/// Sentinel entries are retired first; if nothing survives, the sweep is over
/// and `step` is its `loop_size`. Otherwise, provided the step bound has not
/// been passed, the surviving nodes are stamped with `step` and the frontier
/// advances one hop. A frontier that still survives after the bound means a
/// cycle is reachable from it, and the sweep yields `None`: with `n` nodes, a
/// sentinel-free path of `n + 1` nodes must repeat one.
pub open spec fn traverse(
    labels: Seq<usize>,
    frontier: Seq<usize>,
    succ: Seq<usize>,
    step: nat,
) -> Option<(Seq<usize>, nat)>
    decreases succ.len() + 2 - step,
{
    let live = retire(frontier, succ.len() as int);
    if live.len() == 0 {
        Some((labels, step))
    } else if step > succ.len() {
        None
    } else {
        traverse(stamp(labels, live, step as usize), advance(live, succ), succ, step + 1)
    }
}

/// The initial frontier derived from the sources: `succ` applied once to every
/// source node. A sentinel entry among the sources contributes a sentinel
/// frontier entry, which the first step retires.
pub open spec fn derived_frontier(sources: Seq<usize>, succ: Seq<usize>) -> Seq<usize> {
    Seq::new(
        sources.len(),
        |i: int| if sources[i] as int == succ.len() as int {
            sources[i]
        } else {
            succ[sources[i] as int]
        },
    )
}

/// `labels` with every valid node listed in `sinks` overridden with `v`;
/// a sentinel entry names no node and changes nothing.
pub open spec fn apply_sinks(labels: Seq<usize>, sinks: Seq<usize>, v: usize) -> Seq<usize>
    decreases sinks.len(),
{
    if sinks.len() == 0 {
        labels
    } else {
        let rest = apply_sinks(labels, sinks.drop_last(), v);
        if (sinks.last() as int) < labels.len() {
            rest.update(sinks.last() as int, v)
        } else {
            rest
        }
    }
}

/// A fresh label sequence: every node starts at the default depth 0.
pub open spec fn default_labels(n: nat) -> Seq<usize> {
    Seq::new(n, |i: int| 0usize)
}

/// The whole pipeline behind [`crate::engine::compute_labels`]: derive the
/// initial frontier from the sources, sweep over fresh default labels, then
/// override every sink with the terminal value `loop_size - 1`.
pub open spec fn compute_labels_model(
    succ: Seq<usize>,
    sources: Seq<usize>,
    sinks: Seq<usize>,
) -> Option<Seq<usize>> {
    match traverse(default_labels(succ.len()), derived_frontier(sources, succ), succ, 1) {
        Some((base, loop_size)) => Some(apply_sinks(base, sinks, (loop_size - 1) as usize)),
        None => None,
    }
}

/// The pipeline behind [`crate::engine::propagate_labels`]: sweep over a
/// caller-supplied label buffer and frontier; no sink override.
pub open spec fn propagate_labels_model(
    labels: Seq<usize>,
    frontier: Seq<usize>,
    succ: Seq<usize>,
) -> Option<Seq<usize>> {
    match traverse(labels, frontier, succ, 1) {
        Some((out, _)) => Some(out),
        None => None,
    }
}

} // verus!
