//! The executable layering engine.
//!
//! Node indices, frontiers and labels are plain `usize` values; the sentinel
//! "no successor" value is `n_nodes` itself, one past the last node. Both
//! entry points validate their inputs eagerly and touch no label on a
//! rejected input.

use vstd::prelude::*;

use crate::model::{
    advance, apply_sinks, compute_labels_model, default_labels, derived_frontier,
    entries_in_range, nodes_only, propagate_labels_model, retire, stamp, traverse,
};

verus! {

/// Why the engine refused to produce labels.
#[derive(Clone, Copy, Debug, PartialEq, Eq, Structural)]
pub enum TraversalError {
    /// Some successor, source, sink or frontier entry is neither a node index
    /// in `[0, n_nodes)` nor the sentinel `n_nodes`.
    OutOfRange,
    /// The frontier failed to empty within the step bound: a cycle is
    /// reachable, and no complete labeling exists.
    UnboundedTraversal,
}

/// Does every entry of `v` lie in `[0, n]`, i.e. name a node or the sentinel?
pub fn entries_ok(v: &Vec<usize>, n: usize) -> (r: bool)
    ensures
        r == entries_in_range(v@, n as int),
{
    let mut j: usize = 0;
    while j < v.len()
        invariant
            j <= v.len(),
            forall|i: int| 0 <= i < j ==> (#[trigger] v@[i]) as int <= n as int,
        decreases v.len() - j,
    {
        if v[j] > n {
            proof {
                assert(((v@[j as int]) as int) > (n as int));
            }
            return false;
        }
        j += 1;
    }
    true
}

/// A fresh copy of a vector of indices.
fn copy_indices(v: &Vec<usize>) -> (out: Vec<usize>)
    ensures
        out@ == v@,
{
    let mut out: Vec<usize> = Vec::new();
    let mut j: usize = 0;
    while j < v.len()
        invariant
            j <= v.len(),
            out@ =~= v@.take(j as int),
        decreases v.len() - j,
    {
        out.push(v[j]);
        j += 1;
    }
    proof {
        assert(v@.take(v@.len() as int) =~= v@);
    }
    out
}

/// A label buffer of length `n`, every node at the default depth 0.
fn default_label_buffer(n: usize) -> (out: Vec<usize>)
    ensures
        out@ == default_labels(n as nat),
{
    let mut out: Vec<usize> = Vec::new();
    let mut j: usize = 0;
    while j < n
        invariant
            j <= n,
            out@.len() == j,
            forall|i: int| 0 <= i < j ==> out@[i] == 0usize,
        decreases n - j,
    {
        out.push(0);
        j += 1;
    }
    proof {
        assert(out@ =~= default_labels(n as nat));
    }
    out
}

/// The frontier with every sentinel entry dropped, order preserved.
fn retire_frontier(f: &Vec<usize>, n: usize) -> (out: Vec<usize>)
    requires
        entries_in_range(f@, n as int),
    ensures
        out@ == retire(f@, n as int),
        nodes_only(out@, n as int),
{
    let mut out: Vec<usize> = Vec::new();
    let mut j: usize = 0;
    while j < f.len()
        invariant
            j <= f.len(),
            entries_in_range(f@, n as int),
            out@ == retire(f@.take(j as int), n as int),
            nodes_only(out@, n as int),
        decreases f.len() - j,
    {
        let x = f[j];
        proof {
            assert(f@.take(j as int + 1).drop_last() =~= f@.take(j as int));
            assert(f@.take(j as int + 1).last() == f@[j as int]);
        }
        if x != n {
            out.push(x);
        }
        j += 1;
    }
    proof {
        assert(f@.take(f@.len() as int) =~= f@);
    }
    out
}

/// Stamp every node listed in `f` with `step`.
fn stamp_frontier(labels: &mut Vec<usize>, f: &Vec<usize>, step: usize)
    requires
        nodes_only(f@, old(labels).len() as int),
    ensures
        final(labels)@ == stamp(old(labels)@, f@, step),
        final(labels).len() == old(labels).len(),
{
    let mut j: usize = 0;
    while j < f.len()
        invariant
            j <= f.len(),
            labels.len() == old(labels).len(),
            nodes_only(f@, labels.len() as int),
            labels@ == stamp(old(labels)@, f@.take(j as int), step),
        decreases f.len() - j,
    {
        let node = f[j];
        proof {
            assert(f@.take(j as int + 1).drop_last() =~= f@.take(j as int));
            assert(f@.take(j as int + 1).last() == f@[j as int]);
        }
        labels[node] = step;
        j += 1;
    }
    proof {
        assert(f@.take(f@.len() as int) =~= f@);
    }
}

/// Replace each frontier node by its successor.
fn advance_frontier(f: &Vec<usize>, succ: &Vec<usize>) -> (out: Vec<usize>)
    requires
        nodes_only(f@, succ.len() as int),
        entries_in_range(succ@, succ.len() as int),
    ensures
        out@ == advance(f@, succ@),
        entries_in_range(out@, succ.len() as int),
{
    let mut out: Vec<usize> = Vec::new();
    let mut j: usize = 0;
    while j < f.len()
        invariant
            j <= f.len(),
            nodes_only(f@, succ.len() as int),
            entries_in_range(succ@, succ.len() as int),
            out@.len() == j,
            forall|k: int| 0 <= k < j ==> out@[k] == succ@[f@[k] as int],
            entries_in_range(out@, succ.len() as int),
        decreases f.len() - j,
    {
        let node = f[j];
        out.push(succ[node]);
        j += 1;
    }
    proof {
        assert(out@ =~= advance(f@, succ@));
    }
    out
}

/// The initial frontier of [`compute_labels`]: the successor of every source.
fn derive_frontier(sources: &Vec<usize>, succ: &Vec<usize>) -> (out: Vec<usize>)
    requires
        entries_in_range(sources@, succ.len() as int),
        entries_in_range(succ@, succ.len() as int),
    ensures
        out@ == derived_frontier(sources@, succ@),
        entries_in_range(out@, succ.len() as int),
{
    let n = succ.len();
    let mut out: Vec<usize> = Vec::new();
    let mut j: usize = 0;
    while j < sources.len()
        invariant
            j <= sources.len(),
            succ.len() == n,
            entries_in_range(sources@, n as int),
            entries_in_range(succ@, n as int),
            entries_in_range(out@, n as int),
            out@.len() == j,
            forall|k: int| 0 <= k < j ==> out@[k] == derived_frontier(sources@, succ@)[k],
        decreases sources.len() - j,
    {
        let s = sources[j];
        if s == n {
            out.push(s);
        } else {
            out.push(succ[s]);
        }
        j += 1;
    }
    proof {
        assert(out@ =~= derived_frontier(sources@, succ@));
    }
    out
}

/// Override every valid node listed in `sinks` with the terminal value `v`.
fn override_sinks(labels: &mut Vec<usize>, sinks: &Vec<usize>, v: usize)
    ensures
        final(labels)@ == apply_sinks(old(labels)@, sinks@, v),
        final(labels).len() == old(labels).len(),
{
    let mut j: usize = 0;
    while j < sinks.len()
        invariant
            j <= sinks.len(),
            labels.len() == old(labels).len(),
            labels@ == apply_sinks(old(labels)@, sinks@.take(j as int), v),
        decreases sinks.len() - j,
    {
        let s = sinks[j];
        proof {
            assert(sinks@.take(j as int + 1).drop_last() =~= sinks@.take(j as int));
            assert(sinks@.take(j as int + 1).last() == sinks@[j as int]);
        }
        if s < labels.len() {
            labels[s] = v;
        }
        j += 1;
    }
    proof {
        assert(sinks@.take(sinks@.len() as int) =~= sinks@);
    }
}

/// The consolidated sweep shared by both entry points: retire, stop or stamp,
/// advance, one step at a time, over a caller-owned label buffer.
///
/// On success the returned step count is the `loop_size` of the sweep: the
/// first step at which the frontier was found empty.
#[verifier::loop_isolation(false)]
pub fn run_traversal(labels: &mut Vec<usize>, frontier: Vec<usize>, succ: &Vec<usize>) -> (result:
    Result<usize, TraversalError>)
    requires
        old(labels).len() == succ.len(),
        succ.len() < usize::MAX,
        entries_in_range(succ@, succ.len() as int),
        entries_in_range(frontier@, succ.len() as int),
    ensures
        match result {
            Ok(loop_size) => {
                &&& traverse(old(labels)@, frontier@, succ@, 1) == Some(
                    (final(labels)@, loop_size as nat),
                )
                &&& 1 <= loop_size <= succ.len() + 1
                &&& final(labels).len() == old(labels).len()
            },
            Err(e) => {
                &&& e == TraversalError::UnboundedTraversal
                &&& traverse(old(labels)@, frontier@, succ@, 1) is None
                &&& final(labels).len() == old(labels).len()
            },
        },
{
    let n = succ.len();
    let ghost frontier0 = frontier@;
    let mut current = frontier;
    let mut step: usize = 1;
    loop
        invariant
            labels.len() == n,
            entries_in_range(current@, n as int),
            1 <= step <= n + 1,
            traverse(old(labels)@, frontier0, succ@, 1) == traverse(
                labels@,
                current@,
                succ@,
                step as nat,
            ),
        decreases n + 2 - step,
    {
        let live = retire_frontier(&current, n);
        if live.len() == 0 {
            proof {
                assert(retire(current@, n as int).len() == 0);
            }
            return Ok(step);
        }
        if step > n {
            return Err(TraversalError::UnboundedTraversal);
        }
        stamp_frontier(labels, &live, step);
        let next = advance_frontier(&live, succ);
        current = next;
        step += 1;
    }
}

/// Compute depth labels from scratch.
///
/// Every entry of `successor` must be a node index or the sentinel
/// `successor.len()`, and likewise every entry of `sources` and `sinks`;
/// otherwise no label is computed and the out-of-range input is reported.
/// The initial frontier is the successor of every source, so sources
/// themselves keep the default label 0 unless something reaches them. Each
/// node reached at step `k` of the sweep ends with label `k` (the last such
/// `k` if it is reached more than once), unreached nodes keep 0, and every
/// sink is then overridden with `loop_size - 1`. A frontier that survives
/// past the step bound means a reachable cycle and is reported instead of any
/// partial result.
pub fn compute_labels(successor: &Vec<usize>, sources: &Vec<usize>, sinks: &Vec<usize>) -> (result:
    Result<Vec<usize>, TraversalError>)
    requires
        successor.len() < usize::MAX,
    ensures
        ({
            let n = successor.len() as int;
            let ok = entries_in_range(successor@, n) && entries_in_range(sources@, n)
                && entries_in_range(sinks@, n);
            match result {
                Ok(out) => ok && compute_labels_model(successor@, sources@, sinks@) == Some(out@)
                    && out@.len() == successor@.len(),
                Err(e) => if !ok {
                    e == TraversalError::OutOfRange
                } else {
                    e == TraversalError::UnboundedTraversal && compute_labels_model(
                        successor@,
                        sources@,
                        sinks@,
                    ) is None
                },
            }
        }),
{
    let n = successor.len();
    if !entries_ok(successor, n) || !entries_ok(sources, n) || !entries_ok(sinks, n) {
        return Err(TraversalError::OutOfRange);
    }
    let frontier = derive_frontier(sources, successor);
    let mut labels = default_label_buffer(n);
    match run_traversal(&mut labels, frontier, successor) {
        Ok(loop_size) => {
            let terminal = loop_size - 1;
            override_sinks(&mut labels, sinks, terminal);
            Ok(labels)
        },
        Err(e) => Err(e),
    }
}

/// Advance a caller-supplied frontier over a caller-supplied label buffer.
///
/// The buffer is taken over, labeled in place and handed back on success:
/// each node reached at step `k` ends with label `k` (the last such `k` if it
/// is reached more than once), and every other entry keeps the value the
/// caller put there. There is no sink override. The same eager validation
/// and cycle report apply as for [`compute_labels`]; on an error the buffer
/// is discarded, so no partial labeling escapes.
pub fn propagate_labels(
    labels: Vec<usize>,
    initial_frontier: &Vec<usize>,
    successor: &Vec<usize>,
    n_nodes: usize,
) -> (result: Result<Vec<usize>, TraversalError>)
    requires
        labels.len() == n_nodes,
        successor.len() == n_nodes,
        n_nodes < usize::MAX,
    ensures
        ({
            let ok = entries_in_range(successor@, n_nodes as int) && entries_in_range(
                initial_frontier@,
                n_nodes as int,
            );
            match result {
                Ok(out) => ok && propagate_labels_model(labels@, initial_frontier@, successor@)
                    == Some(out@) && out@.len() == n_nodes,
                Err(e) => if !ok {
                    e == TraversalError::OutOfRange
                } else {
                    e == TraversalError::UnboundedTraversal && propagate_labels_model(
                        labels@,
                        initial_frontier@,
                        successor@,
                    ) is None
                },
            }
        }),
{
    if !entries_ok(successor, n_nodes) || !entries_ok(initial_frontier, n_nodes) {
        return Err(TraversalError::OutOfRange);
    }
    let mut buffer = labels;
    let frontier = copy_indices(initial_frontier);
    match run_traversal(&mut buffer, frontier, successor) {
        Ok(_) => Ok(buffer),
        Err(e) => Err(e),
    }
}

} // verus!
