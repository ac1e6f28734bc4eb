//! The laws of the layering sweep, proved once and for all over the model:
//! what each node's final label means, when the sweep stops and with which
//! `loop_size`, that the unbounded-traversal report comes exactly when a
//! cycle is reachable from the frontier, that the computation is a pure
//! function of its inputs, and how the two entry points relate.

use vstd::prelude::*;

use crate::model::{
    advance, apply_sinks, compute_labels_model, cycle_reachable_from, default_labels,
    derived_frontier, entries_in_range, has_node, is_chain, is_cycle, live_at, nodes_only,
    propagate_labels_model, retire, stamp, traverse,
};
use vstd::set_lib::{lemma_int_range, lemma_len_subset, set_int_range};

verus! {

/// Retiring an in-range frontier leaves node indices only: every sentinel
/// entry is dropped and nothing else changes.
proof fn lemma_retire_keeps_nodes(f: Seq<usize>, n: int)
    requires
        entries_in_range(f, n),
    ensures
        nodes_only(retire(f, n), n),
    decreases f.len(),
{
    if f.len() > 0 {
        assert forall|i: int| 0 <= i < f.drop_last().len() implies ((#[trigger] f.drop_last()[i]) as int) <= n by {
            assert(f.drop_last()[i] == f[i]);
        }
        lemma_retire_keeps_nodes(f.drop_last(), n);
    }
}

/// What one stamping step does to one node: a node listed on the frontier
/// gets the step number, every other node keeps its label.
proof fn lemma_stamp_pointwise(labels: Seq<usize>, f: Seq<usize>, step: usize, v: int)
    requires
        nodes_only(f, labels.len() as int),
        0 <= v < labels.len(),
    ensures
        stamp(labels, f, step).len() == labels.len(),
        stamp(labels, f, step)[v] == if has_node(f, v) {
            step
        } else {
            labels[v]
        },
    decreases f.len(),
{
    if f.len() == 0 {
        assert(!has_node(f, v));
    } else {
        assert forall|i: int| 0 <= i < f.drop_last().len() implies ((#[trigger] f.drop_last()[i]) as int) < labels.len() as int by {
            assert(f.drop_last()[i] == f[i]);
        }
        lemma_stamp_pointwise(labels, f.drop_last(), step, v);
        if f.last() as int == v {
            assert(f[f.len() - 1] as int == v);
            assert(has_node(f, v));
        } else {
            if has_node(f, v) {
                let k = choose|k: int| 0 <= k < f.len() && f[k] as int == v;
                assert(k < f.len() - 1);
                assert(f.drop_last()[k] == f[k]);
                assert(has_node(f.drop_last(), v));
            }
            if has_node(f.drop_last(), v) {
                let k = choose|k: int| 0 <= k < f.drop_last().len() && f.drop_last()[k] as int == v;
                assert(f[k] == f.drop_last()[k]);
                assert(has_node(f, v));
            }
        }
    }
}

/// Once the live frontier is empty it stays empty forever.
proof fn lemma_live_at_of_empty(frontier: Seq<usize>, succ: Seq<usize>, k: nat)
    requires
        retire(frontier, succ.len() as int).len() == 0,
    ensures
        live_at(frontier, succ, k).len() == 0,
    decreases k,
{
    if k > 0 {
        let next = advance(retire(frontier, succ.len() as int), succ);
        assert(next.len() == 0);
        assert(retire(next, succ.len() as int).len() == 0);
        lemma_live_at_of_empty(next, succ, (k - 1) as nat);
    }
}

/// The pointwise meaning of a completed sweep, for every node `v`: the label
/// of a node that the frontier visits is the step number of its last visit,
/// and a node the frontier never visits keeps the label it started with.
pub proof fn lemma_traverse_labels_pointwise(
    labels: Seq<usize>,
    frontier: Seq<usize>,
    succ: Seq<usize>,
    step: nat,
    v: int,
)
    requires
        labels.len() == succ.len(),
        succ.len() < usize::MAX,
        entries_in_range(frontier, succ.len() as int),
        entries_in_range(succ, succ.len() as int),
        0 <= v < labels.len(),
    ensures
        match traverse(labels, frontier, succ, step) {
            Some((out, loop_size)) => {
                &&& out.len() == labels.len()
                &&& step <= loop_size
                &&& loop_size == step || loop_size <= succ.len() + 1
                &&& ((forall|k: nat| !has_node(#[trigger] live_at(frontier, succ, k), v))
                    ==> out[v] == labels[v])
                &&& (forall|k: nat|
                    (has_node(#[trigger] live_at(frontier, succ, k), v) && (forall|k2: nat|
                        k2 > k ==> !has_node(#[trigger] live_at(frontier, succ, k2), v)))
                        ==> out[v] as int == step + k)
            },
            None => true,
        },
    decreases succ.len() + 2 - step,
{
    let n = succ.len() as int;
    let live = retire(frontier, n);
    lemma_retire_keeps_nodes(frontier, n);
    if live.len() == 0 {
        assert forall|k: nat| !has_node(#[trigger] live_at(frontier, succ, k), v) by {
            lemma_live_at_of_empty(frontier, succ, k);
        }
    } else if step > succ.len() {
        // the sweep yields None; nothing to show
    } else {
        let labels2 = stamp(labels, live, step as usize);
        let frontier2 = advance(live, succ);
        lemma_stamp_pointwise(labels, live, step as usize, v);
        assert forall|i: int| 0 <= i < frontier2.len() implies ((#[trigger] frontier2[i]) as int) <= n by {
            assert(frontier2[i] == succ[live[i] as int]);
        }
        lemma_traverse_labels_pointwise(labels2, frontier2, succ, step + 1, v);
        assert(live_at(frontier, succ, 0) == live);
        match traverse(labels, frontier, succ, step) {
            Some((out, loop_size)) => {
                assert(traverse(labels2, frontier2, succ, step + 1) == Some((out, loop_size)));
                // a node never visited keeps its label
                if forall|k: nat| !has_node(#[trigger] live_at(frontier, succ, k), v) {
                    assert(!has_node(live_at(frontier, succ, 0), v));
                    assert(!has_node(live, v));
                    assert(labels2[v] == labels[v]);
                    assert forall|k: nat| !has_node(#[trigger] live_at(frontier2, succ, k), v) by {
                        assert(live_at(frontier, succ, (k + 1) as nat) == live_at(
                            frontier2,
                            succ,
                            k,
                        ));
                        assert(!has_node(live_at(frontier, succ, (k + 1) as nat), v));
                    }
                    assert(out[v] == labels2[v]);
                }
                // the last visit decides the label
                assert forall|k: nat|
                    (has_node(#[trigger] live_at(frontier, succ, k), v) && (forall|k2: nat|
                        k2 > k ==> !has_node(#[trigger] live_at(frontier, succ, k2), v)))
                        implies out[v] as int == step + k by {
                    if k == 0 {
                        assert(has_node(live, v));
                        assert(labels2[v] == step as usize);
                        assert forall|k3: nat| !has_node(
                            #[trigger] live_at(frontier2, succ, k3),
                            v,
                        ) by {
                            assert(live_at(frontier, succ, (k3 + 1) as nat) == live_at(
                                frontier2,
                                succ,
                                k3,
                            ));
                            assert(!has_node(live_at(frontier, succ, (k3 + 1) as nat), v));
                        }
                        assert(out[v] == labels2[v]);
                        assert(step <= succ.len());
                        assert(labels2[v] as int == step + k);
                    } else {
                        assert(live_at(frontier, succ, k) == live_at(
                            frontier2,
                            succ,
                            (k - 1) as nat,
                        ));
                        assert(has_node(live_at(frontier2, succ, (k - 1) as nat), v));
                        assert forall|k2: nat| k2 > (k - 1) as nat implies !has_node(
                            #[trigger] live_at(frontier2, succ, k2),
                            v,
                        ) by {
                            assert(live_at(frontier, succ, (k2 + 1) as nat) == live_at(
                                frontier2,
                                succ,
                                k2,
                            ));
                            assert(!has_node(live_at(frontier, succ, (k2 + 1) as nat), v));
                        }
                        assert(out[v] as int == (step + 1) + (k - 1));
                    }
                }
            },
            None => {},
        }
    }
}

/// What ending a sweep means: on success, `loop_size` is the first step at
/// which the live frontier was empty, counted from `step`; on failure, the
/// live frontier was still occupied at every step the bound allowed, so the
/// sweep never returned silently with the frontier alive.
pub proof fn lemma_termination_characterized(
    labels: Seq<usize>,
    frontier: Seq<usize>,
    succ: Seq<usize>,
    step: nat,
)
    requires
        entries_in_range(frontier, succ.len() as int),
        entries_in_range(succ, succ.len() as int),
    ensures
        match traverse(labels, frontier, succ, step) {
            Some((out, loop_size)) => {
                &&& step <= loop_size
                &&& loop_size == step || loop_size <= succ.len() + 1
                &&& live_at(frontier, succ, (loop_size - step) as nat).len() == 0
                &&& (forall|k: nat|
                    k < loop_size - step ==> #[trigger] live_at(frontier, succ, k).len() > 0)
            },
            None => forall|k: nat|
                step + k <= succ.len() + 1 ==> #[trigger] live_at(frontier, succ, k).len() > 0,
        },
    decreases succ.len() + 2 - step,
{
    let n = succ.len() as int;
    let live = retire(frontier, n);
    lemma_retire_keeps_nodes(frontier, n);
    assert(live_at(frontier, succ, 0) == live);
    if live.len() == 0 {
        // the sweep stops here and loop_size - step is 0
    } else if step > succ.len() {
        assert forall|k: nat| step + k <= succ.len() + 1 implies #[trigger] live_at(
            frontier,
            succ,
            k,
        ).len() > 0 by {
            assert(k == 0);
        }
    } else {
        let frontier2 = advance(live, succ);
        assert forall|i: int| 0 <= i < frontier2.len() implies ((#[trigger] frontier2[i]) as int)
            <= n by {
            assert(frontier2[i] == succ[live[i] as int]);
        }
        lemma_termination_characterized(stamp(labels, live, step as usize), frontier2, succ, step + 1);
        match traverse(labels, frontier, succ, step) {
            Some((out, loop_size)) => {
                assert(live_at(frontier, succ, (loop_size - step) as nat) == live_at(
                    frontier2,
                    succ,
                    (loop_size - (step + 1)) as nat,
                ));
                assert forall|k: nat| k < loop_size - step implies #[trigger] live_at(
                    frontier,
                    succ,
                    k,
                ).len() > 0 by {
                    if k > 0 {
                        assert(live_at(frontier, succ, k) == live_at(
                            frontier2,
                            succ,
                            (k - 1) as nat,
                        ));
                        assert(live_at(frontier2, succ, (k - 1) as nat).len() > 0);
                    }
                }
            },
            None => {
                assert forall|k: nat| step + k <= succ.len() + 1 implies #[trigger] live_at(
                    frontier,
                    succ,
                    k,
                ).len() > 0 by {
                    if k > 0 {
                        assert(live_at(frontier, succ, k) == live_at(
                            frontier2,
                            succ,
                            (k - 1) as nat,
                        ));
                        assert((step + 1) + (k - 1) <= succ.len() + 1);
                        assert(live_at(frontier2, succ, (k - 1) as nat).len() > 0);
                    }
                }
            },
        }
    }
}

/// What the sink override does to one node: a node listed among the sinks
/// gets the terminal value, every other node keeps its label.
proof fn lemma_apply_sinks_pointwise(labels: Seq<usize>, sinks: Seq<usize>, terminal: usize, v: int)
    requires
        0 <= v < labels.len(),
    ensures
        apply_sinks(labels, sinks, terminal).len() == labels.len(),
        apply_sinks(labels, sinks, terminal)[v] == if has_node(sinks, v) {
            terminal
        } else {
            labels[v]
        },
    decreases sinks.len(),
{
    if sinks.len() == 0 {
        assert(!has_node(sinks, v));
    } else {
        lemma_apply_sinks_pointwise(labels, sinks.drop_last(), terminal, v);
        if sinks.last() as int == v {
            assert(sinks[sinks.len() - 1] as int == v);
            assert(has_node(sinks, v));
        } else {
            if has_node(sinks, v) {
                let k = choose|k: int| 0 <= k < sinks.len() && sinks[k] as int == v;
                assert(k < sinks.len() - 1);
                assert(sinks.drop_last()[k] == sinks[k]);
                assert(has_node(sinks.drop_last(), v));
            }
            if has_node(sinks.drop_last(), v) {
                let k = choose|k: int|
                    0 <= k < sinks.drop_last().len() && sinks.drop_last()[k] as int == v;
                assert(sinks[k] == sinks.drop_last()[k]);
                assert(has_node(sinks, v));
            }
        }
    }
}

/// The full pointwise contract of a from-scratch computation, for every node
/// `v`: a sink ends at the terminal value `loop_size - 1`; any other node
/// that the sweep visits ends at the step number of its last visit; any other
/// node the sweep never visits keeps the default label 0.
pub proof fn lemma_compute_labels_pointwise(
    succ: Seq<usize>,
    sources: Seq<usize>,
    sinks: Seq<usize>,
    v: int,
)
    requires
        succ.len() < usize::MAX,
        entries_in_range(succ, succ.len() as int),
        entries_in_range(sources, succ.len() as int),
        entries_in_range(sinks, succ.len() as int),
        0 <= v < succ.len(),
    ensures
        match traverse(default_labels(succ.len()), derived_frontier(sources, succ), succ, 1) {
            Some((base, loop_size)) => {
                let start = derived_frontier(sources, succ);
                let out = apply_sinks(base, sinks, (loop_size - 1) as usize);
                &&& compute_labels_model(succ, sources, sinks) == Some(out)
                &&& out.len() == succ.len()
                &&& 1 <= loop_size <= succ.len() + 1
                &&& (has_node(sinks, v) ==> out[v] as int == loop_size - 1)
                &&& ((!has_node(sinks, v) && (forall|k: nat|
                    !has_node(#[trigger] live_at(start, succ, k), v))) ==> out[v] == 0)
                &&& (forall|k: nat|
                    (!has_node(sinks, v) && has_node(#[trigger] live_at(start, succ, k), v) && (
                    forall|k2: nat|
                        k2 > k ==> !has_node(#[trigger] live_at(start, succ, k2), v)))
                        ==> out[v] as int == 1 + k)
            },
            None => compute_labels_model(succ, sources, sinks) is None,
        },
{
    let n = succ.len() as int;
    let start = derived_frontier(sources, succ);
    assert forall|i: int| 0 <= i < start.len() implies ((#[trigger] start[i]) as int) <= n by {
        if sources[i] as int == n {
            assert(start[i] == sources[i]);
        } else {
            assert(start[i] == succ[sources[i] as int]);
        }
    }
    lemma_traverse_labels_pointwise(default_labels(succ.len()), start, succ, 1, v);
    match traverse(default_labels(succ.len()), start, succ, 1) {
        Some((base, loop_size)) => {
            lemma_apply_sinks_pointwise(base, sinks, (loop_size - 1) as usize, v);
            assert(default_labels(succ.len())[v] == 0usize);
        },
        None => {},
    }
}

/// The full pointwise contract of the in-place variant, for every node `v`:
/// a node that the frontier visits ends at the step number of its last
/// visit, and a node the frontier never visits keeps the label the caller
/// put there.
pub proof fn lemma_propagate_labels_pointwise(
    labels: Seq<usize>,
    frontier: Seq<usize>,
    succ: Seq<usize>,
    v: int,
)
    requires
        labels.len() == succ.len(),
        succ.len() < usize::MAX,
        entries_in_range(frontier, succ.len() as int),
        entries_in_range(succ, succ.len() as int),
        0 <= v < labels.len(),
    ensures
        match propagate_labels_model(labels, frontier, succ) {
            Some(out) => {
                &&& out.len() == labels.len()
                &&& ((forall|k: nat| !has_node(#[trigger] live_at(frontier, succ, k), v))
                    ==> out[v] == labels[v])
                &&& (forall|k: nat|
                    (has_node(#[trigger] live_at(frontier, succ, k), v) && (forall|k2: nat|
                        k2 > k ==> !has_node(#[trigger] live_at(frontier, succ, k2), v)))
                        ==> out[v] as int == 1 + k)
            },
            None => true,
        },
{
    lemma_traverse_labels_pointwise(labels, frontier, succ, 1, v);
}

/// A node listed by the retired frontier is listed by the frontier itself.
proof fn lemma_retire_membership(f: Seq<usize>, n: int, x: int)
    requires
        has_node(retire(f, n), x),
    ensures
        has_node(f, x),
    decreases f.len(),
{
    if f.len() == 0 {
        // the retired frontier is empty, so the premise cannot hold
    } else if f.last() as int == n {
        lemma_retire_membership(f.drop_last(), n, x);
        let k = choose|k: int| 0 <= k < f.drop_last().len() && f.drop_last()[k] as int == x;
        assert(f[k] == f.drop_last()[k]);
        assert(has_node(f, x));
    } else {
        let r = retire(f.drop_last(), n);
        if f.last() as int == x {
            assert(f[f.len() - 1] as int == x);
            assert(has_node(f, x));
        } else {
            let k = choose|k: int| 0 <= k < retire(f, n).len() && retire(f, n)[k] as int == x;
            assert(retire(f, n) == r.push(f.last()));
            assert(k < r.len());
            assert(r[k] == retire(f, n)[k]);
            assert(has_node(r, x));
            lemma_retire_membership(f.drop_last(), n, x);
            let k2 = choose|k2: int| 0 <= k2 < f.drop_last().len() && f.drop_last()[k2] as int == x;
            assert(f[k2] == f.drop_last()[k2]);
            assert(has_node(f, x));
        }
    }
}

/// Behind every occupied live frontier stands a successor chain: one node per
/// step so far, each drawn from the live frontier of its step.
proof fn lemma_chain_into_live(frontier: Seq<usize>, succ: Seq<usize>, k: nat)
    requires
        entries_in_range(frontier, succ.len() as int),
        entries_in_range(succ, succ.len() as int),
        live_at(frontier, succ, k).len() > 0,
    ensures
        exists|path: Seq<usize>|
            {
                &&& #[trigger] is_chain(path, succ)
                &&& path.len() == k + 1
                &&& (forall|i: nat|
                    i <= k ==> has_node(
                        #[trigger] live_at(frontier, succ, i),
                        path[i as int] as int,
                    ))
            },
    decreases k,
{
    let n = succ.len() as int;
    let live = retire(frontier, n);
    lemma_retire_keeps_nodes(frontier, n);
    assert(live_at(frontier, succ, 0) == live);
    if k == 0 {
        let path = seq![live[0]];
        assert(has_node(live, live[0] as int));
        assert(is_chain(path, succ));
        assert forall|i: nat| i <= k implies has_node(
            #[trigger] live_at(frontier, succ, i),
            path[i as int] as int,
        ) by {
            assert(i == 0);
        }
    } else {
        let frontier2 = advance(live, succ);
        assert forall|i: int| 0 <= i < frontier2.len() implies ((#[trigger] frontier2[i]) as int)
            <= n by {
            assert(frontier2[i] == succ[live[i] as int]);
        }
        assert(live_at(frontier, succ, k) == live_at(frontier2, succ, (k - 1) as nat));
        lemma_chain_into_live(frontier2, succ, (k - 1) as nat);
        let path2 = choose|path: Seq<usize>|
            {
                &&& #[trigger] is_chain(path, succ)
                &&& path.len() == (k - 1) as nat + 1
                &&& (forall|i: nat|
                    i <= (k - 1) as nat ==> has_node(
                        #[trigger] live_at(frontier2, succ, i),
                        path[i as int] as int,
                    ))
            };
        assert(has_node(live_at(frontier2, succ, 0), path2[0] as int));
        assert(live_at(frontier2, succ, 0) == retire(frontier2, n));
        lemma_retire_membership(frontier2, n, path2[0] as int);
        let jj = choose|j: int| 0 <= j < frontier2.len() && frontier2[j] as int == path2[0] as int;
        assert(frontier2[jj] == succ[live[jj] as int]);
        let y = live[jj];
        let path = seq![y] + path2;
        assert(path.len() == k + 1);
        assert(path[0] == y);
        assert forall|i: int| 1 <= i < path.len() implies path[i] == path2[i - 1] by {}
        assert(is_chain(path, succ)) by {
            assert forall|i: int| 0 <= i < path.len() implies ((path[i]) as int) < succ.len() by {
                if i == 0 {
                    assert(path[0] == y);
                } else {
                    assert(path[i] == path2[i - 1]);
                }
            }
            assert forall|i: int| 1 <= i < path.len() implies #[trigger] path[i] == succ[path[i
                - 1] as int] by {
                if i == 1 {
                    assert(path[1] == path2[0]);
                    assert(path2[0] == frontier2[jj]);
                    assert(path[0] == y);
                } else {
                    assert(path[i] == path2[i - 1]);
                    assert(path[i - 1] == path2[i - 2]);
                    assert(path2[i - 1] == succ[path2[i - 2] as int]);
                }
            }
        };
        assert forall|i: nat| i <= k implies has_node(
            #[trigger] live_at(frontier, succ, i),
            path[i as int] as int,
        ) by {
            if i == 0 {
                assert(live[jj] == y);
                assert(has_node(live, y as int));
            } else {
                assert(path[i as int] == path2[i as int - 1]);
                assert(has_node(
                    live_at(frontier2, succ, (i - 1) as nat),
                    path2[(i - 1) as int] as int,
                ));
                assert(live_at(frontier, succ, i) == live_at(frontier2, succ, (i - 1) as nat));
            }
        }
        assert(is_chain(path, succ) && path.len() == k + 1 && (forall|i: nat|
            i <= k ==> has_node(#[trigger] live_at(frontier, succ, i), path[i as int] as int)));
    }
}

/// Among more than `n` nodes all drawn from `[0, n)`, two must be equal.
proof fn lemma_pigeonhole(path: Seq<usize>, n: int)
    requires
        n >= 0,
        path.len() > n,
        forall|i: int| 0 <= i < path.len() ==> ((#[trigger] path[i]) as int) < n,
    ensures
        exists|i: int, j: int| 0 <= i < j < path.len() && path[i] == path[j],
{
    broadcast use vstd::seq_lib::seq_to_set_is_finite;
    broadcast use vstd::set::group_set_axioms;

    if !(exists|i: int, j: int| 0 <= i < j < path.len() && path[i] == path[j]) {
        let ipath = Seq::new(path.len(), |i: int| path[i] as int);
        assert forall|i: int, j: int|
            0 <= i < ipath.len() && 0 <= j < ipath.len() && i != j implies ipath[i] != ipath[j] by {
            if i < j {
                assert(!(0 <= i < j < path.len() && path[i] == path[j]));
            } else {
                assert(!(0 <= j < i < path.len() && path[j] == path[i]));
            }
        }
        assert(ipath.no_duplicates());
        ipath.unique_seq_to_set();
        lemma_int_range(0, n);
        assert forall|x: int| ipath.to_set().contains(x) implies set_int_range(0, n).contains(
            x,
        ) by {
            let idx = choose|idx: int| 0 <= idx < ipath.len() && ipath[idx] == x;
            assert(0 <= (path[idx] as int) && (path[idx] as int) < n);
        }
        assert(ipath.to_set().subset_of(set_int_range(0, n)));
        lemma_len_subset(ipath.to_set(), set_int_range(0, n));
        assert(ipath.to_set().len() <= n);
        assert(ipath.len() == ipath.to_set().len());
        assert(false);
    }
}

/// The cycle report is sound: when a sweep started at step 1 fails, some
/// successor chain leads from a frontier node into a cycle. Read the other
/// way around, when no cycle is reachable from the frontier the engine never
/// reports an unbounded traversal.
pub proof fn lemma_failure_implies_cycle(labels: Seq<usize>, frontier: Seq<usize>, succ: Seq<usize>)
    requires
        entries_in_range(frontier, succ.len() as int),
        entries_in_range(succ, succ.len() as int),
        traverse(labels, frontier, succ, 1) is None,
    ensures
        cycle_reachable_from(frontier, succ),
        exists|cyc: Seq<usize>| #[trigger] is_cycle(cyc, succ),
{
    let n = succ.len();
    lemma_termination_characterized(labels, frontier, succ, 1);
    assert(live_at(frontier, succ, n).len() > 0);
    lemma_chain_into_live(frontier, succ, n);
    let path = choose|path: Seq<usize>|
        {
            &&& #[trigger] is_chain(path, succ)
            &&& path.len() == n + 1
            &&& (forall|i: nat|
                i <= n ==> has_node(#[trigger] live_at(frontier, succ, i), path[i as int] as int))
        };
    lemma_pigeonhole(path, n as int);
    let (i, j) = choose|i: int, j: int| 0 <= i < j < path.len() && path[i] == path[j];
    let cyc = path.subrange(i, j + 1);
    assert(cyc.len() == j + 1 - i);
    assert(is_chain(cyc, succ)) by {
        assert forall|m: int| 0 <= m < cyc.len() implies ((cyc[m]) as int) < succ.len() by {
            assert(cyc[m] == path[i + m]);
        }
        assert forall|m: int| 1 <= m < cyc.len() implies #[trigger] cyc[m] == succ[cyc[m
            - 1] as int] by {
            assert(cyc[m] == path[i + m]);
            assert(cyc[m - 1] == path[i + m - 1]);
            assert(path[i + m] == succ[path[i + m - 1] as int]);
        }
    };
    assert(cyc[0] == path[i]);
    assert(cyc[cyc.len() - 1] == path[j]);
    assert(is_cycle(cyc, succ));
    let p = path.subrange(0, i + 1);
    assert(is_chain(p, succ)) by {
        assert forall|m: int| 0 <= m < p.len() implies ((p[m]) as int) < succ.len() by {
            assert(p[m] == path[m]);
        }
        assert forall|m: int| 1 <= m < p.len() implies #[trigger] p[m] == succ[p[m
            - 1] as int] by {
            assert(p[m] == path[m]);
            assert(p[m - 1] == path[m - 1]);
        }
    };
    assert(has_node(live_at(frontier, succ, 0), path[0] as int));
    assert(live_at(frontier, succ, 0) == retire(frontier, succ.len() as int));
    assert(p[0] == path[0]);
    assert(p[p.len() - 1] == path[i]);
    assert(is_chain(p, succ) && p.len() >= 1 && has_node(
        retire(frontier, succ.len() as int),
        p[0] as int,
    ) && is_cycle(cyc, succ) && p[p.len() - 1] == cyc[0]);
}

/// The live frontier can also be unfolded from the far end: one more step is
/// one advance followed by one retirement.
proof fn lemma_live_at_tail(frontier: Seq<usize>, succ: Seq<usize>, k: nat)
    ensures
        live_at(frontier, succ, (k + 1) as nat) == retire(
            advance(live_at(frontier, succ, k), succ),
            succ.len() as int,
        ),
    decreases k,
{
    let n = succ.len() as int;
    let live = retire(frontier, n);
    let frontier2 = advance(live, succ);
    if k == 0 {
        assert(live_at(frontier, succ, 1) == live_at(frontier2, succ, 0));
        assert(live_at(frontier, succ, 0) == live);
    } else {
        lemma_live_at_tail(frontier2, succ, (k - 1) as nat);
        assert(live_at(frontier, succ, (k + 1) as nat) == live_at(frontier2, succ, k));
        assert(live_at(frontier, succ, k) == live_at(frontier2, succ, (k - 1) as nat));
    }
}

/// A listed node that is not the sentinel survives retirement.
proof fn lemma_retire_keeps_member(s: Seq<usize>, n: int, x: int)
    requires
        has_node(s, x),
        x != n,
    ensures
        has_node(retire(s, n), x),
    decreases s.len(),
{
    if s.len() > 0 {
        let k = choose|k: int| 0 <= k < s.len() && s[k] as int == x;
        if k == s.len() - 1 {
            assert(s.last() as int == x);
            assert(retire(s, n) == retire(s.drop_last(), n).push(s.last()));
            assert(retire(s, n)[retire(s, n).len() - 1] as int == x);
            assert(has_node(retire(s, n), x));
        } else {
            assert(s.drop_last()[k] == s[k]);
            assert(has_node(s.drop_last(), x));
            lemma_retire_keeps_member(s.drop_last(), n, x);
            let k2 = choose|k2: int|
                0 <= k2 < retire(s.drop_last(), n).len() && retire(s.drop_last(), n)[k2] as int
                    == x;
            if s.last() as int == n {
                assert(retire(s, n) == retire(s.drop_last(), n));
            } else {
                assert(retire(s, n) == retire(s.drop_last(), n).push(s.last()));
                assert(retire(s, n)[k2] as int == x);
            }
            assert(has_node(retire(s, n), x));
        }
    }
}

/// Advancing a frontier that lists node `x` yields a frontier that lists the
/// successor of `x`.
proof fn lemma_advance_member(live: Seq<usize>, succ: Seq<usize>, x: int)
    requires
        has_node(live, x),
        0 <= x,
    ensures
        has_node(advance(live, succ), succ[x] as int),
{
    let k = choose|k: int| 0 <= k < live.len() && live[k] as int == x;
    assert(advance(live, succ)[k] == succ[live[k] as int]);
    assert(has_node(advance(live, succ), succ[x] as int));
}

/// A successor chain that starts on the retired frontier rides the sweep:
/// its `m`-th node is listed by the live frontier of the `m`-th step.
proof fn lemma_chain_rides_frontier(
    frontier: Seq<usize>,
    succ: Seq<usize>,
    path: Seq<usize>,
    m: nat,
)
    requires
        is_chain(path, succ),
        m < path.len(),
        has_node(retire(frontier, succ.len() as int), path[0] as int),
    ensures
        has_node(live_at(frontier, succ, m), path[m as int] as int),
    decreases m,
{
    let n = succ.len() as int;
    if m == 0 {
        assert(live_at(frontier, succ, 0) == retire(frontier, n));
    } else {
        lemma_chain_rides_frontier(frontier, succ, path, (m - 1) as nat);
        let x = path[m as int - 1];
        lemma_advance_member(live_at(frontier, succ, (m - 1) as nat), succ, x as int);
        assert(path[m as int] == succ[x as int]);
        assert(((path[m as int]) as int) < n);
        lemma_retire_keeps_member(
            advance(live_at(frontier, succ, (m - 1) as nat), succ),
            n,
            path[m as int] as int,
        );
        lemma_live_at_tail(frontier, succ, (m - 1) as nat);
        assert(live_at(frontier, succ, m) == retire(
            advance(live_at(frontier, succ, (m - 1) as nat), succ),
            n,
        ));
    }
}

/// A cycle can be walked for any number of steps: from its first node there
/// is a successor chain of every length whose nodes stay on the cycle.
proof fn lemma_cycle_walk(cyc: Seq<usize>, succ: Seq<usize>, m: nat)
    requires
        is_cycle(cyc, succ),
    ensures
        exists|c: Seq<usize>|
            {
                &&& #[trigger] is_chain(c, succ)
                &&& c.len() == m + 1
                &&& c[0] == cyc[0]
                &&& has_node(cyc, c[c.len() - 1] as int)
            },
    decreases m,
{
    if m == 0 {
        let c = seq![cyc[0]];
        assert(has_node(cyc, cyc[0] as int));
        assert(is_chain(c, succ));
        assert(is_chain(c, succ) && c.len() == m + 1 && c[0] == cyc[0] && has_node(
            cyc,
            c[c.len() - 1] as int,
        ));
    } else {
        lemma_cycle_walk(cyc, succ, (m - 1) as nat);
        let c0 = choose|c: Seq<usize>|
            {
                &&& #[trigger] is_chain(c, succ)
                &&& c.len() == (m - 1) as nat + 1
                &&& c[0] == cyc[0]
                &&& has_node(cyc, c[c.len() - 1] as int)
            };
        let x = c0[c0.len() - 1];
        let idx0 = choose|k: int| 0 <= k < cyc.len() && cyc[k] as int == x as int;
        let idx: int = if idx0 == cyc.len() - 1 {
            0
        } else {
            idx0
        };
        assert(cyc[idx] == x);
        assert(idx < cyc.len() - 1);
        let nxt = cyc[idx + 1];
        assert(nxt == succ[cyc[idx] as int]);
        let c = c0.push(nxt);
        assert(is_chain(c, succ)) by {
            assert forall|i: int| 0 <= i < c.len() implies ((c[i]) as int) < succ.len() by {
                if i < c0.len() {
                    assert(c[i] == c0[i]);
                } else {
                    assert(c[i] == nxt);
                }
            }
            assert forall|i: int| 1 <= i < c.len() implies #[trigger] c[i] == succ[c[i
                - 1] as int] by {
                if i < c0.len() {
                    assert(c[i] == c0[i]);
                    assert(c[i - 1] == c0[i - 1]);
                } else {
                    assert(c[i] == nxt);
                    assert(c[i - 1] == x);
                }
            }
        };
        assert(c[0] == cyc[0]);
        assert(cyc[idx + 1] == nxt);
        assert(has_node(cyc, nxt as int));
        assert(is_chain(c, succ) && c.len() == m + 1 && c[0] == cyc[0] && has_node(
            cyc,
            c[c.len() - 1] as int,
        ));
    }
}

/// The cycle report is complete: when some successor chain leads from a
/// frontier node into a cycle, the sweep started at step 1 fails, whatever
/// the label buffer holds.
pub proof fn lemma_reachable_cycle_implies_failure(
    labels: Seq<usize>,
    frontier: Seq<usize>,
    succ: Seq<usize>,
)
    requires
        entries_in_range(frontier, succ.len() as int),
        entries_in_range(succ, succ.len() as int),
        cycle_reachable_from(frontier, succ),
    ensures
        traverse(labels, frontier, succ, 1) is None,
{
    let n = succ.len();
    let (p, cyc) = choose|p: Seq<usize>, cyc: Seq<usize>|
        {
            &&& #[trigger] is_chain(p, succ)
            &&& p.len() >= 1
            &&& has_node(retire(frontier, succ.len() as int), p[0] as int)
            &&& #[trigger] is_cycle(cyc, succ)
            &&& p[p.len() - 1] == cyc[0]
        };
    lemma_cycle_walk(cyc, succ, n);
    let w = choose|c: Seq<usize>|
        {
            &&& #[trigger] is_chain(c, succ)
            &&& c.len() == n + 1
            &&& c[0] == cyc[0]
            &&& has_node(cyc, c[c.len() - 1] as int)
        };
    let path = p + w.drop_first();
    assert(path.len() == p.len() + n);
    assert(is_chain(path, succ)) by {
        assert forall|i: int| 0 <= i < path.len() implies ((path[i]) as int) < succ.len() by {
            if i < p.len() {
                assert(path[i] == p[i]);
            } else {
                assert(path[i] == w.drop_first()[i - p.len()]);
                assert(w.drop_first()[i - p.len()] == w[i - p.len() + 1]);
            }
        }
        assert forall|i: int| 1 <= i < path.len() implies #[trigger] path[i] == succ[path[i
            - 1] as int] by {
            if i < p.len() {
                assert(path[i] == p[i]);
                assert(path[i - 1] == p[i - 1]);
            } else if i == p.len() {
                assert(path[i] == w[1]);
                assert(w[1] == succ[w[0] as int]);
                assert(path[i - 1] == p[p.len() - 1]);
                assert(w[0] == cyc[0]);
            } else {
                assert(path[i] == w[i - p.len() + 1]);
                assert(path[i - 1] == w[i - p.len()]);
                assert(w[i - p.len() + 1] == succ[w[i - p.len()] as int]);
            }
        }
    };
    assert(path[0] == p[0]);
    if traverse(labels, frontier, succ, 1) is Some {
        lemma_termination_characterized(labels, frontier, succ, 1);
        match traverse(labels, frontier, succ, 1) {
            Some((out, loop_size)) => {
                assert(0 <= loop_size - 1 < path.len());
                assert(live_at(frontier, succ, (loop_size - 1) as nat).len() == 0);
                lemma_chain_rides_frontier(frontier, succ, path, (loop_size - 1) as nat);
                assert(false);
            },
            None => {},
        }
    }
}

/// A sweep started at step 1 fails exactly when a cycle is reachable from
/// its frontier, whatever the label buffer holds: the unbounded-traversal
/// report is neither missed nor a false alarm.
pub proof fn lemma_failure_iff_reachable_cycle(
    labels: Seq<usize>,
    frontier: Seq<usize>,
    succ: Seq<usize>,
)
    requires
        entries_in_range(frontier, succ.len() as int),
        entries_in_range(succ, succ.len() as int),
    ensures
        traverse(labels, frontier, succ, 1) is None <==> cycle_reachable_from(frontier, succ),
{
    if traverse(labels, frontier, succ, 1) is None {
        lemma_failure_implies_cycle(labels, frontier, succ);
    }
    if cycle_reachable_from(frontier, succ) {
        lemma_reachable_cycle_implies_failure(labels, frontier, succ);
    }
}

/// When the from-scratch computation reports an unbounded traversal, and only
/// then, a cycle is reachable from the frontier it derives from the sources;
/// which sinks were named plays no part in it.
pub proof fn lemma_compute_labels_fails_iff_cycle(
    succ: Seq<usize>,
    sources: Seq<usize>,
    sinks: Seq<usize>,
)
    requires
        entries_in_range(succ, succ.len() as int),
        entries_in_range(sources, succ.len() as int),
    ensures
        compute_labels_model(succ, sources, sinks) is None <==> cycle_reachable_from(
            derived_frontier(sources, succ),
            succ,
        ),
{
    let n = succ.len() as int;
    let start = derived_frontier(sources, succ);
    assert forall|i: int| 0 <= i < start.len() implies ((#[trigger] start[i]) as int) <= n by {
        if sources[i] as int == n {
            assert(start[i] == sources[i]);
        } else {
            assert(start[i] == succ[sources[i] as int]);
        }
    }
    lemma_failure_iff_reachable_cycle(default_labels(succ.len()), start, succ);
}

/// When the in-place variant reports an unbounded traversal, and only then,
/// a cycle is reachable from the frontier the caller supplied; the label
/// buffer plays no part in it.
pub proof fn lemma_propagate_labels_fails_iff_cycle(
    labels: Seq<usize>,
    frontier: Seq<usize>,
    succ: Seq<usize>,
)
    requires
        entries_in_range(frontier, succ.len() as int),
        entries_in_range(succ, succ.len() as int),
    ensures
        propagate_labels_model(labels, frontier, succ) is None <==> cycle_reachable_from(
            frontier,
            succ,
        ),
{
    lemma_failure_iff_reachable_cycle(labels, frontier, succ);
}

/// Computing labels is a pure function of its inputs: any two label sequences
/// that the contract of [`crate::engine::compute_labels`] admits for the same
/// successor mapping, sources and sinks are equal, so running the engine
/// twice on identical inputs yields identical outputs.
pub proof fn lemma_compute_labels_deterministic(
    succ: Seq<usize>,
    sources: Seq<usize>,
    sinks: Seq<usize>,
    out1: Seq<usize>,
    out2: Seq<usize>,
)
    requires
        compute_labels_model(succ, sources, sinks) == Some(out1),
        compute_labels_model(succ, sources, sinks) == Some(out2),
    ensures
        out1 == out2,
{
}

/// The two entry points run the very same sweep: with a fresh all-default
/// label buffer and the frontier derived from the sources, the in-place
/// variant computes exactly the labels that [`crate::engine::compute_labels`]
/// holds before its sink override, and the two fail on exactly the same
/// inputs.
pub proof fn lemma_variants_agree(succ: Seq<usize>, sources: Seq<usize>, sinks: Seq<usize>)
    ensures
        match traverse(default_labels(succ.len()), derived_frontier(sources, succ), succ, 1) {
            Some((base, loop_size)) => {
                &&& propagate_labels_model(
                    default_labels(succ.len()),
                    derived_frontier(sources, succ),
                    succ,
                ) == Some(base)
                &&& compute_labels_model(succ, sources, sinks) == Some(
                    apply_sinks(base, sinks, (loop_size - 1) as usize),
                )
            },
            None => {
                &&& propagate_labels_model(
                    default_labels(succ.len()),
                    derived_frontier(sources, succ),
                    succ,
                ) is None
                &&& compute_labels_model(succ, sources, sinks) is None
            },
        },
{
}

/// With no sinks to override, the two entry points agree exactly: deriving
/// the frontier from the sources and sweeping a fresh all-default buffer in
/// place gives the very labels that [`crate::engine::compute_labels`]
/// returns.
pub proof fn lemma_variants_agree_no_sinks(succ: Seq<usize>, sources: Seq<usize>)
    ensures
        compute_labels_model(succ, sources, Seq::<usize>::empty()) == propagate_labels_model(
            default_labels(succ.len()),
            derived_frontier(sources, succ),
            succ,
        ),
{
}

} // verus!
