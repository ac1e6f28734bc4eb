use layering::engine::{compute_labels, propagate_labels, TraversalError};

// A chain 0 -> 1 -> 2 -> 3 -> sentinel, swept from source 0: every node gets
// its hop distance, and the source itself keeps the default label.
#[test]
fn chain_graph() {
    let successor: Vec<usize> = vec![1, 2, 3, 4];
    let sources: Vec<usize> = vec![0];
    let sinks: Vec<usize> = vec![];
    let labels = compute_labels(&successor, &sources, &sinks).unwrap();
    assert_eq!(labels, vec![0, 1, 2, 3]);
}

// A source whose successor is the sentinel: the frontier is empty at step 1,
// so the sweep stops at once and a sink among the sources gets label 0.
#[test]
fn immediate_sink() {
    let successor: Vec<usize> = vec![1];
    let sources: Vec<usize> = vec![0];
    let labels = compute_labels(&successor, &sources, &vec![]).unwrap();
    assert_eq!(labels, vec![0]);

    let labels = compute_labels(&successor, &sources, &vec![0]).unwrap();
    assert_eq!(labels, vec![0]);
}

// Two disjoint chains of different lengths: each node's label is its hop
// distance from its own source, untouched by the other chain.
#[test]
fn independent_chains() {
    // 0 -> 1 -> 2 -> sentinel and 3 -> 4 -> sentinel, with n = 5.
    let successor: Vec<usize> = vec![1, 2, 5, 4, 5];
    let sources: Vec<usize> = vec![0, 3];
    let labels = compute_labels(&successor, &sources, &vec![]).unwrap();
    assert_eq!(labels, vec![0, 1, 2, 0, 1]);
}

// A sink reached at step 5 of a sweep whose loop size is 7 ends with the
// terminal label 6, not the label 5 that the traversal stamped.
#[test]
fn sink_override() {
    let successor: Vec<usize> = vec![1, 2, 3, 4, 5, 6, 7];
    let sources: Vec<usize> = vec![0];
    let sinks: Vec<usize> = vec![5];
    let labels = compute_labels(&successor, &sources, &sinks).unwrap();
    assert_eq!(labels, vec![0, 1, 2, 3, 4, 6, 6]);
}

// A cycle with no sentinel reachable: the frontier never empties, and the
// engine reports the unbounded traversal instead of returning labels.
#[test]
fn cycle_detection() {
    let successor: Vec<usize> = vec![1, 0];
    let sources: Vec<usize> = vec![0];
    let result = compute_labels(&successor, &sources, &vec![]);
    assert_eq!(result, Err(TraversalError::UnboundedTraversal));
}

// A self-loop is the smallest cycle.
#[test]
fn self_loop_detection() {
    let successor: Vec<usize> = vec![0];
    let result = compute_labels(&successor, &vec![0], &vec![]);
    assert_eq!(result, Err(TraversalError::UnboundedTraversal));
}

// Running the engine twice on identical inputs yields identical outputs.
#[test]
fn idempotence() {
    let successor: Vec<usize> = vec![1, 2, 3, 4, 5, 6, 7];
    let sources: Vec<usize> = vec![0, 3];
    let sinks: Vec<usize> = vec![2, 6];
    let first = compute_labels(&successor, &sources, &sinks).unwrap();
    let second = compute_labels(&successor, &sources, &sinks).unwrap();
    assert_eq!(first, second);
}

// Every entry of the successor mapping must be a node or the sentinel.
#[test]
fn successor_out_of_range() {
    let successor: Vec<usize> = vec![1, 7];
    let result = compute_labels(&successor, &vec![0], &vec![]);
    assert_eq!(result, Err(TraversalError::OutOfRange));
}

// Sources are validated as eagerly as the successor mapping.
#[test]
fn source_out_of_range() {
    let successor: Vec<usize> = vec![1, 2];
    let result = compute_labels(&successor, &vec![9], &vec![]);
    assert_eq!(result, Err(TraversalError::OutOfRange));
}

// Sinks are validated as eagerly as the successor mapping.
#[test]
fn sink_out_of_range() {
    let successor: Vec<usize> = vec![1, 2];
    let result = compute_labels(&successor, &vec![0], &vec![3]);
    assert_eq!(result, Err(TraversalError::OutOfRange));
}

// No sources: nothing is swept, every node keeps the default label and the
// sinks get the terminal label of an immediately finished sweep, which is 0.
#[test]
fn empty_sources() {
    let successor: Vec<usize> = vec![1, 2, 3];
    let labels = compute_labels(&successor, &vec![], &vec![1]).unwrap();
    assert_eq!(labels, vec![0, 0, 0]);
}

// An empty graph has an empty labeling, even though no sweep step runs.
#[test]
fn empty_graph() {
    let labels = compute_labels(&vec![], &vec![], &vec![]).unwrap();
    assert_eq!(labels, Vec::<usize>::new());
}

// A sentinel entry among the sources contributes nothing to the frontier.
#[test]
fn sentinel_source() {
    let successor: Vec<usize> = vec![1, 2];
    let labels = compute_labels(&successor, &vec![2], &vec![]).unwrap();
    assert_eq!(labels, vec![0, 0]);
}

// A sentinel entry among the sinks names no node and is skipped.
#[test]
fn sentinel_sink() {
    let successor: Vec<usize> = vec![1, 2];
    let labels = compute_labels(&successor, &vec![0], &vec![2]).unwrap();
    assert_eq!(labels, vec![0, 1]);
}

// A node that two sources reach at different steps keeps the later label.
#[test]
fn merging_chains_last_label_wins() {
    // 0 -> 2 and 1 -> 3 -> 2, with 2 -> sentinel: node 2 is reached at step 1
    // from source 0 and again at step 2 from source 1.
    let successor: Vec<usize> = vec![2, 3, 4, 2];
    let sources: Vec<usize> = vec![0, 1];
    let labels = compute_labels(&successor, &sources, &vec![]).unwrap();
    assert_eq!(labels, vec![0, 0, 2, 1]);
}

// Sink override always wins over the traversal, also when a sink is a source.
#[test]
fn overlapping_source_and_sink() {
    // The chain 0 -> 1 -> sentinel, with node 0 both source and sink.
    let successor: Vec<usize> = vec![1, 2];
    let labels = compute_labels(&successor, &vec![0], &vec![0]).unwrap();
    // loop size is 2, so the sink label is 1; node 1 keeps its stamp 1.
    assert_eq!(labels, vec![1, 1]);
}

// The in-place variant labels a caller-supplied buffer and hands it back,
// leaving unreached entries exactly as the caller set them.
#[test]
fn propagate_keeps_unreached_entries() {
    let successor: Vec<usize> = vec![1, 2, 3, 4, 5];
    let labels: Vec<usize> = vec![7, 7, 7, 7, 7];
    let frontier: Vec<usize> = vec![1];
    let labels = propagate_labels(labels, &frontier, &successor, 5).unwrap();
    assert_eq!(labels, vec![7, 1, 2, 3, 4]);
}

// A frontier may start at a source node itself; a chain that then needs one
// step per node still finishes, with the frontier found empty one step after
// the last node was stamped.
#[test]
fn propagate_full_length_chain() {
    let successor: Vec<usize> = vec![1, 2, 3, 4];
    let labels: Vec<usize> = vec![0, 0, 0, 0];
    let frontier: Vec<usize> = vec![0];
    let labels = propagate_labels(labels, &frontier, &successor, 4).unwrap();
    assert_eq!(labels, vec![1, 2, 3, 4]);
}

// The in-place variant detects cycles just as the from-scratch one does.
#[test]
fn propagate_cycle_detection() {
    let successor: Vec<usize> = vec![1, 0];
    let result = propagate_labels(vec![0, 0], &vec![0], &successor, 2);
    assert_eq!(result, Err(TraversalError::UnboundedTraversal));
}

// The in-place variant validates the frontier eagerly.
#[test]
fn propagate_frontier_out_of_range() {
    let successor: Vec<usize> = vec![1, 2];
    let result = propagate_labels(vec![0, 0], &vec![5], &successor, 2);
    assert_eq!(result, Err(TraversalError::OutOfRange));
}

// The two entry points agree when the frontier is derived from the sources,
// the buffer starts at the default, and there are no sinks to override.
#[test]
fn variants_agree_on_derived_frontier() {
    let successor: Vec<usize> = vec![1, 2, 5, 4, 5];
    let sources: Vec<usize> = vec![0, 3];
    let n = successor.len();
    let derived: Vec<usize> = sources.iter().map(|&s| successor[s]).collect();
    let from_scratch = compute_labels(&successor, &sources, &vec![]).unwrap();
    let in_place = propagate_labels(vec![0; n], &derived, &successor, n).unwrap();
    assert_eq!(from_scratch, in_place);
}
