//! The pure-forward graph and its cycle detector.

use renlang::dependencies::{PureForward, PureForwardGraph};
use renlang::diag::FileRange;

fn loc() -> FileRange {
    FileRange::new("m.ren".to_string(), (0, 0), (0, 1))
}

fn fwd(forwarder: usize) -> PureForward {
    PureForward {
        forward_namespace: forwarder,
        export_module: "m.ren".to_string(),
        export_module_location: loc(),
        star_location: loc(),
    }
}

fn graph_with_edges(size: usize, edges: &[(usize, usize)]) -> PureForwardGraph {
    let mut g = PureForwardGraph::new(size);
    for (exporter, forwarder) in edges {
        g.add_forward(*exporter, *forwarder, fwd(*forwarder));
    }
    g
}

fn sorted(mut v: Vec<usize>) -> Vec<usize> {
    v.sort();
    v
}

#[test]
fn forward_lookup() {
    let g = graph_with_edges(3, &[(0, 1), (1, 2)]);
    assert!(g.get_forward(0, 1).is_some());
    assert!(g.get_forward(1, 2).is_some());
    assert!(g.get_forward(1, 0).is_none());
    assert_eq!(g.get_forward(0, 1).unwrap().forward_namespace, 1);
}

#[test]
fn consumers_and_suppliers() {
    let g = graph_with_edges(4, &[(0, 1), (0, 2), (3, 2)]);
    assert_eq!(sorted(g.get_consumers(0)), vec![1, 2]);
    assert_eq!(g.get_consumers(1), Vec::<usize>::new());
    assert_eq!(sorted(g.get_suppliers(2)), vec![0, 3]);
    assert_eq!(g.get_suppliers(0), Vec::<usize>::new());
}

#[test]
fn two_cycle_is_detected() {
    // namespaces 0 and 1 pure-forward from each other
    let g = graph_with_edges(2, &[(0, 1), (1, 0)]);
    let cycles = g.get_cycles();
    assert_eq!(cycles.len(), 1);
    assert_eq!(sorted(cycles[0].clone()), vec![0, 1]);
}

#[test]
fn empty_graph_has_no_cycles() {
    let g = PureForwardGraph::new(4);
    assert_eq!(g.get_cycles().len(), 0);
}

#[test]
fn acyclic_chain_has_no_cycles() {
    let g = graph_with_edges(3, &[(0, 1), (1, 2)]);
    assert_eq!(g.get_cycles().len(), 0);
}

#[test]
fn self_loop_is_not_a_cycle() {
    let g = graph_with_edges(2, &[(0, 0), (0, 1)]);
    assert_eq!(g.get_cycles().len(), 0);
}

#[test]
fn intersecting_cycles_merge_and_stay_disjoint() {
    // two simple cycles sharing namespace 0: 0<->1 and 0<->2, plus a separate 3<->4
    let g = graph_with_edges(5, &[(0, 1), (1, 0), (0, 2), (2, 0), (3, 4), (4, 3)]);
    let cycles = g.get_cycles();
    // every namespace belongs to at most one cycle
    for i in 0..cycles.len() {
        for j in 0..cycles.len() {
            if i != j {
                for x in &cycles[i] {
                    assert!(!cycles[j].contains(x));
                }
            }
        }
    }
    // the shared member merged its two cycles into one aggregate
    let with_zero: Vec<&Vec<usize>> = cycles.iter().filter(|c| c.contains(&0)).collect();
    assert_eq!(with_zero.len(), 1);
    assert_eq!(sorted(with_zero[0].to_vec()), vec![0, 1, 2]);
    let with_three: Vec<&Vec<usize>> = cycles.iter().filter(|c| c.contains(&3)).collect();
    assert_eq!(with_three.len(), 1);
    assert_eq!(sorted(with_three[0].to_vec()), vec![3, 4]);
}

#[test]
fn long_cycle_is_one_aggregate() {
    let g = graph_with_edges(4, &[(0, 1), (1, 2), (2, 3), (3, 0)]);
    let cycles = g.get_cycles();
    assert_eq!(cycles.len(), 1);
    assert_eq!(sorted(cycles[0].clone()), vec![0, 1, 2, 3]);
}
