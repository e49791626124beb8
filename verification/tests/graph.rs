use graf::dag::{Dag, DeviceId, WireType};

/// Brute-force reachability by breadth-first search over the current
/// wire list, for cross-checking `is_reachable`.
fn brute_reachable(g: &Dag, from: DeviceId, to: DeviceId) -> bool {
    if !g.contains_device(from) {
        return false;
    }
    let mut visited = vec![from];
    let mut queue = vec![from];
    while let Some(v) = queue.pop() {
        for w in g.wires().iter() {
            if w.from == v && !visited.contains(&w.to) {
                visited.push(w.to);
                queue.push(w.to);
            }
        }
    }
    visited.contains(&to)
}

fn assert_reachability_matches(g: &Dag) {
    let devs = g.devices().clone();
    for &u in devs.iter() {
        for &v in devs.iter() {
            assert_eq!(g.is_reachable(u, v), brute_reachable(g, u, v));
        }
    }
}

fn snapshot(g: &Dag) -> (Vec<DeviceId>, Vec<graf::dag::Wire>, Vec<(DeviceId, DeviceId, bool)>) {
    let devs = g.devices().clone();
    let wires = g.wires().clone();
    let mut matrix = Vec::new();
    for &u in devs.iter() {
        for &v in devs.iter() {
            matrix.push((u, v, g.is_reachable(u, v)));
        }
    }
    (devs, wires, matrix)
}

#[test]
fn empty_graph() {
    let g = Dag::new();
    assert_eq!(g.devices().len(), 0);
    assert_eq!(g.wires().len(), 0);
}

#[test]
fn add_device_is_fresh_and_live() {
    let mut g = Dag::new();
    let a = g.add_device();
    let b = g.add_device();
    assert!(g.contains_device(a));
    assert!(g.contains_device(b));
    assert_ne!(a, b);
    assert_eq!(g.devices().len(), 2);
}

#[test]
fn handles_never_reused_after_removal() {
    let mut g = Dag::new();
    let a = g.add_device();
    g.remove_device(a);
    let b = g.add_device();
    assert_ne!(a, b);
    assert!(!g.contains_device(a));
    assert!(g.contains_device(b));
}

#[test]
fn add_wire_connects_and_orders() {
    let mut g = Dag::new();
    let a = g.add_device();
    let b = g.add_device();
    assert!(g.add_wire(a, b, WireType::Normal).is_ok());
    assert!(g.contains_wire(a, b));
    assert!(!g.contains_wire(b, a));
    assert!(g.is_reachable(a, b));
    assert!(!g.is_reachable(b, a));
    // Topological order puts the source first.
    let order = g.devices();
    let ia = order.iter().position(|&d| d == a).unwrap();
    let ib = order.iter().position(|&d| d == b).unwrap();
    assert!(ia < ib);
}

#[test]
fn add_wire_rejects_dead_endpoints() {
    let mut g = Dag::new();
    let a = g.add_device();
    let mut other = Dag::new();
    let ghost_id = other.add_device();
    if !g.contains_device(ghost_id) {
        assert!(g.add_wire(a, ghost_id, WireType::Normal).is_err());
        assert!(g.add_wire(ghost_id, a, WireType::Normal).is_err());
    }
    assert_eq!(g.wires().len(), 0);
}

#[test]
fn add_wire_rejects_self_loop() {
    let mut g = Dag::new();
    let a = g.add_device();
    assert!(g.add_wire(a, a, WireType::Normal).is_err());
    assert_eq!(g.wires().len(), 0);
}

#[test]
fn add_wire_idempotent() {
    let mut g = Dag::new();
    let a = g.add_device();
    let b = g.add_device();
    assert!(g.add_wire(a, b, WireType::Normal).is_ok());
    let before = snapshot(&g);
    // A second identical call, and one with the other polarity: both are
    // reported as success and change nothing.
    assert!(g.add_wire(a, b, WireType::Normal).is_ok());
    assert_eq!(snapshot(&g), before);
    assert!(g.add_wire(a, b, WireType::Negated).is_ok());
    assert_eq!(snapshot(&g), before);
}

#[test]
fn cycle_rejection_is_a_no_op() {
    let mut g = Dag::new();
    let a = g.add_device();
    let b = g.add_device();
    let c = g.add_device();
    assert!(g.add_wire(a, b, WireType::Normal).is_ok());
    assert!(g.add_wire(b, c, WireType::Normal).is_ok());
    let before = snapshot(&g);
    assert!(g.add_wire(c, a, WireType::Normal).is_err());
    assert!(g.add_wire(c, a, WireType::Negated).is_err());
    assert_eq!(snapshot(&g), before);
}

#[test]
fn no_mutual_reachability() {
    // Acyclicity: after any run of successful calls, no two distinct
    // vertices reach each other.
    let mut g = Dag::new();
    let mut ids = Vec::new();
    for _ in 0..5 {
        ids.push(g.add_device());
    }
    let attempts = [
        (0, 1),
        (1, 2),
        (2, 0), // closes a cycle: refused
        (0, 3),
        (3, 4),
        (4, 1), // 1 is reachable from 3 through nothing yet: allowed
        (2, 3), // 3 reaches 2? no; allowed unless it cycles
        (4, 0), // 0 reaches 4: refused
    ];
    for &(i, j) in attempts.iter() {
        let _ = g.add_wire(ids[i], ids[j], WireType::Normal);
    }
    for &u in ids.iter() {
        for &v in ids.iter() {
            if u != v {
                assert!(!(g.is_reachable(u, v) && g.is_reachable(v, u)));
            }
        }
    }
    assert_reachability_matches(&g);
}

#[test]
fn topological_consistency_after_each_mutation() {
    let mut g = Dag::new();
    let mut ids = Vec::new();
    for _ in 0..6 {
        ids.push(g.add_device());
    }
    let steps = [(5, 0), (0, 1), (1, 2), (5, 2), (3, 1), (2, 4)];
    for &(i, j) in steps.iter() {
        assert!(g.add_wire(ids[i], ids[j], WireType::Normal).is_ok());
        let order = g.devices();
        for w in g.wires().iter() {
            let iu = order.iter().position(|&d| d == w.from).unwrap();
            let iv = order.iter().position(|&d| d == w.to).unwrap();
            assert!(iu < iv);
        }
        assert_reachability_matches(&g);
    }
    g.remove_device(ids[1]);
    let order = g.devices();
    for w in g.wires().iter() {
        let iu = order.iter().position(|&d| d == w.from).unwrap();
        let iv = order.iter().position(|&d| d == w.to).unwrap();
        assert!(iu < iv);
    }
    assert_reachability_matches(&g);
}

#[test]
fn reachability_matches_brute_force() {
    let mut g = Dag::new();
    let mut ids = Vec::new();
    for _ in 0..4 {
        ids.push(g.add_device());
    }
    assert_reachability_matches(&g);
    assert!(g.add_wire(ids[0], ids[1], WireType::Normal).is_ok());
    assert_reachability_matches(&g);
    assert!(g.add_wire(ids[1], ids[2], WireType::Negated).is_ok());
    assert_reachability_matches(&g);
    assert!(g.add_wire(ids[0], ids[3], WireType::Normal).is_ok());
    assert_reachability_matches(&g);
    g.remove_wire(ids[1], ids[2]);
    assert_reachability_matches(&g);
    g.remove_device(ids[0]);
    assert_reachability_matches(&g);
}

#[test]
fn vertex_removal_cascades() {
    let mut g = Dag::new();
    let a = g.add_device();
    let b = g.add_device();
    let c = g.add_device();
    assert!(g.add_wire(a, b, WireType::Normal).is_ok());
    assert!(g.add_wire(b, c, WireType::Normal).is_ok());
    g.remove_device(b);
    assert!(!g.contains_device(b));
    assert!(!g.contains_wire(a, b));
    assert!(!g.contains_wire(b, c));
    assert_eq!(g.wires().len(), 0);
    assert!(g.contains_device(a));
    assert!(g.contains_device(c));
}

#[test]
fn remove_wire_only_removes_that_wire() {
    let mut g = Dag::new();
    let a = g.add_device();
    let b = g.add_device();
    let c = g.add_device();
    assert!(g.add_wire(a, b, WireType::Normal).is_ok());
    assert!(g.add_wire(a, c, WireType::Negated).is_ok());
    g.remove_wire(a, b);
    assert!(!g.contains_wire(a, b));
    assert!(g.contains_wire(a, c));
    // Removing an absent wire is a harmless no-op.
    g.remove_wire(a, b);
    assert!(g.contains_wire(a, c));
    assert_eq!(g.wires().len(), 1);
}

#[test]
fn remove_absent_vertex_is_a_no_op() {
    let mut g = Dag::new();
    let a = g.add_device();
    g.remove_device(a);
    g.remove_device(a);
    assert_eq!(g.devices().len(), 0);
}

#[test]
fn reconnection_after_removal() {
    // Removing a vertex on the only path reopens the cycle check.
    let mut g = Dag::new();
    let a = g.add_device();
    let b = g.add_device();
    let c = g.add_device();
    assert!(g.add_wire(a, b, WireType::Normal).is_ok());
    assert!(g.add_wire(b, c, WireType::Normal).is_ok());
    assert!(g.add_wire(c, a, WireType::Normal).is_err());
    g.remove_device(b);
    assert!(g.add_wire(c, a, WireType::Normal).is_ok());
    assert!(g.is_reachable(c, a));
}

#[test]
fn incoming_lists_parent_wires() {
    let mut g = Dag::new();
    let a = g.add_device();
    let b = g.add_device();
    let c = g.add_device();
    assert!(g.add_wire(a, c, WireType::Normal).is_ok());
    assert!(g.add_wire(b, c, WireType::Negated).is_ok());
    let into_c = g.incoming(c);
    assert_eq!(into_c.len(), 2);
    assert!(into_c.iter().all(|w| w.to == c));
    assert!(into_c.iter().any(|w| w.from == a && w.wire_type == WireType::Normal));
    assert!(into_c.iter().any(|w| w.from == b && w.wire_type == WireType::Negated));
    assert_eq!(g.incoming(a).len(), 0);
}

#[test]
fn scenario_no_wire_then_reverse_then_forward() {
    // Two vertices with no wire: connecting B -> A succeeds, and the
    // now-reversed pair refuses A -> B.
    let mut g = Dag::new();
    let a = g.add_device();
    let b = g.add_device();
    assert!(!g.is_reachable(a, b) || a == b);
    assert!(g.add_wire(b, a, WireType::Normal).is_ok());
    assert!(g.is_reachable(b, a));
    assert!(g.add_wire(a, b, WireType::Normal).is_err());
    assert!(g.contains_wire(b, a));
    assert!(!g.contains_wire(a, b));
}
