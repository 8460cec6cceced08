use rusty_circuits::builder::Placement;
use rusty_circuits::builder::build_graph;
use rusty_circuits::graph::ElementKind;
use rusty_circuits::graph::Graph;
use rusty_circuits::graph::next_free_element_id;
use rusty_circuits::graph::next_free_node_id;
use rusty_circuits::rational::Rational;
use rusty_circuits::simplify::simplify_graph;

fn ohms(n: i64) -> Rational {
    Rational::new(n, 1).unwrap()
}

fn volts(n: i64) -> Rational {
    Rational::from_int(n)
}

/// Ground at (0,0); source from (0,0) to (0,1); wire from (0,1) to
/// (1,1); resistor closing (1,1) back to (0,0).
fn ring_circuit() -> Graph {
    let placements = vec![
        Placement { kind: ElementKind::Ground, terminals: vec![(0, 0)] },
        Placement {
            kind: ElementKind::DCVoltageSource { voltage: volts(5) },
            terminals: vec![(0, 0), (0, 1)],
        },
        Placement { kind: ElementKind::Wire, terminals: vec![(0, 1), (1, 1)] },
        Placement {
            kind: ElementKind::Resistor { resistance: ohms(100) },
            terminals: vec![(1, 1), (0, 0)],
        },
    ];
    build_graph(&placements)
}

#[test]
fn build_deduplicates_coordinates() {
    let g = ring_circuit();
    // reserved node 0 plus one node per distinct coordinate
    assert_eq!(g.nodes.len(), 4);
    assert_eq!(g.elements.len(), 4);
    // ground and source share the (0,0) node
    assert_eq!(g.elements[0].nodes[0], g.elements[1].nodes[0]);
    // source and wire share the (0,1) node
    assert_eq!(g.elements[1].nodes[1], g.elements[2].nodes[0]);
    // the resistor closes the ring back to (0,0)
    assert_eq!(g.elements[3].nodes[1], g.elements[0].nodes[0]);
    // ids are handed out in placement order starting at 1
    for (q, e) in g.elements.iter().enumerate() {
        assert_eq!(e.id, (q + 1) as u32);
    }
}

#[test]
fn wire_merge_records_both_nodes() {
    let mut g = ring_circuit();
    let wire_a = g.elements[2].nodes[0];
    let wire_b = g.elements[2].nodes[1];
    assert_ne!(wire_a, wire_b);
    let map = simplify_graph(&mut g);
    // the wire's two nodes collapsed into the lower id
    let survivor = wire_a.min(wire_b);
    assert_eq!(g.elements[2].nodes[0], survivor);
    assert_eq!(g.elements[2].nodes[1], survivor);
    // the survivor's entry lists both original ids
    let entry = map.iter().find(|m| m.survivor == survivor).unwrap();
    assert!(entry.members.contains(&wire_a));
    assert!(entry.members.contains(&wire_b));
    // no other entry exists
    assert_eq!(map.len(), 1);
}

#[test]
fn simplify_twice_changes_nothing() {
    let mut g = ring_circuit();
    let _ = simplify_graph(&mut g);
    let node_ids: Vec<u32> = g.nodes.iter().map(|n| n.id).collect();
    let element_ids: Vec<u32> = g.elements.iter().map(|e| e.id).collect();
    let terminals: Vec<Vec<u32>> = g.elements.iter().map(|e| e.nodes.clone()).collect();
    let map2 = simplify_graph(&mut g);
    // the second run finds nothing to do
    assert!(map2.is_empty());
    assert_eq!(node_ids, g.nodes.iter().map(|n| n.id).collect::<Vec<u32>>());
    assert_eq!(element_ids, g.elements.iter().map(|e| e.id).collect::<Vec<u32>>());
    assert_eq!(terminals, g.elements.iter().map(|e| e.nodes.clone()).collect::<Vec<Vec<u32>>>());
}

#[test]
fn dangling_nodes_and_orphans_are_pruned() {
    // a lone resistor: both of its nodes dangle, so everything goes
    let placements = vec![
        Placement {
            kind: ElementKind::Resistor { resistance: ohms(10) },
            terminals: vec![(0, 0), (1, 0)],
        },
    ];
    let mut g = build_graph(&placements);
    assert_eq!(g.nodes.len(), 3);
    let map = simplify_graph(&mut g);
    // only the reserved reference node survives
    assert_eq!(g.nodes.len(), 1);
    assert_eq!(g.nodes[0].id, 0);
    assert!(g.elements.is_empty());
    assert!(map.is_empty());
}

#[test]
fn source_terminals_survive_pruning() {
    // a source whose far terminal touches nothing else: the guard keeps it
    let placements = vec![
        Placement { kind: ElementKind::Ground, terminals: vec![(0, 0)] },
        Placement {
            kind: ElementKind::DCVoltageSource { voltage: volts(9) },
            terminals: vec![(0, 0), (0, 1)],
        },
    ];
    let mut g = build_graph(&placements);
    let _ = simplify_graph(&mut g);
    // both source terminals and the source itself are still there
    assert_eq!(g.nodes.len(), 3);
    assert_eq!(g.elements.len(), 2);
}

#[test]
fn next_ids_fill_gaps() {
    let mut g = ring_circuit();
    assert_eq!(next_free_element_id(&g.elements), 5);
    assert_eq!(next_free_node_id(&g.nodes), 4);
    // removing an element in the middle frees its id
    g.elements.remove(1);
    assert_eq!(next_free_element_id(&g.elements), 2);
}
