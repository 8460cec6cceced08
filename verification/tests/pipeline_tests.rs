use rusty_circuits::builder::Placement;
use rusty_circuits::builder::build_graph;
use rusty_circuits::graph::ElementKind;
use rusty_circuits::graph::Graph;
use rusty_circuits::pipeline::AnalysisOutcome;
use rusty_circuits::pipeline::solve_circuit;
use rusty_circuits::rational::Rational;

fn ohms(n: i64) -> Rational {
    Rational::from_int(n)
}

fn volts(n: i64) -> Rational {
    Rational::from_int(n)
}

fn amps(n: i64) -> Rational {
    Rational::from_int(n)
}

/// The voltage at the node created for the given coordinate.
fn voltage_at(g: &Graph, coord: (i32, i32), placements: &[Placement]) -> Rational {
    // recompute which node id the builder gave the coordinate
    let mut seen: Vec<(i32, i32)> = Vec::new();
    for p in placements {
        for t in &p.terminals {
            if !seen.contains(t) {
                seen.push(*t);
            }
        }
    }
    let idx = seen.iter().position(|c| *c == coord).unwrap();
    let id = (idx + 1) as u32;
    g.nodes.iter().find(|n| n.id == id).unwrap().voltage
}

#[test]
fn divider_voltage_is_exact() {
    // source 6 V from ground to A, 100 ohm from A to B, 200 ohm from B
    // back to ground: B sits at 6 * 200 / 300 = 4 V exactly
    let placements = vec![
        Placement { kind: ElementKind::Ground, terminals: vec![(0, 0)] },
        Placement {
            kind: ElementKind::DCVoltageSource { voltage: volts(6) },
            terminals: vec![(0, 0), (0, 1)],
        },
        Placement {
            kind: ElementKind::Resistor { resistance: ohms(100) },
            terminals: vec![(0, 1), (1, 1)],
        },
        Placement {
            kind: ElementKind::Resistor { resistance: ohms(200) },
            terminals: vec![(1, 1), (0, 0)],
        },
    ];
    let mut g = build_graph(&placements);
    let (outcome, _, _, _) = solve_circuit(&mut g);
    assert!(matches!(outcome, AnalysisOutcome::Solved));
    let vb = voltage_at(&g, (1, 1), &placements);
    assert!(vb.eq_value(Rational::from_int(4)));
    let va = voltage_at(&g, (0, 1), &placements);
    assert!(va.eq_value(Rational::from_int(6)));
}

#[test]
fn ground_node_is_exactly_zero() {
    let placements = vec![
        Placement { kind: ElementKind::Ground, terminals: vec![(0, 0)] },
        Placement {
            kind: ElementKind::DCVoltageSource { voltage: volts(7) },
            terminals: vec![(0, 0), (0, 1)],
        },
        Placement {
            kind: ElementKind::Resistor { resistance: ohms(50) },
            terminals: vec![(0, 1), (0, 0)],
        },
    ];
    let mut g = build_graph(&placements);
    let (outcome, _, _, _) = solve_circuit(&mut g);
    assert!(matches!(outcome, AnalysisOutcome::Solved));
    let vg = voltage_at(&g, (0, 0), &placements);
    // not merely small: the numerator itself is zero
    assert_eq!(vg.numerator(), 0);
}

#[test]
fn floating_source_has_no_unique_solution() {
    // a source/resistor island with no path to the grounded node
    let placements = vec![
        Placement { kind: ElementKind::Ground, terminals: vec![(0, 0)] },
        Placement {
            kind: ElementKind::DCVoltageSource { voltage: volts(5) },
            terminals: vec![(1, 0), (1, 1)],
        },
        Placement {
            kind: ElementKind::Resistor { resistance: ohms(100) },
            terminals: vec![(1, 0), (1, 1)],
        },
    ];
    let mut g = build_graph(&placements);
    let before: Vec<i64> = g.nodes.iter().map(|n| n.voltage.numerator()).collect();
    let (outcome, _, _, _) = solve_circuit(&mut g);
    assert!(matches!(outcome, AnalysisOutcome::NoUniqueSolution));
    // prior voltages stay untouched rather than turning into noise
    let after: Vec<i64> = g.nodes.iter().map(|n| n.voltage.numerator()).collect();
    assert_eq!(before, after);
}

#[test]
fn ring_scenario_reduces_to_two_nodes_at_five_volts() {
    // ground drawn from (0,0) to (0,1) with its terminal at (0,1); a 5 V
    // source to (1,1); a 100 ohm resistor down to (1,0); a wire closing
    // the ring back to (0,0)
    let placements = vec![
        Placement { kind: ElementKind::Ground, terminals: vec![(0, 1)] },
        Placement {
            kind: ElementKind::DCVoltageSource { voltage: volts(5) },
            terminals: vec![(0, 1), (1, 1)],
        },
        Placement {
            kind: ElementKind::Resistor { resistance: ohms(100) },
            terminals: vec![(1, 1), (1, 0)],
        },
        Placement { kind: ElementKind::Wire, terminals: vec![(1, 0), (0, 0)] },
    ];
    let mut g = build_graph(&placements);
    let (outcome, reduced, _, _) = solve_circuit(&mut g);
    assert!(matches!(outcome, AnalysisOutcome::Solved));
    // two electrical nodes survive, plus the reserved reference node
    assert_eq!(reduced.nodes.len(), 3);
    // the source's positive terminal sits at exactly 5 V
    let vp = voltage_at(&g, (1, 1), &placements);
    assert!(vp.eq_value(Rational::from_int(5)));
    let vg = voltage_at(&g, (0, 1), &placements);
    assert_eq!(vg.numerator(), 0);
}

#[test]
fn current_source_drives_resistor() {
    // 2 A pushed into a 10 ohm resistor to ground: 20 V at the far node
    let placements = vec![
        Placement { kind: ElementKind::Ground, terminals: vec![(0, 0)] },
        Placement {
            kind: ElementKind::CurrentSource { current: amps(2) },
            terminals: vec![(0, 0), (0, 1)],
        },
        Placement {
            kind: ElementKind::Resistor { resistance: ohms(10) },
            terminals: vec![(0, 1), (0, 0)],
        },
    ];
    let mut g = build_graph(&placements);
    let (outcome, _, _, _) = solve_circuit(&mut g);
    assert!(matches!(outcome, AnalysisOutcome::Solved));
    let v = voltage_at(&g, (0, 1), &placements);
    assert!(v.eq_value(Rational::from_int(20)));
}

#[test]
fn switch_state_decides_conduction() {
    let build = |closed: bool| {
        vec![
            Placement { kind: ElementKind::Ground, terminals: vec![(0, 0)] },
            Placement {
                kind: ElementKind::DCVoltageSource { voltage: volts(5) },
                terminals: vec![(0, 0), (0, 1)],
            },
            Placement { kind: ElementKind::Switch { closed }, terminals: vec![(0, 1), (1, 1)] },
            Placement {
                kind: ElementKind::Resistor { resistance: ohms(100) },
                terminals: vec![(1, 1), (0, 0)],
            },
        ]
    };
    // closed: the switch shorts its nodes together, 5 V on both sides
    let placements = build(true);
    let mut g = build_graph(&placements);
    let (outcome, _, _, _) = solve_circuit(&mut g);
    assert!(matches!(outcome, AnalysisOutcome::Solved));
    assert!(voltage_at(&g, (1, 1), &placements).eq_value(Rational::from_int(5)));
    // open: no current, the resistor pulls its side to ground
    let placements = build(false);
    let mut g = build_graph(&placements);
    let (outcome, _, _, _) = solve_circuit(&mut g);
    assert!(matches!(outcome, AnalysisOutcome::Solved));
    assert_eq!(voltage_at(&g, (1, 1), &placements).numerator(), 0);
    assert!(voltage_at(&g, (0, 1), &placements).eq_value(Rational::from_int(5)));
}

#[test]
fn empty_graph_is_trivial() {
    let placements: Vec<Placement> = Vec::new();
    let mut g = build_graph(&placements);
    let (outcome, reduced, map, x) = solve_circuit(&mut g);
    assert!(matches!(outcome, AnalysisOutcome::Trivial));
    assert_eq!(reduced.nodes.len(), 1);
    assert!(map.is_empty());
    assert!(x.is_empty());
}

#[test]
fn rational_edges() {
    // zero denominators are rejected
    assert!(Rational::new(3, 0).is_none());
    // values are compared exactly, not by representation
    let half = Rational::new(2, 4).unwrap();
    assert!(half.eq_value(Rational::new(1, 2).unwrap()));
    assert!(!half.eq_value(Rational::new(1, 3).unwrap()));
    // negative denominators are normalised away
    let neg = Rational::new(1, -2).unwrap();
    assert!(neg.eq_value(Rational::new(-1, 2).unwrap()));
    assert!(neg.denominator() >= 1);
    // the one unrepresentable whole number is reported, not wrapped
    assert!(Rational::new(i64::MIN, 1).is_none());
    // arithmetic is exact: 1/3 + 1/6 == 1/2
    let third = Rational::new(1, 3).unwrap();
    let sixth = Rational::new(1, 6).unwrap();
    assert!(third.add(sixth).unwrap().eq_value(half));
}

#[test]
fn capacitor_blocks_direct_current() {
    // ground, source, capacitor, resistor in a ring: no direct current
    // flows, so the resistor holds its node at ground potential
    let placements = vec![
        Placement { kind: ElementKind::Ground, terminals: vec![(0, 0)] },
        Placement {
            kind: ElementKind::DCVoltageSource { voltage: volts(5) },
            terminals: vec![(0, 0), (0, 1)],
        },
        Placement { kind: ElementKind::Capacitor, terminals: vec![(0, 1), (1, 1)] },
        Placement {
            kind: ElementKind::Resistor { resistance: ohms(100) },
            terminals: vec![(1, 1), (0, 0)],
        },
    ];
    let mut g = build_graph(&placements);
    let (outcome, _, _, _) = solve_circuit(&mut g);
    assert!(matches!(outcome, AnalysisOutcome::Solved));
    assert!(voltage_at(&g, (0, 1), &placements).eq_value(Rational::from_int(5)));
    assert_eq!(voltage_at(&g, (1, 1), &placements).numerator(), 0);
}

#[test]
fn debug_options_start_disabled() {
    let d = rusty_circuits::DebugOptions::new();
    assert!(!d.show_node_numbers);
    assert!(!d.show_node_voltages);
    assert!(!d.info_simplfication);
    assert!(!d.info_admittance_matrix);
    assert!(!d.info_injected_currents);
    assert!(!d.info_node_voltages);
    assert!(!d.info_node_map);
}

#[test]
fn conflicting_sources_are_inconsistent() {
    // two sources across the same pair of nodes demanding different
    // voltages: no assignment satisfies both constraint rows
    let placements = vec![
        Placement { kind: ElementKind::Ground, terminals: vec![(0, 0)] },
        Placement {
            kind: ElementKind::DCVoltageSource { voltage: volts(5) },
            terminals: vec![(0, 0), (0, 1)],
        },
        Placement {
            kind: ElementKind::DCVoltageSource { voltage: volts(7) },
            terminals: vec![(0, 0), (0, 1)],
        },
    ];
    let mut g = build_graph(&placements);
    let before: Vec<i64> = g.nodes.iter().map(|n| n.voltage.numerator()).collect();
    let (outcome, _, _, _) = solve_circuit(&mut g);
    assert!(matches!(outcome, AnalysisOutcome::Inconsistent));
    let after: Vec<i64> = g.nodes.iter().map(|n| n.voltage.numerator()).collect();
    assert_eq!(before, after);
}
