//! The node/element graph.
//!
//! Nodes and elements live in two arenas and refer to each other only by
//! integer id: an element stores the ids of its terminal nodes, a node
//! stores the ids of the elements connected to it, and well-formedness
//! demands that the two directions agree.  Index 0 of the node arena is
//! the reserved ground-reference node with id 0, which no element ever
//! uses as a terminal.

use vstd::prelude::*;
use crate::rational::Rational;

verus! {

/// The closed set of element variants, each with its parameters.
#[derive(Clone, Debug)]
pub enum ElementKind {
    Wire,
    Resistor { resistance: Rational },
    Capacitor,
    DCVoltageSource { voltage: Rational },
    CurrentSource { current: Rational },
    Switch { closed: bool },
    Ground,
}

/// One placed element: a stable id, its variant, and the ids of the
/// nodes its terminals resolved to (one for `Ground`, two otherwise).
/// `aux_index` is the auxiliary constraint-row offset handed out before
/// matrix assembly; it is meaningful only for voltage sources.
#[derive(Clone, Debug)]
pub struct Element {
    pub id: u32,
    pub kind: ElementKind,
    pub nodes: Vec<u32>,
    pub aux_index: u32,
}

/// One electrical node: a stable id, the most recently solved voltage,
/// and the ids of the elements connected to it (without duplicates).
#[derive(Clone, Debug)]
pub struct Node {
    pub id: u32,
    pub voltage: Rational,
    pub connections: Vec<u32>,
}

/// A snapshot of the circuit: the node arena and the element arena,
/// both ordered by strictly increasing id.
#[derive(Clone, Debug)]
pub struct Graph {
    pub nodes: Vec<Node>,
    pub elements: Vec<Element>,
}

impl Element {
    /// How many terminals this variant has.
    pub open spec fn spec_terminal_count(self) -> int {
        match self.kind {
            ElementKind::Ground => 1,
            _ => 2,
        }
    }

    /// Zero-impedance elements: a wire, and a closed switch.  This flag
    /// is the sole signal the simplifier uses to decide merges.
    pub open spec fn spec_shorted(self) -> bool {
        match self.kind {
            ElementKind::Wire => true,
            ElementKind::Switch { closed } => closed,
            _ => false,
        }
    }

    /// How many auxiliary constraint rows the element needs.
    pub open spec fn spec_source_count(self) -> int {
        match self.kind {
            ElementKind::DCVoltageSource { .. } => 1,
            _ => 0,
        }
    }

    /// Elements whose stamp needs a particular node row to exist (the
    /// ground reference and the voltage-source constraint rows); their
    /// terminal nodes are exempt from dangling pruning.
    pub open spec fn spec_guard(self) -> bool {
        match self.kind {
            ElementKind::Ground => true,
            ElementKind::DCVoltageSource { .. } => true,
            _ => false,
        }
    }

    /// Variant parameters are well-formed, and the terminal list matches
    /// the variant's arity and avoids the reserved node id 0.
    pub open spec fn wf(self) -> bool {
        &&& self.nodes@.len() == self.spec_terminal_count()
        &&& forall|k: int| 0 <= k < self.nodes@.len() ==> self.nodes@[k] != 0u32
        &&& match self.kind {
            ElementKind::Resistor { resistance } => resistance.wf() && resistance@.0 >= 1,
            ElementKind::DCVoltageSource { voltage } => voltage.wf(),
            ElementKind::CurrentSource { current } => current.wf(),
            _ => true,
        }
    }

    pub fn shorted(&self) -> (r: bool)
        ensures
            r == self.spec_shorted(),
    {
        match &self.kind {
            ElementKind::Wire => true,
            ElementKind::Switch { closed } => *closed,
            _ => false,
        }
    }

    pub fn terminal_count(&self) -> (r: usize)
        ensures
            r == self.spec_terminal_count(),
    {
        match &self.kind {
            ElementKind::Ground => 1,
            _ => 2,
        }
    }

    pub fn voltage_source_count(&self) -> (r: u32)
        ensures
            r == self.spec_source_count(),
    {
        match &self.kind {
            ElementKind::DCVoltageSource { .. } => 1,
            _ => 0,
        }
    }

    pub fn is_guard(&self) -> (r: bool)
        ensures
            r == self.spec_guard(),
    {
        match &self.kind {
            ElementKind::Ground => true,
            ElementKind::DCVoltageSource { .. } => true,
            _ => false,
        }
    }
}

impl Node {
    /// The connection list never names an element twice, and the stored
    /// voltage is a valid rational.
    pub open spec fn wf(self) -> bool {
        &&& no_dups(self.connections@)
        &&& self.voltage.wf()
    }
}

/// No entry of the sequence occurs twice.
pub open spec fn no_dups(s: Seq<u32>) -> bool {
    forall|i: int, j: int| 0 <= i < j < s.len() ==> s[i] != s[j]
}

/// Some node of the arena carries this id.
pub open spec fn has_node(nodes: Seq<Node>, id: u32) -> bool {
    exists|i: int| 0 <= i < nodes.len() && nodes[i].id == id
}

/// Some element of the arena carries this id.
pub open spec fn has_element(elements: Seq<Element>, id: u32) -> bool {
    exists|i: int| 0 <= i < elements.len() && elements[i].id == id
}

/// Node ids strictly increase along the arena (so ids are unique and the
/// arena order is the id order).
pub open spec fn nodes_sorted(nodes: Seq<Node>) -> bool {
    forall|i: int, j: int| 0 <= i < j < nodes.len() ==> nodes[i].id < nodes[j].id
}

/// Element ids strictly increase along the arena.
pub open spec fn elements_sorted(elements: Seq<Element>) -> bool {
    forall|i: int, j: int| 0 <= i < j < elements.len() ==> elements[i].id < elements[j].id
}

impl Graph {
    /// Every terminal id of every element is the id of some node.
    pub open spec fn endpoints_live(self) -> bool {
        forall|e: int, k: int|
            0 <= e < self.elements@.len() && 0 <= k < self.elements@[e].nodes@.len()
                ==> has_node(self.nodes@, #[trigger] self.elements@[e].nodes@[k])
    }

    /// Every node whose id an element names lists that element among its
    /// connections.
    pub open spec fn endpoints_registered(self) -> bool {
        forall|e: int, k: int, n: int|
            0 <= e < self.elements@.len() && 0 <= k < self.elements@[e].nodes@.len()
                && 0 <= n < self.nodes@.len()
                && (#[trigger] self.nodes@[n]).id == #[trigger] self.elements@[e].nodes@[k]
                ==> self.nodes@[n].connections@.contains(self.elements@[e].id)
    }

    /// Some live element carries the id `id` and lists `node_id` among
    /// its terminals.
    pub open spec fn connection_backed(self, id: u32, node_id: u32) -> bool {
        exists|e: int|
            0 <= e < self.elements@.len() && (#[trigger] self.elements@[e]).id == id
                && self.elements@[e].nodes@.contains(node_id)
    }

    /// Every connection entry of every node names a live element, and
    /// that element names the node back.
    pub open spec fn connections_sound(self) -> bool {
        forall|n: int, c: int|
            0 <= n < self.nodes@.len() && 0 <= c < self.nodes@[n].connections@.len()
                ==> self.connection_backed(
                    #[trigger] self.nodes@[n].connections@[c],
                    self.nodes@[n].id,
                )
    }

    /// The reserved ground-reference node sits at index 0, has id 0 and
    /// no connections.
    pub open spec fn reserved_node_ok(self) -> bool {
        &&& self.nodes@.len() >= 1
        &&& self.nodes@[0].id == 0
        &&& self.nodes@[0].connections@.len() == 0
    }

    /// Full well-formedness of a snapshot.
    pub open spec fn wf(self) -> bool {
        &&& nodes_sorted(self.nodes@)
        &&& elements_sorted(self.elements@)
        &&& self.reserved_node_ok()
        &&& (forall|i: int| 0 <= i < self.nodes@.len() ==> (#[trigger] self.nodes@[i]).wf())
        &&& (forall|e: int| 0 <= e < self.elements@.len() ==> (#[trigger] self.elements@[e]).wf())
        &&& self.endpoints_live()
        &&& self.endpoints_registered()
        &&& self.connections_sound()
    }
}

/// Find the arena index of the node with the given id.
pub fn find_node(nodes: &Vec<Node>, id: u32) -> (r: Option<usize>)
    ensures
        r matches Some(i) ==> i < nodes@.len() && nodes@[i as int].id == id,
        r is None ==> !has_node(nodes@, id),
{
    let mut i: usize = 0;
    while i < nodes.len()
        invariant
            i <= nodes@.len(),
            forall|j: int| 0 <= j < i ==> nodes@[j].id != id,
        decreases nodes@.len() - i,
    {
        if nodes[i].id == id {
            return Some(i);
        }
        i += 1;
    }
    None
}

/// Find the arena index of the element with the given id.
pub fn find_element(elements: &Vec<Element>, id: u32) -> (r: Option<usize>)
    ensures
        r matches Some(i) ==> i < elements@.len() && elements@[i as int].id == id,
        r is None ==> !has_element(elements@, id),
{
    let mut i: usize = 0;
    while i < elements.len()
        invariant
            i <= elements@.len(),
            forall|j: int| 0 <= j < i ==> elements@[j].id != id,
        decreases elements@.len() - i,
    {
        if elements[i].id == id {
            return Some(i);
        }
        i += 1;
    }
    None
}

/// Whether a plain id list contains the given id.
pub fn ids_contain(ids: &Vec<u32>, id: u32) -> (r: bool)
    ensures
        r == ids@.contains(id),
{
    let mut i: usize = 0;
    while i < ids.len()
        invariant
            i <= ids@.len(),
            forall|j: int| 0 <= j < i ==> ids@[j] != id,
        decreases ids@.len() - i,
    {
        if ids[i] == id {
            return true;
        }
        i += 1;
    }
    false
}

/// The smallest positive id not used by any element: the id the next
/// placed element receives.
pub fn next_free_element_id(elements: &Vec<Element>) -> (r: u32)
    requires
        elements_sorted(elements@),
        elements@.len() < u32::MAX as int,
        forall|j: int| 0 <= j < elements@.len() ==> (#[trigger] elements@[j]).id >= 1,
    ensures
        r >= 1,
        !has_element(elements@, r),
        forall|x: u32| 1 <= x < r ==> has_element(elements@, x),
{
    let mut k: usize = 0;
    while k < elements.len()
        invariant
            k <= elements@.len(),
            elements@.len() < u32::MAX as int,
            elements_sorted(elements@),
            forall|j: int| 0 <= j < elements@.len() ==> (#[trigger] elements@[j]).id >= 1,
            // the ids seen so far are exactly 1..=k
            forall|j: int| 0 <= j < k ==> (#[trigger] elements@[j]).id == j + 1,
        decreases elements@.len() - k,
    {
        let id = elements[k].id;
        if id != (k as u32) + 1 {
            proof {
                // ids are sorted, so every id from position k on exceeds k+1
                assert forall|j: int| k <= j < elements@.len() implies
                    (#[trigger] elements@[j]).id > k + 1 by {
                    if k > 0 {
                        assert(elements@[k - 1].id == k);
                        assert(elements@[k as int].id > elements@[k - 1].id);
                    }
                    assert(elements@[k as int].id > k + 1);
                    if j > k as int {
                        assert(elements@[j].id > elements@[k as int].id);
                    }
                }
                assert forall|x: u32| 1 <= x < k + 1 implies has_element(elements@, x) by {
                    assert(elements@[x - 1].id == x);
                }
            }
            return (k as u32) + 1;
        }
        k += 1;
    }
    proof {
        assert forall|x: u32| 1 <= x < elements@.len() + 1 implies has_element(elements@, x) by {
            assert(elements@[x - 1].id == x);
        }
    }
    (elements.len() as u32) + 1
}

/// The smallest positive id not used by any node: the id the next
/// created node receives (id 0 stays reserved for the ground reference).
pub fn next_free_node_id(nodes: &Vec<Node>) -> (r: u32)
    requires
        nodes_sorted(nodes@),
        nodes@.len() >= 1,
        nodes@[0].id == 0,
        nodes@.len() < u32::MAX as int,
    ensures
        r >= 1,
        !has_node(nodes@, r),
        forall|x: u32| 1 <= x < r ==> has_node(nodes@, x),
{
    let mut k: usize = 1;
    while k < nodes.len()
        invariant
            1 <= k <= nodes@.len(),
            nodes@.len() < u32::MAX as int,
            nodes_sorted(nodes@),
            nodes@[0].id == 0,
            forall|j: int| 0 <= j < k ==> (#[trigger] nodes@[j]).id == j,
        decreases nodes@.len() - k,
    {
        let id = nodes[k].id;
        if id != k as u32 {
            proof {
                assert forall|j: int| k <= j < nodes@.len() implies
                    (#[trigger] nodes@[j]).id > k by {
                    assert(nodes@[k - 1].id == k - 1);
                    assert(nodes@[k as int].id > nodes@[k - 1].id);
                    assert(nodes@[k as int].id > k);
                    if j > k as int {
                        assert(nodes@[j].id > nodes@[k as int].id);
                    }
                }
                assert forall|x: u32| 1 <= x < k implies has_node(nodes@, x) by {
                    assert(nodes@[x as int].id == x);
                }
            }
            return k as u32;
        }
        k += 1;
    }
    proof {
        assert forall|x: u32| 1 <= x < nodes@.len() implies has_node(nodes@, x) by {
            assert(nodes@[x as int].id == x);
        }
    }
    nodes.len() as u32
}

} // verus!
