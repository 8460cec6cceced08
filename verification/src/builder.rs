//! Graph building.
//!
//! The builder turns a list of placed elements — each a variant plus the
//! grid coordinates of its one or two terminals — into a well-formed
//! graph: terminals at a coordinate seen before reuse that coordinate's
//! node, unseen coordinates get the next node id, and the element/node
//! incidence is recorded in both directions.  The reserved ground
//! reference node (id 0) is seeded first so assembly always has a fixed
//! reference row.

use vstd::prelude::*;
use crate::rational::Rational;
use crate::rational::rat_zero;
use crate::graph::Element;
use crate::graph::ElementKind;
use crate::graph::Graph;
use crate::graph::Node;
use crate::graph::no_dups;
use crate::graph::has_node;
use crate::graph::ids_contain;

verus! {

/// The editor-facing description of one placed element: the variant and
/// the grid coordinates its terminals occupy (derived from position and
/// size outside the core).
#[derive(Clone, Debug)]
pub struct Placement {
    pub kind: ElementKind,
    pub terminals: Vec<(i32, i32)>,
}

impl Placement {
    pub open spec fn spec_terminal_count(self) -> int {
        match self.kind {
            ElementKind::Ground => 1,
            _ => 2,
        }
    }

    /// The terminal list matches the variant's arity and the variant's
    /// parameters are valid rationals.
    pub open spec fn wf(self) -> bool {
        &&& self.terminals@.len() == self.spec_terminal_count()
        &&& match self.kind {
            ElementKind::Resistor { resistance } => resistance.wf() && resistance@.0 >= 1,
            ElementKind::DCVoltageSource { voltage } => voltage.wf(),
            ElementKind::CurrentSource { current } => current.wf(),
            _ => true,
        }
    }
}

/// An explicit copy of an element variant, so the copy is known to equal
/// the original.
pub fn copy_kind(kind: &ElementKind) -> (r: ElementKind)
    ensures
        r == *kind,
{
    match kind {
        ElementKind::Wire => ElementKind::Wire,
        ElementKind::Resistor { resistance } => ElementKind::Resistor { resistance: *resistance },
        ElementKind::Capacitor => ElementKind::Capacitor,
        ElementKind::DCVoltageSource { voltage } => ElementKind::DCVoltageSource {
            voltage: *voltage,
        },
        ElementKind::CurrentSource { current } => ElementKind::CurrentSource { current: *current },
        ElementKind::Switch { closed } => ElementKind::Switch { closed: *closed },
        ElementKind::Ground => ElementKind::Ground,
    }
}

/// Membership in a sequence survives pushing another entry.
pub proof fn lemma_push_keeps_contains(s: Seq<u32>, x: u32, y: u32)
    requires
        s.contains(y),
    ensures
        s.push(x).contains(y),
{
    let i = choose|i: int| 0 <= i < s.len() && s[i] == y;
    assert(s.push(x)[i] == y);
}

/// Find a coordinate in the registry of already-seen coordinates.
fn find_coord(coords: &Vec<(i32, i32)>, c: (i32, i32)) -> (r: Option<usize>)
    ensures
        r matches Some(j) ==> j < coords@.len() && coords@[j as int] == c,
        r is None ==> !coords@.contains(c),
{
    let mut i: usize = 0;
    while i < coords.len()
        invariant
            i <= coords@.len(),
            forall|j: int| 0 <= j < i ==> coords@[j] != c,
        decreases coords@.len() - i,
    {
        if coords[i].0 == c.0 && coords[i].1 == c.1 {
            return Some(i);
        }
        i += 1;
    }
    None
}

/// Build the full (pre-simplification) graph from the placed elements.
///
/// Element `p` of the input becomes element id `p + 1`; nodes are
/// allocated in first-seen coordinate order starting at id 1, with node
/// id 0 reserved for the ground reference.  Two terminals resolve to the
/// same node exactly when they occupy the same coordinate.
pub fn build_graph(placements: &Vec<Placement>) -> (g: Graph)
    requires
        forall|p: int| 0 <= p < placements@.len() ==> (#[trigger] placements@[p]).wf(),
        placements@.len() <= 0x7fff_ffff,
    ensures
        g.wf(),
        g.elements@.len() == placements@.len(),
        forall|p: int|
            0 <= p < placements@.len() ==> {
                &&& (#[trigger] g.elements@[p]).id == p + 1
                &&& g.elements@[p].kind == placements@[p].kind
                &&& g.elements@[p].aux_index == 0
                &&& g.elements@[p].nodes@.len() == placements@[p].terminals@.len()
            },
        forall|p: int, k: int, p2: int, k2: int|
            0 <= p < placements@.len() && 0 <= k < placements@[p].terminals@.len()
                && 0 <= p2 < placements@.len() && 0 <= k2 < placements@[p2].terminals@.len()
                ==> ((#[trigger] placements@[p].terminals@[k])
                    == (#[trigger] placements@[p2].terminals@[k2])
                    <==> g.elements@[p].nodes@[k] == g.elements@[p2].nodes@[k2]),
        forall|i: int|
            0 <= i < g.nodes@.len() ==> (#[trigger] g.nodes@[i]).voltage@ == rat_zero(),
        forall|i: int| 0 <= i < g.nodes@.len() ==> (#[trigger] g.nodes@[i]).id == i,
{
    let mut nodes: Vec<Node> = Vec::new();
    nodes.push(Node { id: 0, voltage: Rational::zero(), connections: Vec::new() });
    let mut coords: Vec<(i32, i32)> = Vec::new();
    let mut elements: Vec<Element> = Vec::new();

    let mut p: usize = 0;
    while p < placements.len()
        invariant
            p <= placements@.len(),
            placements@.len() <= 0x7fff_ffff,
            forall|q: int| 0 <= q < placements@.len() ==> (#[trigger] placements@[q]).wf(),
            // arena shape
            nodes@.len() == coords@.len() + 1,
            coords@.len() <= 2 * p,
            nodes@[0].id == 0 && nodes@[0].connections@.len() == 0,
            nodes@[0].voltage@ == rat_zero(),
            forall|i: int|
                0 <= i < nodes@.len() ==> {
                    &&& (#[trigger] nodes@[i]).id == i
                    &&& nodes@[i].voltage@ == rat_zero()
                    &&& nodes@[i].voltage.wf()
                    &&& no_dups(nodes@[i].connections@)
                },
            forall|i: int, j: int| 0 <= i < j < coords@.len() ==> coords@[i] != coords@[j],
            // elements built so far mirror their placements
            elements@.len() == p,
            forall|q: int|
                0 <= q < p ==> {
                    &&& (#[trigger] elements@[q]).id == q + 1
                    &&& elements@[q].kind == placements@[q].kind
                    &&& elements@[q].aux_index == 0
                    &&& elements@[q].nodes@.len() == placements@[q].terminals@.len()
                },
            forall|q: int, k: int|
                0 <= q < p && 0 <= k < elements@[q].nodes@.len() ==> {
                    let nid = (#[trigger] elements@[q].nodes@[k]) as int;
                    &&& 1 <= nid < nodes@.len()
                    &&& coords@[nid - 1] == placements@[q].terminals@[k]
                    &&& nodes@[nid].connections@.contains((q + 1) as u32)
                },
            // every recorded connection points back at a built element
            forall|i: int, c: int|
                0 <= i < nodes@.len() && 0 <= c < nodes@[i].connections@.len() ==> {
                    let eid = (#[trigger] nodes@[i].connections@[c]) as int;
                    &&& 1 <= eid <= p
                    &&& elements@[eid - 1].nodes@.contains(i as u32)
                },
        decreases placements@.len() - p,
    {
        let element_id: u32 = (p as u32) + 1;
        let terminal_count = placements[p].terminals.len();
        let mut node_ids: Vec<u32> = Vec::new();
        let mut k: usize = 0;
        while k < terminal_count
            invariant
                k <= terminal_count,
                p < placements@.len(),
                placements@.len() <= 0x7fff_ffff,
                element_id == p + 1,
                terminal_count == placements@[p as int].terminals@.len(),
                terminal_count <= 2,
                forall|q: int| 0 <= q < placements@.len() ==> (#[trigger] placements@[q]).wf(),
                nodes@.len() == coords@.len() + 1,
                coords@.len() <= 2 * p + k,
                nodes@[0].id == 0 && nodes@[0].connections@.len() == 0,
                nodes@[0].voltage@ == rat_zero(),
                forall|i: int|
                    0 <= i < nodes@.len() ==> {
                        &&& (#[trigger] nodes@[i]).id == i
                        &&& nodes@[i].voltage@ == rat_zero()
                        &&& nodes@[i].voltage.wf()
                        &&& no_dups(nodes@[i].connections@)
                    },
                forall|i: int, j: int| 0 <= i < j < coords@.len() ==> coords@[i] != coords@[j],
                elements@.len() == p,
                forall|q: int|
                    0 <= q < p ==> {
                        &&& (#[trigger] elements@[q]).id == q + 1
                        &&& elements@[q].kind == placements@[q].kind
                        &&& elements@[q].aux_index == 0
                        &&& elements@[q].nodes@.len() == placements@[q].terminals@.len()
                    },
                forall|q: int, kk: int|
                    0 <= q < p && 0 <= kk < elements@[q].nodes@.len() ==> {
                        let nid = (#[trigger] elements@[q].nodes@[kk]) as int;
                        &&& 1 <= nid < nodes@.len()
                        &&& coords@[nid - 1] == placements@[q].terminals@[kk]
                        &&& nodes@[nid].connections@.contains((q + 1) as u32)
                    },
                // terminals handled so far for the current element
                node_ids@.len() == k,
                forall|kk: int|
                    0 <= kk < k ==> {
                        let nid = (#[trigger] node_ids@[kk]) as int;
                        &&& 1 <= nid < nodes@.len()
                        &&& coords@[nid - 1] == placements@[p as int].terminals@[kk]
                        &&& nodes@[nid].connections@.contains(element_id)
                    },
                forall|i: int, c: int|
                    0 <= i < nodes@.len() && 0 <= c < nodes@[i].connections@.len()
                        ==> {
                        let eid = (#[trigger] nodes@[i].connections@[c]) as int;
                        &&& 1 <= eid <= p + 1
                        &&& (eid <= p ==> elements@[eid - 1].nodes@.contains(i as u32))
                        &&& (eid == p + 1 ==> node_ids@.contains(i as u32))
                    },
            decreases terminal_count - k,
        {
            let c: (i32, i32) = placements[p].terminals[k];
            let nid: u32 = match find_coord(&coords, c) {
                Some(j) => (j as u32) + 1,
                None => {
                    coords.push(c);
                    let fresh: u32 = coords.len() as u32;
                    nodes.push(
                        Node { id: fresh, voltage: Rational::zero(), connections: Vec::new() },
                    );
                    fresh
                },
            };
            let ni: usize = nid as usize;
            let ghost old_nodes = nodes@;
            if !ids_contain(&nodes[ni].connections, element_id) {
                nodes[ni].connections.push(element_id);
                proof {
                    assert forall|i: int, cc: int|
                        0 <= i < nodes@.len() && 0 <= cc < nodes@[i].connections@.len()
                            implies {
                            let eid = (#[trigger] nodes@[i].connections@[cc]) as int;
                            &&& 1 <= eid <= p + 1
                            &&& (eid <= p ==> elements@[eid - 1].nodes@.contains(i as u32))
                            &&& (eid == p + 1 ==> node_ids@.push(nid).contains(i as u32))
                        } by {
                        let eid = nodes@[i].connections@[cc] as int;
                        if i == ni as int && cc == old_nodes[i].connections@.len() {
                            assert(eid == p + 1);
                            assert(node_ids@.push(nid)[node_ids@.len() as int] == nid);
                        } else {
                            assert(nodes@[i].connections@[cc] == old_nodes[i].connections@[cc]);
                            if eid == p + 1 {
                                lemma_push_keeps_contains(node_ids@, nid, i as u32);
                            }
                        }
                    }
                    assert forall|q: int, kk: int|
                        0 <= q < p && 0 <= kk < elements@[q].nodes@.len() implies {
                            let qn = (#[trigger] elements@[q].nodes@[kk]) as int;
                            nodes@[qn].connections@.contains((q + 1) as u32)
                        } by {
                        let qn = elements@[q].nodes@[kk] as int;
                        if qn == ni as int {
                            lemma_push_keeps_contains(
                                old_nodes[qn].connections@,
                                element_id,
                                (q + 1) as u32,
                            );
                        }
                    }
                    assert forall|kk: int|
                        0 <= kk < k implies {
                            let qn = (#[trigger] node_ids@[kk]) as int;
                            nodes@[qn].connections@.contains(element_id)
                        } by {
                        let qn = node_ids@[kk] as int;
                        if qn == ni as int {
                            lemma_push_keeps_contains(old_nodes[qn].connections@, element_id,
                                element_id);
                        }
                    }
                    assert(nodes@[ni as int].connections@[old_nodes[ni as int].connections@.len() as int]
                        == element_id);
                    assert(nodes@[ni as int].connections@.contains(element_id));
                }
            } else {
                proof {
                    assert forall|i: int, cc: int|
                        0 <= i < nodes@.len() && 0 <= cc < nodes@[i].connections@.len()
                            && (#[trigger] nodes@[i].connections@[cc]) == (p + 1) as u32
                            implies node_ids@.push(nid).contains(i as u32) by {
                        lemma_push_keeps_contains(node_ids@, nid, i as u32);
                    }
                }
            }
            node_ids.push(nid);
            k += 1;
        }
        let kind = copy_kind(&placements[p].kind);
        elements.push(Element { id: element_id, kind, nodes: node_ids, aux_index: 0 });
        proof {
            assert forall|i: int, c: int|
                0 <= i < nodes@.len() && 0 <= c < nodes@[i].connections@.len()
                    implies {
                    let eid = (#[trigger] nodes@[i].connections@[c]) as int;
                    &&& 1 <= eid <= p + 1
                    &&& elements@[eid - 1].nodes@.contains(i as u32)
                } by {
                let eid = nodes@[i].connections@[c] as int;
                assert(1 <= eid <= p + 1);
                if eid == p + 1 {
                    assert(elements@[eid - 1].nodes@.contains(i as u32));
                }
            }
        }
        p += 1;
    }

    let g = Graph { nodes, elements };
    proof {
        assert forall|n: int, c: int|
            0 <= n < g.nodes@.len() && 0 <= c < g.nodes@[n].connections@.len()
            implies g.connection_backed(
            #[trigger] g.nodes@[n].connections@[c],
            g.nodes@[n].id,
        ) by {
            let eid = g.nodes@[n].connections@[c] as int;
            assert(0 <= eid - 1 < g.elements@.len()
                && g.elements@[eid - 1].id == g.nodes@[n].connections@[c]
                && g.elements@[eid - 1].nodes@.contains(g.nodes@[n].id));
        }
        assert forall|e: int, k: int|
            0 <= e < g.elements@.len() && 0 <= k < g.elements@[e].nodes@.len() implies has_node(
            g.nodes@,
            #[trigger] g.elements@[e].nodes@[k],
        ) by {
            let nid = g.elements@[e].nodes@[k] as int;
            assert(g.nodes@[nid].id == g.elements@[e].nodes@[k]);
        }
        assert forall|p1: int, k1: int, p2: int, k2: int|
            0 <= p1 < placements@.len() && 0 <= k1 < placements@[p1].terminals@.len()
                && 0 <= p2 < placements@.len() && 0 <= k2 < placements@[p2].terminals@.len()
                implies ((#[trigger] placements@[p1].terminals@[k1])
                == (#[trigger] placements@[p2].terminals@[k2])
                <==> g.elements@[p1].nodes@[k1] == g.elements@[p2].nodes@[k2]) by {
            let n1 = g.elements@[p1].nodes@[k1] as int;
            let n2 = g.elements@[p2].nodes@[k2] as int;
            assert(coords@[n1 - 1] == placements@[p1].terminals@[k1]);
            assert(coords@[n2 - 1] == placements@[p2].terminals@[k2]);
        }
    }
    g
}

} // verus!
