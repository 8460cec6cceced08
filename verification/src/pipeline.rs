//! The full analysis pipeline.
//!
//! One recomputation runs build → simplify → assign constraint rows →
//! assemble → solve on a private snapshot, then scatters the solved
//! voltages back onto the caller's node arena: every reduced node gets
//! its entry of the solution vector, and every original node recorded in
//! the merge map gets its survivor's voltage.  Nodes the solve never
//! reached keep their previous voltage.

use vstd::prelude::*;
use crate::rational::Rational;
use crate::rational::rat_eq;
use crate::graph::Element;
use crate::graph::Graph;
use crate::graph::Node;
use crate::graph::find_node;
use crate::graph::has_node;
use crate::graph::ids_contain;
use crate::graph::nodes_sorted;
use crate::builder::copy_kind;
use crate::simplify::MergeEntry;
use crate::simplify::elements_tracked;
use crate::simplify::lemma_tracked_swap;
use crate::simplify::is_reduced;
use crate::simplify::map_wf;
use crate::simplify::simplify_graph;
use crate::assemble::asm_m;
use crate::assemble::asm_v;
use crate::assemble::assemble_system;
use crate::assemble::assign_source_rows;
use crate::assemble::source_total;
use crate::solve::SolveOutcome;
use crate::solve::is_solution;
use crate::solve::multiple_solutions;
use crate::solve::solve_system;
use crate::solve::vec_wf;

verus! {

/// What one recomputation reported: an exact solution was written back,
/// the graph was too small to constrain anything, the system had no
/// unique finite solution, or an exact value left the representable
/// range.  Only `Solved` changes any voltage.
pub enum AnalysisOutcome {
    Solved,
    Trivial,
    NoUniqueSolution,
    Inconsistent,
    OutOfRange,
}

/// An owned copy of an id list.
fn copy_ids(ids: &Vec<u32>) -> (r: Vec<u32>)
    ensures
        r@ == ids@,
{
    let mut r: Vec<u32> = Vec::new();
    let mut k: usize = 0;
    while k < ids.len()
        invariant
            k <= ids@.len(),
            r@ == ids@.take(k as int),
        decreases ids@.len() - k,
    {
        r.push(ids[k]);
        proof {
            assert(r@ =~= ids@.take((k + 1) as int));
        }
        k += 1;
    }
    proof {
        assert(ids@.take(ids@.len() as int) =~= ids@);
    }
    r
}

/// A private snapshot of the graph, so the caller's arenas are never
/// mutated by the solve itself.
fn copy_graph(g: &Graph) -> (r: Graph)
    ensures
        r.nodes@.len() == g.nodes@.len(),
        forall|i: int| 0 <= i < g.nodes@.len() ==> {
            &&& (#[trigger] r.nodes@[i]).id == g.nodes@[i].id
            &&& r.nodes@[i].voltage == g.nodes@[i].voltage
            &&& r.nodes@[i].connections@ == g.nodes@[i].connections@
        },
        r.elements@.len() == g.elements@.len(),
        forall|q: int| 0 <= q < g.elements@.len() ==> {
            &&& (#[trigger] r.elements@[q]).id == g.elements@[q].id
            &&& r.elements@[q].kind == g.elements@[q].kind
            &&& r.elements@[q].aux_index == g.elements@[q].aux_index
            &&& r.elements@[q].nodes@ == g.elements@[q].nodes@
        },
        g.wf() ==> r.wf(),
{
    let mut nodes: Vec<Node> = Vec::new();
    let mut i: usize = 0;
    while i < g.nodes.len()
        invariant
            i <= g.nodes@.len(),
            nodes@.len() == i,
            forall|t: int| 0 <= t < i ==> {
                &&& (#[trigger] nodes@[t]).id == g.nodes@[t].id
                &&& nodes@[t].voltage == g.nodes@[t].voltage
                &&& nodes@[t].connections@ == g.nodes@[t].connections@
            },
        decreases g.nodes@.len() - i,
    {
        let conns = copy_ids(&g.nodes[i].connections);
        nodes.push(Node { id: g.nodes[i].id, voltage: g.nodes[i].voltage, connections: conns });
        i += 1;
    }
    let mut elements: Vec<Element> = Vec::new();
    let mut q: usize = 0;
    while q < g.elements.len()
        invariant
            q <= g.elements@.len(),
            elements@.len() == q,
            forall|t: int| 0 <= t < q ==> {
                &&& (#[trigger] elements@[t]).id == g.elements@[t].id
                &&& elements@[t].kind == g.elements@[t].kind
                &&& elements@[t].aux_index == g.elements@[t].aux_index
                &&& elements@[t].nodes@ == g.elements@[t].nodes@
            },
        decreases g.elements@.len() - q,
    {
        let kind = copy_kind(&g.elements[q].kind);
        let terminal_ids = copy_ids(&g.elements[q].nodes);
        elements.push(
            Element {
                id: g.elements[q].id,
                kind,
                nodes: terminal_ids,
                aux_index: g.elements[q].aux_index,
            },
        );
        q += 1;
    }
    let r = Graph { nodes, elements };
    proof {
        if g.wf() {
            assert forall|e: int, k: int|
                0 <= e < r.elements@.len() && 0 <= k < r.elements@[e].nodes@.len() implies has_node(
                r.nodes@,
                #[trigger] r.elements@[e].nodes@[k],
            ) by {
                assert(r.elements@[e].nodes@[k] == g.elements@[e].nodes@[k]);
                let w = choose|w: int|
                    0 <= w < g.nodes@.len() && g.nodes@[w].id == g.elements@[e].nodes@[k];
                assert(r.nodes@[w].id == g.elements@[e].nodes@[k]);
            }
            assert forall|e: int, k: int, n: int|
                0 <= e < r.elements@.len() && 0 <= k < r.elements@[e].nodes@.len()
                    && 0 <= n < r.nodes@.len()
                    && (#[trigger] r.nodes@[n]).id == (#[trigger] r.elements@[e].nodes@[k])
                    implies r.nodes@[n].connections@.contains(r.elements@[e].id) by {
                assert(r.elements@[e].nodes@[k] == g.elements@[e].nodes@[k]);
                assert(g.nodes@[n].connections@.contains(g.elements@[e].id));
            }
            assert forall|n: int, c: int|
                0 <= n < r.nodes@.len() && 0 <= c < r.nodes@[n].connections@.len()
                implies r.connection_backed(
                #[trigger] r.nodes@[n].connections@[c],
                r.nodes@[n].id,
            ) by {
                assert(r.nodes@[n].connections@[c] == g.nodes@[n].connections@[c]);
                assert(g.connection_backed(g.nodes@[n].connections@[c], g.nodes@[n].id));
                let e = choose|e: int|
                    0 <= e < g.elements@.len() && (#[trigger] g.elements@[e]).id == g.nodes@[
                        n
                    ].connections@[c] && g.elements@[e].nodes@.contains(g.nodes@[n].id);
                assert(r.elements@[e].id == g.nodes@[n].connections@[c]);
                assert(r.elements@[e].nodes@.contains(r.nodes@[n].id));
            }
            assert(r.wf());
        }
    }
    r
}

/// Scatter the solved voltages back onto the caller's node arena: a node
/// whose id survived as reduced node `i` (other than the reserved
/// reference) takes `x[i]`; a node recorded in the merge map takes its
/// survivor's entry; every other node keeps its previous voltage.
#[verifier::loop_isolation(false)]
pub fn apply_voltages(
    nodes: &mut Vec<Node>,
    reduced: &Vec<Node>,
    map: &Vec<MergeEntry>,
    x: &Vec<Rational>,
)
    requires
        nodes_sorted(reduced@),
        reduced@.len() >= 1,
        reduced@[0].id == 0,
        reduced@.len() <= x@.len(),
        vec_wf(x@),
        forall|t: int| 0 <= t < old(nodes)@.len() ==> (#[trigger] old(nodes)@[t]).voltage.wf(),
    ensures
        final(nodes)@.len() == old(nodes)@.len(),
        forall|t: int|
            0 <= t < final(nodes)@.len() ==> {
                &&& (#[trigger] final(nodes)@[t]).id == old(nodes)@[t].id
                &&& final(nodes)@[t].connections@ == old(nodes)@[t].connections@
                &&& final(nodes)@[t].voltage.wf()
            },
        // the reserved reference node is never written
        forall|t: int|
            0 <= t < final(nodes)@.len() && old(nodes)@[t].id == 0
                ==> (#[trigger] final(nodes)@[t]).voltage == old(nodes)@[t].voltage,
        // a surviving node takes its own solved entry
        forall|t: int, i: int|
            0 <= t < final(nodes)@.len() && 1 <= i < reduced@.len() && old(nodes)@[t].id == (
            #[trigger] reduced@[i]).id ==> (#[trigger] final(nodes)@[t]).voltage == x@[i],
        // a merged-away node takes some recorded survivor's entry
        forall|t: int|
            0 <= t < final(nodes)@.len() && !has_node(reduced@, old(nodes)@[t].id) ==> (
            (#[trigger] final(nodes)@[t]).voltage == old(nodes)@[t].voltage || exists|
                m: int,
                i: int,
            |
                0 <= m < map@.len() && 1 <= i < reduced@.len()
                    && (#[trigger] map@[m]).members@.contains(old(nodes)@[t].id)
                    && (#[trigger] reduced@[i]).id == map@[m].survivor
                    && final(nodes)@[t].voltage == x@[i]),
{
    let mut t: usize = 0;
    while t < nodes.len()
        invariant
            t <= nodes@.len(),
            nodes@.len() == old(nodes)@.len(),
            forall|u: int|
                t <= u < nodes@.len() ==> (#[trigger] nodes@[u]) == old(nodes)@[u],
            forall|u: int|
                0 <= u < t ==> {
                    &&& (#[trigger] nodes@[u]).id == old(nodes)@[u].id
                    &&& nodes@[u].connections@ == old(nodes)@[u].connections@
                    &&& nodes@[u].voltage.wf()
                },
            forall|u: int|
                0 <= u < t && old(nodes)@[u].id == 0 ==> (#[trigger] nodes@[u]).voltage == old(
                    nodes,
                )@[u].voltage,
            forall|u: int, i: int|
                0 <= u < t && 1 <= i < reduced@.len() && old(nodes)@[u].id == (
                #[trigger] reduced@[i]).id ==> (#[trigger] nodes@[u]).voltage == x@[i],
            forall|u: int|
                0 <= u < t && !has_node(reduced@, old(nodes)@[u].id) ==> ((#[trigger] nodes@[
                    u
                ]).voltage == old(nodes)@[u].voltage || exists|m: int, i: int|
                    0 <= m < map@.len() && 1 <= i < reduced@.len()
                        && (#[trigger] map@[m]).members@.contains(old(nodes)@[u].id)
                        && (#[trigger] reduced@[i]).id == map@[m].survivor && nodes@[u].voltage
                        == x@[i]),
        decreases nodes@.len() - t,
    {
        let id = nodes[t].id;
        if id != 0 {
            match find_node(reduced, id) {
                Some(i) => {
                    proof {
                        assert(i != 0) by {
                            if i == 0 {
                                assert(reduced@[0].id == id);
                            }
                        }
                        // the found index is the only one with this id
                        assert forall|i2: int|
                            1 <= i2 < reduced@.len() && reduced@[i2].id == id implies i2
                            == i as int by {
                            if i2 < i as int {
                                assert(reduced@[i2].id < reduced@[i as int].id);
                            } else if i2 > i as int {
                                assert(reduced@[i as int].id < reduced@[i2].id);
                            }
                        }
                    }
                    nodes[t].voltage = x[i];
                },
                None => {
                    let ghost at_entry = nodes@;
                    let mut m: usize = 0;
                    let mut done = false;
                    while m < map.len() && !done
                        invariant
                            t < nodes@.len(),
                            nodes@.len() == at_entry.len(),
                            forall|u: int|
                                0 <= u < nodes@.len() && u != t ==> (#[trigger] nodes@[u])
                                    == at_entry[u],
                            m <= map@.len(),
                            id == old(nodes)@[t as int].id,
                            id != 0,
                            !has_node(reduced@, id),
                            forall|u: int|
                                t < u < nodes@.len() ==> (#[trigger] nodes@[u]) == old(
                                    nodes,
                                )@[u],
                            nodes@[t as int].id == old(nodes)@[t as int].id,
                            nodes@[t as int].connections@ == old(nodes)@[t as int].connections@,
                            nodes@[t as int].voltage.wf(),
                            at_entry[t as int] == old(nodes)@[t as int],
                            !done ==> nodes@[t as int].voltage == old(nodes)@[t as int].voltage,
                            done ==> exists|m2: int, i: int|
                                0 <= m2 < map@.len() && 1 <= i < reduced@.len()
                                    && (#[trigger] map@[m2]).members@.contains(id)
                                    && (#[trigger] reduced@[i]).id == map@[m2].survivor
                                    && nodes@[t as int].voltage == x@[i],
                        decreases map@.len() - m, (if done { 0int } else { 1int }),
                    {
                        if ids_contain(&map[m].members, id) {
                            match find_node(reduced, map[m].survivor) {
                                Some(i) => {
                                    if i >= 1 {
                                        nodes[t].voltage = x[i];
                                        done = true;
                                    } else {
                                        m += 1;
                                    }
                                },
                                None => {
                                    m += 1;
                                },
                            }
                        } else {
                            m += 1;
                        }
                    }
                },
            }
        }
        t += 1;
    }
}

/// `x` exactly solves a system `(sm, sv)` whose entries are the
/// assembled stamp sums of the reduced graph `rg`.
pub open spec fn solves_assembled(
    rg: Graph,
    sm: Seq<Vec<Rational>>,
    sv: Seq<Rational>,
    x: Seq<Rational>,
) -> bool {
    let nn = rg.nodes@.len() as int;
    &&& sm.len() == x.len()
    &&& sv.len() == x.len()
    &&& (forall|i: int, j: int|
        0 <= i < sm.len() && 0 <= j < sm.len() ==> rat_eq(
            (#[trigger] sm[i]@[j])@,
            asm_m(rg.elements@, rg.nodes@, nn, i, j),
        ))
    &&& (forall|i: int|
        0 <= i < sv.len() ==> rat_eq((#[trigger] sv[i])@, asm_v(rg.elements@, rg.nodes@, nn, i)))
    &&& is_solution(sm, sv, x)
}

/// A system whose entries are the assembled stamp sums of the reduced
/// graph `rg` and which admits two value-distinct exact solutions.
pub open spec fn underdetermined_assembled(
    rg: Graph,
    sm: Seq<Vec<Rational>>,
    sv: Seq<Rational>,
) -> bool {
    let nn = rg.nodes@.len() as int;
    &&& sm.len() == sv.len()
    &&& sm.len() >= nn
    &&& (forall|i: int, j: int|
        0 <= i < sm.len() && 0 <= j < sm.len() ==> rat_eq(
            (#[trigger] sm[i]@[j])@,
            asm_m(rg.elements@, rg.nodes@, nn, i, j),
        ))
    &&& (forall|i: int|
        0 <= i < sv.len() ==> rat_eq((#[trigger] sv[i])@, asm_v(rg.elements@, rg.nodes@, nn, i)))
    &&& multiple_solutions(sm, sv)
}

/// Run one full recomputation: simplify a private snapshot of the graph,
/// assign the voltage-source constraint rows, assemble and solve the
/// modified-nodal-analysis system, and scatter the solved voltages back.
///
/// Returns the outcome together with the reduced graph, the merge map and
/// the solution vector (empty unless the outcome is `Solved`).  Only a
/// `Solved` outcome writes any voltage; the reported solution provably
/// satisfies, exactly, a system whose every entry equals the assembled
/// sum of element stamps for the reduced graph.
pub fn solve_circuit(g: &mut Graph) -> (r: (AnalysisOutcome, Graph, Vec<MergeEntry>, Vec<Rational>))
    requires
        old(g).wf(),
        old(g).elements@.len() < u32::MAX,
        old(g).nodes@.len() < usize::MAX - u32::MAX,
    ensures
        // the caller's arenas keep their shape; only voltages change
        final(g).elements == old(g).elements,
        final(g).nodes@.len() == old(g).nodes@.len(),
        forall|t: int|
            0 <= t < final(g).nodes@.len() ==> {
                &&& (#[trigger] final(g).nodes@[t]).id == old(g).nodes@[t].id
                &&& final(g).nodes@[t].connections@ == old(g).nodes@[t].connections@
            },
        // what the simplifier produced
        is_reduced(r.1),
        map_wf(r.2@),
        elements_tracked(r.2@, old(g).elements@, r.1.elements@),
        // anything but an exact solution leaves every voltage alone
        !(r.0 is Solved) ==> forall|t: int|
            0 <= t < final(g).nodes@.len() ==> (#[trigger] final(g).nodes@[t]).voltage == old(
                g,
            ).nodes@[t].voltage,
        !(r.0 is Solved) ==> r.3@.len() == 0,
        // the trivial report comes exactly when nothing beyond the
        // reference row would be assembled
        r.0 is Trivial <==> r.1.nodes@.len() + source_total(r.1.elements@) <= 1,
        // a no-unique-solution report is certified: the assembled system
        // of the reduced graph really has two distinct exact solutions
        r.0 is NoUniqueSolution ==> exists|sm: Seq<Vec<Rational>>, sv: Seq<Rational>|
            #[trigger] underdetermined_assembled(r.1, sm, sv),
        // an exact solution of the assembled system, scattered back
        r.0 is Solved ==> {
            &&& vec_wf(r.3@)
            &&& r.3@.len() >= r.1.nodes@.len()
            &&& exists|sm: Seq<Vec<Rational>>, sv: Seq<Rational>|
                #[trigger] solves_assembled(r.1, sm, sv, r.3@)
            &&& forall|t: int, i: int|
                0 <= t < final(g).nodes@.len() && 1 <= i < r.1.nodes@.len() && old(g).nodes@[t].id
                    == (#[trigger] r.1.nodes@[i]).id
                    ==> (#[trigger] final(g).nodes@[t]).voltage == r.3@[i]
        },
{
    // simplify a private snapshot
    let mut work = copy_graph(g);
    let ghost snapshot = work;
    let map = simplify_graph(&mut work);
    proof {
        // tracking holds against the caller's own elements too
        lemma_tracked_swap(
            map@,
            snapshot.elements@,
            old(g).elements@,
            work.elements@,
            work.elements@,
        );
    }
    let ghost simplified = work;
    // hand out the auxiliary constraint rows
    let total_aux = assign_source_rows(&mut work);
    proof {
        // the row assignment changes no topology, so the graph stays reduced
        assert forall|i: int| 0 <= i < work.nodes@.len() implies !crate::simplify::node_prunable(
            work.elements@,
            #[trigger] work.nodes@[i],
        ) by {
            crate::simplify::lemma_prunable_same_topology(
                simplified.elements@,
                work.elements@,
                work.nodes@[i],
            );
        }
        assert forall|q: int|
            0 <= q < work.elements@.len() && (#[trigger] work.elements@[q]).spec_shorted()
            implies work.elements@[q].nodes@[0] == work.elements@[q].nodes@[1] by {
            assert(work.elements@[q].kind == simplified.elements@[q].kind);
            assert(work.elements@[q].nodes@ == simplified.elements@[q].nodes@);
            assert(simplified.elements@[q].spec_shorted());
        }
        assert(is_reduced(work));
        lemma_tracked_swap(
            map@,
            old(g).elements@,
            old(g).elements@,
            simplified.elements@,
            work.elements@,
        );
    }
    let dim = work.nodes.len() + (total_aux as usize);
    proof {
        assert(total_aux == source_total(work.elements@));
    }
    if dim <= 1 {
        // nothing beyond the reference node: leave all voltages as they are
        return (AnalysisOutcome::Trivial, work, map, Vec::new());
    }
    let sys = match assemble_system(&work, total_aux) {
        Some(sys) => sys,
        None => {
            return (AnalysisOutcome::OutOfRange, work, map, Vec::new());
        },
    };
    match solve_system(&sys.matrix, &sys.vector) {
        SolveOutcome::Solved(x) => {
            apply_voltages(&mut g.nodes, &work.nodes, &map, &x);
            proof {
                assert(is_solution(sys.matrix@, sys.vector@, x@));
                assert(solves_assembled(work, sys.matrix@, sys.vector@, x@));
            }
            (AnalysisOutcome::Solved, work, map, x)
        },
        SolveOutcome::NoUniqueSolution => {
            proof {
                assert(underdetermined_assembled(work, sys.matrix@, sys.vector@));
            }
            (AnalysisOutcome::NoUniqueSolution, work, map, Vec::new())
        },
        SolveOutcome::Inconsistent => (AnalysisOutcome::Inconsistent, work, map, Vec::new()),
        SolveOutcome::OutOfRange => (AnalysisOutcome::OutOfRange, work, map, Vec::new()),
    }
}

} // verus!
