//! Graph simplification.
//!
//! A fixpoint rewrite reduces the graph to its electrically distinct
//! nodes before assembly: dangling nodes are pruned, elements that lost a
//! terminal are dropped, stale connection entries are repaired, and nodes
//! bridged by a zero-impedance (shorted) element are merged, lower id
//! surviving.  A merge map records, for every survivor, the original node
//! ids that collapsed into it, so solved voltages can be scattered back.

use vstd::prelude::*;
use crate::rational::Rational;
use crate::graph::Element;
use crate::graph::Graph;
use crate::graph::Node;
use crate::graph::elements_sorted;
use crate::graph::find_element;
use crate::graph::has_node;
use crate::graph::nodes_sorted;
use crate::graph::no_dups;

verus! {

/// One record of the merge map: every node id in `members` (the survivor
/// itself included) denotes the same electrical node as `survivor`.
#[derive(Clone, Debug)]
pub struct MergeEntry {
    pub survivor: u32,
    pub members: Vec<u32>,
}

/// Some connected element guards this node against dangling pruning
/// (it needs the node for a reference or constraint row).
#[verifier::opaque]
pub open spec fn guard_connected(elements: Seq<Element>, n: Node) -> bool {
    exists|c: int, e: int|
        0 <= c < n.connections@.len() && 0 <= e < elements.len()
            && (#[trigger] elements[e]).id == (#[trigger] n.connections@[c])
            && elements[e].spec_guard()
}

/// A node the dangling rule removes: not the reserved reference node, at
/// most one connection, and no guarding element.
#[verifier::opaque]
pub open spec fn node_prunable(elements: Seq<Element>, n: Node) -> bool {
    n.id != 0 && n.connections@.len() <= 1 && !guard_connected(elements, n)
}

/// Whether a node is prunable depends only on the elements' kinds and
/// ids, never on their assigned constraint rows.
pub proof fn lemma_prunable_same_topology(e1: Seq<Element>, e2: Seq<Element>, n: Node)
    requires
        e1.len() == e2.len(),
        forall|q: int|
            0 <= q < e1.len() ==> {
                &&& (#[trigger] e2[q]).id == e1[q].id
                &&& e2[q].kind == e1[q].kind
            },
    ensures
        node_prunable(e1, n) == node_prunable(e2, n),
{
    reveal(crate::simplify::node_prunable);
    reveal(crate::simplify::guard_connected);
    assert forall|c: int, e: int|
        0 <= c < n.connections@.len() && 0 <= e < e1.len() && (#[trigger] e1[e]).id == (
        #[trigger] n.connections@[c]) && e1[e].spec_guard() implies e2[e].id == n.connections@[c]
        && e2[e].spec_guard() by {}
    assert forall|c: int, e: int|
        0 <= c < n.connections@.len() && 0 <= e < e2.len() && (#[trigger] e2[e]).id == (
        #[trigger] n.connections@[c]) && e2[e].spec_guard() implies e1[e].id == n.connections@[c]
        && e1[e].spec_guard() by {}
    if guard_connected(e1, n) {
        let (c, e) = choose|c: int, e: int|
            0 <= c < n.connections@.len() && 0 <= e < e1.len() && (#[trigger] e1[e]).id == (
            #[trigger] n.connections@[c]) && e1[e].spec_guard();
        assert(e2[e].id == n.connections@[c] && e2[e].spec_guard());
    }
    if guard_connected(e2, n) {
        let (c, e) = choose|c: int, e: int|
            0 <= c < n.connections@.len() && 0 <= e < e2.len() && (#[trigger] e2[e]).id == (
            #[trigger] n.connections@[c]) && e2[e].spec_guard();
        assert(e1[e].id == n.connections@[c] && e1[e].spec_guard());
    }
}

/// The number of connection entries over all nodes; part of the
/// termination measure of the fixpoint.
pub open spec fn total_conns(nodes: Seq<Node>) -> int
    decreases nodes.len(),
{
    if nodes.len() == 0 {
        0
    } else {
        total_conns(nodes.drop_last()) + nodes.last().connections@.len()
    }
}

pub proof fn lemma_total_conns_nonneg(nodes: Seq<Node>)
    ensures
        total_conns(nodes) >= 0,
    decreases nodes.len(),
{
    if nodes.len() > 0 {
        lemma_total_conns_nonneg(nodes.drop_last());
    }
}

/// Extending a prefix by one node adds that node's connection count.
pub proof fn lemma_total_conns_take_step(nodes: Seq<Node>, j: int)
    requires
        0 <= j < nodes.len(),
    ensures
        total_conns(nodes.take(j + 1)) == total_conns(nodes.take(j))
            + nodes[j].connections@.len(),
{
    assert(nodes.take(j + 1).drop_last() =~= nodes.take(j));
    assert(nodes.take(j + 1).last() == nodes[j]);
}

/// The whole sequence is its own full prefix.
pub proof fn lemma_total_conns_take_all(nodes: Seq<Node>)
    ensures
        total_conns(nodes.take(nodes.len() as int)) == total_conns(nodes),
{
    assert(nodes.take(nodes.len() as int) =~= nodes);
}

/// Membership in a sequence survives pushing another entry.
pub proof fn lemma_push_keeps_has<A>(s: Seq<A>, x: A, y: A)
    requires
        s.contains(y),
    ensures
        s.push(x).contains(y),
{
    let i = choose|i: int| 0 <= i < s.len() && s[i] == y;
    assert(s.push(x)[i] == y);
}

/// Element ids are unique in a sorted arena.
pub proof fn lemma_sorted_elements_unique(elements: Seq<Element>)
    requires
        elements_sorted(elements),
    ensures
        forall|e1: int, e2: int|
            0 <= e1 < elements.len() && 0 <= e2 < elements.len()
                && (#[trigger] elements[e1]).id == (#[trigger] elements[e2]).id ==> e1 == e2,
{
}

/// Whether some guarding element is connected to the node.
fn is_guard_connected(elements: &Vec<Element>, n: &Node) -> (r: bool)
    requires
        elements_sorted(elements@),
    ensures
        r == guard_connected(elements@, *n),
{
    proof {
        lemma_sorted_elements_unique(elements@);
        reveal(crate::simplify::guard_connected);
    }
    let mut c: usize = 0;
    while c < n.connections.len()
        invariant
            c <= n.connections@.len(),
            elements_sorted(elements@),
            forall|e1: int, e2: int|
                0 <= e1 < elements@.len() && 0 <= e2 < elements@.len()
                    && (#[trigger] elements@[e1]).id == (#[trigger] elements@[e2]).id ==> e1 == e2,
            forall|cc: int, e: int|
                0 <= cc < c && 0 <= e < elements@.len()
                    && (#[trigger] elements@[e]).id == (#[trigger] n.connections@[cc])
                    ==> !elements@[e].spec_guard(),
        decreases n.connections@.len() - c,
    {
        match find_element(elements, n.connections[c]) {
            Some(ei) => {
                if elements[ei].is_guard() {
                    proof {
                        reveal(crate::simplify::guard_connected);
                    }
                    return true;
                }
            },
            None => {},
        }
        c += 1;
    }
    proof {
        reveal(crate::simplify::guard_connected);
    }
    false
}


/// Removing one node keeps the arena sorted.
pub proof fn lemma_remove_keeps_nodes_sorted(s: Seq<Node>, i: int)
    requires
        0 <= i < s.len(),
        nodes_sorted(s),
    ensures
        nodes_sorted(s.remove(i)),
{
    assert forall|a: int, b: int|
        0 <= a < b < s.remove(i).len() implies (#[trigger] s.remove(i)[a]).id
        < (#[trigger] s.remove(i)[b]).id by {
        let a0: int = if a < i {
            a
        } else {
            a + 1
        };
        let b0: int = if b < i {
            b
        } else {
            b + 1
        };
        assert(s.remove(i)[a] == s[a0]);
        assert(s.remove(i)[b] == s[b0]);
    }
}

/// Removing one element keeps the arena sorted.
pub proof fn lemma_remove_keeps_elements_sorted(s: Seq<Element>, i: int)
    requires
        0 <= i < s.len(),
        elements_sorted(s),
    ensures
        elements_sorted(s.remove(i)),
{
    assert forall|a: int, b: int|
        0 <= a < b < s.remove(i).len() implies (#[trigger] s.remove(i)[a]).id
        < (#[trigger] s.remove(i)[b]).id by {
        let a0: int = if a < i {
            a
        } else {
            a + 1
        };
        let b0: int = if b < i {
            b
        } else {
            b + 1
        };
        assert(s.remove(i)[a] == s[a0]);
        assert(s.remove(i)[b] == s[b0]);
    }
}

/// Membership of a different value survives removing one entry.
pub proof fn lemma_remove_keeps_has<A>(s: Seq<A>, i: int, y: A)
    requires
        0 <= i < s.len(),
        s.contains(y),
        s[i] != y,
    ensures
        s.remove(i).contains(y),
{
    let w = choose|w: int| 0 <= w < s.len() && s[w] == y;
    if w < i {
        assert(s.remove(i)[w] == y);
    } else {
        assert(s.remove(i)[w - 1] == y);
    }
}

/// Removing a node subtracts exactly its connection count from the total.
pub proof fn lemma_total_conns_remove(s: Seq<Node>, i: int)
    requires
        0 <= i < s.len(),
    ensures
        total_conns(s.remove(i)) == total_conns(s) - s[i].connections@.len(),
    decreases s.len(),
{
    if i == s.len() - 1 {
        assert(s.remove(i) =~= s.drop_last());
    } else {
        assert(s.remove(i).drop_last() =~= s.drop_last().remove(i));
        assert(s.remove(i).last() == s.last());
        lemma_total_conns_remove(s.drop_last(), i);
    }
}


/// Every entry of `sub` is (the value of) some entry of `sup`.
#[verifier::opaque]
pub open spec fn nodes_from(sub: Seq<Node>, sup: Seq<Node>) -> bool {
    forall|i: int| 0 <= i < sub.len() ==> sup.contains(#[trigger] sub[i])
}

/// Every entry of `sub` is (the value of) some entry of `sup`.
#[verifier::opaque]
pub open spec fn elements_from(sub: Seq<Element>, sup: Seq<Element>) -> bool {
    forall|i: int| 0 <= i < sub.len() ==> sup.contains(#[trigger] sub[i])
}

/// Well-formedness of the node records carries over to any selection of
/// them.
pub proof fn lemma_nodes_from_keep_wf(sub: Seq<Node>, sup: Seq<Node>)
    requires
        nodes_from(sub, sup),
        forall|i: int| 0 <= i < sup.len() ==> (#[trigger] sup[i]).wf(),
    ensures
        forall|i: int| 0 <= i < sub.len() ==> (#[trigger] sub[i]).wf(),
{
    reveal(crate::simplify::nodes_from);
    assert forall|i: int| 0 <= i < sub.len() implies (#[trigger] sub[i]).wf() by {
        assert(sup.contains(sub[i]));
        let j = choose|j: int| 0 <= j < sup.len() && sup[j] == sub[i];
        assert(sup[j].wf());
    }
}

/// Every original node that the dangling rule would keep (looking at
/// indices from `lo` on) is still present in the current arena.
#[verifier::opaque]
pub open spec fn unpruned_kept(
    nodes: Seq<Node>,
    orig_nodes: Seq<Node>,
    elements: Seq<Element>,
    lo: int,
) -> bool {
    forall|j2: int|
        lo <= j2 < orig_nodes.len() && !node_prunable(elements, #[trigger] orig_nodes[j2])
            ==> nodes.contains(orig_nodes[j2])
}

/// Any arena draws its entries from itself.
pub proof fn lemma_nodes_from_refl(s: Seq<Node>)
    ensures
        nodes_from(s, s),
{
    reveal(crate::simplify::nodes_from);
    assert forall|i: int| 0 <= i < s.len() implies s.contains(#[trigger] s[i]) by {
        assert(s[i] == s[i]);
    }
}

/// Removing an entry keeps the arena drawn from the same source.
pub proof fn lemma_nodes_from_remove(sub: Seq<Node>, sup: Seq<Node>, i: int)
    requires
        nodes_from(sub, sup),
        0 <= i < sub.len(),
    ensures
        nodes_from(sub.remove(i), sup),
{
    reveal(crate::simplify::nodes_from);
    assert forall|t: int| 0 <= t < sub.remove(i).len() implies sup.contains(
        #[trigger] sub.remove(i)[t],
    ) by {
        let t0: int = if t < i {
            t
        } else {
            t + 1
        };
        assert(sub.remove(i)[t] == sub[t0]);
        assert(sup.contains(sub[t0]));
    }
}

/// Dangling pruning: drop every node with at most one connection, except
/// the reserved reference node and nodes a reference/constraint element
/// guards.  Elements are left alone; the orphan rule deals with them next.
#[verifier::rlimit(100)]
pub fn prune_dangling_nodes(g: &mut Graph) -> (changed: bool)
    requires
        nodes_sorted(old(g).nodes@),
        elements_sorted(old(g).elements@),
        old(g).nodes@.len() >= 1,
        old(g).nodes@[0].id == 0,
    ensures
        final(g).elements == old(g).elements,
        nodes_sorted(final(g).nodes@),
        final(g).nodes@.len() >= 1,
        final(g).nodes@[0] == old(g).nodes@[0],
        final(g).nodes@.len() <= old(g).nodes@.len(),
        changed == (final(g).nodes@.len() < old(g).nodes@.len()),
        nodes_from(final(g).nodes@, old(g).nodes@),
        forall|i: int|
            1 <= i < final(g).nodes@.len() ==> !node_prunable(
                old(g).elements@,
                #[trigger] final(g).nodes@[i],
            ),
        unpruned_kept(final(g).nodes@, old(g).nodes@, old(g).elements@, 0),
        total_conns(final(g).nodes@) <= total_conns(old(g).nodes@),
        !changed ==> final(g).nodes@ == old(g).nodes@,
        changed ==> exists|j: int|
            0 <= j < old(g).nodes@.len() && node_prunable(
                old(g).elements@,
                #[trigger] old(g).nodes@[j],
            ),
{
    let mut changed = false;
    let ghost mut wit: int = 0;
    let mut j: usize = g.nodes.len();
    proof {
        lemma_nodes_from_refl(g.nodes@);
        assert(unpruned_kept(g.nodes@, old(g).nodes@, old(g).elements@, j as int)) by {
            reveal(crate::simplify::unpruned_kept);
        }
    }
    while j > 1
        invariant
            elements_sorted(old(g).elements@),
            nodes_sorted(old(g).nodes@),
            g.elements == old(g).elements,
            1 <= j <= g.nodes@.len(),
            g.nodes@.len() <= old(g).nodes@.len(),
            g.nodes@[0] == old(g).nodes@[0],
            g.nodes@[0].id == 0,
            // the prefix up to j is still the original prefix
            g.nodes@.take(j as int) == old(g).nodes@.take(j as int),
            // the tail beyond j is fully processed
            forall|t: int|
                j <= t < g.nodes@.len() ==> !node_prunable(
                    old(g).elements@,
                    #[trigger] g.nodes@[t],
                ),
            nodes_from(g.nodes@, old(g).nodes@),
            unpruned_kept(g.nodes@, old(g).nodes@, old(g).elements@, j as int),
            nodes_sorted(g.nodes@),
            total_conns(g.nodes@) <= total_conns(old(g).nodes@),
            changed == (g.nodes@.len() < old(g).nodes@.len()),
            !changed ==> g.nodes@ == old(g).nodes@,
            changed ==> 0 <= wit < old(g).nodes@.len() && node_prunable(
                old(g).elements@,
                old(g).nodes@[wit],
            ),
        decreases j,
    {
        j -= 1;
        proof {
            assert(g.nodes@[j as int] == g.nodes@.take((j + 1) as int)[j as int]);
            assert(g.nodes@[j as int] == old(g).nodes@[j as int]);
        }
        let keep: bool = if g.nodes[j].connections.len() > 1 {
            true
        } else {
            is_guard_connected(&g.elements, &g.nodes[j])
        };
        if keep {
            proof {
                assert(!node_prunable(old(g).elements@, g.nodes@[j as int])) by {
                    reveal(crate::simplify::node_prunable);
                }
                assert(g.nodes@.take(j as int) =~= old(g).nodes@.take(j as int));
                assert(unpruned_kept(g.nodes@, old(g).nodes@, old(g).elements@, j as int)) by {
                    reveal(crate::simplify::unpruned_kept);
                    assert forall|j2: int|
                        j <= j2 < old(g).nodes@.len() && !node_prunable(
                            old(g).elements@,
                            #[trigger] old(g).nodes@[j2],
                        ) implies g.nodes@.contains(old(g).nodes@[j2]) by {
                        if j2 == j as int {
                            assert(g.nodes@[j as int] == old(g).nodes@[j2]);
                        }
                    }
                }
            }
        } else {
            let ghost pre = g.nodes@;
            g.nodes.remove(j);
            proof {
                assert(pre[j as int].id != 0) by {
                    assert(pre[0].id < pre[j as int].id);
                }
                assert(node_prunable(old(g).elements@, old(g).nodes@[j as int])) by {
                    reveal(crate::simplify::node_prunable);
                }
                lemma_remove_keeps_nodes_sorted(pre, j as int);
                lemma_total_conns_remove(pre, j as int);
                lemma_nodes_from_remove(pre, old(g).nodes@, j as int);
                assert(g.nodes@.take(j as int) =~= pre.take(j as int));
                assert(g.nodes@.take(j as int) =~= old(g).nodes@.take(j as int));
                // processed tail facts shift down by one
                assert forall|t: int|
                    j <= t < g.nodes@.len() implies !node_prunable(
                        old(g).elements@,
                        #[trigger] g.nodes@[t],
                    ) by {
                    assert(g.nodes@[t] == pre[t + 1]);
                }
                // surviving originals stay present
                assert(unpruned_kept(g.nodes@, old(g).nodes@, old(g).elements@, j as int)) by {
                    reveal(crate::simplify::unpruned_kept);
                    assert forall|j2: int|
                        j <= j2 < old(g).nodes@.len() && !node_prunable(
                            old(g).elements@,
                            #[trigger] old(g).nodes@[j2],
                        ) implies g.nodes@.contains(old(g).nodes@[j2]) by {
                        assert(j2 != j as int);
                        assert(pre[j as int] == pre.take((j + 1) as int)[j as int]);
                        assert(pre[j as int] == old(g).nodes@[j as int]);
                        assert(old(g).nodes@[j2].id > old(g).nodes@[j as int].id);
                        assert(pre.contains(old(g).nodes@[j2]));
                        lemma_remove_keeps_has(pre, j as int, old(g).nodes@[j2]);
                    }
                }
                wit = j as int;
            }
            changed = true;
        }
    }
    proof {
        assert(unpruned_kept(g.nodes@, old(g).nodes@, old(g).elements@, 0)) by {
            reveal(crate::simplify::unpruned_kept);
            assert forall|j2: int|
                0 <= j2 < old(g).nodes@.len() && !node_prunable(
                    old(g).elements@,
                    #[trigger] old(g).nodes@[j2],
                ) implies g.nodes@.contains(old(g).nodes@[j2]) by {
                if j2 == 0 {
                    assert(g.nodes@[0] == old(g).nodes@[0]);
                }
            }
        }
    }
    changed
}


/// An element that lost a terminal: some entry of its node list names no
/// live node.
#[verifier::opaque]
pub open spec fn element_orphan(nodes: Seq<Node>, e: Element) -> bool {
    exists|k: int| 0 <= k < e.nodes@.len() && !has_node(nodes, #[trigger] e.nodes@[k])
}

/// Whether every terminal of the element resolves to a live node.
fn all_endpoints_live(nodes: &Vec<Node>, e: &Element) -> (r: bool)
    ensures
        r == !element_orphan(nodes@, *e),
{
    proof {
        reveal(crate::simplify::element_orphan);
    }
    let mut k: usize = 0;
    while k < e.nodes.len()
        invariant
            k <= e.nodes@.len(),
            forall|kk: int| 0 <= kk < k ==> has_node(nodes@, #[trigger] e.nodes@[kk]),
        decreases e.nodes@.len() - k,
    {
        match crate::graph::find_node(nodes, e.nodes[k]) {
            Some(i) => {
                proof {
                    assert(has_node(nodes@, e.nodes@[k as int]));
                }
            },
            None => {
                proof {
                    reveal(crate::simplify::element_orphan);
                }
                return false;
            },
        }
        k += 1;
    }
    proof {
        reveal(crate::simplify::element_orphan);
    }
    true
}

/// Orphan element pruning: drop every element with a dead terminal; it
/// can no longer constrain anything.
#[verifier::rlimit(100)]
pub fn prune_orphan_elements(g: &mut Graph) -> (changed: bool)
    requires
        elements_sorted(old(g).elements@),
    ensures
        final(g).nodes == old(g).nodes,
        elements_sorted(final(g).elements@),
        final(g).elements@.len() <= old(g).elements@.len(),
        changed == (final(g).elements@.len() < old(g).elements@.len()),
        elements_from(final(g).elements@, old(g).elements@),
        forall|i: int|
            0 <= i < final(g).elements@.len() ==> !element_orphan(
                old(g).nodes@,
                #[trigger] final(g).elements@[i],
            ),
        forall|j: int|
            0 <= j < old(g).elements@.len() && !element_orphan(
                old(g).nodes@,
                #[trigger] old(g).elements@[j],
            ) ==> final(g).elements@.contains(old(g).elements@[j]),
        !changed ==> final(g).elements@ == old(g).elements@,
        changed ==> exists|j: int|
            0 <= j < old(g).elements@.len() && element_orphan(
                old(g).nodes@,
                #[trigger] old(g).elements@[j],
            ),
{
    let mut changed = false;
    let ghost mut wit: int = 0;
    let mut j: usize = g.elements.len();
    while j > 0
        invariant
            elements_sorted(old(g).elements@),
            g.nodes == old(g).nodes,
            j <= g.elements@.len(),
            g.elements@.len() <= old(g).elements@.len(),
            g.elements@.take(j as int) == old(g).elements@.take(j as int),
            forall|t: int|
                j <= t < g.elements@.len() ==> !element_orphan(
                    old(g).nodes@,
                    #[trigger] g.elements@[t],
                ),
            forall|t: int|
                j <= t < g.elements@.len() ==> exists|j2: int|
                    0 <= j2 < old(g).elements@.len() && old(g).elements@[j2]
                        == (#[trigger] g.elements@[t]),
            forall|j2: int|
                j <= j2 < old(g).elements@.len() && !element_orphan(
                    old(g).nodes@,
                    #[trigger] old(g).elements@[j2],
                ) ==> g.elements@.contains(old(g).elements@[j2]),
            elements_sorted(g.elements@),
            changed == (g.elements@.len() < old(g).elements@.len()),
            !changed ==> g.elements@ == old(g).elements@,
            changed ==> 0 <= wit < old(g).elements@.len() && element_orphan(
                old(g).nodes@,
                old(g).elements@[wit],
            ),
        decreases j,
    {
        j -= 1;
        proof {
            assert(g.elements@[j as int] == g.elements@.take((j + 1) as int)[j as int]);
            assert(g.elements@[j as int] == old(g).elements@[j as int]);
        }
        let keep = all_endpoints_live(&g.nodes, &g.elements[j]);
        if keep {
            proof {
                assert(g.elements@.take(j as int) =~= old(g).elements@.take(j as int));
            }
        } else {
            proof {
                assert(element_orphan(old(g).nodes@, old(g).elements@[j as int])) by {
                    assert(g.nodes == old(g).nodes);
                }
                wit = j as int;
            }
            let ghost pre = g.elements@;
            g.elements.remove(j);
            proof {
                lemma_remove_keeps_elements_sorted(pre, j as int);
                assert(g.elements@.take(j as int) =~= pre.take(j as int));
                assert(g.elements@.take(j as int) =~= old(g).elements@.take(j as int));
                assert forall|t: int|
                    j <= t < g.elements@.len() implies !element_orphan(
                        old(g).nodes@,
                        #[trigger] g.elements@[t],
                    ) && exists|j2: int|
                        0 <= j2 < old(g).elements@.len() && old(g).elements@[j2]
                            == g.elements@[t] by {
                    assert(g.elements@[t] == pre[t + 1]);
                }
                assert forall|j2: int|
                    j <= j2 < old(g).elements@.len() && !element_orphan(
                        old(g).nodes@,
                        #[trigger] old(g).elements@[j2],
                    ) implies g.elements@.contains(old(g).elements@[j2]) by {
                    assert(j2 != j as int);
                    assert(pre[j as int] == pre.take((j + 1) as int)[j as int]);
                    assert(pre[j as int] == old(g).elements@[j as int]);
                    assert(old(g).elements@[j2].id > old(g).elements@[j as int].id);
                    lemma_remove_keeps_has(pre, j as int, old(g).elements@[j2]);
                }
            }
            changed = true;
        }
    }
    proof {
        assert(elements_from(g.elements@, old(g).elements@)) by {
            reveal(crate::simplify::elements_from);
            assert forall|i: int|
                0 <= i < g.elements@.len() implies old(g).elements@.contains(
                #[trigger] g.elements@[i],
            ) by {
                let j2 = choose|j2: int|
                    0 <= j2 < old(g).elements@.len() && old(g).elements@[j2] == g.elements@[i];
                assert(old(g).elements@[j2] == g.elements@[i]);
            }
        }
    }
    changed
}

/// Connection repair: drop from every node the references to elements
/// that no longer exist.
#[verifier::rlimit(100)]
#[verifier::loop_isolation(false)]
pub fn repair_connections(g: &mut Graph) -> (changed: bool)
    requires
        forall|i: int| 0 <= i < old(g).nodes@.len() ==> no_dups(
            (#[trigger] old(g).nodes@[i]).connections@,
        ),
    ensures
        final(g).elements == old(g).elements,
        final(g).nodes@.len() == old(g).nodes@.len(),
        forall|i: int|
            0 <= i < final(g).nodes@.len() ==> {
                &&& (#[trigger] final(g).nodes@[i]).id == old(g).nodes@[i].id
                &&& final(g).nodes@[i].voltage == old(g).nodes@[i].voltage
                &&& no_dups(final(g).nodes@[i].connections@)
                &&& final(g).nodes@[i].connections@.len() <= old(g).nodes@[i].connections@.len()
            },
        // kept entries: exactly the old entries whose element still exists
        forall|i: int, c: int|
            0 <= i < final(g).nodes@.len() && 0 <= c < final(g).nodes@[i].connections@.len() ==> {
                &&& old(g).nodes@[i].connections@.contains(
                    #[trigger] final(g).nodes@[i].connections@[c],
                )
                &&& crate::graph::has_element(
                    final(g).elements@,
                    final(g).nodes@[i].connections@[c],
                )
            },
        forall|i: int, c: int|
            0 <= i < old(g).nodes@.len() && 0 <= c < old(g).nodes@[i].connections@.len()
                && crate::graph::has_element(
                old(g).elements@,
                #[trigger] old(g).nodes@[i].connections@[c],
            ) ==> final(g).nodes@[i].connections@.contains(old(g).nodes@[i].connections@[c]),
        total_conns(final(g).nodes@) <= total_conns(old(g).nodes@),
        changed ==> total_conns(final(g).nodes@) < total_conns(old(g).nodes@),
        !changed ==> final(g).nodes@ == old(g).nodes@,
        changed ==> exists|i: int, c: int|
            0 <= i < old(g).nodes@.len() && 0 <= c < old(g).nodes@[i].connections@.len()
                && !crate::graph::has_element(
                old(g).elements@,
                #[trigger] old(g).nodes@[i].connections@[c],
            ),
{
    let mut changed = false;
    let ghost mut wi: int = 0;
    let ghost mut wc: int = 0;
    let mut i: usize = 0;
    while i < g.nodes.len()
        invariant
            g.elements == old(g).elements,
            i <= g.nodes@.len(),
            g.nodes@.len() == old(g).nodes@.len(),
            forall|t: int| i <= t < g.nodes@.len() ==> (#[trigger] g.nodes@[t]) == old(g).nodes@[t],
            forall|t: int|
                0 <= t < i ==> {
                    &&& (#[trigger] g.nodes@[t]).id == old(g).nodes@[t].id
                    &&& g.nodes@[t].voltage == old(g).nodes@[t].voltage
                    &&& no_dups(g.nodes@[t].connections@)
                    &&& g.nodes@[t].connections@.len() <= old(g).nodes@[t].connections@.len()
                },
            forall|t: int, c: int|
                0 <= t < i && 0 <= c < g.nodes@[t].connections@.len() ==> {
                    &&& old(g).nodes@[t].connections@.contains(
                        #[trigger] g.nodes@[t].connections@[c],
                    )
                    &&& crate::graph::has_element(g.elements@, g.nodes@[t].connections@[c])
                },
            forall|t: int, c: int|
                0 <= t < i && 0 <= c < old(g).nodes@[t].connections@.len()
                    && crate::graph::has_element(
                    g.elements@,
                    #[trigger] old(g).nodes@[t].connections@[c],
                ) ==> g.nodes@[t].connections@.contains(old(g).nodes@[t].connections@[c]),
            total_conns(g.nodes@.take(i as int)) <= total_conns(old(g).nodes@.take(i as int)),
            changed ==> total_conns(g.nodes@.take(i as int)) < total_conns(
                old(g).nodes@.take(i as int),
            ),
            !changed ==> g.nodes@ == old(g).nodes@,
            changed ==> 0 <= wi < old(g).nodes@.len() && 0 <= wc < old(g).nodes@[
                wi
            ].connections@.len() && !crate::graph::has_element(
                old(g).elements@,
                old(g).nodes@[wi].connections@[wc],
            ),
        decreases g.nodes@.len() - i,
    {
        let n = g.nodes.len();
        let old_len = g.nodes[i].connections.len();
        let mut kept: Vec<u32> = Vec::new();
        let mut c: usize = 0;
        while c < g.nodes[i].connections.len()
            invariant
                i < g.nodes@.len(),
                c <= g.nodes@[i as int].connections@.len(),
                kept@.len() <= c,
                no_dups(g.nodes@[i as int].connections@),
                forall|x: int| 0 <= x < kept@.len() ==> {
                    &&& g.nodes@[i as int].connections@.contains(#[trigger] kept@[x])
                    &&& crate::graph::has_element(g.elements@, kept@[x])
                },
                no_dups(kept@),
                forall|cc: int|
                    0 <= cc < c && crate::graph::has_element(
                        g.elements@,
                        #[trigger] g.nodes@[i as int].connections@[cc],
                    ) ==> kept@.contains(g.nodes@[i as int].connections@[cc]),
                forall|x: int| 0 <= x < kept@.len() ==> exists|cc: int|
                    0 <= cc < c && (#[trigger] kept@[x]) == g.nodes@[i as int].connections@[cc],
            decreases g.nodes@[i as int].connections@.len() - c,
        {
            let id = g.nodes[i].connections[c];
            match find_element(&g.elements, id) {
                Some(_) => {
                    proof {
                        assert(!kept@.contains(id)) by {
                            if kept@.contains(id) {
                                let x = choose|x: int| 0 <= x < kept@.len() && kept@[x] == id;
                                let cc = choose|cc: int|
                                    0 <= cc < c && kept@[x] == g.nodes@[i as int].connections@[cc];
                                assert(g.nodes@[i as int].connections@[cc]
                                    == g.nodes@[i as int].connections@[c as int]);
                            }
                        }
                    }
                    let ghost prek = kept@;
                    kept.push(id);
                    proof {
                        assert(kept@[prek.len() as int] == id);
                        assert forall|cc: int|
                            0 <= cc < c + 1 && crate::graph::has_element(
                                g.elements@,
                                #[trigger] g.nodes@[i as int].connections@[cc],
                            ) implies kept@.contains(g.nodes@[i as int].connections@[cc]) by {
                            if cc < c {
                                lemma_push_keeps_has(
                                    prek,
                                    id,
                                    g.nodes@[i as int].connections@[cc],
                                );
                            }
                        }
                    }
                },
                None => {},
            }
            c += 1;
        }
        let kept_len = kept.len();
        if kept_len < old_len {
            proof {
                // some entry of this node was dropped, so it names no element
                if forall|cc: int|
                    0 <= cc < g.nodes@[i as int].connections@.len()
                        ==> crate::graph::has_element(
                        g.elements@,
                        #[trigger] g.nodes@[i as int].connections@[cc],
                    ) {
                    lemma_no_dups_count(g.nodes@[i as int].connections@, kept@);
                    assert(false);
                }
                assert(g.nodes@[i as int] == old(g).nodes@[i as int]);
                wi = i as int;
                wc = choose|cc: int|
                    0 <= cc < g.nodes@[i as int].connections@.len()
                        && !crate::graph::has_element(
                        g.elements@,
                        #[trigger] g.nodes@[i as int].connections@[cc],
                    );
            }
            let ghost pre = g.nodes@;
            g.nodes[i].connections = kept;
            proof {
                lemma_total_conns_take_step(pre, i as int);
                lemma_total_conns_take_step(g.nodes@, i as int);
                lemma_total_conns_take_step(old(g).nodes@, i as int);
                assert(g.nodes@.take(i as int) =~= pre.take(i as int));
            }
            changed = true;
        } else {
            proof {
                // nothing was dropped: the kept list equals the old one
                assert forall|cc: int|
                    0 <= cc < g.nodes@[i as int].connections@.len() implies crate::graph::has_element(
                    g.elements@,
                    #[trigger] g.nodes@[i as int].connections@[cc],
                ) by {
                    if !crate::graph::has_element(g.elements@, g.nodes@[i as int].connections@[cc]) {
                        // then kept would be missing an entry yet have full length
                        assert(kept@.len() >= g.nodes@[i as int].connections@.len());
                        lemma_kept_full(kept@, g.nodes@[i as int].connections@, cc);
                    }
                }
                lemma_total_conns_take_step(g.nodes@, i as int);
                lemma_total_conns_take_step(old(g).nodes@, i as int);
            }
        }
        i += 1;
    }
    proof {
        lemma_total_conns_take_all(g.nodes@);
        lemma_total_conns_take_all(old(g).nodes@);
    }
    changed
}

/// If a duplicate-free list `kept` draws its entries from `from` while
/// skipping the entry at `cc`, it is shorter than `from`.
proof fn lemma_kept_full(kept: Seq<u32>, from: Seq<u32>, cc: int)
    requires
        no_dups(kept),
        no_dups(from),
        0 <= cc < from.len(),
        forall|x: int| 0 <= x < kept.len() ==> from.contains(#[trigger] kept[x]),
        forall|x: int| 0 <= x < kept.len() ==> kept[x] != from[cc],
    ensures
        kept.len() < from.len(),
{
    assert forall|x: int| 0 <= x < kept.len() implies from.remove(cc).contains(
        #[trigger] kept[x],
    ) by {
        let w = choose|w: int| 0 <= w < from.len() && from[w] == kept[x];
        assert(w != cc);
        if w < cc {
            assert(from.remove(cc)[w] == kept[x]);
        } else {
            assert(from.remove(cc)[w - 1] == kept[x]);
        }
    }
    lemma_no_dups_count(kept, from.remove(cc));
}

/// A duplicate-free sequence whose entries all occur in `other` is no
/// longer than `other`.
proof fn lemma_no_dups_count(s: Seq<u32>, other: Seq<u32>)
    requires
        no_dups(s),
        forall|x: int| 0 <= x < s.len() ==> other.contains(#[trigger] s[x]),
    ensures
        s.len() <= other.len(),
    decreases s.len(),
{
    if s.len() > 0 {
        let last = s.last();
        let w = choose|w: int| 0 <= w < other.len() && other[w] == last;
        let s2 = s.drop_last();
        let other2 = other.remove(w);
        assert forall|x: int| 0 <= x < s2.len() implies other2.contains(#[trigger] s2[x]) by {
            assert(s2[x] == s[x]);
            assert(s[x] != last);
            let w2 = choose|w2: int| 0 <= w2 < other.len() && other[w2] == s[x];
            assert(w2 != w);
            if w2 < w {
                assert(other2[w2] == s[x]);
            } else {
                assert(other2[w2 - 1] == s[x]);
            }
        }
        lemma_no_dups_count(s2, other2);
    }
}


/// Endpoint renaming done by one merge: the removed id `r` becomes the
/// survivor `s`; everything else is untouched.
pub open spec fn retarget(x: u32, s: u32, r: u32) -> u32 {
    if x == r {
        s
    } else {
        x
    }
}

/// The merge map sends the original node id `a` to the id `x`: either
/// directly (never merged away) or through the entry whose members list
/// `a` and whose survivor is `x`.
#[verifier::opaque]
pub open spec fn resolves_to(map: Seq<MergeEntry>, a: u32, x: u32) -> bool {
    a == x || exists|m: int|
        0 <= m < map.len() && (#[trigger] map[m]).survivor == x && map[m].members@.contains(a)
}

/// Merge-map invariant: one entry per survivor, and every entry lists its
/// own survivor among its members.
pub open spec fn map_wf(map: Seq<MergeEntry>) -> bool {
    &&& forall|m1: int, m2: int|
        0 <= m1 < m2 < map.len() ==> (#[trigger] map[m1]).survivor != (
        #[trigger] map[m2]).survivor
    &&& forall|m: int| 0 <= m < map.len() ==> (#[trigger] map[m]).members@.contains(
        map[m].survivor,
    )
    // the survivor is never the reserved reference node, and it carries
    // the lowest id of its entry: merging keeps the lower id
    &&& forall|m: int| 0 <= m < map.len() ==> (#[trigger] map[m]).survivor >= 1
    &&& forall|m: int, x: int|
        0 <= m < map.len() && 0 <= x < map[m].members@.len()
            ==> (#[trigger] map[m].members@[x]) >= map[m].survivor
}

/// Every current element descends from an original element with the same
/// id, kind and arity, each original terminal resolving to the current
/// one through the merge map.
#[verifier::opaque]
pub open spec fn elements_tracked(map: Seq<MergeEntry>, orig: Seq<Element>, cur: Seq<Element>) -> bool {
    forall|q: int|
        0 <= q < cur.len() ==> exists|q0: int|
            0 <= q0 < orig.len() && (#[trigger] orig[q0]).id == (#[trigger] cur[q]).id
                && orig[q0].kind == cur[q].kind
                && orig[q0].nodes@.len() == cur[q].nodes@.len()
                && (forall|k: int|
                0 <= k < cur[q].nodes@.len() ==> resolves_to(
                    map,
                    orig[q0].nodes@[k],
                    #[trigger] cur[q].nodes@[k],
                ))
}

/// An untouched element collection is tracked by any merge map.
pub proof fn lemma_tracked_refl(map: Seq<MergeEntry>, orig: Seq<Element>)
    ensures
        elements_tracked(map, orig, orig),
{
    reveal(crate::simplify::elements_tracked);
    reveal(crate::simplify::resolves_to);
    assert forall|q: int| 0 <= q < orig.len() implies exists|q0: int|
        0 <= q0 < orig.len() && (#[trigger] orig[q0]).id == (#[trigger] orig[q]).id
            && orig[q0].kind == orig[q].kind
            && orig[q0].nodes@.len() == orig[q].nodes@.len()
            && (forall|k: int|
            0 <= k < orig[q].nodes@.len() ==> resolves_to(
                map,
                orig[q0].nodes@[k],
                #[trigger] orig[q].nodes@[k],
            )) by {
        assert(forall|k: int|
            0 <= k < orig[q].nodes@.len() ==> resolves_to(
                map,
                orig[q].nodes@[k],
                #[trigger] orig[q].nodes@[k],
            )) by {
            reveal(crate::simplify::resolves_to);
        }
        assert(orig[q].id == orig[q].id);
    }
}

/// Tracking survives dropping elements.
pub proof fn lemma_tracked_subset(map: Seq<MergeEntry>, orig: Seq<Element>, cur0: Seq<Element>, cur1: Seq<Element>)
    requires
        elements_tracked(map, orig, cur0),
        elements_from(cur1, cur0),
    ensures
        elements_tracked(map, orig, cur1),
{
    reveal(crate::simplify::elements_tracked);
    reveal(crate::simplify::elements_from);
    assert forall|q: int| 0 <= q < cur1.len() implies exists|q0: int|
        0 <= q0 < orig.len() && (#[trigger] orig[q0]).id == (#[trigger] cur1[q]).id
            && orig[q0].kind == cur1[q].kind
            && orig[q0].nodes@.len() == cur1[q].nodes@.len()
            && (forall|k: int|
            0 <= k < cur1[q].nodes@.len() ==> resolves_to(
                map,
                orig[q0].nodes@[k],
                #[trigger] cur1[q].nodes@[k],
            )) by {
        let j = choose|j: int| 0 <= j < cur0.len() && cur0[j] == cur1[q];
        let q0 = choose|q0: int|
            0 <= q0 < orig.len() && (#[trigger] orig[q0]).id == cur0[j].id
                && orig[q0].kind == cur0[j].kind
                && orig[q0].nodes@.len() == cur0[j].nodes@.len()
                && (forall|k: int|
                0 <= k < cur0[j].nodes@.len() ==> resolves_to(
                    map,
                    orig[q0].nodes@[k],
                    #[trigger] cur0[j].nodes@[k],
                ));
        assert(orig[q0].id == cur1[q].id);
    }
}

/// Tracking survives one merge: terminals are retargeted and the map is
/// updated consistently.
pub proof fn lemma_tracked_merge(
    map0: Seq<MergeEntry>,
    map1: Seq<MergeEntry>,
    orig: Seq<Element>,
    cur0: Seq<Element>,
    cur1: Seq<Element>,
    s: u32,
    r: u32,
)
    requires
        elements_tracked(map0, orig, cur0),
        cur1.len() == cur0.len(),
        forall|q: int|
            0 <= q < cur1.len() ==> {
                &&& (#[trigger] cur1[q]).id == cur0[q].id
                &&& cur1[q].kind == cur0[q].kind
                &&& cur1[q].aux_index == cur0[q].aux_index
                &&& cur1[q].nodes@.len() == cur0[q].nodes@.len()
            },
        forall|q: int, k: int|
            0 <= q < cur1.len() && 0 <= k < cur1[q].nodes@.len()
                ==> (#[trigger] cur1[q].nodes@[k]) == retarget(cur0[q].nodes@[k], s, r),
        forall|a: u32, x: u32| resolves_to(map0, a, x) ==> #[trigger] resolves_to(
            map1,
            a,
            retarget(x, s, r),
        ),
    ensures
        elements_tracked(map1, orig, cur1),
{
    reveal(crate::simplify::elements_tracked);
    assert forall|q: int| 0 <= q < cur1.len() implies exists|q0: int|
        0 <= q0 < orig.len() && (#[trigger] orig[q0]).id == (#[trigger] cur1[q]).id
            && orig[q0].kind == cur1[q].kind
            && orig[q0].nodes@.len() == cur1[q].nodes@.len()
            && (forall|k: int|
            0 <= k < cur1[q].nodes@.len() ==> resolves_to(
                map1,
                orig[q0].nodes@[k],
                #[trigger] cur1[q].nodes@[k],
            )) by {
        let q0 = choose|q0: int|
            0 <= q0 < orig.len() && (#[trigger] orig[q0]).id == cur0[q].id
                && orig[q0].kind == cur0[q].kind
                && orig[q0].nodes@.len() == cur0[q].nodes@.len()
                && (forall|k: int|
                0 <= k < cur0[q].nodes@.len() ==> resolves_to(
                    map0,
                    orig[q0].nodes@[k],
                    #[trigger] cur0[q].nodes@[k],
                ));
        assert forall|k: int| 0 <= k < cur1[q].nodes@.len() implies resolves_to(
            map1,
            orig[q0].nodes@[k],
            #[trigger] cur1[q].nodes@[k],
        ) by {
            assert(resolves_to(map0, orig[q0].nodes@[k], cur0[q].nodes@[k]));
            assert(resolves_to(map1, orig[q0].nodes@[k], retarget(cur0[q].nodes@[k], s, r)));
        }
        assert(orig[q0].id == cur1[q].id);
    }
}

/// Tracking only reads ids, kinds and terminal lists, so either side can
/// be swapped for a field-equal collection.
pub proof fn lemma_tracked_swap(
    map: Seq<MergeEntry>,
    orig1: Seq<Element>,
    orig2: Seq<Element>,
    cur1: Seq<Element>,
    cur2: Seq<Element>,
)
    requires
        elements_tracked(map, orig1, cur1),
        orig1.len() == orig2.len(),
        forall|q: int|
            0 <= q < orig1.len() ==> {
                &&& (#[trigger] orig2[q]).id == orig1[q].id
                &&& orig2[q].kind == orig1[q].kind
                &&& orig2[q].nodes@ == orig1[q].nodes@
            },
        cur1.len() == cur2.len(),
        forall|q: int|
            0 <= q < cur1.len() ==> {
                &&& (#[trigger] cur2[q]).id == cur1[q].id
                &&& cur2[q].kind == cur1[q].kind
                &&& cur2[q].nodes@ == cur1[q].nodes@
            },
    ensures
        elements_tracked(map, orig2, cur2),
{
    reveal(crate::simplify::elements_tracked);
    assert forall|q: int| 0 <= q < cur2.len() implies exists|q0: int|
        0 <= q0 < orig2.len() && (#[trigger] orig2[q0]).id == (#[trigger] cur2[q]).id
            && orig2[q0].kind == cur2[q].kind
            && orig2[q0].nodes@.len() == cur2[q].nodes@.len()
            && (forall|k: int|
            0 <= k < cur2[q].nodes@.len() ==> resolves_to(
                map,
                orig2[q0].nodes@[k],
                #[trigger] cur2[q].nodes@[k],
            )) by {
        let q0 = choose|q0: int|
            0 <= q0 < orig1.len() && (#[trigger] orig1[q0]).id == cur1[q].id
                && orig1[q0].kind == cur1[q].kind
                && orig1[q0].nodes@.len() == cur1[q].nodes@.len()
                && (forall|k: int|
                0 <= k < cur1[q].nodes@.len() ==> resolves_to(
                    map,
                    orig1[q0].nodes@[k],
                    #[trigger] cur1[q].nodes@[k],
                ));
        assert(orig2[q0].id == cur2[q].id);
        assert(orig2[q0].nodes@ == orig1[q0].nodes@ && cur2[q].nodes@ == cur1[q].nodes@);
    }
}

/// Find the entry of the merge map with the given survivor.
fn find_entry(map: &Vec<MergeEntry>, survivor: u32) -> (r: Option<usize>)
    ensures
        r matches Some(i) ==> i < map@.len() && map@[i as int].survivor == survivor,
        r is None ==> forall|m: int| 0 <= m < map@.len() ==> (#[trigger] map@[m]).survivor
            != survivor,
{
    let mut i: usize = 0;
    while i < map.len()
        invariant
            i <= map@.len(),
            forall|m: int| 0 <= m < i ==> (#[trigger] map@[m]).survivor != survivor,
        decreases map@.len() - i,
    {
        if map[i].survivor == survivor {
            return Some(i);
        }
        i += 1;
    }
    None
}

/// The duplicate-free union of two id lists.
fn union_ids(a: &Vec<u32>, b: &Vec<u32>) -> (r: Vec<u32>)
    requires
        no_dups(a@),
    ensures
        no_dups(r@),
        r@.len() <= a@.len() + b@.len(),
        forall|y: u32| #[trigger] r@.contains(y) <==> a@.contains(y) || b@.contains(y),
{
    let mut r: Vec<u32> = Vec::new();
    let mut i: usize = 0;
    while i < a.len()
        invariant
            i <= a@.len(),
            r@ == a@.take(i as int),
        decreases a@.len() - i,
    {
        let y = a[i];
        r.push(y);
        proof {
            assert(r@ =~= a@.take(i + 1));
        }
        i += 1;
    }
    proof {
        assert(r@ =~= a@);
    }
    let mut j: usize = 0;
    while j < b.len()
        invariant
            j <= b@.len(),
            no_dups(r@),
            r@.len() <= a@.len() + j,
            forall|y: u32| #[trigger] r@.contains(y) <==> a@.contains(y) || b@.take(
                j as int,
            ).contains(y),
        decreases b@.len() - j,
    {
        let y = b[j];
        if !crate::graph::ids_contain(&r, y) {
            let ghost pre = r@;
            r.push(y);
            proof {
                assert(r@[pre.len() as int] == y);
                assert forall|z: u32| #[trigger] r@.contains(z) implies a@.contains(z) || b@.take(
                    (j + 1) as int,
                ).contains(z) by {
                    let w = choose|w: int| 0 <= w < r@.len() && r@[w] == z;
                    if w < pre.len() {
                        assert(pre.contains(z));
                        if b@.take(j as int).contains(z) {
                            let v = choose|v: int| 0 <= v < j && #[trigger] b@.take(j as int)[v] == z;
                            assert(b@.take((j + 1) as int)[v] == z);
                        }
                    } else {
                        assert(z == y);
                        assert(b@.take((j + 1) as int)[j as int] == y);
                    }
                }
                assert forall|z: u32| a@.contains(z) || b@.take((j + 1) as int).contains(z)
                    implies #[trigger] r@.contains(z) by {
                    if a@.contains(z) || b@.take(j as int).contains(z) {
                        lemma_push_keeps_has(pre, y, z);
                    } else {
                        let v = choose|v: int| 0 <= v < j + 1 && #[trigger] b@.take((j + 1) as int)[v] == z;
                        assert(v == j as int);
                        assert(z == y);
                    }
                }
            }
        } else {
            proof {
                assert forall|z: u32| a@.contains(z) || b@.take((j + 1) as int).contains(z)
                    implies #[trigger] r@.contains(z) by {
                    if !(a@.contains(z) || b@.take(j as int).contains(z)) {
                        let v = choose|v: int| 0 <= v < j + 1 && #[trigger] b@.take((j + 1) as int)[v] == z;
                        assert(v == j as int);
                        assert(z == y);
                    }
                }
                assert forall|z: u32| #[trigger] r@.contains(z) implies a@.contains(z) || b@.take(
                    (j + 1) as int,
                ).contains(z) by {
                    if b@.take(j as int).contains(z) {
                        let v = choose|v: int| 0 <= v < j && #[trigger] b@.take(j as int)[v] == z;
                        assert(b@.take((j + 1) as int)[v] == z);
                    }
                }
            }
        }
        j += 1;
    }
    proof {
        assert(b@.take(b@.len() as int) =~= b@);
    }
    r
}



/// One zero-impedance element of the collection directly bridges the
/// nodes `x` and `y`.
#[verifier::opaque]
pub open spec fn shorted_join(orig: Seq<Element>, x: u32, y: u32) -> bool {
    exists|e: int|
        0 <= e < orig.len() && (#[trigger] orig[e]).spec_shorted() && orig[e].nodes@.len() == 2
            && ((orig[e].nodes@[0] == x && orig[e].nodes@[1] == y) || (orig[e].nodes@[0] == y
                && orig[e].nodes@[1] == x))
}

/// `p` walks from `x` to `y` with every step bridged by a
/// zero-impedance element.
#[verifier::opaque]
pub open spec fn is_link_path(orig: Seq<Element>, p: Seq<u32>, x: u32, y: u32) -> bool {
    &&& p.len() >= 1
    &&& p[0] == x
    &&& p[p.len() - 1] == y
    &&& forall|i: int| 0 <= i < p.len() - 1 ==> shorted_join(orig, #[trigger] p[i], p[i + 1])
}

/// `x` and `y` are electrically identical by zero-impedance elements
/// alone: some chain of shorted elements connects them.
#[verifier::opaque]
pub open spec fn shorted_linked(orig: Seq<Element>, x: u32, y: u32) -> bool {
    exists|p: Seq<u32>| #[trigger] is_link_path(orig, p, x, y)
}

pub proof fn lemma_linked_refl(orig: Seq<Element>, x: u32)
    ensures
        shorted_linked(orig, x, x),
{
    reveal(crate::simplify::shorted_linked);
    reveal(crate::simplify::is_link_path);
    assert(is_link_path(orig, seq![x], x, x));
}

/// A direct bridge is a chain of length one.
pub proof fn lemma_join_linked(orig: Seq<Element>, x: u32, y: u32)
    requires
        shorted_join(orig, x, y),
    ensures
        shorted_linked(orig, x, y),
{
    reveal(crate::simplify::shorted_linked);
    reveal(crate::simplify::is_link_path);
    let p = seq![x, y];
    assert(is_link_path(orig, p, x, y)) by {
        assert(p[0] == x && p[1] == y);
        assert forall|i: int| 0 <= i < p.len() - 1 implies shorted_join(
            orig,
            #[trigger] p[i],
            p[i + 1],
        ) by {
            assert(i == 0);
        }
    }
}

/// Chains concatenate.
pub proof fn lemma_linked_trans(orig: Seq<Element>, x: u32, y: u32, z: u32)
    requires
        shorted_linked(orig, x, y),
        shorted_linked(orig, y, z),
    ensures
        shorted_linked(orig, x, z),
{
    reveal(crate::simplify::shorted_linked);
    reveal(crate::simplify::is_link_path);
    let p1 = choose|p1: Seq<u32>| #[trigger] is_link_path(orig, p1, x, y);
    let p2 = choose|p2: Seq<u32>| #[trigger] is_link_path(orig, p2, y, z);
    let p = p1 + p2.drop_first();
    assert(is_link_path(orig, p, x, z)) by {
        assert(p.len() == p1.len() + p2.len() - 1);
        assert(p[0] == p1[0]);
        assert(p[p.len() - 1] == if p2.len() == 1 {
            p1[p1.len() - 1]
        } else {
            p2[p2.len() - 1]
        });
        assert forall|i: int| 0 <= i < p.len() - 1 implies shorted_join(
            orig,
            #[trigger] p[i],
            p[i + 1],
        ) by {
            if i < p1.len() - 1 {
                assert(p[i] == p1[i] && p[i + 1] == p1[i + 1]);
            } else if i == p1.len() - 1 {
                // the seam: p1 ends at y, which is where p2 starts
                assert(p[i] == p1[i]);
                assert(p[i + 1] == p2[1]);
                assert(shorted_join(orig, p2[0], p2[1]));
            } else {
                assert(p[i] == p2[i - p1.len() + 1]);
                assert(p[i + 1] == p2[i - p1.len() + 2]);
                assert(shorted_join(orig, p2[i - p1.len() + 1], p2[i - p1.len() + 2]));
            }
        }
    }
}

/// A chain read backwards is still a chain.
pub proof fn lemma_linked_sym(orig: Seq<Element>, x: u32, y: u32)
    requires
        shorted_linked(orig, x, y),
    ensures
        shorted_linked(orig, y, x),
{
    reveal(crate::simplify::shorted_linked);
    reveal(crate::simplify::is_link_path);
    reveal(crate::simplify::shorted_join);
    let p = choose|p: Seq<u32>| #[trigger] is_link_path(orig, p, x, y);
    let q = Seq::new(p.len(), |i: int| p[p.len() - 1 - i]);
    assert(is_link_path(orig, q, y, x)) by {
        assert forall|i: int| 0 <= i < q.len() - 1 implies shorted_join(
            orig,
            #[trigger] q[i],
            q[i + 1],
        ) by {
            let j = p.len() - 2 - i;
            assert(q[i] == p[j + 1] && q[i + 1] == p[j]);
            assert(shorted_join(orig, p[j], p[j + 1]));
            let e = choose|e: int|
                0 <= e < orig.len() && (#[trigger] orig[e]).spec_shorted() && orig[
                    e
                ].nodes@.len() == 2 && ((orig[e].nodes@[0] == p[j] && orig[e].nodes@[1] == p[j
                + 1]) || (orig[e].nodes@[0] == p[j + 1] && orig[e].nodes@[1] == p[j]));
            assert(0 <= e < orig.len() && orig[e].spec_shorted() && orig[e].nodes@.len() == 2
                && ((orig[e].nodes@[0] == q[i] && orig[e].nodes@[1] == q[i + 1]) || (orig[
                e].nodes@[0] == q[i + 1] && orig[e].nodes@[1] == q[i])));
        }
    }
}

/// A resolved id is chain-connected to what it resolves to.
pub proof fn lemma_resolved_linked(map: Seq<MergeEntry>, orig: Seq<Element>, a: u32, x: u32)
    requires
        map_linked(map, orig),
        resolves_to(map, a, x),
    ensures
        shorted_linked(orig, a, x),
{
    reveal(crate::simplify::resolves_to);
    reveal(crate::simplify::map_linked);
    if a == x {
        lemma_linked_refl(orig, a);
    } else {
        let m = choose|m: int|
            0 <= m < map.len() && (#[trigger] map[m]).survivor == x && map[m].members@.contains(
                a,
            );
        let w = choose|w: int| 0 <= w < map[m].members@.len() && map[m].members@[w] == a;
        assert(shorted_linked(orig, map[m].members@[w], x));
    }
}

/// Merges never cross a real impedance: every recorded member is joined
/// to its survivor by a chain of zero-impedance elements of the original
/// circuit.
#[verifier::opaque]
pub open spec fn map_linked(map: Seq<MergeEntry>, orig: Seq<Element>) -> bool {
    forall|m: int, x: int|
        0 <= m < map.len() && 0 <= x < map[m].members@.len() ==> shorted_linked(
            orig,
            #[trigger] map[m].members@[x],
            map[m].survivor,
        )
}

/// Record one merge in the map: the removed id `r` (and everything that
/// had already collapsed into `r`) now belongs to the survivor `s`.
#[verifier::rlimit(100)]
#[verifier::loop_isolation(false)]
pub fn merge_map_update(map: &mut Vec<MergeEntry>, s: u32, r: u32, Ghost(orig): Ghost<Seq<Element>>)
    requires
        map_wf(old(map)@),
        map_linked(old(map)@, orig),
        shorted_linked(orig, r, s),
        0 < s < r,
    ensures
        map_wf(final(map)@),
        map_linked(final(map)@, orig),
        forall|a: u32, x: u32|
            resolves_to(old(map)@, a, x) ==> #[trigger] resolves_to(
                final(map)@,
                a,
                retarget(x, s, r),
            ),
        forall|m: int| 0 <= m < final(map)@.len() ==> (#[trigger] final(map)@[m]).survivor != r,
        resolves_to(final(map)@, r, s),
{
    let ghost orig_map = map@;
    // take the members of the entry the removed id survived, if any
    let r_members: Vec<u32> = match find_entry(map, r) {
        Some(j) => {
            let e = map.remove(j);
            e.members
        },
        None => Vec::new(),
    };
    let ghost m0 = map@;
    proof {
        // every entry of m0 is an original entry whose survivor is not r,
        // and every original entry with another survivor is still there
        assert forall|m: int|
            0 <= m < orig_map.len() && (#[trigger] orig_map[m]).survivor != r implies exists|
            m2: int,
        |
            0 <= m2 < m0.len() && m0[m2] == orig_map[m] by {
            if orig_map.len() == m0.len() {
                assert(m0[m] == orig_map[m]);
            } else {
                let j = choose|j: int| 0 <= j < orig_map.len() && orig_map[j].survivor == r;
                if m < j {
                    assert(m0[m] == orig_map[m]);
                } else {
                    assert(m0[m - 1] == orig_map[m]);
                }
            }
        }
        // members of the removed entry: either none existed, and
        // r_members is empty, or they are that entry's members
        assert(forall|a: u32|
            r_members@.contains(a) ==> resolves_to(orig_map, a, r) || a == r) by {
            reveal(crate::simplify::resolves_to);
        }
        assert(map_wf(m0)) by {
            if orig_map.len() != m0.len() {
                let j = choose|j: int| 0 <= j < orig_map.len() && orig_map[j].survivor == r;
                assert forall|m1: int, m2: int| 0 <= m1 < m2 < m0.len() implies (
                #[trigger] m0[m1]).survivor != (#[trigger] m0[m2]).survivor by {
                    let a0: int = if m1 < j { m1 } else { m1 + 1 };
                    let b0: int = if m2 < j { m2 } else { m2 + 1 };
                    assert(m0[m1] == orig_map[a0]);
                    assert(m0[m2] == orig_map[b0]);
                }
                assert forall|m: int| 0 <= m < m0.len() implies (
                #[trigger] m0[m]).members@.contains(m0[m].survivor) && m0[m].survivor >= 1 by {
                    let a0: int = if m < j { m } else { m + 1 };
                    assert(m0[m] == orig_map[a0]);
                }
                assert forall|m: int, x: int|
                    0 <= m < m0.len() && 0 <= x < m0[m].members@.len() implies (
                #[trigger] m0[m].members@[x]) >= m0[m].survivor by {
                    let a0: int = if m < j { m } else { m + 1 };
                    assert(m0[m] == orig_map[a0]);
                }
            }
        }
        // the absorbed members all carry ids at least the removed id
        assert(forall|x: int| 0 <= x < r_members@.len() ==> (#[trigger] r_members@[x]) >= r);
        // untouched entries keep their chains; absorbed members chain to r
        assert(map_linked(m0, orig)) by {
            reveal(crate::simplify::map_linked);
            if orig_map.len() != m0.len() {
                let j = choose|j: int| 0 <= j < orig_map.len() && orig_map[j].survivor == r;
                assert forall|m: int, x: int|
                    0 <= m < m0.len() && 0 <= x < m0[m].members@.len() implies shorted_linked(
                    orig,
                    #[trigger] m0[m].members@[x],
                    m0[m].survivor,
                ) by {
                    let a0: int = if m < j { m } else { m + 1 };
                    assert(m0[m] == orig_map[a0]);
                }
            }
        }
        assert(forall|x: int|
            0 <= x < r_members@.len() ==> shorted_linked(orig, #[trigger] r_members@[x], r)) by {
            reveal(crate::simplify::map_linked);
        }
        assert(forall|m: int| 0 <= m < m0.len() ==> (#[trigger] m0[m]).survivor != r) by {
            if orig_map.len() != m0.len() {
                let j = choose|j: int| 0 <= j < orig_map.len() && orig_map[j].survivor == r;
                assert forall|m: int| 0 <= m < m0.len() implies (#[trigger] m0[m]).survivor
                    != r by {
                    let a0: int = if m < j { m } else { m + 1 };
                    assert(m0[m] == orig_map[a0]);
                    assert(a0 != j);
                }
            }
        }
    }
    let si = match find_entry(map, s) {
        Some(js) => {
            if !crate::graph::ids_contain(&map[js].members, r) {
                map[js].members.push(r);
            }
            proof {
                assert(map@[js as int].members@.contains(r)) by {
                    if !m0[js as int].members@.contains(r) {
                        assert(map@[js as int].members@
                            == m0[js as int].members@.push(r));
                        assert(map@[js as int].members@[m0[js as int].members@.len() as int]
                            == r);
                    }
                }
                assert forall|y: u32| m0[js as int].members@.contains(y)
                    implies #[trigger] map@[js as int].members@.contains(y) by {
                    if !m0[js as int].members@.contains(r) {
                        lemma_push_keeps_has(m0[js as int].members@, r, y);
                    }
                }
                assert forall|x: int|
                    0 <= x < map@[js as int].members@.len() implies (#[trigger] map@[
                    js as int
                ].members@[x]) >= s by {
                    if x < m0[js as int].members@.len() {
                        assert(map@[js as int].members@[x] == m0[js as int].members@[x]);
                    }
                }
                assert forall|xi: int|
                    0 <= xi < map@[js as int].members@.len() implies ((xi < m0[
                    js as int
                ].members@.len() && map@[js as int].members@[xi] == m0[js as int].members@[xi])
                    || map@[js as int].members@[xi] == r || r_members@.contains(
                    #[trigger] map@[js as int].members@[xi],
                )) by {}
            }
            let mut t: usize = 0;
            while t < r_members.len()
                invariant
                    js < map@.len(),
                    map@.len() == m0.len(),
                    t <= r_members@.len(),
                    forall|m: int| 0 <= m < m0.len() && m != js ==> map@[m] == m0[m],
                    map@[js as int].survivor == m0[js as int].survivor,
                    map@[js as int].survivor == s,
                    forall|y: u32|
                        m0[js as int].members@.contains(y) ==> #[trigger] map@[
                            js as int
                        ].members@.contains(y),
                    map@[js as int].members@.contains(r),
                    forall|x: int|
                        0 <= x < map@[js as int].members@.len() ==> (#[trigger] map@[
                            js as int
                        ].members@[x]) >= s,
                    forall|xi: int|
                        0 <= xi < map@[js as int].members@.len() ==> ((xi < m0[
                            js as int
                        ].members@.len() && map@[js as int].members@[xi] == m0[
                            js as int
                        ].members@[xi]) || map@[js as int].members@[xi] == r
                            || r_members@.contains(#[trigger] map@[js as int].members@[xi])),
                    forall|tt: int|
                        0 <= tt < t ==> map@[js as int].members@.contains(
                            #[trigger] r_members@[tt],
                        ),
                decreases r_members@.len() - t,
            {
                let y = r_members[t];
                let ghost prem = map@[js as int].members@;
                if !crate::graph::ids_contain(&map[js].members, y) {
                    map[js].members.push(y);
                    proof {
                        assert(map@[js as int].members@[prem.len() as int] == y);
                        assert forall|z: u32| prem.contains(z) implies #[trigger] map@[
                            js as int
                        ].members@.contains(z) by {
                            lemma_push_keeps_has(prem, y, z);
                        }
                    }
                }
                t += 1;
            }
            js
        },
        None => {
            let mut members: Vec<u32> = Vec::new();
            members.push(s);
            members.push(r);
            proof {
                assert(members@[0] == s);
                assert(members@[1] == r);
            }
            let mut t: usize = 0;
            while t < r_members.len()
                invariant
                    t <= r_members@.len(),
                    members@.contains(s),
                    members@.contains(r),
                    forall|x: int| 0 <= x < members@.len() ==> (#[trigger] members@[x]) >= s,
                    forall|xi: int|
                        0 <= xi < members@.len() ==> (members@[xi] == s || members@[xi] == r
                            || r_members@.contains(#[trigger] members@[xi])),
                    forall|tt: int|
                        0 <= tt < t ==> members@.contains(#[trigger] r_members@[tt]),
                decreases r_members@.len() - t,
            {
                let y = r_members[t];
                let ghost prem = members@;
                if !crate::graph::ids_contain(&members, y) {
                    members.push(y);
                    proof {
                        assert(members@[prem.len() as int] == y);
                        assert forall|z: u32| prem.contains(z) implies members@.contains(z) by {
                            lemma_push_keeps_has(prem, y, z);
                        }
                    }
                }
                t += 1;
            }
            let ghost prem = map@;
            map.push(MergeEntry { survivor: s, members });
            proof {
                assert(map@[prem.len() as int].survivor == s);
                assert(forall|m: int| 0 <= m < prem.len() ==> map@[m] == prem[m]);
            }
            map.len() - 1
        },
    };
    proof {
        let fm = map@;
        assert(fm[si as int].survivor == s);
        assert(fm[si as int].members@.contains(r));
        assert(fm[si as int].members@.contains(s));
        assert(forall|tt: int|
            0 <= tt < r_members@.len() ==> fm[si as int].members@.contains(
                #[trigger] r_members@[tt],
            ));
        // entries other than the survivor's are original entries
        assert forall|m: int| 0 <= m < fm.len() && m != si implies #[trigger] fm[m] == m0[m] by {}
        assert forall|m: int|
            0 <= m < fm.len() && m != si implies (#[trigger] fm[m]).survivor != r
                && fm[m].survivor != s by {
            assert(fm[m] == m0[m]);
            assert(m0[m].survivor != r);
            if si < m0.len() {
                assert(m0[si as int].survivor == s);
                if m < si {
                    assert(m0[m].survivor != m0[si as int].survivor);
                } else {
                    assert(m0[si as int].survivor != m0[m].survivor);
                }
            }
        }
        assert(map_wf(fm)) by {
            assert forall|m1: int, m2: int| 0 <= m1 < m2 < fm.len() implies (
            #[trigger] fm[m1]).survivor != (#[trigger] fm[m2]).survivor by {
                if m1 != si && m2 != si {
                    assert(fm[m1] == m0[m1] && fm[m2] == m0[m2]);
                }
            }
            assert forall|m: int| 0 <= m < fm.len() implies (
            #[trigger] fm[m]).members@.contains(fm[m].survivor) && fm[m].survivor >= 1 by {
                if m != si {
                    assert(fm[m] == m0[m]);
                }
            }
            assert forall|m: int, x: int|
                0 <= m < fm.len() && 0 <= x < fm[m].members@.len() implies (
            #[trigger] fm[m].members@[x]) >= fm[m].survivor by {
                if m != si {
                    assert(fm[m] == m0[m]);
                }
            }
        }
        assert(resolves_to(fm, r, s)) by {
            reveal(crate::simplify::resolves_to);
        }
        assert(map_linked(fm, orig)) by {
            reveal(crate::simplify::map_linked);
            assert forall|m: int, x: int|
                0 <= m < fm.len() && 0 <= x < fm[m].members@.len() implies shorted_linked(
                orig,
                #[trigger] fm[m].members@[x],
                fm[m].survivor,
            ) by {
                if m != si {
                    assert(fm[m] == m0[m]);
                } else {
                    let y = fm[si as int].members@[x];
                    if y == s {
                        lemma_linked_refl(orig, s);
                    } else if y == r {
                    } else if si < m0.len() && x < m0[si as int].members@.len() && y == m0[
                        si as int
                    ].members@[x] {
                        assert(shorted_linked(orig, y, s));
                    } else {
                        assert(r_members@.contains(y));
                        let w = choose|w: int| 0 <= w < r_members@.len() && r_members@[w] == y;
                        assert(shorted_linked(orig, y, r));
                        lemma_linked_trans(orig, y, r, s);
                    }
                }
            }
        }
        assert forall|a: u32, x: u32| resolves_to(orig_map, a, x) implies #[trigger] resolves_to(
            fm,
            a,
            retarget(x, s, r),
        ) by {
            reveal(crate::simplify::resolves_to);
            if a == x {
                if x == r {
                    // a collapses into the survivor's entry
                    assert(fm[si as int].survivor == s && fm[si as int].members@.contains(a));
                } else {
                    assert(resolves_to(fm, a, x));
                }
            } else {
                let m = choose|m: int|
                    0 <= m < orig_map.len() && (#[trigger] orig_map[m]).survivor == x
                        && orig_map[m].members@.contains(a);
                if x == r {
                    // the removed entry's members moved into the survivor's
                    assert(r_members@.contains(a));
                    assert(fm[si as int].members@.contains(a));
                } else if x == s {
                    // the survivor's entry only grew
                    if orig_map.len() == m0.len() {
                        assert(m0[m] == orig_map[m]);
                        assert(m == si || fm[m].survivor != s);
                        assert(fm[si as int].members@.contains(a));
                    } else {
                        let j = choose|j: int|
                            0 <= j < orig_map.len() && orig_map[j].survivor == r;
                        let m2: int = if m < j { m } else { m - 1 };
                        assert(m0[m2] == orig_map[m]);
                        assert(m2 == si || fm[m2].survivor != s);
                        assert(fm[si as int].members@.contains(a));
                    }
                } else {
                    // untouched entry
                    let m2 = choose|m2: int| 0 <= m2 < m0.len() && m0[m2] == orig_map[m];
                    assert(m2 != si ==> fm[m2] == m0[m2]);
                    if m2 == si {
                        assert(m0[si as int].survivor == s);
                        assert(false);
                    }
                    assert(fm[m2].survivor == x && fm[m2].members@.contains(a));
                }
            }
        }
    }
}


/// Replacing one node's record changes the connection total by the
/// difference of the connection counts.
pub proof fn lemma_total_conns_update(s: Seq<Node>, i: int, n: Node)
    requires
        0 <= i < s.len(),
    ensures
        total_conns(s.update(i, n)) == total_conns(s) - s[i].connections@.len()
            + n.connections@.len(),
    decreases s.len(),
{
    if i == s.len() - 1 {
        assert(s.update(i, n).drop_last() =~= s.drop_last());
        assert(s.update(i, n).last() == n);
    } else {
        assert(s.update(i, n).drop_last() =~= s.drop_last().update(i, n));
        assert(s.update(i, n).last() == s.last());
        lemma_total_conns_update(s.drop_last(), i, n);
    }
}

/// Some record of the arena carries exactly this id and voltage.
pub open spec fn node_drawn_from(sup: Seq<Node>, id: u32, voltage: Rational) -> bool {
    exists|j: int|
        0 <= j < sup.len() && (#[trigger] sup[j]).id == id && sup[j].voltage == voltage
}

/// Every entry of `sub` carries the id and voltage of some entry of
/// `sup`: nodes are never invented and voltages never disturbed.
#[verifier::opaque]
pub open spec fn nodes_drawn(sub: Seq<Node>, sup: Seq<Node>) -> bool {
    forall|i: int|
        0 <= i < sub.len() ==> node_drawn_from(sup, (#[trigger] sub[i]).id, sub[i].voltage)
}

/// `nodes_drawn` is reflexive.
pub proof fn lemma_nodes_drawn_refl(s: Seq<Node>)
    ensures
        nodes_drawn(s, s),
{
    reveal(crate::simplify::nodes_drawn);
    assert forall|i: int| 0 <= i < s.len() implies node_drawn_from(
        s,
        (#[trigger] s[i]).id,
        s[i].voltage,
    ) by {
        assert(s[i].id == s[i].id && s[i].voltage == s[i].voltage);
    }
}

/// `nodes_drawn` composes.
pub proof fn lemma_nodes_drawn_trans(a: Seq<Node>, b: Seq<Node>, c: Seq<Node>)
    requires
        nodes_drawn(a, b),
        nodes_drawn(b, c),
    ensures
        nodes_drawn(a, c),
{
    reveal(crate::simplify::nodes_drawn);
    assert forall|i: int| 0 <= i < a.len() implies node_drawn_from(
        c,
        (#[trigger] a[i]).id,
        a[i].voltage,
    ) by {
        assert(node_drawn_from(b, a[i].id, a[i].voltage));
        let jb = choose|jb: int|
            0 <= jb < b.len() && (#[trigger] b[jb]).id == a[i].id && b[jb].voltage
                == a[i].voltage;
        assert(node_drawn_from(c, b[jb].id, b[jb].voltage));
        let jc = choose|jc: int|
            0 <= jc < c.len() && (#[trigger] c[jc]).id == b[jb].id && c[jc].voltage == b[
                jb
            ].voltage;
        assert(c[jc].id == a[i].id && c[jc].voltage == a[i].voltage);
    }
}

/// Value-level containment gives id/voltage containment.
pub proof fn lemma_nodes_from_drawn(sub: Seq<Node>, sup: Seq<Node>)
    requires
        nodes_from(sub, sup),
    ensures
        nodes_drawn(sub, sup),
{
    reveal(crate::simplify::nodes_from);
    reveal(crate::simplify::nodes_drawn);
    assert forall|i: int| 0 <= i < sub.len() implies node_drawn_from(
        sup,
        (#[trigger] sub[i]).id,
        sub[i].voltage,
    ) by {
        assert(sup.contains(sub[i]));
        let j = choose|j: int| 0 <= j < sup.len() && sup[j] == sub[i];
        assert(sup[j].id == sub[i].id && sup[j].voltage == sub[i].voltage);
    }
}

/// Pointwise id/voltage equality gives containment.
pub proof fn lemma_nodes_drawn_pointwise(sub: Seq<Node>, sup: Seq<Node>)
    requires
        sub.len() == sup.len(),
        forall|i: int|
            0 <= i < sub.len() ==> (#[trigger] sub[i]).id == sup[i].id && sub[i].voltage
                == sup[i].voltage,
    ensures
        nodes_drawn(sub, sup),
{
    reveal(crate::simplify::nodes_drawn);
    assert forall|i: int| 0 <= i < sub.len() implies node_drawn_from(
        sup,
        (#[trigger] sub[i]).id,
        sub[i].voltage,
    ) by {
        assert(sup[i].id == sub[i].id && sup[i].voltage == sub[i].voltage);
    }
}

/// Merge the node `r` into the node `s` (both live, `s` the lower id):
/// union their connection lists onto `s`, retarget every element terminal
/// from `r` to `s`, drop `r` from the arena and record the merge.
#[verifier::rlimit(100)]
#[verifier::loop_isolation(false)]
pub fn merge_nodes(
    g: &mut Graph,
    map: &mut Vec<MergeEntry>,
    s: u32,
    r: u32,
    Ghost(orig): Ghost<Seq<Element>>,
)
    requires
        old(g).wf(),
        map_wf(old(map)@),
        map_linked(old(map)@, orig),
        shorted_linked(orig, r, s),
        has_node(old(g).nodes@, s),
        has_node(old(g).nodes@, r),
        0 < s < r,
    ensures
        final(g).wf(),
        map_wf(final(map)@),
        map_linked(final(map)@, orig),
        final(g).nodes@.len() == old(g).nodes@.len() - 1,
        forall|a: u32, x: u32|
            resolves_to(old(map)@, a, x) ==> #[trigger] resolves_to(
                final(map)@,
                a,
                retarget(x, s, r),
            ),
        final(g).elements@.len() == old(g).elements@.len(),
        forall|q: int|
            0 <= q < final(g).elements@.len() ==> {
                &&& (#[trigger] final(g).elements@[q]).id == old(g).elements@[q].id
                &&& final(g).elements@[q].kind == old(g).elements@[q].kind
                &&& final(g).elements@[q].aux_index == old(g).elements@[q].aux_index
                &&& final(g).elements@[q].nodes@.len() == old(g).elements@[q].nodes@.len()
            },
        forall|q: int, k: int|
            0 <= q < final(g).elements@.len() && 0 <= k < final(g).elements@[q].nodes@.len()
                ==> (#[trigger] final(g).elements@[q].nodes@[k]) == retarget(
                old(g).elements@[q].nodes@[k],
                s,
                r,
            ),
        total_conns(final(g).nodes@) <= total_conns(old(g).nodes@),
        // exactly the node with id r leaves the arena
        !has_node(final(g).nodes@, r),
        forall|id: u32|
            #[trigger] has_node(final(g).nodes@, id) <==> (has_node(old(g).nodes@, id) && id
                != r),
        // every surviving record is an original node; only the survivor's
        // connection list changes, to the union of the two old lists
        nodes_drawn(final(g).nodes@, old(g).nodes@),
        forall|i: int|
            0 <= i < final(g).nodes@.len() && (#[trigger] final(g).nodes@[i]).id != s
                ==> exists|j: int|
                0 <= j < old(g).nodes@.len() && final(g).nodes@[i] == old(g).nodes@[j],
        forall|i2: int, sj: int, rj: int|
            0 <= i2 < final(g).nodes@.len() && 0 <= sj < old(g).nodes@.len() && 0 <= rj < old(
                g,
            ).nodes@.len() && (#[trigger] final(g).nodes@[i2]).id == s && (#[trigger] old(
                g,
            ).nodes@[sj]).id == s && (#[trigger] old(g).nodes@[rj]).id == r ==> (forall|c: u32|
                final(g).nodes@[i2].connections@.contains(c) <==> old(
                    g,
                ).nodes@[sj].connections@.contains(c) || old(g).nodes@[rj].connections@.contains(c)),
{
    // retarget every element terminal from r to s
    let mut q: usize = 0;
    while q < g.elements.len()
        invariant
            g.nodes == old(g).nodes,
            map@ == old(map)@,
            g.elements@.len() == old(g).elements@.len(),
            forall|t: int| q <= t < g.elements@.len() ==> (#[trigger] g.elements@[t]) == old(
                g,
            ).elements@[t],
            forall|q2: int|
                0 <= q2 < q ==> {
                    &&& (#[trigger] g.elements@[q2]).id == old(g).elements@[q2].id
                    &&& g.elements@[q2].kind == old(g).elements@[q2].kind
                    &&& g.elements@[q2].aux_index == old(g).elements@[q2].aux_index
                    &&& g.elements@[q2].nodes@.len() == old(g).elements@[q2].nodes@.len()
                },
            forall|q2: int, k: int|
                0 <= q2 < q && 0 <= k < g.elements@[q2].nodes@.len()
                    ==> (#[trigger] g.elements@[q2].nodes@[k]) == retarget(
                    old(g).elements@[q2].nodes@[k],
                    s,
                    r,
                ),
        decreases g.elements@.len() - q,
    {
        let nk = g.elements[q].nodes.len();
        let mut k: usize = 0;
        while k < nk
            invariant
                q < g.elements@.len(),
                g.nodes == old(g).nodes,
                map@ == old(map)@,
                g.elements@.len() == old(g).elements@.len(),
                nk == old(g).elements@[q as int].nodes@.len(),
                forall|t: int|
                    q < t < g.elements@.len() ==> (#[trigger] g.elements@[t]) == old(
                        g,
                    ).elements@[t],
                forall|q2: int|
                    0 <= q2 < q ==> {
                        &&& (#[trigger] g.elements@[q2]).id == old(g).elements@[q2].id
                        &&& g.elements@[q2].kind == old(g).elements@[q2].kind
                        &&& g.elements@[q2].aux_index == old(g).elements@[q2].aux_index
                        &&& g.elements@[q2].nodes@.len() == old(g).elements@[q2].nodes@.len()
                    },
                forall|q2: int, kk: int|
                    0 <= q2 < q && 0 <= kk < g.elements@[q2].nodes@.len()
                        ==> (#[trigger] g.elements@[q2].nodes@[kk]) == retarget(
                        old(g).elements@[q2].nodes@[kk],
                        s,
                        r,
                    ),
                g.elements@[q as int].id == old(g).elements@[q as int].id,
                g.elements@[q as int].kind == old(g).elements@[q as int].kind,
                g.elements@[q as int].aux_index == old(g).elements@[q as int].aux_index,
                g.elements@[q as int].nodes@.len() == nk,
                forall|kk: int|
                    0 <= kk < k ==> (#[trigger] g.elements@[q as int].nodes@[kk]) == retarget(
                        old(g).elements@[q as int].nodes@[kk],
                        s,
                        r,
                    ),
                forall|kk: int|
                    k <= kk < nk ==> (#[trigger] g.elements@[q as int].nodes@[kk]) == old(
                        g,
                    ).elements@[q as int].nodes@[kk],
            decreases nk - k,
        {
            if g.elements[q].nodes[k] == r {
                g.elements[q].nodes[k] = s;
            }
            k += 1;
        }
        q += 1;
    }
    // union the connection lists onto the survivor and drop r
    let si = match crate::graph::find_node(&g.nodes, s) {
        Some(i) => i,
        None => {
            proof {
                assert(false);
            }
            vstd::pervasive::unreached()
        },
    };
    let ri = match crate::graph::find_node(&g.nodes, r) {
        Some(i) => i,
        None => {
            proof {
                assert(false);
            }
            vstd::pervasive::unreached()
        },
    };
    proof {
        assert(si != ri);
        assert(si < ri) by {
            if ri < si {
                assert(g.nodes@[ri as int].id < g.nodes@[si as int].id);
            }
        }
        assert(si >= 1) by {
            assert(g.nodes@[0].id == 0);
            if si == 0 {
                assert(g.nodes@[0].id == s);
            }
        }
    }
    let union = union_ids(&g.nodes[si].connections, &g.nodes[ri].connections);
    let ghost n0 = g.nodes@;
    let ghost e1 = g.elements@;
    g.nodes[si].connections = union;
    let ghost n1 = g.nodes@;
    g.nodes.remove(ri);
    let ghost n2 = g.nodes@;
    proof {
        lemma_total_conns_update(n0, si as int, n1[si as int]);
        lemma_total_conns_remove(n1, ri as int);
        assert(forall|i: int| 0 <= i < n1.len() ==> (#[trigger] n1[i]).id == n0[i].id);
        assert(nodes_sorted(n1));
        lemma_remove_keeps_nodes_sorted(n1, ri as int);
    }
    merge_map_update(map, s, r, Ghost(orig));
    proof {
        let gf = *g;
        let og = *old(g);
        // shape facts
        assert(gf.elements@ == e1);
        assert(gf.nodes@ == n2);
        assert(forall|i: int| 0 <= i < n1.len() ==> (#[trigger] n1[i]).id == n0[i].id);
        assert(forall|i: int|
            0 <= i < n2.len() ==> (#[trigger] n2[i]) == (if i < ri as int {
                n1[i]
            } else {
                n1[i + 1]
            }));
        assert(nodes_sorted(n2));
        // well-formedness of the merged graph
        assert(gf.reserved_node_ok()) by {
            assert(n2[0] == n1[0]);
            assert(n1[0] == n0[0]);
        }
        assert forall|i: int| 0 <= i < n2.len() implies (#[trigger] n2[i]).wf() by {
            let i1: int = if i < ri as int {
                i
            } else {
                i + 1
            };
            assert(n2[i] == n1[i1]);
            if i1 == si as int {
                assert(n1[i1].connections@ == union@);
            } else {
                assert(n1[i1] == n0[i1]);
            }
        }
        assert forall|e: int| 0 <= e < gf.elements@.len() implies (
        #[trigger] gf.elements@[e]).wf() by {
            assert(og.elements@[e].wf());
            assert forall|k: int| 0 <= k < gf.elements@[e].nodes@.len() implies
                gf.elements@[e].nodes@[k] != 0u32 by {
                assert(gf.elements@[e].nodes@[k] == retarget(og.elements@[e].nodes@[k], s, r));
            }
        }
        assert forall|e: int, k: int|
            0 <= e < gf.elements@.len() && 0 <= k < gf.elements@[e].nodes@.len() implies has_node(
            gf.nodes@,
            #[trigger] gf.elements@[e].nodes@[k],
        ) by {
            let x = og.elements@[e].nodes@[k];
            let x2 = gf.elements@[e].nodes@[k];
            assert(x2 == retarget(x, s, r));
            if x == r {
                assert(n2[si as int].id == s);
            } else {
                let w = choose|w: int| 0 <= w < n0.len() && n0[w].id == x;
                assert(w != ri as int);
                let w2: int = if w < ri as int {
                    w
                } else {
                    w - 1
                };
                assert(n2[w2].id == x);
            }
        }
        assert forall|e: int, k: int, n: int|
            0 <= e < gf.elements@.len() && 0 <= k < gf.elements@[e].nodes@.len()
                && 0 <= n < gf.nodes@.len()
                && (#[trigger] gf.nodes@[n]).id == (#[trigger] gf.elements@[e].nodes@[k])
                implies gf.nodes@[n].connections@.contains(gf.elements@[e].id) by {
            let x = og.elements@[e].nodes@[k];
            let x2 = gf.elements@[e].nodes@[k];
            let eid = gf.elements@[e].id;
            assert(eid == og.elements@[e].id);
            let n1i: int = if n < ri as int {
                n
            } else {
                n + 1
            };
            assert(n2[n] == n1[n1i]);
            if n1i == si as int {
                // the survivor holds the union of both old connection lists
                assert(x2 == s);
                assert(x == s || x == r);
                if x == s {
                    assert(n0[si as int].connections@.contains(eid));
                } else {
                    assert(n0[ri as int].id == r);
                    assert(n0[ri as int].connections@.contains(eid));
                }
                assert(n1[si as int].connections@.contains(eid));
            } else {
                assert(n2[n] == n0[n1i]);
                assert(x2 != s && x2 != r);
                assert(x2 == x);
                assert(n0[n1i].connections@.contains(eid));
            }
        }
        assert forall|n: int, c: int|
            0 <= n < gf.nodes@.len() && 0 <= c < gf.nodes@[n].connections@.len()
            implies gf.connection_backed(
            #[trigger] gf.nodes@[n].connections@[c],
            gf.nodes@[n].id,
        ) by {
            let cid = gf.nodes@[n].connections@[c];
            let nid = gf.nodes@[n].id;
            let n1i: int = if n < ri as int {
                n
            } else {
                n + 1
            };
            assert(n2[n] == n1[n1i]);
            if n1i == si as int {
                assert(nid == s);
                assert(union@.contains(cid));
                let (w, oid): (int, u32) = if n0[si as int].connections@.contains(cid) {
                    (
                        choose|w: int|
                            0 <= w < og.nodes@[si as int].connections@.len() && og.nodes@[
                                si as int
                            ].connections@[w] == cid,
                        s,
                    )
                } else {
                    (
                        choose|w: int|
                            0 <= w < og.nodes@[ri as int].connections@.len() && og.nodes@[
                                ri as int
                            ].connections@[w] == cid,
                        r,
                    )
                };
                assert(og.connection_backed(cid, oid));
                let e = choose|e: int|
                    0 <= e < og.elements@.len() && (#[trigger] og.elements@[e]).id == cid
                        && og.elements@[e].nodes@.contains(oid);
                let k = choose|k: int|
                    0 <= k < og.elements@[e].nodes@.len() && og.elements@[e].nodes@[k] == oid;
                assert(gf.elements@[e].nodes@[k] == retarget(oid, s, r));
                assert(gf.elements@[e].nodes@[k] == s);
                assert(gf.elements@[e].nodes@.contains(s));
                assert(gf.elements@[e].id == cid);
            } else {
                assert(n2[n] == n0[n1i]);
                assert(nid != r);
                assert(og.connection_backed(cid, nid));
                let e = choose|e: int|
                    0 <= e < og.elements@.len() && (#[trigger] og.elements@[e]).id == cid
                        && og.elements@[e].nodes@.contains(nid);
                let k = choose|k: int|
                    0 <= k < og.elements@[e].nodes@.len() && og.elements@[e].nodes@[k] == nid;
                assert(gf.elements@[e].nodes@[k] == retarget(nid, s, r));
                assert(gf.elements@[e].nodes@[k] == nid);
                assert(gf.elements@[e].nodes@.contains(nid));
                assert(gf.elements@[e].id == cid);
            }
        }
        assert(gf.wf());
        // node ids are unique in the old arena
        assert(forall|i1: int, i2: int|
            0 <= i1 < n0.len() && 0 <= i2 < n0.len() && (#[trigger] n0[i1]).id == (
            #[trigger] n0[i2]).id ==> i1 == i2) by {
            assert forall|i1: int, i2: int|
                0 <= i1 < n0.len() && 0 <= i2 < n0.len() && (#[trigger] n0[i1]).id == (
                #[trigger] n0[i2]).id implies i1 == i2 by {
                if i1 < i2 {
                    assert(n0[i1].id < n0[i2].id);
                } else if i2 < i1 {
                    assert(n0[i2].id < n0[i1].id);
                }
            }
        }
        // the removed arena entry is exactly the node with id r
        assert forall|id: u32| #[trigger] has_node(n2, id) implies has_node(n0, id) && id
            != r by {
            let i = choose|i: int| 0 <= i < n2.len() && n2[i].id == id;
            let i1: int = if i < ri as int {
                i
            } else {
                i + 1
            };
            assert(n2[i] == n1[i1]);
            assert(n0[i1].id == id);
            assert(i1 != ri as int);
            assert(n0[ri as int].id == r);
        }
        assert forall|id: u32| has_node(n0, id) && id != r implies #[trigger] has_node(
            n2,
            id,
        ) by {
            let j = choose|j: int| 0 <= j < n0.len() && n0[j].id == id;
            assert(j != ri as int);
            let j2: int = if j < ri as int {
                j
            } else {
                j - 1
            };
            assert(n2[j2].id == id);
        }
        assert(!has_node(n2, r));
        // ids and voltages are preserved
        assert(nodes_drawn(n2, n0)) by {
            reveal(crate::simplify::nodes_drawn);
            assert forall|i: int| 0 <= i < n2.len() implies node_drawn_from(
                n0,
                (#[trigger] n2[i]).id,
                n2[i].voltage,
            ) by {
                let i1: int = if i < ri as int {
                    i
                } else {
                    i + 1
                };
                assert(n2[i] == n1[i1]);
                assert(n0[i1].id == n2[i].id && n0[i1].voltage == n2[i].voltage);
            }
        }
        // records other than the survivor's are untouched
        assert forall|i: int|
            0 <= i < n2.len() && (#[trigger] n2[i]).id != s implies exists|j: int|
                0 <= j < n0.len() && n2[i] == n0[j] by {
            let i1: int = if i < ri as int {
                i
            } else {
                i + 1
            };
            assert(n2[i] == n1[i1]);
            assert(i1 != si as int) by {
                assert(n0[si as int].id == s);
            }
            assert(0 <= i1 < n0.len() && n2[i] == n0[i1]);
        }
        // the survivor's connections are the union of the two old lists
        assert forall|i2: int, sj: int, rj: int|
            0 <= i2 < n2.len() && 0 <= sj < n0.len() && 0 <= rj < n0.len() && (
            #[trigger] n2[i2]).id == s && (#[trigger] n0[sj]).id == s && (#[trigger] n0[rj]).id
                == r implies (forall|c: u32|
            n2[i2].connections@.contains(c) <==> n0[sj].connections@.contains(c)
                || n0[rj].connections@.contains(c)) by {
            assert(sj == si as int && rj == ri as int);
            let i1: int = if i2 < ri as int {
                i2
            } else {
                i2 + 1
            };
            assert(n2[i2] == n1[i1]);
            assert(n1[i1].id == n0[i1].id);
            assert(i1 == si as int);
            assert(n1[si as int].connections == union);
        }
    }
}


/// Every zero-impedance element has both terminals on one node: nothing
/// is left to merge.
pub open spec fn shorted_collapsed(g: Graph) -> bool {
    forall|q: int|
        0 <= q < g.elements@.len() && (#[trigger] g.elements@[q]).spec_shorted()
            ==> g.elements@[q].nodes@[0] == g.elements@[q].nodes@[1]
}

/// A graph the simplifier leaves alone: well-formed, with no prunable
/// node and no shorted element still bridging two distinct nodes.
/// (Well-formedness already rules out orphan elements and stale
/// connection entries.)
pub open spec fn is_reduced(g: Graph) -> bool {
    &&& g.wf()
    &&& forall|i: int|
        0 <= i < g.nodes@.len() ==> !node_prunable(g.elements@, #[trigger] g.nodes@[i])
    &&& shorted_collapsed(g)
}

/// Find a zero-impedance element whose terminals are still two distinct
/// nodes.
fn find_shorted_bridge(elements: &Vec<Element>) -> (r: Option<usize>)
    ensures
        r matches Some(q) ==> q < elements@.len() && elements@[q as int].spec_shorted()
            && elements@[q as int].nodes@.len() == 2
            && elements@[q as int].nodes@[0] != elements@[q as int].nodes@[1],
        r is None ==> forall|q: int|
            0 <= q < elements@.len() && (#[trigger] elements@[q]).spec_shorted()
                && elements@[q].nodes@.len() == 2 ==> elements@[q].nodes@[0]
                == elements@[q].nodes@[1],
{
    let mut q: usize = 0;
    while q < elements.len()
        invariant
            q <= elements@.len(),
            forall|t: int|
                0 <= t < q && (#[trigger] elements@[t]).spec_shorted()
                    && elements@[t].nodes@.len() == 2 ==> elements@[t].nodes@[0]
                    == elements@[t].nodes@[1],
        decreases elements@.len() - q,
    {
        if elements[q].shorted() && elements[q].nodes.len() == 2 {
            let a = elements[q].nodes[0];
            let b = elements[q].nodes[1];
            if a != b {
                return Some(q);
            }
        }
        q += 1;
    }
    None
}

/// Shorted-node merging, run to its own fixpoint: as long as some
/// zero-impedance element bridges two distinct nodes, merge the
/// higher-numbered node into the lower-numbered one.
#[verifier::rlimit(100)]
#[verifier::loop_isolation(false)]
pub fn merge_pass(
    g: &mut Graph,
    map: &mut Vec<MergeEntry>,
    Ghost(orig): Ghost<Seq<Element>>,
) -> (changed: bool)
    requires
        old(g).wf(),
        map_wf(old(map)@),
        map_linked(old(map)@, orig),
        elements_tracked(old(map)@, orig, old(g).elements@),
    ensures
        final(g).wf(),
        map_wf(final(map)@),
        map_linked(final(map)@, orig),
        elements_tracked(final(map)@, orig, final(g).elements@),
        shorted_collapsed(*final(g)),
        final(g).elements@.len() == old(g).elements@.len(),
        final(g).nodes@.len() <= old(g).nodes@.len(),
        nodes_drawn(final(g).nodes@, old(g).nodes@),
        total_conns(final(g).nodes@) + final(g).nodes@.len() <= total_conns(old(g).nodes@)
            + old(g).nodes@.len(),
        changed ==> total_conns(final(g).nodes@) + final(g).nodes@.len() < total_conns(
            old(g).nodes@,
        ) + old(g).nodes@.len(),
        !changed ==> final(g).nodes@ == old(g).nodes@ && final(g).elements@ == old(g).elements@
            && final(map)@ == old(map)@,
        changed ==> exists|q: int|
            0 <= q < old(g).elements@.len() && (#[trigger] old(g).elements@[q]).spec_shorted()
                && old(g).elements@[q].nodes@.len() == 2 && old(g).elements@[q].nodes@[0] != old(
                g,
            ).elements@[q].nodes@[1],
    decreases old(g).nodes@.len(),
{
    let mut changed = false;
    proof {
        lemma_nodes_drawn_refl(g.nodes@);
    }
    loop
        invariant
            g.wf(),
            map_wf(map@),
            map_linked(map@, orig),
            elements_tracked(map@, orig, g.elements@),
            g.elements@.len() == old(g).elements@.len(),
            g.nodes@.len() <= old(g).nodes@.len(),
            nodes_drawn(g.nodes@, old(g).nodes@),
            total_conns(g.nodes@) + g.nodes@.len() <= total_conns(old(g).nodes@) + old(
                g,
            ).nodes@.len(),
            changed ==> total_conns(g.nodes@) + g.nodes@.len() < total_conns(old(g).nodes@) + old(
                g,
            ).nodes@.len(),
            !changed ==> g.nodes@ == old(g).nodes@ && g.elements@ == old(g).elements@ && map@
                == old(map)@,
            changed ==> exists|q: int|
                0 <= q < old(g).elements@.len() && (#[trigger] old(g).elements@[q]).spec_shorted()
                    && old(g).elements@[q].nodes@.len() == 2 && old(g).elements@[q].nodes@[0]
                    != old(g).elements@[q].nodes@[1],
        decreases g.nodes@.len(),
    {
        match find_shorted_bridge(&g.elements) {
            None => {
                break;
            },
            Some(q) => {
                let a = g.elements[q].nodes[0];
                let b = g.elements[q].nodes[1];
                let (s, r): (u32, u32) = if a < b {
                    (a, b)
                } else {
                    (b, a)
                };
                proof {
                    assert(has_node(g.nodes@, a) && has_node(g.nodes@, b));
                    assert(s != 0 && r != 0) by {
                        assert(g.elements@[q as int].wf());
                        assert(g.elements@[q as int].nodes@[0] != 0u32);
                        assert(g.elements@[q as int].nodes@[1] != 0u32);
                    }
                    // the bridged pair descends from a shorted element of
                    // the input, so the two ids are chain-connected there
                    assert(shorted_linked(orig, r, s)) by {
                        reveal(crate::simplify::elements_tracked);
                        let q0 = choose|q0: int|
                            0 <= q0 < orig.len() && (#[trigger] orig[q0]).id == g.elements@[
                                q as int
                            ].id && orig[q0].kind == g.elements@[q as int].kind && orig[
                                q0
                            ].nodes@.len() == g.elements@[q as int].nodes@.len() && (forall|
                                k: int,
                            |
                                0 <= k < g.elements@[q as int].nodes@.len() ==> resolves_to(
                                    map@,
                                    orig[q0].nodes@[k],
                                    #[trigger] g.elements@[q as int].nodes@[k],
                                ));
                        let a0 = orig[q0].nodes@[0];
                        let b0 = orig[q0].nodes@[1];
                        assert(shorted_join(orig, a0, b0)) by {
                            reveal(crate::simplify::shorted_join);
                            assert(orig[q0].spec_shorted() && orig[q0].nodes@.len() == 2);
                        }
                        assert(resolves_to(map@, a0, a) && resolves_to(map@, b0, b));
                        lemma_resolved_linked(map@, orig, a0, a);
                        lemma_resolved_linked(map@, orig, b0, b);
                        lemma_join_linked(orig, a0, b0);
                        lemma_linked_sym(orig, a0, a);
                        lemma_linked_trans(orig, a, a0, b0);
                        lemma_linked_trans(orig, a, b0, b);
                        if a < b {
                            lemma_linked_sym(orig, a, b);
                        } else {
                            assert(shorted_linked(orig, a, b));
                        }
                    }
                }
                let ghost map_pre = map@;
                let ghost g_pre = *g;
                merge_nodes(g, map, s, r, Ghost(orig));
                proof {
                    lemma_tracked_merge(
                        map_pre,
                        map@,
                        orig,
                        g_pre.elements@,
                        g.elements@,
                        s,
                        r,
                    );
                    lemma_nodes_drawn_trans(g.nodes@, g_pre.nodes@, old(g).nodes@);
                }
                changed = true;
            },
        }
    }
    changed
}

/// After the three pruning/repair sub-passes the graph is well-formed
/// again: dangling pruning may strand elements, orphan pruning removes
/// exactly those, and connection repair removes the stale references.
#[verifier::rlimit(100)]
proof fn lemma_wf_after_prune(ga: Graph, gb: Graph, gc: Graph, gd: Graph)
    requires
        ga.wf(),
        // dangling pruning
        gb.elements == ga.elements,
        nodes_sorted(gb.nodes@),
        gb.nodes@.len() >= 1,
        gb.nodes@[0] == ga.nodes@[0],
        nodes_from(gb.nodes@, ga.nodes@),
        // orphan pruning
        gc.nodes == gb.nodes,
        elements_sorted(gc.elements@),
        elements_from(gc.elements@, gb.elements@),
        forall|i: int|
            0 <= i < gc.elements@.len() ==> !element_orphan(
                gb.nodes@,
                #[trigger] gc.elements@[i],
            ),
        // connection repair
        gd.elements == gc.elements,
        gd.nodes@.len() == gc.nodes@.len(),
        forall|i: int|
            0 <= i < gd.nodes@.len() ==> {
                &&& (#[trigger] gd.nodes@[i]).id == gc.nodes@[i].id
                &&& gd.nodes@[i].voltage == gc.nodes@[i].voltage
                &&& no_dups(gd.nodes@[i].connections@)
                &&& gd.nodes@[i].connections@.len() <= gc.nodes@[i].connections@.len()
            },
        forall|i: int, c: int|
            0 <= i < gd.nodes@.len() && 0 <= c < gd.nodes@[i].connections@.len() ==> {
                &&& gc.nodes@[i].connections@.contains(#[trigger] gd.nodes@[i].connections@[c])
                &&& crate::graph::has_element(gd.elements@, gd.nodes@[i].connections@[c])
            },
        forall|i: int, c: int|
            0 <= i < gc.nodes@.len() && 0 <= c < gc.nodes@[i].connections@.len()
                && crate::graph::has_element(
                gc.elements@,
                #[trigger] gc.nodes@[i].connections@[c],
            ) ==> gd.nodes@[i].connections@.contains(gc.nodes@[i].connections@[c]),
    ensures
        gd.wf(),
{
    lemma_sorted_elements_unique(ga.elements@);
    reveal(crate::simplify::element_orphan);
    reveal(crate::simplify::nodes_from);
    reveal(crate::simplify::elements_from);
    // sortedness carries over by pointwise id equality
    assert(nodes_sorted(gd.nodes@)) by {
        assert forall|i: int, j: int|
            0 <= i < j < gd.nodes@.len() implies (#[trigger] gd.nodes@[i]).id < (
            #[trigger] gd.nodes@[j]).id by {
            assert(gd.nodes@[i].id == gb.nodes@[i].id);
            assert(gd.nodes@[j].id == gb.nodes@[j].id);
        }
    }
    assert(gd.reserved_node_ok()) by {
        assert(gd.nodes@[0].id == gb.nodes@[0].id);
        assert(gd.nodes@[0].connections@.len() <= gb.nodes@[0].connections@.len());
        assert(gb.nodes@[0] == ga.nodes@[0]);
    }
    assert forall|i: int| 0 <= i < gd.nodes@.len() implies (#[trigger] gd.nodes@[i]).wf() by {
        let j = choose|j: int| 0 <= j < ga.nodes@.len() && ga.nodes@[j] == gb.nodes@[i];
        assert(ga.nodes@[j].wf());
        assert(gd.nodes@[i].voltage == gb.nodes@[i].voltage);
    }
    assert forall|e: int| 0 <= e < gd.elements@.len() implies (
    #[trigger] gd.elements@[e]).wf() by {
        let j = choose|j: int| 0 <= j < gb.elements@.len() && gb.elements@[j] == gd.elements@[e];
        assert(ga.elements@[j].wf());
    }
    assert forall|e: int, k: int|
        0 <= e < gd.elements@.len() && 0 <= k < gd.elements@[e].nodes@.len() implies has_node(
        gd.nodes@,
        #[trigger] gd.elements@[e].nodes@[k],
    ) by {
        assert(!element_orphan(gb.nodes@, gd.elements@[e]));
        assert(has_node(gb.nodes@, gd.elements@[e].nodes@[k]));
        let w = choose|w: int|
            0 <= w < gb.nodes@.len() && gb.nodes@[w].id == gd.elements@[e].nodes@[k];
        assert(gd.nodes@[w].id == gd.elements@[e].nodes@[k]);
    }
    assert forall|e: int, k: int, n: int|
        0 <= e < gd.elements@.len() && 0 <= k < gd.elements@[e].nodes@.len()
            && 0 <= n < gd.nodes@.len()
            && (#[trigger] gd.nodes@[n]).id == (#[trigger] gd.elements@[e].nodes@[k])
            implies gd.nodes@[n].connections@.contains(gd.elements@[e].id) by {
        // locate the element and node in the original graph
        let qb = choose|qb: int|
            0 <= qb < gb.elements@.len() && gb.elements@[qb] == gd.elements@[e];
        let ja = choose|ja: int| 0 <= ja < ga.nodes@.len() && ga.nodes@[ja] == gb.nodes@[n];
        assert(ga.nodes@[ja].id == gd.elements@[e].nodes@[k]);
        assert(ga.elements@[qb].nodes@[k] == gd.elements@[e].nodes@[k]);
        assert(ga.nodes@[ja].connections@.contains(ga.elements@[qb].id));
        assert(gb.nodes@[n].connections@.contains(gd.elements@[e].id));
        // the element survived, so repair kept the reference
        let c = choose|c: int|
            0 <= c < gb.nodes@[n].connections@.len() && gb.nodes@[n].connections@[c]
                == gd.elements@[e].id;
        assert(crate::graph::has_element(gc.elements@, gd.elements@[e].id)) by {
            assert(gc.elements@[e].id == gd.elements@[e].id);
        }
        assert(gd.nodes@[n].connections@.contains(gc.nodes@[n].connections@[c]));
    }
    assert forall|n: int, c: int|
        0 <= n < gd.nodes@.len() && 0 <= c < gd.nodes@[n].connections@.len()
        implies gd.connection_backed(
        #[trigger] gd.nodes@[n].connections@[c],
        gd.nodes@[n].id,
    ) by {
        let cid = gd.nodes@[n].connections@[c];
        let nid = gd.nodes@[n].id;
        // the reference survived repair, so its element exists today
        assert(crate::graph::has_element(gd.elements@, cid));
        let e = choose|e: int| 0 <= e < gd.elements@.len() && gd.elements@[e].id == cid;
        // the old graph backed this reference
        assert(gb.nodes@[n].connections@.contains(cid));
        let cb = choose|cb: int|
            0 <= cb < gb.nodes@[n].connections@.len() && gb.nodes@[n].connections@[cb] == cid;
        let ja = choose|ja: int| 0 <= ja < ga.nodes@.len() && ga.nodes@[ja] == gb.nodes@[n];
        assert(ga.connection_backed(cid, ga.nodes@[ja].id));
        let ea = choose|ea: int|
            0 <= ea < ga.elements@.len() && (#[trigger] ga.elements@[ea]).id == cid
                && ga.elements@[ea].nodes@.contains(ga.nodes@[ja].id);
        // today's element with that id is the same element
        let qb = choose|qb: int|
            0 <= qb < gb.elements@.len() && gb.elements@[qb] == gd.elements@[e];
        assert(ga.elements@[qb].id == cid);
        assert(qb == ea);
        assert(gd.elements@[e].nodes@.contains(nid)) by {
            assert(gd.nodes@[n].id == gb.nodes@[n].id);
        }
    }
    assert(gd.wf());
}

/// Measure of the fixpoint: every changing pass removes a node, an
/// element or a connection entry.
pub open spec fn graph_measure(g: Graph) -> int {
    g.nodes@.len() + g.elements@.len() + total_conns(g.nodes@)
}

/// Reduce the graph to its electrically distinct nodes.
///
/// Repeats, until nothing changes: dangling-node pruning, orphan-element
/// pruning, connection repair, and shorted-node merging (lower id wins).
/// Returns the merge map: for every survivor of at least one merge, the
/// set of original node ids (survivor included) that it now stands for.
/// Running the simplifier on a graph it has already reduced changes
/// nothing and returns an empty map.
#[verifier::rlimit(100)]
#[verifier::loop_isolation(false)]
pub fn simplify_graph(g: &mut Graph) -> (map: Vec<MergeEntry>)
    requires
        old(g).wf(),
    ensures
        is_reduced(*final(g)),
        map_wf(map@),
        elements_tracked(map@, old(g).elements@, final(g).elements@),
        final(g).nodes@.len() <= old(g).nodes@.len(),
        final(g).elements@.len() <= old(g).elements@.len(),
        // nodes are never invented: every surviving node keeps the id and
        // voltage it had in the input
        nodes_drawn(final(g).nodes@, old(g).nodes@),
        // and merges never cross a real impedance: every recorded member
        // reaches its survivor through shorted elements of the input alone
        map_linked(map@, old(g).elements@),
        is_reduced(*old(g)) ==> final(g).nodes@ == old(g).nodes@ && final(g).elements@ == old(
            g,
        ).elements@ && map@.len() == 0,
{
    let mut map: Vec<MergeEntry> = Vec::new();
    proof {
        lemma_tracked_refl(map@, old(g).elements@);
        lemma_total_conns_nonneg(g.nodes@);
        lemma_nodes_drawn_refl(g.nodes@);
        assert(map_linked(map@, old(g).elements@)) by {
            reveal(crate::simplify::map_linked);
        }
    }
    loop
        invariant
            g.wf(),
            map_wf(map@),
            map_linked(map@, old(g).elements@),
            elements_tracked(map@, old(g).elements@, g.elements@),
            g.nodes@.len() <= old(g).nodes@.len(),
            g.elements@.len() <= old(g).elements@.len(),
            nodes_drawn(g.nodes@, old(g).nodes@),
            is_reduced(*old(g)) ==> g.nodes@ == old(g).nodes@ && g.elements@ == old(g).elements@
                && map@.len() == 0,
        decreases graph_measure(*g),
    {
        let ghost ga = *g;
        let c1 = prune_dangling_nodes(g);
        let ghost gb = *g;
        let c2 = prune_orphan_elements(g);
        let ghost gc = *g;
        proof {
            lemma_nodes_from_keep_wf(gb.nodes@, ga.nodes@);
        }
        let c3 = repair_connections(g);
        let ghost gd = *g;
        proof {
            lemma_wf_after_prune(ga, gb, gc, gd);
            lemma_tracked_subset(map@, old(g).elements@, gb.elements@, gc.elements@);
            // node ids and voltages survive the three pruning sub-passes
            lemma_nodes_from_drawn(gb.nodes@, ga.nodes@);
            lemma_nodes_drawn_trans(gb.nodes@, ga.nodes@, old(g).nodes@);
            lemma_nodes_drawn_pointwise(gd.nodes@, gc.nodes@);
            lemma_nodes_drawn_trans(gd.nodes@, gc.nodes@, old(g).nodes@);
        }
        let c4 = merge_pass(g, &mut map, Ghost(old(g).elements@));
        proof {
            lemma_nodes_drawn_trans(g.nodes@, gd.nodes@, old(g).nodes@);
        }
        if !(c1 || c2 || c3 || c4) {
            proof {
                // nothing changed in this pass: the graph is reduced
                assert(g.nodes@ == gd.nodes@ && g.elements@ == gd.elements@);
                assert(g.nodes@ == ga.nodes@ && g.elements@ == ga.elements@);
                assert forall|i: int| 0 <= i < g.nodes@.len() implies !node_prunable(
                    g.elements@,
                    #[trigger] g.nodes@[i],
                ) by {
                    if i >= 1 {
                        assert(!node_prunable(ga.elements@, gb.nodes@[i]));
                    } else {
                        assert(g.nodes@[0].id == 0);
                        reveal(crate::simplify::node_prunable);
                    }
                }
                assert(is_reduced(*g));
            }
            break;
        }
        proof {
            // every change shrinks the measure
            lemma_total_conns_nonneg(g.nodes@);
            assert(gb.elements@ == ga.elements@);
            assert(gc.nodes@ == gb.nodes@);
            assert(gd.elements@ == gc.elements@);
            assert(total_conns(gb.nodes@) <= total_conns(ga.nodes@));
            assert(total_conns(gd.nodes@) <= total_conns(gc.nodes@));
            assert(total_conns(g.nodes@) + g.nodes@.len() <= total_conns(gd.nodes@)
                + gd.nodes@.len());
            assert(g.elements@.len() == gd.elements@.len());
            if c1 {
                assert(gb.nodes@.len() < ga.nodes@.len());
            }
            if c2 {
                assert(gc.elements@.len() < gb.elements@.len());
            }
            if c3 {
                assert(total_conns(gd.nodes@) < total_conns(gc.nodes@));
            }
            if c4 {
                assert(total_conns(g.nodes@) + g.nodes@.len() < total_conns(gd.nodes@)
                    + gd.nodes@.len());
            }
            assert(graph_measure(*g) < graph_measure(ga));
            // the input cannot have been reduced if anything changed
            if is_reduced(ga) {
                reveal(crate::simplify::element_orphan);
                if c1 {
                    assert(false);
                } else {
                    assert(gb.nodes@ == ga.nodes@);
                    if c2 {
                        let j = choose|j: int|
                            0 <= j < gb.elements@.len() && element_orphan(
                                gb.nodes@,
                                #[trigger] gb.elements@[j],
                            );
                        let k = choose|k: int|
                            0 <= k < gb.elements@[j].nodes@.len() && !has_node(
                                gb.nodes@,
                                #[trigger] gb.elements@[j].nodes@[k],
                            );
                        assert(has_node(ga.nodes@, ga.elements@[j].nodes@[k]));
                        assert(false);
                    } else {
                        assert(gc.nodes@ == ga.nodes@ && gc.elements@ == ga.elements@);
                        if c3 {
                            let (i2, c) = choose|i2: int, c: int|
                                0 <= i2 < gc.nodes@.len() && 0 <= c < gc.nodes@[
                                    i2
                                ].connections@.len() && !crate::graph::has_element(
                                    gc.elements@,
                                    #[trigger] gc.nodes@[i2].connections@[c],
                                );
                            assert(ga.connection_backed(
                                ga.nodes@[i2].connections@[c],
                                ga.nodes@[i2].id,
                            ));
                            let e = choose|e: int|
                                0 <= e < ga.elements@.len() && (#[trigger] ga.elements@[e]).id
                                    == ga.nodes@[i2].connections@[c]
                                    && ga.elements@[e].nodes@.contains(ga.nodes@[i2].id);
                            assert(crate::graph::has_element(
                                ga.elements@,
                                ga.nodes@[i2].connections@[c],
                            ));
                            assert(false);
                        } else {
                            assert(gd.nodes@ == ga.nodes@ && gd.elements@ == ga.elements@);
                            if c4 {
                                assert(false);
                            }
                        }
                    }
                }
            }
        }
    }
    map
}

} // verus!
