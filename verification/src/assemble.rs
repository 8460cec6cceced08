//! Modified-nodal-analysis matrix assembly.
//!
//! Every surviving element stamps its contribution into the augmented
//! conductance matrix and the injected-current vector: a resistor its
//! conductance, a ground the fixed reference row (row 0), an ideal
//! voltage source a pair of constraint rows/columns through its assigned
//! auxiliary row, and a current source its injection.  Each entry of the
//! assembled system provably equals the specification-level sum of the
//! per-element contributions.

use vstd::prelude::*;
use crate::rational::Rational;
use crate::rational::rat_add;
use crate::rational::rat_eq;
use crate::rational::rat_inv;
use crate::rational::rat_neg;
use crate::rational::rat_of_int;
use crate::rational::rat_one;
use crate::rational::rat_wf;
use crate::rational::rat_zero;
use crate::rational::lemma_rat_add_congr;
use crate::rational::lemma_rat_eq_trans;
use crate::rational::lemma_rat_neg_congr;
use crate::graph::Element;
use crate::graph::ElementKind;
use crate::graph::Graph;
use crate::graph::Node;
use crate::graph::find_node;
use crate::graph::has_node;
use crate::graph::nodes_sorted;
use crate::solve::vec_wf;

verus! {

/// The row/column index of the node with the given id in the reduced
/// node arena.
pub open spec fn node_index(nodes: Seq<Node>, id: u32) -> int {
    choose|i: int| 0 <= i < nodes.len() && nodes[i].id == id
}

/// Find the arena index of a node known to be present; it equals the
/// specification-level index.
fn locate(nodes: &Vec<Node>, id: u32) -> (i: usize)
    requires
        nodes_sorted(nodes@),
        has_node(nodes@, id),
    ensures
        i < nodes@.len(),
        nodes@[i as int].id == id,
        i == node_index(nodes@, id),
{
    match find_node(nodes, id) {
        Some(i) => {
            proof {
                let w = node_index(nodes@, id);
                if w != i as int {
                    if w < i as int {
                        assert(nodes@[w].id < nodes@[i as int].id);
                    } else {
                        assert(nodes@[i as int].id < nodes@[w].id);
                    }
                }
            }
            i
        },
        None => {
            proof {
                assert(false);
            }
            vstd::pervasive::unreached()
        },
    }
}

/// One element's contribution to matrix entry `(i, j)`; `nn` is the
/// reduced node count, so row `nn + aux_index` is the element's
/// constraint row.
pub open spec fn stamp_m(e: Element, nodes: Seq<Node>, nn: int, i: int, j: int) -> (int, int) {
    match e.kind {
        ElementKind::Resistor { resistance } => {
            let a = node_index(nodes, e.nodes@[0]);
            let b = node_index(nodes, e.nodes@[1]);
            if a == b {
                rat_zero()
            } else if (i == a && j == a) || (i == b && j == b) {
                rat_inv(resistance@)
            } else if (i == a && j == b) || (i == b && j == a) {
                rat_neg(rat_inv(resistance@))
            } else {
                rat_zero()
            }
        },
        ElementKind::Ground => {
            let a = node_index(nodes, e.nodes@[0]);
            if (i == 0 && j == a) || (i == a && j == 0) {
                rat_one()
            } else {
                rat_zero()
            }
        },
        ElementKind::DCVoltageSource { .. } => {
            let a = node_index(nodes, e.nodes@[0]);
            let b = node_index(nodes, e.nodes@[1]);
            let k = nn + e.aux_index;
            if a == b {
                rat_zero()
            } else if (i == k && j == a) || (i == a && j == k) {
                rat_of_int(-1)
            } else if (i == k && j == b) || (i == b && j == k) {
                rat_one()
            } else {
                rat_zero()
            }
        },
        _ => rat_zero(),
    }
}

/// One element's contribution to entry `i` of the right-hand side.
pub open spec fn stamp_v(e: Element, nodes: Seq<Node>, nn: int, i: int) -> (int, int) {
    match e.kind {
        ElementKind::DCVoltageSource { voltage } => {
            if i == nn + e.aux_index {
                voltage@
            } else {
                rat_zero()
            }
        },
        ElementKind::CurrentSource { current } => {
            let a = node_index(nodes, e.nodes@[0]);
            let b = node_index(nodes, e.nodes@[1]);
            if a == b {
                rat_zero()
            } else if i == b {
                current@
            } else if i == a {
                rat_neg(current@)
            } else {
                rat_zero()
            }
        },
        _ => rat_zero(),
    }
}

/// Matrix entry `(i, j)` of the fully assembled system: the sum of every
/// element's contribution.
pub open spec fn asm_m(elements: Seq<Element>, nodes: Seq<Node>, nn: int, i: int, j: int) -> (
    int,
    int,
)
    decreases elements.len(),
{
    if elements.len() == 0 {
        rat_zero()
    } else {
        rat_add(
            asm_m(elements.drop_last(), nodes, nn, i, j),
            stamp_m(elements.last(), nodes, nn, i, j),
        )
    }
}

/// Entry `i` of the fully assembled right-hand side.
pub open spec fn asm_v(elements: Seq<Element>, nodes: Seq<Node>, nn: int, i: int) -> (int, int)
    decreases elements.len(),
{
    if elements.len() == 0 {
        rat_zero()
    } else {
        rat_add(asm_v(elements.drop_last(), nodes, nn, i), stamp_v(elements.last(), nodes, nn, i))
    }
}

/// A well-formed element stamps well-formed values.
pub proof fn lemma_stamp_wf(e: Element, nodes: Seq<Node>, nn: int, i: int, j: int)
    requires
        e.wf(),
    ensures
        rat_wf(stamp_m(e, nodes, nn, i, j)),
        rat_wf(stamp_v(e, nodes, nn, i)),
{
}

/// Prefix sums of stamps are well-formed, and grow one stamp at a time.
pub proof fn lemma_asm_m_prefix(elements: Seq<Element>, nodes: Seq<Node>, nn: int, i: int, j: int, q: int)
    requires
        0 <= q < elements.len(),
    ensures
        asm_m(elements.take(q + 1), nodes, nn, i, j) == rat_add(
            asm_m(elements.take(q), nodes, nn, i, j),
            stamp_m(elements[q], nodes, nn, i, j),
        ),
{
    assert(elements.take(q + 1).drop_last() =~= elements.take(q));
    assert(elements.take(q + 1).last() == elements[q]);
}

pub proof fn lemma_asm_v_prefix(elements: Seq<Element>, nodes: Seq<Node>, nn: int, i: int, q: int)
    requires
        0 <= q < elements.len(),
    ensures
        asm_v(elements.take(q + 1), nodes, nn, i) == rat_add(
            asm_v(elements.take(q), nodes, nn, i),
            stamp_v(elements[q], nodes, nn, i),
        ),
{
    assert(elements.take(q + 1).drop_last() =~= elements.take(q));
    assert(elements.take(q + 1).last() == elements[q]);
}

/// A sum of well-formed stamps is well-formed.
pub proof fn lemma_asm_wf(elements: Seq<Element>, nodes: Seq<Node>, nn: int, i: int, j: int)
    requires
        forall|q: int| 0 <= q < elements.len() ==> (#[trigger] elements[q]).wf(),
    ensures
        rat_wf(asm_m(elements, nodes, nn, i, j)),
        rat_wf(asm_v(elements, nodes, nn, i)),
    decreases elements.len(),
{
    if elements.len() > 0 {
        lemma_asm_wf(elements.drop_last(), nodes, nn, i, j);
        lemma_stamp_wf(elements.last(), nodes, nn, i, j);
        let d = asm_m(elements.drop_last(), nodes, nn, i, j);
        let t = stamp_m(elements.last(), nodes, nn, i, j);
        assert(d.1 * t.1 >= 1) by (nonlinear_arith)
            requires
                d.1 >= 1,
                t.1 >= 1,
        ;
        let dv = asm_v(elements.drop_last(), nodes, nn, i);
        let tv = stamp_v(elements.last(), nodes, nn, i);
        assert(dv.1 * tv.1 >= 1) by (nonlinear_arith)
            requires
                dv.1 >= 1,
                tv.1 >= 1,
        ;
    }
}

/// The exact value of one element's matrix contribution at `(i, j)`;
/// fails only when the reduced conductance leaves the range.
fn stamp_value_m(e: &Element, nodes: &Vec<Node>, nn: usize, i: usize, j: usize) -> (r: Option<
    Rational,
>)
    requires
        e.wf(),
        nodes_sorted(nodes@),
        forall|k: int| 0 <= k < e.nodes@.len() ==> has_node(nodes@, #[trigger] e.nodes@[k]),
        e.spec_source_count() > 0 ==> nn + e.aux_index < usize::MAX,
    ensures
        r matches Some(c) ==> c.wf() && rat_eq(c@, stamp_m(*e, nodes@, nn as int, i as int,
        j as int)),
{
    match &e.kind {
        ElementKind::Resistor { resistance } => {
            let a = locate(nodes, e.nodes[0]);
            let b = locate(nodes, e.nodes[1]);
            if a == b {
                Some(Rational::zero())
            } else if (i == a && j == a) || (i == b && j == b) {
                let gg = match resistance.invert() {
                    Some(gg) => gg,
                    None => {
                        return None;
                    },
                };
                Some(gg)
            } else if (i == a && j == b) || (i == b && j == a) {
                let gg = match resistance.invert() {
                    Some(gg) => gg,
                    None => {
                        return None;
                    },
                };
                let ng = match gg.neg() {
                    Some(ng) => ng,
                    None => {
                        return None;
                    },
                };
                proof {
                    lemma_rat_neg_congr(gg@, rat_inv(resistance@));
                    lemma_rat_eq_trans(ng@, rat_neg(gg@), rat_neg(rat_inv(resistance@)));
                }
                Some(ng)
            } else {
                Some(Rational::zero())
            }
        },
        ElementKind::Ground => {
            let a = locate(nodes, e.nodes[0]);
            if (i == 0 && j == a) || (i == a && j == 0) {
                Some(Rational::from_int(1))
            } else {
                Some(Rational::zero())
            }
        },
        ElementKind::DCVoltageSource { .. } => {
            let a = locate(nodes, e.nodes[0]);
            let b = locate(nodes, e.nodes[1]);
            let k = nn + (e.aux_index as usize);
            if a == b {
                Some(Rational::zero())
            } else if (i == k && j == a) || (i == a && j == k) {
                Some(Rational::from_int(-1))
            } else if (i == k && j == b) || (i == b && j == k) {
                Some(Rational::from_int(1))
            } else {
                Some(Rational::zero())
            }
        },
        _ => Some(Rational::zero()),
    }
}

/// The exact value of one element's right-hand-side contribution at `i`.
fn stamp_value_v(e: &Element, nodes: &Vec<Node>, nn: usize, i: usize) -> (r: Option<Rational>)
    requires
        e.wf(),
        nodes_sorted(nodes@),
        forall|k: int| 0 <= k < e.nodes@.len() ==> has_node(nodes@, #[trigger] e.nodes@[k]),
        e.spec_source_count() > 0 ==> nn + e.aux_index < usize::MAX,
    ensures
        r matches Some(c) ==> c.wf() && rat_eq(c@, stamp_v(*e, nodes@, nn as int, i as int)),
{
    match &e.kind {
        ElementKind::DCVoltageSource { voltage } => {
            let k = nn + (e.aux_index as usize);
            if i == k {
                Some(*voltage)
            } else {
                Some(Rational::zero())
            }
        },
        ElementKind::CurrentSource { current } => {
            let a = locate(nodes, e.nodes[0]);
            let b = locate(nodes, e.nodes[1]);
            if a == b {
                Some(Rational::zero())
            } else if i == b {
                Some(*current)
            } else if i == a {
                current.neg()
            } else {
                Some(Rational::zero())
            }
        },
        _ => Some(Rational::zero()),
    }
}

/// The exact value of matrix entry `(i, j)` of the assembled system.
fn entry_m(elements: &Vec<Element>, nodes: &Vec<Node>, nn: usize, i: usize, j: usize) -> (r:
    Option<Rational>)
    requires
        nodes_sorted(nodes@),
        forall|q: int| 0 <= q < elements@.len() ==> (#[trigger] elements@[q]).wf(),
        forall|q: int, k: int|
            0 <= q < elements@.len() && 0 <= k < elements@[q].nodes@.len() ==> has_node(
                nodes@,
                #[trigger] elements@[q].nodes@[k],
            ),
        forall|q: int|
            0 <= q < elements@.len() && (#[trigger] elements@[q]).spec_source_count() > 0 ==> nn
                + elements@[q].aux_index < usize::MAX,
    ensures
        r matches Some(c) ==> c.wf() && rat_eq(c@, asm_m(elements@, nodes@, nn as int, i as int,
        j as int)),
{
    let mut acc = Rational::zero();
    let mut q: usize = 0;
    while q < elements.len()
        invariant
            q <= elements@.len(),
            nodes_sorted(nodes@),
            forall|t: int| 0 <= t < elements@.len() ==> (#[trigger] elements@[t]).wf(),
            forall|t: int, k: int|
                0 <= t < elements@.len() && 0 <= k < elements@[t].nodes@.len() ==> has_node(
                    nodes@,
                    #[trigger] elements@[t].nodes@[k],
                ),
            forall|t: int|
                0 <= t < elements@.len() && (#[trigger] elements@[t]).spec_source_count() > 0
                    ==> nn + elements@[t].aux_index < usize::MAX,
            acc.wf(),
            rat_eq(acc@, asm_m(elements@.take(q as int), nodes@, nn as int, i as int, j as int)),
        decreases elements@.len() - q,
    {
        let c = match stamp_value_m(&elements[q], nodes, nn, i, j) {
            Some(c) => c,
            None => {
                return None;
            },
        };
        let next = match acc.add(c) {
            Some(v) => v,
            None => {
                return None;
            },
        };
        proof {
            let ghost el = elements@;
            let ghost prev = asm_m(el.take(q as int), nodes@, nn as int, i as int, j as int);
            let ghost st = stamp_m(el[q as int], nodes@, nn as int, i as int, j as int);
            assert(forall|t: int|
                0 <= t < el.take(q as int).len() ==> (#[trigger] el.take(q as int)[t]).wf());
            lemma_asm_wf(el.take(q as int), nodes@, nn as int, i as int, j as int);
            lemma_asm_m_prefix(el, nodes@, nn as int, i as int, j as int, q as int);
            lemma_rat_add_congr(acc@, prev, c@, st);
            assert(acc@.1 * c@.1 >= 1) by (nonlinear_arith)
                requires
                    acc@.1 >= 1,
                    c@.1 >= 1,
            ;
            lemma_rat_eq_trans(next@, rat_add(acc@, c@), rat_add(prev, st));
        }
        acc = next;
        q += 1;
    }
    proof {
        assert(elements@.take(elements@.len() as int) =~= elements@);
    }
    Some(acc)
}

/// The exact value of entry `i` of the assembled right-hand side.
fn entry_v(elements: &Vec<Element>, nodes: &Vec<Node>, nn: usize, i: usize) -> (r: Option<Rational>)
    requires
        nodes_sorted(nodes@),
        forall|q: int| 0 <= q < elements@.len() ==> (#[trigger] elements@[q]).wf(),
        forall|q: int, k: int|
            0 <= q < elements@.len() && 0 <= k < elements@[q].nodes@.len() ==> has_node(
                nodes@,
                #[trigger] elements@[q].nodes@[k],
            ),
        forall|q: int|
            0 <= q < elements@.len() && (#[trigger] elements@[q]).spec_source_count() > 0 ==> nn
                + elements@[q].aux_index < usize::MAX,
    ensures
        r matches Some(c) ==> c.wf() && rat_eq(c@, asm_v(elements@, nodes@, nn as int, i as int)),
{
    let mut acc = Rational::zero();
    let mut q: usize = 0;
    while q < elements.len()
        invariant
            q <= elements@.len(),
            nodes_sorted(nodes@),
            forall|t: int| 0 <= t < elements@.len() ==> (#[trigger] elements@[t]).wf(),
            forall|t: int, k: int|
                0 <= t < elements@.len() && 0 <= k < elements@[t].nodes@.len() ==> has_node(
                    nodes@,
                    #[trigger] elements@[t].nodes@[k],
                ),
            forall|t: int|
                0 <= t < elements@.len() && (#[trigger] elements@[t]).spec_source_count() > 0
                    ==> nn + elements@[t].aux_index < usize::MAX,
            acc.wf(),
            rat_eq(acc@, asm_v(elements@.take(q as int), nodes@, nn as int, i as int)),
        decreases elements@.len() - q,
    {
        let c = match stamp_value_v(&elements[q], nodes, nn, i) {
            Some(c) => c,
            None => {
                return None;
            },
        };
        let next = match acc.add(c) {
            Some(v) => v,
            None => {
                return None;
            },
        };
        proof {
            let ghost el = elements@;
            let ghost prev = asm_v(el.take(q as int), nodes@, nn as int, i as int);
            let ghost st = stamp_v(el[q as int], nodes@, nn as int, i as int);
            assert(forall|t: int|
                0 <= t < el.take(q as int).len() ==> (#[trigger] el.take(q as int)[t]).wf());
            lemma_asm_wf(el.take(q as int), nodes@, nn as int, i as int, 0);
            lemma_asm_v_prefix(el, nodes@, nn as int, i as int, q as int);
            lemma_rat_add_congr(acc@, prev, c@, st);
            assert(acc@.1 * c@.1 >= 1) by (nonlinear_arith)
                requires
                    acc@.1 >= 1,
                    c@.1 >= 1,
            ;
            lemma_rat_eq_trans(next@, rat_add(acc@, c@), rat_add(prev, st));
        }
        acc = next;
        q += 1;
    }
    proof {
        assert(elements@.take(elements@.len() as int) =~= elements@);
    }
    Some(acc)
}

/// The assembled linear system: the augmented conductance matrix and the
/// injected-current vector.
pub struct LinearSystem {
    pub matrix: Vec<Vec<Rational>>,
    pub vector: Vec<Rational>,
}

/// How many auxiliary constraint rows the elements need in total.
pub open spec fn source_total(elements: Seq<Element>) -> int
    decreases elements.len(),
{
    if elements.len() == 0 {
        0
    } else {
        source_total(elements.drop_last()) + elements.last().spec_source_count()
    }
}

/// Extending a prefix by one element adds that element's row count.
pub proof fn lemma_source_total_take_step(elements: Seq<Element>, q: int)
    requires
        0 <= q < elements.len(),
    ensures
        source_total(elements.take(q + 1)) == source_total(elements.take(q))
            + elements[q].spec_source_count(),
{
    assert(elements.take(q + 1).drop_last() =~= elements.take(q));
    assert(elements.take(q + 1).last() == elements[q]);
}

/// Prefix row counts never decrease.
pub proof fn lemma_source_total_mono(elements: Seq<Element>, i: int, j: int)
    requires
        0 <= i <= j <= elements.len(),
    ensures
        source_total(elements.take(i)) <= source_total(elements.take(j)),
    decreases j - i,
{
    if i < j {
        lemma_source_total_mono(elements, i, j - 1);
        lemma_source_total_take_step(elements, j - 1);
    }
}

/// Walk the elements in arena (id) order and hand every voltage source
/// its auxiliary constraint-row offset: source number `k` in element-id
/// order receives row offset `k`, so the offsets are distinct, increase
/// with the element order, and fill `0 .. total` exactly.
pub fn assign_source_rows(g: &mut Graph) -> (total: u32)
    requires
        old(g).wf(),
        old(g).elements@.len() < u32::MAX,
    ensures
        final(g).wf(),
        final(g).nodes == old(g).nodes,
        final(g).elements@.len() == old(g).elements@.len(),
        total <= final(g).elements@.len(),
        forall|q: int|
            0 <= q < final(g).elements@.len() ==> {
                &&& (#[trigger] final(g).elements@[q]).id == old(g).elements@[q].id
                &&& final(g).elements@[q].kind == old(g).elements@[q].kind
                &&& final(g).elements@[q].nodes@ == old(g).elements@[q].nodes@
            },
        forall|q: int|
            0 <= q < final(g).elements@.len() && (#[trigger] final(g).elements@[q]).spec_source_count()
                > 0 ==> final(g).elements@[q].aux_index < total,
        total == source_total(final(g).elements@),
        forall|q: int|
            0 <= q < final(g).elements@.len() && (#[trigger] final(g).elements@[q]).spec_source_count()
                > 0 ==> final(g).elements@[q].aux_index == source_total(
                final(g).elements@.take(q),
            ),
        forall|q: int|
            0 <= q < final(g).elements@.len() && (#[trigger] final(g).elements@[q]).spec_source_count()
                == 0 ==> final(g).elements@[q].aux_index == old(g).elements@[q].aux_index,
        // in particular the offsets are distinct and ordered
        forall|q1: int, q2: int|
            0 <= q1 < q2 < final(g).elements@.len()
                && (#[trigger] final(g).elements@[q1]).spec_source_count() > 0
                && (#[trigger] final(g).elements@[q2]).spec_source_count() > 0
                ==> final(g).elements@[q1].aux_index < final(g).elements@[q2].aux_index,
{
    let n = g.elements.len();
    let mut counter: u32 = 0;
    let mut q: usize = 0;
    while q < n
        invariant
            q <= n,
            n == g.elements@.len(),
            n < u32::MAX,
            counter <= q,
            g.nodes == old(g).nodes,
            g.elements@.len() == old(g).elements@.len(),
            forall|t: int|
                0 <= t < g.elements@.len() ==> {
                    &&& (#[trigger] g.elements@[t]).id == old(g).elements@[t].id
                    &&& g.elements@[t].kind == old(g).elements@[t].kind
                    &&& g.elements@[t].nodes@ == old(g).elements@[t].nodes@
                },
            counter == source_total(g.elements@.take(q as int)),
            forall|t: int| q <= t < n ==> (#[trigger] g.elements@[t]) == old(g).elements@[t],
            forall|t: int|
                0 <= t < q && (#[trigger] g.elements@[t]).spec_source_count() > 0 ==> {
                    &&& g.elements@[t].aux_index < counter
                    &&& g.elements@[t].aux_index == source_total(g.elements@.take(t))
                },
            forall|t: int|
                0 <= t < q && (#[trigger] g.elements@[t]).spec_source_count() == 0
                    ==> g.elements@[t].aux_index == old(g).elements@[t].aux_index,
        decreases n - q,
    {
        let ghost pre = g.elements@;
        let cnt = g.elements[q].voltage_source_count();
        if cnt > 0 {
            g.elements[q].aux_index = counter;
            counter = counter + cnt;
        }
        q += 1;
        proof {
            // updating one aux offset leaves every prefix row count alone
            assert(g.elements@.take(q - 1) =~= pre.take(q - 1));
            lemma_source_total_same_kinds(pre, g.elements@);
            lemma_source_total_take_step(g.elements@, q - 1);
            assert forall|t: int|
                0 <= t < q && (#[trigger] g.elements@[t]).spec_source_count() > 0 implies
                g.elements@[t].aux_index == source_total(g.elements@.take(t))
                    && g.elements@[t].aux_index < counter by {
                if t < q - 1 {
                    assert(g.elements@.take(t) =~= pre.take(t));
                    assert(source_total(pre.take(t)) == source_total(g.elements@.take(t))) by {
                        lemma_source_total_same_kinds(pre.take(t), g.elements@.take(t));
                    }
                    lemma_source_total_mono(g.elements@, t + 1, q as int);
                    lemma_source_total_take_step(g.elements@, t);
                }
            }
        }
    }
    proof {
        let gf = *g;
        let og = *old(g);
        assert(nodes_sorted(gf.nodes@));
        assert forall|e: int| 0 <= e < gf.elements@.len() implies (
        #[trigger] gf.elements@[e]).wf() by {
            assert(og.elements@[e].wf());
        }
        assert forall|e: int, k: int|
            0 <= e < gf.elements@.len() && 0 <= k < gf.elements@[e].nodes@.len() implies has_node(
            gf.nodes@,
            #[trigger] gf.elements@[e].nodes@[k],
        ) by {
            assert(gf.elements@[e].nodes@[k] == og.elements@[e].nodes@[k]);
            assert(has_node(og.nodes@, og.elements@[e].nodes@[k]));
        }
        assert forall|e: int, k: int, nI: int|
            0 <= e < gf.elements@.len() && 0 <= k < gf.elements@[e].nodes@.len()
                && 0 <= nI < gf.nodes@.len()
                && (#[trigger] gf.nodes@[nI]).id == (#[trigger] gf.elements@[e].nodes@[k])
                implies gf.nodes@[nI].connections@.contains(gf.elements@[e].id) by {
            assert(gf.elements@[e].nodes@[k] == og.elements@[e].nodes@[k]);
            assert(gf.elements@[e].id == og.elements@[e].id);
        }
        assert forall|nI: int, c: int|
            0 <= nI < gf.nodes@.len() && 0 <= c < gf.nodes@[nI].connections@.len()
            implies gf.connection_backed(
            #[trigger] gf.nodes@[nI].connections@[c],
            gf.nodes@[nI].id,
        ) by {
            assert(og.connection_backed(og.nodes@[nI].connections@[c], og.nodes@[nI].id));
            let e = choose|e: int|
                0 <= e < og.elements@.len() && (#[trigger] og.elements@[e]).id == og.nodes@[
                    nI
                ].connections@[c] && og.elements@[e].nodes@.contains(og.nodes@[nI].id);
            assert(gf.elements@[e].id == og.nodes@[nI].connections@[c]);
            assert(gf.elements@[e].nodes@ == og.elements@[e].nodes@);
        }
        assert(gf.wf());
        assert(gf.elements@.take(n as int) =~= gf.elements@);
        assert forall|q1: int, q2: int|
            0 <= q1 < q2 < gf.elements@.len() && (#[trigger] gf.elements@[q1]).spec_source_count()
                > 0 && (#[trigger] gf.elements@[q2]).spec_source_count() > 0 implies
            gf.elements@[q1].aux_index < gf.elements@[q2].aux_index by {
            lemma_source_total_take_step(gf.elements@, q1);
            lemma_source_total_mono(gf.elements@, q1 + 1, q2);
        }
    }
    counter
}

/// The total row count depends only on the element kinds.
pub proof fn lemma_source_total_same_kinds(e1: Seq<Element>, e2: Seq<Element>)
    requires
        e1.len() == e2.len(),
        forall|q: int| 0 <= q < e1.len() ==> (#[trigger] e1[q]).kind == e2[q].kind,
    ensures
        source_total(e1) == source_total(e2),
    decreases e1.len(),
{
    if e1.len() > 0 {
        lemma_source_total_same_kinds(e1.drop_last(), e2.drop_last());
    }
}

/// Assemble the full linear system of the reduced graph: dimension
/// `node count + total auxiliary rows`, every entry the exact sum of the
/// element stamps.  Fails only when an exact entry leaves the
/// representable range.
pub fn assemble_system(g: &Graph, total_aux: u32) -> (r: Option<LinearSystem>)
    requires
        g.wf(),
        g.nodes@.len() + total_aux < usize::MAX,
        forall|q: int|
            0 <= q < g.elements@.len() && (#[trigger] g.elements@[q]).spec_source_count() > 0
                ==> g.elements@[q].aux_index < total_aux,
    ensures
        r matches Some(sys) ==> {
            let nn = g.nodes@.len() as int;
            let dim = nn + total_aux;
            &&& sys.matrix@.len() == dim
            &&& forall|i: int| 0 <= i < dim ==> (#[trigger] sys.matrix@[i])@.len() == dim
            &&& forall|i: int| 0 <= i < dim ==> vec_wf((#[trigger] sys.matrix@[i])@)
            &&& sys.vector@.len() == dim
            &&& vec_wf(sys.vector@)
            &&& forall|i: int, j: int|
                0 <= i < dim && 0 <= j < dim ==> rat_eq(
                    (#[trigger] sys.matrix@[i]@[j])@,
                    asm_m(g.elements@, g.nodes@, nn, i, j),
                )
            &&& forall|i: int|
                0 <= i < dim ==> rat_eq((#[trigger] sys.vector@[i])@, asm_v(
                    g.elements@,
                    g.nodes@,
                    nn,
                    i,
                ))
        },
{
    let nn = g.nodes.len();
    let dim = nn + (total_aux as usize);
    proof {
        assert forall|q: int|
            0 <= q < g.elements@.len() && (#[trigger] g.elements@[q]).spec_source_count() > 0
            implies nn + g.elements@[q].aux_index < usize::MAX by {
            assert(g.elements@[q].aux_index < total_aux);
        }
    }
    let mut matrix: Vec<Vec<Rational>> = Vec::new();
    let mut i: usize = 0;
    while i < dim
        invariant
            i <= dim,
            dim == g.nodes@.len() + total_aux,
            g.wf(),
            forall|q: int|
                0 <= q < g.elements@.len() && (#[trigger] g.elements@[q]).spec_source_count() > 0
                    ==> nn + g.elements@[q].aux_index < usize::MAX,
            nn == g.nodes@.len(),
            matrix@.len() == i,
            forall|t: int| 0 <= t < i ==> (#[trigger] matrix@[t])@.len() == dim,
            forall|t: int| 0 <= t < i ==> vec_wf((#[trigger] matrix@[t])@),
            forall|t: int, u: int|
                0 <= t < i && 0 <= u < dim ==> rat_eq(
                    (#[trigger] matrix@[t]@[u])@,
                    asm_m(g.elements@, g.nodes@, nn as int, t, u),
                ),
        decreases dim - i,
    {
        let mut row: Vec<Rational> = Vec::new();
        let mut j: usize = 0;
        while j < dim
            invariant
                j <= dim,
                i < dim,
                dim == g.nodes@.len() + total_aux,
                g.wf(),
                forall|q: int|
                    0 <= q < g.elements@.len() && (#[trigger] g.elements@[q]).spec_source_count()
                        > 0 ==> nn + g.elements@[q].aux_index < usize::MAX,
                nn == g.nodes@.len(),
                row@.len() == j,
                vec_wf(row@),
                forall|u: int|
                    0 <= u < j ==> rat_eq((#[trigger] row@[u])@, asm_m(
                        g.elements@,
                        g.nodes@,
                        nn as int,
                        i as int,
                        u,
                    )),
            decreases dim - j,
        {
            let c = match entry_m(&g.elements, &g.nodes, nn, i, j) {
                Some(c) => c,
                None => {
                    return None;
                },
            };
            row.push(c);
            j += 1;
        }
        matrix.push(row);
        i += 1;
    }
    let mut vector: Vec<Rational> = Vec::new();
    let mut k: usize = 0;
    while k < dim
        invariant
            k <= dim,
            dim == g.nodes@.len() + total_aux,
            g.wf(),
            forall|q: int|
                0 <= q < g.elements@.len() && (#[trigger] g.elements@[q]).spec_source_count() > 0
                    ==> nn + g.elements@[q].aux_index < usize::MAX,
            nn == g.nodes@.len(),
            vector@.len() == k,
            vec_wf(vector@),
            forall|u: int|
                0 <= u < k ==> rat_eq((#[trigger] vector@[u])@, asm_v(
                    g.elements@,
                    g.nodes@,
                    nn as int,
                    u,
                )),
        decreases dim - k,
    {
        let c = match entry_v(&g.elements, &g.nodes, nn, k) {
            Some(c) => c,
            None => {
                return None;
            },
        };
        vector.push(c);
        k += 1;
    }
    Some(LinearSystem { matrix, vector })
}

} // verus!
