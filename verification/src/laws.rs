//! Global properties of the pipeline, stated and proved once.
//!
//! Two facts are worth keeping on record beyond the individual function
//! contracts: merge correctness — after simplification, both original
//! terminals of every surviving zero-impedance element resolve to the
//! same surviving node, recorded in one merge-map entry — and the ground
//! reference — in a circuit with a single ground element, any exact
//! solution of the assembled system puts the grounded node at exactly
//! zero volts.

use vstd::prelude::*;
use crate::rational::Rational;
use crate::rational::rat_add;
use crate::rational::rat_eq;
use crate::rational::rat_is_zero;
use crate::rational::rat_mul;
use crate::rational::rat_one;
use crate::rational::rat_wf;
use crate::rational::rat_zero;
use crate::rational::lemma_rat_add_congr;
use crate::rational::lemma_rat_eq_trans;
use crate::rational::lemma_rat_mul_congr;
use crate::graph::Element;
use crate::graph::ElementKind;
use crate::graph::Graph;
use crate::graph::Node;
use crate::simplify::MergeEntry;
use crate::simplify::elements_tracked;
use crate::simplify::map_wf;
use crate::simplify::resolves_to;
use crate::simplify::shorted_collapsed;
use crate::assemble::asm_m;
use crate::assemble::asm_v;
use crate::assemble::lemma_asm_wf;
use crate::assemble::lemma_stamp_wf;
use crate::assemble::node_index;
use crate::assemble::stamp_m;
use crate::assemble::stamp_v;
use crate::solve::dot_prefix;
use crate::solve::is_solution;
use crate::solve::lemma_dot_prefix_wf;
use crate::solve::row_times;
use crate::solve::vec_wf;

verus! {

/// Merge correctness.  After a run of the simplifier (which established
/// `map_wf`, `elements_tracked` and `shorted_collapsed`), a surviving
/// zero-impedance element `q` has both terminals on one surviving node;
/// the terminals `a` and `b` of the original element it descends from
/// both resolve to that survivor through the merge map, and if they were
/// distinct nodes, a single entry of the map lists them both.
pub proof fn lemma_merge_correctness(map: Seq<MergeEntry>, orig: Seq<Element>, g: Graph, q: int)
    requires
        map_wf(map),
        elements_tracked(map, orig, g.elements@),
        shorted_collapsed(g),
        g.wf(),
        0 <= q < g.elements@.len(),
        g.elements@[q].spec_shorted(),
    ensures
        g.elements@[q].nodes@.len() == 2,
        g.elements@[q].nodes@[1] == g.elements@[q].nodes@[0],
        exists|q0: int|
            {
                let a = orig[q0].nodes@[0];
                let b = orig[q0].nodes@[1];
                let s = g.elements@[q].nodes@[0];
                &&& 0 <= q0 < orig.len()
                &&& (#[trigger] orig[q0]).id == g.elements@[q].id
                &&& orig[q0].nodes@.len() == 2
                &&& resolves_to(map, a, s)
                &&& resolves_to(map, b, s)
                &&& (a != b ==> exists|m: int|
                    0 <= m < map.len() && (#[trigger] map[m]).survivor == s
                        && map[m].members@.contains(a) && map[m].members@.contains(b))
            },
{
    reveal(crate::simplify::elements_tracked);
    assert(g.elements@[q].wf());
    let s = g.elements@[q].nodes@[0];
    let q0 = choose|q0: int|
        0 <= q0 < orig.len() && (#[trigger] orig[q0]).id == g.elements@[q].id && orig[q0].kind
            == g.elements@[q].kind && orig[q0].nodes@.len() == g.elements@[q].nodes@.len() && (
        forall|k: int|
            0 <= k < g.elements@[q].nodes@.len() ==> resolves_to(
                map,
                orig[q0].nodes@[k],
                #[trigger] g.elements@[q].nodes@[k],
            ));
    let a = orig[q0].nodes@[0];
    let b = orig[q0].nodes@[1];
    assert(resolves_to(map, a, s));
    assert(resolves_to(map, b, g.elements@[q].nodes@[1]));
    if a != b {
        reveal(crate::simplify::resolves_to);
        // at least one of the two originals is not the survivor itself,
        // so an entry for the survivor exists; uniqueness of survivors
        // and the entry listing its own survivor cover the other one
        if a != s {
            let ma = choose|m: int|
                0 <= m < map.len() && (#[trigger] map[m]).survivor == s
                    && map[m].members@.contains(a);
            if b == s {
                assert(map[ma].members@.contains(b));
            } else {
                let mb = choose|m: int|
                    0 <= m < map.len() && (#[trigger] map[m]).survivor == s
                        && map[m].members@.contains(b);
                if ma != mb {
                    if ma < mb {
                        assert(map[ma].survivor != map[mb].survivor);
                    } else {
                        assert(map[mb].survivor != map[ma].survivor);
                    }
                }
                assert(map[ma].members@.contains(b));
            }
        } else {
            let mb = choose|m: int|
                0 <= m < map.len() && (#[trigger] map[m]).survivor == s
                    && map[m].members@.contains(b);
            assert(map[mb].members@.contains(a));
        }
    }
    assert(0 <= q0 < orig.len() && orig[q0].id == g.elements@[q].id);
}

/// How many ground elements the collection holds.
pub open spec fn ground_count(elements: Seq<Element>) -> int
    decreases elements.len(),
{
    if elements.len() == 0 {
        0
    } else {
        ground_count(elements.drop_last()) + (match elements.last().kind {
            ElementKind::Ground => 1int,
            _ => 0int,
        })
    }
}

/// The reference row of the assembled matrix: with every ground element
/// attached to node index `a`, and every other index in play at least 1,
/// entry `(0, j)` sums to the number of grounds when `j == a`, else to
/// zero; the right-hand side entry 0 sums to zero.
proof fn lemma_reference_row(
    elements: Seq<Element>,
    nodes: Seq<Node>,
    nn: int,
    j: int,
    a: int,
)
    requires
        nn >= 1,
        forall|q: int| 0 <= q < elements.len() ==> (#[trigger] elements[q]).wf(),
        forall|q: int|
            0 <= q < elements.len() && (#[trigger] elements[q]).kind is Ground ==> node_index(
                nodes,
                elements[q].nodes@[0],
            ) == a,
        forall|q: int, k: int|
            0 <= q < elements.len() && 0 <= k < elements[q].nodes@.len() ==> node_index(
                nodes,
                #[trigger] elements[q].nodes@[k],
            ) >= 1,
        a >= 1,
    ensures
        rat_eq(asm_m(elements, nodes, nn, 0, j), (ground_count(elements), 1)) || j != a,
        j != a ==> rat_eq(asm_m(elements, nodes, nn, 0, j), rat_zero()),
        rat_eq(asm_v(elements, nodes, nn, 0), rat_zero()),
    decreases elements.len(),
{
    if elements.len() == 0 {
    } else {
        let prefix = elements.drop_last();
        let e = elements.last();
        lemma_reference_row(prefix, nodes, nn, j, a);
        lemma_asm_wf(prefix, nodes, nn, 0, j);
        lemma_stamp_wf(e, nodes, nn, 0, j);
        // the last element's contribution to row 0
        let sm = stamp_m(e, nodes, nn, 0, j);
        let sv = stamp_v(e, nodes, nn, 0);
        assert(sv == rat_zero());
        match e.kind {
            ElementKind::Ground => {
                if j == a {
                    assert(sm == rat_one());
                } else {
                    assert(sm == rat_zero());
                }
            },
            _ => {
                assert(sm == rat_zero());
            },
        }
        let pm = asm_m(prefix, nodes, nn, 0, j);
        let pv = asm_v(prefix, nodes, nn, 0);
        if j == a {
            lemma_rat_add_congr(pm, (ground_count(prefix), 1), sm, sm);
            assert(pm.1 * sm.1 >= 1) by (nonlinear_arith)
                requires
                    pm.1 >= 1,
                    sm.1 >= 1,
            ;
            lemma_rat_eq_trans(
                asm_m(elements, nodes, nn, 0, j),
                rat_add((ground_count(prefix), 1), sm),
                (ground_count(elements), 1),
            );
        } else {
            lemma_rat_add_congr(pm, rat_zero(), sm, sm);
            assert(pm.1 * sm.1 >= 1) by (nonlinear_arith)
                requires
                    pm.1 >= 1,
                    sm.1 >= 1,
            ;
            lemma_rat_eq_trans(
                asm_m(elements, nodes, nn, 0, j),
                rat_add(rat_zero(), sm),
                rat_zero(),
            );
        }
        lemma_rat_add_congr(pv, rat_zero(), sv, sv);
        assert(pv.1 * sv.1 >= 1) by (nonlinear_arith)
            requires
                pv.1 >= 1,
                sv.1 >= 1,
        ;
        lemma_rat_eq_trans(asm_v(elements, nodes, nn, 0), rat_add(rat_zero(), sv), rat_zero());
    }
}

/// The scalar product of a row equal (value-wise) to the unit vector at
/// `a` picks out `x[a]`.
proof fn lemma_unit_dot(row: Seq<Rational>, x: Seq<Rational>, a: int, k: int)
    requires
        0 <= a < row.len(),
        row.len() <= x.len(),
        vec_wf(row),
        vec_wf(x),
        0 <= k <= row.len(),
        forall|j: int|
            0 <= j < row.len() ==> rat_eq(
                (#[trigger] row[j])@,
                if j == a {
                    rat_one()
                } else {
                    rat_zero()
                },
            ),
    ensures
        k <= a ==> rat_eq(dot_prefix(row, x, k), rat_zero()),
        k > a ==> rat_eq(dot_prefix(row, x, k), x[a]@),
    decreases k,
{
    if k > 0 {
        lemma_unit_dot(row, x, a, k - 1);
        lemma_dot_prefix_wf(row, x, k - 1);
        let d = dot_prefix(row, x, k - 1);
        let t = rat_mul(row[k - 1]@, x[k - 1]@);
        assert((row[k - 1]@).1 * (x[k - 1]@).1 >= 1) by (nonlinear_arith)
            requires
                (row[k - 1]@).1 >= 1,
                (x[k - 1]@).1 >= 1,
        ;
        assert(rat_wf(t));
        if k - 1 == a {
            // the single unit entry: the term is x[a], the prefix is zero
            lemma_rat_mul_congr(row[k - 1]@, rat_one(), x[k - 1]@, x[k - 1]@);
            crate::rational::lemma_rat_mul_one(x[k - 1]@);
            lemma_rat_eq_trans(t, rat_mul(rat_one(), x[k - 1]@), x[k - 1]@);
            lemma_rat_add_congr(d, rat_zero(), t, x[a]@);
            crate::rational::lemma_rat_zero_add(x[a]@);
            assert(d.1 * t.1 >= 1) by (nonlinear_arith)
                requires
                    d.1 >= 1,
                    t.1 >= 1,
            ;
            lemma_rat_eq_trans(dot_prefix(row, x, k), rat_add(rat_zero(), x[a]@), x[a]@);
        } else {
            // a zero entry: the term vanishes
            lemma_rat_mul_congr(row[k - 1]@, rat_zero(), x[k - 1]@, x[k - 1]@);
            crate::rational::lemma_rat_mul_zero(x[k - 1]@);
            lemma_rat_eq_trans(t, rat_mul(rat_zero(), x[k - 1]@), rat_zero());
            if k - 1 < a {
                lemma_rat_add_congr(d, rat_zero(), t, rat_zero());
                assert(d.1 * t.1 >= 1) by (nonlinear_arith)
                    requires
                        d.1 >= 1,
                        t.1 >= 1,
                ;
                lemma_rat_eq_trans(
                    dot_prefix(row, x, k),
                    rat_add(rat_zero(), rat_zero()),
                    rat_zero(),
                );
            } else {
                lemma_rat_add_congr(d, x[a]@, t, rat_zero());
                crate::rational::lemma_rat_add_zero(x[a]@, rat_zero());
                assert(d.1 * t.1 >= 1) by (nonlinear_arith)
                    requires
                        d.1 >= 1,
                        t.1 >= 1,
                ;
                lemma_rat_eq_trans(dot_prefix(row, x, k), rat_add(x[a]@, rat_zero()), x[a]@);
            }
        }
    }
}

/// Ground reference.  In a reduced graph whose elements include exactly
/// one ground, any exact solution of a system whose entries equal the
/// assembled stamp sums puts the ground element's node at exactly zero
/// volts, whatever the rest of the topology is.
pub proof fn lemma_ground_reference(
    g: Graph,
    sm: Seq<Vec<Rational>>,
    sv: Seq<Rational>,
    x: Seq<Rational>,
    gi: int,
)
    requires
        g.wf(),
        0 <= gi < g.elements@.len(),
        g.elements@[gi].kind is Ground,
        ground_count(g.elements@) == 1,
        sm.len() == x.len(),
        sv.len() == x.len(),
        x.len() >= g.nodes@.len(),
        g.nodes@.len() >= 1,
        forall|i: int| 0 <= i < sm.len() ==> (#[trigger] sm[i])@.len() == x.len(),
        forall|i: int| 0 <= i < sm.len() ==> vec_wf((#[trigger] sm[i])@),
        vec_wf(sv),
        vec_wf(x),
        forall|i: int, j: int|
            0 <= i < sm.len() && 0 <= j < sm.len() ==> rat_eq(
                (#[trigger] sm[i]@[j])@,
                asm_m(g.elements@, g.nodes@, g.nodes@.len() as int, i, j),
            ),
        forall|i: int|
            0 <= i < sv.len() ==> rat_eq((#[trigger] sv[i])@, asm_v(
                g.elements@,
                g.nodes@,
                g.nodes@.len() as int,
                i,
            )),
        is_solution(sm, sv, x),
        x.len() >= 1,
    ensures
        rat_is_zero(x[node_index(g.nodes@, g.elements@[gi].nodes@[0])]@),
{
    let nn = g.nodes@.len() as int;
    let a = node_index(g.nodes@, g.elements@[gi].nodes@[0]);
    // every node index an element names is at least 1
    assert forall|q: int, k: int|
        0 <= q < g.elements@.len() && 0 <= k < g.elements@[q].nodes@.len() implies node_index(
        g.nodes@,
        #[trigger] g.elements@[q].nodes@[k],
    ) >= 1 by {
        let w = choose|w: int|
            0 <= w < g.nodes@.len() && g.nodes@[w].id == g.elements@[q].nodes@[k];
        let ni = node_index(g.nodes@, g.elements@[q].nodes@[k]);
        assert(g.nodes@[ni].id == g.elements@[q].nodes@[k]);
        if ni == 0 {
            assert(g.nodes@[0].id == 0);
            assert(g.elements@[q].nodes@[k] != 0u32);
        }
    }
    // every ground sits at node index a: there is only one ground
    assert forall|q: int|
        0 <= q < g.elements@.len() && (#[trigger] g.elements@[q]).kind is Ground
        implies node_index(g.nodes@, g.elements@[q].nodes@[0]) == a by {
        lemma_single_ground(g.elements@, gi, q);
    }
    lemma_reference_row(g.elements@, g.nodes@, nn, a, a);
    assert forall|j: int| 0 <= j < sm.len() implies rat_eq(
        (#[trigger] sm[0]@[j])@,
        if j == a {
            rat_one()
        } else {
            rat_zero()
        },
    ) by {
        lemma_reference_row(g.elements@, g.nodes@, nn, j, a);
        lemma_asm_wf(g.elements@, g.nodes@, nn, 0, j);
        if j == a {
            lemma_rat_eq_trans(sm[0]@[j]@, asm_m(g.elements@, g.nodes@, nn, 0, j), (1int, 1int));
        } else {
            lemma_rat_eq_trans(sm[0]@[j]@, asm_m(g.elements@, g.nodes@, nn, 0, j), rat_zero());
        }
    }
    assert(1 <= a < sm.len()) by {
        assert(a < g.nodes@.len()) by {
            let w = choose|w: int|
                0 <= w < g.nodes@.len() && g.nodes@[w].id == g.elements@[gi].nodes@[0];
            assert(g.nodes@[a].id == g.elements@[gi].nodes@[0]);
        }
    }
    // the reference equation reads x[a] == 0
    lemma_unit_dot(sm[0]@, x, a, sm[0]@.len() as int);
    assert(rat_eq(row_times(sm[0]@, x), x[a]@));
    assert(rat_eq(row_times(sm[0]@, x), sv[0]@));
    lemma_dot_prefix_wf(sm[0]@, x, sm[0]@.len() as int);
    assert(rat_eq(x[a]@, row_times(sm[0]@, x))) by {
        let rt = row_times(sm[0]@, x);
        assert((x[a]@).0 * rt.1 == rt.0 * (x[a]@).1);
    }
    lemma_rat_eq_trans(x[a]@, row_times(sm[0]@, x), sv[0]@);
    lemma_reference_row(g.elements@, g.nodes@, nn, 0, a);
    lemma_asm_wf(g.elements@, g.nodes@, nn, 0, 0);
    lemma_rat_eq_trans(x[a]@, sv[0]@, asm_v(g.elements@, g.nodes@, nn, 0));
    lemma_rat_eq_trans(x[a]@, asm_v(g.elements@, g.nodes@, nn, 0), rat_zero());
    assert((x[a]@).0 * 1 == 0 * (x[a]@).1);
}

/// With exactly one ground element, two ground indices coincide.
proof fn lemma_single_ground(elements: Seq<Element>, g1: int, g2: int)
    requires
        0 <= g1 < elements.len(),
        0 <= g2 < elements.len(),
        elements[g1].kind is Ground,
        elements[g2].kind is Ground,
        ground_count(elements) == 1,
    ensures
        g1 == g2,
    decreases elements.len(),
{
    lemma_ground_count_bounds(elements);
    if g1 != g2 {
        lemma_ground_count_two(elements, g1, g2);
    }
}

/// The ground count is at least 1 for every index holding a ground, and
/// at least 2 for two distinct such indices.
proof fn lemma_ground_count_two(elements: Seq<Element>, g1: int, g2: int)
    requires
        0 <= g1 < g2 < elements.len() || 0 <= g2 < g1 < elements.len(),
        elements[g1].kind is Ground,
        elements[g2].kind is Ground,
    ensures
        ground_count(elements) >= 2,
    decreases elements.len(),
{
    let lo: int = if g1 < g2 {
        g1
    } else {
        g2
    };
    let hi: int = if g1 < g2 {
        g2
    } else {
        g1
    };
    if hi == elements.len() - 1 {
        lemma_ground_count_one(elements.drop_last(), lo);
    } else {
        lemma_ground_count_two(elements.drop_last(), lo, hi);
        lemma_ground_count_bounds(elements);
    }
}

/// A collection holding a ground at some index counts at least one.
proof fn lemma_ground_count_one(elements: Seq<Element>, gi: int)
    requires
        0 <= gi < elements.len(),
        elements[gi].kind is Ground,
    ensures
        ground_count(elements) >= 1,
    decreases elements.len(),
{
    if gi < elements.len() - 1 {
        lemma_ground_count_one(elements.drop_last(), gi);
        lemma_ground_count_bounds(elements);
    } else {
        lemma_ground_count_bounds(elements.drop_last());
    }
}

/// The ground count is never negative.
proof fn lemma_ground_count_bounds(elements: Seq<Element>)
    ensures
        ground_count(elements) >= 0,
    decreases elements.len(),
{
    if elements.len() > 0 {
        lemma_ground_count_bounds(elements.drop_last());
    }
}

} // verus!
