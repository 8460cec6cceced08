//! Linear solving over exact rationals.
//!
//! The assembled system is solved by Gaussian elimination with exact
//! arithmetic, so rank deficiency is detected exactly instead of showing
//! up as numeric noise.  A candidate solution is only ever reported after
//! an independent, verified multiplication check, so `Solved` carries a
//! vector that provably satisfies every equation of the system.

use vstd::prelude::*;
use crate::rational::Rational;
use crate::rational::rat_add;
use crate::rational::rat_eq;
use crate::rational::rat_is_zero;
use crate::rational::rat_mul;
use crate::rational::rat_wf;
use crate::rational::rat_zero;
use crate::rational::lemma_rat_add_congr;
use crate::rational::lemma_rat_eq_trans;

verus! {

/// Every entry of the vector is a well-formed rational.
pub open spec fn vec_wf(v: Seq<Rational>) -> bool {
    forall|i: int| 0 <= i < v.len() ==> (#[trigger] v[i]).wf()
}

/// A square matrix of well-formed rationals.
pub open spec fn matrix_wf(m: Seq<Vec<Rational>>, dim: int) -> bool {
    &&& m.len() == dim
    &&& forall|i: int| 0 <= i < m.len() ==> (#[trigger] m[i])@.len() == dim
    &&& forall|i: int| 0 <= i < m.len() ==> vec_wf((#[trigger] m[i])@)
}

/// The value of the first `k` terms of the scalar product of a row with
/// the vector `x`.
pub open spec fn dot_prefix(row: Seq<Rational>, x: Seq<Rational>, k: int) -> (int, int)
    decreases k,
{
    if k <= 0 {
        rat_zero()
    } else {
        rat_add(dot_prefix(row, x, k - 1), rat_mul(row[k - 1]@, x[k - 1]@))
    }
}

/// The scalar product of a row with the vector `x`.
pub open spec fn row_times(row: Seq<Rational>, x: Seq<Rational>) -> (int, int) {
    dot_prefix(row, x, row.len() as int)
}

/// `x` satisfies every equation of the system `m · x = b`.
pub open spec fn is_solution(m: Seq<Vec<Rational>>, b: Seq<Rational>, x: Seq<Rational>) -> bool {
    forall|i: int| 0 <= i < m.len() ==> rat_eq(row_times((#[trigger] m[i])@, x), b[i]@)
}

/// A partial scalar product of well-formed rationals is well-formed.
pub proof fn lemma_dot_prefix_wf(row: Seq<Rational>, x: Seq<Rational>, k: int)
    requires
        k <= row.len(),
        k <= x.len(),
        vec_wf(row),
        vec_wf(x),
    ensures
        rat_wf(dot_prefix(row, x, k)),
    decreases k,
{
    if k > 0 {
        lemma_dot_prefix_wf(row, x, k - 1);
        let d = dot_prefix(row, x, k - 1);
        assert((row[k - 1]@).1 >= 1 && (x[k - 1]@).1 >= 1);
        assert(d.1 * ((row[k - 1]@).1 * (x[k - 1]@).1) >= 1) by (nonlinear_arith)
            requires
                d.1 >= 1,
                (row[k - 1]@).1 >= 1,
                (x[k - 1]@).1 >= 1,
        ;
    }
}

/// Two exact solutions of the system that disagree in some entry: the
/// certificate that the system has no unique solution.
pub open spec fn distinct_solutions(
    m: Seq<Vec<Rational>>,
    b: Seq<Rational>,
    x1: Seq<Rational>,
    x2: Seq<Rational>,
) -> bool {
    &&& x1.len() == b.len()
    &&& x2.len() == b.len()
    &&& vec_wf(x1)
    &&& vec_wf(x2)
    &&& is_solution(m, b, x1)
    &&& is_solution(m, b, x2)
    &&& exists|j: int| 0 <= j < x1.len() && !rat_eq((#[trigger] x1[j])@, x2[j]@)
}

/// The system admits two value-distinct exact solutions.
pub open spec fn multiple_solutions(m: Seq<Vec<Rational>>, b: Seq<Rational>) -> bool {
    exists|x1: Seq<Rational>, x2: Seq<Rational>| #[trigger] distinct_solutions(m, b, x1, x2)
}

/// The result of a solve.  `Solved` carries a vector that exactly
/// satisfies every equation; `NoUniqueSolution` is reported only when two
/// value-distinct exact solutions exist (a floating sub-circuit);
/// `Inconsistent` when elimination derived an unsatisfiable equation, so
/// no exact solution was found (this report carries no certificate);
/// `OutOfRange` when an exact intermediate value left the representable
/// range.
pub enum SolveOutcome {
    Solved(Vec<Rational>),
    NoUniqueSolution,
    Inconsistent,
    OutOfRange,
}

/// The exact scalar product of a row with `x`; fails only when an
/// intermediate value leaves the representable range.
fn row_dot(row: &Vec<Rational>, x: &Vec<Rational>) -> (r: Option<Rational>)
    requires
        row@.len() == x@.len(),
        vec_wf(row@),
        vec_wf(x@),
    ensures
        r matches Some(s) ==> s.wf() && rat_eq(s@, row_times(row@, x@)),
{
    let mut acc = Rational::zero();
    let mut k: usize = 0;
    while k < row.len()
        invariant
            k <= row@.len(),
            row@.len() == x@.len(),
            vec_wf(row@),
            vec_wf(x@),
            acc.wf(),
            rat_eq(acc@, dot_prefix(row@, x@, k as int)),
        decreases row@.len() - k,
    {
        let term = match row[k].mul(x[k]) {
            Some(t) => t,
            None => {
                return None;
            },
        };
        let next = match acc.add(term) {
            Some(t) => t,
            None => {
                return None;
            },
        };
        proof {
            lemma_dot_prefix_wf(row@, x@, k as int);
            lemma_rat_add_congr(
                acc@,
                dot_prefix(row@, x@, k as int),
                term@,
                rat_mul(row@[k as int]@, x@[k as int]@),
            );
            assert(acc@.1 * term@.1 >= 1) by (nonlinear_arith)
                requires
                    acc@.1 >= 1,
                    term@.1 >= 1,
            ;
            lemma_rat_eq_trans(
                next@,
                rat_add(acc@, term@),
                dot_prefix(row@, x@, (k + 1) as int),
            );
        }
        acc = next;
        k += 1;
    }
    Some(acc)
}

/// Verified check that `x` solves `m · x = b` exactly.
pub fn check_solution(m: &Vec<Vec<Rational>>, b: &Vec<Rational>, x: &Vec<Rational>) -> (r: Option<
    bool,
>)
    requires
        m@.len() == b@.len(),
        forall|i: int| 0 <= i < m@.len() ==> (#[trigger] m@[i])@.len() == x@.len(),
        forall|i: int| 0 <= i < m@.len() ==> vec_wf((#[trigger] m@[i])@),
        vec_wf(b@),
        vec_wf(x@),
    ensures
        r matches Some(ok) ==> ok == is_solution(m@, b@, x@),
{
    let mut i: usize = 0;
    while i < m.len()
        invariant
            i <= m@.len(),
            m@.len() == b@.len(),
            forall|t: int| 0 <= t < m@.len() ==> (#[trigger] m@[t])@.len() == x@.len(),
            forall|t: int| 0 <= t < m@.len() ==> vec_wf((#[trigger] m@[t])@),
            vec_wf(b@),
            vec_wf(x@),
            forall|t: int| 0 <= t < i ==> rat_eq(row_times((#[trigger] m@[t])@, x@), b@[t]@),
        decreases m@.len() - i,
    {
        let s = match row_dot(&m[i], x) {
            Some(s) => s,
            None => {
                return None;
            },
        };
        if !s.eq_value(b[i]) {
            proof {
                // the stated equation fails: transitivity through s
                lemma_dot_prefix_wf(m@[i as int]@, x@, x@.len() as int);
                if rat_eq(row_times(m@[i as int]@, x@), b@[i as int]@) {
                    lemma_rat_eq_trans(s@, row_times(m@[i as int]@, x@), b@[i as int]@);
                }
            }
            return Some(false);
        }
        proof {
            lemma_dot_prefix_wf(m@[i as int]@, x@, x@.len() as int);
            assert(rat_eq(row_times(m@[i as int]@, x@), s@)) by {
                assert(s@.0 * row_times(m@[i as int]@, x@).1 == row_times(m@[i as int]@, x@).0
                    * s@.1);
            }
            lemma_rat_eq_trans(row_times(m@[i as int]@, x@), s@, b@[i as int]@);
        }
        i += 1;
    }
    Some(true)
}

/// An owned copy of a row (rationals are plain values).
fn copy_row(row: &Vec<Rational>) -> (r: Vec<Rational>)
    ensures
        r@ == row@,
{
    let mut r: Vec<Rational> = Vec::new();
    let mut k: usize = 0;
    while k < row.len()
        invariant
            k <= row@.len(),
            r@ == row@.take(k as int),
        decreases row@.len() - k,
    {
        r.push(row[k]);
        proof {
            assert(r@ =~= row@.take((k + 1) as int));
        }
        k += 1;
    }
    proof {
        assert(row@.take(row@.len() as int) =~= row@);
    }
    r
}

/// Whether a plain index list contains the given index.
fn cols_contain(cols: &Vec<usize>, j: usize) -> (r: bool)
    ensures
        r == cols@.contains(j),
{
    let mut i: usize = 0;
    while i < cols.len()
        invariant
            i <= cols@.len(),
            forall|t: int| 0 <= t < i ==> cols@[t] != j,
        decreases cols@.len() - i,
    {
        if cols[i] == j {
            return true;
        }
        i += 1;
    }
    false
}

/// Back substitution over the echelon form: every column without a pivot
/// is a free variable, held at zero — except the chosen one, held at one
/// (pass `n` to choose none) — and the pivot variables are solved from
/// the pivot rows in reverse order.
#[verifier::loop_isolation(false)]
fn solve_with_free(
    aug: &Vec<Vec<Rational>>,
    pivots: &Vec<usize>,
    n: usize,
    free_col: usize,
) -> (r: Option<Vec<Rational>>)
    requires
        aug@.len() == n,
        forall|t: int| 0 <= t < n ==> (#[trigger] aug@[t])@.len() == n + 1,
        forall|t: int| 0 <= t < n ==> vec_wf((#[trigger] aug@[t])@),
        pivots@.len() <= n,
        forall|t: int| 0 <= t < pivots@.len() ==> (#[trigger] pivots@[t]) < n,
        forall|t: int|
            0 <= t < pivots@.len() ==> !rat_is_zero(aug@[t]@[#[trigger] pivots@[t] as int]@),
        free_col <= n,
    ensures
        r matches Some(x) ==> {
            &&& x@.len() == n
            &&& vec_wf(x@)
            &&& (free_col < n && !pivots@.contains(free_col) ==> x@[free_col as int]@
                == crate::rational::rat_one())
            &&& forall|j: int|
                0 <= j < n && !pivots@.contains(j as usize) && j != free_col
                    ==> (#[trigger] x@[j])@ == rat_zero()
        },
{
    let mut x: Vec<Rational> = Vec::new();
    let mut k: usize = 0;
    while k < n
        invariant
            k <= n,
            x@.len() == k,
            forall|j: int| 0 <= j < k ==> (#[trigger] x@[j])@ == rat_zero(),
        decreases n - k,
    {
        x.push(Rational::zero());
        k += 1;
    }
    if free_col < n {
        x[free_col] = Rational::from_int(1);
    }
    let mut pr: usize = pivots.len();
    while pr > 0
        invariant
            pr <= pivots@.len(),
            x@.len() == n,
            vec_wf(x@),
            free_col < n ==> x@[free_col as int]@ == crate::rational::rat_one() || pivots@.contains(
                free_col,
            ),
            forall|j: int|
                0 <= j < n && !pivots@.contains(j as usize) && j != free_col
                    ==> (#[trigger] x@[j])@ == rat_zero(),
        decreases pr,
    {
        pr -= 1;
        let c = pivots[pr];
        let mut acc = aug[pr][n];
        let mut j: usize = c + 1;
        while j < n
            invariant
                c < j <= n || j == c + 1,
                pr < pivots@.len(),
                c == pivots@[pr as int],
                acc.wf(),
                x@.len() == n,
                vec_wf(x@),
            decreases n - j,
        {
            let scaled = match aug[pr][j].mul(x[j]) {
                Some(v) => v,
                None => {
                    return None;
                },
            };
            acc = match acc.sub(scaled) {
                Some(v) => v,
                None => {
                    return None;
                },
            };
            j += 1;
        }
        let xi = match acc.div(aug[pr][c]) {
            Some(v) => v,
            None => {
                return None;
            },
        };
        let ghost pre = x@;
        x[c] = xi;
        proof {
            assert(pivots@.contains(c)) by {
                assert(pivots@[pr as int] == c);
            }
            assert forall|j2: int|
                0 <= j2 < n && !pivots@.contains(j2 as usize) && j2 != free_col implies (
            #[trigger] x@[j2])@ == rat_zero() by {
                assert(j2 != c as int);
                assert(x@[j2] == pre[j2]);
            }
        }
    }
    Some(x)
}

/// Solve the square system `m · x = b` by Gaussian elimination over exact
/// rationals.
///
/// Every verdict that claims something is gated behind a verified check:
/// a vector is reported as `Solved` only after a multiplication check, so
/// it satisfies every equation exactly; `NoUniqueSolution` is reported
/// only after two value-distinct vectors have both passed that check, so
/// the system provably has no unique solution.  `Inconsistent` reports an
/// unsatisfiable system (elimination derived a contradictory equation)
/// and `OutOfRange` an exact intermediate value that cannot be
/// represented; neither of those two carries a certificate.
#[verifier::rlimit(50)]
#[verifier::loop_isolation(false)]
pub fn solve_system(m: &Vec<Vec<Rational>>, b: &Vec<Rational>) -> (r: SolveOutcome)
    requires
        matrix_wf(m@, m@.len() as int),
        b@.len() == m@.len(),
        vec_wf(b@),
        m@.len() < usize::MAX,
    ensures
        r matches SolveOutcome::Solved(x) ==> x@.len() == b@.len() && vec_wf(x@) && is_solution(
            m@,
            b@,
            x@,
        ),
        r is NoUniqueSolution ==> multiple_solutions(m@, b@),
{
    let n = m.len();
    // the augmented working copy: each row of m with its entry of b
    let mut aug: Vec<Vec<Rational>> = Vec::new();
    let mut i: usize = 0;
    while i < n
        invariant
            i <= n,
            aug@.len() == i,
            forall|t: int| 0 <= t < i ==> (#[trigger] aug@[t])@.len() == n + 1,
            forall|t: int| 0 <= t < i ==> vec_wf((#[trigger] aug@[t])@),
        decreases n - i,
    {
        let mut row = copy_row(&m[i]);
        row.push(b[i]);
        aug.push(row);
        i += 1;
    }
    // forward elimination: walk the columns, keeping one pivot row per
    // independent column and leaving the dependent columns free
    let mut pivots: Vec<usize> = Vec::new();
    let mut row: usize = 0;
    let mut col: usize = 0;
    while col < n
        invariant
            col <= n,
            row == pivots@.len(),
            row <= col,
            aug@.len() == n,
            forall|t: int| 0 <= t < n ==> (#[trigger] aug@[t])@.len() == n + 1,
            forall|t: int| 0 <= t < n ==> vec_wf((#[trigger] aug@[t])@),
            forall|t: int| 0 <= t < pivots@.len() ==> (#[trigger] pivots@[t]) < col,
            forall|t: int| 0 <= t < pivots@.len() ==> (#[trigger] pivots@[t]) >= t,
            forall|t1: int, t2: int|
                0 <= t1 < t2 < pivots@.len() ==> (#[trigger] pivots@[t1]) < (
                #[trigger] pivots@[t2]),
            forall|t: int|
                0 <= t < pivots@.len() ==> !rat_is_zero(aug@[t]@[#[trigger] pivots@[t] as int]@),
        decreases n - col,
    {
        // find a row at or below the next pivot row with a nonzero entry
        let mut p: usize = row;
        let mut found = false;
        while p < n && !found
            invariant
                row <= p <= n,
                found ==> p < n && !rat_is_zero(aug@[p as int]@[col as int]@),
            decreases n - p, (if found { 0int } else { 1int }),
        {
            if !aug[p][col].is_zero() {
                found = true;
            } else {
                p += 1;
            }
        }
        if found {
            if p != row {
                let row_p = copy_row(&aug[p]);
                let row_c = copy_row(&aug[row]);
                aug[p] = row_c;
                aug[row] = row_p;
            }
            // clear the column below the pivot
            let mut r2: usize = row + 1;
            while r2 < n
                invariant
                    row < r2 <= n,
                    row < n,
                    col < n,
                    aug@.len() == n,
                    forall|t: int| 0 <= t < n ==> (#[trigger] aug@[t])@.len() == n + 1,
                    forall|t: int| 0 <= t < n ==> vec_wf((#[trigger] aug@[t])@),
                    forall|t: int|
                        0 <= t < pivots@.len() ==> !rat_is_zero(aug@[t]@[
                            #[trigger] pivots@[t] as int
                        ]@),
                    !rat_is_zero(aug@[row as int]@[col as int]@),
                decreases n - r2,
            {
                if !aug[r2][col].is_zero() {
                    let factor = match aug[r2][col].div(aug[row][col]) {
                        Some(f) => f,
                        None => {
                            return SolveOutcome::OutOfRange;
                        },
                    };
                    let mut c2: usize = 0;
                    let mut new_row: Vec<Rational> = Vec::new();
                    while c2 < n + 1
                        invariant
                            c2 <= n + 1,
                            r2 < n,
                            row < n,
                            col < n,
                            factor.wf(),
                            aug@.len() == n,
                            forall|t: int| 0 <= t < n ==> (#[trigger] aug@[t])@.len() == n + 1,
                            forall|t: int| 0 <= t < n ==> vec_wf((#[trigger] aug@[t])@),
                            new_row@.len() == c2,
                            vec_wf(new_row@),
                        decreases n + 1 - c2,
                    {
                        let scaled = match factor.mul(aug[row][c2]) {
                            Some(v) => v,
                            None => {
                                return SolveOutcome::OutOfRange;
                            },
                        };
                        let v = match aug[r2][c2].sub(scaled) {
                            Some(v) => v,
                            None => {
                                return SolveOutcome::OutOfRange;
                            },
                        };
                        new_row.push(v);
                        c2 += 1;
                    }
                    let ghost before = aug@;
                    aug[r2] = new_row;
                    proof {
                        assert forall|t: int|
                            0 <= t < pivots@.len() implies !rat_is_zero(aug@[t]@[
                            #[trigger] pivots@[t] as int
                        ]@) by {
                            assert(t < r2 as int);
                            assert(aug@[t] == before[t]);
                        }
                    }
                }
                r2 += 1;
            }
            pivots.push(col);
            proof {
                assert(pivots@[row as int] == col);
            }
            row += 1;
        }
        col += 1;
    }
    if pivots.len() == n {
        // one pivot per column: at most one solution can exist
        let x = match solve_with_free(&aug, &pivots, n, n) {
            Some(x) => x,
            None => {
                return SolveOutcome::OutOfRange;
            },
        };
        match check_solution(m, b, &x) {
            Some(true) => SolveOutcome::Solved(x),
            Some(false) => SolveOutcome::Inconsistent,
            None => SolveOutcome::OutOfRange,
        }
    } else {
        // a column without a pivot is a free variable: build one solution
        // with it at zero and one with it at one, and certify both
        let mut fc: usize = 0;
        while fc < pivots.len() && pivots[fc] == fc
            invariant
                fc <= pivots@.len(),
                forall|t: int| 0 <= t < fc ==> (#[trigger] pivots@[t]) == t,
            decreases pivots@.len() - fc,
        {
            fc += 1;
        }
        proof {
            // the column fc has no pivot: earlier pivots sit at their own
            // columns below fc, later ones beyond fc
            assert(!pivots@.contains(fc)) by {
                if pivots@.contains(fc) {
                    let t = choose|t: int| 0 <= t < pivots@.len() && pivots@[t] == fc;
                    if fc < pivots@.len() {
                        assert(pivots@[fc as int] > fc);
                        if t > fc as int {
                            assert(pivots@[fc as int] < pivots@[t]);
                        }
                    }
                }
            }
            assert(fc < n) by {
                assert(pivots@.len() < n);
                if fc < pivots@.len() {
                } else {
                    assert(fc == pivots@.len());
                }
            }
        }
        let x0 = match solve_with_free(&aug, &pivots, n, n) {
            Some(x) => x,
            None => {
                return SolveOutcome::OutOfRange;
            },
        };
        let x1 = match solve_with_free(&aug, &pivots, n, fc) {
            Some(x) => x,
            None => {
                return SolveOutcome::OutOfRange;
            },
        };
        let ok0 = match check_solution(m, b, &x0) {
            Some(ok) => ok,
            None => {
                return SolveOutcome::OutOfRange;
            },
        };
        let ok1 = match check_solution(m, b, &x1) {
            Some(ok) => ok,
            None => {
                return SolveOutcome::OutOfRange;
            },
        };
        if ok0 && ok1 {
            proof {
                // the two certified solutions differ at the free column
                assert(x0@[fc as int]@ == rat_zero());
                assert(x1@[fc as int]@ == crate::rational::rat_one());
                assert(!rat_eq(x0@[fc as int]@, x1@[fc as int]@));
                assert(distinct_solutions(m@, b@, x0@, x1@));
            }
            SolveOutcome::NoUniqueSolution
        } else {
            SolveOutcome::Inconsistent
        }
    }
}

} // verus!
