//! Row reduction of matrices whose entries are expressions.
//!
//! The reduction is Gauss-Jordan elimination in which the entries are never
//! evaluated: rows are scaled and subtracted as trees, and a pivot is the
//! first entry of a row that the zero test of the simplifier does not
//! recognise as zero.
//!
//! The forward phase is not the textbook one. Below a pivot it does not
//! subtract a multiple of the pivot row; it first divides the row below by
//! its own entry in the pivot column and then subtracts the pivot row. The
//! backward phase is the usual back-substitution.

use crate::canonical::{lemma_collect_constant, lemma_zero_is_unique};
use crate::expr::{ExprView, Expression};
use crate::rational::{
    Rational, lemma_product_minus_one, lemma_product_one_left, lemma_product_one_right,
    lemma_product_reciprocal, lemma_reciprocal_wf, lemma_sum_negation, lemma_units_wf, negation,
    reciprocal,
};
use crate::simplify::{all_wf, models};
use vstd::prelude::*;

verus! {

/// One row of a matrix: the coefficients of one equation.
pub type Row = Vec<Expression>;

/// A matrix, row by row.
pub type Matrix = Vec<Row>;

/// The model of a matrix: the models of its entries.
pub open spec fn matrix_model(m: Seq<Row>) -> Seq<Seq<ExprView>> {
    m.map_values(|r: Row| models(r@))
}

/// Every entry of the matrix is well-formed.
pub open spec fn matrix_wf(m: Seq<Row>) -> bool {
    forall|i: int| 0 <= i < m.len() ==> all_wf((#[trigger] m[i])@)
}

/// All rows have the given length.
pub open spec fn has_width(m: Seq<Seq<ExprView>>, width: nat) -> bool {
    forall|i: int| 0 <= i < m.len() ==> (#[trigger] m[i]).len() == width
}

/// All rows have the same length.
pub open spec fn rectangular(m: Seq<Seq<ExprView>>) -> bool {
    forall|i: int, j: int|
        0 <= i < m.len() && 0 <= j < m.len() ==> (#[trigger] m[i]).len() == (#[trigger] m[j]).len()
}

/// The matrix of constants that stands for a table of integers.
pub open spec fn integer_matrix(v: Seq<Vec<i32>>) -> Seq<Seq<ExprView>> {
    v.map_values(|r: Vec<i32>| r@.map_values(|x: i32| ExprView::Val(Rational::integer(x))))
}

/// The row with every entry multiplied from the left by `factor`.
pub open spec fn scaled(row: Seq<ExprView>, factor: ExprView) -> Seq<ExprView> {
    row.map_values(|t: ExprView| factor.times(t))
}

/// The row `r - s`, entry by entry, as long as `r`.
pub open spec fn difference(r: Seq<ExprView>, s: Seq<ExprView>) -> Seq<ExprView> {
    Seq::new(r.len(), |i: int| r[i].minus(s[i]))
}

/// The first column at or after `from` whose entry is not zero.
///
/// The outer `Option` is `None` where a zero test is undefined; the inner
/// one is `None` where every entry from `from` on is zero.
pub open spec fn pivot_from(row: Seq<ExprView>, from: nat) -> Option<Option<nat>>
    decreases row.len() - from,
{
    if from >= row.len() {
        Some(None)
    } else {
        match row[from as int].is_zero() {
            None => None,
            Some(false) => Some(Some(from)),
            Some(true) => pivot_from(row, from + 1),
        }
    }
}

/// The pivot column of a row: the first whose entry is not zero.
pub open spec fn pivot(row: Seq<ExprView>) -> Option<Option<nat>> {
    pivot_from(row, 0)
}

/// Row `k` after the rows below row `i` were cleared in column `j`.
///
/// A row below `i` whose entry in column `j` is not zero is divided by that
/// entry, and row `i` is subtracted from it. Every other row stays.
pub open spec fn cleared_below(m: Seq<Seq<ExprView>>, i: int, j: int, k: int) -> Seq<ExprView> {
    if k <= i || m[k][j].is_zero() == Some(true) {
        m[k]
    } else {
        difference(scaled(m[k], ExprView::one().over(m[k][j])), m[i])
    }
}

/// The matrix after the rows below row `i` were cleared in column `j`;
/// `None` where the zero test of an entry of that column is undefined.
pub open spec fn clear_below(m: Seq<Seq<ExprView>>, i: int, j: int) -> Option<Seq<Seq<ExprView>>> {
    if forall|k: int| i < k < m.len() ==> (#[trigger] m[k])[j].is_zero() is Some {
        Some(Seq::new(m.len(), |k: int| cleared_below(m, i, j, k)))
    } else {
        None
    }
}

/// One step of the forward phase, on row `i`.
///
/// A row without a pivot is passed over. Otherwise the row is divided by
/// its pivot, and the rows below are cleared in the pivot's column.
pub open spec fn forward_step(m: Seq<Seq<ExprView>>, i: int) -> Option<Seq<Seq<ExprView>>> {
    match pivot(m[i]) {
        None => None,
        Some(None) => Some(m),
        Some(Some(j)) => clear_below(
            m.update(i, scaled(m[i], ExprView::one().over(m[i][j as int]))),
            i,
            j as int,
        ),
    }
}

/// The forward phase on the first `n` rows, from the first down.
pub open spec fn forward(m: Seq<Seq<ExprView>>, n: nat) -> Option<Seq<Seq<ExprView>>>
    decreases n,
{
    if n == 0 {
        Some(m)
    } else {
        match forward(m, (n - 1) as nat) {
            Some(prev) => forward_step(prev, n - 1),
            None => None,
        }
    }
}

/// Row `k` after the rows above row `i` were cleared in column `j`: from a
/// row above `i`, row `i` times that row's entry in column `j` is subtracted.
pub open spec fn cleared_above(m: Seq<Seq<ExprView>>, i: int, j: int, k: int) -> Seq<ExprView> {
    if i <= k {
        m[k]
    } else {
        difference(m[k], scaled(m[i], m[k][j]))
    }
}

/// One step of the backward phase, on row `i`: a row without a pivot is
/// passed over; otherwise the rows above are cleared in the pivot's column.
pub open spec fn backward_step(m: Seq<Seq<ExprView>>, i: int) -> Option<Seq<Seq<ExprView>>> {
    match pivot(m[i]) {
        None => None,
        Some(None) => Some(m),
        Some(Some(j)) => Some(Seq::new(m.len(), |k: int| cleared_above(m, i, j as int, k))),
    }
}

/// The backward phase on the rows from the last up to row `i`.
pub open spec fn backward(m: Seq<Seq<ExprView>>, i: nat) -> Option<Seq<Seq<ExprView>>>
    decreases m.len() - i,
{
    if i >= m.len() {
        Some(m)
    } else {
        match backward(m, i + 1) {
            Some(prev) => backward_step(prev, i as int),
            None => None,
        }
    }
}

/// The reduced matrix: the forward phase on every row, then the backward
/// phase on every row but the first.
pub open spec fn reduced(m: Seq<Seq<ExprView>>) -> Option<Seq<Seq<ExprView>>> {
    match forward(m, m.len()) {
        Some(f) => backward(f, 1),
        None => None,
    }
}

/// If the forward phase is defined on `n` rows, it is defined on fewer.
pub proof fn lemma_forward_prefix(m: Seq<Seq<ExprView>>, n: nat, k: nat)
    requires
        k <= n,
        forward(m, n) is Some,
    ensures
        forward(m, k) is Some,
    decreases n - k,
{
    if k < n {
        lemma_forward_prefix(m, n, k + 1);
    }
}

/// If the backward phase is defined up to row `i`, it is defined up to any
/// later row.
pub proof fn lemma_backward_suffix(m: Seq<Seq<ExprView>>, i: nat, k: nat)
    requires
        i <= k,
        backward(m, i) is Some,
    ensures
        backward(m, k) is Some,
    decreases k - i,
{
    if i < k && i < m.len() {
        lemma_backward_suffix(m, i + 1, k);
    }
}

/// A pivot lies within the row, at or after where the search began.
pub proof fn lemma_pivot_within(row: Seq<ExprView>, from: nat)
    ensures
        pivot_from(row, from) matches Some(Some(j)) ==> from <= j < row.len() && row[j as int].is_zero()
            == Some(false),
    decreases row.len() - from,
{
    if from < row.len() {
        lemma_pivot_within(row, from + 1);
    }
}

/// An entry that rewrites to a constant other than zero, divided by
/// itself, rewrites to the constant one.
pub proof fn lemma_entry_over_itself(p: ExprView, c: Rational)
    requires
        p.rewrite() == Some(ExprView::Val(c)),
        reciprocal(c) is Some,
    ensures
        ExprView::one().over(p).times(p).rewrite() == Some(ExprView::one()),
        ExprView::one().over(p).times(p).simplify() == Some(ExprView::one()),
{
    let rc = reciprocal(c).unwrap();
    lemma_reciprocal_wf(c);
    lemma_product_one_left(rc);
    lemma_product_reciprocal(c);
    lemma_units_wf();
    reveal_with_fuel(ExprView::rewrite, 3);
    lemma_collect_constant(Rational::one_spec());
}

/// An entry that rewrites to a constant other than zero, divided by itself
/// and less an entry that rewrites to one, is zero in canonical form.
pub proof fn lemma_entry_less_one(q: ExprView, c: Rational, u: ExprView)
    requires
        q.rewrite() == Some(ExprView::Val(c)),
        reciprocal(c) is Some,
        u.rewrite() == Some(ExprView::one()),
    ensures
        ExprView::one().over(q).times(q).minus(u).simplify() == Some(ExprView::zero()),
{
    lemma_entry_over_itself(q, c);
    lemma_units_wf();
    lemma_product_one_left(Rational::integer(-1i32));
    lemma_sum_negation(Rational::one_spec());
    assert(negation(Rational::one_spec()) == Rational::integer(-1i32));
    let minus_one = ExprView::Val(Rational::integer(-1i32));
    assert(u.times(minus_one).rewrite() == Some(minus_one)) by {
        reveal_with_fuel(ExprView::rewrite, 2);
    }
    lemma_collect_constant(Rational::zero_spec());
}

/// An entry that rewrites to a constant, less itself times an entry that
/// rewrites to one, is zero in canonical form.
pub proof fn lemma_entry_less_itself(x: ExprView, c: Rational, u: ExprView)
    requires
        x.rewrite() == Some(ExprView::Val(c)),
        c.wf(),
        c.numer != i32::MIN,
        u.rewrite() == Some(ExprView::one()),
    ensures
        x.minus(x.times(u)).simplify() == Some(ExprView::zero()),
{
    lemma_units_wf();
    lemma_product_one_right(c);
    lemma_product_minus_one(c);
    lemma_sum_negation(c);
    reveal_with_fuel(ExprView::rewrite, 3);
    lemma_collect_constant(Rational::zero_spec());
}

/// A forward step clears a column of constants: where the pivot and the
/// entry below it in row `k` rewrite to constants, the step leaves the
/// constant one at the pivot and the constant zero below it, in canonical
/// form.
pub proof fn lemma_forward_step_clears(
    m: Seq<Seq<ExprView>>,
    i: int,
    j: int,
    k: int,
    c: Rational,
    d: Rational,
)
    requires
        0 <= i < k < m.len(),
        0 <= j < m[i].len(),
        j < m[k].len(),
        pivot(m[i]) == Some(Some(j as nat)),
        forward_step(m, i) is Some,
        m[i][j].rewrite() == Some(ExprView::Val(c)),
        m[k][j].rewrite() == Some(ExprView::Val(d)),
        c.wf() && c.numer != i32::MIN,
        d.wf() && d.numer != i32::MIN,
    ensures
        forward_step(m, i).unwrap()[i][j].simplify() == Some(ExprView::one()),
        forward_step(m, i).unwrap()[k][j].simplify() == Some(ExprView::zero()),
{
    let p = m[i][j];
    let q = m[k][j];
    let factor = ExprView::one().over(p);
    let mid = m.update(i, scaled(m[i], factor));
    let after = forward_step(m, i).unwrap();
    lemma_pivot_within(m[i], 0);
    lemma_collect_constant(c);
    lemma_collect_constant(d);
    assert(p.simplify() == Some(ExprView::Val(c)));
    assert(q.simplify() == Some(ExprView::Val(d)));
    assert(c.numer != 0);
    lemma_entry_over_itself(p, c);
    let u = mid[i][j];
    assert(u == factor.times(p));
    assert(after[i] == cleared_below(mid, i, j, i));
    assert(after[k] == cleared_below(mid, i, j, k));
    assert(mid[k] == m[k]);
    if d.numer == 0 {
        lemma_zero_is_unique(d);
    } else {
        lemma_entry_less_one(q, d, u);
        let scaled_row = scaled(m[k], ExprView::one().over(q));
        assert(scaled_row[j] == ExprView::one().over(q).times(q));
        assert(after[k][j] == scaled_row[j].minus(u));
    }
}

/// A backward step clears a column of constants: where the pivot rewrites
/// to one and the entry above it in row `k` rewrites to a constant, the
/// step leaves the constant zero above the pivot, in canonical form.
pub proof fn lemma_backward_step_clears(
    m: Seq<Seq<ExprView>>,
    i: int,
    j: int,
    k: int,
    d: Rational,
)
    requires
        0 <= k < i < m.len(),
        0 <= j < m[i].len(),
        j < m[k].len(),
        pivot(m[i]) == Some(Some(j as nat)),
        m[i][j].rewrite() == Some(ExprView::one()),
        m[k][j].rewrite() == Some(ExprView::Val(d)),
        d.wf() && d.numer != i32::MIN,
    ensures
        backward_step(m, i).unwrap()[k][j].simplify() == Some(ExprView::zero()),
{
    let after = backward_step(m, i).unwrap();
    assert(after[k] == cleared_above(m, i, j, k));
    let scaled_row = scaled(m[i], m[k][j]);
    assert(scaled_row[j] == m[k][j].times(m[i][j]));
    assert(after[k][j] == m[k][j].minus(scaled_row[j]));
    lemma_entry_less_itself(m[k][j], d, m[i][j]);
}

/// The matrix of constants that stands for a table of integers.
pub fn new_matrix(v: Vec<Vec<i32>>) -> (m: Matrix)
    ensures
        matrix_wf(m@),
        matrix_model(m@) == integer_matrix(v@),
{
    let mut m: Matrix = Vec::new();
    let mut i: usize = 0;
    while i < v.len()
        invariant
            i <= v.len(),
            m.len() == i,
            matrix_wf(m@),
            forall|k: int| 0 <= k < i ==> (#[trigger] matrix_model(m@)[k]) == integer_matrix(v@)[k],
        decreases v.len() - i,
    {
        let mut row: Row = Vec::new();
        let mut j: usize = 0;
        while j < v[i].len()
            invariant
                i < v.len(),
                j <= v[i as int].len(),
                row.len() == j,
                all_wf(row@),
                forall|k: int| 0 <= k < j ==> (#[trigger] row[k])@ == ExprView::Val(
                    Rational::integer(v[i as int][k]),
                ),
            decreases v[i as int].len() - j,
        {
            row.push(Expression::Val(Rational::from_integer(v[i][j])));
            j += 1;
        }
        assert(models(row@) =~= integer_matrix(v@)[i as int]);
        let ghost before = matrix_model(m@);
        m.push(row);
        assert(matrix_model(m@) =~= before.push(integer_matrix(v@)[i as int]));
        i += 1;
    }
    assert(matrix_model(m@) =~= integer_matrix(v@));
    m
}

/// Whether the matrix can be reduced: whether its rows have equal length
/// and its entries are well-formed.
pub fn is_well_formed(m: &Matrix) -> (b: bool)
    ensures
        b == (matrix_wf(m@) && rectangular(matrix_model(m@))),
{
    let mut i: usize = 0;
    while i < m.len()
        invariant
            i <= m.len(),
            forall|k: int| 0 <= k < i ==> all_wf((#[trigger] m[k])@),
            forall|k: int| 0 <= k < i ==> (#[trigger] m[k]).len() == m[0].len(),
        decreases m.len() - i,
    {
        if m[i].len() != m[0].len() {
            assert(matrix_model(m@)[i as int].len() != matrix_model(m@)[0].len());
            return false;
        }
        let mut j: usize = 0;
        while j < m[i].len()
            invariant
                i < m.len(),
                j <= m[i as int].len(),
                forall|k: int| 0 <= k < j ==> (#[trigger] m[i as int][k]).wf(),
            decreases m[i as int].len() - j,
        {
            if !m[i][j].is_well_formed() {
                assert(!all_wf(m[i as int]@));
                return false;
            }
            j += 1;
        }
        i += 1;
    }
    assert(rectangular(matrix_model(m@))) by {
        assert forall|a: int, b: int| 0 <= a < m.len() && 0 <= b < m.len() implies (
        #[trigger] matrix_model(m@)[a]).len() == (#[trigger] matrix_model(m@)[b]).len() by {
            assert(m[a].len() == m[0].len() && m[b].len() == m[0].len());
        }
    }
    true
}

/// The row with every entry multiplied from the left by `factor`.
pub fn scale(r: &Row, factor: Expression) -> (out: Row)
    requires
        all_wf(r@),
        factor.wf(),
    ensures
        all_wf(out@),
        out.len() == r.len(),
        models(out@) == scaled(models(r@), factor@),
{
    let mut out: Row = Vec::new();
    let mut i: usize = 0;
    while i < r.len()
        invariant
            i <= r.len(),
            out.len() == i,
            all_wf(r@),
            factor.wf(),
            all_wf(out@),
            forall|k: int| 0 <= k < i ==> (#[trigger] out[k])@ == factor@.times(r[k]@),
        decreases r.len() - i,
    {
        out.push(factor.clone() * r[i].clone());
        i += 1;
    }
    assert(models(out@) =~= scaled(models(r@), factor@));
    out
}

/// The row `r - s`, entry by entry; `s` must be at least as long as `r`.
pub fn subtract(r: &Row, s: &Row) -> (out: Row)
    requires
        all_wf(r@),
        all_wf(s@),
        r.len() <= s.len(),
    ensures
        all_wf(out@),
        out.len() == r.len(),
        models(out@) == difference(models(r@), models(s@)),
{
    let mut out: Row = Vec::new();
    let mut i: usize = 0;
    while i < r.len()
        invariant
            i <= r.len(),
            r.len() <= s.len(),
            out.len() == i,
            all_wf(r@),
            all_wf(s@),
            all_wf(out@),
            forall|k: int| 0 <= k < i ==> (#[trigger] out[k])@ == r[k]@.minus(s[k]@),
        decreases r.len() - i,
    {
        out.push(r[i].clone() - s[i].clone());
        i += 1;
    }
    assert(models(out@) =~= difference(models(r@), models(s@)));
    out
}

/// The pivot column of a row: the first whose entry is not zero, if any;
/// `None` where a zero test on the way is undefined.
pub fn try_find_pivot(row: &Row) -> (p: Option<Option<usize>>)
    requires
        all_wf(row@),
    ensures
        match p {
            Some(Some(j)) => j < row.len() && pivot(models(row@)) == Some(Some(j as nat)),
            Some(None) => pivot(models(row@)) == Some(None::<nat>),
            None => pivot(models(row@)) is None,
        },
{
    let mut j: usize = 0;
    while j < row.len()
        invariant
            j <= row.len(),
            all_wf(row@),
            pivot(models(row@)) == pivot_from(models(row@), j as nat),
        decreases row.len() - j,
    {
        assert(models(row@)[j as int] == row[j as int]@);
        if !row[j].try_is_zero()? {
            return Some(Some(j));
        }
        j += 1;
    }
    Some(None)
}

/// The pivot column of a row: the first whose entry is not zero, if any.
pub fn find_pivot(row: &Row) -> (p: Option<usize>)
    requires
        all_wf(row@),
        pivot(models(row@)) is Some,
    ensures
        match p {
            Some(j) => j < row.len() && pivot(models(row@)) == Some(Some(j as nat)),
            None => pivot(models(row@)) == Some(None::<nat>),
        },
{
    try_find_pivot(row).unwrap()
}

/// Reduces the matrix: the forward phase on every row, then the backward
/// phase on every row but the first. `None` where a zero test that the
/// reduction makes is undefined (see [`reduced`]).
///
/// The rows must have equal length.
pub fn try_reduce(m: Matrix) -> (r: Option<Matrix>)
    requires
        matrix_wf(m@),
        rectangular(matrix_model(m@)),
    ensures
        match r {
            Some(out) => {
                &&& matrix_wf(out@)
                &&& Some(matrix_model(out@)) == reduced(matrix_model(m@))
                &&& out.len() == m.len()
                &&& forall|i: int| 0 <= i < out.len() ==> (#[trigger] out[i]).len() == m[i].len()
            },
            None => reduced(matrix_model(m@)) is None,
        },
{
    let ghost start = matrix_model(m@);
    let ghost width = if m.len() == 0 {
        0
    } else {
        start[0].len()
    };
    let n = m.len();
    assert(has_width(start, width)) by {
        assert forall|k: int| 0 <= k < start.len() implies (#[trigger] start[k]).len() == width by {
            assert(start[k].len() == start[0].len());
        }
    }
    let mut work = m;
    let mut i: usize = 0;
    while i < n
        invariant
            i <= n,
            work.len() == n,
            start == matrix_model(m@),
            start.len() == n,
            matrix_wf(work@),
            has_width(matrix_model(work@), width),
            Some(matrix_model(work@)) == forward(start, i as nat),
        decreases n - i,
    {
        let ghost cur = matrix_model(work@);
        proof {
            if forward(start, n as nat) is Some {
                lemma_forward_prefix(start, n as nat, (i + 1) as nat);
            }
            assert(cur[i as int] == models(work[i as int]@));
        }
        match try_find_pivot(&work[i])? {
            None => {},
            Some(j) => {
                let factor = Expression::Val(Rational::one()) / work[i][j].clone();
                let pivot_row = scale(&work[i], factor);
                work.set(i, pivot_row);
                let ghost mid = matrix_model(work@);
                assert(mid =~= cur.update(
                    i as int,
                    scaled(cur[i as int], ExprView::one().over(cur[i as int][j as int])),
                ));
                let mut k: usize = i + 1;
                while k < n
                    invariant
                        i < k <= n,
                        work.len() == n,
                        mid.len() == n,
                        j < width,
                        start == matrix_model(m@),
                        start.len() == n,
                        forward(start, (i + 1) as nat) == clear_below(mid, i as int, j as int),
                        forward(start, n as nat) is Some ==> forward(start, (i + 1) as nat) is Some,
                        matrix_wf(work@),
                        has_width(mid, width),
                        has_width(matrix_model(work@), width),
                        forall|r: int| i < r < k ==> (#[trigger] mid[r])[j as int].is_zero() is Some,
                        forall|r: int|
                            0 <= r < n ==> (#[trigger] matrix_model(work@)[r]) == if r < k {
                                cleared_below(mid, i as int, j as int, r)
                            } else {
                                mid[r]
                            },
                    decreases n - k,
                {
                    let ghost before = matrix_model(work@);
                    proof {
                        assert(before[k as int] == mid[k as int]);
                        assert(before[i as int] == mid[i as int]);
                        assert(before[k as int] == models(work[k as int]@));
                        assert(before[i as int] == models(work[i as int]@));
                        assert(mid[k as int].len() == width);
                        assert(all_wf(work[k as int]@));
                        assert(work[k as int][j as int].wf());
                        assert(mid[k as int][j as int] == work[k as int][j as int]@);
                    }
                    if !work[k][j].try_is_zero()? {
                        let f = Expression::Val(Rational::one()) / work[k][j].clone();
                        let scaled_row = scale(&work[k], f);
                        let row = subtract(&scaled_row, &work[i]);
                        work.set(k, row);
                        assert(matrix_model(work@) =~= before.update(
                            k as int,
                            cleared_below(mid, i as int, j as int, k as int),
                        ));
                    }
                    k += 1;
                }
                assert(matrix_model(work@) =~= clear_below(mid, i as int, j as int).unwrap());
            },
        }
        i += 1;
    }
    let ghost middle = matrix_model(work@);
    let mut i: usize = n;
    while i > 1
        invariant
            i <= n,
            n >= 1 ==> i >= 1,
            work.len() == n,
            middle.len() == n,
            start == matrix_model(m@),
            start.len() == n,
            forward(start, n as nat) == Some(middle),
            matrix_wf(work@),
            has_width(matrix_model(work@), width),
            Some(matrix_model(work@)) == backward(middle, i as nat),
        decreases i,
    {
        i -= 1;
        let ghost cur = matrix_model(work@);
        proof {
            if backward(middle, 1) is Some {
                lemma_backward_suffix(middle, 1, i as nat);
            }
            assert(cur[i as int] == models(work[i as int]@));
        }
        match try_find_pivot(&work[i])? {
            None => {},
            Some(j) => {
                let mut k: usize = 0;
                while k < i
                    invariant
                        k <= i < n,
                        work.len() == n,
                        cur.len() == n,
                        j < width,
                        matrix_wf(work@),
                        has_width(cur, width),
                        has_width(matrix_model(work@), width),
                        forall|r: int|
                            0 <= r < n ==> (#[trigger] matrix_model(work@)[r]) == if r < k {
                                cleared_above(cur, i as int, j as int, r)
                            } else {
                                cur[r]
                            },
                    decreases i - k,
                {
                    let ghost before = matrix_model(work@);
                    proof {
                        assert(before[k as int] == cur[k as int]);
                        assert(before[i as int] == cur[i as int]);
                        assert(before[k as int] == models(work[k as int]@));
                        assert(before[i as int] == models(work[i as int]@));
                        assert(cur[k as int].len() == width);
                        assert(all_wf(work[k as int]@));
                        assert(work[k as int][j as int].wf());
                    }
                    let scaled_row = scale(&work[i], work[k][j].clone());
                    let row = subtract(&work[k], &scaled_row);
                    work.set(k, row);
                    assert(matrix_model(work@) =~= before.update(
                        k as int,
                        cleared_above(cur, i as int, j as int, k as int),
                    ));
                    k += 1;
                }
                assert(matrix_model(work@) =~= backward_step(cur, i as int).unwrap());
            },
        }
    }
    proof {
        if n == 0 {
            assert(backward(middle, 1) == Some(middle));
        }
        assert forall|k: int| 0 <= k < n implies (#[trigger] work[k]).len() == m[k].len() by {
            assert(matrix_model(work@)[k].len() == width);
            assert(start[k].len() == width);
        }
    }
    Some(work)
}

/// Reduces the matrix: the forward phase on every row, then the backward
/// phase on every row but the first.
///
/// The rows must have equal length, and every zero test that the reduction
/// makes must be defined (see [`reduced`]). [`try_reduce`] tests the
/// latter on the way.
pub fn reduce(m: Matrix) -> (r: Matrix)
    requires
        matrix_wf(m@),
        rectangular(matrix_model(m@)),
        reduced(matrix_model(m@)) is Some,
    ensures
        matrix_wf(r@),
        Some(matrix_model(r@)) == reduced(matrix_model(m@)),
        r.len() == m.len(),
        forall|i: int| 0 <= i < r.len() ==> (#[trigger] r[i]).len() == m[i].len(),
{
    try_reduce(m).unwrap()
}

} // verus!
