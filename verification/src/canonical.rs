//! Canonical form: what simplification guarantees of its result.
//!
//! The main statement is that simplification is idempotent: the canonical
//! form of a canonical form is that same tree. On the way it is shown that
//! names are totally ordered, that the table of totals stays in ascending
//! order, and that the rewritten trees are exactly the fixed points of
//! rewriting.

use crate::expr::ExprView;
use crate::gcd::{gcd, lemma_multiple_divides};
use crate::rational::{
    Rational, lemma_product_one_right, lemma_product_wf, lemma_reciprocal_wf, lemma_sum_wf,
    lemma_sum_zero_left, lemma_units_wf, product, sum,
};
use crate::simplify::{
    Total, accumulate, ascending, constant_term, constant_total, monomials, name_lt, others,
    rank, sum_of, variable_totals,
};
use vstd::prelude::*;

verus! {

/// No name comes before itself.
pub proof fn lemma_name_lt_irreflexive(a: Seq<char>)
    ensures
        !name_lt(a, a),
    decreases a.len(),
{
    if a.len() > 0 {
        lemma_name_lt_irreflexive(a.skip(1));
    }
}

/// The order of names is transitive.
pub proof fn lemma_name_lt_transitive(a: Seq<char>, b: Seq<char>, c: Seq<char>)
    requires
        name_lt(a, b),
        name_lt(b, c),
    ensures
        name_lt(a, c),
    decreases a.len(),
{
    if a.len() > 0 && a[0] == b[0] && b[0] == c[0] {
        lemma_name_lt_transitive(a.skip(1), b.skip(1), c.skip(1));
    }
}

/// The order of names is total: two different names are ordered one way.
pub proof fn lemma_name_lt_total(a: Seq<char>, b: Seq<char>)
    ensures
        a == b || name_lt(a, b) || name_lt(b, a),
    decreases a.len(),
{
    if a.len() == 0 || b.len() == 0 {
        if a.len() == 0 && b.len() == 0 {
            assert(a =~= b);
        }
    } else if a[0] == b[0] {
        lemma_name_lt_total(a.skip(1), b.skip(1));
        if a.skip(1) == b.skip(1) {
            assert(a =~= seq![a[0]] + a.skip(1));
            assert(b =~= seq![b[0]] + b.skip(1));
        }
    }
}

/// No two names are ordered both ways.
pub proof fn lemma_name_lt_asymmetric(a: Seq<char>, b: Seq<char>)
    requires
        name_lt(a, b),
    ensures
        !name_lt(b, a),
{
    if name_lt(b, a) {
        lemma_name_lt_transitive(a, b, a);
        lemma_name_lt_irreflexive(a);
    }
}

/// The rank of a name lies within the table; the entries before it are
/// below the name, and the entry at it, if any, is not.
pub proof fn lemma_rank(totals: Seq<Total>, name: Seq<char>)
    ensures
        rank(totals, name) <= totals.len(),
        forall|k: int| 0 <= k < rank(totals, name) ==> name_lt((#[trigger] totals[k]).name, name),
        rank(totals, name) < totals.len() ==> !name_lt(
            totals[rank(totals, name) as int].name,
            name,
        ),
    decreases totals.len(),
{
    if totals.len() > 0 && name_lt(totals[0].name, name) {
        let rest = totals.skip(1);
        lemma_rank(rest, name);
        assert forall|k: int| 0 <= k < rank(totals, name) implies name_lt(
            (#[trigger] totals[k]).name,
            name,
        ) by {
            if k > 0 {
                assert(totals[k] == rest[k - 1]);
            }
        }
        if rank(totals, name) < totals.len() {
            assert(totals[rank(totals, name) as int] == rest[rank(rest, name) as int]);
        }
    }
}

/// A name above every entry of the table has the table's length as its rank.
pub proof fn lemma_rank_above(totals: Seq<Total>, name: Seq<char>)
    requires
        forall|k: int| 0 <= k < totals.len() ==> name_lt((#[trigger] totals[k]).name, name),
    ensures
        rank(totals, name) == totals.len(),
{
    lemma_rank(totals, name);
}

/// Every total of the table is a well-formed rational.
pub open spec fn totals_wf(totals: Seq<Total>) -> bool {
    forall|k: int| 0 <= k < totals.len() ==> (#[trigger] totals[k]).coefficient.wf()
}

/// Accumulating into an ascending table of well-formed totals gives one.
pub proof fn lemma_accumulate_ascending(totals: Seq<Total>, name: Seq<char>, c: Rational)
    requires
        ascending(totals),
        totals_wf(totals),
        accumulate(totals, name, c) is Some,
    ensures
        ascending(accumulate(totals, name, c).unwrap()),
        totals_wf(accumulate(totals, name, c).unwrap()),
{
    let i = rank(totals, name) as int;
    let after = accumulate(totals, name, c).unwrap();
    lemma_rank(totals, name);
    if i < totals.len() && totals[i].name == name {
        lemma_sum_wf(totals[i].coefficient, c);
        assert forall|p: int, q: int| 0 <= p < q < after.len() implies name_lt(
            after[p].name,
            after[q].name,
        ) by {
            assert(after[p].name == totals[p].name);
            assert(after[q].name == totals[q].name);
        }
    } else {
        lemma_sum_wf(Rational::zero_spec(), c);
        assert forall|p: int, q: int| 0 <= p < q < after.len() implies name_lt(
            after[p].name,
            after[q].name,
        ) by {
            if q < i {
                assert(after[p] == totals[p] && after[q] == totals[q]);
            } else if q == i {
                assert(after[p] == totals[p]);
            } else if p == i {
                assert(after[q] == totals[q - 1]);
                lemma_name_lt_total(name, totals[i].name);
                if q - 1 > i {
                    lemma_name_lt_transitive(name, totals[i].name, totals[q - 1].name);
                }
            } else if p < i {
                assert(after[p] == totals[p] && after[q] == totals[q - 1]);
            } else {
                assert(after[p] == totals[p - 1] && after[q] == totals[q - 1]);
            }
        }
        assert forall|k: int| 0 <= k < after.len() implies (#[trigger] after[k]).coefficient.wf() by {
            if k < i {
                assert(after[k] == totals[k]);
            } else if k > i {
                assert(after[k] == totals[k - 1]);
            }
        }
    }
}

impl ExprView {
    /// Whether the first pass has nothing left to do on the tree: no two
    /// constants are added or multiplied, no constant is multiplied with a
    /// variable, no sum is a factor, and no constant is inverted.
    pub open spec fn is_rewritten(self) -> bool
        decreases self,
    {
        match self {
            ExprView::Val(_) => true,
            ExprView::Var(_, _) => true,
            ExprView::Add(a, b) => a.is_rewritten() && b.is_rewritten() && !(*a is Val && *b is Val),
            ExprView::Mul(a, b) => {
                &&& a.is_rewritten()
                &&& b.is_rewritten()
                &&& !(*a is Val && *b is Val)
                &&& !(*a is Val && *b is Var)
                &&& !(*a is Var && *b is Val)
                &&& !(*a is Add)
                &&& !(*b is Add)
            },
            ExprView::Inv(a) => a.is_rewritten() && !(*a is Val),
        }
    }

    /// Whether the tree is a term: rewritten, and not a sum.
    pub open spec fn is_term(self) -> bool {
        self.is_rewritten() && !(self is Add)
    }

    /// Whether the tree is a term that the second pass keeps as it is: a
    /// product or an inverse.
    pub open spec fn is_kept(self) -> bool {
        self.is_rewritten() && (self is Mul || self is Inv)
    }
}

/// A rewritten tree is a fixed point of the first pass.
pub proof fn lemma_rewritten_is_fixed(e: ExprView)
    requires
        e.is_rewritten(),
    ensures
        e.rewrite() == Some(e),
    decreases e,
{
    match e {
        ExprView::Val(_) => {},
        ExprView::Var(_, _) => {},
        ExprView::Add(a, b) => {
            lemma_rewritten_is_fixed(*a);
            lemma_rewritten_is_fixed(*b);
        },
        ExprView::Mul(a, b) => {
            lemma_rewritten_is_fixed(*a);
            lemma_rewritten_is_fixed(*b);
        },
        ExprView::Inv(a) => {
            lemma_rewritten_is_fixed(*a);
        },
    }
}

/// The folded sum of two well-formed rewritten trees is one.
pub proof fn lemma_fold_sum(u: ExprView, v: ExprView)
    requires
        u.wf(),
        v.wf(),
        u.is_rewritten(),
        v.is_rewritten(),
        u.fold_sum(v) is Some,
    ensures
        u.fold_sum(v).unwrap().wf(),
        u.fold_sum(v).unwrap().is_rewritten(),
{
    match (u, v) {
        (ExprView::Val(x), ExprView::Val(y)) => {
            lemma_sum_wf(x, y);
        },
        _ => {},
    }
}

/// The folded product of two well-formed rewritten trees is one.
pub proof fn lemma_fold_product(u: ExprView, v: ExprView)
    requires
        u.wf(),
        v.wf(),
        u.is_rewritten(),
        v.is_rewritten(),
        u.fold_product(v) is Some,
    ensures
        u.fold_product(v).unwrap().wf(),
        u.fold_product(v).unwrap().is_rewritten(),
    decreases u.size() + v.size(),
{
    match (u, v) {
        (ExprView::Val(x), ExprView::Val(y)) => {
            lemma_product_wf(x, y);
        },
        (ExprView::Val(x), ExprView::Var(y, _)) => {
            lemma_product_wf(x, y);
        },
        (ExprView::Var(y, _), ExprView::Val(x)) => {
            lemma_product_wf(x, y);
        },
        (ExprView::Add(a, b), _) => {
            lemma_fold_product(*a, v);
            lemma_fold_product(*b, v);
            lemma_fold_sum(a.fold_product(v).unwrap(), b.fold_product(v).unwrap());
        },
        (_, ExprView::Add(a, b)) => {
            lemma_fold_product(*a, u);
            lemma_fold_product(*b, u);
            lemma_fold_sum(a.fold_product(u).unwrap(), b.fold_product(u).unwrap());
        },
        _ => {},
    }
}

/// The folded inverse of a well-formed rewritten tree is one.
pub proof fn lemma_fold_inverse(u: ExprView)
    requires
        u.wf(),
        u.is_rewritten(),
        u.fold_inverse() is Some,
    ensures
        u.fold_inverse().unwrap().wf(),
        u.fold_inverse().unwrap().is_rewritten(),
{
    match u {
        ExprView::Val(x) => {
            lemma_reciprocal_wf(x);
        },
        _ => {},
    }
}

/// What the first pass returns is well-formed and rewritten.
pub proof fn lemma_rewrite_is_rewritten(e: ExprView)
    requires
        e.wf(),
        e.rewrite() is Some,
    ensures
        e.rewrite().unwrap().wf(),
        e.rewrite().unwrap().is_rewritten(),
    decreases e,
{
    match e {
        ExprView::Val(_) => {},
        ExprView::Var(_, _) => {},
        ExprView::Add(a, b) => {
            lemma_rewrite_is_rewritten(*a);
            lemma_rewrite_is_rewritten(*b);
            lemma_fold_sum(a.rewrite().unwrap(), b.rewrite().unwrap());
        },
        ExprView::Mul(a, b) => {
            lemma_rewrite_is_rewritten(*a);
            lemma_rewrite_is_rewritten(*b);
            lemma_fold_product(a.rewrite().unwrap(), b.rewrite().unwrap());
        },
        ExprView::Inv(a) => {
            lemma_rewrite_is_rewritten(*a);
            lemma_fold_inverse(a.rewrite().unwrap());
        },
    }
}

/// The first pass is idempotent.
pub proof fn lemma_rewrite_idempotent(e: ExprView)
    requires
        e.wf(),
        e.rewrite() is Some,
    ensures
        e.rewrite().unwrap().rewrite() == e.rewrite(),
{
    lemma_rewrite_is_rewritten(e);
    lemma_rewritten_is_fixed(e.rewrite().unwrap());
}

/// Distribution over a sum on the left: the product of the rewritten sum
/// `x + y` with the rewritten tree `c` is what the first pass makes of
/// `x * c + y * c`.
pub proof fn lemma_distributes_left(x: ExprView, y: ExprView, c: ExprView)
    requires
        x.is_rewritten(),
        y.is_rewritten(),
        c.is_rewritten(),
    ensures
        x.plus(y).fold_product(c) == x.times(c).plus(y.times(c)).rewrite(),
{
    lemma_rewritten_is_fixed(x);
    lemma_rewritten_is_fixed(y);
    lemma_rewritten_is_fixed(c);
    assert(x.times(c).rewrite() == x.fold_product(c));
    assert(y.times(c).rewrite() == y.fold_product(c));
}

/// Distribution over a sum on the right: the product of the rewritten
/// tree `c`, not itself a sum, with the rewritten sum `x + y` is what the
/// first pass makes of `x * c + y * c`.
pub proof fn lemma_distributes_right(c: ExprView, x: ExprView, y: ExprView)
    requires
        x.is_rewritten(),
        y.is_rewritten(),
        c.is_rewritten(),
        !(c is Add),
    ensures
        c.fold_product(x.plus(y)) == x.times(c).plus(y.times(c)).rewrite(),
{
    lemma_rewritten_is_fixed(x);
    lemma_rewritten_is_fixed(y);
    lemma_rewritten_is_fixed(c);
    assert(x.times(c).rewrite() == x.fold_product(c));
    assert(y.times(c).rewrite() == y.fold_product(c));
}

/// Every tree of the sequence is a well-formed term.
pub open spec fn all_terms(terms: Seq<ExprView>) -> bool {
    forall|i: int| 0 <= i < terms.len() ==> (#[trigger] terms[i]).is_term() && terms[i].wf()
}

/// Every tree of the sequence is a well-formed product or inverse.
pub open spec fn all_kept(terms: Seq<ExprView>) -> bool {
    forall|i: int| 0 <= i < terms.len() ==> (#[trigger] terms[i]).is_kept() && terms[i].wf()
}

/// The name of a variable term.
pub open spec fn name_of(t: ExprView) -> Seq<char> {
    match t {
        ExprView::Var(_, name) => name,
        _ => Seq::empty(),
    }
}

/// The coefficient of a constant or a variable term.
pub open spec fn coefficient_of(t: ExprView) -> Rational {
    match t {
        ExprView::Val(c) => c,
        ExprView::Var(c, _) => c,
        _ => Rational::zero_spec(),
    }
}

/// The sequence holds variable terms only, with well-formed coefficients
/// other than zero, in strictly ascending order of names.
pub open spec fn is_monomial_run(ms: Seq<ExprView>) -> bool {
    &&& forall|i: int|
        0 <= i < ms.len() ==> (#[trigger] ms[i]) is Var && coefficient_of(ms[i]).wf()
            && coefficient_of(ms[i]).numer != 0
    &&& forall|i: int, j: int|
        0 <= i < j < ms.len() ==> name_lt(name_of(#[trigger] ms[i]), name_of(#[trigger] ms[j]))
}

/// The table with one entry for each variable term of the sequence.
pub open spec fn entries_of(ms: Seq<ExprView>) -> Seq<Total> {
    ms.map_values(|t: ExprView| Total { name: name_of(t), coefficient: coefficient_of(t) })
}

/// The terms of a well-formed rewritten tree are well-formed terms, and
/// there is at least one.
pub proof fn lemma_flatten_terms(e: ExprView)
    requires
        e.wf(),
        e.is_rewritten(),
    ensures
        all_terms(e.flatten()),
        e.flatten().len() >= 1,
    decreases e,
{
    match e {
        ExprView::Add(a, b) => {
            lemma_flatten_terms(*a);
            lemma_flatten_terms(*b);
        },
        _ => {},
    }
}

/// Among well-formed terms, the ones that the second pass keeps are
/// well-formed products and inverses.
pub proof fn lemma_others_kept(terms: Seq<ExprView>)
    requires
        all_terms(terms),
    ensures
        all_kept(others(terms)),
    decreases terms.len(),
{
    if terms.len() > 0 {
        lemma_others_kept(terms.drop_last());
    }
}

/// The total of well-formed constants is well-formed.
pub proof fn lemma_constant_total_wf(terms: Seq<ExprView>)
    requires
        all_terms(terms),
        constant_total(terms) is Some,
    ensures
        constant_total(terms).unwrap().wf(),
    decreases terms.len(),
{
    if terms.len() == 0 {
        lemma_units_wf();
    } else {
        let front = terms.drop_last();
        match (constant_total(front), terms.last()) {
            (Some(acc), ExprView::Val(c)) => {
                lemma_sum_wf(acc, c);
            },
            _ => {
                lemma_constant_total_wf(front);
            },
        }
    }
}

/// The table of totals is in ascending order, and its totals are well-formed.
pub proof fn lemma_variable_totals_ascending(terms: Seq<ExprView>)
    requires
        all_terms(terms),
        variable_totals(terms) is Some,
    ensures
        ascending(variable_totals(terms).unwrap()),
        totals_wf(variable_totals(terms).unwrap()),
    decreases terms.len(),
{
    if terms.len() > 0 {
        let front = terms.drop_last();
        match (variable_totals(front), terms.last()) {
            (Some(acc), ExprView::Var(c, name)) => {
                lemma_variable_totals_ascending(front);
                lemma_accumulate_ascending(acc, name, c);
            },
            _ => {
                lemma_variable_totals_ascending(front);
            },
        }
    }
}

/// The variable terms made from an ascending table of well-formed totals
/// form a run of monomials, and a name above every entry of the table is
/// above every one of them.
pub proof fn lemma_monomials_run(totals: Seq<Total>, above: Seq<char>)
    requires
        ascending(totals),
        totals_wf(totals),
        forall|k: int| 0 <= k < totals.len() ==> name_lt((#[trigger] totals[k]).name, above),
    ensures
        is_monomial_run(monomials(totals)),
        forall|i: int|
            0 <= i < monomials(totals).len() ==> name_lt(
                name_of(#[trigger] monomials(totals)[i]),
                above,
            ),
    decreases totals.len(),
{
    if totals.len() > 0 {
        let front = totals.drop_last();
        let last = totals.last();
        assert forall|k: int| 0 <= k < front.len() implies name_lt(
            (#[trigger] front[k]).name,
            last.name,
        ) by {
            assert(front[k] == totals[k]);
        }
        assert(ascending(front)) by {
            assert forall|i: int, j: int| 0 <= i < j < front.len() implies name_lt(
                front[i].name,
                front[j].name,
            ) by {
                assert(front[i] == totals[i] && front[j] == totals[j]);
            }
        }
        assert(totals_wf(front)) by {
            assert forall|k: int| 0 <= k < front.len() implies (#[trigger] front[k]).coefficient.wf() by {
                assert(front[k] == totals[k]);
            }
        }
        lemma_monomials_run(front, last.name);
        let ms = monomials(front);
        assert forall|i: int| 0 <= i < ms.len() implies name_lt(name_of(#[trigger] ms[i]), above) by {
            lemma_name_lt_transitive(name_of(ms[i]), last.name, above);
        }
        assert(last.coefficient.wf());
    }
}

/// Products and inverses contribute no variable to the table.
pub proof fn lemma_kept_have_no_variables(front: Seq<ExprView>)
    requires
        all_kept(front),
    ensures
        variable_totals(front) == Some(Seq::<Total>::empty()),
        constant_total(front) == Some(Rational::zero_spec()),
        others(front) == front,
    decreases front.len(),
{
    if front.len() > 0 {
        lemma_kept_have_no_variables(front.drop_last());
        assert(front.drop_last().push(front.last()) =~= front);
    } else {
        assert(front =~= Seq::<ExprView>::empty());
    }
}

/// Collecting products and inverses followed by a run of monomials finds
/// the monomials as the table, no constant, and the products and inverses
/// as what is kept.
pub proof fn lemma_collect_run(front: Seq<ExprView>, ms: Seq<ExprView>, k: int)
    requires
        all_kept(front),
        is_monomial_run(ms),
        0 <= k <= ms.len(),
    ensures
        variable_totals(front + ms.take(k)) == Some(entries_of(ms.take(k))),
        constant_total(front + ms.take(k)) == Some(Rational::zero_spec()),
        others(front + ms.take(k)) == front,
    decreases k,
{
    if k == 0 {
        lemma_kept_have_no_variables(front);
        assert(front + ms.take(0) =~= front);
        assert(entries_of(ms.take(0)) =~= Seq::<Total>::empty());
    } else {
        lemma_collect_run(front, ms, k - 1);
        let list = front + ms.take(k);
        assert(list.drop_last() =~= front + ms.take(k - 1));
        assert(list.last() == ms[k - 1]);
        let table = entries_of(ms.take(k - 1));
        let name = name_of(ms[k - 1]);
        let c = coefficient_of(ms[k - 1]);
        assert forall|j: int| 0 <= j < table.len() implies name_lt((#[trigger] table[j]).name, name) by {
            assert(table[j].name == name_of(ms[j]));
        }
        lemma_rank_above(table, name);
        lemma_sum_zero_left(c);
        assert(table.insert(k - 1, Total { name, coefficient: c }) =~= entries_of(ms.take(k)));
    }
}

/// The table made from a run of monomials gives the run back.
pub proof fn lemma_monomials_of_entries(ms: Seq<ExprView>)
    requires
        is_monomial_run(ms),
    ensures
        monomials(entries_of(ms)) == ms,
    decreases ms.len(),
{
    if ms.len() == 0 {
        assert(ms =~= Seq::<ExprView>::empty());
    } else {
        let front = ms.drop_last();
        assert(is_monomial_run(front)) by {
            assert forall|i: int| 0 <= i < front.len() implies (#[trigger] front[i]) is Var
                && coefficient_of(front[i]).wf() && coefficient_of(front[i]).numer != 0 by {
                assert(front[i] == ms[i]);
            }
            assert forall|i: int, j: int| 0 <= i < j < front.len() implies name_lt(
                name_of(#[trigger] front[i]),
                name_of(#[trigger] front[j]),
            ) by {
                assert(front[i] == ms[i] && front[j] == ms[j]);
            }
        }
        lemma_monomials_of_entries(front);
        assert(entries_of(ms).drop_last() =~= entries_of(front));
        assert(ms.last() is Var);
        assert(front.push(ms.last()) =~= ms);
    }
}

/// Joining well-formed terms, of which only the last may be a constant,
/// gives a well-formed rewritten tree whose terms are those joined.
pub proof fn lemma_sum_of_terms(list: Seq<ExprView>)
    requires
        all_terms(list),
        forall|i: int| 0 <= i < list.len() - 1 ==> !((#[trigger] list[i]) is Val),
    ensures
        sum_of(list).wf(),
        sum_of(list).is_rewritten(),
        list.len() >= 2 ==> sum_of(list) is Add,
        list.len() >= 1 ==> sum_of(list).flatten() == list,
    decreases list.len(),
{
    if list.len() == 0 {
        lemma_units_wf();
    } else if list.len() == 1 {
        assert(list[0].is_term());
        assert(list =~= seq![list[0]]);
    } else {
        let front = list.drop_last();
        assert(all_terms(front)) by {
            assert forall|i: int| 0 <= i < front.len() implies (#[trigger] front[i]).is_term()
                && front[i].wf() by {
                assert(front[i] == list[i]);
            }
        }
        assert forall|i: int| 0 <= i < front.len() - 1 implies !((#[trigger] front[i]) is Val) by {
            assert(front[i] == list[i]);
        }
        lemma_sum_of_terms(front);
        assert(list.last().is_term());
        assert(!(list[0] is Val));
        assert(front[0] == list[0]);
        assert(sum_of(list).flatten() == sum_of(front).flatten() + list.last().flatten());
        assert(front + seq![list.last()] =~= list);
    }
}

/// Collecting the terms of a well-formed rewritten tree gives a tree that
/// is well-formed and rewritten, and that collecting leaves as it is.
pub proof fn lemma_collect_is_fixed(r: ExprView)
    requires
        r.wf(),
        r.is_rewritten(),
        r.collect() is Some,
    ensures
        r.collect().unwrap().wf(),
        r.collect().unwrap().is_rewritten(),
        r.collect().unwrap().collect() == r.collect(),
{
    let terms = r.flatten();
    let c = constant_total(terms).unwrap();
    let totals = variable_totals(terms).unwrap();
    let front = others(terms);
    let ms = monomials(totals);
    let ct = constant_term(c);
    let list = front + ms + ct;
    let result = sum_of(list);
    lemma_flatten_terms(r);
    lemma_others_kept(terms);
    lemma_constant_total_wf(terms);
    lemma_variable_totals_ascending(terms);
    lemma_monomials_total(totals);
    assert(all_terms(list) && forall|i: int|
        0 <= i < list.len() - 1 ==> !((#[trigger] list[i]) is Val)) by {
        assert forall|i: int| 0 <= i < list.len() implies (#[trigger] list[i]).is_term()
            && list[i].wf() && (i < list.len() - 1 ==> !(list[i] is Val)) by {
            if i < front.len() {
                assert(list[i] == front[i]);
            } else if i < front.len() + ms.len() {
                assert(list[i] == ms[i - front.len()]);
            } else {
                assert(list[i] == ct[i - front.len() - ms.len()]);
            }
        }
    }
    lemma_sum_of_terms(list);
    lemma_collect_run(front, ms, ms.len() as int);
    assert(ms.take(ms.len() as int) =~= ms);
    lemma_monomials_of_entries(ms);
    lemma_sum_zero_left(c);
    if list.len() == 0 {
        assert(ms =~= Seq::<ExprView>::empty());
        assert(front =~= Seq::<ExprView>::empty());
        let again = result.flatten();
        assert(again =~= seq![ExprView::zero()]);
        assert(again.drop_last() =~= Seq::<ExprView>::empty());
        lemma_sum_zero_left(Rational::zero_spec());
        assert(constant_total(again) == Some(Rational::zero_spec()));
        assert(variable_totals(again) == Some(Seq::<Total>::empty()));
        assert(others(again) =~= Seq::<ExprView>::empty());
        lemma_units_wf();
        assert(monomials(Seq::<Total>::empty()) =~= Seq::<ExprView>::empty());
        assert(others(again) + monomials(Seq::<Total>::empty()) + constant_term(
            Rational::zero_spec(),
        ) =~= list);
    } else {
        assert(result.flatten() == list);
        if c.numer == 0 {
            assert(list =~= front + ms);
            assert(c == Rational::zero_spec()) by {
                lemma_zero_is_unique(c);
            }
        } else {
            assert(list =~= (front + ms).push(ExprView::Val(c)));
            assert(list.drop_last() =~= front + ms);
        }
    }
}

/// A well-formed rational with numerator zero is the rational zero.
pub proof fn lemma_zero_is_unique(c: Rational)
    requires
        c.wf(),
        c.numer == 0,
    ensures
        c == Rational::zero_spec(),
{
    assert(gcd(0, c.denom as nat) == c.denom) by {
        reveal_with_fuel(gcd, 2);
        lemma_multiple_divides(0, c.denom as int);
    }
}

/// The variable terms made from an ascending table of well-formed totals
/// form a run of monomials.
pub proof fn lemma_monomials_total(totals: Seq<Total>)
    requires
        ascending(totals),
        totals_wf(totals),
    ensures
        is_monomial_run(monomials(totals)),
{
    if totals.len() > 0 {
        let front = totals.drop_last();
        let last = totals.last();
        assert forall|k: int| 0 <= k < front.len() implies name_lt(
            (#[trigger] front[k]).name,
            last.name,
        ) by {
            assert(front[k] == totals[k]);
        }
        assert(ascending(front)) by {
            assert forall|i: int, j: int| 0 <= i < j < front.len() implies name_lt(
                front[i].name,
                front[j].name,
            ) by {
                assert(front[i] == totals[i] && front[j] == totals[j]);
            }
        }
        assert(totals_wf(front)) by {
            assert forall|k: int| 0 <= k < front.len() implies (#[trigger] front[k]).coefficient.wf() by {
                assert(front[k] == totals[k]);
            }
        }
        lemma_monomials_run(front, last.name);
        assert(last.coefficient.wf());
    }
}

/// Idempotence: the canonical form of a canonical form is that same tree.
pub proof fn lemma_simplify_idempotent(e: ExprView)
    requires
        e.wf(),
        e.simplify() is Some,
    ensures
        e.simplify().unwrap().wf(),
        e.simplify().unwrap().simplify() == e.simplify(),
{
    let r = e.rewrite().unwrap();
    lemma_rewrite_is_rewritten(e);
    lemma_collect_is_fixed(r);
    lemma_rewritten_is_fixed(r.collect().unwrap());
}

/// Whether term `a` may stand anywhere before term `b` in a canonical
/// form: products and inverses come first, then variables in ascending
/// order of names, then one constant.
pub open spec fn precedes(a: ExprView, b: ExprView) -> bool {
    match (a, b) {
        (ExprView::Val(_), _) => false,
        (ExprView::Var(_, m), ExprView::Var(_, n)) => name_lt(m, n),
        (ExprView::Var(_, _), ExprView::Val(_)) => true,
        (ExprView::Var(_, _), _) => false,
        _ => true,
    }
}

/// Whether the tree is in canonical form.
///
/// It is the constant zero, or else the sum, joined from the left, of terms
/// such that: each is well-formed and rewritten, none is a sum, the
/// constant and the variables have coefficients other than zero, and each
/// two are in canonical order. So there is at most one constant and at most
/// one variable term for each name.
pub open spec fn is_canonical(e: ExprView) -> bool {
    ||| e == ExprView::zero()
    ||| {
        let terms = e.flatten();
        &&& e == sum_of(terms)
        &&& all_terms(terms)
        &&& forall|i: int|
            0 <= i < terms.len() && ((#[trigger] terms[i]) is Val || terms[i] is Var)
                ==> coefficient_of(terms[i]).numer != 0
        &&& forall|i: int, j: int|
            0 <= i < j < terms.len() ==> precedes(#[trigger] terms[i], #[trigger] terms[j])
    }
}

/// What simplification returns is in canonical form.
pub proof fn lemma_simplify_is_canonical(e: ExprView)
    requires
        e.wf(),
        e.simplify() is Some,
    ensures
        is_canonical(e.simplify().unwrap()),
{
    let r = e.rewrite().unwrap();
    lemma_rewrite_is_rewritten(e);
    let terms = r.flatten();
    let c = constant_total(terms).unwrap();
    let totals = variable_totals(terms).unwrap();
    let front = others(terms);
    let ms = monomials(totals);
    let ct = constant_term(c);
    let list = front + ms + ct;
    lemma_flatten_terms(r);
    lemma_others_kept(terms);
    lemma_constant_total_wf(terms);
    lemma_variable_totals_ascending(terms);
    lemma_monomials_total(totals);
    assert forall|i: int| 0 <= i < list.len() implies (#[trigger] list[i]).is_term() && list[i].wf()
        && (i < list.len() - 1 ==> !(list[i] is Val)) && ((list[i] is Val || list[i] is Var)
        ==> coefficient_of(list[i]).numer != 0) by {
        if i < front.len() {
            assert(list[i] == front[i]);
        } else if i < front.len() + ms.len() {
            assert(list[i] == ms[i - front.len()]);
        } else {
            assert(list[i] == ct[i - front.len() - ms.len()]);
        }
    }
    lemma_sum_of_terms(list);
    if list.len() > 0 {
        assert forall|i: int, j: int| 0 <= i < j < list.len() implies precedes(
            #[trigger] list[i],
            #[trigger] list[j],
        ) by {
            if i < front.len() {
                assert(list[i] == front[i]);
            } else if i < front.len() + ms.len() {
                assert(list[i] == ms[i - front.len()]);
                if j < front.len() + ms.len() {
                    assert(list[j] == ms[j - front.len()]);
                } else {
                    assert(list[j] == ct[j - front.len() - ms.len()]);
                }
            } else {
                assert(list[i] == ct[i - front.len() - ms.len()]);
            }
        }
    }
}

/// Constants distribute: for rationals `p`, `q`, `r` whose sum and product
/// are defined, the canonical form of `(p + q) * r` is the constant
/// `(p + q) * r`.
pub proof fn lemma_constants_distribute(p: Rational, q: Rational, r: Rational)
    requires
        sum(p, q) is Some,
        product(sum(p, q).unwrap(), r) is Some,
    ensures
        ExprView::Val(p).plus(ExprView::Val(q)).times(ExprView::Val(r)).simplify() == Some(
            ExprView::Val(product(sum(p, q).unwrap(), r).unwrap()),
        ),
{
    let s = sum(p, q).unwrap();
    let t = product(s, r).unwrap();
    let e = ExprView::Val(p).plus(ExprView::Val(q)).times(ExprView::Val(r));
    reveal_with_fuel(ExprView::rewrite, 3);
    assert(e.rewrite() == Some(ExprView::Val(t)));
    lemma_product_wf(s, r);
    lemma_collect_constant(t);
}

/// Collecting a single well-formed constant gives that constant.
pub proof fn lemma_collect_constant(t: Rational)
    requires
        t.wf(),
    ensures
        ExprView::Val(t).collect() == Some(ExprView::Val(t)),
{
    let terms = ExprView::Val(t).flatten();
    reveal_with_fuel(constant_total, 2);
    reveal_with_fuel(variable_totals, 2);
    reveal_with_fuel(others, 2);
    assert(terms =~= seq![ExprView::Val(t)]);
    assert(terms.drop_last() =~= Seq::<ExprView>::empty());
    lemma_sum_zero_left(t);
    assert(constant_total(terms) == Some(t));
    assert(variable_totals(terms) == Some(Seq::<Total>::empty()));
    assert(others(terms) =~= Seq::<ExprView>::empty());
    assert(monomials(Seq::<Total>::empty()) =~= Seq::<ExprView>::empty());
    let list = others(terms) + monomials(Seq::<Total>::empty()) + constant_term(t);
    if t.numer == 0 {
        lemma_zero_is_unique(t);
        assert(list =~= Seq::<ExprView>::empty());
    } else {
        assert(list =~= seq![ExprView::Val(t)]);
    }
}

/// A sum with a variable distributes: for rationals `q`, `r` whose product
/// is defined, `(x + q) * r` and `r x + q * r` have the same canonical form.
/// Where neither `r` nor `q * r` is zero, it is the tree `r x + q * r`.
pub proof fn lemma_variable_sum_distributes(name: Seq<char>, q: Rational, r: Rational)
    requires
        product(q, r) is Some,
    ensures
        ExprView::variable(name).plus(ExprView::Val(q)).times(ExprView::Val(r)).simplify()
            == ExprView::Var(r, name).plus(ExprView::Val(product(q, r).unwrap())).simplify(),
        r.numer != 0 && product(q, r).unwrap().numer != 0 ==> ExprView::variable(name).plus(
            ExprView::Val(q),
        ).times(ExprView::Val(r)).simplify() == Some(
            ExprView::Var(r, name).plus(ExprView::Val(product(q, r).unwrap())),
        ),
{
    let qr = product(q, r).unwrap();
    let left = ExprView::variable(name).plus(ExprView::Val(q)).times(ExprView::Val(r));
    let right = ExprView::Var(r, name).plus(ExprView::Val(qr));
    lemma_product_one_right(r);
    lemma_product_wf(q, r);
    reveal_with_fuel(ExprView::rewrite, 3);
    reveal_with_fuel(ExprView::fold_product, 2);
    assert(left.rewrite() == Some(right));
    assert(right.rewrite() == Some(right));
    if r.numer != 0 && qr.numer != 0 {
        let ms = seq![ExprView::Var(r, name)];
        let none = Seq::<ExprView>::empty();
        let terms = right.flatten();
        reveal_with_fuel(ExprView::flatten, 2);
        assert(terms =~= seq![ExprView::Var(r, name), ExprView::Val(qr)]);
        assert(terms.drop_last() =~= none + ms.take(1));
        lemma_collect_run(none, ms, 1);
        lemma_monomials_of_entries(ms);
        assert(ms.take(1) =~= ms);
        lemma_sum_zero_left(qr);
        let list = others(terms) + monomials(variable_totals(terms).unwrap()) + constant_term(qr);
        assert(list =~= terms);
        assert(terms.drop_last().drop_last() =~= none);
        reveal_with_fuel(sum_of, 3);
    }
}

} // verus!
