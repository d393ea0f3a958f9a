//! The simplifier: what the canonical form of an expression is.
//!
//! Simplification has two passes. The first rewrites the tree bottom-up:
//! constants are folded, a constant times a variable becomes a variable, and
//! products are distributed over sums. The second flattens the resulting
//! sum into its terms and collects them: one constant, one term per variable
//! name in ascending order of names, zero coefficients dropped, and whatever
//! could not be made linear kept in front, in the order it came in.
//!
//! Coefficients are 32-bit rationals, so each pass is a partial function: it
//! is `None` where a coefficient would leave that range, or where the inverse
//! of the constant zero is asked for.

use crate::canonical::{
    is_canonical, lemma_simplify_idempotent, lemma_simplify_is_canonical, lemma_zero_is_unique,
};
use crate::expr::{ExprView, Expression};
use crate::meaning::{lemma_simplify_value, lemma_zero_test_sound};
use crate::rational::{Rational, product, reciprocal, sum};
use vstd::prelude::*;

verus! {

/// Lexicographic order on names, by code point; a proper prefix comes first.
pub open spec fn name_lt(a: Seq<char>, b: Seq<char>) -> bool
    decreases a.len(),
{
    if b.len() == 0 {
        false
    } else if a.len() == 0 {
        true
    } else if a[0] != b[0] {
        (a[0] as int) < (b[0] as int)
    } else {
        name_lt(a.skip(1), b.skip(1))
    }
}

/// One entry of the per-name totals: a name and the sum of its coefficients.
pub struct Total {
    pub name: Seq<char>,
    pub coefficient: Rational,
}

/// The totals form a table in strictly ascending order of names.
pub open spec fn ascending(totals: Seq<Total>) -> bool {
    forall|i: int, j: int| 0 <= i < j < totals.len() ==> name_lt(totals[i].name, totals[j].name)
}

/// The index of the first entry whose name is not below `name`.
pub open spec fn rank(totals: Seq<Total>, name: Seq<char>) -> nat
    decreases totals.len(),
{
    if totals.len() == 0 {
        0
    } else if name_lt(totals[0].name, name) {
        1 + rank(totals.skip(1), name)
    } else {
        0
    }
}

/// Adds `c` to the total of `name`, entering the name at its place in the
/// order if it is new. `None` if the sum is not defined.
pub open spec fn accumulate(totals: Seq<Total>, name: Seq<char>, c: Rational) -> Option<
    Seq<Total>,
> {
    let i = rank(totals, name) as int;
    if i < totals.len() && totals[i].name == name {
        match sum(totals[i].coefficient, c) {
            Some(s) => Some(totals.update(i, Total { name, coefficient: s })),
            None => None,
        }
    } else {
        match sum(Rational::zero_spec(), c) {
            Some(s) => Some(totals.insert(i, Total { name, coefficient: s })),
            None => None,
        }
    }
}

/// The sum of the constants among `terms`, added up from the left, from zero.
pub open spec fn constant_total(terms: Seq<ExprView>) -> Option<Rational>
    decreases terms.len(),
{
    if terms.len() == 0 {
        Some(Rational::zero_spec())
    } else {
        match (constant_total(terms.drop_last()), terms.last()) {
            (Some(acc), ExprView::Val(c)) => sum(acc, c),
            (acc, _) => acc,
        }
    }
}

/// The per-name totals of the variable terms among `terms`, each added up
/// from the left, from zero.
pub open spec fn variable_totals(terms: Seq<ExprView>) -> Option<Seq<Total>>
    decreases terms.len(),
{
    if terms.len() == 0 {
        Some(Seq::empty())
    } else {
        match (variable_totals(terms.drop_last()), terms.last()) {
            (Some(acc), ExprView::Var(c, name)) => accumulate(acc, name, c),
            (acc, _) => acc,
        }
    }
}

/// The terms that are neither constants nor variables, in their order.
pub open spec fn others(terms: Seq<ExprView>) -> Seq<ExprView>
    decreases terms.len(),
{
    if terms.len() == 0 {
        Seq::empty()
    } else {
        match terms.last() {
            ExprView::Val(_) => others(terms.drop_last()),
            ExprView::Var(_, _) => others(terms.drop_last()),
            t => others(terms.drop_last()).push(t),
        }
    }
}

/// One variable term for each total that is not zero, in the table's order.
pub open spec fn monomials(totals: Seq<Total>) -> Seq<ExprView>
    decreases totals.len(),
{
    if totals.len() == 0 {
        Seq::empty()
    } else if totals.last().coefficient.numer == 0 {
        monomials(totals.drop_last())
    } else {
        monomials(totals.drop_last()).push(
            ExprView::Var(totals.last().coefficient, totals.last().name),
        )
    }
}

/// The constant term, unless it is zero.
pub open spec fn constant_term(c: Rational) -> Seq<ExprView> {
    if c.numer == 0 {
        Seq::empty()
    } else {
        seq![ExprView::Val(c)]
    }
}

/// The terms joined by `Add` from the left; the constant zero if there are none.
pub open spec fn sum_of(terms: Seq<ExprView>) -> ExprView
    decreases terms.len(),
{
    if terms.len() == 0 {
        ExprView::zero()
    } else if terms.len() == 1 {
        terms[0]
    } else {
        sum_of(terms.drop_last()).plus(terms.last())
    }
}

impl ExprView {
    /// The number of nodes of the tree.
    pub open spec fn size(self) -> nat
        decreases self,
    {
        match self {
            ExprView::Val(_) => 1,
            ExprView::Var(_, _) => 1,
            ExprView::Add(a, b) => 1 + a.size() + b.size(),
            ExprView::Mul(a, b) => 1 + a.size() + b.size(),
            ExprView::Inv(a) => 1 + a.size(),
        }
    }

    /// The sum of two rewritten terms: two constants fold into one, anything
    /// else stays a sum.
    pub open spec fn fold_sum(self, other: ExprView) -> Option<ExprView> {
        match (self, other) {
            (ExprView::Val(x), ExprView::Val(y)) => match sum(x, y) {
                Some(s) => Some(ExprView::Val(s)),
                None => None,
            },
            _ => Some(self.plus(other)),
        }
    }

    /// The product of two rewritten terms.
    ///
    /// In order: two constants fold into one; a constant and a variable fold
    /// into a variable; a sum on the left is multiplied out term by term with
    /// the right operand, and the two products are summed; so is a sum on the
    /// right, with the left operand as the right factor of each product;
    /// anything else stays a product.
    pub open spec fn fold_product(self, other: ExprView) -> Option<ExprView>
        decreases self.size() + other.size(),
    {
        match (self, other) {
            (ExprView::Val(x), ExprView::Val(y)) => match product(x, y) {
                Some(p) => Some(ExprView::Val(p)),
                None => None,
            },
            (ExprView::Val(x), ExprView::Var(y, name)) => match product(x, y) {
                Some(p) => Some(ExprView::Var(p, name)),
                None => None,
            },
            (ExprView::Var(y, name), ExprView::Val(x)) => match product(x, y) {
                Some(p) => Some(ExprView::Var(p, name)),
                None => None,
            },
            (ExprView::Add(a, b), _) => match (a.fold_product(other), b.fold_product(other)) {
                (Some(u), Some(v)) => u.fold_sum(v),
                _ => None,
            },
            (_, ExprView::Add(a, b)) => match (a.fold_product(self), b.fold_product(self)) {
                (Some(u), Some(v)) => u.fold_sum(v),
                _ => None,
            },
            _ => Some(self.times(other)),
        }
    }

    /// The inverse of a rewritten term: a constant folds into its
    /// reciprocal, anything else stays an inverse.
    pub open spec fn fold_inverse(self) -> Option<ExprView> {
        match self {
            ExprView::Val(x) => match reciprocal(x) {
                Some(r) => Some(ExprView::Val(r)),
                None => None,
            },
            _ => Some(self.inverse()),
        }
    }

    /// The first pass: the tree rewritten bottom-up.
    pub open spec fn rewrite(self) -> Option<ExprView>
        decreases self,
    {
        match self {
            ExprView::Val(_) => Some(self),
            ExprView::Var(_, _) => Some(self),
            ExprView::Add(a, b) => match (a.rewrite(), b.rewrite()) {
                (Some(u), Some(v)) => u.fold_sum(v),
                _ => None,
            },
            ExprView::Mul(a, b) => match (a.rewrite(), b.rewrite()) {
                (Some(u), Some(v)) => u.fold_product(v),
                _ => None,
            },
            ExprView::Inv(a) => match a.rewrite() {
                Some(u) => u.fold_inverse(),
                None => None,
            },
        }
    }

    /// The terms of a sum, however it is nested, from left to right.
    pub open spec fn flatten(self) -> Seq<ExprView>
        decreases self,
    {
        match self {
            ExprView::Add(a, b) => a.flatten() + b.flatten(),
            _ => seq![self],
        }
    }

    /// The second pass: the terms of a rewritten tree, collected.
    pub open spec fn collect(self) -> Option<ExprView> {
        let terms = self.flatten();
        match (constant_total(terms), variable_totals(terms)) {
            (Some(c), Some(totals)) => Some(
                sum_of(others(terms) + monomials(totals) + constant_term(c)),
            ),
            _ => None,
        }
    }

    /// The canonical form of the expression: rewritten, then collected.
    pub open spec fn simplify(self) -> Option<ExprView> {
        match self.rewrite() {
            Some(r) => r.collect(),
            None => None,
        }
    }

    /// The zero test: whether the canonical form is the constant zero.
    ///
    /// This is a test on structure: an expression that keeps a variable or
    /// an irreducible product or inverse is never zero.
    pub open spec fn is_zero(self) -> Option<bool> {
        match self.simplify() {
            Some(ExprView::Val(c)) => Some(c.numer == 0),
            Some(_) => Some(false),
            None => None,
        }
    }
}

/// The models of a sequence of expressions.
pub open spec fn models(v: Seq<Expression>) -> Seq<ExprView> {
    v.map_values(|e: Expression| e@)
}

/// Every expression of the sequence is well-formed.
pub open spec fn all_wf(v: Seq<Expression>) -> bool {
    forall|i: int| 0 <= i < v.len() ==> (#[trigger] v[i]).wf()
}

/// An entry of the executable table of per-name totals.
struct Entry {
    name: String,
    coefficient: Rational,
}

impl View for Entry {
    type V = Total;

    closed spec fn view(&self) -> Total {
        Total { name: self.name@, coefficient: self.coefficient }
    }
}

/// The model of a table of entries.
spec fn table(entries: Seq<Entry>) -> Seq<Total> {
    entries.map_values(|e: Entry| e@)
}

/// Every total of the table is a well-formed rational.
spec fn table_wf(entries: Seq<Entry>) -> bool {
    forall|i: int| 0 <= i < entries.len() ==> (#[trigger] entries[i]).coefficient.wf()
}

/// If the constants of `terms` can be summed, so can those of each prefix.
pub proof fn lemma_constant_total_prefix(terms: Seq<ExprView>, k: int)
    requires
        0 <= k <= terms.len(),
        constant_total(terms) is Some,
    ensures
        constant_total(terms.take(k)) is Some,
    decreases terms.len() - k,
{
    if k == terms.len() {
        assert(terms.take(k) =~= terms);
    } else {
        lemma_constant_total_prefix(terms, k + 1);
        assert(terms.take(k + 1).drop_last() =~= terms.take(k));
    }
}

/// If the variables of `terms` can be totalled, so can those of each prefix.
pub proof fn lemma_variable_totals_prefix(terms: Seq<ExprView>, k: int)
    requires
        0 <= k <= terms.len(),
        variable_totals(terms) is Some,
    ensures
        variable_totals(terms.take(k)) is Some,
    decreases terms.len() - k,
{
    if k == terms.len() {
        assert(terms.take(k) =~= terms);
    } else {
        lemma_variable_totals_prefix(terms, k + 1);
        assert(terms.take(k + 1).drop_last() =~= terms.take(k));
    }
}

/// Whether `a` comes before `b` in the order of names.
pub fn name_less(a: &str, b: &str) -> (r: bool)
    ensures
        r == name_lt(a@, b@),
{
    let n = a.unicode_len();
    let m = b.unicode_len();
    let mut i: usize = 0;
    assert(a@.skip(0) =~= a@ && b@.skip(0) =~= b@);
    while i < n && i < m
        invariant
            n == a@.len(),
            m == b@.len(),
            i <= n,
            i <= m,
            name_lt(a@, b@) == name_lt(a@.skip(i as int), b@.skip(i as int)),
        decreases n - i,
    {
        let x = a.get_char(i);
        let y = b.get_char(i);
        assert(a@.skip(i as int)[0] == x && b@.skip(i as int)[0] == y);
        if x != y {
            return (x as u32) < (y as u32);
        }
        assert(a@.skip(i as int).skip(1) =~= a@.skip(i + 1));
        assert(b@.skip(i as int).skip(1) =~= b@.skip(i + 1));
        i += 1;
    }
    i < m
}

/// Whether an executable result stands for the outcome `m` of a partial
/// function of the model: a well-formed tree with that model, or nothing
/// where the outcome is undefined.
pub open spec fn answers(r: Option<Expression>, m: Option<ExprView>) -> bool {
    match r {
        Some(e) => e.wf() && m == Some(e@),
        None => m is None,
    }
}

/// Adds `c` to the total kept for `name`, entering the name if it is new.
/// Returns whether the sum was defined; if not, the table is unchanged.
fn add_to_table(entries: &mut Vec<Entry>, name: &String, c: Rational) -> (done: bool)
    requires
        table_wf(old(entries)@),
        c.wf(),
    ensures
        done == accumulate(table(old(entries)@), name@, c) is Some,
        done ==> table_wf(final(entries)@) && Some(table(final(entries)@)) == accumulate(
            table(old(entries)@),
            name@,
            c,
        ),
        !done ==> *final(entries) == *old(entries),
{
    let ghost before = table(entries@);
    let mut i: usize = 0;
    assert(before.skip(0) =~= before);
    while i < entries.len() && name_less(entries[i].name.as_str(), name.as_str())
        invariant
            i <= entries.len(),
            *entries == *old(entries),
            before == table(entries@),
            rank(before, name@) == i + rank(before.skip(i as int), name@),
        decreases entries.len() - i,
    {
        assert(before.skip(i as int)[0] == before[i as int]);
        assert(before.skip(i as int).skip(1) =~= before.skip(i + 1));
        i += 1;
    }
    assert(rank(before, name@) == i) by {
        if i < entries.len() {
            assert(before.skip(i as int)[0] == before[i as int]);
        }
    }
    if i < entries.len() && entries[i].name == *name {
        match entries[i].coefficient.checked_plus(c) {
            Some(s) => {
                entries.set(i, Entry { name: name.clone(), coefficient: s });
                assert(table(entries@) =~= before.update(
                    i as int,
                    Total { name: name@, coefficient: s },
                ));
                true
            },
            None => false,
        }
    } else {
        match Rational::zero().checked_plus(c) {
            Some(s) => {
                entries.insert(i, Entry { name: name.clone(), coefficient: s });
                assert(table(entries@) =~= before.insert(
                    i as int,
                    Total { name: name@, coefficient: s },
                ));
                true
            },
            None => false,
        }
    }
}

/// Appends the terms of the sum `e` to `out`, from left to right.
fn flatten_into(out: &mut Vec<Expression>, e: Expression)
    requires
        all_wf(old(out)@),
        e.wf(),
    ensures
        all_wf(final(out)@),
        models(final(out)@) == models(old(out)@) + e@.flatten(),
    decreases e,
{
    match e {
        Expression::Add(a, b) => {
            flatten_into(out, *a);
            flatten_into(out, *b);
            assert(models(out@) =~= models(old(out)@) + e@.flatten());
        },
        t => {
            out.push(t);
            assert(models(out@) =~= models(old(out)@) + e@.flatten());
        },
    }
}

/// Joins the terms by `Add` from the left; the constant zero if there are none.
fn join(terms: &Vec<Expression>) -> (r: Expression)
    requires
        all_wf(terms@),
    ensures
        r.wf(),
        r@ == sum_of(models(terms@)),
{
    let n = terms.len();
    if n == 0 {
        return Expression::zero();
    }
    let ghost list = models(terms@);
    let mut acc = terms[0].clone();
    let mut i: usize = 1;
    assert(list.take(1) =~= seq![list[0]]);
    while i < n
        invariant
            1 <= i <= n,
            n == terms.len(),
            list == models(terms@),
            all_wf(terms@),
            acc.wf(),
            acc@ == sum_of(list.take(i as int)),
        decreases n - i,
    {
        assert(list.take(i + 1).drop_last() =~= list.take(i as int));
        acc = acc + terms[i].clone();
        i += 1;
    }
    assert(list.take(n as int) =~= list);
    acc
}

impl Expression {
    /// The sum of two rewritten terms (see [`ExprView::fold_sum`]).
    fn fold_sum(self, other: Expression) -> (r: Option<Expression>)
        requires
            self.wf(),
            other.wf(),
        ensures
            answers(r, self@.fold_sum(other@)),
    {
        match (self, other) {
            (Expression::Val(x), Expression::Val(y)) => Some(Expression::Val(x.checked_plus(y)?)),
            (a, b) => Some(a + b),
        }
    }

    /// The product of two rewritten terms (see [`ExprView::fold_product`]).
    fn fold_product(self, other: Expression) -> (r: Option<Expression>)
        requires
            self.wf(),
            other.wf(),
        ensures
            answers(r, self@.fold_product(other@)),
        decreases self@.size() + other@.size(),
    {
        match self {
            Expression::Add(a, b) => {
                let u = (*a).fold_product(other.clone())?;
                let v = (*b).fold_product(other)?;
                u.fold_sum(v)
            },
            Expression::Val(x) => match other {
                Expression::Val(y) => Some(Expression::Val(x.checked_times(y)?)),
                Expression::Var(y, name) => Some(Expression::Var(x.checked_times(y)?, name)),
                Expression::Add(a, b) => {
                    let u = (*a).fold_product(Expression::Val(x))?;
                    let v = (*b).fold_product(Expression::Val(x))?;
                    u.fold_sum(v)
                },
                c => Some(Expression::Val(x) * c),
            },
            Expression::Var(y, name) => match other {
                Expression::Val(x) => Some(Expression::Var(x.checked_times(y)?, name)),
                Expression::Add(a, b) => {
                    let u = (*a).fold_product(Expression::Var(y, name.clone()))?;
                    let v = (*b).fold_product(Expression::Var(y, name))?;
                    u.fold_sum(v)
                },
                c => Some(Expression::Var(y, name) * c),
            },
            t => match other {
                Expression::Add(a, b) => {
                    let u = (*a).fold_product(t.clone())?;
                    let v = (*b).fold_product(t)?;
                    u.fold_sum(v)
                },
                c => Some(t * c),
            },
        }
    }

    /// The inverse of a rewritten term (see [`ExprView::fold_inverse`]).
    fn fold_inverse(self) -> (r: Option<Expression>)
        requires
            self.wf(),
        ensures
            answers(r, self@.fold_inverse()),
    {
        match self {
            Expression::Val(x) => Some(Expression::Val(x.checked_recip()?)),
            t => Some(t.inv()),
        }
    }

    /// The first pass of simplification: the tree rewritten bottom-up, or
    /// `None` where that is undefined (see [`ExprView::rewrite`]).
    pub fn try_rewrite(&self) -> (r: Option<Expression>)
        requires
            self.wf(),
        ensures
            answers(r, self@.rewrite()),
        decreases self,
    {
        match self {
            Expression::Val(c) => Some(Expression::Val(*c)),
            Expression::Var(c, name) => Some(Expression::Var(*c, name.clone())),
            Expression::Add(a, b) => {
                let u = (&**a).try_rewrite()?;
                let v = (&**b).try_rewrite()?;
                u.fold_sum(v)
            },
            Expression::Mul(a, b) => {
                let u = (&**a).try_rewrite()?;
                let v = (&**b).try_rewrite()?;
                u.fold_product(v)
            },
            Expression::Inv(a) => {
                let u = (&**a).try_rewrite()?;
                u.fold_inverse()
            },
        }
    }

    /// The second pass of simplification: the terms of a rewritten tree,
    /// collected into one constant and one term per variable name; `None`
    /// where a total leaves 32 bits (see [`ExprView::collect`]).
    pub fn try_collect(self) -> (r: Option<Expression>)
        requires
            self.wf(),
        ensures
            answers(r, self@.collect()),
    {
        let ghost terms = self@.flatten();
        let mut flattened: Vec<Expression> = Vec::new();
        flatten_into(&mut flattened, self);
        assert(models(flattened@) =~= terms);
        let mut constant = Rational::zero();
        let mut entries: Vec<Entry> = Vec::new();
        let mut kept: Vec<Expression> = Vec::new();
        let mut i: usize = 0;
        assert(table(entries@) =~= Seq::<Total>::empty());
        assert(models(kept@) =~= Seq::<ExprView>::empty());
        while i < flattened.len()
            invariant
                i <= flattened.len(),
                terms == self@.flatten(),
                models(flattened@) == terms,
                all_wf(flattened@),
                Some(constant) == constant_total(terms.take(i as int)),
                Some(table(entries@)) == variable_totals(terms.take(i as int)),
                models(kept@) == others(terms.take(i as int)),
                constant.wf(),
                table_wf(entries@),
                all_wf(kept@),
            decreases flattened.len() - i,
        {
            proof {
                if constant_total(terms) is Some {
                    lemma_constant_total_prefix(terms, i + 1);
                }
                if variable_totals(terms) is Some {
                    lemma_variable_totals_prefix(terms, i + 1);
                }
                assert(terms.take(i + 1).drop_last() =~= terms.take(i as int));
                assert(terms.take(i + 1).last() == flattened[i as int]@);
                assert(flattened[i as int].wf());
            }
            match &flattened[i] {
                Expression::Val(x) => {
                    assert(constant_total(terms.take(i + 1)) == sum(constant, *x));
                    constant = constant.checked_plus(*x)?;
                },
                Expression::Var(x, name) => {
                    assert(variable_totals(terms.take(i + 1)) == accumulate(
                        table(entries@),
                        name@,
                        *x,
                    ));
                    if !add_to_table(&mut entries, name, *x) {
                        return None;
                    }
                },
                t => {
                    kept.push(t.clone());
                    assert(models(kept@) =~= others(terms.take(i + 1)));
                },
            }
            i += 1;
        }
        assert(terms.take(i as int) =~= terms);
        let ghost totals = table(entries@);
        let ghost front = others(terms);
        let mut j: usize = 0;
        assert(totals.take(0) =~= Seq::<Total>::empty());
        assert(front + monomials(totals.take(0)) =~= front);
        while j < entries.len()
            invariant
                j <= entries.len(),
                totals == table(entries@),
                table_wf(entries@),
                all_wf(kept@),
                models(kept@) == front + monomials(totals.take(j as int)),
            decreases entries.len() - j,
        {
            proof {
                assert(totals.take(j + 1).drop_last() =~= totals.take(j as int));
                assert(totals.take(j + 1).last() == entries[j as int]@);
            }
            if !entries[j].coefficient.is_zero() {
                let term = Expression::Var(entries[j].coefficient, entries[j].name.clone());
                assert(monomials(totals.take(j + 1)) == monomials(totals.take(j as int)).push(
                    term@,
                ));
                let ghost before = models(kept@);
                kept.push(term);
                assert(models(kept@) =~= before.push(term@));
                assert(before.push(term@) =~= front + monomials(totals.take(j + 1)));
            }
            j += 1;
        }
        assert(totals.take(j as int) =~= totals);
        if !constant.is_zero() {
            kept.push(Expression::Val(constant));
        }
        assert(models(kept@) =~= front + monomials(totals) + constant_term(constant));
        Some(join(&kept))
    }

    /// The canonical form of the expression, or `None` where a coefficient
    /// would leave 32 bits or the inverse of the constant zero is asked for.
    ///
    /// A result is in canonical form, has the value of this expression
    /// under every assignment of numbers to names, and is its own canonical
    /// form.
    pub fn try_simplify(&self) -> (r: Option<Expression>)
        requires
            self.wf(),
        ensures
            answers(r, self@.simplify()),
            r matches Some(e) ==> {
                &&& is_canonical(e@)
                &&& e@.simplify() == Some(e@)
                &&& forall|env: spec_fn(Seq<char>) -> real| #[trigger] e@.eval(env) == self@.eval(env)
            },
    {
        proof {
            if self@.simplify() is Some {
                lemma_simplify_is_canonical(self@);
                lemma_simplify_idempotent(self@);
                assert forall|env: spec_fn(Seq<char>) -> real|
                    #[trigger] self@.simplify().unwrap().eval(env) == self@.eval(env) by {
                    lemma_simplify_value(self@, env);
                }
            }
        }
        self.try_rewrite()?.try_collect()
    }

    /// The zero test, or `None` where the canonical form is undefined.
    ///
    /// The test goes by structure alone. An expression that it takes for
    /// zero is zero under every assignment of numbers to names; one that
    /// keeps a variable or an irreducible product or inverse never passes.
    pub fn try_is_zero(&self) -> (r: Option<bool>)
        requires
            self.wf(),
        ensures
            r == self@.is_zero(),
            r == Some(true) <==> self@.simplify() == Some(ExprView::zero()),
            r == Some(true) ==> forall|env: spec_fn(Seq<char>) -> real| #[trigger]
                self@.eval(env) == 0real,
    {
        proof {
            if self@.is_zero() == Some(true) {
                assert forall|env: spec_fn(Seq<char>) -> real| #[trigger]
                    self@.eval(env) == 0real by {
                    lemma_zero_test_sound(self@, env);
                }
            }
        }
        match self.try_simplify()? {
            Expression::Val(c) => {
                proof {
                    if c.numer == 0 {
                        lemma_zero_is_unique(c);
                    }
                }
                Some(c.is_zero())
            },
            _ => Some(false),
        }
    }

    /// The first pass of simplification, where it is defined.
    pub fn rewrite(&self) -> (r: Expression)
        requires
            self.wf(),
            self@.rewrite() is Some,
        ensures
            r.wf(),
            Some(r@) == self@.rewrite(),
    {
        self.try_rewrite().unwrap()
    }

    /// The second pass of simplification, where it is defined.
    pub fn collect(self) -> (r: Expression)
        requires
            self.wf(),
            self@.collect() is Some,
        ensures
            r.wf(),
            Some(r@) == self@.collect(),
    {
        self.try_collect().unwrap()
    }

    /// The canonical form of the expression: a tree in canonical form that
    /// has the value of this one under every assignment of numbers to
    /// names, and that is its own canonical form.
    ///
    /// Needs every coefficient that arises to stay within 32 bits, and no
    /// inverse of the constant zero: that is, [`ExprView::simplify`]
    /// defined. [`Expression::try_simplify`] tests that on the way.
    pub fn simplify(&self) -> (r: Expression)
        requires
            self.wf(),
            self@.simplify() is Some,
        ensures
            r.wf(),
            Some(r@) == self@.simplify(),
            is_canonical(r@),
            r@.simplify() == Some(r@),
            forall|env: spec_fn(Seq<char>) -> real| #[trigger] r@.eval(env) == self@.eval(env),
    {
        self.try_simplify().unwrap()
    }

    /// Whether the canonical form of the expression is the constant zero,
    /// where the canonical form is defined.
    ///
    /// The test goes by structure alone. An expression that it takes for
    /// zero is zero under every assignment of numbers to names; one that
    /// keeps a variable or an irreducible product or inverse never passes.
    pub fn is_zero(&self) -> (b: bool)
        requires
            self.wf(),
            self@.is_zero() is Some,
        ensures
            Some(b) == self@.is_zero(),
            b <==> self@.simplify() == Some(ExprView::zero()),
            b ==> forall|env: spec_fn(Seq<char>) -> real| #[trigger] self@.eval(env) == 0real,
    {
        self.try_is_zero().unwrap()
    }
}

} // verus!
