use symalg::expr::Expression;
use symalg::matrix::{
    find_pivot, is_well_formed, new_matrix, reduce, scale, subtract, try_find_pivot, try_reduce,
};
use symalg::rational::Rational;

fn constant(n: i32) -> Expression {
    Expression::Val(Rational::from_integer(n))
}

fn product(a: Expression, b: Expression) -> Expression {
    Expression::Mul(Box::new(a), Box::new(b))
}

fn sum(a: Expression, b: Expression) -> Expression {
    Expression::Add(Box::new(a), Box::new(b))
}

fn inverse(a: Expression) -> Expression {
    Expression::Inv(Box::new(a))
}

fn texts(m: &Vec<Vec<Expression>>) -> Vec<Vec<String>> {
    m.iter().map(|r| r.iter().map(|e| e.simplify().to_string()).collect()).collect()
}

#[test]
fn new_matrix_maps_integers_to_constants() {
    let m = new_matrix(vec![vec![1, -2], vec![0, 3]]);
    assert_eq!(m, vec![vec![constant(1), constant(-2)], vec![constant(0), constant(3)]]);
    assert_eq!(new_matrix(vec![]), Vec::<Vec<Expression>>::new());
    assert_eq!(new_matrix(vec![vec![], vec![]]), vec![vec![], vec![]]);
}

#[test]
fn scale_multiplies_each_entry_from_the_left() {
    let row = vec![constant(1), Expression::new_var("x")];
    let out = scale(&row, constant(2));
    assert_eq!(
        out,
        vec![product(constant(2), constant(1)), product(constant(2), Expression::new_var("x"))]
    );
}

#[test]
fn subtract_adds_the_negated_entries() {
    let r = vec![constant(5), Expression::new_var("x")];
    let s = vec![constant(3), constant(1), constant(9)];
    let out = subtract(&r, &s);
    assert_eq!(
        out,
        vec![
            sum(constant(5), product(constant(3), constant(-1))),
            sum(Expression::new_var("x"), product(constant(1), constant(-1))),
        ]
    );
}

#[test]
fn pivot_is_the_first_entry_that_is_not_zero() {
    let x = Expression::new_var("x");
    assert_eq!(find_pivot(&vec![constant(0), constant(2), constant(3)]), Some(1));
    assert_eq!(find_pivot(&vec![constant(0), x.clone() - x.clone(), x.clone()]), Some(2));
    assert_eq!(find_pivot(&vec![constant(0), constant(0)]), None);
    assert_eq!(find_pivot(&vec![]), None);
}

#[test]
fn reduce_of_a_single_entry_divides_it_by_itself() {
    let r = reduce(new_matrix(vec![vec![2]]));
    let unit = product(constant(1), inverse(constant(2)));
    assert_eq!(r, vec![vec![product(unit, constant(2))]]);
}

#[test]
fn reduce_passes_over_rows_without_pivot() {
    let m = new_matrix(vec![vec![0, 0], vec![0, 0]]);
    assert_eq!(reduce(m.clone()), m);
    assert_eq!(reduce(Vec::new()), Vec::<Vec<Expression>>::new());
    assert_eq!(reduce(vec![vec![], vec![]]), vec![Vec::<Expression>::new(), Vec::new()]);
}

#[test]
fn forward_phase_rescales_the_row_below() {
    // Rows (2) and (4): the first becomes (1/2 * 2), and the second is
    // divided by its own entry before the first is subtracted.
    let r = reduce(new_matrix(vec![vec![2], vec![4]]));
    let first = product(product(constant(1), inverse(constant(2))), constant(2));
    let second = sum(
        product(product(constant(1), inverse(constant(4))), constant(4)),
        product(first.clone(), constant(-1)),
    );
    assert_eq!(r, vec![vec![first], vec![second]]);
    assert_eq!(texts(&r), vec![vec!["1"], vec!["0"]]);
}

#[test]
fn forward_phase_leaves_rows_with_zero_entry() {
    let r = reduce(new_matrix(vec![vec![1, 1], vec![0, 0]]));
    let unit = product(constant(1), inverse(constant(1)));
    assert_eq!(r[0], vec![product(unit.clone(), constant(1)), product(unit, constant(1))]);
    assert_eq!(r[1], vec![constant(0), constant(0)]);
}

#[test]
fn backward_phase_subtracts_a_multiple_of_the_pivot_row() {
    // Rows (1 2) and (0 1): only the backward phase changes the first row,
    // to itself less its second entry times the second row.
    let r = reduce(new_matrix(vec![vec![1, 2], vec![0, 1]]));
    let unit = product(constant(1), inverse(constant(1)));
    let a = product(unit.clone(), constant(1));
    let b = product(unit.clone(), constant(2));
    let c = product(unit.clone(), constant(0));
    let d = product(unit, constant(1));
    assert_eq!(r[1], vec![c.clone(), d.clone()]);
    assert_eq!(
        r[0],
        vec![
            sum(a, product(product(b.clone(), c), constant(-1))),
            sum(b.clone(), product(product(b, d), constant(-1))),
        ]
    );
    assert_eq!(texts(&r), vec![vec!["1", "0"], vec!["0", "1"]]);
}

#[test]
fn reduces_augmented_system_to_identity() {
    let rows = vec![vec![1, 2, 0, -1], vec![2, 0, 1, 0], vec![1, 1, 0, 2]];
    let names = ["a", "b", "c"];
    let mut m = new_matrix(rows.clone());
    for i in 0..3 {
        m[i].push(Expression::new_var(names[i]));
    }
    let r = reduce(m);
    assert_eq!(r.len(), 3);
    for i in 0..3 {
        assert_eq!(r[i].len(), 5);
        for j in 0..3 {
            let expected = if i == j { constant(1) } else { constant(0) };
            assert_eq!(r[i][j].simplify(), expected);
        }
    }
    assert_eq!(
        texts(&r),
        vec![
            vec!["1", "0", "0", "5", "-a+2c"],
            vec!["0", "1", "0", "-3", "a+-c"],
            vec!["0", "0", "1", "-10", "2a+b+-4c"],
        ]
    );
    // The last column solves the system: put back into each given
    // equation, it gives that equation's own variable.
    for k in 0..3 {
        let mut e = Expression::zero();
        for j in 0..3 {
            e = e + constant(rows[k][j]) * r[j][4].clone();
        }
        assert_eq!(e.simplify(), Expression::new_var(names[k]));
    }
}

#[test]
fn reduces_overdetermined_system() {
    let m = new_matrix(vec![vec![1, -1, 1], vec![-2, 3, -1], vec![1, -6, -4], vec![2, -1, 3]]);
    let r = reduce(m);
    assert_eq!(r.len(), 4);
    let t = texts(&r);
    assert_eq!(
        t,
        vec![vec!["1", "0", "2"], vec!["0", "1", "1"], vec!["0", "0", "0"], vec!["0", "0", "0"]]
    );
    assert!(r.iter().any(|row| row.iter().all(|e| e.is_zero())));
    // Each row that is not zero has a 1 at its pivot, and the other rows
    // have 0 in that column.
    for i in 0..4 {
        if let Some(j) = find_pivot(&r[i]) {
            for k in 0..4 {
                let expected = if k == i { constant(1) } else { constant(0) };
                assert_eq!(r[k][j].simplify(), expected);
            }
        }
    }
}

#[test]
fn reduce_keeps_symbolic_pivots() {
    // A variable is never zero to the zero test, so it serves as a pivot.
    let m = vec![vec![Expression::new_var("x"), constant(1)]];
    let r = reduce(m);
    let unit = product(constant(1), inverse(Expression::new_var("x")));
    assert_eq!(
        r,
        vec![vec![product(unit.clone(), Expression::new_var("x")), product(unit, constant(1))]]
    );
}

#[test]
fn try_reduce_agrees_with_reduce() {
    let m = new_matrix(vec![vec![1, 2], vec![3, 4]]);
    assert_eq!(try_reduce(m.clone()), Some(reduce(m)));
}

#[test]
fn try_reduce_is_none_where_a_zero_test_is_undefined() {
    let bad = inverse(constant(0));
    assert_eq!(try_find_pivot(&vec![constant(0), bad.clone()]), None);
    assert_eq!(try_find_pivot(&vec![constant(1), bad.clone()]), Some(Some(0)));
    assert_eq!(try_find_pivot(&vec![constant(0)]), Some(None));
    assert_eq!(try_reduce(vec![vec![bad.clone()]]), None);
    // The entry below the pivot is tested in the forward phase.
    assert_eq!(try_reduce(vec![vec![constant(1)], vec![bad.clone()]]), None);
    // An entry behind a pivot is never tested.
    let m = vec![vec![constant(1), bad]];
    assert!(try_reduce(m).is_some());
}

#[test]
fn try_reduce_is_none_where_a_coefficient_leaves_32_bits() {
    let m = vec![vec![constant(i32::MAX) + constant(1)]];
    assert_eq!(try_reduce(m), None);
}

#[test]
fn well_formed_matrices_are_rectangular() {
    assert!(is_well_formed(&new_matrix(vec![vec![1, 2], vec![3, 4]])));
    assert!(is_well_formed(&new_matrix(vec![])));
    assert!(is_well_formed(&new_matrix(vec![vec![], vec![]])));
    assert!(!is_well_formed(&new_matrix(vec![vec![1, 2], vec![3]])));
    assert!(!is_well_formed(&new_matrix(vec![vec![1], vec![2, 3]])));
    let bad = Expression::Val(Rational { numer: 1, denom: 0 });
    assert!(!is_well_formed(&vec![vec![constant(1), bad]]));
}
