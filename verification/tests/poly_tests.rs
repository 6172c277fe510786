use jolt_core::field::{FieldOps, Fp};
use jolt_core::poly::DensePolynomial;
use jolt_core::AlgebraError;

fn fe(x: u64) -> Fp {
    Fp::sample(x)
}

#[test]
fn construct_rejects_bad_shapes() {
    assert!(matches!(
        DensePolynomial::<Fp>::new(vec![]),
        Err(AlgebraError::InvalidShape)
    ));
    assert!(matches!(
        DensePolynomial::new(vec![fe(1), fe(2), fe(3)]),
        Err(AlgebraError::InvalidShape)
    ));
    assert!(matches!(
        DensePolynomial::new(vec![fe(1), fe(2), fe(3), fe(4), fe(5), fe(6)]),
        Err(AlgebraError::InvalidShape)
    ));
}

#[test]
fn construct_accepts_powers_of_two() {
    let p = DensePolynomial::new(vec![fe(7)]).unwrap();
    assert_eq!(p.num_vars(), 0);
    let p = DensePolynomial::new(vec![fe(1), fe(2)]).unwrap();
    assert_eq!(p.num_vars(), 1);
    let p = DensePolynomial::new(vec![fe(1), fe(2), fe(3), fe(4), fe(5), fe(6), fe(7), fe(8)])
        .unwrap();
    assert_eq!(p.num_vars(), 3);
}

#[test]
fn bind_matches_scenario() {
    // Evaluations [1, 2, 3, 4] over two variables; binding the top variable
    // to 5 interpolates the halves: [1 + 5*(3-1), 2 + 5*(4-2)] = [11, 12].
    let mut p = DensePolynomial::new(vec![fe(1), fe(2), fe(3), fe(4)]).unwrap();
    assert_eq!(p.num_vars(), 2);
    p.bind_top_variable(fe(5)).unwrap();
    assert_eq!(p.num_vars(), 1);
    assert_eq!(p.len(), 2);
    assert_eq!(p.entry(0).to_u64(), 11);
    assert_eq!(p.entry(1).to_u64(), 12);
}

#[test]
fn evaluate_matches_scenario() {
    // Evaluating [1, 2, 3, 4] at [5, y] equals 11 + y.
    let p = DensePolynomial::new(vec![fe(1), fe(2), fe(3), fe(4)]).unwrap();
    let at_y0 = p.evaluate(&vec![fe(5), fe(0)]).unwrap();
    assert_eq!(at_y0.to_u64(), 11);
    let at_y1 = p.evaluate(&vec![fe(5), fe(1)]).unwrap();
    assert_eq!(at_y1.to_u64(), 12);
    let at_y2 = p.evaluate(&vec![fe(5), fe(2)]).unwrap();
    assert_eq!(at_y2.to_u64(), (11 + 2) % 13);
}

#[test]
fn bind_zero_and_one_select_halves() {
    let table = vec![fe(9), fe(4), fe(6), fe(12)];
    let mut low = DensePolynomial::new(table.clone()).unwrap();
    low.bind_top_variable(fe(0)).unwrap();
    assert_eq!(low.entry(0).to_u64(), 9);
    assert_eq!(low.entry(1).to_u64(), 4);
    let mut high = DensePolynomial::new(table).unwrap();
    high.bind_top_variable(fe(1)).unwrap();
    assert_eq!(high.entry(0).to_u64(), 6);
    assert_eq!(high.entry(1).to_u64(), 12);
}

#[test]
fn bind_halves_table_and_consumes_variable() {
    let mut p = DensePolynomial::new(vec![fe(1), fe(2), fe(3), fe(4), fe(5), fe(6), fe(7), fe(8)])
        .unwrap();
    assert_eq!(p.num_vars(), 3);
    assert_eq!(p.len(), 8);
    p.bind_top_variable(fe(2)).unwrap();
    assert_eq!(p.num_vars(), 2);
    assert_eq!(p.len(), 4);
    p.bind_top_variable(fe(3)).unwrap();
    assert_eq!(p.num_vars(), 1);
    assert_eq!(p.len(), 2);
    p.bind_top_variable(fe(4)).unwrap();
    assert_eq!(p.num_vars(), 0);
    assert_eq!(p.len(), 1);
    assert!(matches!(
        p.bind_top_variable(fe(1)),
        Err(AlgebraError::NoVariablesRemaining)
    ));
    // A failed binding leaves the polynomial unchanged.
    assert_eq!(p.num_vars(), 0);
    assert_eq!(p.len(), 1);
}

#[test]
fn evaluate_equals_repeated_binding() {
    let table = vec![fe(3), fe(1), fe(4), fe(1), fe(5), fe(9), fe(2), fe(6)];
    let point = vec![fe(7), fe(11), fe(2)];
    let p = DensePolynomial::new(table.clone()).unwrap();
    let direct = p.evaluate(&point).unwrap();
    let mut q = DensePolynomial::new(table).unwrap();
    for r in point.iter() {
        q.bind_top_variable(*r).unwrap();
    }
    assert_eq!(q.num_vars(), 0);
    assert_eq!(q.entry(0).to_u64(), direct.to_u64());
}

#[test]
fn evaluate_rejects_wrong_dimension() {
    let p = DensePolynomial::new(vec![fe(1), fe(2), fe(3), fe(4)]).unwrap();
    assert!(matches!(
        p.evaluate(&vec![fe(5)]),
        Err(AlgebraError::DimensionMismatch)
    ));
    assert!(matches!(
        p.evaluate(&vec![fe(5), fe(6), fe(7)]),
        Err(AlgebraError::DimensionMismatch)
    ));
    // The rejected call does not consume the polynomial's variables.
    assert_eq!(p.num_vars(), 2);
}
