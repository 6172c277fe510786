use jolt_core::field::{FieldOps, Fp, FIELD_MODULUS};
use jolt_core::group::{group_element_at, CyclicGroup, GroupOps};
use jolt_core::msm::{compute, msm_naive, scalar_mul};
use jolt_core::AlgebraError;

fn fe(x: u64) -> Fp {
    Fp::sample(x)
}

#[test]
fn scalar_mul_matches_modular_product() {
    for s in 0..FIELD_MODULUS {
        for b in 0..FIELD_MODULUS {
            let r = scalar_mul(group_element_at(b), fe(s));
            assert_eq!(r, group_element_at(s * b % FIELD_MODULUS));
        }
    }
}

#[test]
fn compute_matches_scenario() {
    // Scalars [2, 3, 0] over three bases: the zero-scalar term contributes
    // the identity, so the result is 2*base0 + 3*base1.
    let bases = vec![group_element_at(1), group_element_at(2), group_element_at(7)];
    let scalars = vec![fe(2), fe(3), fe(0)];
    let r = compute(&bases, &scalars).unwrap();
    let expected = scalar_mul(bases[0], fe(2)).gadd(scalar_mul(bases[1], fe(3)));
    assert_eq!(r, expected);
    assert_eq!(r, group_element_at((2 * 1 + 3 * 2) % FIELD_MODULUS));
}

#[test]
fn compute_matches_naive_on_random_inputs() {
    for n in 1..=64usize {
        let mut bases: Vec<CyclicGroup> = Vec::new();
        let mut scalars: Vec<Fp> = Vec::new();
        for _ in 0..n {
            bases.push(group_element_at(rand::random::<u64>()));
            scalars.push(Fp::sample(rand::random::<u64>()));
        }
        let windowed = compute(&bases, &scalars).unwrap();
        let naive = msm_naive(&bases, &scalars).unwrap();
        assert_eq!(windowed, naive);
    }
}

#[test]
fn compute_rejects_mismatched_lengths() {
    let bases = vec![group_element_at(1), group_element_at(2)];
    let scalars = vec![fe(1)];
    assert!(matches!(
        compute(&bases, &scalars),
        Err(AlgebraError::LengthMismatch)
    ));
    assert!(matches!(
        msm_naive(&bases, &scalars),
        Err(AlgebraError::LengthMismatch)
    ));
}

#[test]
fn compute_of_empty_inputs_is_identity() {
    let bases: Vec<CyclicGroup> = Vec::new();
    let scalars: Vec<Fp> = Vec::new();
    let r = compute(&bases, &scalars).unwrap();
    assert_eq!(r, group_element_at(0));
    let r = msm_naive(&bases, &scalars).unwrap();
    assert_eq!(r, group_element_at(0));
}

#[test]
fn zero_scalars_contribute_identity() {
    let bases = vec![group_element_at(5), group_element_at(9)];
    let scalars = vec![fe(0), fe(0)];
    let r = compute(&bases, &scalars).unwrap();
    assert_eq!(r, group_element_at(0));
}
