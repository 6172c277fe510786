use jolt_core::field::{batch_inverse, random_element, FieldOps, Fp, FIELD_MODULUS};
use jolt_core::AlgebraError;

fn fe(x: u64) -> Fp {
    Fp::sample(x)
}

#[test]
fn arithmetic_is_exact_mod_p() {
    assert_eq!(fe(6).fadd(fe(9)).to_u64(), 2);
    assert_eq!(fe(6).fsub(fe(9)).to_u64(), 10);
    assert_eq!(fe(6).fmul(fe(9)).to_u64(), 2);
    assert_eq!(fe(6).fneg().to_u64(), 7);
    assert_eq!(fe(0).fneg().to_u64(), 0);
    assert_eq!(Fp::zero().to_u64(), 0);
    assert_eq!(Fp::one().to_u64(), 1);
}

#[test]
fn sampling_reduces_entropy_canonically() {
    assert_eq!(fe(u64::MAX).to_u64(), u64::MAX % FIELD_MODULUS);
    for _ in 0..32 {
        let r: Fp = random_element();
        assert!(r.to_u64() < FIELD_MODULUS);
    }
}

#[test]
fn every_nonzero_element_inverts() {
    for v in 1..FIELD_MODULUS {
        let inv = fe(v).finv().unwrap();
        assert_eq!(inv.to_u64() * v % FIELD_MODULUS, 1);
    }
}

#[test]
fn zero_is_not_invertible() {
    assert!(matches!(fe(0).finv(), Err(AlgebraError::NotInvertible)));
    assert!(matches!(
        fe(FIELD_MODULUS).finv(),
        Err(AlgebraError::NotInvertible)
    ));
}

#[test]
fn batch_inversion_inverts_every_entry() {
    let elems = vec![fe(1), fe(5), fe(12), fe(7), fe(7), fe(2)];
    let invs = batch_inverse(&elems).unwrap();
    assert_eq!(invs.len(), elems.len());
    for (inv, e) in invs.iter().zip(elems.iter()) {
        assert_eq!(inv.to_u64() * e.to_u64() % FIELD_MODULUS, 1);
    }
    let empty: Vec<Fp> = Vec::new();
    assert_eq!(batch_inverse(&empty).unwrap().len(), 0);
}

#[test]
fn batch_inversion_rejects_a_zero_entry() {
    let elems = vec![fe(1), fe(0), fe(12)];
    assert!(matches!(
        batch_inverse(&elems),
        Err(AlgebraError::NotInvertible)
    ));
}
