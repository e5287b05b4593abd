use base79::engine::{between, Bound};
use base79::Base79;

#[test]
fn between_the_absolute_bounds() {
    assert_eq!(between(&Bound::Below, &Bound::Above), vec![39]);
}

#[test]
fn between_zero_and_a_key() {
    assert_eq!(between(&Bound::Below, &Bound::Finite(vec![39])), vec![19]);
    assert_eq!(between(&Bound::Below, &Bound::Finite(vec![3, 70])), vec![1]);
}

#[test]
fn between_a_key_and_one() {
    assert_eq!(between(&Bound::Finite(vec![39]), &Bound::Above), vec![59]);
    assert_eq!(between(&Bound::Finite(vec![77]), &Bound::Above), vec![78]);
    assert_eq!(between(&Bound::Finite(vec![78, 78]), &Bound::Above), vec![78, 78, 39]);
}

#[test]
fn between_two_keys() {
    assert_eq!(between(&Bound::Finite(vec![19]), &Bound::Finite(vec![39])), vec![29]);
    assert_eq!(between(&Bound::Finite(vec![39]), &Bound::Finite(vec![40])), vec![39, 39]);
    assert_eq!(between(&Bound::Finite(vec![39, 5]), &Bound::Finite(vec![40, 5])), vec![39, 42]);
    assert_eq!(between(&Bound::Finite(vec![10, 20]), &Bound::Finite(vec![10, 20, 1])), vec![10, 20, 0, 39]);
}

#[test]
fn between_reads_a_missing_digit_as_zero() {
    assert_eq!(between(&Bound::Finite(vec![5]), &Bound::Finite(vec![5, 2])), vec![5, 1]);
}

#[test]
fn between_is_deterministic() {
    let lo = Bound::Finite(vec![12, 78, 78]);
    let hi = Bound::Finite(vec![13]);
    assert_eq!(between(&lo, &hi), between(&lo, &hi));
    assert_eq!(between(&lo, &hi), vec![12, 78, 78, 39]);
}

#[test]
fn string_from_key() {
    let s: String = String::from(Base79::mid());
    assert_eq!(s, "R");
}
