//! The collective-flip beacon, its dispatch wrapper, and the currency
//! identifier's byte form.

use randao::currency::CurrencyId;
use randao::flip::{Action, CollectiveFlip, RandomnessOutput, RandomnessWrapper, MATERIAL_LEN};
use randao::hashing::Hash256;

fn h(x: u64) -> Hash256 {
    Hash256 { w0: x, w1: 2 * x, w2: 3 * x, w3: 5 * x }
}

#[test]
fn material_window_is_bounded() {
    let mut flip = CollectiveFlip::new();
    assert!(flip.random_material().is_empty());
    for b in 0..(MATERIAL_LEN as u64 + 1) {
        flip.note_block(b + 1, h(b));
    }
    let material = flip.random_material();
    assert_eq!(material.len(), MATERIAL_LEN);
    // The oldest contribution was dropped.
    assert_eq!(material[0], h(1));
    assert_eq!(material[MATERIAL_LEN - 1], h(MATERIAL_LEN as u64));
    assert_eq!(flip.last_change, MATERIAL_LEN as u64 + 1);
}

#[test]
fn random_is_deterministic_in_subject_and_material() {
    let mut flip = CollectiveFlip::new();
    flip.note_block(1, h(10));
    flip.note_block(2, h(11));
    let (v1, b1) = flip.random(&b"alpha".to_vec());
    let (v2, b2) = flip.random(&b"alpha".to_vec());
    assert_eq!(v1, v2);
    assert_eq!(b1, 2);
    assert_eq!(b2, 2);
    // A different subject gives a different value.
    let (v3, _) = flip.random(&b"beta".to_vec());
    assert_ne!(v1, v3);
    // More material changes the value for the same subject.
    flip.note_block(3, h(12));
    let (v4, b4) = flip.random(&b"alpha".to_vec());
    assert_ne!(v1, v4);
    assert_eq!(b4, 3);
}

#[test]
fn random_does_not_echo_its_input() {
    // The output must come out of the digest, not out of the subject or
    // the material handed in.
    let mut flip = CollectiveFlip::new();
    flip.note_block(1, h(10));
    let (v, _) = flip.random(&Vec::new());
    assert_ne!(v, h(10));
    assert_ne!(v, Hash256 { w0: 0, w1: 0, w2: 0, w3: 0 });
}

#[test]
fn execute_dispatches_by_selector() {
    let mut w = RandomnessWrapper::new();
    w.flip.note_block(1, h(10));
    let direct = w.collective_flip_random(&b"subject".to_vec());
    match w.execute(Action::CollectiveFlipRandom, &b"subject".to_vec()) {
        RandomnessOutput::Random(v, b) => {
            assert_eq!(v, direct.0);
            assert_eq!(b, direct.1);
        },
        RandomnessOutput::Material(_) => panic!("wrong variant"),
    }
    match w.execute(Action::CollectiveFlipSeed, &Vec::new()) {
        RandomnessOutput::Material(m) => assert_eq!(m, vec![h(10)]),
        RandomnessOutput::Random(_, _) => panic!("wrong variant"),
    }
}

#[test]
fn currency_id_byte_form() {
    assert_eq!(CurrencyId::Native.into_bytes(), b"GLMR".to_vec());
    assert_eq!(
        CurrencyId::Token(vec![1, 2, 3]).into_bytes(),
        vec![1, 2, 3]
    );
}
