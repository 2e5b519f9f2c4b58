//! The request lifecycle: windows, commitments, reveals, finalization,
//! slashing, and the member-obligation rule.

use randao::hashing::{commitment_of, Hash256};
use randao::pallet::{Error, Event, Origin, Pallet, RandaoInfo, SlashReason};

fn params(coordinator: u64) -> RandaoInfo {
    RandaoInfo {
        coordinator,
        fee: 5,
        deposit: 100,
        absent_penalty: 10,
        commit_no_reveal_penalty: 50,
        commitment_delay: 5,
        reveal_delay: 5,
    }
}

fn h(x: u64) -> Hash256 {
    Hash256 { w0: x, w1: x ^ 0xdead, w2: x.wrapping_mul(31), w3: !x }
}

/// A beacon with group 0 (coordinator 7, members 1, 2, 3) and an open
/// request 0 from requester 9, started at block 0.
fn setup() -> Pallet {
    let mut p = Pallet::new();
    p.register_group(Origin::Root, params(7)).unwrap();
    for a in [1u64, 2, 3] {
        p.endow(a, 100).unwrap();
    }
    p.endow(9, 5).unwrap();
    p.set_members(7, 0, vec![1, 2, 3], vec![]).unwrap();
    assert_eq!(p.request_randomness(9, 0), Ok(0));
    p
}

#[test]
fn request_randomness_charges_fee_and_records_request() {
    let p = setup();
    assert_eq!(p.balance_of(9).free, 0);
    assert_eq!(p.request_id_counter(), 1);
    let info = p.request_info(0).unwrap();
    assert_eq!(info.requester, 9);
    assert_eq!(info.group, 0);
    assert_eq!(info.started, 0);
    assert_eq!(
        p.events.last().unwrap(),
        &Event::RandomnessRequested(0, 0, 5, 10)
    );
}

#[test]
fn request_randomness_errors() {
    let mut p = Pallet::new();
    p.register_group(Origin::Root, params(7)).unwrap();
    assert_eq!(p.request_randomness(9, 1), Err(Error::GroupNotFound));
    assert_eq!(p.request_randomness(9, 0), Err(Error::GroupEmpty));
    p.endow(1, 100).unwrap();
    p.set_members(7, 0, vec![1], vec![]).unwrap();
    assert_eq!(p.request_randomness(9, 0), Err(Error::InsufficientBalance));
}

#[test]
fn commit_window_boundaries() {
    let mut p = setup();
    // Block 5 == started + commitment_delay: the last block a commitment
    // is accepted at.
    p.set_block_number(5);
    assert_eq!(p.commit(1, 0, commitment_of(&h(1))), Ok(()));
    // One block later the window is closed.
    let mut q = setup();
    q.set_block_number(6);
    assert_eq!(q.commit(1, 0, commitment_of(&h(1))), Err(Error::NotInCommitWindow));
}

#[test]
fn commit_errors() {
    let mut p = setup();
    assert_eq!(p.commit(1, 9, h(0)), Err(Error::RequestNotFound));
    assert_eq!(p.commit(42, 0, h(0)), Err(Error::NotAMember));
    assert_eq!(p.commit(1, 0, commitment_of(&h(1))), Ok(()));
    assert_eq!(p.commit(1, 0, commitment_of(&h(1))), Err(Error::AlreadyCommitted));
}

#[test]
fn reveal_window_boundaries() {
    let mut p = setup();
    let secret = h(1);
    p.commit(1, 0, commitment_of(&secret)).unwrap();
    // Still inside the commit window: reveals are not open yet.
    p.set_block_number(5);
    assert_eq!(p.reveal_secret(1, 0, secret), Err(Error::NotInRevealWindow));
    // Block 6 == started + commitment_delay + 1: first reveal block.
    p.set_block_number(6);
    assert_eq!(p.reveal_secret(1, 0, secret), Ok(()));

    let mut q = setup();
    let s2 = h(2);
    q.commit(2, 0, commitment_of(&s2)).unwrap();
    // Block 10 == started + commitment_delay + reveal_delay: the last
    // reveal block.
    q.set_block_number(10);
    assert_eq!(q.reveal_secret(2, 0, s2), Ok(()));

    let mut r = setup();
    let s3 = h(3);
    r.commit(3, 0, commitment_of(&s3)).unwrap();
    r.set_block_number(11);
    assert_eq!(r.reveal_secret(3, 0, s3), Err(Error::NotInRevealWindow));
}

#[test]
fn reveal_succeeds_only_on_matching_secret() {
    let mut p = setup();
    let secret = h(1);
    p.commit(1, 0, commitment_of(&secret)).unwrap();
    p.set_block_number(6);
    // A wrong secret is rejected and records nothing.
    assert_eq!(p.reveal_secret(1, 0, h(99)), Err(Error::CommitmentMismatch));
    assert!(p.requests[0].1.parts[0].1.secret.is_none());
    // The matching secret still goes through afterwards.
    assert_eq!(p.reveal_secret(1, 0, secret), Ok(()));
    assert_eq!(p.reveal_secret(1, 0, secret), Err(Error::AlreadyRevealed));
}

#[test]
fn reveal_requires_a_commitment() {
    let mut p = setup();
    p.set_block_number(6);
    assert_eq!(p.reveal_secret(1, 0, h(1)), Err(Error::NoCommitment));
    assert_eq!(p.reveal_secret(42, 0, h(1)), Err(Error::NoCommitment));
    assert_eq!(p.reveal_secret(1, 9, h(1)), Err(Error::RequestNotFound));
}

#[test]
fn commitment_is_a_real_digest_not_the_secret_itself() {
    // Committing the secret itself must not let the reveal through: the
    // stored commitment is compared against the secret's digest.
    let mut p = setup();
    let secret = h(1);
    assert_ne!(commitment_of(&secret), secret);
    assert_ne!(commitment_of(&secret), commitment_of(&h(2)));
    p.commit(1, 0, secret).unwrap();
    p.set_block_number(6);
    assert_eq!(p.reveal_secret(1, 0, secret), Err(Error::CommitmentMismatch));
}

#[test]
fn finalize_slashes_by_participation() {
    // Group: deposit 100, absent 10%, commit-no-reveal 50%.  Member 1
    // commits and reveals, member 2 commits only, member 3 does nothing.
    let mut p = setup();
    let sa = h(1);
    p.commit(1, 0, commitment_of(&sa)).unwrap();
    p.commit(2, 0, commitment_of(&h(2))).unwrap();
    p.set_block_number(6);
    p.reveal_secret(1, 0, sa).unwrap();
    p.set_block_number(10);
    assert_eq!(p.finalize(0), Err(Error::RevealWindowNotElapsed));
    p.set_block_number(11);
    let out = p.finalize(0).unwrap();
    // Exactly one reveal: the output is derived from member 1's secret
    // alone.
    assert_eq!(out, sa);
    assert_eq!(p.balance_of(1).reserved, 100);
    assert_eq!(p.balance_of(2).reserved, 50);
    assert_eq!(p.balance_of(3).reserved, 90);
    let n: usize = p.events.len();
    assert_eq!(
        &p.events[n - 3..],
        &[
            Event::MemberSlashed(0, 2, 50, SlashReason::CommitNoReveal),
            Event::MemberSlashed(0, 3, 10, SlashReason::Absent),
            Event::RandomnessFulfilled(0, 0, sa),
        ]
    );
    // The request's storage is reclaimed.
    assert!(p.request_info(0).is_none());
}

#[test]
fn finalize_with_zero_reveals_still_succeeds() {
    let mut p = setup();
    p.set_block_number(11);
    let out = p.finalize(0).unwrap();
    // The documented degraded output: the all-zero hash.
    assert_eq!(out, Hash256 { w0: 0, w1: 0, w2: 0, w3: 0 });
    for a in [1u64, 2, 3] {
        assert_eq!(p.balance_of(a).reserved, 90);
    }
}

#[test]
fn finalize_twice_fails_without_further_slashing() {
    let mut p = setup();
    p.set_block_number(11);
    p.finalize(0).unwrap();
    let reserved_after: Vec<u64> = [1u64, 2, 3].iter().map(|a| p.balance_of(*a).reserved).collect();
    let events_after: usize = p.events.len();
    assert_eq!(p.finalize(0), Err(Error::AlreadyFinalized));
    // No additional slashing or payout happened.
    let reserved_again: Vec<u64> = [1u64, 2, 3].iter().map(|a| p.balance_of(*a).reserved).collect();
    assert_eq!(reserved_after, reserved_again);
    assert_eq!(p.events.len(), events_after);
    // An identifier never allocated is a different error.
    assert_eq!(p.finalize(77), Err(Error::RequestNotFound));
}

#[test]
fn member_with_open_obligation_cannot_be_removed() {
    let mut p = setup();
    assert_eq!(
        p.set_members(7, 0, vec![], vec![1]),
        Err(Error::MemberHasActiveObligation)
    );
    assert_eq!(p.group_members(0).unwrap(), vec![1, 2, 3]);
    // Once the request finalizes, the removal goes through.
    p.set_block_number(11);
    p.finalize(0).unwrap();
    assert_eq!(p.set_members(7, 0, vec![], vec![1]), Ok(()));
    assert_eq!(p.group_members(0).unwrap(), vec![2, 3]);
    // Member 1 was slashed 10 while absent; the remaining 90 come back.
    assert_eq!(p.balance_of(1).free, 90);
    assert_eq!(p.balance_of(1).reserved, 0);
}
