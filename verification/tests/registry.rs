//! Group registration, parameter validation, and counter exhaustion.

use randao::pallet::{Error, Event, Origin, Pallet, RandaoInfo};

fn params(coordinator: u64) -> RandaoInfo {
    RandaoInfo {
        coordinator,
        fee: 5,
        deposit: 100,
        absent_penalty: 10,
        commit_no_reveal_penalty: 50,
        commitment_delay: 5,
        reveal_delay: 5,
    }
}

#[test]
fn genesis_builder_works() {
    let p = Pallet::new();
    assert!(p.events.is_empty());
}

#[test]
fn register_group_allocates_sequential_ids() {
    let mut p = Pallet::new();
    assert_eq!(p.register_group(Origin::Root, params(7)), Ok(0));
    assert_eq!(p.register_group(Origin::Root, params(8)), Ok(1));
    assert_eq!(p.group_id_counter(), 2);
    let info = p.randao_group_info(0).unwrap();
    assert_eq!(info.coordinator, 7);
    assert_eq!(info.deposit, 100);
    assert_eq!(
        p.events,
        vec![Event::GroupRegistered(0, 7), Event::GroupRegistered(1, 8)]
    );
}

#[test]
fn register_group_requires_root() {
    let mut p = Pallet::new();
    assert_eq!(
        p.register_group(Origin::Signed(7), params(7)),
        Err(Error::BadOrigin)
    );
    assert_eq!(p.group_id_counter(), 0);
    assert!(p.events.is_empty());
}

#[test]
fn register_group_rejects_out_of_range_penalty() {
    let mut p = Pallet::new();
    let mut bad = params(7);
    bad.absent_penalty = 101;
    assert_eq!(
        p.register_group(Origin::Root, bad),
        Err(Error::InvalidGroupParams)
    );
    let mut bad2 = params(7);
    bad2.commit_no_reveal_penalty = 200;
    assert_eq!(
        p.register_group(Origin::Root, bad2),
        Err(Error::InvalidGroupParams)
    );
    let mut bad3 = params(7);
    bad3.commitment_delay = 0;
    assert_eq!(
        p.register_group(Origin::Root, bad3),
        Err(Error::InvalidGroupParams)
    );
    // Nothing was stored by any of the rejected registrations.
    assert_eq!(p.group_id_counter(), 0);
    assert!(p.randao_group_info(0).is_none());
    assert!(p.events.is_empty());
}

#[test]
fn register_group_counter_exhaustion_fails_without_wraparound() {
    let mut p = Pallet::new();
    // The state a beacon reaches after 2^64 - 1 registrations.
    p.next_group_id = u64::MAX;
    assert_eq!(
        p.register_group(Origin::Root, params(7)),
        Err(Error::IdentifierOverflow)
    );
    // No wraparound: the counter still stands at its maximum and no
    // group was stored under a reused identifier.
    assert_eq!(p.group_id_counter(), u64::MAX);
    assert!(p.randao_group_info(0).is_none());
    assert!(p.events.is_empty());
}

#[test]
fn set_members_reserves_and_releases_deposits() {
    let mut p = Pallet::new();
    p.register_group(Origin::Root, params(7)).unwrap();
    p.endow(1, 150).unwrap();
    p.endow(2, 100).unwrap();
    assert_eq!(p.set_members(7, 0, vec![1, 2], vec![]), Ok(()));
    assert_eq!(p.group_members(0).unwrap(), vec![1, 2]);
    assert_eq!(p.balance_of(1).free, 50);
    assert_eq!(p.balance_of(1).reserved, 100);
    // Removal releases the reserved deposit again.
    assert_eq!(p.set_members(7, 0, vec![], vec![2]), Ok(()));
    assert_eq!(p.group_members(0).unwrap(), vec![1]);
    assert_eq!(p.balance_of(2).free, 100);
    assert_eq!(p.balance_of(2).reserved, 0);
}

#[test]
fn set_members_authorization_and_errors() {
    let mut p = Pallet::new();
    p.register_group(Origin::Root, params(7)).unwrap();
    p.endow(1, 100).unwrap();
    assert_eq!(p.set_members(9, 0, vec![1], vec![]), Err(Error::NotCoordinator));
    assert_eq!(p.set_members(7, 3, vec![1], vec![]), Err(Error::GroupNotFound));
    assert_eq!(p.set_members(7, 0, vec![], vec![1]), Err(Error::NotAMember));
    p.set_members(7, 0, vec![1], vec![]).unwrap();
    assert_eq!(p.set_members(7, 0, vec![1], vec![]), Err(Error::AlreadyMember));
    // An addition without enough free funds fails and discards the whole
    // change, including earlier additions of the same call.
    p.endow(2, 100).unwrap();
    assert_eq!(
        p.set_members(7, 0, vec![2, 3], vec![]),
        Err(Error::InsufficientBalance)
    );
    assert_eq!(p.group_members(0).unwrap(), vec![1]);
    assert_eq!(p.balance_of(2).free, 100);
    assert_eq!(p.balance_of(2).reserved, 0);
}

#[test]
fn endow_overflow_is_rejected() {
    let mut p = Pallet::new();
    p.endow(1, u64::MAX - 10).unwrap();
    assert_eq!(p.endow(1, 11), Err(Error::BalanceOverflow));
    assert_eq!(p.balance_of(1).free, u64::MAX - 10);
}
