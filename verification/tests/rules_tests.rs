use batch_vesting::contract::BatchVestingContract;
use batch_vesting::schedule::{claim_from, is_authorized, revoke_from};
use batch_vesting::types::{Address, AddressKind, DataKey, Effect, VestingData, VestingError, VestingEvent};

fn account(n: u128) -> Address {
    Address { kind: AddressKind::Account, key_hi: 0, key_lo: n }
}

fn contract() -> BatchVestingContract {
    BatchVestingContract::new(Address { kind: AddressKind::Contract, key_hi: 1, key_lo: 0 })
}

fn err<T>(r: Result<T, VestingError>) -> VestingError {
    match r {
        Ok(_) => panic!("expected a refusal"),
        Err(e) => e,
    }
}

fn schedule(amount: i128, unlock_time: u64, sender: Address) -> VestingData {
    VestingData { amount, unlock_time, sender }
}

#[test]
fn deposit_reports_events_transfer_and_keys() {
    let mut c = contract();
    let s = account(1);
    let (r1, r2) = (account(2), account(3));
    let receipt = c.deposit(s, &vec![r1, r2, r1], &vec![5, 7, 11], 50, 10).unwrap();
    assert_eq!(
        receipt.effects,
        vec![
            Effect::Publish(VestingEvent::Deposited { sender: s, recipient: r1, amount: 5, unlock_time: 50 }),
            Effect::Publish(VestingEvent::Deposited { sender: s, recipient: r2, amount: 7, unlock_time: 50 }),
            Effect::Publish(VestingEvent::Deposited { sender: s, recipient: r1, amount: 11, unlock_time: 50 }),
            Effect::Transfer { from: s, to: c.self_address(), amount: 23 },
        ]
    );
    assert_eq!(receipt.writes, vec![DataKey::Vesting(r1), DataKey::Vesting(r2), DataKey::Vesting(r1)]);
    assert_eq!(c.vestings_of(r1), Some(vec![schedule(5, 50, s), schedule(11, 50, s)]));
    assert_eq!(c.vestings_of(r2), Some(vec![schedule(7, 50, s)]));
    assert_eq!(c.vestings_of(account(9)), None);
}

#[test]
fn deposit_refusals() {
    let mut c = contract();
    let s = account(1);
    let r = account(2);
    assert_eq!(err(c.deposit(s, &vec![r], &vec![1, 2], 50, 10)), VestingError::LengthMismatch);
    assert_eq!(err(c.deposit(s, &vec![r], &vec![1], 10, 10)), VestingError::UnlockNotInFuture);
    assert_eq!(err(c.deposit(s, &vec![r, r], &vec![1, 0], 50, 10)), VestingError::AmountNotPositive);
    assert_eq!(err(c.deposit(s, &vec![r, r], &vec![1, -4], 50, 10)), VestingError::AmountNotPositive);
    assert_eq!(err(c.deposit(s, &vec![r, r], &vec![i128::MAX, 1], 50, 10)), VestingError::ArithmeticOverflow);
    // A refused deposit stores nothing.
    assert_eq!(c.vestings_of(r), None);
    // The first failing step decides the error.
    assert_eq!(err(c.deposit(s, &vec![r, r, r], &vec![i128::MAX, 1, 0], 50, 10)), VestingError::ArithmeticOverflow);
    assert_eq!(err(c.deposit(s, &vec![r, r, r], &vec![0, i128::MAX, 1], 50, 10)), VestingError::AmountNotPositive);
}

#[test]
fn empty_deposit_moves_nothing() {
    let mut c = contract();
    let s = account(1);
    let receipt = c.deposit(s, &vec![], &vec![], 50, 10).unwrap();
    assert_eq!(receipt.effects, vec![Effect::Transfer { from: s, to: c.self_address(), amount: 0 }]);
    assert!(receipt.writes.is_empty());
}

#[test]
fn admin_is_set_once() {
    let mut c = contract();
    let (a, b) = (account(1), account(2));
    let receipt = c.set_admin(a).unwrap();
    assert!(receipt.effects.is_empty());
    assert_eq!(receipt.writes, vec![DataKey::Admin]);
    assert_eq!(c.admin(), Some(a));
    assert_eq!(err(c.set_admin(b)), VestingError::AdminAlreadySet);
    assert_eq!(c.admin(), Some(a));
}

#[test]
fn pause_rules() {
    let mut c = contract();
    let (admin, s, r) = (account(1), account(2), account(3));
    assert_eq!(err(c.toggle_pause(admin, true)), VestingError::AdminNotSet);
    c.set_admin(admin).unwrap();
    assert_eq!(err(c.toggle_pause(s, true)), VestingError::NotAdmin);
    assert!(!c.is_paused());
    c.deposit(s, &vec![r], &vec![10], 100, 0).unwrap();
    let receipt = c.toggle_pause(admin, true).unwrap();
    assert_eq!(receipt.effects, vec![Effect::Publish(VestingEvent::PauseToggled { admin, paused: true })]);
    assert_eq!(receipt.writes, vec![DataKey::Paused]);
    assert!(c.is_paused());
    assert_eq!(c.paused_flag(), Some(true));
    assert_eq!(err(c.deposit(s, &vec![r], &vec![10], 100, 0)), VestingError::ContractPaused);
    assert_eq!(err(c.revoke(s, r, 100, 0)), VestingError::ContractPaused);
    assert_eq!(err(c.batch_revoke(s, &vec![r], 100, 0)), VestingError::ContractPaused);
    assert_eq!(err(c.claim(r, 200)), VestingError::ContractPaused);
    // Pausing again, or unpausing, is still allowed.
    c.toggle_pause(admin, true).unwrap();
    c.toggle_pause(admin, false).unwrap();
    assert_eq!(c.paused_flag(), Some(false));
    assert!(c.claim(r, 200).is_ok());
}

#[test]
fn revoke_takes_the_first_matching_schedule_only() {
    let mut c = contract();
    let (s, r) = (account(1), account(2));
    c.deposit(s, &vec![r], &vec![10], 100, 0).unwrap();
    c.deposit(s, &vec![r], &vec![20], 200, 0).unwrap();
    c.deposit(s, &vec![r], &vec![30], 100, 0).unwrap();
    let receipt = c.revoke(s, r, 100, 50).unwrap();
    assert_eq!(
        receipt.effects,
        vec![
            Effect::Transfer { from: c.self_address(), to: s, amount: 10 },
            Effect::Publish(VestingEvent::Revoked { recipient: r, sender: s, amount: 10, unlock_time: 100 }),
        ]
    );
    assert_eq!(receipt.writes, vec![DataKey::Vesting(r)]);
    assert_eq!(c.vestings_of(r), Some(vec![schedule(20, 200, s), schedule(30, 100, s)]));
    assert_eq!(err(c.revoke(s, r, 300, 50)), VestingError::ScheduleNotFound);
}

#[test]
fn revoke_pays_the_schedule_sender_even_when_the_admin_asks() {
    let mut c = contract();
    let (admin, s, r) = (account(1), account(2), account(3));
    c.set_admin(admin).unwrap();
    c.deposit(s, &vec![r], &vec![10], 100, 0).unwrap();
    let receipt = c.revoke(admin, r, 100, 50).unwrap();
    assert_eq!(receipt.effects[0], Effect::Transfer { from: c.self_address(), to: s, amount: 10 });
    assert_eq!(c.vestings_of(r), None);
}

#[test]
fn nothing_to_revoke_on_a_schedule_without_amount() {
    let mut c = contract();
    let (s, r) = (account(1), account(2));
    c.load_vestings(r, Some(vec![schedule(0, 100, s)]));
    assert_eq!(err(c.revoke(s, r, 100, 50)), VestingError::NothingToRevoke);
    assert_eq!(c.vestings_of(r), Some(vec![schedule(0, 100, s)]));
}

#[test]
fn an_empty_entry_is_not_a_missing_one() {
    let mut c = contract();
    let (s, r) = (account(1), account(2));
    c.load_vestings(r, Some(vec![]));
    assert_eq!(err(c.revoke(s, r, 100, 50)), VestingError::ScheduleNotFound);
    assert_eq!(err(c.claim(r, 50)), VestingError::Locked);
    c.load_vestings(r, None);
    assert_eq!(err(c.claim(r, 50)), VestingError::NoVesting);
}

#[test]
fn claim_keeps_locked_schedules_in_order() {
    let mut c = contract();
    let (s, r) = (account(1), account(2));
    c.load_vestings(r, Some(vec![schedule(1, 300, s), schedule(2, 100, s), schedule(4, 400, s), schedule(8, 200, s)]));
    let receipt = c.claim(r, 250).unwrap();
    assert_eq!(
        receipt.effects,
        vec![
            Effect::Transfer { from: c.self_address(), to: r, amount: 10 },
            Effect::Publish(VestingEvent::Claimed { recipient: r, amount: 10 }),
        ]
    );
    assert_eq!(c.vestings_of(r), Some(vec![schedule(1, 300, s), schedule(4, 400, s)]));
    // A second claim at the same time is refused.
    assert_eq!(err(c.claim(r, 250)), VestingError::Locked);
    // Claiming everything drops the entry.
    c.claim(r, 400).unwrap();
    assert_eq!(c.vestings_of(r), None);
    assert_eq!(err(c.claim(r, 400)), VestingError::NoVesting);
}

#[test]
fn claim_overflow_is_refused() {
    let mut c = contract();
    let (s, r) = (account(1), account(2));
    c.load_vestings(r, Some(vec![schedule(i128::MAX, 1, s), schedule(1, 1, s)]));
    assert_eq!(err(c.claim(r, 5)), VestingError::ArithmeticOverflow);
    assert_eq!(c.vestings_of(r), Some(vec![schedule(i128::MAX, 1, s), schedule(1, 1, s)]));
}

#[test]
fn batch_revoke_is_all_or_nothing() {
    let mut c = contract();
    let (s, r1, r2) = (account(1), account(2), account(3));
    c.deposit(s, &vec![r1], &vec![10], 100, 0).unwrap();
    // The second recipient has no schedule: the whole batch is refused and r1 keeps its schedule.
    assert_eq!(err(c.batch_revoke(s, &vec![r1, r2], 100, 50)), VestingError::NoVesting);
    assert_eq!(c.vestings_of(r1), Some(vec![schedule(10, 100, s)]));
    // A recipient listed twice is revoked twice.
    c.deposit(s, &vec![r1], &vec![20], 100, 0).unwrap();
    let receipt = c.batch_revoke(s, &vec![r1, r1], 100, 50).unwrap();
    assert_eq!(receipt.effects.last(), Some(&Effect::Transfer { from: c.self_address(), to: s, amount: 30 }));
    assert_eq!(receipt.writes, vec![DataKey::Vesting(r1), DataKey::Vesting(r1)]);
    assert_eq!(c.vestings_of(r1), None);
}

#[test]
fn batch_revoke_overflow_is_refused() {
    let mut c = contract();
    let (s, r1, r2) = (account(1), account(2), account(3));
    c.load_vestings(r1, Some(vec![schedule(i128::MAX, 100, s)]));
    c.load_vestings(r2, Some(vec![schedule(1, 100, s)]));
    assert_eq!(err(c.batch_revoke(s, &vec![r1, r2], 100, 50)), VestingError::ArithmeticOverflow);
    assert_eq!(c.vestings_of(r1), Some(vec![schedule(i128::MAX, 100, s)]));
}

#[test]
fn empty_batch_revoke_pays_nothing() {
    let mut c = contract();
    let caller = account(1);
    let receipt = c.batch_revoke(caller, &vec![], 100, 50).unwrap();
    assert_eq!(receipt.effects, vec![Effect::Transfer { from: c.self_address(), to: caller, amount: 0 }]);
}

#[test]
fn loading_storage() {
    let mut c = contract();
    let (a, r) = (account(1), account(2));
    assert_eq!(c.admin(), None);
    assert_eq!(c.paused_flag(), None);
    c.load_admin(Some(a));
    c.load_paused(Some(true));
    c.load_vestings(r, Some(vec![schedule(3, 9, a)]));
    assert_eq!(c.admin(), Some(a));
    assert!(c.is_paused());
    assert_eq!(c.vestings_of(r), Some(vec![schedule(3, 9, a)]));
    c.load_vestings(r, Some(vec![schedule(4, 9, a)]));
    assert_eq!(c.vestings_of(r), Some(vec![schedule(4, 9, a)]));
}

#[test]
fn error_messages() {
    assert_eq!(VestingError::ContractPaused.message(), "Contract is paused");
    assert_eq!(VestingError::LengthMismatch.message(), "Recipients and amounts length mismatch");
    assert_eq!(VestingError::UnlockNotInFuture.message(), "Unlock time must be in the future");
    assert_eq!(VestingError::AmountNotPositive.message(), "Amount must be positive");
    assert_eq!(VestingError::AdminAlreadySet.message(), "Admin already set");
    assert_eq!(VestingError::AdminNotSet.message(), "Admin must be set to toggle pause");
    assert_eq!(VestingError::NotAdmin.message(), "Only admin can toggle pause");
    assert_eq!(VestingError::NoVesting.message(), "No vesting found for recipient");
    assert_eq!(VestingError::AlreadyVested.message(), "Cannot revoke already vested funds");
    assert_eq!(VestingError::Unauthorized.message(), "Unauthorized revoke attempt");
    assert_eq!(VestingError::ScheduleNotFound.message(), "Vesting schedule not found");
    assert_eq!(VestingError::NothingToRevoke.message(), "Nothing to revoke");
    assert_eq!(VestingError::Locked.message(), "Vesting is currently locked");
}

#[test]
fn batch_of_one_matches_a_revocation() {
    let (admin, s, r) = (account(1), account(2), account(3));
    let mut a = contract();
    a.set_admin(admin).unwrap();
    a.deposit(s, &vec![r], &vec![10], 100, 0).unwrap();
    a.deposit(s, &vec![r], &vec![20], 100, 0).unwrap();
    let mut b = contract();
    b.set_admin(admin).unwrap();
    b.deposit(s, &vec![r], &vec![10], 100, 0).unwrap();
    b.deposit(s, &vec![r], &vec![20], 100, 0).unwrap();
    let single = a.revoke(admin, r, 100, 50).unwrap();
    let batch = b.batch_revoke(admin, &vec![r], 100, 50).unwrap();
    assert_eq!(a.vestings_of(r), b.vestings_of(r));
    assert_eq!(single.effects[0], Effect::Transfer { from: a.self_address(), to: s, amount: 10 });
    assert_eq!(batch.effects[1], Effect::Transfer { from: b.self_address(), to: admin, amount: 10 });
    assert_eq!(single.effects[1], batch.effects[0]);
    assert_eq!(single.writes, batch.writes);
    // Refused alike, for the same reason.
    assert_eq!(err(a.revoke(s, r, 100, 100)), err(b.batch_revoke(s, &vec![r], 100, 100)));
}

#[test]
fn schedule_rules() {
    let (admin, s, other) = (account(1), account(2), account(3));
    assert!(is_authorized(s, s, None));
    assert!(is_authorized(admin, s, Some(admin)));
    assert!(!is_authorized(other, s, Some(admin)));
    assert!(!is_authorized(other, s, None));

    let list = vec![schedule(5, 10, s), schedule(6, 20, s), schedule(7, 10, s)];
    assert_eq!(revoke_from(&list, s, None, 10, 5), Ok((vec![schedule(6, 20, s), schedule(7, 10, s)], schedule(5, 10, s))));
    assert_eq!(revoke_from(&list, other, None, 10, 5), Err(VestingError::Unauthorized));
    assert_eq!(revoke_from(&list, s, None, 10, 10), Err(VestingError::AlreadyVested));
    assert_eq!(revoke_from(&list, s, None, 30, 5), Err(VestingError::ScheduleNotFound));

    assert_eq!(claim_from(&list, 15), Ok((vec![schedule(6, 20, s)], 12)));
    assert_eq!(claim_from(&list, 25), Ok((vec![], 18)));
    assert_eq!(claim_from(&list, 9), Err(VestingError::Locked));
}

#[test]
fn deposit_then_claim_pays_in_full() {
    let (s, r1, r2) = (account(1), account(2), account(3));
    let mut c = contract();
    c.deposit(s, &vec![r1, r2, r1], &vec![4, 5, 6], 100, 0).unwrap();
    let receipt = c.claim(r1, 100).unwrap();
    assert_eq!(receipt.effects[0], Effect::Transfer { from: c.self_address(), to: r1, amount: 10 });
    assert_eq!(c.vestings_of(r1), None);
    assert_eq!(c.vestings_of(r2), Some(vec![schedule(5, 100, s)]));
}

#[test]
fn unlock_time_is_inclusive_for_claims_and_closes_revocation() {
    let (s, r) = (account(1), account(2));
    let mut c = contract();
    c.deposit(s, &vec![r], &vec![10], 100, 0).unwrap();
    c.deposit(s, &vec![r], &vec![20], 200, 0).unwrap();
    let mut d = contract();
    d.deposit(s, &vec![r], &vec![10], 100, 0).unwrap();
    d.deposit(s, &vec![r], &vec![20], 200, 0).unwrap();
    assert_eq!(err(d.revoke(s, r, 100, 100)), VestingError::AlreadyVested);
    let receipt = c.claim(r, 100).unwrap();
    assert_eq!(receipt.effects[0], Effect::Transfer { from: c.self_address(), to: r, amount: 10 });
    // One tick earlier the claim is refused and the revocation allowed.
    let mut e = contract();
    e.deposit(s, &vec![r], &vec![10], 100, 0).unwrap();
    assert_eq!(err(e.claim(r, 99)), VestingError::Locked);
    assert!(e.revoke(s, r, 100, 99).is_ok());
}

#[test]
fn reached_storage_never_has_nothing_to_revoke() {
    let (admin, s, r1, r2) = (account(1), account(2), account(3), account(4));
    let mut c = contract();
    c.set_admin(admin).unwrap();
    c.deposit(s, &vec![r1, r2, r1], &vec![1, 2, 3], 100, 0).unwrap();
    assert_eq!(err(c.claim(r1, 10)), VestingError::Locked);
    c.revoke(s, r1, 100, 10).unwrap();
    c.batch_revoke(admin, &vec![r1, r2], 100, 10).unwrap();
    for r in [r1, r2] {
        assert_ne!(err(c.revoke(s, r, 100, 10)), VestingError::NothingToRevoke);
        if let Some(list) = c.vestings_of(r) {
            assert!(!list.is_empty());
            assert!(list.iter().all(|v| v.amount > 0));
        }
    }
}

#[test]
fn joined_deposit_equals_two_deposits() {
    let (s, r1, r2) = (account(1), account(2), account(3));
    let mut joined = contract();
    let one = joined.deposit(s, &vec![r1, r2, r1], &vec![1, 2, 3], 100, 0).unwrap();
    let mut split = contract();
    let first = split.deposit(s, &vec![r1, r2], &vec![1, 2], 100, 0).unwrap();
    let second = split.deposit(s, &vec![r1], &vec![3], 100, 0).unwrap();
    for r in [r1, r2] {
        assert_eq!(joined.vestings_of(r), split.vestings_of(r));
    }
    let mut events = first.effects[..first.effects.len() - 1].to_vec();
    events.extend_from_slice(&second.effects[..second.effects.len() - 1]);
    assert_eq!(&one.effects[..one.effects.len() - 1], &events[..]);
    assert_eq!(one.effects.last(), Some(&Effect::Transfer { from: s, to: joined.self_address(), amount: 6 }));
}

#[test]
fn joined_batch_equals_two_batches() {
    let (s, r1, r2) = (account(1), account(2), account(3));
    let setup = |c: &mut BatchVestingContract| {
        c.deposit(s, &vec![r1, r2, r1], &vec![1, 2, 3], 100, 0).unwrap();
    };
    let mut joined = contract();
    setup(&mut joined);
    let one = joined.batch_revoke(s, &vec![r1, r2, r1], 100, 50).unwrap();
    let mut split = contract();
    setup(&mut split);
    let first = split.batch_revoke(s, &vec![r1, r2], 100, 50).unwrap();
    let second = split.batch_revoke(s, &vec![r1], 100, 50).unwrap();
    for r in [r1, r2] {
        assert_eq!(joined.vestings_of(r), split.vestings_of(r));
    }
    assert_eq!(joined.vestings_of(r1), None);
    let mut events = first.effects[..first.effects.len() - 1].to_vec();
    events.extend_from_slice(&second.effects[..second.effects.len() - 1]);
    assert_eq!(&one.effects[..one.effects.len() - 1], &events[..]);
    assert_eq!(one.effects.last(), Some(&Effect::Transfer { from: joined.self_address(), to: s, amount: 6 }));
    assert_eq!(first.effects.last(), Some(&Effect::Transfer { from: split.self_address(), to: s, amount: 3 }));
    assert_eq!(second.effects.last(), Some(&Effect::Transfer { from: split.self_address(), to: s, amount: 3 }));
}
