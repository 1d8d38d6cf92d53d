use std::collections::HashMap;

use batch_vesting::contract::{BatchVestingContract, Receipt};
use batch_vesting::types::{Address, AddressKind, Effect, VestingError, VestingEvent};

fn account(n: u128) -> Address {
    Address { kind: AddressKind::Account, key_hi: 0, key_lo: n }
}

/// A contract with a token ledger beside it, as the host would run it.
struct World {
    contract: BatchVestingContract,
    balances: HashMap<Address, i128>,
    now: u64,
    events: Vec<VestingEvent>,
}

impl World {
    fn new() -> World {
        let contract_address = Address { kind: AddressKind::Contract, key_hi: 7, key_lo: 7 };
        World {
            contract: BatchVestingContract::new(contract_address),
            balances: HashMap::new(),
            now: 0,
            events: Vec::new(),
        }
    }

    fn address(&self) -> Address {
        self.contract.self_address()
    }

    fn mint(&mut self, to: Address, amount: i128) {
        *self.balances.entry(to).or_insert(0) += amount;
    }

    fn balance(&self, who: Address) -> i128 {
        *self.balances.get(&who).unwrap_or(&0)
    }

    /// Carries out an accepted request; aborts, as the contract does, on a refused one.
    fn apply(&mut self, res: Result<Receipt, VestingError>) -> Receipt {
        match res {
            Err(e) => panic!("{}", e.message()),
            Ok(receipt) => {
                self.events.clear();
                for effect in receipt.effects.iter() {
                    match *effect {
                        Effect::Transfer { from, to, amount } => {
                            assert!(amount >= 0);
                            assert!(self.balance(from) >= amount, "balance is not sufficient to spend");
                            *self.balances.entry(from).or_insert(0) -= amount;
                            *self.balances.entry(to).or_insert(0) += amount;
                        }
                        Effect::Publish(event) => self.events.push(event),
                    }
                }
                receipt
            }
        }
    }

    fn deposit(&mut self, sender: Address, recipients: &[Address], amounts: &[i128], unlock_time: u64) -> Receipt {
        let res = self.contract.deposit(sender, &recipients.to_vec(), &amounts.to_vec(), unlock_time, self.now);
        self.apply(res)
    }

    fn claim(&mut self, recipient: Address) -> Receipt {
        let res = self.contract.claim(recipient, self.now);
        self.apply(res)
    }

    fn revoke(&mut self, caller: Address, recipient: Address, unlock_time: u64) -> Receipt {
        let res = self.contract.revoke(caller, recipient, unlock_time, self.now);
        self.apply(res)
    }

    fn batch_revoke(&mut self, caller: Address, recipients: &[Address], unlock_time: u64) -> Receipt {
        let res = self.contract.batch_revoke(caller, &recipients.to_vec(), unlock_time, self.now);
        self.apply(res)
    }

    fn set_admin(&mut self, admin: Address) -> Receipt {
        let res = self.contract.set_admin(admin);
        self.apply(res)
    }

    fn toggle_pause(&mut self, admin: Address, paused: bool) -> Receipt {
        let res = self.contract.toggle_pause(admin, paused);
        self.apply(res)
    }
}

#[test]
fn test_version() {
    assert_eq!(BatchVestingContract::version(), "1.0.0");
}

#[test]
fn test_deposit_and_claim() {
    let mut w = World::new();
    let sender = account(1);
    let recipient1 = account(2);
    let recipient2 = account(3);
    w.mint(sender, 1000);
    w.now = 0;
    w.deposit(sender, &[recipient1, recipient2], &[100, 200], 1000);
    assert_eq!(w.balance(sender), 700);
    assert_eq!(w.balance(w.address()), 300);
    w.now = 1001;
    w.claim(recipient1);
    assert_eq!(w.balance(recipient1), 100);
    assert_eq!(w.balance(w.address()), 200);
    w.claim(recipient2);
    assert_eq!(w.balance(recipient2), 200);
    assert_eq!(w.balance(w.address()), 0);
}

#[test]
fn test_revoke_by_sender() {
    let mut w = World::new();
    let sender = account(1);
    let recipient = account(2);
    w.mint(sender, 1000);
    w.now = 0;
    w.deposit(sender, &[recipient], &[100], 1000);
    w.now = 500;
    w.revoke(sender, recipient, 1000);
    assert_eq!(w.balance(sender), 1000);
    assert_eq!(w.balance(w.address()), 0);
}

#[test]
#[should_panic(expected = "No vesting found for recipient")]
fn test_claim_after_revoke_fails() {
    let mut w = World::new();
    let sender = account(1);
    let recipient = account(2);
    w.mint(sender, 1000);
    w.now = 0;
    w.deposit(sender, &[recipient], &[100], 1000);
    w.now = 500;
    w.revoke(sender, recipient, 1000);
    w.claim(recipient);
}

#[test]
fn test_revoke_by_admin() {
    let mut w = World::new();
    let sender = account(1);
    let recipient = account(2);
    let admin = account(3);
    w.mint(sender, 1000);
    w.set_admin(admin);
    w.now = 0;
    w.deposit(sender, &[recipient], &[100], 1000);
    w.now = 500;
    w.revoke(admin, recipient, 1000);
    assert_eq!(w.balance(sender), 1000);
    assert_eq!(w.balance(w.address()), 0);
}

#[test]
#[should_panic(expected = "Unauthorized revoke attempt")]
fn test_revoke_unauthorized() {
    let mut w = World::new();
    let sender = account(1);
    let recipient = account(2);
    let attacker = account(3);
    w.mint(sender, 1000);
    w.now = 0;
    w.deposit(sender, &[recipient], &[100], 1000);
    w.now = 500;
    w.revoke(attacker, recipient, 1000);
}

#[test]
#[should_panic(expected = "Cannot revoke already vested funds")]
fn test_revoke_already_vested() {
    let mut w = World::new();
    let sender = account(1);
    let recipient = account(2);
    w.mint(sender, 1000);
    w.now = 0;
    w.deposit(sender, &[recipient], &[100], 1000);
    w.now = 1000;
    w.revoke(sender, recipient, 1000);
}

#[test]
#[should_panic(expected = "Vesting is currently locked")]
fn test_claim_too_early() {
    let mut w = World::new();
    let sender = account(1);
    let recipient1 = account(2);
    w.mint(sender, 1000);
    w.now = 0;
    w.deposit(sender, &[recipient1], &[100], 1000);
    w.now = 500;
    w.claim(recipient1);
}

#[test]
#[should_panic(expected = "No vesting found for recipient")]
fn test_claim_no_vesting() {
    let mut w = World::new();
    let recipient = account(2);
    w.claim(recipient);
}

#[test]
fn test_events_emission() {
    let mut w = World::new();
    let sender = account(1);
    let recipient1 = account(2);
    let recipient2 = account(3);
    w.mint(sender, 1000);
    let unlock_time: u64 = 1000;
    w.now = 0;
    w.deposit(sender, &[recipient1, recipient2], &[100, 200], unlock_time);

    let mut deposit_found = 0;
    for event in w.events.iter() {
        if let VestingEvent::Deposited { sender: evt_sender, recipient, amount, unlock_time: evt_unlock } = *event {
            assert_eq!(evt_sender, sender);
            assert_eq!(evt_unlock, unlock_time);
            if recipient == recipient1 {
                assert_eq!(amount, 100);
                deposit_found += 1;
            } else if recipient == recipient2 {
                assert_eq!(amount, 200);
                deposit_found += 1;
            }
        }
    }
    assert_eq!(deposit_found, 2, "Should find 2 deposit events with correct data");

    w.now = 1001;
    w.claim(recipient1);
    let mut claim1_found = false;
    for event in w.events.iter() {
        if let VestingEvent::Claimed { recipient, amount } = *event {
            assert_eq!(recipient, recipient1);
            assert_eq!(amount, 100);
            claim1_found = true;
        }
    }
    assert!(claim1_found, "Should find claim event for recipient1");

    w.claim(recipient2);
    let mut claim2_found = false;
    for event in w.events.iter() {
        if let VestingEvent::Claimed { recipient, amount } = *event {
            assert_eq!(recipient, recipient2);
            assert_eq!(amount, 200);
            claim2_found = true;
        }
    }
    assert!(claim2_found, "Should find claim event for recipient2");
}

#[test]
fn test_multiple_vestings_different_unlocks() {
    let mut w = World::new();
    let sender = account(1);
    let recipient = account(2);
    w.mint(sender, 1000);
    w.now = 0;
    w.deposit(sender, &[recipient], &[100], 1000);
    w.deposit(sender, &[recipient], &[300], 2000);
    assert_eq!(w.balance(sender), 600);
    assert_eq!(w.balance(w.address()), 400);

    w.now = 1001;
    w.claim(recipient);
    assert_eq!(w.balance(recipient), 100);
    assert_eq!(w.balance(w.address()), 300);

    w.now = 2001;
    w.claim(recipient);
    assert_eq!(w.balance(recipient), 400);
    assert_eq!(w.balance(w.address()), 0);
}

#[test]
fn test_batch_revoke_by_sender() {
    let mut w = World::new();
    let sender = account(1);
    let recipient1 = account(2);
    let recipient2 = account(3);
    let recipient3 = account(4);
    w.mint(sender, 1000);
    w.now = 0;
    w.deposit(sender, &[recipient1, recipient2, recipient3], &[100, 200, 300], 1000);
    assert_eq!(w.balance(sender), 400);
    assert_eq!(w.balance(w.address()), 600);
    w.now = 500;
    w.batch_revoke(sender, &[recipient1, recipient2], 1000);
    assert_eq!(w.balance(sender), 700);
    assert_eq!(w.balance(w.address()), 300);
}

#[test]
fn test_batch_revoke_by_admin() {
    let mut w = World::new();
    let sender = account(1);
    let recipient1 = account(2);
    let recipient2 = account(3);
    let admin = account(4);
    w.mint(sender, 1000);
    w.set_admin(admin);
    w.now = 0;
    w.deposit(sender, &[recipient1, recipient2], &[150, 250], 1000);
    w.now = 500;
    w.batch_revoke(admin, &[recipient1, recipient2], 1000);
    assert_eq!(w.balance(admin), 400);
    assert_eq!(w.balance(w.address()), 0);
}

#[test]
#[should_panic(expected = "Unauthorized revoke attempt")]
fn test_batch_revoke_unauthorized() {
    let mut w = World::new();
    let sender = account(1);
    let recipient1 = account(2);
    let recipient2 = account(3);
    let attacker = account(4);
    w.mint(sender, 1000);
    w.now = 0;
    w.deposit(sender, &[recipient1, recipient2], &[100, 200], 1000);
    w.now = 500;
    w.batch_revoke(attacker, &[recipient1, recipient2], 1000);
}

#[test]
#[should_panic(expected = "Cannot revoke already vested funds")]
fn test_batch_revoke_already_vested() {
    let mut w = World::new();
    let sender = account(1);
    let recipient1 = account(2);
    let recipient2 = account(3);
    w.mint(sender, 1000);
    w.now = 0;
    w.deposit(sender, &[recipient1, recipient2], &[100, 200], 1000);
    w.now = 1000;
    w.batch_revoke(sender, &[recipient1, recipient2], 1000);
}

#[test]
#[should_panic(expected = "No vesting found for recipient")]
fn test_batch_revoke_no_vesting() {
    let mut w = World::new();
    let sender = account(1);
    let recipient1 = account(2);
    let recipient2 = account(3);
    w.batch_revoke(sender, &[recipient1, recipient2], 1000);
}

#[test]
fn test_batch_revoke_events_emission() {
    let mut w = World::new();
    let sender = account(1);
    let recipient1 = account(2);
    let recipient2 = account(3);
    w.mint(sender, 1000);
    let unlock_time: u64 = 1000;
    w.now = 0;
    w.deposit(sender, &[recipient1, recipient2], &[100, 200], unlock_time);
    w.now = 500;
    w.batch_revoke(sender, &[recipient1, recipient2], unlock_time);

    let mut revoke_found = 0;
    for event in w.events.iter() {
        if let VestingEvent::Revoked { recipient, sender: evt_sender, amount, unlock_time: evt_unlock } = *event {
            assert_eq!(evt_sender, sender);
            assert_eq!(evt_unlock, unlock_time);
            if recipient == recipient1 {
                assert_eq!(amount, 100);
                revoke_found += 1;
            } else if recipient == recipient2 {
                assert_eq!(amount, 200);
                revoke_found += 1;
            }
        }
    }
    assert_eq!(revoke_found, 2, "Should find 2 revoke events with correct data");
}

#[test]
fn test_batch_revoke_partial_recipients() {
    let mut w = World::new();
    let sender = account(1);
    let recipient1 = account(2);
    let recipient2 = account(3);
    let recipient3 = account(4);
    w.mint(sender, 1000);
    w.now = 0;
    w.deposit(sender, &[recipient1, recipient2, recipient3], &[100, 200, 300], 1000);
    w.now = 500;
    w.batch_revoke(sender, &[recipient1], 1000);
    assert_eq!(w.balance(sender), 500);
    assert_eq!(w.balance(w.address()), 500);
    w.now = 1001;
    w.claim(recipient2);
    assert_eq!(w.balance(recipient2), 200);
    w.claim(recipient3);
    assert_eq!(w.balance(recipient3), 300);
}

#[test]
fn contract_balance_matches_what_it_owes() {
    let mut w = World::new();
    let (admin, s1, s2) = (account(1), account(2), account(3));
    let (r1, r2, r3) = (account(4), account(5), account(6));
    w.mint(s1, 10_000);
    w.mint(s2, 10_000);
    w.set_admin(admin);
    let owed = |w: &World| -> i128 {
        [r1, r2, r3]
            .iter()
            .map(|r| w.contract.vestings_of(*r).unwrap_or_default().iter().map(|v| v.amount).sum::<i128>())
            .sum()
    };
    w.deposit(s1, &[r1, r2, r3], &[100, 200, 300], 1000);
    w.deposit(s2, &[r1, r1], &[40, 50], 2000);
    assert_eq!(w.balance(w.address()), owed(&w));
    w.now = 500;
    w.revoke(s2, r1, 2000);
    assert_eq!(w.balance(w.address()), owed(&w));
    w.batch_revoke(admin, &[r2], 1000);
    assert_eq!(w.balance(w.address()), owed(&w));
    w.now = 1500;
    w.claim(r1);
    w.claim(r3);
    assert_eq!(w.balance(w.address()), owed(&w));
    assert_eq!(w.balance(w.address()), 50);
    assert_eq!(w.balance(s1), 10_000 - 600);
    assert_eq!(w.balance(s2), 10_000 - 50);
    assert_eq!(w.balance(admin), 200);
    assert_eq!(w.balance(r1), 100);
    assert_eq!(w.balance(r3), 300);
}
