use ft_lockup::contract::Contract;
use ft_lockup::error::Error;
use ft_lockup::lockup::Lockup;
use ft_lockup::migrate::OldContract;
use ft_lockup::schedule::{Checkpoint, Schedule};
use ft_lockup::termination::{hash_schedule, HashOrSchedule, TerminationConfig};

fn owner() -> String {
    String::from("owner")
}

fn new_contract() -> Contract {
    Contract::new(String::from("token"), vec![owner()])
}

fn linear_schedule(start: u32, length: u32, total: u128) -> Schedule {
    Schedule(vec![
        Checkpoint { timestamp: start, balance: 0 },
        Checkpoint { timestamp: start + length, balance: total },
    ])
}

#[test]
fn test_schedule_validation_rules() {
    // fewer than two checkpoints
    let s = Schedule(vec![Checkpoint { timestamp: 0, balance: 100 }]);
    assert_eq!(s.assert_valid(100).unwrap_err(), Error::InvalidSchedule);

    // decreasing timestamp
    let s = Schedule(vec![
        Checkpoint { timestamp: 10, balance: 0 },
        Checkpoint { timestamp: 5, balance: 100 },
    ]);
    assert_eq!(s.assert_valid(100).unwrap_err(), Error::InvalidSchedule);

    // decreasing balance
    let s = Schedule(vec![
        Checkpoint { timestamp: 0, balance: 50 },
        Checkpoint { timestamp: 10, balance: 20 },
    ]);
    assert_eq!(s.assert_valid(20).unwrap_err(), Error::InvalidSchedule);

    // final balance must equal the expected total
    let s = linear_schedule(0, 10, 100);
    assert_eq!(s.assert_valid(99).unwrap_err(), Error::InvalidSchedule);
    assert!(s.assert_valid(100).is_ok());

    // a repeated balance (a cliff held flat) is fine
    let s = Schedule(vec![
        Checkpoint { timestamp: 0, balance: 0 },
        Checkpoint { timestamp: 10, balance: 40 },
        Checkpoint { timestamp: 20, balance: 40 },
        Checkpoint { timestamp: 30, balance: 100 },
    ]);
    assert!(s.assert_valid(100).is_ok());
}

#[test]
fn test_unlocked_balance_edges() {
    let s = Schedule(vec![
        Checkpoint { timestamp: 100, balance: 0 },
        Checkpoint { timestamp: 200, balance: 1000 },
        Checkpoint { timestamp: 300, balance: 1000 },
        Checkpoint { timestamp: 400, balance: 2000 },
    ]);
    // before the first checkpoint: the first checkpoint's balance
    assert_eq!(s.unlocked_balance(0), 0);
    assert_eq!(s.unlocked_balance(99), 0);
    // at a checkpoint: its balance
    assert_eq!(s.unlocked_balance(100), 0);
    assert_eq!(s.unlocked_balance(200), 1000);
    // inside a segment: truncating interpolation
    assert_eq!(s.unlocked_balance(150), 500);
    assert_eq!(s.unlocked_balance(101), 10);
    // flat segment holds its value
    assert_eq!(s.unlocked_balance(250), 1000);
    // past the last checkpoint: the total
    assert_eq!(s.unlocked_balance(400), 2000);
    assert_eq!(s.unlocked_balance(4000), 2000);
    assert_eq!(s.total_balance(), 2000);

    // truncating division: 7 / 3 seconds into a 3-second unlock of 7 units
    let s = Schedule(vec![
        Checkpoint { timestamp: 0, balance: 0 },
        Checkpoint { timestamp: 3, balance: 7 },
    ]);
    assert_eq!(s.unlocked_balance(1), 2);
    assert_eq!(s.unlocked_balance(2), 4);
    assert_eq!(s.unlocked_balance(3), 7);
}

#[test]
fn test_unlocked_balance_monotonic_and_bounded() {
    let s = Schedule(vec![
        Checkpoint { timestamp: 100, balance: 7 },
        Checkpoint { timestamp: 103, balance: 7 },
        Checkpoint { timestamp: 110, balance: 30 },
        Checkpoint { timestamp: 110, balance: 45 },
        Checkpoint { timestamp: 117, balance: 100 },
    ]);
    assert!(s.assert_valid(100).is_ok());
    let mut prev = 0;
    for t in 0..130u32 {
        let u = s.unlocked_balance(t);
        assert!(u >= prev, "unlocked balance decreased at {}", t);
        assert!(u >= 7 && u <= 100, "unlocked balance out of range at {}", t);
        prev = u;
    }
}

#[test]
fn test_terminate_round_trip_at_cutoff() {
    // truncating at the balance unlocked by a cutoff leaves a schedule
    // that unlocks exactly that balance at the cutoff
    let base = Schedule(vec![
        Checkpoint { timestamp: 0, balance: 0 },
        Checkpoint { timestamp: 10, balance: 33 },
        Checkpoint { timestamp: 17, balance: 33 },
        Checkpoint { timestamp: 30, balance: 77 },
    ]);
    for cutoff in 0..40u32 {
        let mut s = Schedule(base.0.clone());
        let unlocked = s.unlocked_balance(cutoff);
        let unvested = s.terminate(unlocked);
        assert_eq!(unvested, 77 - unlocked);
        assert_eq!(s.unlocked_balance(cutoff), unlocked, "round trip broke at {}", cutoff);
        assert_eq!(s.total_balance(), unlocked);
    }
}

#[test]
fn test_schedule_terminate_truncates() {
    // terminating in mid-segment inserts the first crossing point
    let mut s = Schedule(vec![
        Checkpoint { timestamp: 0, balance: 0 },
        Checkpoint { timestamp: 100, balance: 1000 },
    ]);
    let unvested = s.terminate(400);
    assert_eq!(unvested, 600);
    assert_eq!(s.total_balance(), 400);
    assert_eq!(s.unlocked_balance(40), 400);
    assert_eq!(s.unlocked_balance(1000), 400);
    assert_eq!(s.unlocked_balance(20), 200);

    // terminating at the full total changes nothing
    let mut s = linear_schedule(0, 100, 1000);
    let unvested = s.terminate(1000);
    assert_eq!(unvested, 0);
    assert_eq!(s.total_balance(), 1000);

    // terminating at zero collapses the schedule
    let mut s = linear_schedule(50, 100, 1000);
    let unvested = s.terminate(0);
    assert_eq!(unvested, 1000);
    assert_eq!(s.total_balance(), 0);
    assert_eq!(s.unlocked_balance(0), 0);
    assert_eq!(s.unlocked_balance(500), 0);
}

#[test]
fn test_hash_schedule_digest() {
    let s1 = linear_schedule(0, 100, 1000);
    let s2 = linear_schedule(0, 100, 1001);
    let h1 = hash_schedule(&s1);
    let h1_again = hash_schedule(&s1);
    let h2 = hash_schedule(&s2);
    // a SHA-256 digest: 32 bytes, deterministic, and sensitive to content
    assert_eq!(h1.len(), 32);
    assert_eq!(h1, h1_again);
    assert_ne!(h1, h2);
    // sensitive to the checkpoint split as well
    let s3 = Schedule(vec![
        Checkpoint { timestamp: 0, balance: 0 },
        Checkpoint { timestamp: 50, balance: 500 },
        Checkpoint { timestamp: 100, balance: 1000 },
    ]);
    assert_ne!(hash_schedule(&s3), h1);
}

#[test]
fn test_claim_lockups_amount_guard() {
    let mut c = new_contract();
    let alice = String::from("alice");
    let lockup = Lockup {
        account_id: alice.clone(),
        schedule: linear_schedule(0, 100, 1000),
        claimed_balance: 0,
        termination_config: None,
    };
    let idx = c.deposit_lockup(&owner(), 1000, lockup).unwrap();

    // requesting a wrong amount rejects the whole claim
    let res = c.claim_lockups(&alice, vec![(idx, 499)], 50);
    assert_eq!(res.unwrap_err(), Error::ClaimAmountMismatch);
    assert_eq!(c.get_lockup(idx, 50).unwrap().claimed_balance, 0);

    // requesting the exact unclaimed amount claims it
    let (claims, total) = c.claim_lockups(&alice, vec![(idx, 500)], 50).unwrap();
    assert_eq!(total, 500);
    assert_eq!(claims.len(), 1);
    assert_eq!(claims[0].unclaimed_balance, 500);
    assert!(!claims[0].is_final);
    assert_eq!(c.get_lockup(idx, 50).unwrap().claimed_balance, 500);

    // someone else's lockup is not claimable
    let res = c.claim_lockups(&String::from("bob"), vec![(idx, 0)], 50);
    assert_eq!(res.unwrap_err(), Error::LockupNotFound);
}

#[test]
fn test_claim_idempotent_at_fixed_time() {
    let mut c = new_contract();
    let alice = String::from("alice");
    let lockup = Lockup {
        account_id: alice.clone(),
        schedule: linear_schedule(0, 100, 1000),
        claimed_balance: 0,
        termination_config: None,
    };
    c.deposit_lockup(&owner(), 1000, lockup).unwrap();

    let (_, total) = c.claim(&alice, 30).unwrap();
    assert_eq!(total, 300);
    // a second claim without time advancing yields a zero delta
    let (_, total) = c.claim(&alice, 30).unwrap();
    assert_eq!(total, 0);
    // and the unlocked balance never decreases as time advances
    let (_, total) = c.claim(&alice, 31).unwrap();
    assert_eq!(total, 10);
}

#[test]
fn test_terminate_timestamp_in_past() {
    let mut c = new_contract();
    let alice = String::from("alice");
    let eve = String::from("eve");
    let lockup = Lockup {
        account_id: alice.clone(),
        schedule: linear_schedule(0, 100, 1000),
        claimed_balance: 0,
        termination_config: Some(TerminationConfig {
            terminator_id: eve.clone(),
            payer_id: None,
            vesting_schedule: None,
        }),
    };
    let idx = c.deposit_lockup(&owner(), 1000, lockup).unwrap();

    let res = c.terminate(&eve, idx, None, Some(49), 50);
    let err = res.unwrap_err();
    assert_eq!(err, Error::TerminationTimestampInPast);
    assert!(err.message().contains("expected termination_timestamp >= now"));

    // a future cutoff is fine: the unvested remainder is measured there
    let (unvested, payer) = c.terminate(&eve, idx, None, Some(80), 50).unwrap();
    assert_eq!(unvested, 200);
    assert_eq!(payer, eve);
    assert_eq!(c.get_lockup(idx, 50).unwrap().total_balance, 800);

    // termination consumed its configuration: a second attempt fails
    let res = c.terminate(&eve, idx, None, None, 50);
    assert_eq!(res.unwrap_err(), Error::NoTerminationConfig);
}

#[test]
fn test_terminate_unknown_lockup() {
    let mut c = new_contract();
    let res = c.terminate(&owner(), 7, None, None, 0);
    let err = res.unwrap_err();
    assert_eq!(err, Error::LockupNotFound);
    assert!(err.message().contains("Lockup not found"));
}

#[test]
fn test_deposit_rejects_invalid_lockups() {
    let mut c = new_contract();
    let alice = String::from("alice");

    // nonzero claimed balance on arrival
    let lockup = Lockup {
        account_id: alice.clone(),
        schedule: linear_schedule(0, 100, 1000),
        claimed_balance: 1,
        termination_config: None,
    };
    let err = c.deposit_lockup(&owner(), 1000, lockup).unwrap_err();
    assert_eq!(err, Error::ClaimedBalanceNotZero);

    // schedule total differing from the deposit
    let lockup = Lockup {
        account_id: alice.clone(),
        schedule: linear_schedule(0, 100, 999),
        claimed_balance: 0,
        termination_config: None,
    };
    let err = c.deposit_lockup(&owner(), 1000, lockup).unwrap_err();
    assert_eq!(err, Error::InvalidSchedule);

    // a vesting schedule slower than the lockup schedule is rejected at
    // creation time already
    let lockup = Lockup {
        account_id: alice.clone(),
        schedule: linear_schedule(0, 100, 1000),
        claimed_balance: 0,
        termination_config: Some(TerminationConfig {
            terminator_id: owner(),
            payer_id: None,
            vesting_schedule: Some(HashOrSchedule::Schedule(linear_schedule(50, 100, 1000))),
        }),
    };
    let err = c.deposit_lockup(&owner(), 1000, lockup).unwrap_err();
    assert_eq!(err, Error::IncompatibleVestingSchedule);

    // a vesting schedule at least as fast is accepted
    let lockup = Lockup {
        account_id: alice.clone(),
        schedule: linear_schedule(50, 100, 1000),
        claimed_balance: 0,
        termination_config: Some(TerminationConfig {
            terminator_id: owner(),
            payer_id: None,
            vesting_schedule: Some(HashOrSchedule::Schedule(linear_schedule(0, 100, 1000))),
        }),
    };
    assert!(c.deposit_lockup(&owner(), 1000, lockup).is_ok());

    // nothing was stored by the rejected deposits
    assert_eq!(c.get_num_lockups(), 1);
}

#[test]
fn test_terminate_reveal_roundtrip() {
    // revealing exactly the committed schedule succeeds; the recovered
    // amount plus the new total equals the old total
    let mut c = new_contract();
    let alice = String::from("alice");
    let eve = String::from("eve");
    let vesting = Schedule(vec![
        Checkpoint { timestamp: 0, balance: 0 },
        Checkpoint { timestamp: 40, balance: 1000 },
    ]);
    let lockup = Lockup {
        account_id: alice.clone(),
        schedule: linear_schedule(0, 100, 1000),
        claimed_balance: 0,
        termination_config: Some(TerminationConfig {
            terminator_id: eve.clone(),
            payer_id: Some(owner()),
            vesting_schedule: Some(HashOrSchedule::Hash(hash_schedule(&vesting))),
        }),
    };
    let idx = c.deposit_lockup(&owner(), 1000, lockup).unwrap();

    let (unvested, payer) = c.terminate(&eve, idx, Some(vesting), None, 20).unwrap();
    // vested by the (faster) vesting schedule at the cutoff: 500
    assert_eq!(unvested, 500);
    // the configured payer, not the terminator, receives the funds
    assert_eq!(payer, owner());
    let v = c.get_lockup(idx, 20).unwrap();
    assert_eq!(v.total_balance, 500);
    // the remaining schedule still unlocks along the lockup curve
    assert_eq!(v.unclaimed_balance, 200);
    assert_eq!(c.get_lockup(idx, 50).unwrap().unclaimed_balance, 500);
}

#[test]
fn test_migrate_carries_lockups() {
    let mut c = new_contract();
    let alice = String::from("alice");
    let lockup = Lockup {
        account_id: alice.clone(),
        schedule: linear_schedule(0, 100, 1000),
        claimed_balance: 0,
        termination_config: None,
    };
    c.deposit_lockup(&owner(), 1000, lockup).unwrap();

    let old_state = OldContract {
        token_account_id: c.token_account_id,
        lockups: c.lockups,
        account_lockups: c.account_lockups,
        deposit_whitelist: c.deposit_whitelist,
    };
    let mut migrated = Contract::migrate(old_state);
    assert_eq!(migrated.get_token_account_id(), String::from("token"));
    assert_eq!(migrated.get_num_lockups(), 1);
    assert_eq!(migrated.next_draft_id, 0);
    assert!(migrated.get_draft_group(0).is_none());
    // the carried lockup still claims normally
    let (_, total) = migrated.claim(&alice, 10).unwrap();
    assert_eq!(total, 100);
}
