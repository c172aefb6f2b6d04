use crate::error::Error;
use crate::schedule::{
    lemma_unlocked_bounds, schedule_valid, terminated, unlocked_at, valid_termination_schedule,
    Balance, Schedule, TimestampSec,
};
use crate::termination::{
    bytes_eq, hash_schedule, schedule_bytes, sha256_of, HashOrSchedule, TerminationConfig,
};
use vstd::prelude::*;

verus! {

/// An account identity. Validating account names is outside the library.
pub type AccountId = String;

/// The position of a lockup in the lockup store.
pub type LockupIndex = u32;

/// What one claim on one lockup yielded.
#[derive(Clone, Debug)]
pub struct LockupClaim {
    pub index: LockupIndex,
    pub unclaimed_balance: Balance,
    pub is_final: bool,
}

/// One account's grant: an unlocking schedule, the amount already claimed,
/// and optional termination rights.
#[derive(Clone, Debug)]
pub struct Lockup {
    pub account_id: AccountId,
    pub schedule: Schedule,
    pub claimed_balance: Balance,
    /// An optional configuration that allows vesting/lockup termination.
    pub termination_config: Option<TerminationConfig>,
}

impl Lockup {
    /// The plaintext vesting schedule of the termination configuration,
    /// when one is carried.
    pub open spec fn plain_vesting(&self) -> Option<Schedule> {
        match self.termination_config {
            Some(cfg) => match cfg.vesting_schedule {
                Some(HashOrSchedule::Schedule(v)) => Some(v),
                _ => None,
            },
            None => None,
        }
    }

    /// The committed digest of the vesting schedule, when one is carried.
    pub open spec fn committed_hash(&self) -> Option<Seq<u8>> {
        match self.termination_config {
            Some(cfg) => match cfg.vesting_schedule {
                Some(HashOrSchedule::Hash(h)) => Some(h@),
                _ => None,
            },
            None => None,
        }
    }

    /// What every method preserves: the schedule is well formed, and a
    /// plaintext vesting schedule is a valid schedule over the same total.
    pub open spec fn wf(&self) -> bool {
        &&& self.schedule.wf()
        &&& match self.plain_vesting() {
            Some(v) => schedule_valid(v@, self.schedule@.last().balance as int),
            None => true,
        }
    }

    /// What a lockup must look like on arrival: nothing claimed yet, a
    /// valid schedule over the expected total, and a plaintext vesting
    /// schedule (when carried) that is itself valid over the same total
    /// and nowhere behind the lockup schedule.
    pub open spec fn new_valid(&self, total: int) -> bool {
        &&& self.claimed_balance == 0
        &&& schedule_valid(self.schedule@, total)
        &&& match self.plain_vesting() {
            Some(v) => schedule_valid(v@, total) && valid_termination_schedule(
                self.schedule@,
                v@,
            ),
            None => true,
        }
    }

    /// Whether `caller` is the configured terminator.
    pub open spec fn authorized(&self, caller: Seq<char>) -> bool {
        match self.termination_config {
            Some(cfg) => caller == cfg.terminator_id@,
            None => false,
        }
    }

    /// Whether the revealed schedule satisfies the commit-reveal protocol:
    /// nothing is asked when no digest was committed; against a committed
    /// digest, a schedule must be revealed, hash to the digest, be a valid
    /// schedule over the lockup's total, and be a vesting bound the lockup
    /// schedule is nowhere ahead of.
    pub open spec fn hash_reveal_ok(&self, revealed: Option<Schedule>) -> bool {
        match self.committed_hash() {
            None => true,
            Some(h) => match revealed {
                None => false,
                Some(rs) => {
                    &&& sha256_of(schedule_bytes(rs@)) == h
                    &&& schedule_valid(rs@, self.schedule@.last().balance as int)
                    &&& valid_termination_schedule(self.schedule@, rs@)
                },
            },
        }
    }

    /// The balance at which termination truncates the schedule: what the
    /// applicable schedule (the vesting bound if any, else the lockup's
    /// own) has unlocked by the cutoff.
    pub open spec fn termination_fin(&self, revealed: Option<Schedule>, tt: int) -> int {
        match self.termination_config {
            Some(cfg) => match cfg.vesting_schedule {
                None => unlocked_at(self.schedule@, tt),
                Some(HashOrSchedule::Schedule(v)) => unlocked_at(v@, tt),
                Some(HashOrSchedule::Hash(_)) => match revealed {
                    Some(rs) => unlocked_at(rs@, tt),
                    None => 0,
                },
            },
            None => 0,
        }
    }

    /// The account the recovered amount is paid to: the configured payer,
    /// else the terminator.
    pub open spec fn termination_payer(&self) -> Seq<char> {
        match self.termination_config {
            Some(cfg) => match cfg.payer_id {
                Some(p) => p@,
                None => cfg.terminator_id@,
            },
            None => Seq::empty(),
        }
    }

    /// Whether `terminate` succeeds: a configuration is present, the
    /// caller is its terminator, the commit-reveal protocol is satisfied,
    /// and the truncation balance does not undercut the schedule's floor.
    pub open spec fn terminate_ok(
        &self,
        caller: Seq<char>,
        revealed: Option<Schedule>,
        tt: int,
    ) -> bool {
        &&& self.termination_config is Some
        &&& self.authorized(caller)
        &&& self.hash_reveal_ok(revealed)
        &&& self.termination_fin(revealed, tt) >= self.schedule@[0].balance
    }

    /// A lockup whose whole balance is already unlocked, used to re-credit
    /// a payer when a transfer of recovered funds fails.
    pub fn new_unlocked(account_id: AccountId, total_balance: Balance) -> (r: Lockup)
        ensures
            r.account_id == account_id,
            r.claimed_balance == 0,
            r.termination_config is None,
            r.schedule@.len() == 2,
            r.schedule@.last().balance == total_balance,
            r.new_valid(total_balance as int),
            r.wf(),
            forall|t: int| t >= 1 ==> unlocked_at(r.schedule@, t) == total_balance,
    {
        let r = Lockup {
            account_id,
            schedule: Schedule::new_unlocked(total_balance),
            claimed_balance: 0,
            termination_config: None,
        };
        proof {
            assert forall|t: int| t >= 1 implies unlocked_at(r.schedule@, t) == total_balance by {
                assert(unlocked_at(r.schedule@, t) == unlocked_at(r.schedule@.drop_first(), t));
            }
        }
        r
    }

    /// Claims everything unlocked by `now`: advances the claimed balance
    /// to the unlocked balance and reports the difference, along with
    /// whether the lockup is now fully claimed. Claiming again without
    /// time advancing therefore yields a zero difference.
    pub fn claim(&mut self, index: LockupIndex, now: TimestampSec) -> (r: LockupClaim)
        requires
            old(self).wf(),
            old(self).claimed_balance as int <= unlocked_at(old(self).schedule@, now as int),
        ensures
            final(self).schedule == old(self).schedule,
            final(self).account_id == old(self).account_id,
            final(self).termination_config == old(self).termination_config,
            final(self).claimed_balance as int == unlocked_at(old(self).schedule@, now as int),
            final(self).wf(),
            r.index == index,
            r.unclaimed_balance as int == unlocked_at(old(self).schedule@, now as int) - old(
                self,
            ).claimed_balance,
            r.is_final == (unlocked_at(old(self).schedule@, now as int) == old(
                self,
            ).schedule@.last().balance as int),
    {
        let unlocked_balance = self.schedule.unlocked_balance(now);
        proof {
            lemma_unlocked_bounds(self.schedule@, now as int);
        }
        let unclaimed_balance = unlocked_balance - self.claimed_balance;
        self.claimed_balance = unlocked_balance;
        LockupClaim {
            index,
            unclaimed_balance,
            is_final: unlocked_balance == self.schedule.total_balance(),
        }
    }

    /// Accepts exactly the lockups that `new_valid` describes, naming the
    /// first violated condition.
    pub fn assert_new_valid(&self, total_balance: Balance) -> (r: Result<(), Error>)
        ensures
            r is Ok <==> self.new_valid(total_balance as int),
            r is Ok ==> self.wf(),
            r is Err ==> (r->Err_0 == Error::ClaimedBalanceNotZero || r->Err_0
                == Error::InvalidSchedule || r->Err_0 == Error::IncompatibleVestingSchedule),
            self.claimed_balance != 0 ==> r == Err::<(), Error>(Error::ClaimedBalanceNotZero),
            self.claimed_balance == 0 && !schedule_valid(self.schedule@, total_balance as int)
                ==> r == Err::<(), Error>(Error::InvalidSchedule),
            ({
                &&& self.claimed_balance == 0
                &&& schedule_valid(self.schedule@, total_balance as int)
                &&& self.plain_vesting() matches Some(v) && !schedule_valid(
                    v@,
                    total_balance as int,
                )
            }) ==> r == Err::<(), Error>(Error::InvalidSchedule),
            ({
                &&& self.claimed_balance == 0
                &&& schedule_valid(self.schedule@, total_balance as int)
                &&& self.plain_vesting() matches Some(v) && schedule_valid(
                    v@,
                    total_balance as int,
                ) && !valid_termination_schedule(self.schedule@, v@)
            }) ==> r == Err::<(), Error>(Error::IncompatibleVestingSchedule),
    {
        if self.claimed_balance != 0 {
            return Err(Error::ClaimedBalanceNotZero);
        }
        match self.schedule.assert_valid(total_balance) {
            Err(e) => {
                return Err(e);
            },
            Ok(()) => {},
        }
        match &self.termination_config {
            Some(cfg) => match &cfg.vesting_schedule {
                Some(HashOrSchedule::Schedule(v)) => {
                    match v.assert_valid(total_balance) {
                        Err(e) => {
                            return Err(e);
                        },
                        Ok(()) => {},
                    }
                    match self.schedule.assert_valid_termination_schedule(v) {
                        Err(e) => {
                            return Err(e);
                        },
                        Ok(()) => {},
                    }
                },
                _ => {},
            },
            None => {},
        }
        Ok(())
    }
    /// Claws back the unvested remainder at `termination_timestamp`. The
    /// caller must be the configured terminator; a committed vesting
    /// schedule must be revealed and verify against its digest, its total
    /// and its compatibility with the lockup schedule. The lockup schedule
    /// is then truncated to the balance the applicable schedule has
    /// unlocked by the cutoff; the difference to the old total is returned
    /// as recovered, together with the payer it flows to. The claimed
    /// balance is left unchanged and the termination configuration is
    /// consumed; a rejected call leaves the lockup unchanged.
    pub fn terminate(
        &mut self,
        caller: &AccountId,
        hashed_schedule: Option<Schedule>,
        termination_timestamp: TimestampSec,
    ) -> (r: Result<(Balance, AccountId), Error>)
        requires
            old(self).wf(),
        ensures
            r is Ok <==> old(self).terminate_ok(
                caller@,
                hashed_schedule,
                termination_timestamp as int,
            ),
            r is Err ==> *final(self) == *old(self),
            r matches Ok(out) ==> {
                let fin = old(self).termination_fin(hashed_schedule, termination_timestamp as int);
                &&& final(self).schedule@ == terminated(old(self).schedule@, fin)
                &&& final(self).schedule@.last().balance as int == fin
                &&& final(self).termination_config is None
                &&& final(self).claimed_balance == old(self).claimed_balance
                &&& final(self).account_id == old(self).account_id
                &&& final(self).wf()
                &&& out.0 as int == old(self).schedule@.last().balance - fin
                &&& out.1@ == old(self).termination_payer()
            },
            old(self).termination_config is None ==> r == Err::<(Balance, AccountId), Error>(
                Error::NoTerminationConfig,
            ),
            ({
                &&& old(self).termination_config is Some
                &&& !old(self).authorized(caller@)
            }) ==> r == Err::<(Balance, AccountId), Error>(Error::Unauthorized),
            ({
                &&& old(self).authorized(caller@)
                &&& old(self).committed_hash() is Some
                &&& hashed_schedule is None
            }) ==> r == Err::<(Balance, AccountId), Error>(Error::HashMismatch),
            ({
                &&& old(self).authorized(caller@)
                &&& old(self).committed_hash() matches Some(h)
                &&& hashed_schedule matches Some(rs) && sha256_of(schedule_bytes(rs@)) != h
            }) ==> r == Err::<(Balance, AccountId), Error>(Error::HashMismatch),
            ({
                &&& old(self).authorized(caller@)
                &&& old(self).committed_hash() matches Some(h)
                &&& hashed_schedule matches Some(rs) && sha256_of(schedule_bytes(rs@)) == h
                    && !schedule_valid(rs@, old(self).schedule@.last().balance as int)
            }) ==> r == Err::<(Balance, AccountId), Error>(Error::InvalidSchedule),
            ({
                &&& old(self).authorized(caller@)
                &&& old(self).committed_hash() matches Some(h)
                &&& hashed_schedule matches Some(rs) && sha256_of(schedule_bytes(rs@)) == h
                    && schedule_valid(rs@, old(self).schedule@.last().balance as int)
                    && !valid_termination_schedule(old(self).schedule@, rs@)
            }) ==> r == Err::<(Balance, AccountId), Error>(Error::IncompatibleVestingSchedule),
            ({
                &&& old(self).authorized(caller@)
                &&& old(self).hash_reveal_ok(hashed_schedule)
                &&& old(self).termination_fin(hashed_schedule, termination_timestamp as int) < old(
                    self,
                ).schedule@[0].balance
            }) ==> r == Err::<(Balance, AccountId), Error>(Error::Invariant),
    {
        let ghost tt = termination_timestamp as int;
        let total = self.schedule.total_balance();
        let fin: Balance = match &self.termination_config {
            None => {
                return Err(Error::NoTerminationConfig);
            },
            Some(cfg) => {
                if !(cfg.terminator_id == *caller) {
                    return Err(Error::Unauthorized);
                }
                match &cfg.vesting_schedule {
                    None => {
                        proof {
                            lemma_unlocked_bounds(self.schedule@, tt);
                        }
                        self.schedule.unlocked_balance(termination_timestamp)
                    },
                    Some(HashOrSchedule::Schedule(v)) => {
                        proof {
                            lemma_unlocked_bounds(v@, tt);
                        }
                        v.unlocked_balance(termination_timestamp)
                    },
                    Some(HashOrSchedule::Hash(h)) => match &hashed_schedule {
                        None => {
                            return Err(Error::HashMismatch);
                        },
                        Some(rs) => {
                            let rs_hash = hash_schedule(rs);
                            if !bytes_eq(&rs_hash, h) {
                                return Err(Error::HashMismatch);
                            }
                            match rs.assert_valid(total) {
                                Err(e) => {
                                    return Err(e);
                                },
                                Ok(()) => {},
                            }
                            match self.schedule.assert_valid_termination_schedule(rs) {
                                Err(e) => {
                                    return Err(e);
                                },
                                Ok(()) => {},
                            }
                            proof {
                                lemma_unlocked_bounds(rs@, tt);
                            }
                            rs.unlocked_balance(termination_timestamp)
                        },
                    },
                }
            },
        };
        if fin < self.schedule.0[0].balance {
            return Err(Error::Invariant);
        }
        let payer: AccountId = match &self.termination_config {
            Some(cfg) => match &cfg.payer_id {
                Some(p) => p.clone(),
                None => cfg.terminator_id.clone(),
            },
            None => {
                return Err(Error::NoTerminationConfig);
            },
        };
        let unvested = self.schedule.terminate(fin);
        self.termination_config = None;
        Ok((unvested, payer))
    }
}

/// Law: `claim` is idempotent at a fixed timestamp. A lockup in the state
/// a claim at `now` leaves behind has a zero unclaimed balance at `now`,
/// so a second claim without time advancing yields a zero delta.
pub proof fn lemma_claim_idempotent(after_first: Lockup, now: int)
    requires
        after_first.claimed_balance as int == unlocked_at(after_first.schedule@, now),
    ensures
        unlocked_at(after_first.schedule@, now) - after_first.claimed_balance as int == 0,
{
}

} // verus!
