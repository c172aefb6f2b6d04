use crate::contract::Contract;
use crate::draft::{DraftGroupIndex, DraftIndex};
use crate::error::Error;
use crate::lockup::{AccountId, Lockup, LockupIndex};
use crate::schedule::{
    schedule_valid, unlocked_at, valid_termination_schedule, Balance, Checkpoint, Schedule,
    TimestampSec,
};
use vstd::prelude::*;

verus! {

/// A caller-facing snapshot of one lockup at a queried time.
#[derive(Clone, Debug)]
pub struct LockupView {
    pub account_id: AccountId,
    pub schedule: Schedule,
    pub claimed_balance: Balance,
    pub total_balance: Balance,
    pub unclaimed_balance: Balance,
    pub timestamp: TimestampSec,
}

/// A caller-facing snapshot of one draft group.
#[derive(Debug)]
pub struct DraftGroupView {
    pub total_amount: Balance,
    pub payer_id: Option<AccountId>,
    pub draft_indices: Vec<DraftIndex>,
    pub num_drafts: usize,
    pub funded: bool,
}

/// A caller-facing snapshot of one staged draft.
#[derive(Debug)]
pub struct DraftView {
    pub draft_group_id: DraftGroupIndex,
    pub lockup: LockupView,
}

/// What a lockup view shows: the lockup's fields, its schedule total, and
/// what is unlocked but not claimed at `now` (zero when a termination has
/// cut the total below the already claimed balance).
pub open spec fn lockup_view_ok(l: Lockup, now: int, v: LockupView) -> bool {
    &&& v.account_id == l.account_id
    &&& v.schedule@ == l.schedule@
    &&& v.claimed_balance == l.claimed_balance
    &&& v.total_balance as int == l.schedule@.last().balance
    &&& v.unclaimed_balance as int == (if unlocked_at(l.schedule@, now) >= l.claimed_balance {
        unlocked_at(l.schedule@, now) - l.claimed_balance
    } else {
        0
    })
    &&& v.timestamp as int == now
}

/// An exact copy of a schedule's checkpoints.
fn copy_schedule(s: &Schedule) -> (r: Schedule)
    ensures
        r@ == s@,
{
    let n = s.0.len();
    let mut out: Vec<Checkpoint> = Vec::new();
    let mut i: usize = 0;
    while i < n
        invariant
            0 <= i <= n,
            n == s.0@.len(),
            out@ == s.0@.take(i as int),
        decreases n - i,
    {
        out.push(s.0[i]);
        proof {
            assert(out@ =~= s.0@.take(i + 1));
        }
        i += 1;
    }
    proof {
        assert(s.0@.take(n as int) =~= s.0@);
    }
    Schedule(out)
}

/// The snapshot of one lockup at `now`.
fn lockup_view(l: &Lockup, now: TimestampSec) -> (v: LockupView)
    requires
        l.wf(),
    ensures
        lockup_view_ok(*l, now as int, v),
{
    let unlocked = l.schedule.unlocked_balance(now);
    let unclaimed = if unlocked >= l.claimed_balance {
        unlocked - l.claimed_balance
    } else {
        0
    };
    LockupView {
        account_id: l.account_id.clone(),
        schedule: copy_schedule(&l.schedule),
        claimed_balance: l.claimed_balance,
        total_balance: l.schedule.total_balance(),
        unclaimed_balance: unclaimed,
        timestamp: now,
    }
}

impl Contract {
    /// The token this ledger accounts for.
    pub fn get_token_account_id(&self) -> (r: AccountId)
        ensures
            r@ == self.token_account_id@,
    {
        self.token_account_id.clone()
    }

    /// How many lockups the store holds.
    pub fn get_num_lockups(&self) -> (r: u32)
        requires
            self.wf(),
        ensures
            r as int == self.lockups@.len(),
    {
        self.lockups.len() as u32
    }

    /// The lockup at `index`, viewed at `now`.
    pub fn get_lockup(&self, index: LockupIndex, now: TimestampSec) -> (r: Option<LockupView>)
        requires
            self.wf(),
        ensures
            match r {
                Some(v) => (index as int) < self.lockups@.len() && lockup_view_ok(
                    self.lockups@[index as int],
                    now as int,
                    v,
                ),
                None => (index as int) >= self.lockups@.len(),
            },
    {
        if (index as usize) < self.lockups.len() {
            Some(lockup_view(&self.lockups[index as usize], now))
        } else {
            None
        }
    }

    /// The lockups at the given indices, in the given order, viewed at
    /// `now`; absent indices are skipped.
    pub fn get_lockups(&self, indices: &Vec<LockupIndex>, now: TimestampSec) -> (r: Vec<
        (LockupIndex, LockupView),
    >)
        requires
            self.wf(),
        ensures
            forall|k: int|
                0 <= k < r@.len() ==> ((#[trigger] r@[k]).0 as int) < self.lockups@.len()
                    && lockup_view_ok(self.lockups@[r@[k].0 as int], now as int, r@[k].1),
            (forall|k: int|
                0 <= k < indices@.len() ==> ((#[trigger] indices@[k]) as int)
                    < self.lockups@.len()) ==> r@.len() == indices@.len() && (forall|k: int|
                0 <= k < indices@.len() ==> (#[trigger] r@[k]).0 == indices@[k]),
    {
        let n = indices.len();
        let mut out: Vec<(LockupIndex, LockupView)> = Vec::new();
        let mut i: usize = 0;
        while i < n
            invariant
                0 <= i <= n,
                n == indices@.len(),
                self.wf(),
                forall|k: int|
                    0 <= k < out@.len() ==> ((#[trigger] out@[k]).0 as int) < self.lockups@.len()
                        && lockup_view_ok(self.lockups@[out@[k].0 as int], now as int, out@[k].1),
                (forall|k: int|
                    0 <= k < i ==> ((#[trigger] indices@[k]) as int) < self.lockups@.len())
                    ==> out@.len() == i && (forall|k: int|
                    0 <= k < i ==> (#[trigger] out@[k]).0 == indices@[k]),
            decreases n - i,
        {
            let idx = indices[i];
            if (idx as usize) < self.lockups.len() {
                out.push((idx, lockup_view(&self.lockups[idx as usize], now)));
            }
            i += 1;
        }
        out
    }

    /// The lockups with indices in `[from, to)` (defaulting to the whole
    /// store), viewed at `now`.
    pub fn get_lockups_paged(
        &self,
        from_index: Option<LockupIndex>,
        to_index: Option<LockupIndex>,
        now: TimestampSec,
    ) -> (r: Vec<(LockupIndex, LockupView)>)
        requires
            self.wf(),
        ensures
            forall|k: int|
                0 <= k < r@.len() ==> ((#[trigger] r@[k]).0 as int) < self.lockups@.len()
                    && lockup_view_ok(self.lockups@[r@[k].0 as int], now as int, r@[k].1),
            forall|k: int|
                0 <= k < r@.len() ==> (#[trigger] r@[k]).0 as int == (match from_index {
                    Some(f) => f as int,
                    None => 0,
                }) + k,
            r@.len() == ({
                let lo = (match from_index {
                    Some(f) => f as int,
                    None => 0,
                });
                let hi_raw = (match to_index {
                    Some(t) => t as int,
                    None => self.lockups@.len() as int,
                });
                let hi = if hi_raw <= self.lockups@.len() {
                    hi_raw
                } else {
                    self.lockups@.len() as int
                };
                if lo < hi {
                    hi - lo
                } else {
                    0
                }
            }),
    {
        let from: u32 = match from_index {
            Some(f) => f,
            None => 0,
        };
        let len32 = self.lockups.len() as u32;
        let to: u32 = match to_index {
            Some(t) => if t < len32 {
                t
            } else {
                len32
            },
            None => len32,
        };
        let mut out: Vec<(LockupIndex, LockupView)> = Vec::new();
        let mut i: u32 = from;
        while i < to
            invariant
                from <= i,
                i <= to || out@.len() == 0,
                to as int <= self.lockups@.len(),
                self.wf(),
                out@.len() == (if i >= from {
                    i - from
                } else {
                    0
                }),
                forall|k: int|
                    0 <= k < out@.len() ==> ((#[trigger] out@[k]).0 as int)
                        < self.lockups@.len() && lockup_view_ok(
                        self.lockups@[out@[k].0 as int],
                        now as int,
                        out@[k].1,
                    ),
                forall|k: int| 0 <= k < out@.len() ==> (#[trigger] out@[k]).0 as int == from + k,
            decreases to - i,
        {
            out.push((i, lockup_view(&self.lockups[i as usize], now)));
            i += 1;
        }
        out
    }

    /// The not-yet-fully-claimed lockups of `account_id`, viewed at `now`.
    pub fn get_account_lockups(&self, account_id: &AccountId, now: TimestampSec) -> (r: Vec<
        (LockupIndex, LockupView),
    >)
        requires
            self.wf(),
        ensures
            r@.len() == self.account_indices(account_id@).len(),
            forall|k: int|
                0 <= k < r@.len() ==> (#[trigger] r@[k]).0 == self.account_indices(account_id@)[k]
                    && (r@[k].0 as int) < self.lockups@.len() && lockup_view_ok(
                    self.lockups@[r@[k].0 as int],
                    now as int,
                    r@[k].1,
                ),
    {
        let ghost entry = self.account_indices(account_id@);
        let mut out: Vec<(LockupIndex, LockupView)> = Vec::new();
        let pos = self.find_account(account_id);
        match pos {
            None => {
                proof {
                    assert(entry =~= Seq::<LockupIndex>::empty());
                }
            },
            Some(p) => {
                let elen = self.account_lockups[p].indices.len();
                let mut m: usize = 0;
                while m < elen
                    invariant
                        0 <= m <= elen,
                        (p as int) < self.account_lockups@.len(),
                        elen == entry.len(),
                        entry == self.account_lockups@[p as int].indices@,
                        entry == self.account_indices(account_id@),
                        self.wf(),
                        out@.len() == m,
                        forall|k: int|
                            0 <= k < m ==> (#[trigger] out@[k]).0 == entry[k] && (out@[k].0 as int)
                                < self.lockups@.len() && lockup_view_ok(
                                self.lockups@[out@[k].0 as int],
                                now as int,
                                out@[k].1,
                            ),
                    decreases elen - m,
                {
                    let idx = self.account_lockups[p].indices[m];
                    proof {
                        assert(self.accounts_wf());
                        assert((idx as int) < self.lockups@.len());
                        assert(self.lockups@[idx as int].wf());
                    }
                    out.push((idx, lockup_view(&self.lockups[idx as usize], now)));
                    m += 1;
                }
            },
        }
        out
    }

    /// The deposit whitelist, in insertion order.
    pub fn get_deposit_whitelist(&self) -> (r: Vec<AccountId>)
        ensures
            r@.len() == self.deposit_whitelist@.len(),
            forall|k: int|
                0 <= k < r@.len() ==> (#[trigger] r@[k])@ == self.deposit_whitelist@[k]@,
    {
        let n = self.deposit_whitelist.len();
        let mut out: Vec<AccountId> = Vec::new();
        let mut i: usize = 0;
        while i < n
            invariant
                0 <= i <= n,
                n == self.deposit_whitelist@.len(),
                out@.len() == i,
                forall|k: int|
                    0 <= k < i ==> (#[trigger] out@[k])@ == self.deposit_whitelist@[k]@,
            decreases n - i,
        {
            out.push(self.deposit_whitelist[i].clone());
            i += 1;
        }
        out
    }

    /// How many draft groups exist.
    pub fn get_num_draft_groups(&self) -> (r: u32)
        requires
            self.wf(),
        ensures
            r as int == self.draft_groups@.len(),
    {
        self.draft_groups.len() as u32
    }

    /// The draft group at `index`.
    pub fn get_draft_group(&self, index: DraftGroupIndex) -> (r: Option<DraftGroupView>)
        requires
            self.wf(),
        ensures
            match r {
                Some(v) => {
                    let g = self.draft_groups@[index as int];
                    &&& (index as int) < self.draft_groups@.len()
                    &&& v.total_amount == g.total_amount
                    &&& v.payer_id == g.payer_id
                    &&& v.draft_indices@ == g.draft_indices@
                    &&& v.num_drafts == g.draft_indices@.len()
                    &&& v.funded == g.funded
                },
                None => (index as int) >= self.draft_groups@.len(),
            },
    {
        if (index as usize) >= self.draft_groups.len() {
            return None;
        }
        let n = self.draft_groups[index as usize].draft_indices.len();
        let mut idxs: Vec<DraftIndex> = Vec::new();
        let mut i: usize = 0;
        while i < n
            invariant
                0 <= i <= n,
                (index as int) < self.draft_groups@.len(),
                n == self.draft_groups@[index as int].draft_indices@.len(),
                idxs@ == self.draft_groups@[index as int].draft_indices@.take(i as int),
            decreases n - i,
        {
            idxs.push(self.draft_groups[index as usize].draft_indices[i]);
            proof {
                assert(idxs@ =~= self.draft_groups@[index as int].draft_indices@.take(i + 1));
            }
            i += 1;
        }
        proof {
            assert(self.draft_groups@[index as int].draft_indices@.take(n as int)
                =~= self.draft_groups@[index as int].draft_indices@);
        }
        let g = &self.draft_groups[index as usize];
        let payer = match &g.payer_id {
            Some(pp) => Some(pp.clone()),
            None => None,
        };
        Some(
            DraftGroupView {
                total_amount: g.total_amount,
                payer_id: payer,
                draft_indices: idxs,
                num_drafts: n,
                funded: g.funded,
            },
        )
    }

    /// The draft groups with indices in `[from, to)`, default the whole
    /// store.
    pub fn get_draft_groups_paged(
        &self,
        from_index: Option<DraftGroupIndex>,
        to_index: Option<DraftGroupIndex>,
    ) -> (r: Vec<(DraftGroupIndex, DraftGroupView)>)
        requires
            self.wf(),
        ensures
            forall|k: int|
                0 <= k < r@.len() ==> (#[trigger] r@[k]).0 as int == (match from_index {
                    Some(f) => f as int,
                    None => 0,
                }) + k && (r@[k].0 as int) < self.draft_groups@.len(),
            forall|k: int|
                0 <= k < r@.len() ==> {
                    let g = self.draft_groups@[(#[trigger] r@[k]).0 as int];
                    &&& r@[k].1.total_amount == g.total_amount
                    &&& r@[k].1.num_drafts == g.draft_indices@.len()
                    &&& r@[k].1.funded == g.funded
                },
            r@.len() == ({
                let lo = (match from_index {
                    Some(f) => f as int,
                    None => 0,
                });
                let hi_raw = (match to_index {
                    Some(t) => t as int,
                    None => self.draft_groups@.len() as int,
                });
                let hi = if hi_raw <= self.draft_groups@.len() {
                    hi_raw
                } else {
                    self.draft_groups@.len() as int
                };
                if lo < hi {
                    hi - lo
                } else {
                    0
                }
            }),
    {
        let from: u32 = match from_index {
            Some(f) => f,
            None => 0,
        };
        let len32 = self.draft_groups.len() as u32;
        let to: u32 = match to_index {
            Some(t) => if t < len32 {
                t
            } else {
                len32
            },
            None => len32,
        };
        let mut out: Vec<(DraftGroupIndex, DraftGroupView)> = Vec::new();
        let mut i: u32 = from;
        while i < to
            invariant
                from <= i,
                i <= to || out@.len() == 0,
                to as int <= self.draft_groups@.len(),
                self.wf(),
                out@.len() == (if i >= from {
                    i - from
                } else {
                    0
                }),
                forall|k: int|
                    0 <= k < out@.len() ==> (#[trigger] out@[k]).0 as int == from + k && (
                    out@[k].0 as int) < self.draft_groups@.len(),
                forall|k: int|
                    0 <= k < out@.len() ==> {
                        let g = self.draft_groups@[(#[trigger] out@[k]).0 as int];
                        &&& out@[k].1.total_amount == g.total_amount
                        &&& out@[k].1.num_drafts == g.draft_indices@.len()
                        &&& out@[k].1.funded == g.funded
                    },
            decreases to - i,
        {
            match self.get_draft_group(i) {
                Some(v) => {
                    out.push((i, v));
                },
                None => {},
            }
            i += 1;
        }
        out
    }

    /// The staged draft at `index`, its template viewed at `now`.
    pub fn get_draft(&self, index: DraftIndex, now: TimestampSec) -> (r: Option<DraftView>)
        requires
            self.wf(),
        ensures
            match r {
                Some(v) => {
                    let d = self.drafts@[index as int]->0;
                    &&& (index as int) < self.drafts@.len()
                    &&& self.drafts@[index as int] is Some
                    &&& v.draft_group_id == d.draft_group_id
                    &&& lockup_view_ok(d.lockup, now as int, v.lockup)
                },
                None => (index as int) >= self.drafts@.len() || self.drafts@[index as int] is None,
            },
    {
        if (index as usize) >= self.drafts.len() {
            return None;
        }
        proof {
            assert(self.draft_wf(index as int));
        }
        match &self.drafts[index as usize] {
            None => None,
            Some(d) => Some(
                DraftView {
                    draft_group_id: d.draft_group_id,
                    lockup: lockup_view(&d.lockup, now),
                },
            ),
        }
    }

    /// The staged drafts at the given indices, in the given order, viewed
    /// at `now`; absent or converted drafts are skipped.
    pub fn get_drafts(&self, indices: &Vec<DraftIndex>, now: TimestampSec) -> (r: Vec<
        (DraftIndex, DraftView),
    >)
        requires
            self.wf(),
        ensures
            forall|k: int|
                0 <= k < r@.len() ==> ((#[trigger] r@[k]).0 as int) < self.drafts@.len()
                    && self.drafts@[r@[k].0 as int] is Some && r@[k].1.draft_group_id
                    == self.drafts@[r@[k].0 as int]->0.draft_group_id && lockup_view_ok(
                    self.drafts@[r@[k].0 as int]->0.lockup,
                    now as int,
                    r@[k].1.lockup,
                ),
            (forall|k: int|
                0 <= k < indices@.len() ==> ((#[trigger] indices@[k]) as int)
                    < self.drafts@.len() && self.drafts@[indices@[k] as int] is Some) ==> r@.len()
                == indices@.len() && (forall|k: int|
                0 <= k < indices@.len() ==> (#[trigger] r@[k]).0 == indices@[k]),
    {
        let n = indices.len();
        let mut out: Vec<(DraftIndex, DraftView)> = Vec::new();
        let mut i: usize = 0;
        while i < n
            invariant
                0 <= i <= n,
                n == indices@.len(),
                self.wf(),
                forall|k: int|
                    0 <= k < out@.len() ==> ((#[trigger] out@[k]).0 as int) < self.drafts@.len()
                        && self.drafts@[out@[k].0 as int] is Some && out@[k].1.draft_group_id
                        == self.drafts@[out@[k].0 as int]->0.draft_group_id && lockup_view_ok(
                        self.drafts@[out@[k].0 as int]->0.lockup,
                        now as int,
                        out@[k].1.lockup,
                    ),
                (forall|k: int|
                    0 <= k < i ==> ((#[trigger] indices@[k]) as int) < self.drafts@.len()
                        && self.drafts@[indices@[k] as int] is Some) ==> out@.len() == i && (
                forall|k: int| 0 <= k < i ==> (#[trigger] out@[k]).0 == indices@[k]),
            decreases n - i,
        {
            let idx = indices[i];
            match self.get_draft(idx, now) {
                Some(v) => {
                    out.push((idx, v));
                },
                None => {},
            }
            i += 1;
        }
        out
    }
}

/// Checks a lockup schedule against an expected total and, when one is
/// given, a termination (vesting) schedule against the same total and
/// against the lockup schedule's pace.
pub fn validate_schedule(
    schedule: &Schedule,
    total_balance: Balance,
    termination_schedule: Option<&Schedule>,
) -> (r: Result<(), Error>)
    ensures
        r is Ok <==> ({
            &&& schedule_valid(schedule@, total_balance as int)
            &&& match termination_schedule {
                Some(ts) => schedule_valid(ts@, total_balance as int)
                    && valid_termination_schedule(schedule@, ts@),
                None => true,
            }
        }),
{
    match schedule.assert_valid(total_balance) {
        Err(e) => {
            return Err(e);
        },
        Ok(()) => {},
    }
    match termination_schedule {
        Some(ts) => {
            match ts.assert_valid(total_balance) {
                Err(e) => {
                    return Err(e);
                },
                Ok(()) => {},
            }
            match schedule.assert_valid_termination_schedule(ts) {
                Err(e) => {
                    return Err(e);
                },
                Ok(()) => {},
            }
        },
        None => {},
    }
    Ok(())
}

} // verus!
