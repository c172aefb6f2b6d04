use crate::contract::{distinct_accounts, distinct_entries, distinct_idxs, AccountLockups, Contract};
use crate::lockup::{AccountId, Lockup};
use vstd::prelude::*;

verus! {

/// A stored ledger state from before the draft staging area existed: the
/// lockup store, its account index and the whitelist, but no drafts.
pub struct OldContract {
    pub token_account_id: AccountId,
    pub lockups: Vec<Lockup>,
    pub account_lockups: Vec<AccountLockups>,
    pub deposit_whitelist: Vec<AccountId>,
}

impl OldContract {
    /// What a state written by the previous version satisfies: the same
    /// lockup-side invariants the current ledger maintains.
    pub open spec fn wf(&self) -> bool {
        &&& self.lockups@.len() <= u32::MAX as int
        &&& forall|i: int| 0 <= i < self.lockups@.len() ==> (#[trigger] self.lockups@[i]).wf()
        &&& distinct_entries(self.account_lockups@)
        &&& forall|a: int, k: int|
            0 <= a < self.account_lockups@.len() && 0 <= k
                < self.account_lockups@[a].indices@.len() ==> {
                let idx = (#[trigger] self.account_lockups@[a].indices@[k]) as int;
                &&& idx < self.lockups@.len()
                &&& self.lockups@[idx].account_id@ == self.account_lockups@[a].account_id@
            }
        &&& forall|a: int|
            0 <= a < self.account_lockups@.len() ==> distinct_idxs(
                (#[trigger] self.account_lockups@[a]).indices@,
            )
        &&& distinct_accounts(self.deposit_whitelist@)
    }
}

impl Contract {
    /// Migration for a contract upgrade: carries the stored lockup-side
    /// state over unchanged and starts the draft staging area empty.
    pub fn migrate(old_state: OldContract) -> (r: Contract)
        requires
            old_state.wf(),
        ensures
            r.token_account_id == old_state.token_account_id,
            r.lockups@ == old_state.lockups@,
            r.account_lockups@ == old_state.account_lockups@,
            r.deposit_whitelist@ == old_state.deposit_whitelist@,
            r.next_draft_id == 0,
            r.drafts@ == Seq::<Option<crate::draft::Draft>>::empty(),
            r.draft_groups@ == Seq::<crate::draft::DraftGroup>::empty(),
            r.wf(),
    {
        Contract {
            token_account_id: old_state.token_account_id,
            lockups: old_state.lockups,
            account_lockups: old_state.account_lockups,
            deposit_whitelist: old_state.deposit_whitelist,
            next_draft_id: 0,
            drafts: Vec::new(),
            draft_groups: Vec::new(),
        }
    }
}

} // verus!
