use crate::draft::{sum_indices, Draft, DraftGroup, DraftGroupIndex, DraftIndex};
use crate::error::Error;
use crate::lockup::{AccountId, Lockup, LockupClaim, LockupIndex};
use crate::schedule::{unlocked_at, Schedule, TimestampSec};
use crate::schedule::Balance;
use crate::termination::TerminationConfig;
use vstd::prelude::*;

verus! {

/// One account's set of lockup indices, kept as a secondary index so that
/// an account can claim all its lockups at once.
#[derive(Debug)]
pub struct AccountLockups {
    pub account_id: AccountId,
    pub indices: Vec<LockupIndex>,
}

/// The ledger: the lockup store, the account index over it, the deposit
/// whitelist, and the draft staging area.
#[derive(Debug)]
pub struct Contract {
    /// The token this ledger accounts for.
    pub token_account_id: AccountId,
    /// All lockups ever created, by index.
    pub lockups: Vec<Lockup>,
    /// For each account, the indices of its not-yet-fully-claimed lockups.
    pub account_lockups: Vec<AccountLockups>,
    /// Account IDs that can create new lockups.
    pub deposit_whitelist: Vec<AccountId>,
    /// The next draft key to hand out; equals the draft store's length.
    pub next_draft_id: DraftIndex,
    /// The draft store; a converted draft leaves an empty slot behind.
    pub drafts: Vec<Option<Draft>>,
    /// The draft-group store.
    pub draft_groups: Vec<DraftGroup>,
}

/// Whether some element of `s` names the account `x`.
pub open spec fn contains_account(s: Seq<AccountId>, x: Seq<char>) -> bool {
    exists|i: int| 0 <= i < s.len() && (#[trigger] s[i])@ == x
}

/// No two elements of `s` name the same account.
pub open spec fn distinct_accounts(s: Seq<AccountId>) -> bool {
    forall|i1: int, i2: int| 0 <= i1 < i2 < s.len() ==> (#[trigger] s[i1])@ != (#[trigger] s[i2])@
}

/// Appending an account extends the named set by exactly that account.
proof fn lemma_contains_account_push(s: Seq<AccountId>, a: AccountId)
    ensures
        forall|x: Seq<char>|
            contains_account(s.push(a), x) <==> (contains_account(s, x) || a@ == x),
{
    assert forall|x: Seq<char>|
        contains_account(s.push(a), x) <==> (contains_account(s, x) || a@ == x) by {
        if contains_account(s.push(a), x) {
            let i = choose|i: int| 0 <= i < s.push(a).len() && (#[trigger] s.push(a)[i])@ == x;
            if i < s.len() {
                assert(s[i]@ == x);
            } else {
                assert(s.push(a)[i] == a);
            }
        }
        if contains_account(s, x) {
            let i = choose|i: int| 0 <= i < s.len() && (#[trigger] s[i])@ == x;
            assert(s.push(a)[i]@ == x);
        }
        if a@ == x {
            assert(s.push(a)[s.len() as int]@ == x);
        }
    }
}

/// Appending an account not yet named keeps the list duplicate-free.
proof fn lemma_distinct_push(s: Seq<AccountId>, a: AccountId)
    requires
        distinct_accounts(s),
        !contains_account(s, a@),
    ensures
        distinct_accounts(s.push(a)),
{
    assert forall|i1: int, i2: int| 0 <= i1 < i2 < s.push(a).len() implies (#[trigger] s.push(
        a,
    )[i1])@ != (#[trigger] s.push(a)[i2])@ by {
        if i2 == s.len() {
            assert(s.push(a)[i1] == s[i1]);
            if s[i1]@ == a@ {
                assert(contains_account(s, a@));
            }
        } else {
            assert(s.push(a)[i1] == s[i1]);
            assert(s.push(a)[i2] == s[i2]);
        }
    }
}

/// Removing position `p` from a duplicate-free list removes exactly the
/// account named there.
proof fn lemma_contains_account_remove(s: Seq<AccountId>, p: int)
    requires
        distinct_accounts(s),
        0 <= p < s.len(),
    ensures
        forall|x: Seq<char>|
            contains_account(s.remove(p), x) <==> (contains_account(s, x) && x != s[p]@),
        distinct_accounts(s.remove(p)),
{
    assert forall|x: Seq<char>|
        contains_account(s.remove(p), x) <==> (contains_account(s, x) && x != s[p]@) by {
        if contains_account(s.remove(p), x) {
            let i = choose|i: int| 0 <= i < s.remove(p).len() && (#[trigger] s.remove(p)[i])@ == x;
            if i < p {
                assert(s[i]@ == x);
                assert(x != s[p]@);
            } else {
                assert(s.remove(p)[i] == s[i + 1]);
                assert(s[i + 1]@ == x);
                assert(x != s[p]@);
            }
        }
        if contains_account(s, x) && x != s[p]@ {
            let i = choose|i: int| 0 <= i < s.len() && (#[trigger] s[i])@ == x;
            assert(i != p);
            if i < p {
                assert(s.remove(p)[i]@ == x);
            } else {
                assert(s.remove(p)[i - 1] == s[i]);
                assert(s.remove(p)[i - 1]@ == x);
            }
        }
    }
    assert forall|i1: int, i2: int| 0 <= i1 < i2 < s.remove(p).len() implies (#[trigger] s.remove(
        p,
    )[i1])@ != (#[trigger] s.remove(p)[i2])@ by {
        let j1 = if i1 < p {
            i1
        } else {
            i1 + 1
        };
        let j2 = if i2 < p {
            i2
        } else {
            i2 + 1
        };
        assert(s.remove(p)[i1] == s[j1]);
        assert(s.remove(p)[i2] == s[j2]);
    }
}

/// The store invariants do not look at the whitelist: a ledger that
/// changes nothing else stays well formed as long as the new whitelist is
/// duplicate-free.
proof fn lemma_wf_ignores_whitelist(c1: Contract, c2: Contract)
    requires
        c1.wf(),
        distinct_accounts(c2.deposit_whitelist@),
        c2.lockups@ == c1.lockups@,
        c2.account_lockups@ == c1.account_lockups@,
        c2.next_draft_id == c1.next_draft_id,
        c2.drafts@ == c1.drafts@,
        c2.draft_groups@ == c1.draft_groups@,
    ensures
        c2.wf(),
{
    assert forall|gid: int| 0 <= gid < c2.draft_groups@.len() implies c2.group_wf(gid) by {
        assert(c1.group_wf(gid));
    }
    assert forall|di: int| 0 <= di < c2.drafts@.len() implies c2.draft_wf(di) by {
        assert(c1.draft_wf(di));
    }
}

/// No index occurs twice.
pub open spec fn distinct_idxs(s: Seq<u32>) -> bool {
    forall|k1: int, k2: int| 0 <= k1 < k2 < s.len() ==> (#[trigger] s[k1]) != (#[trigger] s[k2])
}

/// Appending a fresh index keeps the list duplicate-free and adds exactly
/// that index.
proof fn lemma_idxs_push(s: Seq<u32>, v: u32)
    ensures
        forall|w: u32| #![trigger s.push(v).contains(w)] s.push(v).contains(w) <==> (s.contains(w)
            || w == v),
        (distinct_idxs(s) && !s.contains(v)) ==> distinct_idxs(s.push(v)),
{
    assert forall|w: u32| #![trigger s.push(v).contains(w)] s.push(v).contains(w) <==> (s.contains(
        w,
    ) || w == v) by {
        if s.push(v).contains(w) {
            let k = choose|k: int| 0 <= k < s.push(v).len() && s.push(v)[k] == w;
            if k < s.len() {
                assert(s[k] == w);
            }
        }
        if s.contains(w) {
            let k = choose|k: int| 0 <= k < s.len() && s[k] == w;
            assert(s.push(v)[k] == w);
        }
        if w == v {
            assert(s.push(v)[s.len() as int] == w);
        }
    }
    if distinct_idxs(s) && !s.contains(v) {
        assert forall|k1: int, k2: int| 0 <= k1 < k2 < s.push(v).len() implies (#[trigger] s.push(
            v,
        )[k1]) != (#[trigger] s.push(v)[k2]) by {
            if k2 == s.len() {
                assert(s.push(v)[k1] == s[k1]);
                if s[k1] == v {
                    assert(s.contains(v));
                }
            } else {
                assert(s.push(v)[k1] == s[k1]);
                assert(s.push(v)[k2] == s[k2]);
            }
        }
    }
}

/// Removing position `pos` from a duplicate-free index list removes
/// exactly the index there.
proof fn lemma_idxs_remove(s: Seq<u32>, pos: int)
    requires
        distinct_idxs(s),
        0 <= pos < s.len(),
    ensures
        distinct_idxs(s.remove(pos)),
        forall|w: u32| s.remove(pos).contains(w) <==> (s.contains(w) && w != s[pos]),
{
    let r = s.remove(pos);
    assert forall|k1: int, k2: int| 0 <= k1 < k2 < r.len() implies (#[trigger] r[k1]) != (
    #[trigger] r[k2]) by {
        let j1 = if k1 < pos {
            k1
        } else {
            k1 + 1
        };
        let j2 = if k2 < pos {
            k2
        } else {
            k2 + 1
        };
        assert(r[k1] == s[j1]);
        assert(r[k2] == s[j2]);
    }
    assert forall|w: u32| r.contains(w) <==> (s.contains(w) && w != s[pos]) by {
        if r.contains(w) {
            let k = choose|k: int| 0 <= k < r.len() && r[k] == w;
            let j = if k < pos {
                k
            } else {
                k + 1
            };
            assert(r[k] == s[j]);
            assert(s[j] == w);
            assert(j != pos || w == s[pos]);
            if k < pos {
                assert(s[k] != s[pos]);
            } else {
                assert(s[pos] != s[k + 1]);
            }
        }
        if s.contains(w) && w != s[pos] {
            let j = choose|j: int| 0 <= j < s.len() && s[j] == w;
            assert(j != pos);
            if j < pos {
                assert(r[j] == s[j]);
            } else {
                assert(r[j - 1] == s[j]);
            }
        }
    }
}

/// Whether some entry is for the account `x`.
pub open spec fn entries_has(entries: Seq<AccountLockups>, x: Seq<char>) -> bool {
    exists|a: int| 0 <= a < entries.len() && (#[trigger] entries[a]).account_id@ == x
}

/// The position of the entry for `x`.
pub open spec fn entries_pos(entries: Seq<AccountLockups>, x: Seq<char>) -> int {
    choose|a: int| 0 <= a < entries.len() && (#[trigger] entries[a]).account_id@ == x
}

/// No two entries are for the same account.
pub open spec fn distinct_entries(entries: Seq<AccountLockups>) -> bool {
    forall|a1: int, a2: int|
        0 <= a1 < a2 < entries.len() ==> (#[trigger] entries[a1]).account_id@ != (
        #[trigger] entries[a2]).account_id@
}

/// In a duplicate-free entry list, the entry for an account is the one at
/// its position.
proof fn lemma_entries_pos(entries: Seq<AccountLockups>, p: int)
    requires
        distinct_entries(entries),
        0 <= p < entries.len(),
    ensures
        entries_has(entries, entries[p].account_id@),
        entries_pos(entries, entries[p].account_id@) == p,
{
    assert(entries_has(entries, entries[p].account_id@));
    let q = entries_pos(entries, entries[p].account_id@);
    if q != p {
        if q < p {
            assert(entries[q].account_id@ != entries[p].account_id@);
        } else {
            assert(entries[p].account_id@ != entries[q].account_id@);
        }
    }
}

/// Replacing the entry at `p` with one for the same account moves no
/// account and no other entry.
proof fn lemma_entries_update(entries: Seq<AccountLockups>, p: int, e2: AccountLockups)
    requires
        distinct_entries(entries),
        0 <= p < entries.len(),
        e2.account_id@ == entries[p].account_id@,
    ensures
        distinct_entries(entries.update(p, e2)),
        forall|x: Seq<char>| entries_has(entries.update(p, e2), x) <==> entries_has(entries, x),
        forall|x: Seq<char>|
            entries_has(entries, x) ==> entries_pos(entries.update(p, e2), x) == entries_pos(
                entries,
                x,
            ),
{
    let upd = entries.update(p, e2);
    assert forall|x: Seq<char>| entries_has(upd, x) <==> entries_has(entries, x) by {
        if entries_has(upd, x) {
            let a = choose|a: int| 0 <= a < upd.len() && (#[trigger] upd[a]).account_id@ == x;
            assert(entries[a].account_id@ == x);
        }
        if entries_has(entries, x) {
            let a = choose|a: int|
                0 <= a < entries.len() && (#[trigger] entries[a]).account_id@ == x;
            assert(upd[a].account_id@ == x);
        }
    }
    assert forall|x: Seq<char>| entries_has(entries, x) implies entries_pos(upd, x)
        == entries_pos(entries, x) by {
        let a = entries_pos(entries, x);
        assert(entries[a].account_id@ == x);
        assert(upd[a].account_id@ == x);
        lemma_entries_pos(upd, a);
    }
}

/// Appending an entry for a new account adds exactly that account, at the
/// end, and moves no other entry.
proof fn lemma_entries_push(entries: Seq<AccountLockups>, e: AccountLockups)
    requires
        distinct_entries(entries),
        !entries_has(entries, e.account_id@),
    ensures
        distinct_entries(entries.push(e)),
        forall|x: Seq<char>|
            entries_has(entries.push(e), x) <==> (entries_has(entries, x) || x == e.account_id@),
        entries_pos(entries.push(e), e.account_id@) == entries.len(),
        forall|x: Seq<char>|
            entries_has(entries, x) ==> entries_pos(entries.push(e), x) == entries_pos(entries, x),
{
    let pushed = entries.push(e);
    assert forall|a1: int, a2: int| 0 <= a1 < a2 < pushed.len() implies (#[trigger] pushed[a1]).account_id@
        != (#[trigger] pushed[a2]).account_id@ by {
        if a2 == entries.len() {
            assert(pushed[a1] == entries[a1]);
            if entries[a1].account_id@ == e.account_id@ {
                assert(entries_has(entries, e.account_id@));
            }
        } else {
            assert(pushed[a1] == entries[a1]);
            assert(pushed[a2] == entries[a2]);
        }
    }
    assert forall|x: Seq<char>|
        entries_has(pushed, x) <==> (entries_has(entries, x) || x == e.account_id@) by {
        if entries_has(pushed, x) {
            let a = choose|a: int| 0 <= a < pushed.len() && (#[trigger] pushed[a]).account_id@ == x;
            if a < entries.len() {
                assert(entries[a].account_id@ == x);
            } else {
                assert(pushed[a] == e);
            }
        }
        if entries_has(entries, x) {
            let a = choose|a: int|
                0 <= a < entries.len() && (#[trigger] entries[a]).account_id@ == x;
            assert(pushed[a].account_id@ == x);
        }
        if x == e.account_id@ {
            assert(pushed[entries.len() as int].account_id@ == x);
        }
    }
    assert(pushed[entries.len() as int] == e);
    lemma_entries_pos(pushed, entries.len() as int);
    assert forall|x: Seq<char>| entries_has(entries, x) implies entries_pos(pushed, x)
        == entries_pos(entries, x) by {
        let a = entries_pos(entries, x);
        assert(entries[a].account_id@ == x);
        assert(pushed[a].account_id@ == x);
        lemma_entries_pos(pushed, a);
    }
}

/// Whether `x` occurs in a list of lockup indices.
fn contains_index(v: &Vec<LockupIndex>, x: LockupIndex) -> (r: bool)
    ensures
        r == v@.contains(x),
{
    let n = v.len();
    let mut i: usize = 0;
    while i < n
        invariant
            0 <= i <= n,
            n == v@.len(),
            forall|j: int| 0 <= j < i ==> (#[trigger] v@[j]) != x,
        decreases n - i,
    {
        if v[i] == x {
            proof {
                assert(v@.contains(x));
            }
            return true;
        }
        i += 1;
    }
    proof {
        if v@.contains(x) {
            let j = choose|j: int| 0 <= j < v@.len() && v@[j] == x;
        }
    }
    false
}

/// Whether `x` occurs among the keys of a list of claim requests.
fn contains_pair_key(v: &Vec<(LockupIndex, Balance)>, x: LockupIndex) -> (r: bool)
    ensures
        r == Contract::pair_ids(v@).contains(x),
{
    let n = v.len();
    let mut i: usize = 0;
    proof {
        assert(forall|j: int|
            0 <= j < n ==> (#[trigger] Contract::pair_ids(v@)[j]) == v@[j].0);
    }
    while i < n
        invariant
            0 <= i <= n,
            n == v@.len(),
            forall|j: int| 0 <= j < n ==> (#[trigger] Contract::pair_ids(v@)[j]) == v@[j].0,
            forall|j: int| 0 <= j < i ==> (#[trigger] v@[j]).0 != x,
        decreases n - i,
    {
        if v[i].0 == x {
            proof {
                assert(Contract::pair_ids(v@)[i as int] == x);
                assert(Contract::pair_ids(v@).contains(x));
            }
            return true;
        }
        i += 1;
    }
    proof {
        if Contract::pair_ids(v@).contains(x) {
            let j = choose|j: int|
                0 <= j < Contract::pair_ids(v@).len() && Contract::pair_ids(v@)[j] == x;
            assert(v@[j].0 == x);
        }
    }
    false
}

/// The draft-side invariants do not look at the lockup store, the account
/// index or the whitelist.
proof fn lemma_draft_side_unchanged(c1: Contract, c2: Contract)
    requires
        c1.wf(),
        c2.drafts@ == c1.drafts@,
        c2.draft_groups@ == c1.draft_groups@,
        c2.next_draft_id == c1.next_draft_id,
    ensures
        c2.next_draft_id as int == c2.drafts@.len(),
        c2.draft_groups@.len() <= u32::MAX as int,
        forall|gid: int| 0 <= gid < c2.draft_groups@.len() ==> c2.group_wf(gid),
        forall|di: int| 0 <= di < c2.drafts@.len() ==> c2.draft_wf(di),
{
    assert forall|gid: int| 0 <= gid < c2.draft_groups@.len() implies c2.group_wf(gid) by {
        assert(c1.group_wf(gid));
    }
    assert forall|di: int| 0 <= di < c2.drafts@.len() implies c2.draft_wf(di) by {
        assert(c1.draft_wf(di));
    }
}

/// The lockup-side invariants do not look at the draft stores.
proof fn lemma_lockup_side_unchanged(c1: Contract, c2: Contract)
    requires
        c1.wf(),
        c2.lockups@ == c1.lockups@,
        c2.account_lockups@ == c1.account_lockups@,
        c2.deposit_whitelist@ == c1.deposit_whitelist@,
    ensures
        c2.lockups@.len() <= u32::MAX as int,
        forall|i: int| 0 <= i < c2.lockups@.len() ==> (#[trigger] c2.lockups@[i]).wf(),
        c2.accounts_wf(),
        c2.whitelist_wf(),
{
    assert forall|i: int| 0 <= i < c2.lockups@.len() implies (#[trigger] c2.lockups@[i]).wf() by {
        assert(c1.lockups@[i].wf());
    }
    assert(c2.accounts_wf()) by {
        assert(c1.accounts_wf());
    }
}

impl Contract {
    /// Whether `account` is in the deposit whitelist.
    pub open spec fn whitelisted(&self, account: Seq<char>) -> bool {
        contains_account(self.deposit_whitelist@, account)
    }

    /// Whether the account index holds an entry for `account`.
    pub open spec fn has_account(&self, account: Seq<char>) -> bool {
        entries_has(self.account_lockups@, account)
    }

    /// The position of `account`'s entry in the account index.
    pub open spec fn account_pos(&self, account: Seq<char>) -> int {
        entries_pos(self.account_lockups@, account)
    }

    /// The lockup indices the account index lists for `account`.
    pub open spec fn account_indices(&self, account: Seq<char>) -> Seq<LockupIndex> {
        if self.has_account(account) {
            self.account_lockups@[self.account_pos(account)].indices@
        } else {
            Seq::empty()
        }
    }

    /// Group `gid` is internally consistent: its member indices point at
    /// live drafts of this group, are distinct, and their totals sum to
    /// the group's outstanding total; a funded group knows its payer.
    pub open spec fn group_wf(&self, gid: int) -> bool {
        let g = self.draft_groups@[gid];
        &&& forall|k: int|
            0 <= k < g.draft_indices@.len() ==> {
                let di = (#[trigger] g.draft_indices@[k]) as int;
                &&& di < self.drafts@.len()
                &&& self.drafts@[di] is Some
                &&& self.drafts@[di]->0.draft_group_id == gid
            }
        &&& distinct_idxs(g.draft_indices@)
        &&& g.total_amount as int == sum_indices(self.drafts@, g.draft_indices@)
        &&& (g.funded ==> g.payer_id is Some)
    }

    /// A live draft points back at an existing group that lists it, and
    /// its template is a well-formed, unclaimed lockup.
    pub open spec fn draft_wf(&self, di: int) -> bool {
        match self.drafts@[di] {
            Some(d) => {
                &&& (d.draft_group_id as int) < self.draft_groups@.len()
                &&& self.draft_groups@[d.draft_group_id as int].draft_indices@.contains(
                    di as DraftIndex,
                )
                &&& d.lockup.wf()
                &&& d.lockup.claimed_balance == 0
            },
            None => true,
        }
    }

    /// The account index lists each account once, with distinct in-bounds
    /// lockup indices that belong to that account.
    pub open spec fn accounts_wf(&self) -> bool {
        &&& distinct_entries(self.account_lockups@)
        &&& forall|a: int, k: int|
            0 <= a < self.account_lockups@.len() && 0 <= k
                < self.account_lockups@[a].indices@.len() ==> {
                let idx = (#[trigger] self.account_lockups@[a].indices@[k]) as int;
                &&& idx < self.lockups@.len()
                &&& self.lockups@[idx].account_id@ == self.account_lockups@[a].account_id@
            }
        &&& forall|a: int|
            0 <= a < self.account_lockups@.len() ==> distinct_idxs(
                (#[trigger] self.account_lockups@[a]).indices@,
            )
    }

    /// The whitelist lists each account once.
    pub open spec fn whitelist_wf(&self) -> bool {
        distinct_accounts(self.deposit_whitelist@)
    }

    /// What every operation preserves.
    pub open spec fn wf(&self) -> bool {
        &&& self.next_draft_id as int == self.drafts@.len()
        &&& self.draft_groups@.len() <= u32::MAX as int
        &&& self.lockups@.len() <= u32::MAX as int
        &&& forall|gid: int| 0 <= gid < self.draft_groups@.len() ==> self.group_wf(gid)
        &&& forall|di: int| 0 <= di < self.drafts@.len() ==> self.draft_wf(di)
        &&& forall|i: int| 0 <= i < self.lockups@.len() ==> (#[trigger] self.lockups@[i]).wf()
        &&& self.accounts_wf()
        &&& self.whitelist_wf()
    }

    /// When `create_draft` accepts: a whitelisted caller, a fresh valid
    /// template, an existing unfunded group, and room in the key space
    /// and the group total.
    pub open spec fn create_draft_ok(&self, caller: Seq<char>, draft: Draft) -> bool {
        let gid = draft.draft_group_id as int;
        &&& self.whitelisted(caller)
        &&& draft.lockup.new_valid(draft.total_balance_spec())
        &&& gid < self.draft_groups@.len()
        &&& !self.draft_groups@[gid].funded
        &&& (self.next_draft_id as int) < u32::MAX as int
        &&& self.draft_groups@[gid].total_amount + draft.total_balance_spec() <= u128::MAX as int
    }

    /// What `create_draft` does: the draft takes the next key and joins
    /// its group's member list and total; nothing else moves.
    pub open spec fn create_draft_rel(pre: Contract, draft: Draft, post: Contract, idx: DraftIndex) -> bool {
        let gid = draft.draft_group_id as int;
        let g = pre.draft_groups@[gid];
        &&& idx == pre.next_draft_id
        &&& post.next_draft_id as int == pre.next_draft_id as int + 1
        &&& post.drafts@ == pre.drafts@.push(Some(draft))
        &&& post.draft_groups@.len() == pre.draft_groups@.len()
        &&& post.draft_groups@[gid].total_amount as int == g.total_amount
            + draft.total_balance_spec()
        &&& post.draft_groups@[gid].draft_indices@ == g.draft_indices@.push(idx)
        &&& post.draft_groups@[gid].funded == g.funded
        &&& post.draft_groups@[gid].payer_id == g.payer_id
        &&& forall|g2: int|
            0 <= g2 < pre.draft_groups@.len() && g2 != gid ==> post.draft_groups@[g2]
                == pre.draft_groups@[g2]
        &&& post.token_account_id == pre.token_account_id
        &&& post.lockups@ == pre.lockups@
        &&& post.account_lockups@ == pre.account_lockups@
        &&& post.deposit_whitelist@ == pre.deposit_whitelist@
        &&& post.wf()
    }

    /// When `convert_draft` accepts: a live draft of a funded group, with
    /// room in the lockup store.
    pub open spec fn convert_draft_ok(&self, draft_id: DraftIndex) -> bool {
        &&& (draft_id as int) < self.drafts@.len()
        &&& self.drafts@[draft_id as int] matches Some(d) && self.draft_groups@[d.draft_group_id as int].funded
        &&& self.lockups@.len() < u32::MAX as int
    }

    /// What `convert_draft` does: the draft leaves its slot and its
    /// group, whose total drops by the draft's amount; the template, with
    /// the group's payer filled in, is stored as a new lockup recorded
    /// under its account.
    pub open spec fn convert_draft_rel(pre: Contract, draft_id: DraftIndex, post: Contract, idx: LockupIndex) -> bool {
        let d = pre.drafts@[draft_id as int]->0;
        let gid = d.draft_group_id as int;
        let og = pre.draft_groups@[gid];
        let lk = post.lockups@.last();
        &&& idx as int == pre.lockups@.len()
        &&& post.lockups@.len() == pre.lockups@.len() + 1
        &&& forall|i: int| 0 <= i < pre.lockups@.len() ==> post.lockups@[i] == pre.lockups@[i]
        &&& lk.account_id == d.lockup.account_id
        &&& lk.schedule == d.lockup.schedule
        &&& lk.claimed_balance == 0
        &&& (match d.lockup.termination_config {
            None => lk.termination_config is None,
            Some(cfg) => lk.termination_config == Some(
                TerminationConfig {
                    terminator_id: cfg.terminator_id,
                    payer_id: Some(og.payer_id->0),
                    vesting_schedule: cfg.vesting_schedule,
                },
            ),
        })
        &&& post.account_indices(d.lockup.account_id@) == pre.account_indices(
            d.lockup.account_id@,
        ).push(idx)
        &&& forall|x: Seq<char>|
            x != d.lockup.account_id@ ==> post.account_indices(x) == pre.account_indices(x)
        &&& post.drafts@ == pre.drafts@.update(draft_id as int, None::<Draft>)
        &&& post.next_draft_id == pre.next_draft_id
        &&& post.draft_groups@.len() == pre.draft_groups@.len()
        &&& post.draft_groups@[gid].total_amount as int == og.total_amount
            - d.total_balance_spec()
        &&& post.draft_groups@[gid].draft_indices@.len() == og.draft_indices@.len() - 1
        &&& forall|w: u32|
            post.draft_groups@[gid].draft_indices@.contains(w) <==> (og.draft_indices@.contains(w)
                && w != draft_id)
        &&& post.draft_groups@[gid].funded == og.funded
        &&& post.draft_groups@[gid].payer_id == og.payer_id
        &&& forall|g2: int|
            0 <= g2 < pre.draft_groups@.len() && g2 != gid ==> post.draft_groups@[g2]
                == pre.draft_groups@[g2]
        &&& post.token_account_id == pre.token_account_id
        &&& post.deposit_whitelist@ == pre.deposit_whitelist@
        &&& post.wf()
    }

    /// A fresh ledger for `token_account_id` whose deposit whitelist holds
    /// exactly the given accounts.
    pub fn new(token_account_id: AccountId, deposit_whitelist: Vec<AccountId>) -> (r: Contract)
        ensures
            r.token_account_id == token_account_id,
            r.lockups@ == Seq::<Lockup>::empty(),
            r.account_lockups@ == Seq::<AccountLockups>::empty(),
            r.next_draft_id == 0,
            r.drafts@ == Seq::<Option<Draft>>::empty(),
            r.draft_groups@ == Seq::<DraftGroup>::empty(),
            forall|x: Seq<char>| r.whitelisted(x) <==> contains_account(deposit_whitelist@, x),
            r.wf(),
    {
        let mut r = Contract {
            token_account_id,
            lockups: Vec::new(),
            account_lockups: Vec::new(),
            deposit_whitelist: Vec::new(),
            next_draft_id: 0,
            drafts: Vec::new(),
            draft_groups: Vec::new(),
        };
        let n = deposit_whitelist.len();
        let mut i: usize = 0;
        while i < n
            invariant
                0 <= i <= n,
                n == deposit_whitelist.len(),
                r.whitelist_wf(),
                forall|x: Seq<char>|
                    #![trigger contains_account(deposit_whitelist@.take(i as int), x)]
                    r.whitelisted(x) <==> contains_account(deposit_whitelist@.take(i as int), x),
                r.token_account_id == token_account_id,
                r.lockups@ == Seq::<Lockup>::empty(),
                r.account_lockups@ == Seq::<AccountLockups>::empty(),
                r.next_draft_id == 0,
                r.drafts@ == Seq::<Option<Draft>>::empty(),
                r.draft_groups@ == Seq::<DraftGroup>::empty(),
            decreases n - i,
        {
            let account = &deposit_whitelist[i];
            let ghost pre = r.deposit_whitelist@;
            let dup = r.whitelist_pos(account);
            if dup.is_none() {
                r.deposit_whitelist.push(account.clone());
                proof {
                    assert(r.deposit_whitelist@ == pre.push(deposit_whitelist@[i as int]));
                    lemma_contains_account_push(pre, deposit_whitelist@[i as int]);
                    lemma_distinct_push(pre, deposit_whitelist@[i as int]);
                }
            }
            proof {
                let elem = deposit_whitelist@[i as int];
                assert(deposit_whitelist@.take(i + 1) =~= deposit_whitelist@.take(i as int).push(
                    elem,
                ));
                lemma_contains_account_push(deposit_whitelist@.take(i as int), elem);
                if !dup.is_none() {
                    assert(contains_account(pre, elem@));
                }
                assert forall|x: Seq<char>|
                    r.whitelisted(x) <==> contains_account(
                        deposit_whitelist@.take(i + 1),
                        x,
                    ) by {
                    assert(contains_account(deposit_whitelist@.take(i + 1), x) == (
                    contains_account(deposit_whitelist@.take(i as int), x) || elem@ == x));
                    if dup.is_none() {
                        assert(r.deposit_whitelist@ == pre.push(elem));
                        assert(contains_account(pre.push(elem), x) == (contains_account(pre, x)
                            || elem@ == x));
                    } else {
                        assert(r.deposit_whitelist@ == pre);
                        if elem@ == x {
                            assert(contains_account(pre, x));
                        }
                    }
                    assert(contains_account(pre, x) <==> contains_account(
                        deposit_whitelist@.take(i as int),
                        x,
                    ));
                }
            }
            i += 1;
        }
        proof {
            assert(deposit_whitelist@.take(n as int) =~= deposit_whitelist@);
        }
        r
    }

    /// The position of `account` in the deposit whitelist, if present.
    fn whitelist_pos(&self, account_id: &AccountId) -> (r: Option<usize>)
        ensures
            match r {
                Some(p) => p < self.deposit_whitelist@.len() && self.deposit_whitelist@[p as int]@
                    == account_id@,
                None => !self.whitelisted(account_id@),
            },
    {
        let n = self.deposit_whitelist.len();
        let mut i: usize = 0;
        while i < n
            invariant
                0 <= i <= n,
                n == self.deposit_whitelist@.len(),
                forall|j: int| 0 <= j < i ==> (#[trigger] self.deposit_whitelist@[j])@ != account_id@,
            decreases n - i,
        {
            if self.deposit_whitelist[i] == *account_id {
                return Some(i);
            }
            i += 1;
        }
        None
    }

    /// Rejects callers that are not in the deposit whitelist.
    fn assert_deposit_whitelist(&self, account_id: &AccountId) -> (r: Result<(), Error>)
        ensures
            r is Ok <==> self.whitelisted(account_id@),
            r is Err ==> r->Err_0 == Error::NotInDepositWhitelist,
    {
        match self.whitelist_pos(account_id) {
            Some(_) => Ok(()),
            None => Err(Error::NotInDepositWhitelist),
        }
    }

    /// Adds `account_id` to the deposit whitelist. Only a whitelisted
    /// caller may do so; adding an account twice changes nothing.
    pub fn add_to_deposit_whitelist(&mut self, caller: &AccountId, account_id: &AccountId) -> (r:
        Result<(), Error>)
        requires
            old(self).wf(),
        ensures
            r is Ok <==> old(self).whitelisted(caller@),
            r is Err ==> *final(self) == *old(self) && r->Err_0 == Error::NotInDepositWhitelist,
            r is Ok ==> {
                &&& forall|x: Seq<char>|
                    final(self).whitelisted(x) <==> (old(self).whitelisted(x) || x == account_id@)
                &&& final(self).deposit_whitelist@ == (if old(self).whitelisted(account_id@) {
                    old(self).deposit_whitelist@
                } else {
                    old(self).deposit_whitelist@.push(*account_id)
                })
                &&& final(self).token_account_id == old(self).token_account_id
                &&& final(self).lockups@ == old(self).lockups@
                &&& final(self).account_lockups@ == old(self).account_lockups@
                &&& final(self).next_draft_id == old(self).next_draft_id
                &&& final(self).drafts@ == old(self).drafts@
                &&& final(self).draft_groups@ == old(self).draft_groups@
                &&& final(self).wf()
            },
    {
        match self.assert_deposit_whitelist(caller) {
            Err(e) => {
                return Err(e);
            },
            Ok(()) => {},
        }
        let dup = self.whitelist_pos(account_id);
        if dup.is_none() {
            self.deposit_whitelist.push(account_id.clone());
            proof {
                lemma_contains_account_push(old(self).deposit_whitelist@, *account_id);
                lemma_distinct_push(old(self).deposit_whitelist@, *account_id);
                assert(self.deposit_whitelist@ == old(self).deposit_whitelist@.push(*account_id));
            }
        }
        proof {
            assert forall|x: Seq<char>|
                self.whitelisted(x) <==> (old(self).whitelisted(x) || x == account_id@) by {
                if dup.is_none() {
                    assert(contains_account(
                        old(self).deposit_whitelist@.push(*account_id),
                        x,
                    ) == (contains_account(old(self).deposit_whitelist@, x) || account_id@ == x));
                } else {
                    if account_id@ == x {
                        assert(contains_account(old(self).deposit_whitelist@, x));
                    }
                }
            }
            lemma_wf_ignores_whitelist(*old(self), *self);
        }
        Ok(())
    }

    /// Removes `account_id` from the deposit whitelist, keeping the order
    /// of the remaining entries. Only a whitelisted caller may do so; a
    /// caller may remove itself, even as the last entry.
    pub fn remove_from_deposit_whitelist(
        &mut self,
        caller: &AccountId,
        account_id: &AccountId,
    ) -> (r: Result<(), Error>)
        requires
            old(self).wf(),
        ensures
            r is Ok <==> old(self).whitelisted(caller@),
            r is Err ==> *final(self) == *old(self) && r->Err_0 == Error::NotInDepositWhitelist,
            r is Ok ==> {
                &&& forall|x: Seq<char>|
                    final(self).whitelisted(x) <==> (old(self).whitelisted(x) && x != account_id@)
                &&& final(self).token_account_id == old(self).token_account_id
                &&& final(self).lockups@ == old(self).lockups@
                &&& final(self).account_lockups@ == old(self).account_lockups@
                &&& final(self).next_draft_id == old(self).next_draft_id
                &&& final(self).drafts@ == old(self).drafts@
                &&& final(self).draft_groups@ == old(self).draft_groups@
                &&& final(self).wf()
            },
    {
        match self.assert_deposit_whitelist(caller) {
            Err(e) => {
                return Err(e);
            },
            Ok(()) => {},
        }
        match self.whitelist_pos(account_id) {
            Some(p) => {
                self.deposit_whitelist.remove(p);
                proof {
                    lemma_contains_account_remove(old(self).deposit_whitelist@, p as int);
                    assert(self.deposit_whitelist@ == old(self).deposit_whitelist@.remove(
                        p as int,
                    ));
                    assert forall|x: Seq<char>|
                        self.whitelisted(x) <==> (old(self).whitelisted(x) && x
                            != account_id@) by {
                        assert(contains_account(
                            old(self).deposit_whitelist@.remove(p as int),
                            x,
                        ) == (contains_account(old(self).deposit_whitelist@, x) && x != old(
                            self,
                        ).deposit_whitelist@[p as int]@));
                    }
                }
            },
            None => {
                proof {
                    assert forall|x: Seq<char>|
                        self.whitelisted(x) <==> (old(self).whitelisted(x) && x
                            != account_id@) by {
                        if x == account_id@ && old(self).whitelisted(x) {
                            assert(false);
                        }
                    }
                }
            },
        }
        proof {
            lemma_wf_ignores_whitelist(*old(self), *self);
        }
        Ok(())
    }

    /// Opens a new, empty, unfunded draft group and returns its index.
    /// Only a whitelisted caller may do so.
    pub fn create_draft_group(&mut self, caller: &AccountId) -> (r: Result<DraftGroupIndex, Error>)
        requires
            old(self).wf(),
        ensures
            r is Err ==> *final(self) == *old(self),
            !old(self).whitelisted(caller@) ==> r == Err::<DraftGroupIndex, Error>(
                Error::NotInDepositWhitelist,
            ),
            old(self).whitelisted(caller@) && old(self).draft_groups@.len() == u32::MAX as int
                ==> r == Err::<DraftGroupIndex, Error>(Error::Invariant),
            r is Ok <==> (old(self).whitelisted(caller@) && old(self).draft_groups@.len()
                < u32::MAX as int),
            r matches Ok(idx) ==> {
                &&& old(self).whitelisted(caller@)
                &&& idx as int == old(self).draft_groups@.len()
                &&& final(self).draft_groups@.len() == old(self).draft_groups@.len() + 1
                &&& final(self).draft_groups@[idx as int].total_amount == 0
                &&& final(self).draft_groups@[idx as int].draft_indices@ == Seq::<
                    DraftIndex,
                >::empty()
                &&& !final(self).draft_groups@[idx as int].funded
                &&& final(self).draft_groups@[idx as int].payer_id is None
                &&& forall|g: int|
                    0 <= g < old(self).draft_groups@.len() ==> final(self).draft_groups@[g] == old(
                        self,
                    ).draft_groups@[g]
                &&& final(self).token_account_id == old(self).token_account_id
                &&& final(self).lockups@ == old(self).lockups@
                &&& final(self).account_lockups@ == old(self).account_lockups@
                &&& final(self).deposit_whitelist@ == old(self).deposit_whitelist@
                &&& final(self).next_draft_id == old(self).next_draft_id
                &&& final(self).drafts@ == old(self).drafts@
                &&& final(self).wf()
            },
    {
        match self.assert_deposit_whitelist(caller) {
            Err(e) => {
                return Err(e);
            },
            Ok(()) => {},
        }
        if self.draft_groups.len() >= 0xffff_ffff_usize {
            return Err(Error::Invariant);
        }
        let index = self.draft_groups.len() as u32;
        self.draft_groups.push(DraftGroup::new());
        proof {
            assert forall|gid: int| 0 <= gid < self.draft_groups@.len() implies self.group_wf(
                gid,
            ) by {
                if gid < old(self).draft_groups@.len() {
                    assert(old(self).group_wf(gid));
                    assert(self.draft_groups@[gid] == old(self).draft_groups@[gid]);
                }
            }
            assert forall|di: int| 0 <= di < self.drafts@.len() implies self.draft_wf(di) by {
                assert(old(self).draft_wf(di));
            }
        }
        Ok(index)
    }

    /// Confirms a group's funding: only a whitelisted sender funding the
    /// group's exact outstanding total marks it funded (at most once) and
    /// becomes its payer. A rejected funding is a refund, not a failure:
    /// the group is left untouched and the amount flows back.
    pub fn fund_draft_group(
        &mut self,
        sender_id: &AccountId,
        amount: Balance,
        draft_group_id: DraftGroupIndex,
    ) -> (r: Result<(), Error>)
        requires
            old(self).wf(),
        ensures
            r is Err ==> *final(self) == *old(self),
            !old(self).whitelisted(sender_id@) ==> r == Err::<(), Error>(
                Error::NotInDepositWhitelist,
            ),
            old(self).whitelisted(sender_id@) && draft_group_id as int >= old(
                self,
            ).draft_groups@.len() ==> r == Err::<(), Error>(Error::DraftGroupNotFound),
            ({
                &&& old(self).whitelisted(sender_id@)
                &&& (draft_group_id as int) < old(self).draft_groups@.len()
                &&& old(self).draft_groups@[draft_group_id as int].funded
            }) ==> r == Err::<(), Error>(Error::GroupAlreadyFunded),
            ({
                &&& old(self).whitelisted(sender_id@)
                &&& (draft_group_id as int) < old(self).draft_groups@.len()
                &&& !old(self).draft_groups@[draft_group_id as int].funded
                &&& amount != old(self).draft_groups@[draft_group_id as int].total_amount
            }) ==> r == Err::<(), Error>(Error::FundingAmountMismatch),
            r is Ok <==> ({
                &&& old(self).whitelisted(sender_id@)
                &&& (draft_group_id as int) < old(self).draft_groups@.len()
                &&& !old(self).draft_groups@[draft_group_id as int].funded
                &&& amount == old(self).draft_groups@[draft_group_id as int].total_amount
            }),
            r is Ok ==> {
                let g = old(self).draft_groups@[draft_group_id as int];
                &&& final(self).draft_groups@ == old(self).draft_groups@.update(
                    draft_group_id as int,
                    DraftGroup {
                        funded: true,
                        payer_id: Some(*sender_id),
                        total_amount: g.total_amount,
                        draft_indices: g.draft_indices,
                    },
                )
                &&& final(self).token_account_id == old(self).token_account_id
                &&& final(self).lockups@ == old(self).lockups@
                &&& final(self).account_lockups@ == old(self).account_lockups@
                &&& final(self).deposit_whitelist@ == old(self).deposit_whitelist@
                &&& final(self).next_draft_id == old(self).next_draft_id
                &&& final(self).drafts@ == old(self).drafts@
                &&& final(self).wf()
            },
    {
        match self.assert_deposit_whitelist(sender_id) {
            Err(e) => {
                return Err(e);
            },
            Ok(()) => {},
        }
        if draft_group_id as usize >= self.draft_groups.len() {
            return Err(Error::DraftGroupNotFound);
        }
        if self.draft_groups[draft_group_id as usize].funded {
            return Err(Error::GroupAlreadyFunded);
        }
        if amount != self.draft_groups[draft_group_id as usize].total_amount {
            return Err(Error::FundingAmountMismatch);
        }
        let g = vstd::std_specs::vec::vec_index_mut(&mut self.draft_groups, draft_group_id as usize);
        g.funded = true;
        g.payer_id = Some(sender_id.clone());
        proof {
            assert(self.draft_groups@ =~= old(self).draft_groups@.update(
                draft_group_id as int,
                self.draft_groups@[draft_group_id as int],
            ));
            assert forall|gid: int| 0 <= gid < self.draft_groups@.len() implies self.group_wf(
                gid,
            ) by {
                assert(old(self).group_wf(gid));
                if gid != draft_group_id as int {
                    assert(self.draft_groups@[gid] == old(self).draft_groups@[gid]);
                }
            }
            assert forall|di: int| 0 <= di < self.drafts@.len() implies self.draft_wf(di) by {
                assert(old(self).draft_wf(di));
            }
        }
        Ok(())
    }

    /// Whether a whole batch of conversions goes through: the keys must
    /// be distinct live drafts of funded groups, with room in the lockup
    /// store for all of them.
    pub open spec fn convert_drafts_ok(&self, ids: Seq<DraftIndex>) -> bool {
        &&& distinct_idxs(ids)
        &&& forall|j: int|
            0 <= j < ids.len() ==> {
                let di = (#[trigger] ids[j]) as int;
                &&& di < self.drafts@.len()
                &&& self.drafts@[di] is Some
                &&& self.draft_groups@[self.drafts@[di]->0.draft_group_id as int].funded
            }
        &&& self.lockups@.len() + ids.len() <= u32::MAX as int
    }

    /// Converts a batch of drafts, applying `convert_draft` to each key in
    /// input order, all or nothing: a batch any key of which would be
    /// rejected (a repeated key among them) leaves the ledger unchanged.
    pub fn convert_drafts(&mut self, draft_ids: Vec<DraftIndex>) -> (r: Result<
        Vec<LockupIndex>,
        Error,
    >)
        requires
            old(self).wf(),
        ensures
            r is Err ==> *final(self) == *old(self),
            r is Ok <==> old(self).convert_drafts_ok(draft_ids@),
            r matches Ok(out) ==> ({
                &&& out@.len() == draft_ids@.len()
                &&& forall|j: int|
                    0 <= j < out@.len() ==> (#[trigger] out@[j]) as int == old(
                        self,
                    ).lockups@.len() + j
                &&& exists|states: Seq<Contract>|
                    #![trigger states.len()]
                    {
                        &&& states.len() == draft_ids@.len() + 1
                        &&& states[0] == *old(self)
                        &&& states.last() == *final(self)
                        &&& forall|j: int|
                            0 <= j < draft_ids@.len() ==> Contract::convert_draft_rel(
                                #[trigger] states[j],
                                draft_ids@[j],
                                states[j + 1],
                                out@[j],
                            )
                    }
                &&& final(self).wf()
            }),
    {
        let n = draft_ids.len();
        let mut i: usize = 0;
        while i < n
            invariant
                0 <= i <= n,
                n == draft_ids@.len(),
                *self == *old(self),
                old(self).wf(),
                forall|a: int, b: int|
                    0 <= a < b < n && a < i ==> (#[trigger] draft_ids@[a]) != (
                    #[trigger] draft_ids@[b]),
            decreases n - i,
        {
            let mut j: usize = i + 1;
            while j < n
                invariant
                    0 <= i < j <= n,
                    n == draft_ids@.len(),
                    *self == *old(self),
                    old(self).wf(),
                    forall|a: int, b: int|
                        0 <= a < b < n && a < i ==> (#[trigger] draft_ids@[a]) != (
                        #[trigger] draft_ids@[b]),
                    forall|b: int|
                        i < b < j ==> (#[trigger] draft_ids@[b]) != draft_ids@[i as int],
                decreases n - j,
            {
                if draft_ids[i] == draft_ids[j] {
                    return Err(Error::DraftNotFound);
                }
                j += 1;
            }
            i += 1;
        }
        let mut k: usize = 0;
        while k < n
            invariant
                0 <= k <= n,
                n == draft_ids@.len(),
                *self == *old(self),
                old(self).wf(),
                forall|j: int|
                    0 <= j < k ==> {
                        let di = (#[trigger] draft_ids@[j]) as int;
                        &&& di < old(self).drafts@.len()
                        &&& old(self).drafts@[di] is Some
                        &&& old(self).draft_groups@[old(self).drafts@[di]->0.draft_group_id as int].funded
                    },
            decreases n - k,
        {
            if draft_ids[k] as usize >= self.drafts.len() {
                return Err(Error::DraftNotFound);
            }
            let di = draft_ids[k] as usize;
            proof {
                assert(old(self).draft_wf(di as int));
            }
            match &self.drafts[di] {
                None => {
                    return Err(Error::DraftNotFound);
                },
                Some(d_ref) => {
                    if !self.draft_groups[d_ref.draft_group_id as usize].funded {
                        return Err(Error::GroupNotFunded);
                    }
                },
            }
            k += 1;
        }
        if (self.lockups.len() as u128) + (n as u128) > 0xffff_ffff_u128 {
            return Err(Error::Invariant);
        }
        let mut out: Vec<LockupIndex> = Vec::new();
        let ghost mut states: Seq<Contract> = seq![*old(self)];
        let mut k: usize = 0;
        while k < n
            invariant
                0 <= k <= n,
                n == draft_ids@.len(),
                old(self).wf(),
                old(self).convert_drafts_ok(draft_ids@),
                states.len() == k + 1,
                states[0] == *old(self),
                states.last() == *self,
                out@.len() == k,
                forall|j: int|
                    0 <= j < k ==> (#[trigger] out@[j]) as int == old(self).lockups@.len() + j,
                forall|j: int|
                    0 <= j < k ==> Contract::convert_draft_rel(
                        #[trigger] states[j],
                        draft_ids@[j],
                        states[j + 1],
                        out@[j],
                    ),
                self.wf(),
                self.lockups@.len() == old(self).lockups@.len() + k,
                self.drafts@.len() == old(self).drafts@.len(),
                self.draft_groups@.len() == old(self).draft_groups@.len(),
                forall|g: int|
                    0 <= g < self.draft_groups@.len() ==> (#[trigger] self.draft_groups@[g]).funded
                        == old(self).draft_groups@[g].funded,
                forall|j: int|
                    k <= j < n ==> self.drafts@[(#[trigger] draft_ids@[j]) as int] == old(
                        self,
                    ).drafts@[draft_ids@[j] as int],
            decreases n - k,
        {
            proof {
                let di = draft_ids@[k as int] as int;
                assert(di < old(self).drafts@.len() && old(self).drafts@[di] is Some && old(
                    self,
                ).draft_groups@[old(self).drafts@[di]->0.draft_group_id as int].funded);
                assert(self.drafts@[di] == old(self).drafts@[di]);
                assert(old(self).draft_wf(di));
                assert((old(self).drafts@[di]->0.draft_group_id as int) < old(
                    self,
                ).draft_groups@.len());
                assert(self.draft_groups@[self.drafts@[di]->0.draft_group_id as int].funded);
                assert((self.lockups@.len() as int) < u32::MAX as int);
                assert(self.convert_draft_ok(draft_ids@[k as int]));
            }
            let ghost pre_state = *self;
            let idx = match self.convert_draft(draft_ids[k]) {
                Ok(i) => i,
                Err(e) => {
                    proof {
                        assert(false);
                    }
                    return Err(e);
                },
            };
            out.push(idx);
            proof {
                states = states.push(*self);
                assert(states.last() == *self);
                assert(Contract::convert_draft_rel(pre_state, draft_ids@[k as int], *self, idx));
                assert forall|j: int|
                    k + 1 <= j < n implies self.drafts@[(#[trigger] draft_ids@[j]) as int] == old(
                    self,
                ).drafts@[draft_ids@[j] as int] by {
                    assert(draft_ids@[j] != draft_ids@[k as int]);
                }
            }
            k += 1;
        }
        Ok(out)
    }

    /// The lockup keys of a list of claim requests.
    pub open spec fn pair_ids(pairs: Seq<(LockupIndex, Balance)>) -> Seq<LockupIndex> {
        pairs.map_values(|p: (LockupIndex, Balance)| p.0)
    }

    /// The not-yet-claimed balance of one lockup at `now`.
    pub open spec fn delta_of(lockups: Seq<Lockup>, idx: LockupIndex, now: int) -> int {
        unlocked_at(lockups[idx as int].schedule@, now) - lockups[idx as int].claimed_balance
    }

    /// Whether one lockup would be fully claimed at `now`.
    pub open spec fn final_at(lockups: Seq<Lockup>, idx: LockupIndex, now: int) -> bool {
        unlocked_at(lockups[idx as int].schedule@, now) == lockups[idx as int].schedule@.last().balance as int
    }

    /// The sum of the not-yet-claimed balances of the listed lockups.
    pub open spec fn deltas_sum(lockups: Seq<Lockup>, idxs: Seq<LockupIndex>, now: int) -> int
        decreases idxs.len(),
    {
        if idxs.len() == 0 {
            0
        } else {
            Self::delta_of(lockups, idxs[0], now) + Self::deltas_sum(
                lockups,
                idxs.drop_first(),
                now,
            )
        }
    }

    /// The indices that stay in an account's entry after a claim: those
    /// not claimed now, and those claimed but not yet fully unlocked.
    pub open spec fn kept_indices(
        lockups: Seq<Lockup>,
        entry: Seq<LockupIndex>,
        claimed_ids: Seq<LockupIndex>,
        now: int,
    ) -> Seq<LockupIndex>
        decreases entry.len(),
    {
        if entry.len() == 0 {
            Seq::empty()
        } else {
            let rest = Self::kept_indices(lockups, entry.drop_first(), claimed_ids, now);
            if claimed_ids.contains(entry[0]) && Self::final_at(lockups, entry[0], now) {
                rest
            } else {
                seq![entry[0]] + rest
            }
        }
    }

    /// Whether a list of claim requests goes through against this state:
    /// the keys are distinct lockups of the account, none has claimed
    /// more than it has unlocked, each requested amount is exactly the
    /// unclaimed balance, and the payout total fits.
    pub open spec fn claim_pairs_ok(
        &self,
        account: Seq<char>,
        pairs: Seq<(LockupIndex, Balance)>,
        now: int,
    ) -> bool {
        let ids = Self::pair_ids(pairs);
        &&& distinct_idxs(ids)
        &&& forall|k: int|
            0 <= k < pairs.len() ==> self.account_indices(account).contains(#[trigger] ids[k])
        &&& forall|k: int|
            0 <= k < pairs.len() ==> Self::delta_of(self.lockups@, #[trigger] ids[k], now) >= 0
        &&& forall|k: int|
            0 <= k < pairs.len() ==> Self::delta_of(self.lockups@, (#[trigger] pairs[k]).0, now)
                == pairs[k].1
        &&& Self::deltas_sum(self.lockups@, ids, now) <= u128::MAX as int
    }

    /// What a successful claim does to the state, claiming the listed
    /// lockups of `account` in full.
    pub open spec fn claim_rel(
        pre: Contract,
        account: Seq<char>,
        ids: Seq<LockupIndex>,
        post: Contract,
        claims: Seq<LockupClaim>,
        total: Balance,
        now: int,
    ) -> bool {
        &&& claims.len() == ids.len()
        &&& forall|k: int|
            0 <= k < ids.len() ==> {
                let c = #[trigger] claims[k];
                &&& c.index == ids[k]
                &&& c.unclaimed_balance as int == Self::delta_of(pre.lockups@, ids[k], now)
                &&& c.is_final == Self::final_at(pre.lockups@, ids[k], now)
            }
        &&& total as int == Self::deltas_sum(pre.lockups@, ids, now)
        &&& post.lockups@.len() == pre.lockups@.len()
        &&& forall|k: int|
            0 <= k < ids.len() ==> {
                let li = (#[trigger] ids[k]) as int;
                &&& post.lockups@[li].account_id == pre.lockups@[li].account_id
                &&& post.lockups@[li].schedule == pre.lockups@[li].schedule
                &&& post.lockups@[li].termination_config == pre.lockups@[li].termination_config
                &&& post.lockups@[li].claimed_balance as int == unlocked_at(
                    pre.lockups@[li].schedule@,
                    now,
                )
            }
        &&& forall|i: int|
            0 <= i < pre.lockups@.len() && !ids.contains(i as LockupIndex)
                ==> post.lockups@[i] == pre.lockups@[i]
        &&& forall|x: Seq<char>| post.has_account(x) <==> pre.has_account(x)
        &&& post.account_indices(account) == Self::kept_indices(
            pre.lockups@,
            pre.account_indices(account),
            ids,
            now,
        )
        &&& forall|x: Seq<char>|
            x != account ==> post.account_indices(x) == pre.account_indices(x)
        &&& post.token_account_id == pre.token_account_id
        &&& post.deposit_whitelist@ == pre.deposit_whitelist@
        &&& post.next_draft_id == pre.next_draft_id
        &&& post.drafts@ == pre.drafts@
        &&& post.draft_groups@ == pre.draft_groups@
        &&& post.wf()
    }

    /// Extending a claim list by one request adds that lockup's delta.
    proof fn lemma_deltas_sum_take_step(lockups: Seq<Lockup>, idxs: Seq<LockupIndex>, k: int, now: int)
        requires
            0 <= k < idxs.len(),
        ensures
            Self::deltas_sum(lockups, idxs.take(k + 1), now) == Self::deltas_sum(
                lockups,
                idxs.take(k),
                now,
            ) + Self::delta_of(lockups, idxs[k], now),
        decreases k,
    {
        if k == 0 {
            assert(idxs.take(0) =~= Seq::<LockupIndex>::empty());
            assert(idxs.take(1)[0] == idxs[0]);
            assert(idxs.take(1).drop_first() =~= Seq::<LockupIndex>::empty());
        } else {
            assert(idxs.take(k + 1)[0] == idxs[0]);
            assert(idxs.take(k)[0] == idxs[0]);
            assert(idxs.take(k + 1).drop_first() =~= idxs.drop_first().take(k));
            assert(idxs.take(k).drop_first() =~= idxs.drop_first().take(k - 1));
            Self::lemma_deltas_sum_take_step(lockups, idxs.drop_first(), k - 1, now);
            assert(idxs.drop_first()[k - 1] == idxs[k]);
        }
    }

    /// With every delta nonnegative, prefix payout sums never shrink.
    proof fn lemma_deltas_sum_mono(lockups: Seq<Lockup>, idxs: Seq<LockupIndex>, k: int, now: int)
        requires
            0 <= k <= idxs.len(),
            forall|j: int| 0 <= j < idxs.len() ==> Self::delta_of(lockups, #[trigger] idxs[j], now)
                >= 0,
        ensures
            Self::deltas_sum(lockups, idxs.take(k), now) >= 0,
            Self::deltas_sum(lockups, idxs.take(k), now) <= Self::deltas_sum(lockups, idxs, now),
        decreases idxs.len(),
    {
        if idxs.len() == 0 {
            assert(idxs.take(k) =~= idxs);
        } else if k == 0 {
            assert(idxs.take(0) =~= Seq::<LockupIndex>::empty());
            assert(forall|j: int|
                0 <= j < idxs.drop_first().len() ==> (#[trigger] idxs.drop_first()[j])
                    == idxs[j + 1]);
            Self::lemma_deltas_sum_mono(lockups, idxs.drop_first(), idxs.len() - 1, now);
            assert(idxs.drop_first().take(idxs.len() - 1) =~= idxs.drop_first());
        } else {
            assert(idxs.take(k)[0] == idxs[0]);
            assert(idxs.take(k).drop_first() =~= idxs.drop_first().take(k - 1));
            assert(forall|j: int|
                0 <= j < idxs.drop_first().len() ==> (#[trigger] idxs.drop_first()[j])
                    == idxs[j + 1]);
            Self::lemma_deltas_sum_mono(lockups, idxs.drop_first(), k - 1, now);
        }
    }

    /// Scanning one more entry index keeps it unless it was claimed and
    /// is now fully unlocked.
    proof fn lemma_kept_take_step(
        lockups: Seq<Lockup>,
        entry: Seq<LockupIndex>,
        claimed_ids: Seq<LockupIndex>,
        k: int,
        now: int,
    )
        requires
            0 <= k < entry.len(),
        ensures
            Self::kept_indices(lockups, entry.take(k + 1), claimed_ids, now)
                == Self::kept_indices(lockups, entry.take(k), claimed_ids, now) + (if (
            claimed_ids.contains(entry[k]) && Self::final_at(lockups, entry[k], now)) {
                Seq::<LockupIndex>::empty()
            } else {
                seq![entry[k]]
            }),
        decreases k,
    {
        if k == 0 {
            assert(entry.take(0) =~= Seq::<LockupIndex>::empty());
            assert(entry.take(1)[0] == entry[0]);
            assert(entry.take(1).drop_first() =~= Seq::<LockupIndex>::empty());
            assert(Self::kept_indices(lockups, entry.take(1).drop_first(), claimed_ids, now)
                == Seq::<LockupIndex>::empty());
            assert(Self::kept_indices(lockups, entry.take(0), claimed_ids, now) == Seq::<
                LockupIndex,
            >::empty());
            if claimed_ids.contains(entry[0]) && Self::final_at(lockups, entry[0], now) {
                assert(Self::kept_indices(lockups, entry.take(1), claimed_ids, now) =~= Seq::<
                    LockupIndex,
                >::empty() + Seq::<LockupIndex>::empty());
            } else {
                assert(Self::kept_indices(lockups, entry.take(1), claimed_ids, now) =~= Seq::<
                    LockupIndex,
                >::empty() + seq![entry[0]]);
            }
        } else {
            assert(entry.take(k + 1)[0] == entry[0]);
            assert(entry.take(k)[0] == entry[0]);
            assert(entry.take(k + 1).drop_first() =~= entry.drop_first().take(k));
            assert(entry.take(k).drop_first() =~= entry.drop_first().take(k - 1));
            Self::lemma_kept_take_step(lockups, entry.drop_first(), claimed_ids, k - 1, now);
            assert(entry.drop_first()[k - 1] == entry[k]);
            assert(Self::kept_indices(lockups, entry.take(k + 1), claimed_ids, now)
                =~= Self::kept_indices(lockups, entry.take(k), claimed_ids, now) + (if (
            claimed_ids.contains(entry[k]) && Self::final_at(lockups, entry[k], now)) {
                Seq::<LockupIndex>::empty()
            } else {
                seq![entry[k]]
            }));
        }
    }

    /// What stays in an entry is a duplicate-free selection of it.
    proof fn lemma_kept_subset(
        lockups: Seq<Lockup>,
        entry: Seq<LockupIndex>,
        claimed_ids: Seq<LockupIndex>,
        now: int,
    )
        requires
            distinct_idxs(entry),
        ensures
            forall|w: u32|
                #![trigger Self::kept_indices(lockups, entry, claimed_ids, now).contains(w)]
                Self::kept_indices(lockups, entry, claimed_ids, now).contains(w) ==> entry.contains(
                    w,
                ),
            distinct_idxs(Self::kept_indices(lockups, entry, claimed_ids, now)),
        decreases entry.len(),
    {
        let kept = Self::kept_indices(lockups, entry, claimed_ids, now);
        if entry.len() > 0 {
            let tail = entry.drop_first();
            assert(forall|j: int|
                0 <= j < tail.len() ==> (#[trigger] tail[j]) == entry[j + 1]);
            Self::lemma_kept_subset(lockups, tail, claimed_ids, now);
            let rest = Self::kept_indices(lockups, tail, claimed_ids, now);
            assert forall|w: u32| #![trigger kept.contains(w)] kept.contains(w) implies entry.contains(w) by {
                let m = choose|m: int| 0 <= m < kept.len() && kept[m] == w;
                if claimed_ids.contains(entry[0]) && Self::final_at(lockups, entry[0], now) {
                    assert(rest.contains(w));
                    let j = choose|j: int| 0 <= j < tail.len() && tail[j] == w;
                    assert(entry[j + 1] == w);
                } else {
                    if m == 0 {
                        assert(entry[0] == w);
                    } else {
                        assert(rest[m - 1] == w);
                        assert(rest.contains(w));
                        let j = choose|j: int| 0 <= j < tail.len() && tail[j] == w;
                        assert(entry[j + 1] == w);
                    }
                }
            }
            assert forall|k1: int, k2: int| 0 <= k1 < k2 < kept.len() implies (#[trigger] kept[k1])
                != (#[trigger] kept[k2]) by {
                if claimed_ids.contains(entry[0]) && Self::final_at(lockups, entry[0], now) {
                } else {
                    if k1 == 0 {
                        assert(kept[k2] == rest[k2 - 1]);
                        assert(rest.contains(rest[k2 - 1]));
                        if kept[k2] == entry[0] {
                            assert(tail.contains(entry[0]));
                            let j = choose|j: int| 0 <= j < tail.len() && tail[j] == entry[0];
                            assert(entry[j + 1] == entry[0]);
                        }
                    } else {
                        assert(kept[k1] == rest[k1 - 1]);
                        assert(kept[k2] == rest[k2 - 1]);
                    }
                }
            }
        }
    }

    /// Claims the listed lockups of `account_id` in full, each against
    /// its expected amount: every key must be a distinct lockup of the
    /// account, every requested amount must equal that lockup's unclaimed
    /// balance, and the payout total must fit. On success each listed
    /// lockup's claimed balance advances to its unlocked balance, fully
    /// claimed lockups leave the account's entry, and the claims and the
    /// payout total are returned for the transfer step. A rejected call
    /// changes nothing.
    pub fn claim_lockups(
        &mut self,
        account_id: &AccountId,
        amounts: Vec<(LockupIndex, Balance)>,
        now: TimestampSec,
    ) -> (r: Result<(Vec<LockupClaim>, Balance), Error>)
        requires
            old(self).wf(),
        ensures
            r is Err ==> *final(self) == *old(self) && (r->Err_0 == Error::LockupNotFound
                || r->Err_0 == Error::Invariant || r->Err_0 == Error::ClaimAmountMismatch),
            r is Ok <==> old(self).claim_pairs_ok(account_id@, amounts@, now as int),
            r matches Ok(out) ==> Contract::claim_rel(
                *old(self),
                account_id@,
                Contract::pair_ids(amounts@),
                *final(self),
                out.0@,
                out.1,
                now as int,
            ),
    {
        let ghost ids = Contract::pair_ids(amounts@);
        let ghost nowi = now as int;
        let entry_pos = self.find_account(account_id);
        proof {
            match entry_pos {
                Some(p) => {
                    lemma_entries_pos(old(self).account_lockups@, p as int);
                },
                None => {},
            }
        }
        let n = amounts.len();
        proof {
            assert forall|k: int| 0 <= k < n implies #[trigger] ids[k] == amounts@[k].0 by {}
        }
        let mut claims: Vec<LockupClaim> = Vec::new();
        let mut total: Balance = 0;
        let mut k: usize = 0;
        while k < n
            invariant
                0 <= k <= n,
                n == amounts@.len(),
                ids == Contract::pair_ids(amounts@),
                forall|j: int| 0 <= j < n ==> #[trigger] ids[j] == amounts@[j].0,
                nowi == now as int,
                *self == *old(self),
                old(self).wf(),
                match entry_pos {
                    Some(p) => (p as int) < old(self).account_lockups@.len() && old(
                        self,
                    ).account_indices(account_id@) == old(self).account_lockups@[p as int].indices@,
                    None => !old(self).has_account(account_id@),
                },
                claims@.len() == k,
                forall|j: int|
                    0 <= j < k ==> {
                        let c = #[trigger] claims@[j];
                        &&& c.index == ids[j]
                        &&& c.unclaimed_balance as int == Contract::delta_of(
                            old(self).lockups@,
                            ids[j],
                            nowi,
                        )
                        &&& c.is_final == Contract::final_at(old(self).lockups@, ids[j], nowi)
                    },
                total as int == Contract::deltas_sum(old(self).lockups@, ids.take(k as int), nowi),
                forall|j: int|
                    0 <= j < k ==> old(self).account_indices(account_id@).contains(
                        #[trigger] ids[j],
                    ),
                forall|j: int|
                    0 <= j < k ==> Contract::delta_of(old(self).lockups@, #[trigger] ids[j], nowi)
                        >= 0,
                forall|j: int|
                    0 <= j < k ==> Contract::delta_of(
                        old(self).lockups@,
                        (#[trigger] amounts@[j]).0,
                        nowi,
                    ) == amounts@[j].1,
                forall|j1: int, j2: int|
                    0 <= j1 < j2 < k ==> (#[trigger] ids[j1]) != (#[trigger] ids[j2]),
            decreases n - k,
        {
            let (idx, amount) = amounts[k];
            let in_entry: bool = match entry_pos {
                Some(p) => contains_index(&self.account_lockups[p].indices, idx),
                None => false,
            };
            if !in_entry {
                proof {
                    assert(ids[k as int] == idx);
                    match entry_pos {
                        Some(_) => {},
                        None => {
                            assert(old(self).account_indices(account_id@) =~= Seq::<
                                LockupIndex,
                            >::empty());
                        },
                    }
                    assert(!old(self).account_indices(account_id@).contains(idx)) by {
                        if old(self).account_indices(account_id@).contains(idx) {
                            let q = choose|q: int|
                                0 <= q < old(self).account_indices(account_id@).len() && old(
                                    self,
                                ).account_indices(account_id@)[q] == idx;
                        }
                    }
                    if old(self).claim_pairs_ok(account_id@, amounts@, nowi) {
                        assert(old(self).account_indices(account_id@).contains(ids[k as int]));
                    }
                }
                return Err(Error::LockupNotFound);
            }
            let mut j: usize = 0;
            while j < k
                invariant
                    0 <= j <= k < n,
                    n == amounts@.len(),
                    forall|m: int| 0 <= m < n ==> #[trigger] ids[m] == amounts@[m].0,
                    ids == Contract::pair_ids(amounts@),
                    idx == amounts@[k as int].0,
                    forall|m: int| 0 <= m < j ==> (#[trigger] ids[m]) != ids[k as int],
                    *self == *old(self),
                    old(self).wf(),
                decreases k - j,
            {
                if amounts[j].0 == idx {
                    proof {
                        assert(ids[j as int] == ids[k as int]);
                        assert(!distinct_idxs(ids)) by {
                            if distinct_idxs(ids) {
                                assert(ids[j as int] != ids[k as int]);
                            }
                        }
                    }
                    return Err(Error::Invariant);
                }
                j += 1;
            }
            proof {
                assert(old(self).account_indices(account_id@).contains(idx));
                let pos = choose|pos: int|
                    0 <= pos < old(self).account_indices(account_id@).len() && old(
                        self,
                    ).account_indices(account_id@)[pos] == idx;
                assert(old(self).accounts_wf());
                assert((idx as int) < old(self).lockups@.len());
                assert(old(self).lockups@[idx as int].wf());
            }
            let l = &self.lockups[idx as usize];
            let u = l.schedule.unlocked_balance(now);
            if u < l.claimed_balance {
                return Err(Error::Invariant);
            }
            let delta = u - l.claimed_balance;
            if delta != amount {
                return Err(Error::ClaimAmountMismatch);
            }
            let is_final = u == l.schedule.total_balance();
            proof {
                Contract::lemma_deltas_sum_take_step(old(self).lockups@, ids, k as int, nowi);
            }
            total = match total.checked_add(delta) {
                Some(t) => t,
                None => {
                    proof {
                        if old(self).claim_pairs_ok(account_id@, amounts@, nowi) {
                            Contract::lemma_deltas_sum_mono(
                                old(self).lockups@,
                                ids,
                                k as int + 1,
                                nowi,
                            );
                        }
                    }
                    return Err(Error::Invariant);
                },
            };
            claims.push(LockupClaim { index: idx, unclaimed_balance: delta, is_final });
            k += 1;
        }
        proof {
            assert(ids.take(n as int) =~= ids);
        }
        let mut k: usize = 0;
        while k < n
            invariant
                0 <= k <= n,
                n == amounts@.len(),
                ids == Contract::pair_ids(amounts@),
                forall|j: int| 0 <= j < n ==> #[trigger] ids[j] == amounts@[j].0,
                nowi == now as int,
                old(self).wf(),
                old(self).claim_pairs_ok(account_id@, amounts@, nowi),
                self.wf(),
                self.lockups@.len() == old(self).lockups@.len(),
                self.account_lockups@ == old(self).account_lockups@,
                self.deposit_whitelist@ == old(self).deposit_whitelist@,
                self.token_account_id == old(self).token_account_id,
                self.next_draft_id == old(self).next_draft_id,
                self.drafts@ == old(self).drafts@,
                self.draft_groups@ == old(self).draft_groups@,
                forall|j1: int, j2: int|
                    0 <= j1 < j2 < n ==> (#[trigger] ids[j1]) != (#[trigger] ids[j2]),
                forall|j: int|
                    0 <= j < n ==> (#[trigger] ids[j] as int) < old(self).lockups@.len(),
                forall|j: int|
                    k <= j < n ==> self.lockups@[(#[trigger] ids[j]) as int] == old(
                        self,
                    ).lockups@[ids[j] as int],
                forall|j: int|
                    0 <= j < k ==> {
                        let li = (#[trigger] ids[j]) as int;
                        &&& self.lockups@[li].account_id == old(self).lockups@[li].account_id
                        &&& self.lockups@[li].schedule == old(self).lockups@[li].schedule
                        &&& self.lockups@[li].termination_config == old(
                            self,
                        ).lockups@[li].termination_config
                        &&& self.lockups@[li].claimed_balance as int == unlocked_at(
                            old(self).lockups@[li].schedule@,
                            nowi,
                        )
                    },
                forall|i: int|
                    0 <= i < old(self).lockups@.len() && !ids.contains(i as LockupIndex)
                        ==> self.lockups@[i] == old(self).lockups@[i],
            decreases n - k,
        {
            let idx = amounts[k].0;
            proof {
                assert(ids[k as int] == idx);
                assert(ids.contains(idx));
                assert(self.lockups@[idx as int] == old(self).lockups@[idx as int]);
                assert(Contract::delta_of(old(self).lockups@, idx, nowi) >= 0);
            }
            let ghost pre_lockups = self.lockups@;
            let ghost pre_self = *self;
            let l = vstd::std_specs::vec::vec_index_mut(&mut self.lockups, idx as usize);
            l.claim(idx, now);
            proof {
                assert(self.lockups@ =~= pre_lockups.update(
                    idx as int,
                    self.lockups@[idx as int],
                ));
                assert forall|i2: int| 0 <= i2 < self.lockups@.len() implies (
                #[trigger] self.lockups@[i2]).wf() by {
                    if i2 != idx as int {
                        assert(self.lockups@[i2] == pre_lockups[i2]);
                        assert(pre_self.lockups@[i2].wf());
                    }
                }
                assert forall|li: int| 0 <= li < self.lockups@.len() implies (
                #[trigger] self.lockups@[li]).account_id == pre_lockups[li].account_id by {}
                assert(self.accounts_wf()) by {
                    assert(pre_self.accounts_wf());
                    assert forall|a: int, m: int|
                        0 <= a < self.account_lockups@.len() && 0 <= m
                            < self.account_lockups@[a].indices@.len() implies {
                        let li = (#[trigger] self.account_lockups@[a].indices@[m]) as int;
                        &&& li < self.lockups@.len()
                        &&& self.lockups@[li].account_id@ == self.account_lockups@[a].account_id@
                    } by {
                        let li = self.account_lockups@[a].indices@[m] as int;
                        assert(pre_self.lockups@[li].account_id@
                            == self.account_lockups@[a].account_id@);
                    }
                }
                lemma_draft_side_unchanged(pre_self, *self);
            }
            k += 1;
        }
        match entry_pos {
            None => {
                proof {
                    assert(old(self).account_indices(account_id@) =~= Seq::<LockupIndex>::empty());
                    assert(Contract::kept_indices(
                        old(self).lockups@,
                        old(self).account_indices(account_id@),
                        ids,
                        nowi,
                    ) =~= Seq::<LockupIndex>::empty());
                }
                Ok((claims, total))
            },
            Some(p) => {
                let ghost entry = old(self).account_lockups@[p as int].indices@;
                let elen = self.account_lockups[p].indices.len();
                let mut new_indices: Vec<LockupIndex> = Vec::new();
                let mut m: usize = 0;
                while m < elen
                    invariant
                        0 <= m <= elen,
                        (p as int) < self.account_lockups@.len(),
                        elen == entry.len(),
                        n == amounts@.len(),
                        ids == Contract::pair_ids(amounts@),
                        self.account_lockups@ == old(self).account_lockups@,
                        entry == old(self).account_lockups@[p as int].indices@,
                        nowi == now as int,
                        old(self).wf(),
                        self.wf(),
                        self.lockups@.len() == old(self).lockups@.len(),
                        forall|j: int|
                            0 <= j < entry.len() ==> ((#[trigger] entry[j]) as int) < old(
                                self,
                            ).lockups@.len() && self.lockups@[entry[j] as int].schedule == old(
                                self,
                            ).lockups@[entry[j] as int].schedule,
                        new_indices@ == Contract::kept_indices(
                            old(self).lockups@,
                            entry.take(m as int),
                            ids,
                            nowi,
                        ),
                    decreases elen - m,
                {
                    let e_idx = self.account_lockups[p].indices[m];
                    let claimed_now = contains_pair_key(&amounts, e_idx);
                    let mut keep = true;
                    if claimed_now {
                        let l = &self.lockups[e_idx as usize];
                        if l.schedule.unlocked_balance(now) == l.schedule.total_balance() {
                            keep = false;
                        }
                    }
                    proof {
                        Contract::lemma_kept_take_step(
                            old(self).lockups@,
                            entry,
                            ids,
                            m as int,
                            nowi,
                        );
                        assert(claimed_now == ids.contains(e_idx));
                        assert(keep == !(ids.contains(e_idx) && Contract::final_at(
                            old(self).lockups@,
                            e_idx,
                            nowi,
                        )));
                    }
                    if keep {
                        new_indices.push(e_idx);
                        proof {
                            assert(new_indices@ =~= Contract::kept_indices(
                                old(self).lockups@,
                                entry.take(m as int),
                                ids,
                                nowi,
                            ) + seq![e_idx]);
                        }
                    }
                    m += 1;
                }
                proof {
                    assert(entry.take(elen as int) =~= entry);
                }
                let ghost pre_entries = self.account_lockups@;
                let e = vstd::std_specs::vec::vec_index_mut(&mut self.account_lockups, p);
                e.indices = new_indices;
                proof {
                    let e2 = self.account_lockups@[p as int];
                    assert(self.account_lockups@ == pre_entries.update(p as int, e2));
                    assert(e2.account_id@ == account_id@);
                    lemma_entries_update(pre_entries, p as int, e2);
                    lemma_entries_pos(self.account_lockups@, p as int);
                    Contract::lemma_kept_subset(old(self).lockups@, entry, ids, nowi);
                    assert forall|a: int, m2: int|
                        0 <= a < self.account_lockups@.len() && 0 <= m2
                            < self.account_lockups@[a].indices@.len() implies {
                        let li = (#[trigger] self.account_lockups@[a].indices@[m2]) as int;
                        &&& li < self.lockups@.len()
                        &&& self.lockups@[li].account_id@ == self.account_lockups@[a].account_id@
                    } by {
                        if a == p as int {
                            let w = self.account_lockups@[a].indices@[m2];
                            assert(e2.indices@.contains(w));
                            assert(entry.contains(w));
                            let j = choose|j: int| 0 <= j < entry.len() && entry[j] == w;
                            assert(pre_entries[a].indices@[j] == w);
                        } else {
                            assert(self.account_lockups@[a] == pre_entries[a]);
                        }
                    }
                    assert forall|a: int| 0 <= a < self.account_lockups@.len() implies distinct_idxs(
                        (#[trigger] self.account_lockups@[a]).indices@,
                    ) by {
                        if a != p as int {
                            assert(self.account_lockups@[a] == pre_entries[a]);
                        }
                    }
                    lemma_draft_side_unchanged(*old(self), *self);
                    assert forall|i2: int| 0 <= i2 < self.lockups@.len() implies (
                    #[trigger] self.lockups@[i2]).wf() by {}
                }
                Ok((claims, total))
            },
        }
    }

    /// Claims everything `account_id` has unlocked by `now`, across all
    /// its listed lockups: each advances its claimed balance to its
    /// unlocked balance, fully claimed lockups leave the account's entry,
    /// and the claims and payout total are returned for the transfer
    /// step. Claiming with nothing newly unlocked succeeds with a zero
    /// total. A rejected call changes nothing.
    pub fn claim(&mut self, account_id: &AccountId, now: TimestampSec) -> (r: Result<
        (Vec<LockupClaim>, Balance),
        Error,
    >)
        requires
            old(self).wf(),
        ensures
            r is Err ==> *final(self) == *old(self) && r->Err_0 == Error::Invariant,
            r is Ok <==> ({
                let idxs = old(self).account_indices(account_id@);
                &&& forall|j: int|
                    0 <= j < idxs.len() ==> Contract::delta_of(
                        old(self).lockups@,
                        #[trigger] idxs[j],
                        now as int,
                    ) >= 0
                &&& Contract::deltas_sum(old(self).lockups@, idxs, now as int) <= u128::MAX as int
            }),
            r matches Ok(out) ==> Contract::claim_rel(
                *old(self),
                account_id@,
                old(self).account_indices(account_id@),
                *final(self),
                out.0@,
                out.1,
                now as int,
            ),
    {
        let ghost nowi = now as int;
        let ghost entry = old(self).account_indices(account_id@);
        let entry_pos = self.find_account(account_id);
        proof {
            match entry_pos {
                Some(p) => {
                    lemma_entries_pos(old(self).account_lockups@, p as int);
                },
                None => {
                    assert(entry =~= Seq::<LockupIndex>::empty());
                },
            }
        }
        let mut pairs: Vec<(LockupIndex, Balance)> = Vec::new();
        match entry_pos {
            None => {},
            Some(p) => {
                let elen = self.account_lockups[p].indices.len();
                let mut m: usize = 0;
                while m < elen
                    invariant
                        0 <= m <= elen,
                        (p as int) < old(self).account_lockups@.len(),
                        elen == entry.len(),
                        entry == old(self).account_lockups@[p as int].indices@,
                        entry == old(self).account_indices(account_id@),
                        nowi == now as int,
                        *self == *old(self),
                        old(self).wf(),
                        pairs@.len() == m,
                        forall|j: int|
                            0 <= j < m ==> (#[trigger] pairs@[j]).0 == entry[j] && pairs@[j].1 as int
                                == Contract::delta_of(old(self).lockups@, entry[j], nowi),
                        forall|j: int|
                            0 <= j < m ==> Contract::delta_of(
                                old(self).lockups@,
                                #[trigger] entry[j],
                                nowi,
                            ) >= 0,
                    decreases elen - m,
                {
                    let idx = self.account_lockups[p].indices[m];
                    proof {
                        assert(old(self).accounts_wf());
                        assert((idx as int) < old(self).lockups@.len());
                        assert(old(self).lockups@[idx as int].wf());
                    }
                    let l = &self.lockups[idx as usize];
                    let u = l.schedule.unlocked_balance(now);
                    if u < l.claimed_balance {
                        proof {
                            assert(Contract::delta_of(old(self).lockups@, entry[m as int], nowi)
                                < 0);
                            if forall|j: int|
                                0 <= j < entry.len() ==> Contract::delta_of(
                                    old(self).lockups@,
                                    #[trigger] entry[j],
                                    nowi,
                                ) >= 0 {
                                assert(Contract::delta_of(old(self).lockups@, entry[m as int], nowi)
                                    >= 0);
                            }
                        }
                        return Err(Error::Invariant);
                    }
                    pairs.push((idx, u - l.claimed_balance));
                    m += 1;
                }
            },
        }
        proof {
            assert(Contract::pair_ids(pairs@) =~= entry);
            assert forall|k: int|
                0 <= k < pairs@.len() implies old(self).account_indices(account_id@).contains(
                #[trigger] Contract::pair_ids(pairs@)[k],
            ) by {
                assert(entry[k] == Contract::pair_ids(pairs@)[k]);
            }
            assert(distinct_idxs(entry)) by {
                assert(old(self).accounts_wf());
                match entry_pos {
                    Some(p) => {},
                    None => {},
                }
            }
        }
        let r = self.claim_lockups(account_id, pairs, now);
        match r {
            Ok(out) => Ok(out),
            Err(_) => {
                proof {
                    assert(!old(self).claim_pairs_ok(account_id@, pairs@, nowi));
                }
                Err(Error::Invariant)
            },
        }
    }

    /// The two states hold the same stores, element for element.
    pub open spec fn same_state(c1: Contract, c2: Contract) -> bool {
        &&& c2.token_account_id == c1.token_account_id
        &&& c2.lockups@ == c1.lockups@
        &&& c2.account_lockups@ == c1.account_lockups@
        &&& c2.deposit_whitelist@ == c1.deposit_whitelist@
        &&& c2.next_draft_id == c1.next_draft_id
        &&& c2.drafts@ == c1.drafts@
        &&& c2.draft_groups@ == c1.draft_groups@
    }

    /// `entry` without every occurrence of the index `v`, order kept.
    pub open spec fn without_index(entry: Seq<LockupIndex>, v: LockupIndex) -> Seq<LockupIndex>
        decreases entry.len(),
    {
        if entry.len() == 0 {
            Seq::empty()
        } else {
            let rest = Self::without_index(entry.drop_first(), v);
            if entry[0] == v {
                rest
            } else {
                seq![entry[0]] + rest
            }
        }
    }

    /// Scanning one more index keeps it unless it is the removed one.
    proof fn lemma_without_take_step(entry: Seq<LockupIndex>, v: LockupIndex, k: int)
        requires
            0 <= k < entry.len(),
        ensures
            Self::without_index(entry.take(k + 1), v) == Self::without_index(entry.take(k), v) + (
            if entry[k] == v {
                Seq::<LockupIndex>::empty()
            } else {
                seq![entry[k]]
            }),
        decreases k,
    {
        if k == 0 {
            assert(entry.take(0) =~= Seq::<LockupIndex>::empty());
            assert(entry.take(1)[0] == entry[0]);
            assert(entry.take(1).drop_first() =~= Seq::<LockupIndex>::empty());
            assert(Self::without_index(Seq::<LockupIndex>::empty(), v) == Seq::<
                LockupIndex,
            >::empty());
            assert(Self::without_index(entry.take(1).drop_first(), v) == Seq::<
                LockupIndex,
            >::empty());
            assert(Self::without_index(entry.take(0), v) == Seq::<LockupIndex>::empty());
            if entry[0] == v {
                assert(Self::without_index(entry.take(1), v) =~= Seq::<LockupIndex>::empty()
                    + Seq::<LockupIndex>::empty());
            } else {
                assert(Self::without_index(entry.take(1), v) =~= Seq::<LockupIndex>::empty()
                    + seq![entry[0]]);
            }
        } else {
            assert(entry.take(k + 1)[0] == entry[0]);
            assert(entry.take(k)[0] == entry[0]);
            assert(entry.take(k + 1).drop_first() =~= entry.drop_first().take(k));
            assert(entry.take(k).drop_first() =~= entry.drop_first().take(k - 1));
            Self::lemma_without_take_step(entry.drop_first(), v, k - 1);
            assert(entry.drop_first()[k - 1] == entry[k]);
            assert(Self::without_index(entry.take(k + 1), v) =~= Self::without_index(
                entry.take(k),
                v,
            ) + (if entry[k] == v {
                Seq::<LockupIndex>::empty()
            } else {
                seq![entry[k]]
            }));
        }
    }

    /// What stays is a duplicate-free selection of the entry.
    proof fn lemma_without_subset(entry: Seq<LockupIndex>, v: LockupIndex)
        requires
            distinct_idxs(entry),
        ensures
            forall|w: u32|
                #![trigger Self::without_index(entry, v).contains(w)]
                Self::without_index(entry, v).contains(w) ==> entry.contains(w),
            distinct_idxs(Self::without_index(entry, v)),
        decreases entry.len(),
    {
        let out = Self::without_index(entry, v);
        if entry.len() > 0 {
            let tail = entry.drop_first();
            assert(forall|j: int| 0 <= j < tail.len() ==> (#[trigger] tail[j]) == entry[j + 1]);
            Self::lemma_without_subset(tail, v);
            let rest = Self::without_index(tail, v);
            assert forall|w: u32| #![trigger out.contains(w)] out.contains(w) implies entry.contains(
                w,
            ) by {
                let m = choose|m: int| 0 <= m < out.len() && out[m] == w;
                if entry[0] == v {
                    assert(rest.contains(w));
                    let j = choose|j: int| 0 <= j < tail.len() && tail[j] == w;
                    assert(entry[j + 1] == w);
                } else {
                    if m == 0 {
                        assert(entry[0] == w);
                    } else {
                        assert(rest[m - 1] == w);
                        assert(rest.contains(w));
                        let j = choose|j: int| 0 <= j < tail.len() && tail[j] == w;
                        assert(entry[j + 1] == w);
                    }
                }
            }
            assert forall|k1: int, k2: int| 0 <= k1 < k2 < out.len() implies (#[trigger] out[k1])
                != (#[trigger] out[k2]) by {
                if entry[0] == v {
                } else {
                    if k1 == 0 {
                        assert(out[k2] == rest[k2 - 1]);
                        assert(rest.contains(rest[k2 - 1]));
                        if out[k2] == entry[0] {
                            assert(tail.contains(entry[0]));
                            let j = choose|j: int| 0 <= j < tail.len() && tail[j] == entry[0];
                            assert(entry[j + 1] == entry[0]);
                        }
                    } else {
                        assert(out[k1] == rest[k1 - 1]);
                        assert(out[k2] == rest[k2 - 1]);
                    }
                }
            }
        }
    }

    /// Claws back the unvested remainder of the lockup at `lockup_index`
    /// at the requested cutoff (defaulting to `now`, and never before
    /// it). The authority, commit-reveal and truncation rules are the
    /// lockup's own; on success the recovered amount and the payer are
    /// returned for the transfer step, and a lockup emptied to a zero
    /// total leaves its account's entry. A rejected call changes nothing.
    pub fn terminate(
        &mut self,
        caller: &AccountId,
        lockup_index: LockupIndex,
        hashed_schedule: Option<Schedule>,
        termination_timestamp: Option<TimestampSec>,
        now: TimestampSec,
    ) -> (r: Result<(Balance, AccountId), Error>)
        requires
            old(self).wf(),
        ensures
            r is Err ==> Contract::same_state(*old(self), *final(self)),
            (lockup_index as int) >= old(self).lockups@.len() ==> r == Err::<
                (Balance, AccountId),
                Error,
            >(Error::LockupNotFound),
            ({
                &&& (lockup_index as int) < old(self).lockups@.len()
                &&& (termination_timestamp matches Some(t) && t < now)
            }) ==> r == Err::<(Balance, AccountId), Error>(Error::TerminationTimestampInPast),
            ({
                &&& (lockup_index as int) < old(self).lockups@.len()
                &&& (match termination_timestamp {
                    Some(t) => t,
                    None => now,
                }) >= now
                &&& old(self).lockups@[lockup_index as int].termination_config is None
            }) ==> r == Err::<(Balance, AccountId), Error>(Error::NoTerminationConfig),
            ({
                &&& (lockup_index as int) < old(self).lockups@.len()
                &&& (match termination_timestamp {
                    Some(t) => t,
                    None => now,
                }) >= now
                &&& old(self).lockups@[lockup_index as int].termination_config is Some
                &&& !old(self).lockups@[lockup_index as int].authorized(caller@)
            }) ==> r == Err::<(Balance, AccountId), Error>(Error::Unauthorized),
            ({
                &&& (lockup_index as int) < old(self).lockups@.len()
                &&& (match termination_timestamp {
                    Some(t) => t,
                    None => now,
                }) >= now
                &&& old(self).lockups@[lockup_index as int].authorized(caller@)
                &&& old(self).lockups@[lockup_index as int].committed_hash() is Some
                &&& hashed_schedule is None
            }) ==> r == Err::<(Balance, AccountId), Error>(Error::HashMismatch),
            ({
                &&& (lockup_index as int) < old(self).lockups@.len()
                &&& (match termination_timestamp {
                    Some(t) => t,
                    None => now,
                }) >= now
                &&& old(self).lockups@[lockup_index as int].authorized(caller@)
                &&& old(self).lockups@[lockup_index as int].committed_hash() matches Some(h)
                &&& hashed_schedule matches Some(rs) && crate::termination::sha256_of(
                    crate::termination::schedule_bytes(rs@),
                ) != h
            }) ==> r == Err::<(Balance, AccountId), Error>(Error::HashMismatch),
            ({
                &&& (lockup_index as int) < old(self).lockups@.len()
                &&& (match termination_timestamp {
                    Some(t) => t,
                    None => now,
                }) >= now
                &&& old(self).lockups@[lockup_index as int].authorized(caller@)
                &&& old(self).lockups@[lockup_index as int].committed_hash() matches Some(h)
                &&& hashed_schedule matches Some(rs) && crate::termination::sha256_of(
                    crate::termination::schedule_bytes(rs@),
                ) == h && !crate::schedule::schedule_valid(
                    rs@,
                    old(self).lockups@[lockup_index as int].schedule@.last().balance as int,
                )
            }) ==> r == Err::<(Balance, AccountId), Error>(Error::InvalidSchedule),
            ({
                &&& (lockup_index as int) < old(self).lockups@.len()
                &&& (match termination_timestamp {
                    Some(t) => t,
                    None => now,
                }) >= now
                &&& old(self).lockups@[lockup_index as int].authorized(caller@)
                &&& old(self).lockups@[lockup_index as int].committed_hash() matches Some(h)
                &&& hashed_schedule matches Some(rs) && crate::termination::sha256_of(
                    crate::termination::schedule_bytes(rs@),
                ) == h && crate::schedule::schedule_valid(
                    rs@,
                    old(self).lockups@[lockup_index as int].schedule@.last().balance as int,
                ) && !crate::schedule::valid_termination_schedule(
                    old(self).lockups@[lockup_index as int].schedule@,
                    rs@,
                )
            }) ==> r == Err::<(Balance, AccountId), Error>(Error::IncompatibleVestingSchedule),
            ({
                let li = lockup_index as int;
                let tt = match termination_timestamp {
                    Some(t) => t,
                    None => now,
                };
                &&& li < old(self).lockups@.len()
                &&& tt >= now
                &&& old(self).lockups@[li].authorized(caller@)
                &&& old(self).lockups@[li].hash_reveal_ok(hashed_schedule)
                &&& old(self).lockups@[li].termination_fin(hashed_schedule, tt as int) < old(
                    self,
                ).lockups@[li].schedule@[0].balance
            }) ==> r == Err::<(Balance, AccountId), Error>(Error::Invariant),
            r is Ok <==> ({
                let tt = match termination_timestamp {
                    Some(t) => t,
                    None => now,
                };
                &&& (lockup_index as int) < old(self).lockups@.len()
                &&& tt >= now
                &&& old(self).lockups@[lockup_index as int].terminate_ok(
                    caller@,
                    hashed_schedule,
                    tt as int,
                )
            }),
            r matches Ok(out) ==> ({
                let li = lockup_index as int;
                let l0 = old(self).lockups@[li];
                let tt = match termination_timestamp {
                    Some(t) => t,
                    None => now,
                };
                let fin = l0.termination_fin(hashed_schedule, tt as int);
                &&& out.0 as int == l0.schedule@.last().balance - fin
                &&& out.1@ == l0.termination_payer()
                &&& final(self).lockups@.len() == old(self).lockups@.len()
                &&& final(self).lockups@[li].schedule@ == crate::schedule::terminated(
                    l0.schedule@,
                    fin,
                )
                &&& final(self).lockups@[li].schedule@.last().balance as int == fin
                &&& final(self).lockups@[li].termination_config is None
                &&& final(self).lockups@[li].claimed_balance == l0.claimed_balance
                &&& final(self).lockups@[li].account_id == l0.account_id
                &&& forall|i: int|
                    0 <= i < old(self).lockups@.len() && i != li ==> final(self).lockups@[i] == old(
                        self,
                    ).lockups@[i]
                &&& (fin == 0 ==> final(self).account_indices(l0.account_id@)
                    == Contract::without_index(
                    old(self).account_indices(l0.account_id@),
                    lockup_index,
                ))
                &&& (fin != 0 ==> final(self).account_lockups@ == old(self).account_lockups@)
                &&& forall|x: Seq<char>|
                    x != l0.account_id@ ==> final(self).account_indices(x) == old(
                        self,
                    ).account_indices(x)
                &&& forall|x: Seq<char>| final(self).has_account(x) <==> old(self).has_account(x)
                &&& final(self).token_account_id == old(self).token_account_id
                &&& final(self).deposit_whitelist@ == old(self).deposit_whitelist@
                &&& final(self).next_draft_id == old(self).next_draft_id
                &&& final(self).drafts@ == old(self).drafts@
                &&& final(self).draft_groups@ == old(self).draft_groups@
                &&& final(self).wf()
            }),
    {
        if lockup_index as usize >= self.lockups.len() {
            return Err(Error::LockupNotFound);
        }
        let li = lockup_index as usize;
        let termination_ts: TimestampSec = match termination_timestamp {
            Some(t) => t,
            None => now,
        };
        if termination_ts < now {
            return Err(Error::TerminationTimestampInPast);
        }
        let ghost pre_lockups = self.lockups@;
        let l = vstd::std_specs::vec::vec_index_mut(&mut self.lockups, li);
        let res = l.terminate(caller, hashed_schedule, termination_ts);
        let (unvested, payer) = match res {
            Err(e) => {
                proof {
                    assert(self.lockups@ =~= pre_lockups);
                }
                return Err(e);
            },
            Ok(out) => out,
        };
        proof {
            assert(self.lockups@ =~= pre_lockups.update(li as int, self.lockups@[li as int]));
            assert forall|i2: int| 0 <= i2 < self.lockups@.len() implies (
            #[trigger] self.lockups@[i2]).wf() by {
                if i2 != li as int {
                    assert(self.lockups@[i2] == old(self).lockups@[i2]);
                    assert(old(self).lockups@[i2].wf());
                }
            }
            assert(self.accounts_wf()) by {
                assert(old(self).accounts_wf());
                assert forall|a: int, m: int|
                    0 <= a < self.account_lockups@.len() && 0 <= m
                        < self.account_lockups@[a].indices@.len() implies {
                    let lx = (#[trigger] self.account_lockups@[a].indices@[m]) as int;
                    &&& lx < self.lockups@.len()
                    &&& self.lockups@[lx].account_id@ == self.account_lockups@[a].account_id@
                } by {
                    let lx = self.account_lockups@[a].indices@[m] as int;
                    assert(old(self).lockups@[lx].account_id@
                        == self.account_lockups@[a].account_id@);
                }
            }
            lemma_draft_side_unchanged(*old(self), *self);
        }
        let total_left = self.lockups[li].schedule.total_balance();
        if total_left == 0 {
            let account_copy = self.lockups[li].account_id.clone();
            let ghost acct = old(self).lockups@[li as int].account_id@;
            let apos = self.find_account(&account_copy);
            match apos {
                None => {
                    proof {
                        assert(old(self).account_indices(acct) =~= Seq::<LockupIndex>::empty());
                        assert(Contract::without_index(
                            old(self).account_indices(acct),
                            lockup_index,
                        ) =~= Seq::<LockupIndex>::empty());
                    }
                },
                Some(p) => {
                    proof {
                        lemma_entries_pos(self.account_lockups@, p as int);
                        assert(old(self).account_indices(acct)
                            == self.account_lockups@[p as int].indices@);
                    }
                    let ghost entry = self.account_lockups@[p as int].indices@;
                    let elen = self.account_lockups[p].indices.len();
                    let mut new_indices: Vec<LockupIndex> = Vec::new();
                    let mut m: usize = 0;
                    while m < elen
                        invariant
                            0 <= m <= elen,
                            (p as int) < self.account_lockups@.len(),
                            elen == entry.len(),
                            entry == self.account_lockups@[p as int].indices@,
                            new_indices@ == Contract::without_index(
                                entry.take(m as int),
                                lockup_index,
                            ),
                        decreases elen - m,
                    {
                        let e_idx = self.account_lockups[p].indices[m];
                        proof {
                            Contract::lemma_without_take_step(entry, lockup_index, m as int);
                        }
                        if e_idx != lockup_index {
                            new_indices.push(e_idx);
                            proof {
                                assert(new_indices@ =~= Contract::without_index(
                                    entry.take(m as int),
                                    lockup_index,
                                ) + seq![e_idx]);
                            }
                        }
                        m += 1;
                    }
                    proof {
                        assert(entry.take(elen as int) =~= entry);
                    }
                    let ghost pre_entries = self.account_lockups@;
                    let e = vstd::std_specs::vec::vec_index_mut(&mut self.account_lockups, p);
                    e.indices = new_indices;
                    proof {
                        let e2 = self.account_lockups@[p as int];
                        assert(self.account_lockups@ == pre_entries.update(p as int, e2));
                        assert(e2.account_id@ == acct);
                        lemma_entries_update(pre_entries, p as int, e2);
                        lemma_entries_pos(self.account_lockups@, p as int);
                        Contract::lemma_without_subset(entry, lockup_index);
                        assert forall|a: int, m2: int|
                            0 <= a < self.account_lockups@.len() && 0 <= m2
                                < self.account_lockups@[a].indices@.len() implies {
                            let lx = (#[trigger] self.account_lockups@[a].indices@[m2]) as int;
                            &&& lx < self.lockups@.len()
                            &&& self.lockups@[lx].account_id@
                                == self.account_lockups@[a].account_id@
                        } by {
                            if a == p as int {
                                let w = self.account_lockups@[a].indices@[m2];
                                assert(e2.indices@.contains(w));
                                assert(entry.contains(w));
                                let j = choose|j: int| 0 <= j < entry.len() && entry[j] == w;
                                assert(pre_entries[a].indices@[j] == w);
                            } else {
                                assert(self.account_lockups@[a] == pre_entries[a]);
                            }
                        }
                        assert forall|a: int|
                            0 <= a < self.account_lockups@.len() implies distinct_idxs(
                            (#[trigger] self.account_lockups@[a]).indices@,
                        ) by {
                            if a != p as int {
                                assert(self.account_lockups@[a] == pre_entries[a]);
                            }
                        }
                        lemma_draft_side_unchanged(*old(self), *self);
                        assert forall|i2: int| 0 <= i2 < self.lockups@.len() implies (
                        #[trigger] self.lockups@[i2]).wf() by {}
                    }
                },
            }
        }
        Ok((unvested, payer))
    }

    /// The sum the transfer step pays out for a list of claims.
    pub open spec fn claims_sum(claims: Seq<LockupClaim>) -> int
        decreases claims.len(),
    {
        if claims.len() == 0 {
            0
        } else {
            claims[0].unclaimed_balance + Self::claims_sum(claims.drop_first())
        }
    }

    /// The keys of the claims that emptied their lockup.
    pub open spec fn final_ids(claims: Seq<LockupClaim>) -> Seq<LockupIndex>
        decreases claims.len(),
    {
        if claims.len() == 0 {
            Seq::empty()
        } else {
            let rest = Self::final_ids(claims.drop_first());
            if claims[0].is_final {
                seq![claims[0].index] + rest
            } else {
                rest
            }
        }
    }

    /// Whether a failed transfer's claims can be credited back: distinct
    /// keys of this account's lockups, each rolled-back amount covered by
    /// the claimed balance, and each emptied lockup's key absent from the
    /// account's (existing) entry.
    pub open spec fn rollback_ok(&self, account: Seq<char>, claims: Seq<LockupClaim>) -> bool {
        &&& forall|k1: int, k2: int|
            0 <= k1 < k2 < claims.len() ==> (#[trigger] claims[k1]).index != (
            #[trigger] claims[k2]).index
        &&& forall|k: int|
            0 <= k < claims.len() ==> {
                let c = #[trigger] claims[k];
                &&& (c.index as int) < self.lockups@.len()
                &&& self.lockups@[c.index as int].account_id@ == account
                &&& c.unclaimed_balance <= self.lockups@[c.index as int].claimed_balance
                &&& (c.is_final ==> !self.account_indices(account).contains(c.index))
                &&& (c.is_final ==> self.has_account(account))
            }
    }

    /// One more claim adds its amount to the payout sum.
    proof fn lemma_claims_sum_take_step(claims: Seq<LockupClaim>, k: int)
        requires
            0 <= k < claims.len(),
        ensures
            Self::claims_sum(claims.take(k + 1)) == Self::claims_sum(claims.take(k))
                + claims[k].unclaimed_balance,
        decreases k,
    {
        if k == 0 {
            assert(claims.take(0) =~= Seq::<LockupClaim>::empty());
            assert(claims.take(1)[0] == claims[0]);
            assert(claims.take(1).drop_first() =~= Seq::<LockupClaim>::empty());
        } else {
            assert(claims.take(k + 1)[0] == claims[0]);
            assert(claims.take(k)[0] == claims[0]);
            assert(claims.take(k + 1).drop_first() =~= claims.drop_first().take(k));
            assert(claims.take(k).drop_first() =~= claims.drop_first().take(k - 1));
            Self::lemma_claims_sum_take_step(claims.drop_first(), k - 1);
            assert(claims.drop_first()[k - 1] == claims[k]);
        }
    }

    /// Payout sums are nonnegative, and prefixes never exceed the whole.
    proof fn lemma_claims_sum_mono(claims: Seq<LockupClaim>, k: int)
        requires
            0 <= k <= claims.len(),
        ensures
            Self::claims_sum(claims.take(k)) <= Self::claims_sum(claims),
            0 <= Self::claims_sum(claims),
        decreases claims.len(),
    {
        if claims.len() == 0 {
            assert(claims.take(k) =~= claims);
        } else if k == 0 {
            assert(claims.take(0) =~= Seq::<LockupClaim>::empty());
            Self::lemma_claims_sum_mono(claims.drop_first(), claims.len() - 1);
        } else {
            assert(claims.take(k)[0] == claims[0]);
            assert(claims.take(k).drop_first() =~= claims.drop_first().take(k - 1));
            Self::lemma_claims_sum_mono(claims.drop_first(), k - 1);
        }
    }

    /// One more claim adds its key to the emptied list exactly when it
    /// emptied its lockup.
    proof fn lemma_final_ids_take_step(claims: Seq<LockupClaim>, k: int)
        requires
            0 <= k < claims.len(),
        ensures
            Self::final_ids(claims.take(k + 1)) == Self::final_ids(claims.take(k)) + (if claims[k].is_final {
                seq![claims[k].index]
            } else {
                Seq::<LockupIndex>::empty()
            }),
        decreases k,
    {
        if k == 0 {
            assert(claims.take(0) =~= Seq::<LockupClaim>::empty());
            assert(claims.take(1)[0] == claims[0]);
            assert(claims.take(1).drop_first() =~= Seq::<LockupClaim>::empty());
            assert(Self::final_ids(claims.take(1).drop_first()) == Seq::<LockupIndex>::empty());
            assert(Self::final_ids(claims.take(0)) == Seq::<LockupIndex>::empty());
            if claims[0].is_final {
                assert(Self::final_ids(claims.take(1)) =~= Seq::<LockupIndex>::empty() + seq![
                    claims[0].index,
                ]);
            } else {
                assert(Self::final_ids(claims.take(1)) =~= Seq::<LockupIndex>::empty() + Seq::<
                    LockupIndex,
                >::empty());
            }
        } else {
            assert(claims.take(k + 1)[0] == claims[0]);
            assert(claims.take(k)[0] == claims[0]);
            assert(claims.take(k + 1).drop_first() =~= claims.drop_first().take(k));
            assert(claims.take(k).drop_first() =~= claims.drop_first().take(k - 1));
            Self::lemma_final_ids_take_step(claims.drop_first(), k - 1);
            assert(claims.drop_first()[k - 1] == claims[k]);
            assert(Self::final_ids(claims.take(k + 1)) =~= Self::final_ids(claims.take(k)) + (
            if claims[k].is_final {
                seq![claims[k].index]
            } else {
                Seq::<LockupIndex>::empty()
            }));
        }
    }

    /// The emptied keys are some of the claims' keys.
    proof fn lemma_final_ids_subset(claims: Seq<LockupClaim>)
        ensures
            forall|w: u32|
                #![trigger Self::final_ids(claims).contains(w)]
                Self::final_ids(claims).contains(w) ==> exists|k: int|
                    0 <= k < claims.len() && (#[trigger] claims[k]).index == w
                        && claims[k].is_final,
        decreases claims.len(),
    {
        let out = Self::final_ids(claims);
        if claims.len() > 0 {
            let tail = claims.drop_first();
            assert(forall|j: int| 0 <= j < tail.len() ==> (#[trigger] tail[j]) == claims[j + 1]);
            Self::lemma_final_ids_subset(tail);
            let rest = Self::final_ids(tail);
            assert forall|w: u32| #![trigger out.contains(w)] out.contains(w) implies exists|k: int|
                0 <= k < claims.len() && (#[trigger] claims[k]).index == w
                    && claims[k].is_final by {
                let m = choose|m: int| 0 <= m < out.len() && out[m] == w;
                if claims[0].is_final && m == 0 && out[0] == claims[0].index {
                    assert(claims[0].index == w && claims[0].is_final);
                } else {
                    if claims[0].is_final {
                        assert(rest[m - 1] == w);
                    } else {
                        assert(rest[m] == w);
                    }
                    assert(rest.contains(w));
                    let k = choose|k: int|
                        0 <= k < tail.len() && (#[trigger] tail[k]).index == w
                            && tail[k].is_final;
                    assert(claims[k + 1].index == w && claims[k + 1].is_final);
                }
            }
        }
    }

    /// Settles a claim transfer: on success the paid total is confirmed
    /// and nothing changes; on failure every claimed amount is credited
    /// back to its lockup and every emptied lockup rejoins the account's
    /// entry, so nothing is lost. Malformed callback data is rejected
    /// unchanged.
    pub fn after_ft_transfer(
        &mut self,
        account_id: &AccountId,
        lockup_claims: Vec<LockupClaim>,
        promise_success: bool,
    ) -> (r: Result<Balance, Error>)
        requires
            old(self).wf(),
        ensures
            r is Err ==> *final(self) == *old(self) && r->Err_0 == Error::Invariant,
            promise_success ==> *final(self) == *old(self),
            (promise_success && Self::claims_sum(lockup_claims@) <= u128::MAX as int) ==> (r
                matches Ok(total) && total as int == Self::claims_sum(lockup_claims@)),
            !promise_success ==> (r is Ok <==> old(self).rollback_ok(
                account_id@,
                lockup_claims@,
            )),
            (!promise_success && r is Ok) ==> ({
                let claims = lockup_claims@;
                &&& r == Ok::<Balance, Error>(0)
                &&& final(self).lockups@.len() == old(self).lockups@.len()
                &&& forall|k: int|
                    0 <= k < claims.len() ==> {
                        let li = ((#[trigger] claims[k]).index) as int;
                        &&& final(self).lockups@[li].claimed_balance == old(
                            self,
                        ).lockups@[li].claimed_balance - claims[k].unclaimed_balance
                        &&& final(self).lockups@[li].schedule == old(self).lockups@[li].schedule
                        &&& final(self).lockups@[li].account_id == old(
                            self,
                        ).lockups@[li].account_id
                        &&& final(self).lockups@[li].termination_config == old(
                            self,
                        ).lockups@[li].termination_config
                    }
                &&& forall|i: int|
                    0 <= i < old(self).lockups@.len() && (forall|k: int|
                        0 <= k < claims.len() ==> (#[trigger] claims[k]).index as int != i)
                        ==> final(self).lockups@[i] == old(self).lockups@[i]
                &&& final(self).account_indices(account_id@) == old(self).account_indices(
                    account_id@,
                ) + Self::final_ids(claims)
                &&& forall|x: Seq<char>|
                    x != account_id@ ==> final(self).account_indices(x) == old(
                        self,
                    ).account_indices(x)
                &&& forall|x: Seq<char>| final(self).has_account(x) <==> old(self).has_account(x)
                &&& final(self).token_account_id == old(self).token_account_id
                &&& final(self).deposit_whitelist@ == old(self).deposit_whitelist@
                &&& final(self).next_draft_id == old(self).next_draft_id
                &&& final(self).drafts@ == old(self).drafts@
                &&& final(self).draft_groups@ == old(self).draft_groups@
                &&& final(self).wf()
            }),
    {
        let ghost claims = lockup_claims@;
        let n = lockup_claims.len();
        if promise_success {
            let mut total: Balance = 0;
            let mut k: usize = 0;
            while k < n
                invariant
                    0 <= k <= n,
                    n == claims.len(),
                    claims == lockup_claims@,
                    promise_success,
                    *self == *old(self),
                    total as int == Self::claims_sum(claims.take(k as int)),
                decreases n - k,
            {
                proof {
                    Self::lemma_claims_sum_take_step(claims, k as int);
                }
                total = match total.checked_add(lockup_claims[k].unclaimed_balance) {
                    Some(t) => t,
                    None => {
                        proof {
                            Self::lemma_claims_sum_mono(claims, k as int + 1);
                        }
                        return Err(Error::Invariant);
                    },
                };
                k += 1;
            }
            proof {
                assert(claims.take(n as int) =~= claims);
            }
            return Ok(total);
        }
        let entry_pos = self.find_account(account_id);
        proof {
            match entry_pos {
                Some(p) => {
                    lemma_entries_pos(old(self).account_lockups@, p as int);
                },
                None => {},
            }
        }
        let mut k: usize = 0;
        while k < n
            invariant
                0 <= k <= n,
                n == claims.len(),
                claims == lockup_claims@,
                *self == *old(self),
                old(self).wf(),
                !promise_success,
                match entry_pos {
                    Some(p) => (p as int) < old(self).account_lockups@.len() && old(
                        self,
                    ).account_indices(account_id@) == old(self).account_lockups@[p as int].indices@
                        && old(self).has_account(account_id@),
                    None => !old(self).has_account(account_id@),
                },
                forall|k1: int, k2: int|
                    0 <= k1 < k2 < k ==> (#[trigger] claims[k1]).index != (
                    #[trigger] claims[k2]).index,
                forall|j: int|
                    0 <= j < k ==> {
                        let c = #[trigger] claims[j];
                        &&& (c.index as int) < old(self).lockups@.len()
                        &&& old(self).lockups@[c.index as int].account_id@ == account_id@
                        &&& c.unclaimed_balance <= old(
                            self,
                        ).lockups@[c.index as int].claimed_balance
                        &&& (c.is_final ==> !old(self).account_indices(account_id@).contains(
                            c.index,
                        ))
                        &&& (c.is_final ==> old(self).has_account(account_id@))
                    },
            decreases n - k,
        {
            let c_index = lockup_claims[k].index;
            let c_amount = lockup_claims[k].unclaimed_balance;
            let c_final = lockup_claims[k].is_final;
            if c_index as usize >= self.lockups.len() {
                proof {
                    if old(self).rollback_ok(account_id@, claims) {
                        assert(((#[trigger] claims[k as int]).index as int) < old(
                            self,
                        ).lockups@.len());
                    }
                }
                return Err(Error::Invariant);
            }
            if !(self.lockups[c_index as usize].account_id == *account_id) {
                proof {
                    if old(self).rollback_ok(account_id@, claims) {
                        assert(old(self).lockups@[(#[trigger] claims[k as int]).index as int].account_id@
                            == account_id@);
                    }
                }
                return Err(Error::Invariant);
            }
            if c_amount > self.lockups[c_index as usize].claimed_balance {
                proof {
                    if old(self).rollback_ok(account_id@, claims) {
                        assert((#[trigger] claims[k as int]).unclaimed_balance <= old(
                            self,
                        ).lockups@[claims[k as int].index as int].claimed_balance);
                    }
                }
                return Err(Error::Invariant);
            }
            let mut j: usize = 0;
            while j < k
                invariant
                    0 <= j <= k < n,
                    n == claims.len(),
                    claims == lockup_claims@,
                    *self == *old(self),
                    c_index == claims[k as int].index,
                    !promise_success,
                    forall|m: int| 0 <= m < j ==> (#[trigger] claims[m]).index != c_index,
                decreases k - j,
            {
                if lockup_claims[j].index == c_index {
                    proof {
                        assert(!old(self).rollback_ok(account_id@, claims)) by {
                            if old(self).rollback_ok(account_id@, claims) {
                                assert(claims[j as int].index != claims[k as int].index);
                            }
                        }
                    }
                    return Err(Error::Invariant);
                }
                j += 1;
            }
            if c_final {
                let in_entry: bool = match entry_pos {
                    Some(p) => contains_index(&self.account_lockups[p].indices, c_index),
                    None => true,
                };
                if in_entry {
                    proof {
                        if old(self).rollback_ok(account_id@, claims) {
                            assert((#[trigger] claims[k as int]).is_final ==> !old(
                                self,
                            ).account_indices(account_id@).contains(claims[k as int].index));
                            assert((#[trigger] claims[k as int]).is_final ==> old(
                                self,
                            ).has_account(account_id@));
                        }
                    }
                    return Err(Error::Invariant);
                }
            }
            k += 1;
        }
        let mut k: usize = 0;
        while k < n
            invariant
                0 <= k <= n,
                n == claims.len(),
                claims == lockup_claims@,
                old(self).wf(),
                old(self).rollback_ok(account_id@, claims),
                !promise_success,
                self.wf(),
                self.lockups@.len() == old(self).lockups@.len(),
                self.account_lockups@ == old(self).account_lockups@,
                self.deposit_whitelist@ == old(self).deposit_whitelist@,
                self.token_account_id == old(self).token_account_id,
                self.next_draft_id == old(self).next_draft_id,
                self.drafts@ == old(self).drafts@,
                self.draft_groups@ == old(self).draft_groups@,
                forall|j: int|
                    k <= j < n ==> self.lockups@[(#[trigger] claims[j]).index as int] == old(
                        self,
                    ).lockups@[claims[j].index as int],
                forall|j: int|
                    0 <= j < k ==> {
                        let li = ((#[trigger] claims[j]).index) as int;
                        &&& self.lockups@[li].claimed_balance == old(
                            self,
                        ).lockups@[li].claimed_balance - claims[j].unclaimed_balance
                        &&& self.lockups@[li].schedule == old(self).lockups@[li].schedule
                        &&& self.lockups@[li].account_id == old(self).lockups@[li].account_id
                        &&& self.lockups@[li].termination_config == old(
                            self,
                        ).lockups@[li].termination_config
                    },
                forall|i: int|
                    0 <= i < old(self).lockups@.len() && (forall|m: int|
                        0 <= m < claims.len() ==> (#[trigger] claims[m]).index as int != i)
                        ==> self.lockups@[i] == old(self).lockups@[i],
            decreases n - k,
        {
            let c_index = lockup_claims[k].index;
            let c_amount = lockup_claims[k].unclaimed_balance;
            proof {
                assert(self.lockups@[c_index as int] == old(self).lockups@[c_index as int]);
            }
            let ghost pre_lockups = self.lockups@;
            let ghost pre_self = *self;
            let l = vstd::std_specs::vec::vec_index_mut(&mut self.lockups, c_index as usize);
            l.claimed_balance = l.claimed_balance - c_amount;
            proof {
                assert(self.lockups@ =~= pre_lockups.update(
                    c_index as int,
                    self.lockups@[c_index as int],
                ));
                assert forall|i2: int| 0 <= i2 < self.lockups@.len() implies (
                #[trigger] self.lockups@[i2]).wf() by {
                    if i2 != c_index as int {
                        assert(self.lockups@[i2] == pre_lockups[i2]);
                        assert(pre_self.lockups@[i2].wf());
                    } else {
                        assert(pre_self.lockups@[i2].wf());
                    }
                }
                assert(self.accounts_wf()) by {
                    assert(pre_self.accounts_wf());
                    assert forall|a: int, m: int|
                        0 <= a < self.account_lockups@.len() && 0 <= m
                            < self.account_lockups@[a].indices@.len() implies {
                        let li = (#[trigger] self.account_lockups@[a].indices@[m]) as int;
                        &&& li < self.lockups@.len()
                        &&& self.lockups@[li].account_id@ == self.account_lockups@[a].account_id@
                    } by {
                        let li = self.account_lockups@[a].indices@[m] as int;
                        assert(pre_self.lockups@[li].account_id@
                            == self.account_lockups@[a].account_id@);
                    }
                }
                lemma_draft_side_unchanged(pre_self, *self);
                assert forall|j: int|
                    k + 1 <= j < n implies self.lockups@[(#[trigger] claims[j]).index as int]
                    == old(self).lockups@[claims[j].index as int] by {
                    assert(claims[j].index != claims[k as int].index);
                }
            }
            k += 1;
        }
        match entry_pos {
            None => {
                proof {
                    Self::lemma_final_ids_subset(claims);
                    assert(Self::final_ids(claims) =~= Seq::<LockupIndex>::empty()) by {
                        if Self::final_ids(claims).len() > 0 {
                            assert(Self::final_ids(claims).contains(Self::final_ids(claims)[0]));
                            let ck = choose|ck: int|
                                0 <= ck < claims.len() && (#[trigger] claims[ck]).index
                                    == Self::final_ids(claims)[0] && claims[ck].is_final;
                            assert(old(self).has_account(account_id@));
                        }
                    }
                    assert(old(self).account_indices(account_id@) =~= Seq::<LockupIndex>::empty());
                    assert(self.account_indices(account_id@) =~= old(self).account_indices(
                        account_id@,
                    ) + Self::final_ids(claims));
                }
            },
            Some(p) => {
                let ghost entry = old(self).account_lockups@[p as int].indices@;
                let mut new_indices: Vec<LockupIndex> = Vec::new();
                let elen = self.account_lockups[p].indices.len();
                let mut m: usize = 0;
                while m < elen
                    invariant
                        0 <= m <= elen,
                        (p as int) < self.account_lockups@.len(),
                        elen == entry.len(),
                        self.account_lockups@ == old(self).account_lockups@,
                        entry == old(self).account_lockups@[p as int].indices@,
                        !promise_success,
                        new_indices@ == entry.take(m as int),
                    decreases elen - m,
                {
                    let e_idx = self.account_lockups[p].indices[m];
                    new_indices.push(e_idx);
                    proof {
                        assert(new_indices@ =~= entry.take(m + 1));
                    }
                    m += 1;
                }
                proof {
                    assert(entry.take(elen as int) =~= entry);
                }
                let mut k2: usize = 0;
                while k2 < n
                    invariant
                        0 <= k2 <= n,
                        n == claims.len(),
                        claims == lockup_claims@,
                        (p as int) < self.account_lockups@.len(),
                        self.account_lockups@ == old(self).account_lockups@,
                        entry == old(self).account_lockups@[p as int].indices@,
                        !promise_success,
                        new_indices@ == entry + Self::final_ids(claims.take(k2 as int)),
                    decreases n - k2,
                {
                    proof {
                        Self::lemma_final_ids_take_step(claims, k2 as int);
                    }
                    if lockup_claims[k2].is_final {
                        new_indices.push(lockup_claims[k2].index);
                        proof {
                            assert(new_indices@ =~= entry + Self::final_ids(
                                claims.take(k2 as int),
                            ) + seq![claims[k2 as int].index]);
                            assert(new_indices@ =~= entry + (Self::final_ids(
                                claims.take(k2 as int),
                            ) + seq![claims[k2 as int].index]));
                        }
                    }
                    k2 += 1;
                }
                proof {
                    assert(claims.take(n as int) =~= claims);
                }
                let ghost pre_entries = self.account_lockups@;
                let e = vstd::std_specs::vec::vec_index_mut(&mut self.account_lockups, p);
                e.indices = new_indices;
                proof {
                    let e2 = self.account_lockups@[p as int];
                    assert(self.account_lockups@ == pre_entries.update(p as int, e2));
                    assert(e2.account_id@ == account_id@);
                    lemma_entries_update(pre_entries, p as int, e2);
                    lemma_entries_pos(self.account_lockups@, p as int);
                    Self::lemma_final_ids_subset(claims);
                    assert forall|a: int, m2: int|
                        0 <= a < self.account_lockups@.len() && 0 <= m2
                            < self.account_lockups@[a].indices@.len() implies {
                        let lx = (#[trigger] self.account_lockups@[a].indices@[m2]) as int;
                        &&& lx < self.lockups@.len()
                        &&& self.lockups@[lx].account_id@ == self.account_lockups@[a].account_id@
                    } by {
                        if a == p as int {
                            let w = self.account_lockups@[a].indices@[m2];
                            if m2 < entry.len() {
                                assert(w == entry[m2]);
                                assert(pre_entries[a].indices@[m2] == w);
                                assert(old(self).accounts_wf());
                                assert((w as int) < old(self).lockups@.len());
                                assert(old(self).lockups@[w as int].account_id@ == account_id@);
                            } else {
                                assert(Self::final_ids(claims)[m2 - entry.len()] == w);
                                assert(Self::final_ids(claims).contains(w));
                                let ck = choose|ck: int|
                                    0 <= ck < claims.len() && (#[trigger] claims[ck]).index == w
                                        && claims[ck].is_final;
                                assert((w as int) < old(self).lockups@.len());
                                assert(old(self).lockups@[w as int].account_id@ == account_id@);
                            }
                            assert(self.lockups@[w as int].account_id == old(
                                self,
                            ).lockups@[w as int].account_id) by {
                                if forall|mm: int|
                                    0 <= mm < claims.len() ==> (#[trigger] claims[mm]).index as int
                                        != w as int {
                                    assert(self.lockups@[w as int] == old(
                                        self,
                                    ).lockups@[w as int]);
                                }
                            }
                        } else {
                            assert(self.account_lockups@[a] == pre_entries[a]);
                            assert(old(self).accounts_wf());
                        }
                    }
                    assert forall|a: int| 0 <= a < self.account_lockups@.len() implies distinct_idxs(
                        (#[trigger] self.account_lockups@[a]).indices@,
                    ) by {
                        if a != p as int {
                            assert(self.account_lockups@[a] == pre_entries[a]);
                            assert(old(self).accounts_wf());
                        } else {
                            assert(old(self).accounts_wf());
                            assert forall|q1: int, q2: int|
                                0 <= q1 < q2 < e2.indices@.len() implies (
                            #[trigger] e2.indices@[q1]) != (#[trigger] e2.indices@[q2]) by {
                                let fin = Self::final_ids(claims);
                                if q2 < entry.len() {
                                } else {
                                    assert(e2.indices@[q2] == fin[q2 - entry.len()]);
                                    assert(fin.contains(fin[q2 - entry.len()]));
                                    let ck2 = choose|ck: int|
                                        0 <= ck < claims.len() && (#[trigger] claims[ck]).index
                                            == fin[q2 - entry.len()] && claims[ck].is_final;
                                    if q1 < entry.len() {
                                        assert(!old(self).account_indices(
                                            account_id@,
                                        ).contains(claims[ck2].index));
                                        if e2.indices@[q1] == e2.indices@[q2] {
                                            assert(entry[q1] == claims[ck2].index);
                                            assert(old(self).account_indices(
                                                account_id@,
                                            ).contains(claims[ck2].index));
                                        }
                                    } else {
                                        assert(e2.indices@[q1] == fin[q1 - entry.len()]);
                                        assert(fin.contains(fin[q1 - entry.len()]));
                                        let ck1 = choose|ck: int|
                                            0 <= ck < claims.len() && (#[trigger] claims[ck]).index
                                                == fin[q1 - entry.len()] && claims[ck].is_final;
                                        if e2.indices@[q1] == e2.indices@[q2] {
                                            assert(claims[ck1].index == claims[ck2].index);
                                            if ck1 != ck2 {
                                                assert(false);
                                            } else {
                                                assert(fin[q1 - entry.len()] == fin[q2
                                                    - entry.len()]);
                                                Self::lemma_final_ids_distinct_positions(
                                                    claims,
                                                    q1 - entry.len(),
                                                    q2 - entry.len(),
                                                );
                                            }
                                        }
                                    }
                                }
                            }
                        }
                    }
                    lemma_draft_side_unchanged(*old(self), *self);
                    assert forall|i2: int| 0 <= i2 < self.lockups@.len() implies (
                    #[trigger] self.lockups@[i2]).wf() by {}
                }
            },
        }
        Ok(0)
    }

    /// Settles a termination transfer: on success the recovered amount
    /// reached the payer; on failure the amount is credited back to the
    /// payer as a fresh, fully unlocked lockup, so nothing is lost.
    pub fn after_lockup_termination(
        &mut self,
        account_id: &AccountId,
        amount: Balance,
        promise_success: bool,
    ) -> (r: Result<Balance, Error>)
        requires
            old(self).wf(),
        ensures
            r is Err ==> *final(self) == *old(self) && r->Err_0 == Error::Invariant
                && !promise_success && old(self).lockups@.len() == u32::MAX as int,
            promise_success ==> r == Ok::<Balance, Error>(amount) && *final(self) == *old(self),
            (!promise_success && old(self).lockups@.len() < u32::MAX as int) ==> ({
                let lk = final(self).lockups@.last();
                &&& r == Ok::<Balance, Error>(0)
                &&& final(self).lockups@.len() == old(self).lockups@.len() + 1
                &&& forall|i: int|
                    0 <= i < old(self).lockups@.len() ==> final(self).lockups@[i] == old(
                        self,
                    ).lockups@[i]
                &&& lk.account_id@ == account_id@
                &&& lk.claimed_balance == 0
                &&& lk.termination_config is None
                &&& lk.schedule@.last().balance == amount
                &&& forall|t: int| t >= 1 ==> unlocked_at(lk.schedule@, t) == amount
                &&& final(self).account_indices(account_id@) == old(self).account_indices(
                    account_id@,
                ).push((old(self).lockups@.len() as LockupIndex))
                &&& forall|x: Seq<char>|
                    x != account_id@ ==> final(self).account_indices(x) == old(
                        self,
                    ).account_indices(x)
                &&& final(self).token_account_id == old(self).token_account_id
                &&& final(self).deposit_whitelist@ == old(self).deposit_whitelist@
                &&& final(self).next_draft_id == old(self).next_draft_id
                &&& final(self).drafts@ == old(self).drafts@
                &&& final(self).draft_groups@ == old(self).draft_groups@
                &&& final(self).wf()
            }),
    {
        if promise_success {
            return Ok(amount);
        }
        let lockup = Lockup::new_unlocked(account_id.clone(), amount);
        match self.internal_add_lockup(lockup) {
            Ok(_) => Ok(0),
            Err(e) => Err(e),
        }
    }

    /// Distinct positions in the emptied-key list come from distinct
    /// claims when the claims' keys are distinct.
    proof fn lemma_final_ids_distinct_positions(claims: Seq<LockupClaim>, q1: int, q2: int)
        requires
            forall|k1: int, k2: int|
                0 <= k1 < k2 < claims.len() ==> (#[trigger] claims[k1]).index != (
                #[trigger] claims[k2]).index,
            0 <= q1 < q2 < Self::final_ids(claims).len(),
        ensures
            Self::final_ids(claims)[q1] != Self::final_ids(claims)[q2],
        decreases claims.len(),
    {
        let out = Self::final_ids(claims);
        if claims.len() > 0 {
            let tail = claims.drop_first();
            assert(forall|j: int| 0 <= j < tail.len() ==> (#[trigger] tail[j]) == claims[j + 1]);
            let rest = Self::final_ids(tail);
            if claims[0].is_final {
                if q1 == 0 {
                    assert(out[q2] == rest[q2 - 1]);
                    Self::lemma_final_ids_subset(tail);
                    assert(rest.contains(rest[q2 - 1]));
                    let ck = choose|ck: int|
                        0 <= ck < tail.len() && (#[trigger] tail[ck]).index == rest[q2 - 1]
                            && tail[ck].is_final;
                    assert(claims[ck + 1].index == rest[q2 - 1]);
                    assert(claims[0].index != claims[ck + 1].index);
                } else {
                    assert(out[q1] == rest[q1 - 1]);
                    assert(out[q2] == rest[q2 - 1]);
                    Self::lemma_final_ids_distinct_positions(tail, q1 - 1, q2 - 1);
                }
            } else {
                Self::lemma_final_ids_distinct_positions(tail, q1, q2);
            }
        }
    }

    /// The position of `account_id`'s entry in the account index, if any.
    pub(crate) fn find_account(&self, account_id: &AccountId) -> (r: Option<usize>)
        ensures
            match r {
                Some(p) => p < self.account_lockups@.len()
                    && self.account_lockups@[p as int].account_id@ == account_id@,
                None => !self.has_account(account_id@),
            },
    {
        let n = self.account_lockups.len();
        let mut i: usize = 0;
        while i < n
            invariant
                0 <= i <= n,
                n == self.account_lockups@.len(),
                forall|j: int|
                    0 <= j < i ==> (#[trigger] self.account_lockups@[j]).account_id@
                        != account_id@,
            decreases n - i,
        {
            if self.account_lockups[i].account_id == *account_id {
                return Some(i);
            }
            i += 1;
        }
        None
    }

    /// Stores a lockup at the next index and records that index under the
    /// lockup's account. Fails only when the index space is exhausted.
    fn internal_add_lockup(&mut self, lockup: Lockup) -> (r: Result<LockupIndex, Error>)
        requires
            old(self).wf(),
            lockup.wf(),
        ensures
            r is Err ==> *final(self) == *old(self) && r->Err_0 == Error::Invariant && old(
                self,
            ).lockups@.len() == u32::MAX as int,
            old(self).lockups@.len() < u32::MAX as int ==> r is Ok,
            r matches Ok(idx) ==> {
                &&& idx as int == old(self).lockups@.len()
                &&& final(self).lockups@ == old(self).lockups@.push(lockup)
                &&& forall|x: Seq<char>|
                    final(self).has_account(x) <==> (old(self).has_account(x) || x
                        == lockup.account_id@)
                &&& final(self).account_indices(lockup.account_id@) == old(self).account_indices(
                    lockup.account_id@,
                ).push(idx)
                &&& forall|x: Seq<char>|
                    x != lockup.account_id@ ==> final(self).account_indices(x) == old(
                        self,
                    ).account_indices(x)
                &&& final(self).token_account_id == old(self).token_account_id
                &&& final(self).deposit_whitelist@ == old(self).deposit_whitelist@
                &&& final(self).next_draft_id == old(self).next_draft_id
                &&& final(self).drafts@ == old(self).drafts@
                &&& final(self).draft_groups@ == old(self).draft_groups@
                &&& final(self).wf()
            },
    {
        let n = self.lockups.len();
        if n >= 0xffff_ffff_usize {
            return Err(Error::Invariant);
        }
        let index = n as u32;
        let ghost acct = lockup.account_id@;
        let pos_opt = self.find_account(&lockup.account_id);
        let account_copy = lockup.account_id.clone();
        self.lockups.push(lockup);
        let ghost entries = old(self).account_lockups@;
        match pos_opt {
            Some(p) => {
                proof {
                    lemma_entries_pos(entries, p as int);
                }
                let e = vstd::std_specs::vec::vec_index_mut(&mut self.account_lockups, p);
                e.indices.push(index);
                proof {
                    let e2 = self.account_lockups@[p as int];
                    assert(self.account_lockups@ == entries.update(p as int, e2));
                    assert(e2.account_id@ == acct);
                    assert(e2.indices@ == entries[p as int].indices@.push(index));
                    lemma_entries_update(entries, p as int, e2);
                    lemma_entries_pos(self.account_lockups@, p as int);
                }
            },
            None => {
                let mut fresh: Vec<LockupIndex> = Vec::new();
                fresh.push(index);
                let e = AccountLockups { account_id: account_copy, indices: fresh };
                proof {
                    assert(e.account_id@ == acct);
                }
                self.account_lockups.push(e);
                proof {
                    lemma_entries_push(entries, self.account_lockups@.last());
                    assert(old(self).account_indices(acct) =~= Seq::<LockupIndex>::empty());
                    assert(self.account_indices(acct) =~= old(self).account_indices(acct).push(
                        index,
                    ));
                }
            },
        }
        proof {
            lemma_draft_side_unchanged(*old(self), *self);
            assert forall|i: int| 0 <= i < self.lockups@.len() implies (#[trigger] self.lockups@[i]).wf() by {
                if i < old(self).lockups@.len() {
                    assert(old(self).lockups@[i].wf());
                }
            }
            assert forall|a: int, k: int|
                0 <= a < self.account_lockups@.len() && 0 <= k
                    < self.account_lockups@[a].indices@.len() implies {
                let idx = (#[trigger] self.account_lockups@[a].indices@[k]) as int;
                &&& idx < self.lockups@.len()
                &&& self.lockups@[idx].account_id@ == self.account_lockups@[a].account_id@
            } by {
                if a < entries.len() && !(pos_opt matches Some(p) && a == p as int && k
                    == entries[a].indices@.len()) {
                    assert(self.account_lockups@[a].indices@[k] == entries[a].indices@[k]);
                    assert(old(self).accounts_wf());
                }
            }
            assert forall|a: int| 0 <= a < self.account_lockups@.len() implies distinct_idxs(
                (#[trigger] self.account_lockups@[a]).indices@,
            ) by {
                assert(old(self).accounts_wf());
                if a < entries.len() {
                    match pos_opt {
                        Some(p) => {
                            if a == p as int {
                                assert(!entries[a].indices@.contains(index)) by {
                                    if entries[a].indices@.contains(index) {
                                        let k = choose|k: int|
                                            0 <= k < entries[a].indices@.len()
                                                && entries[a].indices@[k] == index;
                                        assert((entries[a].indices@[k] as int) < old(
                                            self,
                                        ).lockups@.len());
                                    }
                                };
                                lemma_idxs_push(entries[a].indices@, index);
                            }
                        },
                        None => {},
                    }
                }
            }
        }
        Ok(index)
    }

    /// Creates a lockup from a deposit of `amount` tokens: only a
    /// whitelisted sender may do so, the lockup must be fresh and valid
    /// over exactly the deposited amount, and it is then stored under a
    /// new index recorded for its account. A rejected deposit changes
    /// nothing and the amount flows back.
    pub fn deposit_lockup(
        &mut self,
        sender_id: &AccountId,
        amount: Balance,
        lockup: Lockup,
    ) -> (r: Result<LockupIndex, Error>)
        requires
            old(self).wf(),
        ensures
            r is Err ==> *final(self) == *old(self),
            !old(self).whitelisted(sender_id@) ==> r == Err::<LockupIndex, Error>(
                Error::NotInDepositWhitelist,
            ),
            ({
                &&& old(self).whitelisted(sender_id@)
                &&& !lockup.new_valid(amount as int)
            }) ==> r is Err && (r->Err_0 == Error::ClaimedBalanceNotZero || r->Err_0
                == Error::InvalidSchedule || r->Err_0 == Error::IncompatibleVestingSchedule),
            r is Ok <==> ({
                &&& old(self).whitelisted(sender_id@)
                &&& lockup.new_valid(amount as int)
                &&& old(self).lockups@.len() < u32::MAX as int
            }),
            r matches Ok(idx) ==> {
                &&& idx as int == old(self).lockups@.len()
                &&& final(self).lockups@ == old(self).lockups@.push(lockup)
                &&& final(self).account_indices(lockup.account_id@) == old(self).account_indices(
                    lockup.account_id@,
                ).push(idx)
                &&& forall|x: Seq<char>|
                    x != lockup.account_id@ ==> final(self).account_indices(x) == old(
                        self,
                    ).account_indices(x)
                &&& final(self).token_account_id == old(self).token_account_id
                &&& final(self).deposit_whitelist@ == old(self).deposit_whitelist@
                &&& final(self).next_draft_id == old(self).next_draft_id
                &&& final(self).drafts@ == old(self).drafts@
                &&& final(self).draft_groups@ == old(self).draft_groups@
                &&& final(self).wf()
            },
    {
        match self.assert_deposit_whitelist(sender_id) {
            Err(e) => {
                return Err(e);
            },
            Ok(()) => {},
        }
        match lockup.assert_new_valid(amount) {
            Err(e) => {
                return Err(e);
            },
            Ok(()) => {},
        }
        self.internal_add_lockup(lockup)
    }

    /// Stages a draft in its group: only a whitelisted caller may do so,
    /// the draft's template must be fresh and valid, the group must exist
    /// and not be funded yet. The draft gets the next key, joins the
    /// group's member list, and its amount joins the group's total.
    pub fn create_draft(&mut self, caller: &AccountId, draft: Draft) -> (r: Result<
        DraftIndex,
        Error,
    >)
        requires
            old(self).wf(),
        ensures
            r is Err ==> *final(self) == *old(self),
            !old(self).whitelisted(caller@) ==> r == Err::<DraftIndex, Error>(
                Error::NotInDepositWhitelist,
            ),
            ({
                &&& old(self).whitelisted(caller@)
                &&& !draft.lockup.new_valid(draft.total_balance_spec())
            }) ==> r is Err && (r->Err_0 == Error::ClaimedBalanceNotZero || r->Err_0
                == Error::InvalidSchedule || r->Err_0 == Error::IncompatibleVestingSchedule),
            ({
                &&& old(self).whitelisted(caller@)
                &&& draft.lockup.new_valid(draft.total_balance_spec())
                &&& (draft.draft_group_id as int) >= old(self).draft_groups@.len()
            }) ==> r == Err::<DraftIndex, Error>(Error::DraftGroupNotFound),
            ({
                &&& old(self).whitelisted(caller@)
                &&& draft.lockup.new_valid(draft.total_balance_spec())
                &&& (draft.draft_group_id as int) < old(self).draft_groups@.len()
                &&& old(self).draft_groups@[draft.draft_group_id as int].funded
            }) ==> r == Err::<DraftIndex, Error>(Error::GroupAlreadyFunded),
            r is Ok <==> old(self).create_draft_ok(caller@, draft),
            r matches Ok(idx) ==> Contract::create_draft_rel(*old(self), draft, *final(self), idx),
    {
        match self.assert_deposit_whitelist(caller) {
            Err(e) => {
                return Err(e);
            },
            Ok(()) => {},
        }
        match draft.assert_new_valid() {
            Err(e) => {
                return Err(e);
            },
            Ok(()) => {},
        }
        if draft.draft_group_id as usize >= self.draft_groups.len() {
            return Err(Error::DraftGroupNotFound);
        }
        let gid = draft.draft_group_id as usize;
        match self.draft_groups[gid].assert_can_add_draft() {
            Err(e) => {
                return Err(e);
            },
            Ok(()) => {},
        }
        if self.next_draft_id >= 0xffff_ffff_u32 {
            return Err(Error::Invariant);
        }
        let amount = draft.total_balance();
        let new_total = match self.draft_groups[gid].total_amount.checked_add(amount) {
            Some(t) => t,
            None => {
                return Err(Error::Invariant);
            },
        };
        let index = self.next_draft_id;
        self.next_draft_id = self.next_draft_id + 1;
        let ghost old_drafts = self.drafts@;
        let ghost old_groups = self.draft_groups@;
        self.drafts.push(Some(draft));
        let g = vstd::std_specs::vec::vec_index_mut(&mut self.draft_groups, gid);
        g.total_amount = new_total;
        g.draft_indices.push(index);
        proof {
            let di = index as int;
            let gidi = gid as int;
            assert(self.draft_groups@ =~= old_groups.update(gidi, self.draft_groups@[gidi]));
            lemma_lockup_side_unchanged(*old(self), *self);
            assert forall|g2: int| 0 <= g2 < self.draft_groups@.len() implies self.group_wf(
                g2,
            ) by {
                assert(old(self).group_wf(g2));
                let gg = self.draft_groups@[g2];
                let og = old_groups[g2];
                assert forall|k: int|
                    0 <= k < og.draft_indices@.len() implies self.drafts@[(
                #[trigger] og.draft_indices@[k]) as int] == old_drafts[og.draft_indices@[k] as int]
                    && ((og.draft_indices@[k] as int) < old_drafts.len()) by {
                    assert((og.draft_indices@[k] as int) < old_drafts.len());
                }
                crate::draft::lemma_sum_agree(old_drafts, self.drafts@, og.draft_indices@);
                if g2 == gidi {
                    assert(!og.draft_indices@.contains(index)) by {
                        if og.draft_indices@.contains(index) {
                            let k = choose|k: int|
                                0 <= k < og.draft_indices@.len() && og.draft_indices@[k] == index;
                            assert((og.draft_indices@[k] as int) < old_drafts.len());
                        }
                    };
                    lemma_idxs_push(og.draft_indices@, index);
                    crate::draft::lemma_sum_push(self.drafts@, og.draft_indices@, index);
                    assert(self.drafts@[di] == Some(draft));
                } else {
                    assert(gg == og);
                }
            }
            assert forall|d2: int| 0 <= d2 < self.drafts@.len() implies self.draft_wf(d2) by {
                if d2 < old_drafts.len() {
                    assert(old(self).draft_wf(d2));
                    match self.drafts@[d2] {
                        Some(dd) => {
                            assert(self.drafts@[d2] == old_drafts[d2]);
                            if dd.draft_group_id as int == gidi {
                                lemma_idxs_push(old_groups[gidi].draft_indices@, index);
                            } else {
                                assert(self.draft_groups@[dd.draft_group_id as int]
                                    == old_groups[dd.draft_group_id as int]);
                            }
                        },
                        None => {},
                    }
                } else {
                    assert(self.drafts@[d2] == Some(draft));
                    lemma_idxs_push(old_groups[gidi].draft_indices@, index);
                    assert(self.draft_groups@[gidi].draft_indices@.contains(index));
                }
            }
        }
        Ok(index)
    }

    /// Whether a whole batch of drafts can be staged: each item must be
    /// acceptable against the current state, the key space must have room
    /// for all of them, and no group total may overflow even if the whole
    /// batch's amount landed on it.
    pub open spec fn create_drafts_ok(&self, caller: Seq<char>, items: Seq<Draft>) -> bool {
        &&& self.whitelisted(caller)
        &&& forall|j: int|
            0 <= j < items.len() ==> {
                let d = #[trigger] items[j];
                &&& d.lockup.new_valid(d.total_balance_spec())
                &&& (d.draft_group_id as int) < self.draft_groups@.len()
                &&& !self.draft_groups@[d.draft_group_id as int].funded
            }
        &&& self.next_draft_id as int + items.len() <= u32::MAX as int
        &&& crate::draft::amounts_sum(items) <= u128::MAX as int
        &&& forall|j: int|
            0 <= j < items.len() ==> self.draft_groups@[(#[trigger] items[j]).draft_group_id as int].total_amount
                + crate::draft::amounts_sum(items) <= u128::MAX as int
    }

    /// Stages a batch of drafts, applying `create_draft` to each in input
    /// order, all or nothing: a batch any item of which would be rejected
    /// leaves the ledger unchanged.
    pub fn create_drafts(&mut self, caller: &AccountId, drafts: Vec<Draft>) -> (r: Result<
        Vec<DraftIndex>,
        Error,
    >)
        requires
            old(self).wf(),
        ensures
            r is Err ==> *final(self) == *old(self),
            !old(self).whitelisted(caller@) ==> r == Err::<Vec<DraftIndex>, Error>(
                Error::NotInDepositWhitelist,
            ),
            r is Ok <==> old(self).create_drafts_ok(caller@, drafts@),
            r matches Ok(ids) ==> ({
                &&& ids@.len() == drafts@.len()
                &&& forall|j: int|
                    0 <= j < ids@.len() ==> (#[trigger] ids@[j]) as int == old(
                        self,
                    ).next_draft_id as int + j
                &&& exists|states: Seq<Contract>|
                    #![trigger states.len()]
                    {
                        &&& states.len() == drafts@.len() + 1
                        &&& states[0] == *old(self)
                        &&& states.last() == *final(self)
                        &&& forall|j: int|
                            0 <= j < drafts@.len() ==> Contract::create_draft_rel(
                                #[trigger] states[j],
                                drafts@[j],
                                states[j + 1],
                                ids@[j],
                            )
                    }
                &&& final(self).wf()
            }),
    {
        match self.assert_deposit_whitelist(caller) {
            Err(e) => {
                return Err(e);
            },
            Ok(()) => {},
        }
        let n = drafts.len();
        if (self.next_draft_id as u128) + (n as u128) > 0xffff_ffff_u128 {
            return Err(Error::Invariant);
        }
        let mut k: usize = 0;
        while k < n
            invariant
                0 <= k <= n,
                n == drafts@.len(),
                *self == *old(self),
                old(self).wf(),
                old(self).whitelisted(caller@),
                old(self).next_draft_id as int + n <= u32::MAX as int,
                forall|j: int|
                    0 <= j < k ==> {
                        let d = #[trigger] drafts@[j];
                        &&& d.lockup.new_valid(d.total_balance_spec())
                        &&& (d.draft_group_id as int) < old(self).draft_groups@.len()
                        &&& !old(self).draft_groups@[d.draft_group_id as int].funded
                    },
            decreases n - k,
        {
            match drafts[k].assert_new_valid() {
                Err(e) => {
                    return Err(e);
                },
                Ok(()) => {},
            }
            if drafts[k].draft_group_id as usize >= self.draft_groups.len() {
                return Err(Error::DraftGroupNotFound);
            }
            if self.draft_groups[drafts[k].draft_group_id as usize].funded {
                return Err(Error::GroupAlreadyFunded);
            }
            k += 1;
        }
        let mut acc: Balance = 0;
        let mut k: usize = 0;
        while k < n
            invariant
                0 <= k <= n,
                n == drafts@.len(),
                *self == *old(self),
                old(self).wf(),
                old(self).whitelisted(caller@),
                old(self).next_draft_id as int + n <= u32::MAX as int,
                forall|j: int|
                    0 <= j < n ==> (#[trigger] drafts@[j]).lockup.new_valid(
                        drafts@[j].total_balance_spec(),
                    ) && (drafts@[j].draft_group_id as int) < old(self).draft_groups@.len(),
                acc as int == crate::draft::amounts_sum(drafts@.take(k as int)),
            decreases n - k,
        {
            proof {
                crate::draft::lemma_amounts_sum_take_step(drafts@, k as int);
            }
            let amount = drafts[k].total_balance();
            acc = match acc.checked_add(amount) {
                Some(a) => a,
                None => {
                    proof {
                        crate::draft::lemma_amounts_sum_bounds(drafts@, k as int + 1);
                        assert(drafts@.take(n as int) =~= drafts@);
                    }
                    return Err(Error::Invariant);
                },
            };
            k += 1;
        }
        proof {
            assert(drafts@.take(n as int) =~= drafts@);
        }
        let total_sum = acc;
        let mut k: usize = 0;
        while k < n
            invariant
                0 <= k <= n,
                n == drafts@.len(),
                *self == *old(self),
                old(self).wf(),
                old(self).whitelisted(caller@),
                old(self).next_draft_id as int + n <= u32::MAX as int,
                total_sum as int == crate::draft::amounts_sum(drafts@),
                forall|j: int|
                    0 <= j < n ==> ((#[trigger] drafts@[j]).draft_group_id as int) < old(
                        self,
                    ).draft_groups@.len(),
                forall|j: int|
                    0 <= j < k ==> old(self).draft_groups@[(#[trigger] drafts@[j]).draft_group_id as int].total_amount
                        + total_sum <= u128::MAX as int,
            decreases n - k,
        {
            let gid = drafts[k].draft_group_id as usize;
            if self.draft_groups[gid].total_amount > 0xffff_ffff_ffff_ffff_ffff_ffff_ffff_ffff_u128
                - total_sum {
                return Err(Error::Invariant);
            }
            k += 1;
        }
        let mut items = drafts;
        let mut ids: Vec<DraftIndex> = Vec::new();
        let ghost mut states: Seq<Contract> = seq![*old(self)];
        let mut k: usize = 0;
        while k < n
            invariant
                0 <= k <= n,
                n == drafts@.len(),
                items@ == drafts@.skip(k as int),
                old(self).wf(),
                old(self).create_drafts_ok(caller@, drafts@),
                states.len() == k + 1,
                states[0] == *old(self),
                states.last() == *self,
                ids@.len() == k,
                forall|j: int|
                    0 <= j < k ==> (#[trigger] ids@[j]) as int == old(self).next_draft_id as int
                        + j,
                forall|j: int|
                    0 <= j < k ==> Contract::create_draft_rel(
                        #[trigger] states[j],
                        drafts@[j],
                        states[j + 1],
                        ids@[j],
                    ),
                self.wf(),
                self.deposit_whitelist@ == old(self).deposit_whitelist@,
                self.next_draft_id as int == old(self).next_draft_id as int + k,
                self.draft_groups@.len() == old(self).draft_groups@.len(),
                forall|g: int|
                    0 <= g < self.draft_groups@.len() ==> (#[trigger] self.draft_groups@[g]).funded
                        == old(self).draft_groups@[g].funded,
                forall|g: int|
                    0 <= g < self.draft_groups@.len() ==> (#[trigger] self.draft_groups@[g]).total_amount
                        <= old(self).draft_groups@[g].total_amount + crate::draft::amounts_sum(
                        drafts@.take(k as int),
                    ),
            decreases n - k,
        {
            let d = items.remove(0);
            proof {
                assert(d == drafts@[k as int]);
                assert(items@ =~= drafts@.skip(k as int + 1));
                crate::draft::lemma_amounts_sum_take_step(drafts@, k as int);
                crate::draft::lemma_amounts_sum_bounds(drafts@, k as int + 1);
                assert(self.create_draft_ok(caller@, drafts@[k as int]));
            }
            let ghost pre_state = *self;
            let id = match self.create_draft(caller, d) {
                Ok(i) => i,
                Err(e) => {
                    proof {
                        assert(false);
                    }
                    return Err(e);
                },
            };
            ids.push(id);
            proof {
                states = states.push(*self);
                assert(states.last() == *self);
                assert(Contract::create_draft_rel(pre_state, drafts@[k as int], *self, id));
                assert forall|g: int| 0 <= g < self.draft_groups@.len() implies (
                #[trigger] self.draft_groups@[g]).total_amount <= old(
                    self,
                ).draft_groups@[g].total_amount + crate::draft::amounts_sum(
                    drafts@.take(k as int + 1),
                ) by {
                    if g != drafts@[k as int].draft_group_id as int {
                        assert(self.draft_groups@[g] == pre_state.draft_groups@[g]);
                    }
                }
            }
            k += 1;
        }
        proof {
            assert(drafts@.take(n as int) =~= drafts@);
        }
        Ok(ids)
    }

    /// Converts a staged draft of a funded group into a stored lockup.
    /// The draft leaves the draft store and its group's member list, the
    /// group's outstanding total drops by exactly the draft's amount, the
    /// group's payer becomes the payer of any termination the template
    /// carries, and the template is stored as a lockup under a new index
    /// recorded for its account. Converting the same key again fails,
    /// since the draft is gone.
    pub fn convert_draft(&mut self, draft_id: DraftIndex) -> (r: Result<LockupIndex, Error>)
        requires
            old(self).wf(),
        ensures
            r is Err ==> *final(self) == *old(self),
            ((draft_id as int) >= old(self).drafts@.len() || old(self).drafts@[draft_id as int] is None)
                ==> r == Err::<LockupIndex, Error>(Error::DraftNotFound),
            ({
                &&& (draft_id as int) < old(self).drafts@.len()
                &&& old(self).drafts@[draft_id as int] matches Some(d) && !old(
                    self,
                ).draft_groups@[d.draft_group_id as int].funded
            }) ==> r == Err::<LockupIndex, Error>(Error::GroupNotFunded),
            r is Ok <==> old(self).convert_draft_ok(draft_id),
            r matches Ok(idx) ==> Contract::convert_draft_rel(
                *old(self),
                draft_id,
                *final(self),
                idx,
            ),
    {
        if draft_id as usize >= self.drafts.len() {
            return Err(Error::DraftNotFound);
        }
        let di = draft_id as usize;
        proof {
            assert(old(self).draft_wf(di as int));
        }
        let gid: usize;
        let amount: Balance;
        match &self.drafts[di] {
            None => {
                return Err(Error::DraftNotFound);
            },
            Some(d_ref) => {
                gid = d_ref.draft_group_id as usize;
                amount = d_ref.total_balance();
            },
        }
        match self.draft_groups[gid].assert_can_convert() {
            Err(e) => {
                return Err(e);
            },
            Ok(()) => {},
        }
        if self.lockups.len() >= 0xffff_ffff_usize {
            return Err(Error::Invariant);
        }
        let ghost old_drafts = self.drafts@;
        let ghost old_groups = self.draft_groups@;
        let ghost og = self.draft_groups@[gid as int];
        let glen = self.draft_groups[gid].draft_indices.len();
        let mut pos: usize = 0;
        while pos < glen && self.draft_groups[gid].draft_indices[pos] != draft_id
            invariant
                0 <= pos <= glen,
                gid < self.draft_groups@.len(),
                glen == self.draft_groups@[gid as int].draft_indices@.len(),
                self.draft_groups@ == old_groups,
                forall|j: int|
                    0 <= j < pos ==> (#[trigger] self.draft_groups@[gid as int].draft_indices@[j])
                        != draft_id,
            decreases glen - pos,
        {
            pos += 1;
        }
        if pos == glen {
            proof {
                let k = choose|k: int|
                    0 <= k < og.draft_indices@.len() && og.draft_indices@[k] == draft_id;
                assert(false);
            }
            return Err(Error::Invariant);
        }
        proof {
            assert(old(self).group_wf(gid as int));
            crate::draft::lemma_sum_covers_member(old_drafts, og.draft_indices@, pos as int);
            lemma_idxs_remove(og.draft_indices@, pos as int);
        }
        let slot = vstd::std_specs::vec::vec_index_mut(&mut self.drafts, di);
        let d: Draft = match slot.take() {
            Some(d) => d,
            None => {
                proof {
                    assert(false);
                }
                return Err(Error::DraftNotFound);
            },
        };
        let g = vstd::std_specs::vec::vec_index_mut(&mut self.draft_groups, gid);
        g.draft_indices.remove(pos);
        g.total_amount = g.total_amount - amount;
        let payer: AccountId = match &self.draft_groups[gid].payer_id {
            Some(p) => p.clone(),
            None => {
                proof {
                    assert(false);
                }
                return Err(Error::Invariant);
            },
        };
        let mut lk = d.lockup;
        lk.termination_config = match lk.termination_config {
            Some(cfg) => Some(
                TerminationConfig {
                    terminator_id: cfg.terminator_id,
                    payer_id: Some(payer),
                    vesting_schedule: cfg.vesting_schedule,
                },
            ),
            None => None,
        };
        proof {
            let dii = di as int;
            let gidi = gid as int;
            assert(self.drafts@ =~= old_drafts.update(dii, None::<Draft>));
            assert(self.draft_groups@ =~= old_groups.update(gidi, self.draft_groups@[gidi]));
            assert(self.draft_groups@[gidi].draft_indices@ == og.draft_indices@.remove(
                pos as int,
            ));
            assert(lk.wf()) by {
                assert(old(self).drafts@[dii]->0.lockup.wf());
            }
            assert forall|g2: int| 0 <= g2 < self.draft_groups@.len() implies self.group_wf(
                g2,
            ) by {
                assert(old(self).group_wf(g2));
                let gg = self.draft_groups@[g2];
                if g2 == gidi {
                    assert forall|k: int|
                        0 <= k < gg.draft_indices@.len() implies self.drafts@[(
                    #[trigger] gg.draft_indices@[k]) as int] == old_drafts[gg.draft_indices@[k] as int]
                        && gg.draft_indices@[k] != draft_id by {
                        assert(gg.draft_indices@.contains(gg.draft_indices@[k]));
                        assert(og.draft_indices@.contains(gg.draft_indices@[k]));
                    }
                    crate::draft::lemma_sum_remove(old_drafts, og.draft_indices@, pos as int);
                    crate::draft::lemma_sum_agree(
                        old_drafts,
                        self.drafts@,
                        og.draft_indices@.remove(pos as int),
                    );
                } else {
                    assert(gg == old_groups[g2]);
                    assert forall|k: int|
                        0 <= k < gg.draft_indices@.len() implies self.drafts@[(
                    #[trigger] gg.draft_indices@[k]) as int] == old_drafts[gg.draft_indices@[k] as int] by {
                        if gg.draft_indices@[k] as int == dii {
                            assert(old_drafts[dii]->0.draft_group_id == g2);
                        }
                    }
                    crate::draft::lemma_sum_agree(old_drafts, self.drafts@, gg.draft_indices@);
                }
            }
            assert forall|d2: int| 0 <= d2 < self.drafts@.len() implies self.draft_wf(d2) by {
                assert(old(self).draft_wf(d2));
                if d2 != dii {
                    match self.drafts@[d2] {
                        Some(dd) => {
                            if dd.draft_group_id as int == gidi {
                                assert(og.draft_indices@.contains(d2 as DraftIndex));
                                assert((d2 as DraftIndex) != draft_id);
                            } else {
                                assert(self.draft_groups@[dd.draft_group_id as int]
                                    == old_groups[dd.draft_group_id as int]);
                            }
                        },
                        None => {},
                    }
                }
            }
            lemma_lockup_side_unchanged(*old(self), *self);
        }
        let idx = match self.internal_add_lockup(lk) {
            Ok(i) => i,
            Err(e) => {
                proof {
                    assert(false);
                }
                return Err(e);
            },
        };
        Ok(idx)
    }
}

} // verus!
