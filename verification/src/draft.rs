use crate::error::Error;
use crate::lockup::{AccountId, Lockup};
use crate::schedule::Balance;
use vstd::prelude::*;

verus! {

/// The position of a draft group in the draft-group store.
pub type DraftGroupIndex = u32;

/// The key of a draft in the draft store.
pub type DraftIndex = u32;

/// A pending, not-yet-real lockup: the group it belongs to and the lockup
/// template that conversion will turn into a stored lockup.
#[derive(Clone, Debug)]
pub struct Draft {
    pub draft_group_id: DraftGroupIndex,
    pub lockup: Lockup,
}

impl Draft {
    /// The draft's amount: its template schedule's total.
    pub open spec fn total_balance_spec(&self) -> int {
        self.lockup.schedule@.last().balance as int
    }

    /// The draft's amount: its template schedule's total.
    pub fn total_balance(&self) -> (r: Balance)
        requires
            self.lockup.schedule.wf(),
        ensures
            r as int == self.total_balance_spec(),
    {
        self.lockup.schedule.total_balance()
    }

    /// Accepts exactly the drafts whose template is a fresh, valid lockup
    /// over its own schedule total.
    pub fn assert_new_valid(&self) -> (r: Result<(), Error>)
        ensures
            r is Ok <==> self.lockup.new_valid(self.total_balance_spec()),
            r is Ok ==> self.lockup.wf(),
            r is Err ==> (r->Err_0 == Error::ClaimedBalanceNotZero || r->Err_0
                == Error::InvalidSchedule || r->Err_0 == Error::IncompatibleVestingSchedule),
    {
        if self.lockup.schedule.0.len() == 0 {
            return Err(Error::InvalidSchedule);
        }
        let total = self.lockup.schedule.0[self.lockup.schedule.0.len() - 1].balance;
        self.lockup.assert_new_valid(total)
    }
}

/// A funding unit: accumulates the total of its member drafts while
/// unfunded, then is funded exactly once, after which its drafts may be
/// converted and its outstanding total counts down to zero.
#[derive(Debug)]
pub struct DraftGroup {
    /// The sum of the member drafts' totals that is still outstanding.
    pub total_amount: Balance,
    /// The account that funded the group; recovered funds of converted
    /// lockups flow back to it.
    pub payer_id: Option<AccountId>,
    /// The member drafts still awaiting conversion.
    pub draft_indices: Vec<DraftIndex>,
    /// Set exactly once, by funding; never unset.
    pub funded: bool,
}

impl DraftGroup {
    /// An empty, unfunded group.
    pub fn new() -> (r: DraftGroup)
        ensures
            r.total_amount == 0,
            r.payer_id is None,
            r.draft_indices@ == Seq::<DraftIndex>::empty(),
            !r.funded,
    {
        DraftGroup { total_amount: 0, payer_id: None, draft_indices: Vec::new(), funded: false }
    }

    /// Drafts may be added only while the group is unfunded.
    pub fn assert_can_add_draft(&self) -> (r: Result<(), Error>)
        ensures
            r is Ok <==> !self.funded,
            r is Err ==> r->Err_0 == Error::GroupAlreadyFunded,
    {
        if self.funded {
            Err(Error::GroupAlreadyFunded)
        } else {
            Ok(())
        }
    }

    /// Drafts may be converted only once the group is funded.
    pub fn assert_can_convert(&self) -> (r: Result<(), Error>)
        ensures
            r is Ok <==> self.funded,
            r is Err ==> r->Err_0 == Error::GroupNotFunded,
    {
        if self.funded {
            Ok(())
        } else {
            Err(Error::GroupNotFunded)
        }
    }
}

/// A funding confirmation carried by a token transfer: the transferred
/// amount is meant to fund this draft group.
#[derive(Clone, Copy, Debug)]
pub struct DraftGroupConfirmation {
    pub draft_group_id: DraftGroupIndex,
}

/// The sum of the referenced drafts' totals; an emptied slot counts as
/// zero.
pub open spec fn sum_indices(drafts: Seq<Option<Draft>>, idxs: Seq<DraftIndex>) -> int
    decreases idxs.len(),
{
    if idxs.len() == 0 {
        0
    } else {
        (match drafts[idxs[0] as int] {
            Some(d) => d.total_balance_spec(),
            None => 0,
        }) + sum_indices(drafts, idxs.drop_first())
    }
}

/// Appending an index adds its draft's total to the sum.
pub proof fn lemma_sum_push(drafts: Seq<Option<Draft>>, idxs: Seq<DraftIndex>, i: DraftIndex)
    ensures
        sum_indices(drafts, idxs.push(i)) == sum_indices(drafts, idxs) + (match drafts[i as int] {
            Some(d) => d.total_balance_spec(),
            None => 0,
        }),
    decreases idxs.len(),
{
    let p = idxs.push(i);
    let term = (match drafts[i as int] {
        Some(d) => d.total_balance_spec(),
        None => 0,
    });
    assert(p.len() == idxs.len() + 1);
    if idxs.len() == 0 {
        assert(p[0] == i);
        assert(p.drop_first() =~= Seq::<DraftIndex>::empty());
        assert(sum_indices(drafts, p.drop_first()) == 0);
        assert(sum_indices(drafts, p) == term);
    } else {
        assert(p[0] == idxs[0]);
        assert(p.drop_first() =~= idxs.drop_first().push(i));
        lemma_sum_push(drafts, idxs.drop_first(), i);
        assert(sum_indices(drafts, p.drop_first()) == sum_indices(drafts, idxs.drop_first())
            + term);
        assert(sum_indices(drafts, p) == (match drafts[p[0] as int] {
            Some(d) => d.total_balance_spec(),
            None => 0,
        }) + sum_indices(drafts, p.drop_first()));
    }
}

/// The sum reads only the referenced slots: stores that agree on them sum
/// alike.
pub proof fn lemma_sum_agree(
    drafts1: Seq<Option<Draft>>,
    drafts2: Seq<Option<Draft>>,
    idxs: Seq<DraftIndex>,
)
    requires
        forall|k: int| 0 <= k < idxs.len() ==> drafts1[(#[trigger] idxs[k]) as int] == drafts2[idxs[k] as int],
    ensures
        sum_indices(drafts1, idxs) == sum_indices(drafts2, idxs),
    decreases idxs.len(),
{
    if idxs.len() > 0 {
        assert(forall|k: int|
            0 <= k < idxs.drop_first().len() ==> (#[trigger] idxs.drop_first()[k]) == idxs[k + 1]);
        lemma_sum_agree(drafts1, drafts2, idxs.drop_first());
    }
}

/// Every summand is nonnegative.
pub proof fn lemma_sum_nonneg(drafts: Seq<Option<Draft>>, idxs: Seq<DraftIndex>)
    ensures
        sum_indices(drafts, idxs) >= 0,
    decreases idxs.len(),
{
    if idxs.len() > 0 {
        lemma_sum_nonneg(drafts, idxs.drop_first());
    }
}

/// Removing position `pos` subtracts exactly that draft's total.
pub proof fn lemma_sum_remove(drafts: Seq<Option<Draft>>, idxs: Seq<DraftIndex>, pos: int)
    requires
        0 <= pos < idxs.len(),
    ensures
        sum_indices(drafts, idxs.remove(pos)) == sum_indices(drafts, idxs) - (match drafts[idxs[pos] as int] {
            Some(d) => d.total_balance_spec(),
            None => 0,
        }),
    decreases idxs.len(),
{
    if pos == 0 {
        assert(idxs.remove(0) =~= idxs.drop_first());
    } else {
        assert(idxs.remove(pos)[0] == idxs[0]);
        assert(idxs.remove(pos).drop_first() =~= idxs.drop_first().remove(pos - 1));
        assert(idxs.drop_first()[pos - 1] == idxs[pos]);
        lemma_sum_remove(drafts, idxs.drop_first(), pos - 1);
    }
}

/// The sum of a batch of drafts' amounts.
pub open spec fn amounts_sum(items: Seq<Draft>) -> int
    decreases items.len(),
{
    if items.len() == 0 {
        0
    } else {
        items[0].total_balance_spec() + amounts_sum(items.drop_first())
    }
}

/// A batch sum is nonnegative and grows with the batch.
pub proof fn lemma_amounts_sum_bounds(items: Seq<Draft>, k: int)
    requires
        0 <= k <= items.len(),
    ensures
        amounts_sum(items.take(k)) >= 0,
        amounts_sum(items.take(k)) <= amounts_sum(items),
    decreases items.len(),
{
    if items.len() == 0 {
        assert(items.take(k) =~= items);
    } else if k == 0 {
        assert(items.take(0) =~= Seq::<Draft>::empty());
        lemma_amounts_sum_bounds(items.drop_first(), items.len() - 1);
        assert(items.drop_first().take(items.len() - 1) =~= items.drop_first());
    } else {
        assert(items.take(k)[0] == items[0]);
        assert(items.take(k).drop_first() =~= items.drop_first().take(k - 1));
        lemma_amounts_sum_bounds(items.drop_first(), k - 1);
    }
}

/// Extending a batch by one draft adds its amount.
pub proof fn lemma_amounts_sum_take_step(items: Seq<Draft>, k: int)
    requires
        0 <= k < items.len(),
    ensures
        amounts_sum(items.take(k + 1)) == amounts_sum(items.take(k))
            + items[k].total_balance_spec(),
    decreases k,
{
    if k == 0 {
        assert(items.take(0) =~= Seq::<Draft>::empty());
        assert(items.take(1)[0] == items[0]);
        assert(items.take(1).drop_first() =~= Seq::<Draft>::empty());
    } else {
        assert(items.take(k + 1)[0] == items[0]);
        assert(items.take(k)[0] == items[0]);
        assert(items.take(k + 1).drop_first() =~= items.drop_first().take(k));
        assert(items.take(k).drop_first() =~= items.drop_first().take(k - 1));
        lemma_amounts_sum_take_step(items.drop_first(), k - 1);
        assert(items.drop_first()[k - 1] == items[k]);
    }
}

/// Law: the group's outstanding total covers each member draft's amount,
/// so converting a member can never drive the total negative.
pub proof fn lemma_sum_covers_member(drafts: Seq<Option<Draft>>, idxs: Seq<DraftIndex>, pos: int)
    requires
        0 <= pos < idxs.len(),
    ensures
        sum_indices(drafts, idxs) >= (match drafts[idxs[pos] as int] {
            Some(d) => d.total_balance_spec(),
            None => 0,
        }),
{
    lemma_sum_remove(drafts, idxs, pos);
    lemma_sum_nonneg(drafts, idxs.remove(pos));
}

} // verus!
