use vstd::prelude::*;

verus! {

/// Why an operation was rejected. Every rejected operation leaves the
/// contract state exactly as it was before the call.
#[derive(Clone, Copy, Debug, PartialEq, Eq, Structural)]
pub enum Error {
    /// A referenced lockup index is absent.
    LockupNotFound,
    /// A referenced draft group index is absent.
    DraftGroupNotFound,
    /// A referenced draft index is absent (never created, or already converted).
    DraftNotFound,
    /// The caller is not in the deposit whitelist.
    NotInDepositWhitelist,
    /// The caller is not the configured terminator of the lockup.
    Unauthorized,
    /// The lockup has no termination configuration.
    NoTerminationConfig,
    /// The revealed vesting schedule does not hash to the committed digest,
    /// or no schedule was revealed although a digest was committed.
    HashMismatch,
    /// The lockup schedule unlocks more than the vesting schedule at some
    /// checkpoint timestamp of either schedule.
    IncompatibleVestingSchedule,
    /// The schedule is malformed: fewer than two checkpoints, a decreasing
    /// timestamp or balance, or a final balance that differs from the
    /// expected total.
    InvalidSchedule,
    /// A fresh lockup carried a nonzero claimed balance.
    ClaimedBalanceNotZero,
    /// The draft group is already funded, so it accepts no further drafts
    /// and no further funding.
    GroupAlreadyFunded,
    /// The draft group is not funded yet, so its drafts cannot be converted.
    GroupNotFunded,
    /// The transferred amount differs from the draft group's accumulated total.
    FundingAmountMismatch,
    /// The requested claim amount differs from the currently unclaimed balance.
    ClaimAmountMismatch,
    /// The requested termination timestamp lies in the past.
    TerminationTimestampInPast,
    /// An internal consistency violation: the operation is aborted rather
    /// than clamped.
    Invariant,
}

impl Error {
    /// The wording of each rejection, as a caller-facing message.
    pub open spec fn spec_message(self) -> Seq<char> {
        match self {
            Error::LockupNotFound => "Lockup not found"@,
            Error::DraftGroupNotFound => "draft group not found"@,
            Error::DraftNotFound => "draft not found"@,
            Error::NotInDepositWhitelist => "Not in deposit whitelist"@,
            Error::Unauthorized => "Unauthorized"@,
            Error::NoTerminationConfig => "No termination config"@,
            Error::HashMismatch => "The revealed schedule hash doesn't match"@,
            Error::IncompatibleVestingSchedule => "The lockup schedule is ahead of the termination schedule"@,
            Error::InvalidSchedule => "Invalid schedule"@,
            Error::ClaimedBalanceNotZero => "The initial lockup claimed balance should be 0"@,
            Error::GroupAlreadyFunded => "group already funded"@,
            Error::GroupNotFunded => "not funded group"@,
            Error::FundingAmountMismatch => "The draft group total balance doesn't match the transferred balance"@,
            Error::ClaimAmountMismatch => "Invalid claim amount"@,
            Error::TerminationTimestampInPast => "expected termination_timestamp >= now"@,
            Error::Invariant => "Invariant"@,
        }
    }

    /// The message of this rejection.
    pub fn message(&self) -> (r: &'static str)
        ensures
            r@ == self.spec_message(),
    {
        match self {
            Error::LockupNotFound => "Lockup not found",
            Error::DraftGroupNotFound => "draft group not found",
            Error::DraftNotFound => "draft not found",
            Error::NotInDepositWhitelist => "Not in deposit whitelist",
            Error::Unauthorized => "Unauthorized",
            Error::NoTerminationConfig => "No termination config",
            Error::HashMismatch => "The revealed schedule hash doesn't match",
            Error::IncompatibleVestingSchedule => "The lockup schedule is ahead of the termination schedule",
            Error::InvalidSchedule => "Invalid schedule",
            Error::ClaimedBalanceNotZero => "The initial lockup claimed balance should be 0",
            Error::GroupAlreadyFunded => "group already funded",
            Error::GroupNotFunded => "not funded group",
            Error::FundingAmountMismatch => "The draft group total balance doesn't match the transferred balance",
            Error::ClaimAmountMismatch => "Invalid claim amount",
            Error::TerminationTimestampInPast => "expected termination_timestamp >= now",
            Error::Invariant => "Invariant",
        }
    }
}

} // verus!
