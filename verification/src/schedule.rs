use crate::error::Error;
use vstd::prelude::*;

verus! {

/// Schedule time, in whole seconds.
pub type TimestampSec = u32;

/// A token amount.
pub type Balance = u128;

/// One vertex of a piecewise-linear unlocking curve: at `timestamp`,
/// `balance` tokens are cumulatively unlocked.
#[derive(Clone, Copy, Debug)]
pub struct Checkpoint {
    pub timestamp: TimestampSec,
    pub balance: Balance,
}

/// An ordered sequence of checkpoints, non-decreasing in both timestamp and
/// balance. Between two checkpoints the unlocked balance is linearly
/// interpolated with truncating integer division; before the first checkpoint
/// it is the first checkpoint's balance, and at or after the last checkpoint
/// it is the last checkpoint's balance, which is also the schedule's total.
#[derive(Clone, Debug)]
pub struct Schedule(pub Vec<Checkpoint>);

/// Both fields are non-decreasing along the sequence.
pub open spec fn checkpoints_sorted(s: Seq<Checkpoint>) -> bool {
    forall|i: int, j: int|
        0 <= i <= j < s.len() ==> (#[trigger] s[i]).timestamp <= (#[trigger] s[j]).timestamp
            && s[i].balance <= s[j].balance
}

/// A schedule a lockup can carry: at least one checkpoint, sorted.
/// Termination may shrink a schedule to a single checkpoint.
pub open spec fn schedule_wf(s: Seq<Checkpoint>) -> bool {
    &&& s.len() >= 1
    &&& checkpoints_sorted(s)
}

/// What `assert_valid` accepts: at least two sorted checkpoints whose final
/// balance equals the expected total.
pub open spec fn schedule_valid(s: Seq<Checkpoint>, total: int) -> bool {
    &&& s.len() >= 2
    &&& checkpoints_sorted(s)
    &&& s.last().balance == total
}

/// The linearly interpolated balance at time `t` between checkpoints `c0`
/// and `c1`, with truncating division. Meaningful for
/// `c0.timestamp <= t < c1.timestamp`.
pub open spec fn interpolated(c0: Checkpoint, c1: Checkpoint, t: int) -> int {
    c0.balance + (c1.balance - c0.balance) * (t - c0.timestamp) / (c1.timestamp - c0.timestamp)
}

/// The cumulative balance the schedule unlocks by time `t`.
pub open spec fn unlocked_at(s: Seq<Checkpoint>, t: int) -> int
    decreases s.len(),
{
    if s.len() == 0 {
        0
    } else if t < s[0].timestamp {
        s[0].balance as int
    } else if s.len() == 1 {
        s[0].balance as int
    } else if t < s[1].timestamp {
        interpolated(s[0], s[1], t)
    } else {
        unlocked_at(s.drop_first(), t)
    }
}

/// Sortedness follows from each adjacent pair being ordered.
pub proof fn lemma_sorted_from_adjacent(s: Seq<Checkpoint>)
    requires
        forall|k: int|
            0 < k < s.len() ==> (#[trigger] s[k]).timestamp >= s[k - 1].timestamp && s[k].balance
                >= s[k - 1].balance,
    ensures
        checkpoints_sorted(s),
{
    assert forall|i: int, j: int| 0 <= i <= j < s.len() implies (#[trigger] s[i]).timestamp <= (
    #[trigger] s[j]).timestamp && s[i].balance <= s[j].balance by {
        lemma_sorted_pair(s, i, j);
    }
}

proof fn lemma_sorted_pair(s: Seq<Checkpoint>, i: int, j: int)
    requires
        forall|k: int|
            0 < k < s.len() ==> (#[trigger] s[k]).timestamp >= s[k - 1].timestamp && s[k].balance
                >= s[k - 1].balance,
        0 <= i <= j < s.len(),
    ensures
        s[i].timestamp <= s[j].timestamp,
        s[i].balance <= s[j].balance,
    decreases j - i,
{
    if i < j {
        lemma_sorted_pair(s, i, j - 1);
        assert(s[j].timestamp >= s[j - 1].timestamp);
    }
}

/// The lockup schedule `lockup` is nowhere ahead of the vesting schedule
/// `vesting`, sampled at every checkpoint timestamp of either schedule.
pub open spec fn valid_termination_schedule(
    lockup: Seq<Checkpoint>,
    vesting: Seq<Checkpoint>,
) -> bool {
    &&& forall|k: int|
        0 <= k < lockup.len() ==> unlocked_at(lockup, (#[trigger] lockup[k]).timestamp as int)
            <= unlocked_at(vesting, lockup[k].timestamp as int)
    &&& forall|k: int|
        0 <= k < vesting.len() ==> unlocked_at(lockup, (#[trigger] vesting[k]).timestamp as int)
            <= unlocked_at(vesting, vesting[k].timestamp as int)
}

/// Splitting `a` into `dd * (a / dd) + a % dd` computes `a * d / dd` as
/// `(a / dd) * d + (a % dd) * d / dd`, keeping every intermediate value
/// at or below `a * d / dd`'s own bound.
proof fn lemma_div_mul_split(a: int, d: int, dd: int)
    requires
        0 <= a,
        0 <= d,
        0 < dd,
    ensures
        a / dd * d + a % dd * d / dd == a * d / dd,
        0 <= a / dd * d,
        0 <= a % dd * d / dd,
{
    let q = a / dd;
    let rem = a % dd;
    vstd::arithmetic::div_mod::lemma_fundamental_div_mod(a, dd);
    vstd::arithmetic::div_mod::lemma_mod_bound(a, dd);
    vstd::arithmetic::div_mod::lemma_div_pos_is_pos(a, dd);
    assert(a * d == (dd * q + rem) * d);
    vstd::arithmetic::mul::lemma_mul_is_distributive_add_other_way(d, dd * q, rem);
    assert((dd * q + rem) * d == (dd * q) * d + rem * d);
    vstd::arithmetic::mul::lemma_mul_is_associative(dd, q, d);
    assert(a * d == dd * (q * d) + rem * d);
    vstd::arithmetic::div_mod::lemma_hoist_over_denominator(rem * d, q * d, dd as nat);
    assert(rem * d / dd + q * d == (rem * d + q * d * dd) / dd);
    vstd::arithmetic::mul::lemma_mul_is_commutative(q * d, dd);
    vstd::arithmetic::mul::lemma_mul_nonnegative(q, d);
    vstd::arithmetic::mul::lemma_mul_nonnegative(rem, d);
    vstd::arithmetic::div_mod::lemma_div_pos_is_pos(rem * d, dd);
}

/// With `d <= dd`, the interpolation offset `a * d / dd` never exceeds `a`.
proof fn lemma_div_mul_le(a: int, d: int, dd: int)
    requires
        0 <= a,
        0 <= d <= dd,
        0 < dd,
    ensures
        0 <= a * d / dd <= a,
{
    vstd::arithmetic::mul::lemma_mul_inequality(d, dd, a);
    vstd::arithmetic::mul::lemma_mul_is_commutative(d, a);
    vstd::arithmetic::mul::lemma_mul_is_commutative(dd, a);
    vstd::arithmetic::div_mod::lemma_multiply_divide_le(a * d, dd, a);
    vstd::arithmetic::mul::lemma_mul_nonnegative(a, d);
    vstd::arithmetic::div_mod::lemma_div_pos_is_pos(a * d, dd);
}

/// The interpolation offset grows with the elapsed time `d`.
proof fn lemma_div_mul_mono(a: int, d1: int, d2: int, dd: int)
    requires
        0 <= a,
        0 <= d1 <= d2,
        0 < dd,
    ensures
        a * d1 / dd <= a * d2 / dd,
{
    vstd::arithmetic::mul::lemma_mul_inequality(d1, d2, a);
    vstd::arithmetic::mul::lemma_mul_is_commutative(d1, a);
    vstd::arithmetic::mul::lemma_mul_is_commutative(d2, a);
    vstd::arithmetic::div_mod::lemma_div_is_ordered(a * d1, a * d2, dd);
}

/// Ceiling division, for a nonnegative dividend and a positive divisor.
pub open spec fn ceil_div(a: int, b: int) -> int {
    (a + b - 1) / b
}

/// The synthetic checkpoint that closes a truncated schedule: the first
/// time at which the segment from `c0` to `c1` reaches balance `fin`.
pub open spec fn crossing_checkpoint(c0: Checkpoint, c1: Checkpoint, fin: int) -> Checkpoint {
    Checkpoint {
        timestamp: (c0.timestamp + ceil_div(
            (fin - c0.balance) * (c1.timestamp - c0.timestamp),
            c1.balance - c0.balance,
        )) as u32,
        balance: fin as u128,
    }
}

/// The unlocked-by-`fin` portion of a schedule: all checkpoints strictly
/// below `fin` are kept, the first checkpoint at or above `fin` either
/// closes the schedule (when its balance is exactly `fin`) or is replaced
/// by the synthetic crossing checkpoint.
pub open spec fn terminated(s: Seq<Checkpoint>, fin: int) -> Seq<Checkpoint>
    decreases s.len(),
{
    if s.len() == 0 {
        s
    } else if s[0].balance >= fin {
        seq![s[0]]
    } else if s.len() == 1 {
        s
    } else if s[1].balance >= fin {
        if s[1].balance == fin {
            seq![s[0], s[1]]
        } else {
            seq![s[0], crossing_checkpoint(s[0], s[1], fin)]
        }
    } else {
        seq![s[0]] + terminated(s.drop_first(), fin)
    }
}

/// A quotient is at least `x` exactly when the dividend is at least `x`
/// times the divisor.
proof fn lemma_reach_iff(da: int, dtt: int, d: int, x: int)
    requires
        0 < dtt,
        0 <= da,
        0 <= d,
        0 <= x,
    ensures
        (da * d / dtt >= x) <==> (da * d >= x * dtt),
{
    vstd::arithmetic::mul::lemma_mul_nonnegative(da, d);
    if da * d >= x * dtt {
        vstd::arithmetic::div_mod::lemma_div_is_ordered(x * dtt, da * d, dtt);
        vstd::arithmetic::div_mod::lemma_div_by_multiple(x, dtt);
    }
    if da * d / dtt >= x {
        vstd::arithmetic::div_mod::lemma_fundamental_div_mod(da * d, dtt);
        vstd::arithmetic::div_mod::lemma_mod_bound(da * d, dtt);
        vstd::arithmetic::mul::lemma_mul_inequality(x, da * d / dtt, dtt);
        vstd::arithmetic::mul::lemma_mul_is_commutative(x, dtt);
        vstd::arithmetic::mul::lemma_mul_is_commutative(da * d / dtt, dtt);
    }
}

/// The value pinned between `b * (c - 1) < a <= b * c` is the ceiling of
/// `a / b`.
proof fn lemma_ceil_div_unique(a: int, b: int, c: int)
    requires
        0 < b,
        0 <= a,
        b * c >= a,
        b * (c - 1) < a,
    ensures
        c == ceil_div(a, b),
{
    vstd::arithmetic::div_mod::lemma_div_is_ordered(a + b - 1, b * c + b - 1, b);
    vstd::arithmetic::div_mod::lemma_hoist_over_denominator(b - 1, c, b as nat);
    vstd::arithmetic::mul::lemma_mul_is_commutative(b, c);
    vstd::arithmetic::div_mod::lemma_basic_div(b - 1, b);
    assert((b * c + b - 1) / b == c);
    assert(b * (c - 1) + b <= a + b - 1);
    vstd::arithmetic::mul::lemma_mul_is_distributive_sub(b, c, 1);
    assert(b * c <= a + b - 1);
    vstd::arithmetic::div_mod::lemma_div_is_ordered(b * c, a + b - 1, b);
    vstd::arithmetic::mul::lemma_mul_is_commutative(c, b);
    vstd::arithmetic::div_mod::lemma_div_by_multiple(c, b);
}

/// An upper bound on a ceiling quotient.
proof fn lemma_ceil_div_bounds(a: int, b: int, ub: int)
    requires
        0 < b,
        0 <= a,
        a <= b * ub,
        0 <= ub,
    ensures
        0 <= ceil_div(a, b) <= ub,
{
    vstd::arithmetic::div_mod::lemma_div_pos_is_pos(a + b - 1, b);
    vstd::arithmetic::div_mod::lemma_div_is_ordered(a + b - 1, b * ub + b - 1, b);
    vstd::arithmetic::div_mod::lemma_hoist_over_denominator(b - 1, ub, b as nat);
    vstd::arithmetic::mul::lemma_mul_is_commutative(b, ub);
    vstd::arithmetic::div_mod::lemma_basic_div(b - 1, b);
}

/// Whether the segment with balance delta `da` over duration `dtt` has
/// reached offset `x` after `d` elapsed seconds, that is, whether
/// `da * d / dtt >= x`; computed without overflow by splitting `da` around
/// the divisor.
fn reaches(da: Balance, dtt: TimestampSec, d: TimestampSec, x: Balance) -> (r: bool)
    requires
        0 < dtt,
        d <= dtt,
    ensures
        r == (da as int * (d as int) / (dtt as int) >= x),
{
    let dd: u128 = dtt as u128;
    let dw: u128 = d as u128;
    proof {
        lemma_div_mul_split(da as int, dw as int, dd as int);
        lemma_div_mul_le(da as int, dw as int, dd as int);
        vstd::arithmetic::div_mod::lemma_fundamental_div_mod(da as int, dd as int);
        vstd::arithmetic::div_mod::lemma_mod_bound(da as int, dd as int);
        vstd::arithmetic::mul::lemma_mul_inequality(dw as int, dd as int, (da / dd) as int);
        vstd::arithmetic::mul::lemma_mul_is_commutative(dw as int, (da / dd) as int);
        vstd::arithmetic::mul::lemma_mul_is_commutative(dd as int, (da / dd) as int);
        vstd::arithmetic::mul::lemma_mul_upper_bound(
            (da % dd) as int,
            0xffff_ffff,
            dw as int,
            0xffff_ffff,
        );
    }
    let q: u128 = da / dd;
    let rem: u128 = da % dd;
    let v: u128 = q * dw + rem * dw / dd;
    v >= x
}

/// The smallest number of seconds after a segment's start at which it
/// reaches balance offset `x`: the ceiling of `x * dtt / da`. Found by
/// binary search over the segment's duration.
fn crossing_offset(x: Balance, da: Balance, dtt: TimestampSec) -> (off: TimestampSec)
    requires
        0 < x < da,
    ensures
        off as int == ceil_div(x as int * (dtt as int), da as int),
        off <= dtt,
{
    if dtt == 0 {
        proof {
            vstd::arithmetic::div_mod::lemma_basic_div(da as int - 1, da as int);
        }
        return 0;
    }
    let mut lo: u32 = 0;
    let mut hi: u32 = dtt;
    proof {
        vstd::arithmetic::mul::lemma_mul_inequality(x as int, da as int, dtt as int);
        vstd::arithmetic::mul::lemma_mul_is_commutative(x as int, dtt as int);
        vstd::arithmetic::mul::lemma_mul_is_commutative(da as int, dtt as int);
        lemma_reach_iff(da as int, dtt as int, dtt as int, x as int);
        vstd::arithmetic::mul::lemma_mul_by_zero_is_zero(da as int);
        vstd::arithmetic::div_mod::lemma_div_of0(dtt as int);
    }
    while hi - lo > 1
        invariant
            0 <= lo < hi <= dtt,
            0 < x < da,
            0 < dtt,
            da as int * (hi as int) / (dtt as int) >= x,
            da as int * (lo as int) / (dtt as int) < x,
        decreases hi - lo,
    {
        let mid = lo + (hi - lo) / 2;
        if reaches(da, dtt, mid, x) {
            hi = mid;
        } else {
            lo = mid;
        }
    }
    proof {
        lemma_reach_iff(da as int, dtt as int, hi as int, x as int);
        lemma_reach_iff(da as int, dtt as int, hi as int - 1, x as int);
        vstd::arithmetic::mul::lemma_mul_is_commutative(da as int, hi as int);
        vstd::arithmetic::mul::lemma_mul_is_commutative(da as int, hi as int - 1);
        lemma_ceil_div_unique(x as int * (dtt as int), da as int, hi as int);
    }
    hi
}

/// Computes `interpolated(c0, c1, t)` exactly in 128-bit arithmetic by
/// splitting the balance delta around the duration divisor.
fn interpolate(c0: Checkpoint, c1: Checkpoint, t: TimestampSec) -> (r: Balance)
    requires
        c0.timestamp <= t < c1.timestamp,
        c0.balance <= c1.balance,
    ensures
        r as int == interpolated(c0, c1, t as int),
        c0.balance <= r <= c1.balance,
{
    let a: u128 = c1.balance - c0.balance;
    let dd: u128 = (c1.timestamp - c0.timestamp) as u128;
    let d: u128 = (t - c0.timestamp) as u128;
    proof {
        lemma_div_mul_split(a as int, d as int, dd as int);
        lemma_div_mul_le(a as int, d as int, dd as int);
        vstd::arithmetic::div_mod::lemma_fundamental_div_mod(a as int, dd as int);
        vstd::arithmetic::div_mod::lemma_mod_bound(a as int, dd as int);
        vstd::arithmetic::mul::lemma_mul_inequality(d as int, dd as int, (a / dd) as int);
        vstd::arithmetic::mul::lemma_mul_is_commutative(d as int, (a / dd) as int);
        vstd::arithmetic::mul::lemma_mul_is_commutative(dd as int, (a / dd) as int);
        vstd::arithmetic::mul::lemma_mul_upper_bound(
            (a % dd) as int,
            0xffff_fffe,
            d as int,
            0xffff_fffe,
        );
    }
    let q: u128 = a / dd;
    let rem: u128 = a % dd;
    let part1: u128 = q * d;
    let part2: u128 = rem * d / dd;
    c0.balance + part1 + part2
}

/// Law: at every time, the unlocked balance lies between the first
/// checkpoint's balance and the schedule's total.
pub proof fn lemma_unlocked_bounds(s: Seq<Checkpoint>, t: int)
    requires
        schedule_wf(s),
    ensures
        s[0].balance <= unlocked_at(s, t) <= s.last().balance,
    decreases s.len(),
{
    if t < s[0].timestamp {
    } else if s.len() == 1 {
    } else if t < s[1].timestamp {
        let a = s[1].balance - s[0].balance;
        let dd = s[1].timestamp - s[0].timestamp;
        let d = t - s[0].timestamp;
        lemma_div_mul_le(a, d, dd);
        assert(s[1].balance <= s.last().balance);
    } else {
        lemma_sorted_drop_first(s);
        lemma_unlocked_bounds(s.drop_first(), t);
        assert(s.drop_first()[0] == s[1]);
        assert(s.drop_first().last() == s.last());
    }
}

/// Law: the unlocked balance is monotonically non-decreasing in time.
pub proof fn lemma_unlocked_monotonic(s: Seq<Checkpoint>, t1: int, t2: int)
    requires
        schedule_wf(s),
        t1 <= t2,
    ensures
        unlocked_at(s, t1) <= unlocked_at(s, t2),
    decreases s.len(),
{
    if t1 < s[0].timestamp {
        lemma_unlocked_bounds(s, t2);
    } else if s.len() == 1 {
    } else if t1 < s[1].timestamp {
        let a = s[1].balance - s[0].balance;
        let dd = s[1].timestamp - s[0].timestamp;
        if t2 < s[1].timestamp {
            lemma_div_mul_mono(a, t1 - s[0].timestamp, t2 - s[0].timestamp, dd);
        } else {
            lemma_div_mul_le(a, t1 - s[0].timestamp, dd);
            lemma_sorted_drop_first(s);
            lemma_unlocked_bounds(s.drop_first(), t2);
            assert(s.drop_first()[0] == s[1]);
        }
    } else {
        lemma_sorted_drop_first(s);
        lemma_unlocked_monotonic(s.drop_first(), t1, t2);
    }
}

/// Law: truncating a schedule at the balance it has unlocked by `cutoff`
/// leaves a schedule that unlocks exactly that balance at `cutoff`; the
/// amount reported as unvested is therefore the old total minus the new
/// unlocked balance at the cutoff.
pub proof fn lemma_terminate_round_trip(s: Seq<Checkpoint>, cutoff: int)
    requires
        schedule_wf(s),
    ensures
        unlocked_at(terminated(s, unlocked_at(s, cutoff)), cutoff) == unlocked_at(s, cutoff),
    decreases s.len(),
{
    let fin = unlocked_at(s, cutoff);
    lemma_unlocked_bounds(s, cutoff);
    let r = terminated(s, fin);
    if cutoff < s[0].timestamp {
        assert(r =~= seq![s[0]]);
    } else if s.len() == 1 {
        assert(r =~= seq![s[0]]);
    } else if cutoff < s[1].timestamp {
        let a = s[1].balance - s[0].balance;
        let dd = s[1].timestamp - s[0].timestamp;
        let d = cutoff - s[0].timestamp;
        let x = fin - s[0].balance;
        assert(x == a * d / dd);
        if fin == s[0].balance {
            assert(r =~= seq![s[0]]);
        } else {
            assert(a > 0) by {
                if a == 0 {
                    vstd::arithmetic::mul::lemma_mul_by_zero_is_zero(d);
                    vstd::arithmetic::div_mod::lemma_div_of0(dd);
                }
            }
            assert(fin < s[1].balance) by {
                lemma_reach_iff(a, dd, d, a);
                vstd::arithmetic::mul::lemma_mul_strict_inequality(d, dd, a);
                vstd::arithmetic::mul::lemma_mul_is_commutative(d, a);
                vstd::arithmetic::mul::lemma_mul_is_commutative(dd, a);
            }
            let cross = crossing_checkpoint(s[0], s[1], fin);
            assert(r =~= seq![s[0], cross]);
            assert(cross.timestamp <= cutoff) by {
                vstd::arithmetic::div_mod::lemma_fundamental_div_mod(a * d, dd);
                vstd::arithmetic::div_mod::lemma_mod_bound(a * d, dd);
                vstd::arithmetic::mul::lemma_mul_is_commutative(x, dd);
                vstd::arithmetic::mul::lemma_mul_nonnegative(x, dd);
                lemma_ceil_div_bounds(x * dd, a, d);
            }
            assert(r.drop_first() =~= seq![cross]);
            assert(cross.balance == fin as u128);
            assert(r[1].timestamp <= cutoff);
            assert(unlocked_at(r, cutoff) == unlocked_at(seq![cross], cutoff));
            assert(unlocked_at(seq![cross], cutoff) == cross.balance as int);
        }
    } else {
        let tail = s.drop_first();
        lemma_sorted_drop_first(s);
        lemma_unlocked_bounds(tail, cutoff);
        lemma_terminate_round_trip(tail, cutoff);
        assert(tail[0] == s[1]);
        assert(tail.last() == s.last());
        if s[0].balance >= fin {
            assert(r =~= seq![s[0]]);
            assert(fin == s[0].balance);
        } else if s[1].balance >= fin {
            assert(fin == s[1].balance);
            assert(r =~= seq![s[0], s[1]]);
            assert(r.drop_first() =~= seq![s[1]]);
        } else {
            lemma_terminated_wf(tail, fin);
            let rt = terminated(tail, fin);
            assert(r =~= seq![s[0]] + rt);
            assert(r.len() >= 2);
            assert(r[1] == rt[0]);
            assert(rt[0] == s[1]);
            assert(r.drop_first() =~= rt);
            assert(unlocked_at(r, cutoff) == unlocked_at(rt, cutoff));
        }
    }
}

/// Dropping the first checkpoint keeps the sequence sorted.
proof fn lemma_sorted_drop_first(s: Seq<Checkpoint>)
    requires
        checkpoints_sorted(s),
        s.len() >= 1,
    ensures
        checkpoints_sorted(s.drop_first()),
{
    assert forall|i: int, j: int| 0 <= i <= j < s.drop_first().len() implies (#[trigger] s.drop_first()[i]).timestamp
        <= (#[trigger] s.drop_first()[j]).timestamp && s.drop_first()[i].balance
        <= s.drop_first()[j].balance by {
        assert(s.drop_first()[i] == s[i + 1]);
        assert(s.drop_first()[j] == s[j + 1]);
    }
}

/// `terminated` in terms of the first index `i` whose balance reaches
/// `fin`: the schedule is cut there, either exactly at checkpoint `i` or
/// at the synthetic crossing checkpoint inside segment `i-1 .. i`.
proof fn lemma_terminated_take(s: Seq<Checkpoint>, fin: int, i: int)
    requires
        0 <= i < s.len(),
        forall|j: int| 0 <= j < i ==> (#[trigger] s[j]).balance < fin,
        s[i].balance >= fin,
        s[0].balance <= fin,
    ensures
        s[i].balance == fin ==> terminated(s, fin) == s.take(i + 1),
        s[i].balance > fin ==> i >= 1 && terminated(s, fin) == s.take(i).push(
            crossing_checkpoint(s[i - 1], s[i], fin),
        ),
    decreases s.len(),
{
    if i == 0 {
        assert(s[0].balance == fin);
        assert(terminated(s, fin) =~= s.take(1));
    } else {
        assert(s[0].balance < fin);
        if s[1].balance >= fin {
            assert(i == 1);
            if s[1].balance == fin {
                assert(terminated(s, fin) =~= s.take(2));
            } else {
                assert(terminated(s, fin) =~= s.take(1).push(
                    crossing_checkpoint(s[0], s[1], fin),
                ));
            }
        } else {
            let tail = s.drop_first();
            assert(s[1].balance < fin);
            assert(i >= 2);
            assert(forall|j: int| 0 <= j < i - 1 ==> (#[trigger] tail[j]).balance < fin) by {
                assert(forall|j: int|
                    0 <= j < i - 1 ==> (#[trigger] tail[j]) == s[j + 1]);
            }
            assert(tail[i - 1] == s[i]);
            lemma_terminated_take(tail, fin, i - 1);
            if s[i].balance == fin {
                assert(terminated(s, fin) =~= s.take(i + 1));
            } else {
                assert(tail[i - 2] == s[i - 1]);
                assert(terminated(s, fin) =~= s.take(i).push(
                    crossing_checkpoint(s[i - 1], s[i], fin),
                ));
            }
        }
    }
}

/// Truncation keeps the schedule well formed, starts it at the original
/// first checkpoint, and makes `fin` its total.
pub proof fn lemma_terminated_wf(s: Seq<Checkpoint>, fin: int)
    requires
        schedule_wf(s),
        s[0].balance <= fin <= s.last().balance,
    ensures
        schedule_wf(terminated(s, fin)),
        terminated(s, fin)[0] == s[0],
        terminated(s, fin).last().balance == fin,
        terminated(s, fin).last().timestamp <= s.last().timestamp,
    decreases s.len(),
{
    let r = terminated(s, fin);
    if s[0].balance >= fin {
        assert(r =~= seq![s[0]]);
    } else if s.len() == 1 {
        assert(false);
    } else if s[1].balance >= fin {
        if s[1].balance == fin {
            assert(r =~= seq![s[0], s[1]]);
        } else {
            let x = fin - s[0].balance;
            let da = s[1].balance - s[0].balance;
            let dtt = s[1].timestamp - s[0].timestamp;
            vstd::arithmetic::mul::lemma_mul_inequality(x, da, dtt);
            vstd::arithmetic::mul::lemma_mul_is_commutative(x, dtt);
            vstd::arithmetic::mul::lemma_mul_is_commutative(da, dtt);
            vstd::arithmetic::mul::lemma_mul_nonnegative(x, dtt);
            lemma_ceil_div_bounds(x * dtt, da, dtt);
            assert(r =~= seq![s[0], crossing_checkpoint(s[0], s[1], fin)]);
            assert(r.last().timestamp <= s[1].timestamp);
        }
    } else {
        let tail = s.drop_first();
        lemma_sorted_drop_first(s);
        assert(tail.last() == s.last());
        lemma_terminated_wf(tail, fin);
        let rt = terminated(tail, fin);
        assert(r =~= seq![s[0]] + rt);
        assert forall|i: int, j: int| 0 <= i <= j < r.len() implies (#[trigger] r[i]).timestamp
            <= (#[trigger] r[j]).timestamp && r[i].balance <= r[j].balance by {
            if 0 < j {
                assert(r[j] == rt[j - 1]);
                assert(rt[0] == s[1]);
                if i == 0 {
                    assert(r[i] == s[0]);
                } else {
                    assert(r[i] == rt[i - 1]);
                }
            }
        }
    }
}

impl View for Schedule {
    type V = Seq<Checkpoint>;

    open spec fn view(&self) -> Seq<Checkpoint> {
        self.0@
    }
}

impl Schedule {
    /// A schedule a lockup can carry.
    pub open spec fn wf(&self) -> bool {
        schedule_wf(self@)
    }

    /// A schedule that unlocks `total_balance` immediately: its unlock
    /// interval is already over at any queried time.
    pub fn new_unlocked(total_balance: Balance) -> (r: Schedule)
        ensures
            r@.len() == 2,
            r@[0] == (Checkpoint { timestamp: 0u32, balance: 0u128 }),
            r@[1] == (Checkpoint { timestamp: 1u32, balance: total_balance }),
            schedule_valid(r@, total_balance as int),
            r.wf(),
    {
        let v: Vec<Checkpoint> = vec![
            Checkpoint { timestamp: 0, balance: 0 },
            Checkpoint { timestamp: 1, balance: total_balance },
        ];
        Schedule(v)
    }

    /// The schedule's total: the last checkpoint's balance.
    pub fn total_balance(&self) -> (r: Balance)
        requires
            self.wf(),
        ensures
            r == self@.last().balance,
    {
        self.0[self.0.len() - 1].balance
    }

    /// The cumulative balance unlocked by `current_timestamp`: the first
    /// checkpoint's balance before the first checkpoint, the last
    /// checkpoint's balance at or after the last one, and in between the
    /// linear interpolation (with truncating division) over the bracketing
    /// pair of checkpoints.
    #[verifier::rlimit(30)]
    pub fn unlocked_balance(&self, current_timestamp: TimestampSec) -> (r: Balance)
        requires
            self.wf(),
        ensures
            r as int == unlocked_at(self@, current_timestamp as int),
    {
        let ghost t = current_timestamp as int;
        let n = self.0.len();
        if current_timestamp < self.0[0].timestamp {
            return self.0[0].balance;
        }
        let mut i: usize = 0;
        proof {
            assert(self@.skip(0) =~= self@);
        }
        while i + 1 < n && self.0[i + 1].timestamp <= current_timestamp
            invariant
                0 <= i < n,
                n == self.0.len(),
                self.wf(),
                self.0@[i as int].timestamp <= current_timestamp,
                unlocked_at(self@, t) == unlocked_at(self@.skip(i as int), t),
                t == current_timestamp as int,
            decreases n - i,
        {
            proof {
                assert(self@.skip(i as int).drop_first() =~= self@.skip(i as int + 1));
            }
            i += 1;
        }
        if i + 1 == n {
            self.0[i].balance
        } else {
            interpolate(self.0[i], self.0[i + 1], current_timestamp)
        }
    }

    /// Accepts exactly the well-formed schedules whose final balance is
    /// `total_balance`: at least two checkpoints, both fields non-decreasing.
    pub fn assert_valid(&self, total_balance: Balance) -> (r: Result<(), Error>)
        ensures
            r is Ok <==> schedule_valid(self@, total_balance as int),
            r is Err ==> r->Err_0 == Error::InvalidSchedule,
    {
        let n = self.0.len();
        if n < 2 {
            return Err(Error::InvalidSchedule);
        }
        let mut k: usize = 1;
        while k < n
            invariant
                1 <= k <= n,
                n == self.0.len(),
                forall|m: int|
                    0 < m < k ==> (#[trigger] self.0@[m]).timestamp >= self.0@[m - 1].timestamp
                        && self.0@[m].balance >= self.0@[m - 1].balance,
            decreases n - k,
        {
            if self.0[k].timestamp < self.0[k - 1].timestamp || self.0[k].balance < self.0[k
                - 1].balance {
                return Err(Error::InvalidSchedule);
            }
            k += 1;
        }
        proof {
            lemma_sorted_from_adjacent(self@);
        }
        if self.0[n - 1].balance != total_balance {
            return Err(Error::InvalidSchedule);
        }
        Ok(())
    }

    /// Accepts `termination_schedule` as a vesting bound for this (lockup)
    /// schedule: at every checkpoint timestamp of either schedule, the
    /// lockup schedule must not be ahead of the vesting schedule.
    pub fn assert_valid_termination_schedule(&self, termination_schedule: &Schedule) -> (r: Result<
        (),
        Error,
    >)
        requires
            self.wf(),
            termination_schedule.wf(),
        ensures
            r is Ok <==> valid_termination_schedule(self@, termination_schedule@),
            r is Err ==> r->Err_0 == Error::IncompatibleVestingSchedule,
    {
        let mut k: usize = 0;
        let n = self.0.len();
        while k < n
            invariant
                0 <= k <= n,
                n == self.0.len(),
                self.wf(),
                termination_schedule.wf(),
                forall|m: int|
                    0 <= m < k ==> unlocked_at(self@, (#[trigger] self@[m]).timestamp as int)
                        <= unlocked_at(termination_schedule@, self@[m].timestamp as int),
            decreases n - k,
        {
            let t = self.0[k].timestamp;
            if self.unlocked_balance(t) > termination_schedule.unlocked_balance(t) {
                return Err(Error::IncompatibleVestingSchedule);
            }
            k += 1;
        }
        let mut k: usize = 0;
        let n = termination_schedule.0.len();
        while k < n
            invariant
                0 <= k <= n,
                n == termination_schedule.0.len(),
                self.wf(),
                termination_schedule.wf(),
                forall|m: int|
                    0 <= m < k ==> unlocked_at(
                        self@,
                        (#[trigger] termination_schedule@[m]).timestamp as int,
                    ) <= unlocked_at(
                        termination_schedule@,
                        termination_schedule@[m].timestamp as int,
                    ),
            decreases n - k,
        {
            let t = termination_schedule.0[k].timestamp;
            if self.unlocked_balance(t) > termination_schedule.unlocked_balance(t) {
                return Err(Error::IncompatibleVestingSchedule);
            }
            k += 1;
        }
        Ok(())
    }

    /// Truncates the schedule to the portion that unlocks no more than
    /// `finish_balance` and returns the amount cut off. All checkpoints at
    /// balances strictly above `finish_balance` are dropped; where
    /// `finish_balance` falls strictly inside a segment, a synthetic
    /// checkpoint at the segment's first crossing time closes the schedule.
    pub fn terminate(&mut self, finish_balance: Balance) -> (unvested: Balance)
        requires
            old(self).wf(),
            old(self)@[0].balance <= finish_balance <= old(self)@.last().balance,
        ensures
            final(self)@ == terminated(old(self)@, finish_balance as int),
            unvested == old(self)@.last().balance - finish_balance,
            final(self).wf(),
            final(self)@.last().balance == finish_balance,
    {
        let ghost s = self@;
        let ghost fin = finish_balance as int;
        let n = self.0.len();
        let total = self.0[n - 1].balance;
        let mut i: usize = 0;
        while self.0[i].balance < finish_balance
            invariant
                0 <= i < n,
                n == self.0.len(),
                self@ == s,
                schedule_wf(s),
                s.last().balance >= finish_balance,
                forall|j: int| 0 <= j < i ==> (#[trigger] s[j]).balance < finish_balance,
            decreases n - i,
        {
            proof {
                if i + 1 == n {
                    assert(s[i as int] == s.last());
                    assert(false);
                }
            }
            i += 1;
        }
        proof {
            lemma_terminated_take(s, fin, i as int);
            lemma_terminated_wf(s, fin);
        }
        let unvested = total - finish_balance;
        if self.0[i].balance == finish_balance {
            self.0.truncate(i + 1);
            proof {
                assert(self@ =~= s.take(i + 1));
            }
        } else {
            let c0 = self.0[i - 1];
            let c1 = self.0[i];
            let off = crossing_offset(finish_balance - c0.balance, c1.balance - c0.balance, c1
                .timestamp - c0.timestamp);
            self.0.truncate(i);
            self.0.push(Checkpoint { timestamp: c0.timestamp + off, balance: finish_balance });
            proof {
                assert(self@ =~= s.take(i as int).push(
                    crossing_checkpoint(s[i as int - 1], s[i as int], fin),
                ));
            }
        }
        unvested
    }
}

} // verus!
