use crate::lockup::AccountId;
use crate::schedule::{Checkpoint, Schedule};
use sha2::Digest;
use vstd::bytes::{spec_u128_to_le_bytes, spec_u32_to_le_bytes, spec_u64_to_le_bytes};
use vstd::bytes::{u128_to_le_bytes, u32_to_le_bytes, u64_to_le_bytes};
use vstd::prelude::*;

verus! {

/// The vesting bound a termination is committed to: either the plaintext
/// schedule, or a digest of it to be revealed only at termination time.
#[derive(Clone, Debug)]
pub enum HashOrSchedule {
    Hash(Vec<u8>),
    Schedule(Schedule),
}

/// Who may terminate a lockup, to whom the recovered amount flows, and the
/// optional vesting bound on how much of the lockup may ever vest.
#[derive(Clone, Debug)]
pub struct TerminationConfig {
    /// The one account authorized to terminate the lockup.
    pub terminator_id: AccountId,
    /// The account the recovered amount is paid to; the terminator when
    /// absent. Conversion of a draft fills it with the group's payer.
    pub payer_id: Option<AccountId>,
    /// The vesting bound, or none to truncate purely by the lockup's own
    /// schedule.
    pub vesting_schedule: Option<HashOrSchedule>,
}

/// The byte encoding of one checkpoint inside the committed serialization:
/// little-endian timestamp, then little-endian balance.
pub open spec fn checkpoint_bytes(c: Checkpoint) -> Seq<u8> {
    spec_u32_to_le_bytes(c.timestamp) + spec_u128_to_le_bytes(c.balance)
}

/// The concatenated encodings of a checkpoint sequence.
pub open spec fn checkpoints_bytes(s: Seq<Checkpoint>) -> Seq<u8>
    decreases s.len(),
{
    if s.len() == 0 {
        Seq::empty()
    } else {
        checkpoint_bytes(s[0]) + checkpoints_bytes(s.drop_first())
    }
}

/// The committed serialization of a schedule: a little-endian checkpoint
/// count, then each checkpoint's encoding.
pub open spec fn schedule_bytes(s: Seq<Checkpoint>) -> Seq<u8> {
    spec_u64_to_le_bytes(s.len() as u64) + checkpoints_bytes(s)
}

/// The SHA-256 digest of a byte sequence.
pub uninterp spec fn sha256_of(bytes: Seq<u8>) -> Seq<u8>;

/// Relies on sha2's SHA-256 implementation: the digest is a pure function
/// of the input bytes alone, and is 32 bytes long.
#[verifier::external_body]
fn sha256(bytes: &Vec<u8>) -> (r: Vec<u8>)
    ensures
        r@ == sha256_of(bytes@),
        r@.len() == 32,
{
    sha2::Sha256::digest(bytes.as_slice()).to_vec()
}

/// Appending an element extends the serialization by that element's bytes.
proof fn lemma_checkpoints_bytes_push(s: Seq<Checkpoint>, c: Checkpoint)
    ensures
        checkpoints_bytes(s.push(c)) == checkpoints_bytes(s) + checkpoint_bytes(c),
    decreases s.len(),
{
    if s.len() == 0 {
        assert(s.push(c)[0] == c);
        assert(s.push(c).drop_first() =~= Seq::<Checkpoint>::empty());
        assert(checkpoints_bytes(s.push(c)) == checkpoint_bytes(c) + checkpoints_bytes(
            Seq::<Checkpoint>::empty(),
        ));
        assert(checkpoints_bytes(s.push(c)) =~= checkpoints_bytes(s) + checkpoint_bytes(c));
    } else {
        assert(s.push(c)[0] == s[0]);
        assert(s.push(c).drop_first() =~= s.drop_first().push(c));
        lemma_checkpoints_bytes_push(s.drop_first(), c);
        assert(checkpoints_bytes(s.push(c)) == checkpoint_bytes(s[0]) + (checkpoints_bytes(
            s.drop_first(),
        ) + checkpoint_bytes(c)));
        assert(checkpoints_bytes(s.push(c)) =~= checkpoints_bytes(s) + checkpoint_bytes(c));
    }
}

/// Each checkpoint contributes a fixed number of bytes.
proof fn lemma_checkpoints_bytes_len(s: Seq<Checkpoint>)
    ensures
        checkpoints_bytes(s).len() == 20 * s.len(),
    decreases s.len(),
{
    vstd::bytes::lemma_auto_spec_u32_to_from_le_bytes();
    vstd::bytes::lemma_auto_spec_u128_to_from_le_bytes();
    if s.len() > 0 {
        lemma_checkpoints_bytes_len(s.drop_first());
    }
}

/// Equal serializations come from equal checkpoint sequences of equal
/// length.
proof fn lemma_checkpoints_bytes_injective(s1: Seq<Checkpoint>, s2: Seq<Checkpoint>)
    requires
        s1.len() == s2.len(),
        checkpoints_bytes(s1) == checkpoints_bytes(s2),
    ensures
        s1 == s2,
    decreases s1.len(),
{
    vstd::bytes::lemma_auto_spec_u32_to_from_le_bytes();
    vstd::bytes::lemma_auto_spec_u128_to_from_le_bytes();
    if s1.len() == 0 {
        assert(s1 =~= s2);
    } else {
        let b1 = checkpoints_bytes(s1);
        let b2 = checkpoints_bytes(s2);
        lemma_checkpoints_bytes_len(s1.drop_first());
        lemma_checkpoints_bytes_len(s2.drop_first());
        assert(spec_u32_to_le_bytes(s1[0].timestamp) =~= b1.subrange(0, 4));
        assert(spec_u32_to_le_bytes(s2[0].timestamp) =~= b2.subrange(0, 4));
        assert(spec_u128_to_le_bytes(s1[0].balance) =~= b1.subrange(4, 20));
        assert(spec_u128_to_le_bytes(s2[0].balance) =~= b2.subrange(4, 20));
        assert(s1[0].timestamp == vstd::bytes::spec_u32_from_le_bytes(
            spec_u32_to_le_bytes(s1[0].timestamp),
        ));
        assert(s2[0].timestamp == vstd::bytes::spec_u32_from_le_bytes(
            spec_u32_to_le_bytes(s2[0].timestamp),
        ));
        assert(s1[0].balance == vstd::bytes::spec_u128_from_le_bytes(
            spec_u128_to_le_bytes(s1[0].balance),
        ));
        assert(s2[0].balance == vstd::bytes::spec_u128_from_le_bytes(
            spec_u128_to_le_bytes(s2[0].balance),
        ));
        assert(s1[0] == s2[0]);
        assert(checkpoints_bytes(s1.drop_first()) =~= b1.subrange(20, b1.len() as int));
        assert(checkpoints_bytes(s2.drop_first()) =~= b2.subrange(20, b2.len() as int));
        lemma_checkpoints_bytes_injective(s1.drop_first(), s2.drop_first());
        assert forall|i: int| 0 <= i < s1.len() implies s1[i] == s2[i] by {
            if i > 0 {
                assert(s1[i] == s1.drop_first()[i - 1]);
                assert(s2[i] == s2.drop_first()[i - 1]);
            }
        }
        assert(s1 =~= s2);
    }
}

/// Law: the committed serialization is injective. Two different schedules
/// never serialize to the same bytes, so a revealed schedule other than
/// the committed one can only pass the commit check through a collision
/// of the digest itself.
pub proof fn lemma_schedule_bytes_injective(s1: Seq<Checkpoint>, s2: Seq<Checkpoint>)
    requires
        s1.len() <= u64::MAX,
        s2.len() <= u64::MAX,
        schedule_bytes(s1) == schedule_bytes(s2),
    ensures
        s1 == s2,
{
    vstd::bytes::lemma_auto_spec_u64_to_from_le_bytes();
    let b1 = schedule_bytes(s1);
    let b2 = schedule_bytes(s2);
    assert(spec_u64_to_le_bytes(s1.len() as u64) =~= b1.subrange(0, 8));
    assert(spec_u64_to_le_bytes(s2.len() as u64) =~= b2.subrange(0, 8));
    assert(s1.len() as u64 == vstd::bytes::spec_u64_from_le_bytes(
        spec_u64_to_le_bytes(s1.len() as u64),
    ));
    assert(s2.len() as u64 == vstd::bytes::spec_u64_from_le_bytes(
        spec_u64_to_le_bytes(s2.len() as u64),
    ));
    assert(s1.len() == s2.len());
    assert(checkpoints_bytes(s1) =~= b1.subrange(8, b1.len() as int));
    assert(checkpoints_bytes(s2) =~= b2.subrange(8, b2.len() as int));
    lemma_checkpoints_bytes_injective(s1, s2);
}

/// The committed serialization of a schedule.
fn schedule_to_bytes(schedule: &Schedule) -> (r: Vec<u8>)
    ensures
        r@ == schedule_bytes(schedule@),
{
    let mut out: Vec<u8> = Vec::new();
    let mut len_bytes = u64_to_le_bytes(schedule.0.len() as u64);
    out.append(&mut len_bytes);
    let n = schedule.0.len();
    let mut i: usize = 0;
    proof {
        assert(schedule@.take(0) =~= Seq::empty());
        assert(out@ =~= spec_u64_to_le_bytes(schedule@.len() as u64) + checkpoints_bytes(
            schedule@.take(0),
        ));
    }
    while i < n
        invariant
            0 <= i <= n,
            n == schedule.0.len(),
            out@ == spec_u64_to_le_bytes(schedule@.len() as u64) + checkpoints_bytes(
                schedule@.take(i as int),
            ),
        decreases n - i,
    {
        let c = schedule.0[i];
        let mut ts_bytes = u32_to_le_bytes(c.timestamp);
        out.append(&mut ts_bytes);
        let mut balance_bytes = u128_to_le_bytes(c.balance);
        out.append(&mut balance_bytes);
        proof {
            assert(schedule@.take(i + 1) =~= schedule@.take(i as int).push(c));
            lemma_checkpoints_bytes_push(schedule@.take(i as int), c);
            assert(out@ =~= spec_u64_to_le_bytes(schedule@.len() as u64) + checkpoints_bytes(
                schedule@.take(i + 1),
            ));
        }
        i += 1;
    }
    proof {
        assert(schedule@.take(n as int) =~= schedule@);
    }
    out
}

/// The commit digest of a schedule: SHA-256 over its serialized
/// checkpoints. Computed identically at commit time and at reveal time.
pub fn hash_schedule(schedule: &Schedule) -> (r: Vec<u8>)
    ensures
        r@ == sha256_of(schedule_bytes(schedule@)),
        r@.len() == 32,
{
    let bytes = schedule_to_bytes(schedule);
    sha256(&bytes)
}

/// Byte-for-byte equality of two byte vectors.
pub fn bytes_eq(a: &Vec<u8>, b: &Vec<u8>) -> (r: bool)
    ensures
        r <==> a@ == b@,
{
    if a.len() != b.len() {
        return false;
    }
    let n = a.len();
    let mut i: usize = 0;
    while i < n
        invariant
            0 <= i <= n,
            n == a.len() == b.len(),
            forall|m: int| 0 <= m < i ==> a@[m] == b@[m],
        decreases n - i,
    {
        if a[i] != b[i] {
            return false;
        }
        i += 1;
    }
    proof {
        assert(a@ =~= b@);
    }
    true
}

} // verus!
