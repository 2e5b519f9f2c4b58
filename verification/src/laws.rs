//! Properties of the beacon that hold across operations, proved once and
//! for all over the abstract model.

use vstd::prelude::*;
use crate::hashing::{Hash256, zero_hash};
use crate::model::{StateModel, add_members_fold, finalize_spec, has_obligation,
    register_group_spec, remove_members_fold, request_randomness_spec, reveal_spec,
    set_members_spec, commit_spec, valid_params, wf, xor_of_reveals};
use crate::pallet::{Error, Origin, Participation, RandaoInfo};
use crate::ledger::Balances;

verus! {

/// Every registered group carries penalties of at most one hundred
/// percent and windows of at least one block, in every well-formed state.
pub proof fn lemma_group_params_valid(s: StateModel, group_id: u64)
    requires
        wf(s),
        s.groups.contains_key(group_id),
    ensures
        valid_params(s.groups[group_id].info),
        s.groups[group_id].info.absent_penalty <= 100,
        s.groups[group_id].info.commit_no_reveal_penalty <= 100,
{
}

/// Registration with an out-of-range penalty or an empty window fails
/// before any storage mutation, whoever calls it.
pub proof fn lemma_register_rejects_invalid(s: StateModel, origin: Origin, info: RandaoInfo)
    requires
        !valid_params(info),
    ensures
        register_group_spec(s, origin, info) is Err,
        origin == Origin::Root ==> register_group_spec(s, origin, info)
            == Err::<(StateModel, u64), Error>(Error::InvalidGroupParams),
{
}

/// With the group counter exhausted, registration fails with
/// `IdentifierOverflow` instead of silently reusing an identifier.
pub proof fn lemma_counter_exhaustion(s: StateModel, info: RandaoInfo)
    requires
        s.next_group_id == u64::MAX,
        valid_params(info),
    ensures
        register_group_spec(s, Origin::Root, info)
            == Err::<(StateModel, u64), Error>(Error::IdentifierOverflow),
{
}

/// An allocated request is in its commit phase: open, and within the
/// commit window.
pub open spec fn is_committing(s: StateModel, request_id: u64) -> bool {
    &&& s.requests.contains_key(request_id)
    &&& s.block - s.requests[request_id].info.started
        <= s.groups[s.requests[request_id].info.group].info.commitment_delay
}

/// An allocated request is in its reveal phase: open, and past the commit
/// window.  It stays in this phase until it is finalized, however late.
pub open spec fn is_revealing(s: StateModel, request_id: u64) -> bool {
    &&& s.requests.contains_key(request_id)
    &&& s.block - s.requests[request_id].info.started
        > s.groups[s.requests[request_id].info.group].info.commitment_delay
}

/// An allocated request is finalized: its identifier was handed out, and
/// its storage is reclaimed.
pub open spec fn is_finalized(s: StateModel, request_id: u64) -> bool {
    &&& request_id < s.next_request_id
    &&& !s.requests.contains_key(request_id)
}

/// At any block, every allocated request is in exactly one of the three
/// phases: committing, revealing, finalized.
pub proof fn lemma_phase_exclusive(s: StateModel, request_id: u64)
    requires
        wf(s),
        request_id < s.next_request_id,
    ensures
        is_committing(s, request_id) || is_revealing(s, request_id)
            || is_finalized(s, request_id),
        !(is_committing(s, request_id) && is_revealing(s, request_id)),
        !(is_committing(s, request_id) && is_finalized(s, request_id)),
        !(is_revealing(s, request_id) && is_finalized(s, request_id)),
{
}

/// A commitment is accepted only while `block <= started +
/// commitment_delay`; one block past that boundary the commit window is
/// closed.
pub proof fn lemma_commit_window(s: StateModel, caller: u64, request_id: u64, c: Hash256)
    requires
        s.requests.contains_key(request_id),
    ensures
        commit_spec(s, caller, request_id, c) is Ok ==> s.block
            <= s.requests[request_id].info.started
                + s.groups[s.requests[request_id].info.group].info.commitment_delay,
        s.block > s.requests[request_id].info.started
            + s.groups[s.requests[request_id].info.group].info.commitment_delay
            ==> commit_spec(s, caller, request_id, c)
                == Err::<StateModel, Error>(Error::NotInCommitWindow),
{
}

/// A reveal is accepted only strictly after the commit window and no
/// later than `started + commitment_delay + reveal_delay`; both
/// boundaries are as stated, one exclusive, one inclusive.
pub proof fn lemma_reveal_window(s: StateModel, caller: u64, request_id: u64,
    secret: Hash256, digest: Hash256)
    requires
        s.requests.contains_key(request_id),
    ensures
        reveal_spec(s, caller, request_id, secret, digest) is Ok ==> {
            let started = s.requests[request_id].info.started;
            let g = s.groups[s.requests[request_id].info.group].info;
            s.block > started + g.commitment_delay
                && s.block <= started + g.commitment_delay + g.reveal_delay
        },
        ({
            let started = s.requests[request_id].info.started;
            let g = s.groups[s.requests[request_id].info.group].info;
            s.block <= started + g.commitment_delay
                || s.block > started + g.commitment_delay + g.reveal_delay
        }) ==> reveal_spec(s, caller, request_id, secret, digest)
            == Err::<StateModel, Error>(Error::NotInRevealWindow),
{
}

/// Inside the reveal window, a member that committed and has not yet
/// revealed succeeds exactly when the offered digest equals the
/// commitment; any mismatch is rejected.
pub proof fn lemma_reveal_iff_match(s: StateModel, caller: u64, request_id: u64,
    secret: Hash256, digest: Hash256)
    requires
        s.requests.contains_key(request_id),
    ensures
        reveal_spec(s, caller, request_id, secret, digest) is Ok
            ==> digest == s.requests[request_id]
                .parts[crate::model::part_index(s.requests[request_id].parts, caller)]
                .1.commitment->0,
        (reveal_spec(s, caller, request_id, secret, digest) is Err
            && reveal_spec(s, caller, request_id, secret, digest)->Err_0
                == Error::CommitmentMismatch)
            ==> digest != s.requests[request_id]
                .parts[crate::model::part_index(s.requests[request_id].parts, caller)]
                .1.commitment->0,
{
}

/// Finalizing a request a second time fails with `AlreadyFinalized` and,
/// because a failed operation changes nothing, causes no further
/// slashing or payout.
pub proof fn lemma_finalize_idempotent(s: StateModel, request_id: u64, s1: StateModel,
    out: Hash256)
    requires
        wf(s),
        finalize_spec(s, request_id) == Ok::<(StateModel, Hash256), Error>((s1, out)),
    ensures
        finalize_spec(s1, request_id)
            == Err::<(StateModel, Hash256), Error>(Error::AlreadyFinalized),
{
    assert(!s1.requests.contains_key(request_id));
    assert(request_id < s.next_request_id);
}

/// The mixing step is commutative and associative with the all-zero hash
/// as its neutral element: the combined output does not depend on the
/// order in which the revealed secrets are taken in.
pub proof fn lemma_mix_order_independent(a: Hash256, b: Hash256, c: Hash256)
    ensures
        crate::hashing::mix_spec(a, b) == crate::hashing::mix_spec(b, a),
        crate::hashing::mix_spec(crate::hashing::mix_spec(a, b), c)
            == crate::hashing::mix_spec(a, crate::hashing::mix_spec(b, c)),
        crate::hashing::mix_spec(zero_hash(), a) == a,
        crate::hashing::mix_spec(a, zero_hash()) == a,
{
    assert forall|x: u64, y: u64| #[trigger] (x ^ y) == y ^ x by {
        assert(x ^ y == y ^ x) by (bit_vector);
    }
    assert forall|x: u64, y: u64, z: u64| #[trigger] ((x ^ y) ^ z) == x ^ (y ^ z) by {
        assert((x ^ y) ^ z == x ^ (y ^ z)) by (bit_vector);
    }
    assert forall|x: u64| #[trigger] (x ^ 0u64) == x && (0u64 ^ x) == x by {
        assert(x ^ 0u64 == x && 0u64 ^ x == x) by (bit_vector);
    }
}

/// With no reveals at all, the combined output is the all-zero hash: the
/// documented degraded value, still delivered rather than failing the
/// request.
pub proof fn lemma_no_reveals_degraded_output(parts: Seq<(u64, Participation)>)
    requires
        forall|i: int| 0 <= i < parts.len() ==> (#[trigger] parts[i]).1.secret is None,
    ensures
        xor_of_reveals(parts) == zero_hash(),
    decreases parts.len(),
{
    if parts.len() > 0 {
        lemma_no_reveals_degraded_output(parts.drop_last());
        assert(parts[parts.len() - 1].1.secret is None);
    }
}

/// With exactly one reveal, the combined output is that member's secret
/// alone.
pub proof fn lemma_single_reveal_output(parts: Seq<(u64, Participation)>, k: int)
    requires
        0 <= k < parts.len(),
        parts[k].1.secret is Some,
        forall|i: int| 0 <= i < parts.len() && i != k
            ==> (#[trigger] parts[i]).1.secret is None,
    ensures
        xor_of_reveals(parts) == parts[k].1.secret->0,
    decreases parts.len(),
{
    if k == parts.len() - 1 {
        lemma_no_reveals_degraded_output(parts.drop_last());
        lemma_mix_order_independent(parts[k].1.secret->0, zero_hash(), zero_hash());
    } else {
        lemma_single_reveal_output(parts.drop_last(), k);
        assert(parts.last().1.secret is None);
    }
}

/// Removing a member that still holds a participation record in an open
/// request fails with `MemberHasActiveObligation`.
pub proof fn lemma_removal_blocked(s: StateModel, caller: u64, group_id: u64, a: u64)
    requires
        s.groups.contains_key(group_id),
        s.groups[group_id].info.coordinator == caller,
        s.groups[group_id].members.contains(a),
        has_obligation(s.requests, a),
    ensures
        set_members_spec(s, caller, group_id, Seq::empty(), seq![a])
            == Err::<StateModel, Error>(Error::MemberHasActiveObligation),
{
    let g = s.groups[group_id];
    assert(add_members_fold(g.members, s.balances, g.info.deposit, Seq::empty())
        == Ok::<(Seq<u64>, Map<u64, Balances>), Error>((g.members, s.balances)));
    assert(seq![a][0] == a);
}

/// Opening a request never touches the members' balances: only the
/// requester pays, and only the fee.
pub proof fn lemma_request_charges_only_requester(s: StateModel, requester: u64,
    group_id: u64, s1: StateModel, rid: u64, a: u64)
    requires
        request_randomness_spec(s, requester, group_id)
            == Ok::<(StateModel, u64), Error>((s1, rid)),
        a != requester,
    ensures
        crate::ledger::bal_of(s1.balances, a) == crate::ledger::bal_of(s.balances, a),
{
}

} // verus!
