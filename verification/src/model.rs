//! The mathematical model of the beacon.  Each operation of the pallet is
//! specified here as a function from the abstract state to the abstract
//! state, and the executable code is proved to follow these functions
//! exactly.  A failed operation leaves the state untouched.

use vstd::prelude::*;
use crate::hashing::{Hash256, mix_spec, zero_hash};
use crate::ledger::{Balances, bal_of, bounded_balances};
use crate::pallet::{Error, Event, Origin, Participation, RandaoInfo, RequestInfo, SlashReason};
use crate::assoc::distinct_keys;

verus! {

/// One group: its parameters and its current members.
#[verifier::ext_equal]
pub ghost struct GroupModel {
    pub info: RandaoInfo,
    pub members: Seq<u64>,
}

/// One open request: its fixed data and the per-member participation
/// records, one for every account that was a member when it opened.
#[verifier::ext_equal]
pub ghost struct RequestModel {
    pub info: RequestInfo,
    pub parts: Seq<(u64, Participation)>,
}

/// The whole abstract state of the beacon.
#[verifier::ext_equal]
pub ghost struct StateModel {
    pub groups: Map<u64, GroupModel>,
    pub next_group_id: u64,
    pub requests: Map<u64, RequestModel>,
    pub next_request_id: u64,
    pub balances: Map<u64, Balances>,
    pub events: Seq<Event>,
    pub block: u64,
}

/// Group parameters a registration must satisfy: both penalties are
/// fractions of at most one hundred percent, and both windows are at least
/// one block long.
pub open spec fn valid_params(info: RandaoInfo) -> bool {
    &&& info.absent_penalty <= 100
    &&& info.commit_no_reveal_penalty <= 100
    &&& info.commitment_delay > 0
    &&& info.reveal_delay > 0
}

/// The state invariant.  Identifiers below the counters are the ones ever
/// allocated; stored groups are valid; every open request points at a
/// stored group, opened no later than the current block, and holds one
/// participation record per account, where a secret is only ever recorded
/// on top of a commitment.
pub open spec fn wf(s: StateModel) -> bool {
    &&& forall|gid: u64| #[trigger] s.groups.contains_key(gid) ==> {
        &&& gid < s.next_group_id
        &&& valid_params(s.groups[gid].info)
        &&& s.groups[gid].members.no_duplicates()
    }
    &&& forall|rid: u64| #[trigger] s.requests.contains_key(rid) ==> {
        &&& rid < s.next_request_id
        &&& s.requests[rid].info.started <= s.block
        &&& s.groups.contains_key(s.requests[rid].info.group)
        &&& distinct_keys(s.requests[rid].parts)
        &&& forall|i: int| 0 <= i < s.requests[rid].parts.len() ==>
            ((#[trigger] s.requests[rid].parts[i]).1.secret is Some
                ==> s.requests[rid].parts[i].1.commitment is Some)
    }
    &&& bounded_balances(s.balances)
}

/// `a + b`, capped at the largest block number.  Used only to report
/// deadlines in events; the window checks themselves are exact.
pub open spec fn sat_add(a: u64, b: u64) -> u64 {
    if a + b > u64::MAX {
        u64::MAX
    } else {
        (a + b) as u64
    }
}

/// The fraction of a deposit that a penalty of `pct` percent slashes,
/// rounded down.
pub open spec fn penalty_amount(deposit: u64, pct: u8) -> u64 {
    ((deposit * pct) / 100) as u64
}

/// Registering a group: only the privileged origin may do so, the
/// parameters must be valid, and a fresh identifier must be available.
pub open spec fn register_group_spec(s: StateModel, origin: Origin, info: RandaoInfo)
    -> Result<(StateModel, u64), Error>
{
    if origin != Origin::Root {
        Err(Error::BadOrigin)
    } else if !valid_params(info) {
        Err(Error::InvalidGroupParams)
    } else if s.next_group_id == u64::MAX {
        Err(Error::IdentifierOverflow)
    } else {
        let id = s.next_group_id;
        Ok((StateModel {
            groups: s.groups.insert(id, GroupModel { info, members: Seq::empty() }),
            next_group_id: (id + 1) as u64,
            events: s.events.push(Event::GroupRegistered(id, info.coordinator)),
            ..s
        }, id))
    }
}

/// Admits the accounts of `adds` in order: each must be new to the group
/// and must have `deposit` free funds, which are reserved.
pub open spec fn add_members_fold(
    members: Seq<u64>,
    bal: Map<u64, Balances>,
    deposit: u64,
    adds: Seq<u64>,
) -> Result<(Seq<u64>, Map<u64, Balances>), Error>
    decreases adds.len(),
{
    if adds.len() == 0 {
        Ok((members, bal))
    } else {
        let a = adds[0];
        let b = bal_of(bal, a);
        if members.contains(a) {
            Err(Error::AlreadyMember)
        } else if b.free < deposit {
            Err(Error::InsufficientBalance)
        } else {
            add_members_fold(
                members.push(a),
                bal.insert(a, Balances {
                    free: (b.free - deposit) as u64,
                    reserved: (b.reserved + deposit) as u64,
                }),
                deposit,
                adds.skip(1),
            )
        }
    }
}

/// Whether some open request holds a participation record for `a`.
pub open spec fn request_involves(r: RequestModel, a: u64) -> bool {
    exists|i: int| 0 <= i < r.parts.len() && (#[trigger] r.parts[i]).0 == a
}

/// Whether the account still owes participation to any open request.
pub open spec fn has_obligation(requests: Map<u64, RequestModel>, a: u64) -> bool {
    exists|rid: u64| #[trigger] requests.contains_key(rid) && request_involves(requests[rid], a)
}

/// The position of an account in a member list.
pub open spec fn member_index(members: Seq<u64>, a: u64) -> int {
    choose|i: int| 0 <= i < members.len() && members[i] == a
}

/// Expels the accounts of `rems` in order: each must be a member with no
/// open obligation; up to `deposit` of its reserve is released.
pub open spec fn remove_members_fold(
    members: Seq<u64>,
    bal: Map<u64, Balances>,
    deposit: u64,
    requests: Map<u64, RequestModel>,
    rems: Seq<u64>,
) -> Result<(Seq<u64>, Map<u64, Balances>), Error>
    decreases rems.len(),
{
    if rems.len() == 0 {
        Ok((members, bal))
    } else {
        let a = rems[0];
        let b = bal_of(bal, a);
        if !members.contains(a) {
            Err(Error::NotAMember)
        } else if has_obligation(requests, a) {
            Err(Error::MemberHasActiveObligation)
        } else {
            let rel = if deposit <= b.reserved { deposit } else { b.reserved };
            remove_members_fold(
                members.remove(member_index(members, a)),
                bal.insert(a, Balances {
                    free: (b.free + rel) as u64,
                    reserved: (b.reserved - rel) as u64,
                }),
                deposit,
                requests,
                rems.skip(1),
            )
        }
    }
}

/// Changing a group's membership: only its coordinator may, additions are
/// admitted first, removals expelled second, and any failure discards the
/// whole change.
pub open spec fn set_members_spec(
    s: StateModel,
    caller: u64,
    group_id: u64,
    adds: Seq<u64>,
    rems: Seq<u64>,
) -> Result<StateModel, Error> {
    if !s.groups.contains_key(group_id) {
        Err(Error::GroupNotFound)
    } else if s.groups[group_id].info.coordinator != caller {
        Err(Error::NotCoordinator)
    } else {
        let g = s.groups[group_id];
        match add_members_fold(g.members, s.balances, g.info.deposit, adds) {
            Err(e) => Err(e),
            Ok((m1, b1)) => match remove_members_fold(m1, b1, g.info.deposit, s.requests, rems) {
                Err(e) => Err(e),
                Ok((m2, b2)) => Ok(StateModel {
                    groups: s.groups.insert(group_id, GroupModel { info: g.info, members: m2 }),
                    balances: b2,
                    ..s
                }),
            },
        }
    }
}

/// A fresh, empty participation record.
pub open spec fn empty_part() -> Participation {
    Participation { commitment: None, secret: None }
}

/// One empty participation record per member, in member order.
pub open spec fn fresh_parts(members: Seq<u64>) -> Seq<(u64, Participation)> {
    members.map_values(|a: u64| (a, empty_part()))
}

/// Opening a request: the group must exist and have members, the requester
/// pays the fee, a fresh identifier is allocated, and one empty
/// participation record is created per current member.
pub open spec fn request_randomness_spec(s: StateModel, requester: u64, group_id: u64)
    -> Result<(StateModel, u64), Error>
{
    if !s.groups.contains_key(group_id) {
        Err(Error::GroupNotFound)
    } else if s.groups[group_id].members.len() == 0 {
        Err(Error::GroupEmpty)
    } else if bal_of(s.balances, requester).free < s.groups[group_id].info.fee {
        Err(Error::InsufficientBalance)
    } else if s.next_request_id == u64::MAX {
        Err(Error::IdentifierOverflow)
    } else {
        let g = s.groups[group_id];
        let b = bal_of(s.balances, requester);
        let rid = s.next_request_id;
        let commit_end = sat_add(s.block, g.info.commitment_delay);
        let reveal_end = sat_add(commit_end, g.info.reveal_delay);
        Ok((StateModel {
            requests: s.requests.insert(rid, RequestModel {
                info: RequestInfo { requester, group: group_id, started: s.block },
                parts: fresh_parts(g.members),
            }),
            next_request_id: (rid + 1) as u64,
            balances: s.balances.insert(requester, Balances {
                free: (b.free - g.info.fee) as u64,
                reserved: b.reserved,
            }),
            events: s.events.push(Event::RandomnessRequested(group_id, rid, commit_end,
                reveal_end)),
            ..s
        }, rid))
    }
}

/// The position of an account's participation record.
pub open spec fn part_index(parts: Seq<(u64, Participation)>, a: u64) -> int {
    choose|i: int| 0 <= i < parts.len() && parts[i].0 == a
}

/// Committing: the request must be open and still in its commit window,
/// the caller must hold a participation record, and must not have
/// committed before.
pub open spec fn commit_spec(s: StateModel, caller: u64, request_id: u64, c: Hash256)
    -> Result<StateModel, Error>
{
    if !s.requests.contains_key(request_id) {
        Err(Error::RequestNotFound)
    } else {
        let r = s.requests[request_id];
        let g = s.groups[r.info.group];
        if s.block - r.info.started > g.info.commitment_delay {
            Err(Error::NotInCommitWindow)
        } else if !request_involves(r, caller) {
            Err(Error::NotAMember)
        } else {
            let i = part_index(r.parts, caller);
            let p = r.parts[i].1;
            if p.commitment is Some {
                Err(Error::AlreadyCommitted)
            } else {
                Ok(StateModel {
                    requests: s.requests.insert(request_id, RequestModel {
                        info: r.info,
                        parts: r.parts.update(i, (caller, Participation {
                            commitment: Some(c),
                            secret: p.secret,
                        })),
                    }),
                    ..s
                })
            }
        }
    }
}

/// Revealing: the request must be open and inside its reveal window, the
/// caller must have committed, the revealed secret must hash to the
/// commitment, and a secret is only recorded once.  `digest` is the hash
/// of the offered secret.
pub open spec fn reveal_spec(
    s: StateModel,
    caller: u64,
    request_id: u64,
    secret: Hash256,
    digest: Hash256,
) -> Result<StateModel, Error> {
    if !s.requests.contains_key(request_id) {
        Err(Error::RequestNotFound)
    } else {
        let r = s.requests[request_id];
        let g = s.groups[r.info.group];
        let elapsed = s.block - r.info.started;
        if !(elapsed > g.info.commitment_delay
            && elapsed <= g.info.commitment_delay + g.info.reveal_delay) {
            Err(Error::NotInRevealWindow)
        } else if !request_involves(r, caller)
            || r.parts[part_index(r.parts, caller)].1.commitment is None {
            Err(Error::NoCommitment)
        } else {
            let i = part_index(r.parts, caller);
            let p = r.parts[i].1;
            if digest != p.commitment->0 {
                Err(Error::CommitmentMismatch)
            } else if p.secret is Some {
                Err(Error::AlreadyRevealed)
            } else {
                Ok(StateModel {
                    requests: s.requests.insert(request_id, RequestModel {
                        info: r.info,
                        parts: r.parts.update(i, (caller, Participation {
                            commitment: p.commitment,
                            secret: Some(secret),
                        })),
                    }),
                    ..s
                })
            }
        }
    }
}

/// The combined output: the word-wise exclusive-or of every revealed
/// secret, starting from the all-zero hash.  With no reveals the output is
/// the all-zero hash — the documented degraded value; the requester is
/// still owed a value.
pub open spec fn xor_of_reveals(parts: Seq<(u64, Participation)>) -> Hash256
    decreases parts.len(),
{
    if parts.len() == 0 {
        zero_hash()
    } else {
        let rest = xor_of_reveals(parts.drop_last());
        match parts.last().1.secret {
            Some(sec) => mix_spec(rest, sec),
            None => rest,
        }
    }
}

/// Settles one participation record at finalization: a member that
/// committed and revealed is untouched; one that committed without
/// revealing is slashed the commit-no-reveal fraction; one that never
/// committed is slashed the absent fraction.  A slash takes at most what
/// is reserved and is recorded in an event.
pub open spec fn settle_one(
    bal: Map<u64, Balances>,
    ev: Seq<Event>,
    group_id: u64,
    info: RandaoInfo,
    p: (u64, Participation),
) -> (Map<u64, Balances>, Seq<Event>) {
    if p.1.commitment is Some && p.1.secret is Some {
        (bal, ev)
    } else {
        let (pct, reason) = if p.1.commitment is Some {
            (info.commit_no_reveal_penalty, SlashReason::CommitNoReveal)
        } else {
            (info.absent_penalty, SlashReason::Absent)
        };
        let pen = penalty_amount(info.deposit, pct);
        let b = bal_of(bal, p.0);
        let actual = if pen <= b.reserved { pen } else { b.reserved };
        (
            bal.insert(p.0, Balances { free: b.free, reserved: (b.reserved - actual) as u64 }),
            ev.push(Event::MemberSlashed(group_id, p.0, actual, reason)),
        )
    }
}

/// Settles every participation record in order.
pub open spec fn settle_parts(
    bal: Map<u64, Balances>,
    ev: Seq<Event>,
    group_id: u64,
    info: RandaoInfo,
    parts: Seq<(u64, Participation)>,
) -> (Map<u64, Balances>, Seq<Event>)
    decreases parts.len(),
{
    if parts.len() == 0 {
        (bal, ev)
    } else {
        let (b1, e1) = settle_one(bal, ev, group_id, info, parts[0]);
        settle_parts(b1, e1, group_id, info, parts.skip(1))
    }
}

/// Finalizing: allowed once the reveal window has fully elapsed, exactly
/// once per request.  It slashes the members that did not participate,
/// emits the fulfilment event carrying the combined output, and reclaims
/// the request's storage.  A request whose identifier was allocated but is
/// no longer stored has already been finalized.
pub open spec fn finalize_spec(s: StateModel, request_id: u64)
    -> Result<(StateModel, Hash256), Error>
{
    if s.requests.contains_key(request_id) {
        let r = s.requests[request_id];
        let g = s.groups[r.info.group];
        if s.block - r.info.started <= g.info.commitment_delay + g.info.reveal_delay {
            Err(Error::RevealWindowNotElapsed)
        } else {
            let out = xor_of_reveals(r.parts);
            let (b2, e2) = settle_parts(s.balances, s.events, r.info.group, g.info, r.parts);
            Ok((StateModel {
                requests: s.requests.remove(request_id),
                balances: b2,
                events: e2.push(Event::RandomnessFulfilled(r.info.group, request_id, out)),
                ..s
            }, out))
        }
    } else if request_id < s.next_request_id {
        Err(Error::AlreadyFinalized)
    } else {
        Err(Error::RequestNotFound)
    }
}

} // verus!
