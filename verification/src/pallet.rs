//! The beacon pallet: group registry, request lifecycle and randomness
//! aggregation.  All operations are deterministic state transitions; each
//! either completes or fails without any observable change.

use vstd::prelude::*;
use crate::assoc::{entries_as_map, distinct_keys, find_entry, lemma_entries_contains,
    lemma_entries_index, lemma_entries_push, lemma_entries_update, lemma_entries_remove};
use crate::hashing::{Hash256, commitment_of, commitment_spec, mix};
use crate::ledger::{Balances, Ledger, bal_of};
use crate::model::{GroupModel, RequestModel, StateModel, add_members_fold, commit_spec,
    finalize_spec, has_obligation, member_index, part_index, penalty_amount,
    register_group_spec, remove_members_fold, request_involves, request_randomness_spec,
    fresh_parts, reveal_spec, sat_add, set_members_spec, settle_one, settle_parts,
    valid_params, wf, xor_of_reveals};
use vstd::pervasive::VecAdditionalExecFns;

verus! {

/// Who calls an operation: the privileged root origin, or a signed account.
#[derive(Clone, Copy, PartialEq, Eq, Structural, Debug)]
pub enum Origin {
    Root,
    Signed(u64),
}

/// Everything an operation can fail with.  Errors are terminal and
/// synchronous; a failed operation changes nothing.
#[derive(Clone, Copy, PartialEq, Eq, Structural, Debug)]
pub enum Error {
    /// The caller is not the privileged origin.
    BadOrigin,
    /// A penalty above one hundred percent, or an empty window.
    InvalidGroupParams,
    /// The identifier counter is exhausted; no wraparound.
    IdentifierOverflow,
    /// The caller is not the group's coordinator.
    NotCoordinator,
    /// No group under this identifier.
    GroupNotFound,
    /// No open request under this identifier, and none ever was.
    RequestNotFound,
    /// The group has no members to produce randomness.
    GroupEmpty,
    /// The account is not a member.
    NotAMember,
    /// The account is already a member.
    AlreadyMember,
    /// The member still owes participation to an open request.
    MemberHasActiveObligation,
    /// The commit window has passed.
    NotInCommitWindow,
    /// The reveal window has not opened or has passed.
    NotInRevealWindow,
    /// The reveal window has not fully elapsed yet.
    RevealWindowNotElapsed,
    /// The member has already committed in this request.
    AlreadyCommitted,
    /// The member has already revealed in this request.
    AlreadyRevealed,
    /// The request was already finalized.
    AlreadyFinalized,
    /// The member never committed in this request.
    NoCommitment,
    /// The revealed secret does not hash to the commitment.
    CommitmentMismatch,
    /// Not enough free funds to reserve a deposit or pay a fee.
    InsufficientBalance,
    /// The account's funds would exceed the representable total.
    BalanceOverflow,
}

/// Why a member was slashed.
#[derive(Clone, Copy, PartialEq, Eq, Structural, Debug)]
pub enum SlashReason {
    /// Never committed.
    Absent,
    /// Committed but never revealed.
    CommitNoReveal,
}

/// Everything the pallet reports to the outside.
#[derive(Clone, Copy, PartialEq, Eq, Structural, Debug)]
pub enum Event {
    /// New group identity and its randomness coordinator.
    GroupRegistered(u64, u64),
    /// Group, new request, end of the commit window, end of the reveal
    /// window (ends capped at the largest block number).
    RandomnessRequested(u64, u64, u64, u64),
    /// Group, finalized request, combined output.
    RandomnessFulfilled(u64, u64, Hash256),
    /// Group, member, amount taken from its reserve, and why.
    MemberSlashed(u64, u64, u64, SlashReason),
}

/// Parameters of one group.
#[derive(Clone, Copy, PartialEq, Eq, Structural, Debug)]
pub struct RandaoInfo {
    /// Account in charge of adding and removing members and of the
    /// group's parameters.
    pub coordinator: u64,
    /// Fee charged from the requester per randomness request.
    pub fee: u64,
    /// Collateral reserved per member on admission.
    pub deposit: u64,
    /// Percent of the deposit slashed for not committing.
    pub absent_penalty: u8,
    /// Percent of the deposit slashed for committing without revealing.
    pub commit_no_reveal_penalty: u8,
    /// Number of blocks after the request starts in which members commit.
    pub commitment_delay: u64,
    /// Number of blocks after the commit window in which members reveal.
    pub reveal_delay: u64,
}

/// Fixed data of one randomness request.
#[derive(Clone, Copy, PartialEq, Eq, Structural, Debug)]
pub struct RequestInfo {
    /// Account to which the output is owed.
    pub requester: u64,
    /// Every request belongs to exactly one group.
    pub group: u64,
    /// Block at which the commit window opened.
    pub started: u64,
}

/// Record of one member's participation in one request.
#[derive(Clone, Copy, PartialEq, Eq, Debug)]
pub struct Participation {
    /// Some(commitment) once committed.
    pub commitment: Option<Hash256>,
    /// Some(secret) once revealed; only ever set on top of a matching
    /// commitment.
    pub secret: Option<Hash256>,
}

/// One stored group: parameters and members.
pub struct GroupRecord {
    pub info: RandaoInfo,
    pub members: Vec<u64>,
}

impl View for GroupRecord {
    type V = GroupModel;

    open spec fn view(&self) -> GroupModel {
        GroupModel { info: self.info, members: self.members@ }
    }
}

/// One stored request: fixed data and participation records.
pub struct RequestRecord {
    pub info: RequestInfo,
    pub parts: Vec<(u64, Participation)>,
}

impl View for RequestRecord {
    type V = RequestModel;

    open spec fn view(&self) -> RequestModel {
        RequestModel { info: self.info, parts: self.parts@ }
    }
}

/// The stored group pairs, read as model pairs.
pub open spec fn group_entries(s: Seq<(u64, GroupRecord)>) -> Seq<(u64, GroupModel)> {
    s.map_values(|p: (u64, GroupRecord)| (p.0, p.1@))
}

/// The stored request pairs, read as model pairs.
pub open spec fn request_entries(s: Seq<(u64, RequestRecord)>) -> Seq<(u64, RequestModel)> {
    s.map_values(|p: (u64, RequestRecord)| (p.0, p.1@))
}

/// `a + b`, capped at the largest block number.
fn sat_add_exec(a: u64, b: u64) -> (r: u64)
    ensures
        r == sat_add(a, b),
{
    if b <= u64::MAX - a {
        a + b
    } else {
        u64::MAX
    }
}

/// One empty participation record per member, in member order.
fn build_parts(members: &Vec<u64>) -> (r: Vec<(u64, Participation)>)
    ensures
        r@ == fresh_parts(members@),
{
    let mut r: Vec<(u64, Participation)> = Vec::new();
    let mut i: usize = 0;
    while i < members.len()
        invariant
            i <= members@.len(),
            r@ == fresh_parts(members@.take(i as int)),
        decreases members@.len() - i,
    {
        r.push((members[i], Participation { commitment: None, secret: None }));
        i = i + 1;
        proof {
            assert(r@ =~= fresh_parts(members@.take(i as int)));
        }
    }
    proof {
        assert(members@.take(members@.len() as int) =~= members@);
    }
    r
}

/// An exact copy of a member list.
fn clone_accounts(v: &Vec<u64>) -> (r: Vec<u64>)
    ensures
        r@ == v@,
{
    let mut r: Vec<u64> = Vec::new();
    let mut i: usize = 0;
    while i < v.len()
        invariant
            i <= v@.len(),
            r@ == v@.take(i as int),
        decreases v@.len() - i,
    {
        r.push(v[i]);
        i = i + 1;
        proof {
            assert(r@ =~= v@.take(i as int));
        }
    }
    proof {
        assert(v@.take(v@.len() as int) =~= v@);
    }
    r
}

/// Finds the position of an account in a member list.
fn find_account(v: &Vec<u64>, a: u64) -> (r: Option<usize>)
    ensures
        match r {
            Some(i) => i < v@.len() && v@[i as int] == a,
            None => !v@.contains(a),
        },
{
    let mut i: usize = 0;
    while i < v.len()
        invariant
            i <= v@.len(),
            forall|j: int| 0 <= j < i ==> v@[j] != a,
        decreases v@.len() - i,
    {
        if v[i] == a {
            return Some(i);
        }
        i = i + 1;
    }
    None
}

/// The slash a penalty of `pct` percent takes from `deposit`, rounded
/// down; never more than the deposit itself.
fn penalty_exec(deposit: u64, pct: u8) -> (r: u64)
    requires
        pct <= 100,
    ensures
        r == penalty_amount(deposit, pct),
        r <= deposit,
{
    proof {
        vstd::arithmetic::mul::lemma_mul_upper_bound(deposit as int, u64::MAX as int,
            pct as int, 100);
        if deposit > 0 {
            vstd::arithmetic::mul::lemma_mul_left_inequality(deposit as int, pct as int,
                100);
        } else {
            assert(deposit as int * pct as int == 0) by (nonlinear_arith)
                requires deposit == 0;
        }
        vstd::arithmetic::div_mod::lemma_div_is_ordered(deposit as int * pct as int,
            deposit as int * 100, 100);
        vstd::arithmetic::div_mod::lemma_div_multiples_vanish(deposit as int, 100);
        assert(deposit as int * 100 == 100 * deposit as int) by (nonlinear_arith);
    }
    let wide = (deposit as u128) * (pct as u128);
    (wide / 100) as u64
}

/// The beacon's whole state.
pub struct Pallet {
    /// Stored groups, keyed by identifier.
    pub groups: Vec<(u64, GroupRecord)>,
    /// The next group identifier to allocate.
    pub next_group_id: u64,
    /// Open requests, keyed by identifier; finalized requests are
    /// reclaimed.
    pub requests: Vec<(u64, RequestRecord)>,
    /// The next request identifier to allocate.
    pub next_request_id: u64,
    /// Free and reserved funds per account.
    pub ledger: Ledger,
    /// Everything reported so far, in order.
    pub events: Vec<Event>,
    /// The current block height.
    pub current_block: u64,
}

impl View for Pallet {
    type V = StateModel;

    open spec fn view(&self) -> StateModel {
        StateModel {
            groups: entries_as_map(group_entries(self.groups@)),
            next_group_id: self.next_group_id,
            requests: entries_as_map(request_entries(self.requests@)),
            next_request_id: self.next_request_id,
            balances: self.ledger@,
            events: self.events@,
            block: self.current_block,
        }
    }
}

impl Pallet {
    /// The representation invariant: every store keeps its keys distinct,
    /// and the abstract state is well formed.
    pub open spec fn inv(&self) -> bool {
        &&& distinct_keys(self.groups@)
        &&& distinct_keys(self.requests@)
        &&& self.ledger.inv()
        &&& wf(self@)
    }

    /// A fresh beacon: no groups, no requests, no funds, no events, at
    /// block zero.
    pub fn new() -> (r: Pallet)
        ensures
            r.inv(),
            r@.groups == Map::<u64, GroupModel>::empty(),
            r@.requests == Map::<u64, RequestModel>::empty(),
            r@.balances == Map::<u64, Balances>::empty(),
            r@.events == Seq::<Event>::empty(),
            r@.next_group_id == 0,
            r@.next_request_id == 0,
            r@.block == 0,
    {
        let p = Pallet {
            groups: Vec::new(),
            next_group_id: 0,
            requests: Vec::new(),
            next_request_id: 0,
            ledger: Ledger::new(),
            events: Vec::new(),
            current_block: 0,
        };
        proof {
            assert(group_entries(p.groups@) =~= Seq::<(u64, GroupModel)>::empty());
            assert(request_entries(p.requests@) =~= Seq::<(u64, RequestModel)>::empty());
            assert(p@.events =~= Seq::<Event>::empty());
        }
        p
    }

    /// Moves the beacon to block `n`.  Block height never goes back.
    pub fn set_block_number(&mut self, n: u64)
        requires
            old(self).inv(),
            n >= old(self).current_block,
        ensures
            final(self).inv(),
            final(self)@ == (StateModel { block: n, ..old(self)@ }),
    {
        self.current_block = n;
        proof {
            assert(final(self)@ =~= (StateModel { block: n, ..old(self)@ }));
        }
    }

    /// The next group identifier that will be allocated.
    pub fn group_id_counter(&self) -> (r: u64)
        ensures
            r == self@.next_group_id,
    {
        self.next_group_id
    }

    /// The next request identifier that will be allocated.
    pub fn request_id_counter(&self) -> (r: u64)
        ensures
            r == self@.next_request_id,
    {
        self.next_request_id
    }

    /// Adds free funds to an account, e.g. at genesis.
    pub fn endow(&mut self, account: u64, amount: u64) -> (r: Result<(), Error>)
        requires
            old(self).inv(),
        ensures
            final(self).inv(),
            match r {
                Ok(()) => final(self)@ == (StateModel {
                    balances: old(self)@.balances.insert(account, Balances {
                        free: (bal_of(old(self)@.balances, account).free + amount) as u64,
                        reserved: bal_of(old(self)@.balances, account).reserved,
                    }),
                    ..old(self)@
                }) && bal_of(old(self)@.balances, account).free
                    + bal_of(old(self)@.balances, account).reserved + amount <= u64::MAX,
                Err(e) => e == Error::BalanceOverflow && final(self)@ == old(self)@
                    && bal_of(old(self)@.balances, account).free
                        + bal_of(old(self)@.balances, account).reserved + amount > u64::MAX,
            },
    {
        let r = self.ledger.endow(account, amount);
        proof {
            if r is Ok {
                assert(final(self)@ =~= (StateModel {
                    balances: old(self)@.balances.insert(account, Balances {
                        free: (bal_of(old(self)@.balances, account).free + amount) as u64,
                        reserved: bal_of(old(self)@.balances, account).reserved,
                    }),
                    ..old(self)@
                }));
            } else {
                assert(final(self)@ =~= old(self)@);
            }
        }
        r
    }

    /// The funds of an account.
    pub fn balance_of(&self, account: u64) -> (r: Balances)
        requires
            self.inv(),
        ensures
            r == bal_of(self@.balances, account),
    {
        self.ledger.balance_of(account)
    }

    /// The parameters of a group, if it exists.
    pub fn randao_group_info(&self, group_id: u64) -> (r: Option<RandaoInfo>)
        requires
            self.inv(),
        ensures
            match r {
                Some(info) => self@.groups.contains_key(group_id)
                    && info == self@.groups[group_id].info,
                None => !self@.groups.contains_key(group_id),
            },
    {
        proof {
            lemma_entries_contains(group_entries(self.groups@), group_id);
        }
        match find_entry(&self.groups, group_id) {
            Some(i) => {
                proof {
                    assert(group_entries(self.groups@)[i as int].0 == group_id);
                    assert(distinct_keys(group_entries(self.groups@)));
                    lemma_entries_index(group_entries(self.groups@), i as int);
                }
                Some(self.groups[i].1.info)
            },
            None => {
                proof {
                    assert(forall|j: int| 0 <= j < group_entries(self.groups@).len()
                        ==> group_entries(self.groups@)[j].0 != group_id);
                }
                None
            },
        }
    }

    /// The fixed data of an open request, if it exists.
    pub fn request_info(&self, request_id: u64) -> (r: Option<RequestInfo>)
        requires
            self.inv(),
        ensures
            match r {
                Some(info) => self@.requests.contains_key(request_id)
                    && info == self@.requests[request_id].info,
                None => !self@.requests.contains_key(request_id),
            },
    {
        proof {
            lemma_entries_contains(request_entries(self.requests@), request_id);
        }
        match find_entry(&self.requests, request_id) {
            Some(i) => {
                proof {
                    assert(request_entries(self.requests@)[i as int].0 == request_id);
                    assert(distinct_keys(request_entries(self.requests@)));
                    lemma_entries_index(request_entries(self.requests@), i as int);
                }
                Some(self.requests[i].1.info)
            },
            None => {
                proof {
                    assert(forall|j: int| 0 <= j < request_entries(self.requests@).len()
                        ==> request_entries(self.requests@)[j].0 != request_id);
                }
                None
            },
        }
    }

    /// Registers a group under the next identifier.  Only the privileged
    /// origin may; invalid parameters and counter exhaustion are rejected
    /// before any change.
    pub fn register_group(&mut self, origin: Origin, info: RandaoInfo)
        -> (r: Result<u64, Error>)
        requires
            old(self).inv(),
        ensures
            final(self).inv(),
            match r {
                Ok(id) => register_group_spec(old(self)@, origin, info)
                    == Ok::<(StateModel, u64), Error>((final(self)@, id)),
                Err(e) => register_group_spec(old(self)@, origin, info)
                    == Err::<(StateModel, u64), Error>(e) && final(self)@ == old(self)@,
            },
    {
        match origin {
            Origin::Signed(_) => {
                return Err(Error::BadOrigin);
            },
            Origin::Root => {},
        }
        if !(info.absent_penalty <= 100 && info.commit_no_reveal_penalty <= 100
            && info.commitment_delay > 0 && info.reveal_delay > 0) {
            return Err(Error::InvalidGroupParams);
        }
        if self.next_group_id == u64::MAX {
            return Err(Error::IdentifierOverflow);
        }
        let id = self.next_group_id;
        proof {
            lemma_entries_contains(group_entries(self.groups@), id);
        }
        self.groups.push((id, GroupRecord { info, members: Vec::new() }));
        self.next_group_id = id + 1;
        self.events.push(Event::GroupRegistered(id, info.coordinator));
        proof {
            let oldg = group_entries(old(self).groups@);
            assert(group_entries(self.groups@)
                =~= oldg.push((id, GroupModel { info, members: Seq::empty() })));
            lemma_entries_push(oldg, id, GroupModel { info, members: Seq::empty() });
            assert(distinct_keys(self.groups@)) by {
                assert(forall|j: int| 0 <= j < old(self).groups@.len()
                    ==> (#[trigger] old(self).groups@[j]).0 == oldg[j].0);
            }
            let target = register_group_spec(old(self)@, origin, info);
            assert(target is Ok);
            assert(final(self)@ =~= target->Ok_0.0);
            assert(wf(final(self)@));
        }
        Ok(id)
    }

    /// Whether the account still holds a participation record in any open
    /// request.
    pub fn has_open_obligation(&self, a: u64) -> (r: bool)
        requires
            self.inv(),
        ensures
            r == has_obligation(self@.requests, a),
    {
        let mut i: usize = 0;
        while i < self.requests.len()
            invariant
                self.inv(),
                i <= self.requests@.len(),
                forall|j: int| 0 <= j < i
                    ==> !request_involves((#[trigger] request_entries(self.requests@)[j]).1,
                        a),
            decreases self.requests@.len() - i,
        {
            match find_entry(&self.requests[i].1.parts, a) {
                Some(_) => {
                    proof {
                        let rid = self.requests@[i as int].0;
                        assert(request_entries(self.requests@)[i as int].0 == rid);
                        assert(distinct_keys(request_entries(self.requests@)));
                        lemma_entries_index(request_entries(self.requests@), i as int);
                        assert(self@.requests.contains_key(rid));
                        assert(request_involves(self@.requests[rid], a));
                    }
                    return true;
                },
                None => {
                    proof {
                        assert(!request_involves(request_entries(self.requests@)[i as int].1,
                            a));
                    }
                },
            }
            i = i + 1;
        }
        proof {
            if has_obligation(self@.requests, a) {
                let rid = choose|rid: u64| #[trigger] self@.requests.contains_key(rid)
                    && request_involves(self@.requests[rid], a);
                lemma_entries_contains(request_entries(self.requests@), rid);
                let j = choose|j: int| 0 <= j < request_entries(self.requests@).len()
                    && request_entries(self.requests@)[j].0 == rid;
                assert(distinct_keys(request_entries(self.requests@)));
                lemma_entries_index(request_entries(self.requests@), j);
                assert(request_involves(request_entries(self.requests@)[j].1, a));
            }
        }
        false
    }

    /// The current members of a group, if it exists.
    pub fn group_members(&self, group_id: u64) -> (r: Option<Vec<u64>>)
        requires
            self.inv(),
        ensures
            match r {
                Some(v) => self@.groups.contains_key(group_id)
                    && v@ == self@.groups[group_id].members,
                None => !self@.groups.contains_key(group_id),
            },
    {
        proof {
            lemma_entries_contains(group_entries(self.groups@), group_id);
        }
        match find_entry(&self.groups, group_id) {
            Some(i) => {
                proof {
                    assert(distinct_keys(group_entries(self.groups@)));
                    assert(group_entries(self.groups@)[i as int].0 == group_id);
                    lemma_entries_index(group_entries(self.groups@), i as int);
                }
                Some(clone_accounts(&self.groups[i].1.members))
            },
            None => {
                proof {
                    assert(forall|j: int| 0 <= j < group_entries(self.groups@).len()
                        ==> group_entries(self.groups@)[j].0 != group_id);
                }
                None
            },
        }
    }

    /// Changes a group's membership.  Only the coordinator may; each added
    /// account has the group's deposit reserved, each removed account must
    /// owe nothing to an open request and has its deposit released.  Any
    /// failure discards the whole change.
    pub fn set_members(&mut self, caller: u64, group_id: u64, additions: Vec<u64>,
        removals: Vec<u64>) -> (r: Result<(), Error>)
        requires
            old(self).inv(),
        ensures
            final(self).inv(),
            match r {
                Ok(()) => set_members_spec(old(self)@, caller, group_id, additions@,
                    removals@) == Ok::<StateModel, Error>(final(self)@),
                Err(e) => set_members_spec(old(self)@, caller, group_id, additions@,
                    removals@) == Err::<StateModel, Error>(e)
                    && final(self)@ == old(self)@,
            },
    {
        proof {
            lemma_entries_contains(group_entries(self.groups@), group_id);
        }
        let gi = match find_entry(&self.groups, group_id) {
            None => {
                proof {
                    assert(forall|j: int| 0 <= j < group_entries(self.groups@).len()
                        ==> group_entries(self.groups@)[j].0 != group_id);
                }
                return Err(Error::GroupNotFound);
            },
            Some(i) => i,
        };
        proof {
            assert(distinct_keys(group_entries(self.groups@)));
            assert(group_entries(self.groups@)[gi as int].0 == group_id);
            lemma_entries_index(group_entries(self.groups@), gi as int);
        }
        if self.groups[gi].1.info.coordinator != caller {
            return Err(Error::NotCoordinator);
        }
        let info = self.groups[gi].1.info;
        let deposit = info.deposit;
        let ghost m0 = old(self)@.groups[group_id].members;
        let ghost b0 = old(self)@.balances;
        let mut members = clone_accounts(&self.groups[gi].1.members);
        let mut ledger2 = self.ledger.duplicate();
        proof {
            assert(additions@.skip(0) =~= additions@);
        }
        let mut ai: usize = 0;
        while ai < additions.len()
            invariant
                *self == *old(self),
                old(self).inv(),
                ai <= additions@.len(),
                old(self)@.groups.contains_key(group_id),
                info == old(self)@.groups[group_id].info,
                deposit == info.deposit,
                info.coordinator == caller,
                m0 == old(self)@.groups[group_id].members,
                b0 == old(self)@.balances,
                members@.no_duplicates(),
                ledger2.inv(),
                add_members_fold(m0, b0, deposit, additions@)
                    == add_members_fold(members@, ledger2@, deposit,
                        additions@.skip(ai as int)),
            decreases additions@.len() - ai,
        {
            let ghost pre_m = members@;
            let ghost pre_b = ledger2@;
            let a = additions[ai];
            match find_account(&members, a) {
                Some(_) => {
                    proof {
                        assert(additions@.skip(ai as int)[0] == a);
                    }
                    return Err(Error::AlreadyMember);
                },
                None => {},
            }
            match ledger2.reserve(a, deposit) {
                Ok(()) => {},
                Err(e) => {
                    proof {
                        assert(additions@.skip(ai as int)[0] == a);
                    }
                    return Err(e);
                },
            }
            members.push(a);
            ai = ai + 1;
            proof {
                assert(additions@.skip(ai as int - 1)[0] == additions@[ai as int - 1]);
                assert(additions@.skip(ai as int - 1).skip(1)
                    =~= additions@.skip(ai as int));
                assert(add_members_fold(pre_m, pre_b, deposit,
                    additions@.skip(ai as int - 1))
                    == add_members_fold(members@, ledger2@, deposit,
                        additions@.skip(ai as int)));
            }
        }
        let ghost m1 = members@;
        let ghost b1 = ledger2@;
        proof {
            assert(additions@.skip(additions@.len() as int)
                =~= Seq::<u64>::empty());
            assert(add_members_fold(m0, b0, deposit, additions@)
                == Ok::<(Seq<u64>, Map<u64, Balances>), Error>((m1, b1)));
            assert(removals@.skip(0) =~= removals@);
        }
        let mut ri: usize = 0;
        while ri < removals.len()
            invariant
                *self == *old(self),
                old(self).inv(),
                ri <= removals@.len(),
                old(self)@.groups.contains_key(group_id),
                info == old(self)@.groups[group_id].info,
                deposit == info.deposit,
                info.coordinator == caller,
                m0 == old(self)@.groups[group_id].members,
                b0 == old(self)@.balances,
                add_members_fold(m0, b0, deposit, additions@)
                    == Ok::<(Seq<u64>, Map<u64, Balances>), Error>((m1, b1)),
                members@.no_duplicates(),
                ledger2.inv(),
                remove_members_fold(m1, b1, deposit, old(self)@.requests, removals@)
                    == remove_members_fold(members@, ledger2@, deposit,
                        old(self)@.requests, removals@.skip(ri as int)),
            decreases removals@.len() - ri,
        {
            let ghost pre_m = members@;
            let ghost pre_b = ledger2@;
            let a = removals[ri];
            let mi = match find_account(&members, a) {
                None => {
                    proof {
                        assert(removals@.skip(ri as int)[0] == a);
                    }
                    return Err(Error::NotAMember);
                },
                Some(i) => i,
            };
            if self.has_open_obligation(a) {
                proof {
                    assert(removals@.skip(ri as int)[0] == a);
                    assert(pre_m.contains(a));
                }
                return Err(Error::MemberHasActiveObligation);
            }
            let _released = ledger2.release(a, deposit);
            members.remove(mi);
            ri = ri + 1;
            proof {
                assert(pre_m.contains(a));
                let ci = member_index(pre_m, a);
                assert(pre_m[ci] == a && pre_m[mi as int] == a);
                assert(ci == mi as int);
                assert(members@ =~= pre_m.remove(mi as int));
                assert(members@.no_duplicates()) by {
                    assert forall|x: int, y: int|
                        0 <= x < members@.len() && 0 <= y < members@.len() && x != y
                        implies members@[x] != members@[y] by {
                        assert(members@[x] == if x < mi as int { pre_m[x] } else {
                            pre_m[x + 1]
                        });
                        assert(members@[y] == if y < mi as int { pre_m[y] } else {
                            pre_m[y + 1]
                        });
                    }
                }
                assert(removals@.skip(ri as int - 1)[0] == removals@[ri as int - 1]);
                assert(removals@.skip(ri as int - 1).skip(1)
                    =~= removals@.skip(ri as int));
                assert(remove_members_fold(pre_m, pre_b, deposit, old(self)@.requests,
                    removals@.skip(ri as int - 1))
                    == remove_members_fold(members@, ledger2@, deposit,
                        old(self)@.requests, removals@.skip(ri as int)));
            }
        }
        proof {
            assert(removals@.skip(removals@.len() as int) =~= Seq::<u64>::empty());
        }
        self.groups.set(gi, (group_id, GroupRecord { info, members }));
        self.ledger = ledger2;
        proof {
            let oldg = group_entries(old(self).groups@);
            let newgm = GroupModel { info, members: self.groups@[gi as int].1.members@ };
            assert(group_entries(self.groups@) =~= oldg.update(gi as int, (group_id,
                newgm)));
            assert(distinct_keys(oldg));
            assert(oldg[gi as int].0 == group_id);
            lemma_entries_update(oldg, gi as int, newgm);
            assert(distinct_keys(self.groups@)) by {
                assert(forall|j: int| 0 <= j < self.groups@.len()
                    ==> (#[trigger] self.groups@[j]).0 == old(self).groups@[j].0);
            }
            let target = set_members_spec(old(self)@, caller, group_id, additions@,
                removals@);
            assert(target is Ok);
            assert(final(self)@ =~= target->Ok_0);
            assert(wf(final(self)@)) by {
                assert(forall|gid2: u64| #[trigger] final(self)@.groups.contains_key(gid2)
                    <==> old(self)@.groups.contains_key(gid2));
                assert(forall|gid2: u64| #[trigger] final(self)@.groups.contains_key(gid2)
                    && gid2 != group_id
                    ==> final(self)@.groups[gid2] == old(self)@.groups[gid2]);
                assert(forall|rid2: u64| #[trigger] final(self)@.requests.contains_key(rid2)
                    ==> old(self)@.requests.contains_key(rid2)
                    && final(self)@.requests[rid2] == old(self)@.requests[rid2]);
            }
        }
        Ok(())
    }

    /// Opens a randomness request against a group.  The group must exist
    /// and have members; the requester pays the group's fee; a fresh
    /// request identifier is allocated and one empty participation record
    /// is created for every current member.  The commit window opens at
    /// the current block.
    pub fn request_randomness(&mut self, requester: u64, group_id: u64)
        -> (r: Result<u64, Error>)
        requires
            old(self).inv(),
        ensures
            final(self).inv(),
            match r {
                Ok(rid) => request_randomness_spec(old(self)@, requester, group_id)
                    == Ok::<(StateModel, u64), Error>((final(self)@, rid)),
                Err(e) => request_randomness_spec(old(self)@, requester, group_id)
                    == Err::<(StateModel, u64), Error>(e) && final(self)@ == old(self)@,
            },
    {
        proof {
            lemma_entries_contains(group_entries(self.groups@), group_id);
        }
        let gi = match find_entry(&self.groups, group_id) {
            None => {
                proof {
                    assert(forall|j: int| 0 <= j < group_entries(self.groups@).len()
                        ==> group_entries(self.groups@)[j].0 != group_id);
                }
                return Err(Error::GroupNotFound);
            },
            Some(i) => i,
        };
        proof {
            assert(distinct_keys(group_entries(self.groups@)));
            assert(group_entries(self.groups@)[gi as int].0 == group_id);
            lemma_entries_index(group_entries(self.groups@), gi as int);
        }
        if self.groups[gi].1.members.len() == 0 {
            return Err(Error::GroupEmpty);
        }
        let fee = self.groups[gi].1.info.fee;
        let b = self.ledger.balance_of(requester);
        if b.free < fee {
            return Err(Error::InsufficientBalance);
        }
        if self.next_request_id == u64::MAX {
            return Err(Error::IdentifierOverflow);
        }
        let rid = self.next_request_id;
        match self.ledger.charge_fee(requester, fee) {
            Ok(()) => {},
            Err(e) => {
                proof {
                    assert(false);
                }
                return Err(e);
            },
        }
        let cd = self.groups[gi].1.info.commitment_delay;
        let rd = self.groups[gi].1.info.reveal_delay;
        let parts = build_parts(&self.groups[gi].1.members);
        let started = self.current_block;
        proof {
            assert forall|j: int| 0 <= j < self.requests@.len()
                implies (#[trigger] self.requests@[j]).0 < rid by {
                assert(distinct_keys(request_entries(self.requests@)));
                lemma_entries_index(request_entries(self.requests@), j);
                assert(self@.requests.contains_key(self.requests@[j].0));
            }
        }
        self.requests.push((rid, RequestRecord {
            info: RequestInfo { requester, group: group_id, started },
            parts,
        }));
        self.next_request_id = rid + 1;
        let commit_end = sat_add_exec(started, cd);
        let reveal_end = sat_add_exec(commit_end, rd);
        self.events.push(Event::RandomnessRequested(group_id, rid, commit_end, reveal_end));
        proof {
            let oldreq = request_entries(old(self).requests@);
            let newm = RequestModel {
                info: RequestInfo { requester, group: group_id, started },
                parts: fresh_parts(old(self).groups@[gi as int].1.members@),
            };
            assert(request_entries(self.requests@) =~= oldreq.push((rid, newm)));
            lemma_entries_push(oldreq, rid, newm);
            assert(distinct_keys(self.requests@));
            let target = request_randomness_spec(old(self)@, requester, group_id);
            assert(target is Ok);
            assert(final(self)@ =~= target->Ok_0.0);
            assert(wf(final(self)@)) by {
                assert(forall|rid2: u64| #[trigger] final(self)@.requests.contains_key(rid2)
                    && rid2 != rid ==> old(self)@.requests.contains_key(rid2)
                    && final(self)@.requests[rid2] == old(self)@.requests[rid2]);
                assert(old(self)@.groups[group_id].members.no_duplicates());
                assert(distinct_keys(newm.parts)) by {
                    assert(forall|j: int| 0 <= j < newm.parts.len()
                        ==> (#[trigger] newm.parts[j]).0
                            == old(self)@.groups[group_id].members[j]);
                }
                assert(forall|i: int| 0 <= i < newm.parts.len()
                    ==> !((#[trigger] newm.parts[i]).1.secret is Some));
            }
        }
        Ok(rid)
    }

    /// Records the caller's commitment in an open request.  Accepted only
    /// while `current_block <= started + commitment_delay`, only for
    /// members of the request, and only once.
    pub fn commit(&mut self, caller: u64, request_id: u64, commitment: Hash256)
        -> (r: Result<(), Error>)
        requires
            old(self).inv(),
        ensures
            final(self).inv(),
            match r {
                Ok(()) => commit_spec(old(self)@, caller, request_id, commitment)
                    == Ok::<StateModel, Error>(final(self)@),
                Err(e) => commit_spec(old(self)@, caller, request_id, commitment)
                    == Err::<StateModel, Error>(e) && final(self)@ == old(self)@,
            },
    {
        proof {
            lemma_entries_contains(request_entries(self.requests@), request_id);
        }
        let ri = match find_entry(&self.requests, request_id) {
            None => {
                proof {
                    assert(forall|j: int| 0 <= j < request_entries(self.requests@).len()
                        ==> request_entries(self.requests@)[j].0 != request_id);
                }
                return Err(Error::RequestNotFound);
            },
            Some(i) => i,
        };
        proof {
            assert(distinct_keys(request_entries(self.requests@)));
            assert(request_entries(self.requests@)[ri as int].0 == request_id);
            lemma_entries_index(request_entries(self.requests@), ri as int);
        }
        let started = self.requests[ri].1.info.started;
        let gid = self.requests[ri].1.info.group;
        proof {
            assert(self@.requests.contains_key(request_id));
            assert(self@.groups.contains_key(gid));
            lemma_entries_contains(group_entries(self.groups@), gid);
        }
        let gi = match find_entry(&self.groups, gid) {
            None => {
                proof {
                    assert(false);
                }
                return Err(Error::GroupNotFound);
            },
            Some(i) => i,
        };
        proof {
            assert(distinct_keys(group_entries(self.groups@)));
            assert(group_entries(self.groups@)[gi as int].0 == gid);
            lemma_entries_index(group_entries(self.groups@), gi as int);
            assert(started <= self.current_block);
        }
        let cd = self.groups[gi].1.info.commitment_delay;
        let elapsed = self.current_block - started;
        if elapsed > cd {
            return Err(Error::NotInCommitWindow);
        }
        let pi = match find_entry(&self.requests[ri].1.parts, caller) {
            None => {
                proof {
                    assert(!request_involves(self@.requests[request_id], caller));
                }
                return Err(Error::NotAMember);
            },
            Some(i) => i,
        };
        proof {
            assert(request_involves(self@.requests[request_id], caller));
            assert(distinct_keys(self@.requests[request_id].parts));
            let parts = self@.requests[request_id].parts;
            let ci = part_index(parts, caller);
            assert(parts[ci].0 == caller && parts[pi as int].0 == caller);
            if ci < pi as int {
                assert(parts[ci].0 != parts[pi as int].0);
            } else if (pi as int) < ci {
                assert(parts[pi as int].0 != parts[ci].0);
            }
            assert(ci == pi as int);
        }
        let p = self.requests[ri].1.parts[pi].1;
        match p.commitment {
            Some(_) => {
                return Err(Error::AlreadyCommitted);
            },
            None => {},
        }
        let mut rec = self.requests.remove(ri);
        rec.1.parts.set(pi, (caller, Participation { commitment: Some(commitment),
            secret: p.secret }));
        self.requests.insert(ri, rec);
        proof {
            self.lemma_after_request_update(*old(self), ri as int, pi as int, request_id);
            let target = commit_spec(old(self)@, caller, request_id, commitment);
            assert(target is Ok);
            assert(final(self)@ =~= target->Ok_0);
        }
        Ok(())
    }

    /// Proves the state change and invariant after one participation
    /// record of one request was overwritten with an equal-keyed record
    /// whose secret, if set, sits on top of a commitment.
    proof fn lemma_after_request_update(&self, prev: Pallet, ri: int, pi: int,
        request_id: u64)
        requires
            prev.inv(),
            0 <= ri < prev.requests@.len(),
            prev.requests@[ri].0 == request_id,
            self.requests@.len() == prev.requests@.len(),
            forall|j: int| 0 <= j < prev.requests@.len() && j != ri
                ==> self.requests@[j] == prev.requests@[j],
            self.requests@[ri].0 == request_id,
            self.requests@[ri].1.info == prev.requests@[ri].1.info,
            0 <= pi < prev.requests@[ri].1.parts@.len(),
            self.requests@[ri].1.parts@.len() == prev.requests@[ri].1.parts@.len(),
            forall|j: int| 0 <= j < prev.requests@[ri].1.parts@.len() && j != pi
                ==> self.requests@[ri].1.parts@[j] == prev.requests@[ri].1.parts@[j],
            self.requests@[ri].1.parts@[pi].0 == prev.requests@[ri].1.parts@[pi].0,
            self.requests@[ri].1.parts@[pi].1.secret is Some
                ==> self.requests@[ri].1.parts@[pi].1.commitment is Some,
            self.groups@ == prev.groups@,
            self.next_group_id == prev.next_group_id,
            self.next_request_id == prev.next_request_id,
            self.ledger == prev.ledger,
            self.events@ == prev.events@,
            self.current_block == prev.current_block,
        ensures
            self.inv(),
            self@ == (StateModel {
                requests: prev@.requests.insert(request_id, self.requests@[ri].1@),
                ..prev@
            }),
    {
        let oldreq = request_entries(prev.requests@);
        let newm = self.requests@[ri].1@;
        assert(distinct_keys(self.requests@));
        assert(request_entries(self.requests@) =~= oldreq.update(ri, (request_id,
            newm)));
        assert(distinct_keys(oldreq));
        assert(oldreq[ri].0 == request_id);
        lemma_entries_update(oldreq, ri, newm);
        assert(self@ =~= (StateModel {
            requests: prev@.requests.insert(request_id, newm),
            ..prev@
        }));
        lemma_entries_index(oldreq, ri);
        assert(wf(self@)) by {
            assert(forall|rid: u64| #[trigger] self@.requests.contains_key(rid)
                && rid != request_id ==> prev@.requests.contains_key(rid)
                && self@.requests[rid] == prev@.requests[rid]);
            assert(prev@.requests.contains_key(request_id));
            let oldm = prev@.requests[request_id];
            assert(oldm == prev.requests@[ri].1@);
            assert(newm.info == oldm.info);
            assert(distinct_keys(newm.parts)) by {
                assert(forall|j: int| 0 <= j < newm.parts.len()
                    ==> (#[trigger] newm.parts[j]).0 == oldm.parts[j].0);
            }
            assert(forall|i: int| 0 <= i < newm.parts.len()
                ==> ((#[trigger] newm.parts[i]).1.secret is Some
                    ==> newm.parts[i].1.commitment is Some));
        }
    }

    /// Records the caller's secret in an open request, given the digest of
    /// that secret.  Accepted only inside the reveal window, only on top
    /// of a commitment the digest matches, and only once; a mismatch
    /// changes nothing.
    pub fn apply_reveal(&mut self, caller: u64, request_id: u64, secret: Hash256,
        digest: Hash256) -> (r: Result<(), Error>)
        requires
            old(self).inv(),
        ensures
            final(self).inv(),
            match r {
                Ok(()) => reveal_spec(old(self)@, caller, request_id, secret, digest)
                    == Ok::<StateModel, Error>(final(self)@),
                Err(e) => reveal_spec(old(self)@, caller, request_id, secret, digest)
                    == Err::<StateModel, Error>(e) && final(self)@ == old(self)@,
            },
    {
        proof {
            lemma_entries_contains(request_entries(self.requests@), request_id);
        }
        let ri = match find_entry(&self.requests, request_id) {
            None => {
                proof {
                    assert(forall|j: int| 0 <= j < request_entries(self.requests@).len()
                        ==> request_entries(self.requests@)[j].0 != request_id);
                }
                return Err(Error::RequestNotFound);
            },
            Some(i) => i,
        };
        proof {
            assert(distinct_keys(request_entries(self.requests@)));
            assert(request_entries(self.requests@)[ri as int].0 == request_id);
            lemma_entries_index(request_entries(self.requests@), ri as int);
        }
        let started = self.requests[ri].1.info.started;
        let gid = self.requests[ri].1.info.group;
        proof {
            assert(self@.requests.contains_key(request_id));
            assert(self@.groups.contains_key(gid));
            lemma_entries_contains(group_entries(self.groups@), gid);
        }
        let gi = match find_entry(&self.groups, gid) {
            None => {
                proof {
                    assert(false);
                }
                return Err(Error::GroupNotFound);
            },
            Some(i) => i,
        };
        proof {
            assert(distinct_keys(group_entries(self.groups@)));
            assert(group_entries(self.groups@)[gi as int].0 == gid);
            lemma_entries_index(group_entries(self.groups@), gi as int);
            assert(started <= self.current_block);
        }
        let cd = self.groups[gi].1.info.commitment_delay;
        let rd = self.groups[gi].1.info.reveal_delay;
        let elapsed = self.current_block - started;
        if !(elapsed > cd && (elapsed as u128) <= (cd as u128) + (rd as u128)) {
            return Err(Error::NotInRevealWindow);
        }
        let pi = match find_entry(&self.requests[ri].1.parts, caller) {
            None => {
                proof {
                    assert(!request_involves(self@.requests[request_id], caller));
                }
                return Err(Error::NoCommitment);
            },
            Some(i) => i,
        };
        proof {
            assert(request_involves(self@.requests[request_id], caller));
            assert(distinct_keys(self@.requests[request_id].parts));
            let parts = self@.requests[request_id].parts;
            let ci = part_index(parts, caller);
            assert(parts[ci].0 == caller && parts[pi as int].0 == caller);
            if ci < pi as int {
                assert(parts[ci].0 != parts[pi as int].0);
            } else if (pi as int) < ci {
                assert(parts[pi as int].0 != parts[ci].0);
            }
            assert(ci == pi as int);
        }
        let p = self.requests[ri].1.parts[pi].1;
        let c = match p.commitment {
            None => {
                return Err(Error::NoCommitment);
            },
            Some(c) => c,
        };
        if !(digest.w0 == c.w0 && digest.w1 == c.w1 && digest.w2 == c.w2
            && digest.w3 == c.w3) {
            proof {
                assert(digest != c);
            }
            return Err(Error::CommitmentMismatch);
        }
        proof {
            assert(digest == c);
        }
        match p.secret {
            Some(_) => {
                return Err(Error::AlreadyRevealed);
            },
            None => {},
        }
        let mut rec = self.requests.remove(ri);
        rec.1.parts.set(pi, (caller, Participation { commitment: p.commitment,
            secret: Some(secret) }));
        self.requests.insert(ri, rec);
        proof {
            self.lemma_after_request_update(*old(self), ri as int, pi as int, request_id);
            let target = reveal_spec(old(self)@, caller, request_id, secret, digest);
            assert(target is Ok);
            assert(final(self)@ =~= target->Ok_0);
        }
        Ok(())
    }

    /// Finalizes a request once its reveal window has fully elapsed:
    /// slashes every member that failed to commit or to reveal, emits one
    /// fulfilment event carrying the combined output, and reclaims the
    /// request's storage.  Finalizing a reclaimed request fails with
    /// `AlreadyFinalized`, with no further slashing or payout.
    pub fn finalize(&mut self, request_id: u64) -> (r: Result<Hash256, Error>)
        requires
            old(self).inv(),
        ensures
            final(self).inv(),
            match r {
                Ok(out) => finalize_spec(old(self)@, request_id)
                    == Ok::<(StateModel, Hash256), Error>((final(self)@, out)),
                Err(e) => finalize_spec(old(self)@, request_id)
                    == Err::<(StateModel, Hash256), Error>(e)
                    && final(self)@ == old(self)@,
            },
    {
        proof {
            lemma_entries_contains(request_entries(self.requests@), request_id);
        }
        let ri = match find_entry(&self.requests, request_id) {
            None => {
                proof {
                    assert(forall|j: int| 0 <= j < request_entries(self.requests@).len()
                        ==> request_entries(self.requests@)[j].0 != request_id);
                }
                if request_id < self.next_request_id {
                    return Err(Error::AlreadyFinalized);
                } else {
                    return Err(Error::RequestNotFound);
                }
            },
            Some(i) => i,
        };
        proof {
            assert(distinct_keys(request_entries(self.requests@)));
            assert(request_entries(self.requests@)[ri as int].0 == request_id);
            lemma_entries_index(request_entries(self.requests@), ri as int);
        }
        let started = self.requests[ri].1.info.started;
        let gid = self.requests[ri].1.info.group;
        proof {
            assert(self@.requests.contains_key(request_id));
            assert(self@.groups.contains_key(gid));
            lemma_entries_contains(group_entries(self.groups@), gid);
        }
        let gi = match find_entry(&self.groups, gid) {
            None => {
                proof {
                    assert(false);
                }
                return Err(Error::GroupNotFound);
            },
            Some(i) => i,
        };
        proof {
            assert(distinct_keys(group_entries(self.groups@)));
            assert(group_entries(self.groups@)[gi as int].0 == gid);
            lemma_entries_index(group_entries(self.groups@), gi as int);
            assert(started <= self.current_block);
            assert(valid_params(self@.groups[gid].info));
        }
        let info = self.groups[gi].1.info;
        let elapsed = self.current_block - started;
        if (elapsed as u128) <= (info.commitment_delay as u128)
            + (info.reveal_delay as u128) {
            return Err(Error::RevealWindowNotElapsed);
        }
        let ghost prior = self@;
        let rec = self.requests.remove(ri);
        proof {
            let oldreq = request_entries(old(self).requests@);
            assert(request_entries(self.requests@) =~= oldreq.remove(ri as int));
            lemma_entries_remove(oldreq, ri as int);
            assert(distinct_keys(self.requests@));
        }
        let ghost reqs_after = self.requests@;
        let ghost parts_seq = rec.1.parts@;
        let ghost bal0 = self@.balances;
        let ghost ev0 = self@.events;
        proof {
            assert(parts_seq.skip(0) =~= parts_seq);
            assert(forall|i: int| 0 <= i < parts_seq.len()
                ==> ((#[trigger] parts_seq[i]).1.secret is Some
                    ==> parts_seq[i].1.commitment is Some));
        }
        let mut out = Hash256::zero();
        let mut pi: usize = 0;
        while pi < rec.1.parts.len()
            invariant
                pi <= parts_seq.len(),
                rec.1.parts@ == parts_seq,
                rec.1.info.group == gid,
                old(self)@.requests.contains_key(request_id),
                old(self)@.requests[request_id] == rec.1@,
                old(self)@.block - rec.1.info.started > info.commitment_delay
                    + info.reveal_delay,
                old(self)@.groups.contains_key(gid),
                info == old(self)@.groups[gid].info,
                info.absent_penalty <= 100,
                info.commit_no_reveal_penalty <= 100,
                forall|i: int| 0 <= i < parts_seq.len()
                    ==> ((#[trigger] parts_seq[i]).1.secret is Some
                        ==> parts_seq[i].1.commitment is Some),
                self.ledger.inv(),
                self.groups@ == old(self).groups@,
                self.requests@ == reqs_after,
                self@.requests == old(self)@.requests.remove(request_id),
                self.next_group_id == old(self).next_group_id,
                self.next_request_id == old(self).next_request_id,
                self.current_block == old(self).current_block,
                bal0 == old(self)@.balances,
                ev0 == old(self)@.events,
                out == xor_of_reveals(parts_seq.take(pi as int)),
                settle_parts(bal0, ev0, gid, info, parts_seq)
                    == settle_parts(self@.balances, self@.events, gid, info,
                        parts_seq.skip(pi as int)),
            decreases parts_seq.len() - pi,
        {
            let ghost pre_bal = self@.balances;
            let ghost pre_ev = self@.events;
            let p = rec.1.parts[pi];
            match (p.1.commitment, p.1.secret) {
                (Some(_), Some(sec)) => {
                    out = mix(&out, &sec);
                },
                (Some(_), None) => {
                    let pen = penalty_exec(info.deposit, info.commit_no_reveal_penalty);
                    let act = self.ledger.slash(p.0, pen);
                    self.events.push(Event::MemberSlashed(gid, p.0, act,
                        SlashReason::CommitNoReveal));
                },
                (None, _) => {
                    let pen = penalty_exec(info.deposit, info.absent_penalty);
                    let act = self.ledger.slash(p.0, pen);
                    self.events.push(Event::MemberSlashed(gid, p.0, act,
                        SlashReason::Absent));
                },
            }
            pi = pi + 1;
            proof {
                assert(parts_seq.take(pi as int).drop_last() =~= parts_seq.take(pi as int
                    - 1));
                assert(parts_seq.take(pi as int).last() == parts_seq[pi as int - 1]);
                assert(out == xor_of_reveals(parts_seq.take(pi as int)));
                let rest = parts_seq.skip(pi as int - 1);
                assert(rest[0] == parts_seq[pi as int - 1]);
                assert(rest.skip(1) =~= parts_seq.skip(pi as int));
                assert((self@.balances, self@.events)
                    == settle_one(pre_bal, pre_ev, gid, info, parts_seq[pi as int - 1]));
                assert(settle_parts(pre_bal, pre_ev, gid, info, rest)
                    == settle_parts(self@.balances, self@.events, gid, info,
                        parts_seq.skip(pi as int)));
            }
        }
        self.events.push(Event::RandomnessFulfilled(gid, request_id, out));
        proof {
            assert(parts_seq.take(parts_seq.len() as int) =~= parts_seq);
            assert(parts_seq.skip(parts_seq.len() as int)
                =~= Seq::<(u64, Participation)>::empty());
            let target = finalize_spec(old(self)@, request_id);
            assert(target is Ok);
            assert(final(self)@ =~= target->Ok_0.0);
            assert(wf(final(self)@)) by {
                assert(forall|rid2: u64| #[trigger] final(self)@.requests.contains_key(rid2)
                    ==> old(self)@.requests.contains_key(rid2)
                    && final(self)@.requests[rid2] == old(self)@.requests[rid2]);
            }
        }
        Ok(out)
    }

    /// Records the caller's secret in an open request.  It succeeds
    /// exactly when the secret hashes to the commitment made earlier and
    /// the reveal window is open; any mismatch is rejected without
    /// touching the participation record.
    pub fn reveal_secret(&mut self, caller: u64, request_id: u64, secret: Hash256)
        -> (r: Result<(), Error>)
        requires
            old(self).inv(),
        ensures
            final(self).inv(),
            match r {
                Ok(()) => reveal_spec(old(self)@, caller, request_id, secret,
                    commitment_spec(secret)) == Ok::<StateModel, Error>(final(self)@),
                Err(e) => reveal_spec(old(self)@, caller, request_id, secret,
                    commitment_spec(secret)) == Err::<StateModel, Error>(e)
                    && final(self)@ == old(self)@,
            },
    {
        let digest = commitment_of(&secret);
        self.apply_reveal(caller, request_id, secret, digest)
    }
}

} // verus!
