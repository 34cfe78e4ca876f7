//! Consensus over operating-system operations, decided by a percentage
//! threshold.
//!
//! A [`Module`] keeps the engine state: pending operations, the vote ledger,
//! the approved validators, per-device trust levels, and the history of
//! finalized operations. Validators cast at most one vote per operation; after
//! each vote the engine tallies the ledger and, once at least `minimum_votes`
//! votes (abstentions included) are in, decides. The decision compares the
//! approve share of the non-abstain votes — `approve * 100 / (approve + deny)`,
//! read as 0 when every vote abstained — against `approval_threshold`. On a
//! decision the operation moves to the history together with its
//! [`ConsensusResult`], its votes are purged, and the emitted events record the
//! outcome.

use vstd::prelude::*;

use crate::table::{
    has_key, lemma_remove_key, lemma_remove_key_at_index, lemma_val_of_implies_index,
    lemma_val_of_push, remove_key, unique_keys, val_of,
};
use crate::tally::{count_matching, lemma_count_matching_permutation};

verus! {

/// Categories of operating-system operations that may be put to a vote.
#[derive(Clone, Copy, PartialEq, Eq, Structural, Debug)]
pub enum OperationType {
    /// Operations with elevated privileges.
    Sudo,
    /// File system writes to critical paths.
    FileWrite,
    /// Network operations.
    Network,
    /// Device access (camera, microphone, and the like).
    Device,
    /// Process execution.
    Process,
    /// Memory operations.
    Memory,
}

/// A validator's voting decision.
#[derive(Clone, Copy, PartialEq, Eq, Structural, Debug)]
pub enum Vote {
    Approve,
    Deny,
    Abstain,
}

/// A requested operating-system operation.
#[derive(Clone, PartialEq, Eq, Debug)]
pub struct OSOperation {
    /// Who is requesting the operation.
    pub requester: u64,
    /// The category of the operation.
    pub operation_type: OperationType,
    /// Operation details (command, file path, and the like).
    pub details: Vec<u8>,
    /// The device that originated the request.
    pub origin_device: Vec<u8>,
    /// Logical clock value supplied by the caller at submission.
    pub requested_at: u32,
}

/// The tally recorded when an operation is finalized.
#[derive(Clone, Copy, PartialEq, Eq, Structural, Debug)]
pub struct ConsensusResult {
    /// Votes received in all, abstentions included.
    pub total_votes: u32,
    /// Approve votes.
    pub approve_votes: u32,
    /// Deny votes.
    pub deny_votes: u32,
    /// Whether the approval threshold was met.
    pub approved: bool,
}

/// Why a call was rejected. A rejected call leaves the engine unchanged.
#[derive(Clone, Copy, PartialEq, Eq, Structural, Debug)]
pub enum Error {
    /// The operation is not pending and was never finalized.
    OperationNotFound,
    /// The caller already voted on this operation.
    AlreadyVoted,
    /// The caller is not an approved validator.
    NotValidator,
    /// The operation was already finalized.
    ConsensusAlreadyReached,
    /// The submitted operation failed structural validation.
    InvalidOperation,
    /// The caller may not perform this call.
    InsufficientPermissions,
}

/// Notifications handed to the surrounding system's event sink.
#[derive(Clone, PartialEq, Eq, Debug)]
pub enum Event {
    /// An operation was submitted for consensus: operation id, requester.
    OperationSubmitted(u32, u64),
    /// A validator voted on an operation: operation id, voter, vote.
    VoteCast(u32, u64, Vote),
    /// Consensus was reached for an operation: operation id, approved.
    ConsensusReached(u32, bool),
    /// An approved operation was executed: operation id.
    OperationExecuted(u32),
    /// A validator was added.
    ValidatorAdded(u64),
    /// A device trust level was updated: device, stored level.
    DeviceTrustUpdated(Vec<u8>, u32),
}

/// One ledger entry: a vote keyed by operation id and voter.
#[derive(Clone, Copy, PartialEq, Eq, Structural, Debug)]
pub struct VoteRecord {
    pub operation_id: u32,
    pub voter: u64,
    pub vote: Vote,
}

/// The vote stored in `s` for `(op, voter)`, if any.
pub open spec fn vote_lookup(s: Seq<VoteRecord>, op: u32, voter: u64) -> Option<Vote>
    decreases s.len(),
{
    if s.len() == 0 {
        None
    } else if s.last().operation_id == op && s.last().voter == voter {
        Some(s.last().vote)
    } else {
        vote_lookup(s.drop_last(), op, voter)
    }
}

/// The votes recorded for `op`, in ledger order.
pub open spec fn votes_of(s: Seq<VoteRecord>, op: u32) -> Seq<Vote>
    decreases s.len(),
{
    if s.len() == 0 {
        Seq::empty()
    } else if s.last().operation_id == op {
        votes_of(s.drop_last(), op).push(s.last().vote)
    } else {
        votes_of(s.drop_last(), op)
    }
}

/// The ledger with every vote for `op` removed.
pub open spec fn purge_votes(s: Seq<VoteRecord>, op: u32) -> Seq<VoteRecord>
    decreases s.len(),
{
    if s.len() == 0 {
        s
    } else if s.last().operation_id == op {
        purge_votes(s.drop_last(), op)
    } else {
        purge_votes(s.drop_last(), op).push(s.last())
    }
}

/// At most one vote per `(operation, voter)` pair.
pub open spec fn vote_keys_unique(s: Seq<VoteRecord>) -> bool {
    forall|i: int, j: int|
        0 <= i < j < s.len() ==> !((#[trigger] s[i]).operation_id == (#[trigger] s[j]).operation_id
            && s[i].voter == s[j].voter)
}

/// A ledger entry at some index is found by `vote_lookup`.
pub proof fn lemma_vote_index_implies_lookup(s: Seq<VoteRecord>, i: int)
    requires
        0 <= i < s.len(),
    ensures
        vote_lookup(s, s[i].operation_id, s[i].voter) is Some,
    decreases s.len(),
{
    if !(s.last().operation_id == s[i].operation_id && s.last().voter == s[i].voter) {
        lemma_vote_index_implies_lookup(s.drop_last(), i);
    }
}

/// Counted votes and purged entries partition the ledger.
pub proof fn lemma_votes_of_len(s: Seq<VoteRecord>, op: u32)
    ensures
        votes_of(s, op).len() <= s.len(),
        purge_votes(s, op).len() + votes_of(s, op).len() == s.len(),
    decreases s.len(),
{
    if s.len() > 0 {
        lemma_votes_of_len(s.drop_last(), op);
    }
}

/// Purging `op` keeps exactly the entries of other operations, in order; with a
/// unique ledger the kept part is unique again.
pub proof fn lemma_purge_votes(s: Seq<VoteRecord>, op: u32)
    requires
        vote_keys_unique(s),
    ensures
        vote_keys_unique(purge_votes(s, op)),
        purge_votes(s, op).len() <= s.len(),
        forall|i: int|
            0 <= i < purge_votes(s, op).len() ==> s.contains(#[trigger] purge_votes(s, op)[i])
                && purge_votes(s, op)[i].operation_id != op,
    decreases s.len(),
{
    if s.len() == 0 {
    } else {
        let d = s.drop_last();
        let r = purge_votes(s, op);
        let rd = purge_votes(d, op);
        lemma_purge_votes(d, op);
        assert(forall|i: int| 0 <= i < d.len() ==> #[trigger] d[i] == s[i]);
        assert(forall|p: VoteRecord| d.contains(p) ==> s.contains(p));
        if s.last().operation_id == op {
            assert(forall|i: int| 0 <= i < rd.len() ==> s.contains(#[trigger] rd[i]));
        } else {
            assert(r.drop_last() =~= rd);
            assert(r.last() == s.last());
            assert(forall|i: int| 0 <= i < rd.len() ==> #[trigger] r[i] == rd[i]);
            assert(r[r.len() - 1] == s[s.len() - 1]);
            assert(forall|i: int| 0 <= i < r.len() ==> s.contains(#[trigger] r[i]));
            assert forall|i: int| 0 <= i < rd.len() implies !((#[trigger] rd[i]).operation_id
                == s.last().operation_id && rd[i].voter == s.last().voter) by {
                assert(d.contains(rd[i]));
                let ii = choose|ii: int| 0 <= ii < d.len() && d[ii] == rd[i];
                assert(s[ii] == rd[i]);
                assert(!(s[ii].operation_id == s[s.len() - 1].operation_id && s[ii].voter == s[s.len()
                    - 1].voter));
            }
            assert forall|i: int, j: int| 0 <= i < j < r.len() implies !((#[trigger] r[i]).operation_id
                == (#[trigger] r[j]).operation_id && r[i].voter == r[j].voter) by {
                if j < r.len() - 1 {
                    assert(!(rd[i].operation_id == rd[j].operation_id && rd[i].voter == rd[j].voter));
                } else {
                    assert(r[i] == rd[i]);
                    assert(r[j] == s.last());
                }
            }
        }
    }
}

/// The voters behind the votes recorded for `op`, in ledger order.
pub open spec fn voters_of(s: Seq<VoteRecord>, op: u32) -> Seq<u64>
    decreases s.len(),
{
    if s.len() == 0 {
        Seq::empty()
    } else if s.last().operation_id == op {
        voters_of(s.drop_last(), op).push(s.last().voter)
    } else {
        voters_of(s.drop_last(), op)
    }
}

/// There is one counted voter per counted vote, and each of them cast some
/// vote on `op` in the ledger.
proof fn lemma_voters_of_from_ledger(s: Seq<VoteRecord>, op: u32)
    ensures
        voters_of(s, op).len() == votes_of(s, op).len(),
        forall|x: u64|
            voters_of(s, op).contains(x) ==> exists|j: int|
                0 <= j < s.len() && (#[trigger] s[j]).operation_id == op && s[j].voter == x,
    decreases s.len(),
{
    if s.len() == 0 {
    } else {
        let d = s.drop_last();
        lemma_voters_of_from_ledger(d, op);
        assert(forall|i: int| 0 <= i < d.len() ==> #[trigger] d[i] == s[i]);
        let cur = voters_of(s, op);
        let prev = voters_of(d, op);
        assert forall|x: u64|
            cur.contains(x) implies exists|j: int|
            0 <= j < s.len() && (#[trigger] s[j]).operation_id == op && s[j].voter == x by {
            let i = choose|i: int| 0 <= i < cur.len() && cur[i] == x;
            if s.last().operation_id == op && i == cur.len() - 1 {
                assert(s[s.len() - 1].operation_id == op && s[s.len() - 1].voter == x);
            } else {
                assert(prev[i] == x);
                assert(prev.contains(x));
                let j = choose|j: int|
                    0 <= j < d.len() && (#[trigger] d[j]).operation_id == op && d[j].voter == x;
                assert(s[j].operation_id == op && s[j].voter == x);
            }
        }
    }
}

/// With one vote per pair, the counted voters are pairwise distinct.
proof fn lemma_voters_of_distinct(s: Seq<VoteRecord>, op: u32)
    requires
        vote_keys_unique(s),
    ensures
        voters_of(s, op).no_duplicates(),
    decreases s.len(),
{
    if s.len() == 0 {
    } else {
        let d = s.drop_last();
        lemma_voters_of_distinct(d, op);
        assert(forall|i: int| 0 <= i < d.len() ==> #[trigger] d[i] == s[i]);
        if s.last().operation_id == op {
            let prev = voters_of(d, op);
            let cur = voters_of(s, op);
            assert(!prev.contains(s.last().voter)) by {
                if prev.contains(s.last().voter) {
                    lemma_voters_of_from_ledger(d, op);
                    let j = choose|j: int|
                        0 <= j < d.len() && (#[trigger] d[j]).operation_id == op && d[j].voter
                            == s.last().voter;
                    assert(s[j].operation_id == s[s.len() - 1].operation_id && s[j].voter == s[s.len()
                        - 1].voter);
                }
            }
            assert forall|i: int, j: int|
                0 <= i < cur.len() && 0 <= j < cur.len() && i != j implies cur[i] != cur[j] by {
                if i < cur.len() - 1 && j < cur.len() - 1 {
                    assert(prev[i] == cur[i] && prev[j] == cur[j]);
                } else if i == cur.len() - 1 {
                    assert(prev[j] == cur[j]);
                    assert(prev.contains(prev[j]));
                } else {
                    assert(prev[i] == cur[i]);
                    assert(prev.contains(prev[i]));
                }
            }
        }
    }
}

/// The participation bound: the votes counted for one operation never
/// outnumber the approved validators, since each counted vote names a
/// distinct registered validator.
pub proof fn lemma_votes_bounded_by_validators(m: Module, op: u32)
    requires
        m.wf(),
    ensures
        votes_of(m.votes@, op).len() <= m.validators@.len(),
{
    broadcast use vstd::set::group_set_axioms;
    broadcast use vstd::seq_lib::seq_to_set_is_finite;

    let vo = voters_of(m.votes@, op);
    lemma_voters_of_from_ledger(m.votes@, op);
    lemma_voters_of_distinct(m.votes@, op);
    vo.unique_seq_to_set();
    assert forall|x: u64|
        vo.to_set().contains(x) implies m.validators@.to_set().contains(x) by {
        assert(vo.contains(x));
        let j = choose|j: int|
            0 <= j < m.votes@.len() && (#[trigger] m.votes@[j]).operation_id == op
                && m.votes@[j].voter == x;
        assert(m.validators@.contains(x));
    }
    assert(vo.to_set().subset_of(m.validators@.to_set()));
    m.validators@.lemma_cardinality_of_set();
    vstd::set_lib::lemma_len_subset(vo.to_set(), m.validators@.to_set());
}

/// Count of approve votes.
pub open spec fn approve_count(vs: Seq<Vote>) -> nat {
    count_matching(vs, Vote::Approve)
}

/// Count of deny votes.
pub open spec fn deny_count(vs: Seq<Vote>) -> nat {
    count_matching(vs, Vote::Deny)
}

/// The approve share of the non-abstain votes, in integer percent; 0 when
/// every vote abstained, so a quorum of abstentions alone never approves.
pub open spec fn approval_percentage(approve: nat, deny: nat) -> nat {
    if approve + deny > 0 {
        (approve * 100) / (approve + deny)
    } else {
        0
    }
}

/// Whether a vote sequence clears the percentage threshold.
pub open spec fn spec_approved(vs: Seq<Vote>, threshold: u32) -> bool {
    approval_percentage(approve_count(vs), deny_count(vs)) >= threshold
}

/// The result recorded when `vs` is finalized under `threshold`.
pub open spec fn spec_consensus_result(vs: Seq<Vote>, threshold: u32) -> ConsensusResult {
    ConsensusResult {
        total_votes: vs.len() as u32,
        approve_votes: approve_count(vs) as u32,
        deny_votes: deny_count(vs) as u32,
        approved: spec_approved(vs, threshold),
    }
}

/// Whether a vote sequence reaches the quorum. Abstentions count toward it.
pub open spec fn quorum_reached(vs: Seq<Vote>, minimum_votes: u32) -> bool {
    vs.len() >= minimum_votes
}

/// The events a finalization emits: the decision and, if approved, the
/// execution notification.
pub open spec fn consensus_events(op: u32, approved: bool) -> Seq<Event> {
    if approved {
        seq![Event::ConsensusReached(op, true), Event::OperationExecuted(op)]
    } else {
        seq![Event::ConsensusReached(op, false)]
    }
}

/// Tallying is order-independent: two vote sequences holding the same votes
/// the same number of times — however they are ordered — reach the quorum
/// together and are finalized to the same result.
pub proof fn lemma_consensus_order_independent(
    vs1: Seq<Vote>,
    vs2: Seq<Vote>,
    minimum_votes: u32,
    threshold: u32,
)
    requires
        vs1.to_multiset() == vs2.to_multiset(),
    ensures
        quorum_reached(vs1, minimum_votes) == quorum_reached(vs2, minimum_votes),
        spec_consensus_result(vs1, threshold) == spec_consensus_result(vs2, threshold),
{
    broadcast use vstd::seq_lib::group_to_multiset_ensures;

    assert(vs1.len() == vs1.to_multiset().len());
    assert(vs2.len() == vs2.to_multiset().len());
    lemma_count_matching_permutation(vs1, vs2);
}

/// An operation stays pending below the quorum, however skewed the votes are:
/// with fewer than `minimum_votes` votes no result is produced.
pub proof fn lemma_below_quorum_stays_pending(vs: Seq<Vote>, minimum_votes: u32)
    requires
        vs.len() < minimum_votes,
    ensures
        !quorum_reached(vs, minimum_votes),
{
}

/// The trust level stored for a device tag, read by byte content.
pub open spec fn trust_of(s: Seq<(Vec<u8>, u32)>, device: Seq<u8>) -> Option<u32>
    decreases s.len(),
{
    if s.len() == 0 {
        None
    } else if s.last().0@ == device {
        Some(s.last().1)
    } else {
        trust_of(s.drop_last(), device)
    }
}

/// The trust table with every entry for `device` removed.
pub open spec fn remove_trust(s: Seq<(Vec<u8>, u32)>, device: Seq<u8>) -> Seq<(Vec<u8>, u32)>
    decreases s.len(),
{
    if s.len() == 0 {
        s
    } else if s.last().0@ == device {
        remove_trust(s.drop_last(), device)
    } else {
        remove_trust(s.drop_last(), device).push(s.last())
    }
}

/// At most one trust entry per device tag, compared by byte content.
pub open spec fn trust_keys_unique(s: Seq<(Vec<u8>, u32)>) -> bool {
    forall|i: int, j: int|
        0 <= i < j < s.len() ==> (#[trigger] s[i]).0@ != (#[trigger] s[j]).0@
}

/// Removing a device leaves every other device's trust level as it was, and a
/// unique table unique; the kept entries all come from the old table.
pub proof fn lemma_remove_trust(s: Seq<(Vec<u8>, u32)>, device: Seq<u8>)
    requires
        trust_keys_unique(s),
    ensures
        trust_keys_unique(remove_trust(s, device)),
        trust_of(remove_trust(s, device), device) is None,
        forall|d: Seq<u8>|
            d != device ==> #[trigger] trust_of(remove_trust(s, device), d) == trust_of(s, d),
        remove_trust(s, device).len() <= s.len(),
        forall|i: int|
            0 <= i < remove_trust(s, device).len() ==> s.contains(
                #[trigger] remove_trust(s, device)[i],
            ),
    decreases s.len(),
{
    if s.len() == 0 {
    } else {
        let d = s.drop_last();
        let r = remove_trust(s, device);
        let rd = remove_trust(d, device);
        lemma_remove_trust(d, device);
        assert(forall|i: int| 0 <= i < d.len() ==> #[trigger] d[i] == s[i]);
        assert(forall|p: (Vec<u8>, u32)| d.contains(p) ==> s.contains(p));
        if s.last().0@ == device {
            assert(forall|i: int| 0 <= i < rd.len() ==> s.contains(#[trigger] rd[i]));
            assert forall|m: Seq<u8>| m != device implies #[trigger] trust_of(r, m) == trust_of(
                s,
                m,
            ) by {
                assert(trust_of(s, m) == trust_of(d, m));
            }
        } else {
            assert(r.drop_last() =~= rd);
            assert(r.last() == s.last());
            assert(forall|i: int| 0 <= i < rd.len() ==> #[trigger] r[i] == rd[i]);
            assert(r[r.len() - 1] == s[s.len() - 1]);
            assert(forall|i: int| 0 <= i < r.len() ==> s.contains(#[trigger] r[i]));
            assert forall|i: int| 0 <= i < rd.len() implies (#[trigger] rd[i]).0@ != s.last().0@ by {
                assert(d.contains(rd[i]));
                let ii = choose|ii: int| 0 <= ii < d.len() && d[ii] == rd[i];
                assert(s[ii] == rd[i]);
                assert(s[ii].0@ != s[s.len() - 1].0@);
            }
            assert forall|i: int, j: int| 0 <= i < j < r.len() implies (#[trigger] r[i]).0@ != (
            #[trigger] r[j]).0@ by {
                if j < r.len() - 1 {
                    assert(rd[i].0@ != rd[j].0@);
                } else {
                    assert(r[i] == rd[i]);
                    assert(r[j] == s.last());
                }
            }
            assert forall|m: Seq<u8>| m != device implies #[trigger] trust_of(r, m) == trust_of(
                s,
                m,
            ) by {
                if r.last().0@ == m {
                } else {
                    assert(trust_of(r, m) == trust_of(rd, m));
                    assert(trust_of(s, m) == trust_of(d, m));
                }
            }
            assert(trust_of(r, device) == trust_of(rd, device));
        }
    }
}

/// A trust entry at some index is found by `trust_of`.
pub proof fn lemma_trust_index_implies_lookup(s: Seq<(Vec<u8>, u32)>, i: int)
    requires
        0 <= i < s.len(),
    ensures
        trust_of(s, s[i].0@) is Some,
    decreases s.len(),
{
    if s.last().0@ != s[i].0@ {
        lemma_trust_index_implies_lookup(s.drop_last(), i);
    }
}

/// The consensus engine: configuration, live state, history, and the events
/// emitted so far.
pub struct Module {
    /// Quorum: votes required before a decision can be rendered.
    pub minimum_votes: u32,
    /// Percentage of non-abstain votes that must approve.
    pub approval_threshold: u32,
    /// The id the next submitted operation receives.
    pub next_operation_id: u32,
    /// Pending operations awaiting consensus, keyed by operation id.
    pub pending: Vec<(u32, OSOperation)>,
    /// The vote ledger: at most one entry per (operation, voter).
    pub votes: Vec<VoteRecord>,
    /// Approved validators who may vote.
    pub validators: Vec<u64>,
    /// Device trust levels, 0 through 100, keyed by device tag.
    pub device_trust: Vec<(Vec<u8>, u32)>,
    /// Finalized operations with their consensus result, keyed by id.
    pub history: Vec<(u32, (OSOperation, ConsensusResult))>,
    /// Events emitted so far, oldest first.
    pub events: Vec<Event>,
}

impl Module {
    /// The engine invariant: ids are unique and below the id counter, a
    /// finalized id is never pending, every vote points at a pending operation
    /// and a registered validator with at most one vote per pair, trust levels
    /// are clamped, and the ledger fits the 32-bit tally.
    pub open spec fn wf(self) -> bool {
        &&& 1 <= self.minimum_votes
        &&& self.approval_threshold <= 100
        &&& 1 <= self.next_operation_id
        &&& unique_keys(self.pending@)
        &&& forall|i: int|
            0 <= i < self.pending@.len() ==> 1 <= (#[trigger] self.pending@[i]).0
                < self.next_operation_id
        &&& unique_keys(self.history@)
        &&& forall|i: int|
            0 <= i < self.history@.len() ==> 1 <= (#[trigger] self.history@[i]).0
                < self.next_operation_id
        &&& forall|i: int|
            0 <= i < self.history@.len() ==> !has_key(
                self.pending@,
                (#[trigger] self.history@[i]).0,
            )
        &&& vote_keys_unique(self.votes@)
        &&& forall|i: int|
            0 <= i < self.votes@.len() ==> has_key(
                self.pending@,
                (#[trigger] self.votes@[i]).operation_id,
            )
        &&& forall|i: int|
            0 <= i < self.votes@.len() ==> self.validators@.contains(
                (#[trigger] self.votes@[i]).voter,
            )
        &&& forall|i: int, j: int|
            0 <= i < j < self.validators@.len() ==> (#[trigger] self.validators@[i]) != (
            #[trigger] self.validators@[j])
        &&& trust_keys_unique(self.device_trust@)
        &&& forall|i: int|
            0 <= i < self.device_trust@.len() ==> (#[trigger] self.device_trust@[i]).1 <= 100
        &&& self.votes@.len() <= u32::MAX
    }

    /// A fresh engine with the given configuration and no state.
    pub fn new(minimum_votes: u32, approval_threshold: u32) -> (m: Module)
        requires
            1 <= minimum_votes,
            approval_threshold <= 100,
        ensures
            m.wf(),
            m.minimum_votes == minimum_votes,
            m.approval_threshold == approval_threshold,
            m.next_operation_id == 1,
            m.pending@.len() == 0,
            m.votes@.len() == 0,
            m.validators@.len() == 0,
            m.device_trust@.len() == 0,
            m.history@.len() == 0,
            m.events@.len() == 0,
    {
        Module {
            minimum_votes,
            approval_threshold,
            next_operation_id: 1,
            pending: Vec::new(),
            votes: Vec::new(),
            validators: Vec::new(),
            device_trust: Vec::new(),
            history: Vec::new(),
            events: Vec::new(),
        }
    }

    /// The index of the pending entry for `operation_id`, if the operation is
    /// pending.
    fn find_pending(&self, operation_id: u32) -> (r: Option<usize>)
        ensures
            match r {
                Some(i) => i < self.pending@.len() && self.pending@[i as int].0 == operation_id
                    && val_of(self.pending@, operation_id) == Some(self.pending@[i as int].1),
                None => !has_key(self.pending@, operation_id),
            },
    {
        let ghost s = self.pending@;
        let mut i: usize = self.pending.len();
        proof {
            assert(s.take(s.len() as int) =~= s);
        }
        while i > 0
            invariant
                i <= s.len(),
                s == self.pending@,
                val_of(s, operation_id) == val_of(s.take(i as int), operation_id),
            decreases i,
        {
            i = i - 1;
            proof {
                assert(s.take(i as int + 1).drop_last() =~= s.take(i as int));
                assert(s.take(i as int + 1).last() == s[i as int]);
            }
            if self.pending[i].0 == operation_id {
                return Some(i);
            }
        }
        proof {
            assert(s.take(0).len() == 0);
        }
        None
    }

    /// The index of the history entry for `operation_id`, if the operation was
    /// finalized.
    fn find_history(&self, operation_id: u32) -> (r: Option<usize>)
        ensures
            match r {
                Some(i) => i < self.history@.len() && self.history@[i as int].0 == operation_id
                    && val_of(self.history@, operation_id) == Some(self.history@[i as int].1),
                None => !has_key(self.history@, operation_id),
            },
    {
        let ghost s = self.history@;
        let mut i: usize = self.history.len();
        proof {
            assert(s.take(s.len() as int) =~= s);
        }
        while i > 0
            invariant
                i <= s.len(),
                s == self.history@,
                val_of(s, operation_id) == val_of(s.take(i as int), operation_id),
            decreases i,
        {
            i = i - 1;
            proof {
                assert(s.take(i as int + 1).drop_last() =~= s.take(i as int));
                assert(s.take(i as int + 1).last() == s[i as int]);
            }
            if self.history[i].0 == operation_id {
                return Some(i);
            }
        }
        proof {
            assert(s.take(0).len() == 0);
        }
        None
    }

    /// Whether `who` is an approved validator.
    pub fn approved_validators(&self, who: u64) -> (r: bool)
        ensures
            r == self.validators@.contains(who),
    {
        let mut i: usize = 0;
        while i < self.validators.len()
            invariant
                i <= self.validators@.len(),
                forall|j: int| 0 <= j < i ==> self.validators@[j] != who,
            decreases self.validators@.len() - i,
        {
            if self.validators[i] == who {
                return true;
            }
            i = i + 1;
        }
        false
    }

    /// The vote a validator has recorded on an operation, if any.
    pub fn operation_votes(&self, operation_id: u32, voter: u64) -> (r: Option<Vote>)
        ensures
            r == vote_lookup(self.votes@, operation_id, voter),
    {
        let ghost s = self.votes@;
        let mut i: usize = self.votes.len();
        proof {
            assert(s.take(s.len() as int) =~= s);
        }
        while i > 0
            invariant
                i <= s.len(),
                s == self.votes@,
                vote_lookup(s, operation_id, voter) == vote_lookup(
                    s.take(i as int),
                    operation_id,
                    voter,
                ),
            decreases i,
        {
            i = i - 1;
            proof {
                assert(s.take(i as int + 1).drop_last() =~= s.take(i as int));
                assert(s.take(i as int + 1).last() == s[i as int]);
            }
            let rec = self.votes[i];
            if rec.operation_id == operation_id && rec.voter == voter {
                return Some(rec.vote);
            }
        }
        proof {
            assert(s.take(0).len() == 0);
        }
        None
    }

    /// Tally the ledger for one operation: all votes, approvals, denials.
    fn tally_votes(&self, operation_id: u32) -> (r: (u32, u32, u32))
        requires
            self.votes@.len() <= u32::MAX,
        ensures
            ({
                let vs = votes_of(self.votes@, operation_id);
                &&& r.0 == vs.len()
                &&& r.1 == approve_count(vs)
                &&& r.2 == deny_count(vs)
                &&& r.1 + r.2 <= r.0
            }),
    {
        let ghost s = self.votes@;
        let mut total: u32 = 0;
        let mut approve: u32 = 0;
        let mut deny: u32 = 0;
        let mut i: usize = 0;
        while i < self.votes.len()
            invariant
                i <= s.len(),
                s == self.votes@,
                s.len() <= u32::MAX,
                total == votes_of(s.take(i as int), operation_id).len(),
                approve == approve_count(votes_of(s.take(i as int), operation_id)),
                deny == deny_count(votes_of(s.take(i as int), operation_id)),
                approve + deny <= total <= i,
            decreases s.len() - i,
        {
            proof {
                assert(s.take(i as int + 1).drop_last() =~= s.take(i as int));
                assert(s.take(i as int + 1).last() == s[i as int]);
                let vs_i = votes_of(s.take(i as int), operation_id);
                if s[i as int].operation_id == operation_id {
                    assert(vs_i.push(s[i as int].vote).drop_last() =~= vs_i);
                }
            }
            let rec = self.votes[i];
            if rec.operation_id == operation_id {
                total = total + 1;
                match rec.vote {
                    Vote::Approve => {
                        approve = approve + 1;
                    },
                    Vote::Deny => {
                        deny = deny + 1;
                    },
                    Vote::Abstain => {},
                }
            }
            i = i + 1;
        }
        proof {
            assert(s.take(s.len() as int) =~= s);
        }
        (total, approve, deny)
    }

    /// Drop every ledger entry of one operation.
    fn retain_votes(&mut self, operation_id: u32)
        ensures
            final(self).votes@ == purge_votes(old(self).votes@, operation_id),
            final(self).minimum_votes == old(self).minimum_votes,
            final(self).approval_threshold == old(self).approval_threshold,
            final(self).next_operation_id == old(self).next_operation_id,
            final(self).pending@ == old(self).pending@,
            final(self).validators@ == old(self).validators@,
            final(self).device_trust@ == old(self).device_trust@,
            final(self).history@ == old(self).history@,
            final(self).events@ == old(self).events@,
    {
        let ghost s = self.votes@;
        let mut kept: Vec<VoteRecord> = Vec::new();
        let mut i: usize = 0;
        while i < self.votes.len()
            invariant
                i <= s.len(),
                s == self.votes@,
                kept@ == purge_votes(s.take(i as int), operation_id),
            decreases s.len() - i,
        {
            proof {
                assert(s.take(i as int + 1).drop_last() =~= s.take(i as int));
                assert(s.take(i as int + 1).last() == s[i as int]);
            }
            let rec = self.votes[i];
            if rec.operation_id != operation_id {
                kept.push(rec);
            }
            i = i + 1;
        }
        proof {
            assert(s.take(s.len() as int) =~= s);
        }
        self.votes = kept;
    }

    /// Submit an operation for consensus. An empty payload is rejected as
    /// structurally invalid; otherwise the operation is stored pending under
    /// the next id, the id counter moves on, and the submission is announced.
    pub fn submit_operation(
        &mut self,
        who: u64,
        operation_type: OperationType,
        details: Vec<u8>,
        origin_device: Vec<u8>,
        now: u32,
    ) -> (r: Result<u32, Error>)
        requires
            old(self).wf(),
            old(self).next_operation_id < u32::MAX,
        ensures
            final(self).wf(),
            details@.len() == 0 ==> r == Err::<u32, Error>(Error::InvalidOperation) && *final(self)
                == *old(self),
            details@.len() > 0 ==> ({
                let id = old(self).next_operation_id;
                let op = OSOperation {
                    requester: who,
                    operation_type,
                    details,
                    origin_device,
                    requested_at: now,
                };
                &&& r == Ok::<u32, Error>(id)
                &&& final(self).next_operation_id == id + 1
                &&& final(self).pending@ == old(self).pending@.push((id, op))
                &&& final(self).events@ == old(self).events@.push(
                    Event::OperationSubmitted(id, who),
                )
                &&& final(self).votes@ == old(self).votes@
                &&& final(self).history@ == old(self).history@
                &&& final(self).validators@ == old(self).validators@
                &&& final(self).device_trust@ == old(self).device_trust@
                &&& final(self).minimum_votes == old(self).minimum_votes
                &&& final(self).approval_threshold == old(self).approval_threshold
            }),
    {
        if details.len() == 0 {
            return Err(Error::InvalidOperation);
        }
        let operation_id = self.next_operation_id;
        let operation = OSOperation {
            requester: who,
            operation_type,
            details,
            origin_device,
            requested_at: now,
        };
        self.pending.push((operation_id, operation));
        self.next_operation_id = operation_id + 1;
        self.events.push(Event::OperationSubmitted(operation_id, who));
        proof {
            let p0 = old(self).pending@;
            let p1 = self.pending@;
            lemma_val_of_push(p0, operation_id, p1.last().1);
            assert(forall|i: int| 0 <= i < p0.len() ==> (#[trigger] p0[i]).0 != operation_id);
            assert(forall|i: int| 0 <= i < p0.len() ==> #[trigger] p1[i] == p0[i]);
            assert forall|i: int|
                0 <= i < self.history@.len() implies !has_key(
                p1,
                (#[trigger] self.history@[i]).0,
            ) by {
                assert(self.history@[i].0 != operation_id);
                assert(val_of(p1, self.history@[i].0) == val_of(p0, self.history@[i].0));
            }
            assert forall|i: int|
                0 <= i < self.votes@.len() implies has_key(
                p1,
                (#[trigger] self.votes@[i]).operation_id,
            ) by {
                if self.votes@[i].operation_id == operation_id {
                } else {
                    assert(val_of(p1, self.votes@[i].operation_id) == val_of(
                        p0,
                        self.votes@[i].operation_id,
                    ));
                }
            }
        }
        Ok(operation_id)
    }

    /// Approve a validator. Adding one twice is harmless: the set of
    /// validators simply gains nothing, and the addition is announced again.
    pub fn add_validator(&mut self, validator: u64) -> (r: Result<(), Error>)
        requires
            old(self).wf(),
        ensures
            final(self).wf(),
            r == Ok::<(), Error>(()),
            final(self).validators@ == if old(self).validators@.contains(validator) {
                old(self).validators@
            } else {
                old(self).validators@.push(validator)
            },
            final(self).events@ == old(self).events@.push(Event::ValidatorAdded(validator)),
            final(self).pending@ == old(self).pending@,
            final(self).votes@ == old(self).votes@,
            final(self).history@ == old(self).history@,
            final(self).device_trust@ == old(self).device_trust@,
            final(self).next_operation_id == old(self).next_operation_id,
            final(self).minimum_votes == old(self).minimum_votes,
            final(self).approval_threshold == old(self).approval_threshold,
    {
        if !self.approved_validators(validator) {
            self.validators.push(validator);
            proof {
                let v0 = old(self).validators@;
                let v1 = self.validators@;
                assert(forall|i: int| 0 <= i < v0.len() ==> #[trigger] v1[i] == v0[i]);
                assert(forall|i: int| 0 <= i < v0.len() ==> v0[i] != validator);
                assert forall|i: int|
                    0 <= i < self.votes@.len() implies v1.contains(
                    (#[trigger] self.votes@[i]).voter,
                ) by {
                    assert(v0.contains(self.votes@[i].voter));
                    let j = choose|j: int| 0 <= j < v0.len() && v0[j] == self.votes@[i].voter;
                    assert(v1[j] == self.votes@[i].voter);
                }
            }
        }
        self.events.push(Event::ValidatorAdded(validator));
        Ok(())
    }

    /// Store a trust level for a device tag, silently clamping anything above
    /// 100 down to 100. Overwrites any earlier level for the same tag.
    pub fn update_device_trust(&mut self, device: Vec<u8>, trust_level: u32) -> (r: Result<
        (),
        Error,
    >)
        requires
            old(self).wf(),
        ensures
            final(self).wf(),
            r == Ok::<(), Error>(()),
            ({
                let stored = if trust_level > 100 {
                    100u32
                } else {
                    trust_level
                };
                &&& trust_of(final(self).device_trust@, device@) == Some(stored)
                &&& forall|d: Seq<u8>|
                    d != device@ ==> #[trigger] trust_of(final(self).device_trust@, d) == trust_of(
                        old(self).device_trust@,
                        d,
                    )
                &&& final(self).events@ == old(self).events@.push(
                    Event::DeviceTrustUpdated(device, stored),
                )
            }),
            final(self).pending@ == old(self).pending@,
            final(self).votes@ == old(self).votes@,
            final(self).history@ == old(self).history@,
            final(self).validators@ == old(self).validators@,
            final(self).next_operation_id == old(self).next_operation_id,
            final(self).minimum_votes == old(self).minimum_votes,
            final(self).approval_threshold == old(self).approval_threshold,
    {
        let trust = if trust_level > 100 {
            100
        } else {
            trust_level
        };
        let ghost t0 = self.device_trust@;
        let mut rest: Vec<(Vec<u8>, u32)> = Vec::new();
        core::mem::swap(&mut self.device_trust, &mut rest);
        let table_len = rest.len();
        let mut k: usize = 0;
        proof {
            assert(t0.skip(0) =~= t0);
            assert(t0.take(0).len() == 0);
        }
        while rest.len() > 0
            invariant
                t0.len() == table_len,
                k <= t0.len(),
                rest@ == t0.skip(k as int),
                self.device_trust@ == remove_trust(t0.take(k as int), device@),
                self.events@ == old(self).events@,
                self.pending@ == old(self).pending@,
                self.votes@ == old(self).votes@,
                self.history@ == old(self).history@,
                self.validators@ == old(self).validators@,
                self.next_operation_id == old(self).next_operation_id,
                self.minimum_votes == old(self).minimum_votes,
                self.approval_threshold == old(self).approval_threshold,
            decreases rest@.len(),
        {
            proof {
                assert(t0.take(k as int + 1).drop_last() =~= t0.take(k as int));
                assert(t0.take(k as int + 1).last() == t0[k as int]);
                assert(rest@[0] == t0[k as int]);
            }
            let pair = rest.remove(0);
            proof {
                assert(rest@ =~= t0.skip(k as int + 1));
            }
            if !crate::bytes::bytes_eq(&pair.0, &device) {
                self.device_trust.push(pair);
            }
            k = k + 1;
        }
        proof {
            assert(t0.take(t0.len() as int) =~= t0);
            lemma_remove_trust(t0, device@);
        }
        let table_key = crate::bytes::copy_bytes(&device);
        self.device_trust.push((table_key, trust));
        self.events.push(Event::DeviceTrustUpdated(device, trust));
        proof {
            let t1 = self.device_trust@;
            let rt = remove_trust(t0, device@);
            assert(t1.drop_last() =~= rt);
            assert(t1.last().0@ == device@ && t1.last().1 == trust);
            assert forall|d: Seq<u8>|
                d != device@ implies #[trigger] trust_of(t1, d) == trust_of(
                old(self).device_trust@,
                d,
            ) by {
                assert(trust_of(t1, d) == trust_of(rt, d));
            }
            assert forall|i2: int, j2: int| 0 <= i2 < j2 < t1.len() implies (
            #[trigger] t1[i2]).0@ != (#[trigger] t1[j2]).0@ by {
                if j2 < t1.len() - 1 {
                    assert(t1[i2] == rt[i2] && t1[j2] == rt[j2]);
                } else {
                    assert(t1[i2] == rt[i2]);
                    assert(trust_of(rt, rt[i2].0@) is Some) by {
                        lemma_trust_index_implies_lookup(rt, i2);
                    }
                }
            }
            assert forall|i2: int| 0 <= i2 < t1.len() implies (#[trigger] t1[i2]).1 <= 100 by {
                if i2 < t1.len() - 1 {
                    assert(t1[i2] == rt[i2]);
                    assert(t0.contains(rt[i2]));
                    let j = choose|j: int| 0 <= j < t0.len() && t0[j] == rt[i2];
                    assert(t0[j].1 <= 100);
                }
            }
        }
        Ok(())
    }

    /// Tally the ledger for an operation and, once the quorum is met,
    /// finalize it: archive the operation with its result, drop it from the
    /// pending store, purge its votes, and announce the decision (and the
    /// execution, when approved). Below the quorum this changes nothing,
    /// which is a legitimate outcome, not an error.
    fn check_consensus(&mut self, operation_id: u32) -> (r: Result<(), Error>)
        requires
            old(self).wf(),
        ensures
            final(self).wf(),
            final(self).minimum_votes == old(self).minimum_votes,
            final(self).approval_threshold == old(self).approval_threshold,
            final(self).next_operation_id == old(self).next_operation_id,
            final(self).validators@ == old(self).validators@,
            final(self).device_trust@ == old(self).device_trust@,
            match r {
                Err(e) => e == Error::OperationNotFound && !has_key(
                    old(self).pending@,
                    operation_id,
                ) && *final(self) == *old(self),
                Ok(()) => has_key(old(self).pending@, operation_id) && ({
                    let vs = votes_of(old(self).votes@, operation_id);
                    if vs.len() < old(self).minimum_votes {
                        *final(self) == *old(self)
                    } else {
                        let res = spec_consensus_result(vs, old(self).approval_threshold);
                        &&& final(self).pending@ == remove_key(old(self).pending@, operation_id)
                        &&& final(self).votes@ == purge_votes(old(self).votes@, operation_id)
                        &&& final(self).history@ == old(self).history@.push(
                            (operation_id, (val_of(old(self).pending@, operation_id)->Some_0, res)),
                        )
                        &&& final(self).events@ == old(self).events@ + consensus_events(
                            operation_id,
                            res.approved,
                        )
                    }
                }),
            },
    {
        let idx = match self.find_pending(operation_id) {
            None => {
                return Err(Error::OperationNotFound);
            },
            Some(i) => i,
        };
        let (total, approve, deny) = self.tally_votes(operation_id);
        if total < self.minimum_votes {
            return Ok(());
        }
        let ghost vs = votes_of(self.votes@, operation_id);
        let voting_total = approve + deny;
        let percentage: u64 = if voting_total > 0 {
            (approve as u64 * 100) / (voting_total as u64)
        } else {
            0
        };
        let approved = percentage >= self.approval_threshold as u64;
        let result = ConsensusResult {
            total_votes: total,
            approve_votes: approve,
            deny_votes: deny,
            approved,
        };
        proof {
            lemma_votes_of_len(old(self).votes@, operation_id);
            assert(result == spec_consensus_result(vs, self.approval_threshold));
        }
        let ghost p0 = self.pending@;
        let ghost h0 = self.history@;
        let ghost v0 = self.votes@;
        let ghost e0 = self.events@;
        let pair = self.pending.remove(idx);
        self.history.push((operation_id, (pair.1, result)));
        self.retain_votes(operation_id);
        self.events.push(Event::ConsensusReached(operation_id, approved));
        if approved {
            self.events.push(Event::OperationExecuted(operation_id));
        }
        proof {
            let p1 = self.pending@;
            let h1 = self.history@;
            let v1 = self.votes@;
            // The pending store lost exactly this operation.
            lemma_remove_key_at_index(p0, idx as int);
            lemma_remove_key(p0, operation_id);
            assert(p1 == remove_key(p0, operation_id));
            // The emitted events are the decision, then the execution.
            if approved {
                assert(e0.push(Event::ConsensusReached(operation_id, true)).push(
                    Event::OperationExecuted(operation_id),
                ) =~= e0 + consensus_events(operation_id, true));
            } else {
                assert(e0.push(Event::ConsensusReached(operation_id, false)) =~= e0
                    + consensus_events(operation_id, false));
            }
            // Pending ids stay unique and bounded.
            assert forall|i: int|
                0 <= i < p1.len() implies 1 <= (#[trigger] p1[i]).0 < self.next_operation_id by {
                assert(p0.contains(p1[i]));
                let j = choose|j: int| 0 <= j < p0.len() && p0[j] == p1[i];
                assert(1 <= p0[j].0 < self.next_operation_id);
            }
            // The history gains this id, which no archived entry carried.
            assert forall|i: int| 0 <= i < h0.len() implies (#[trigger] h0[i]).0
                != operation_id by {
                assert(!has_key(p0, h0[i].0));
            }
            lemma_val_of_push(h0, operation_id, (pair.1, result));
            assert(unique_keys(h1));
            assert(forall|i: int| 0 <= i < h0.len() ==> #[trigger] h1[i] == h0[i]);
            assert(h1[h1.len() - 1] == (operation_id, (pair.1, result)));
            assert forall|i: int|
                0 <= i < h1.len() implies 1 <= (#[trigger] h1[i]).0 < self.next_operation_id by {
                if i < h0.len() {
                } else {
                    assert(h1[i].0 == operation_id);
                    assert(1 <= p0[idx as int].0 < self.next_operation_id);
                }
            }
            // No archived id is pending any more.
            assert forall|i: int| 0 <= i < h1.len() implies !has_key(p1, (#[trigger] h1[i]).0) by {
                if i < h0.len() {
                    assert(h1[i].0 != operation_id);
                    assert(val_of(p1, h1[i].0) == val_of(p0, h1[i].0));
                } else {
                    assert(h1[i].0 == operation_id);
                }
            }
            // The purged ledger still points at pending operations and
            // registered validators, one vote per pair.
            lemma_purge_votes(v0, operation_id);
            assert forall|i: int|
                0 <= i < v1.len() implies has_key(p1, (#[trigger] v1[i]).operation_id)
                && self.validators@.contains(v1[i].voter) by {
                assert(v0.contains(v1[i]) && v1[i].operation_id != operation_id);
                let j = choose|j: int| 0 <= j < v0.len() && v0[j] == v1[i];
                assert(has_key(p0, v0[j].operation_id));
                assert(self.validators@.contains(v0[j].voter));
                assert(val_of(p1, v1[i].operation_id) == val_of(p0, v1[i].operation_id));
            }
        }
        Ok(())
    }

    /// Cast a validator's vote on a pending operation, then re-evaluate the
    /// consensus for it. Exactly one vote per validator and operation is
    /// accepted; a rejected call leaves the engine unchanged. A vote on a
    /// finalized operation is rejected as `ConsensusAlreadyReached`, one on an
    /// unknown operation as `OperationNotFound`.
    pub fn vote_on_operation(&mut self, who: u64, operation_id: u32, vote: Vote) -> (r: Result<
        (),
        Error,
    >)
        requires
            old(self).wf(),
            old(self).votes@.len() < u32::MAX,
        ensures
            final(self).wf(),
            final(self).minimum_votes == old(self).minimum_votes,
            final(self).approval_threshold == old(self).approval_threshold,
            final(self).next_operation_id == old(self).next_operation_id,
            final(self).validators@ == old(self).validators@,
            final(self).device_trust@ == old(self).device_trust@,
            !old(self).validators@.contains(who) ==> r == Err::<(), Error>(Error::NotValidator)
                && *final(self) == *old(self),
            old(self).validators@.contains(who) && has_key(old(self).history@, operation_id)
                ==> r == Err::<(), Error>(Error::ConsensusAlreadyReached) && *final(self) == *old(
                self,
            ),
            old(self).validators@.contains(who) && !has_key(old(self).history@, operation_id)
                && !has_key(old(self).pending@, operation_id) ==> r == Err::<(), Error>(
                Error::OperationNotFound,
            ) && *final(self) == *old(self),
            old(self).validators@.contains(who) && !has_key(old(self).history@, operation_id)
                && has_key(old(self).pending@, operation_id) && vote_lookup(
                old(self).votes@,
                operation_id,
                who,
            ) is Some ==> r == Err::<(), Error>(Error::AlreadyVoted) && *final(self) == *old(self),
            old(self).validators@.contains(who) && !has_key(old(self).history@, operation_id)
                && has_key(old(self).pending@, operation_id) && vote_lookup(
                old(self).votes@,
                operation_id,
                who,
            ) is None ==> r == Ok::<(), Error>(()) && ({
                let rec = VoteRecord { operation_id, voter: who, vote };
                let vs = votes_of(old(self).votes@, operation_id).push(vote);
                let cast_events = old(self).events@.push(Event::VoteCast(operation_id, who, vote));
                if vs.len() < old(self).minimum_votes {
                    &&& final(self).votes@ == old(self).votes@.push(rec)
                    &&& final(self).pending@ == old(self).pending@
                    &&& final(self).history@ == old(self).history@
                    &&& final(self).events@ == cast_events
                } else {
                    let res = spec_consensus_result(vs, old(self).approval_threshold);
                    &&& final(self).pending@ == remove_key(old(self).pending@, operation_id)
                    &&& final(self).votes@ == purge_votes(old(self).votes@, operation_id)
                    &&& final(self).history@ == old(self).history@.push(
                        (operation_id, (val_of(old(self).pending@, operation_id)->Some_0, res)),
                    )
                    &&& final(self).events@ == cast_events + consensus_events(
                        operation_id,
                        res.approved,
                    )
                }
            }),
    {
        if !self.approved_validators(who) {
            return Err(Error::NotValidator);
        }
        if self.find_history(operation_id).is_some() {
            return Err(Error::ConsensusAlreadyReached);
        }
        if self.find_pending(operation_id).is_none() {
            return Err(Error::OperationNotFound);
        }
        if self.operation_votes(operation_id, who).is_some() {
            return Err(Error::AlreadyVoted);
        }
        let rec = VoteRecord { operation_id, voter: who, vote };
        let ghost v0 = self.votes@;
        self.votes.push(rec);
        self.events.push(Event::VoteCast(operation_id, who, vote));
        proof {
            let v1 = self.votes@;
            assert(v1.drop_last() =~= v0);
            assert(v1.last() == rec);
            // One vote per pair still holds: `who` had no vote on this
            // operation yet.
            assert forall|i: int, j: int| 0 <= i < j < v1.len() implies !((
            #[trigger] v1[i]).operation_id == (#[trigger] v1[j]).operation_id && v1[i].voter
                == v1[j].voter) by {
                if j == v1.len() - 1 {
                    assert(v1[i] == v0[i]);
                    if v0[i].operation_id == operation_id && v0[i].voter == who {
                        lemma_vote_index_implies_lookup(v0, i);
                    }
                }
            }
            assert(forall|i: int| 0 <= i < v0.len() ==> #[trigger] v1[i] == v0[i]);
            // The new ledger tallies as the old one plus this vote.
            assert(votes_of(v1, operation_id) == votes_of(v0, operation_id).push(vote));
            assert(purge_votes(v1, operation_id) == purge_votes(v0, operation_id));
        }
        let ghost mid = *self;
        let outcome = self.check_consensus(operation_id);
        proof {
            assert(has_key(mid.pending@, operation_id));
            if outcome is Err {
                assert(!has_key(mid.pending@, operation_id));
                assert(false);
            }
            let vs = votes_of(old(self).votes@, operation_id).push(vote);
            if vs.len() >= old(self).minimum_votes {
                assert(mid.events@ + consensus_events(
                    operation_id,
                    spec_consensus_result(vs, old(self).approval_threshold).approved,
                ) == old(self).events@.push(Event::VoteCast(operation_id, who, vote))
                    + consensus_events(
                    operation_id,
                    spec_consensus_result(vs, old(self).approval_threshold).approved,
                ));
            }
        }
        match outcome {
            Ok(_) => Ok(()),
            Err(e) => Err(e),
        }
    }

    /// The approval outcome of a finalized operation: `None` while no
    /// consensus was recorded.
    pub fn get_consensus_result(&self, operation_id: u32) -> (r: Option<bool>)
        ensures
            r == match val_of(self.history@, operation_id) {
                Some(p) => Some(p.1.approved),
                None => None::<bool>,
            },
    {
        match self.find_history(operation_id) {
            Some(i) => Some(self.history[i].1.1.approved),
            None => None,
        }
    }

    /// The pending operation stored under an id, if any.
    pub fn pending_operations(&self, operation_id: u32) -> (r: Option<&OSOperation>)
        ensures
            match r {
                Some(op) => val_of(self.pending@, operation_id) == Some(*op),
                None => !has_key(self.pending@, operation_id),
            },
    {
        match self.find_pending(operation_id) {
            Some(i) => Some(&self.pending[i].1),
            None => None,
        }
    }

    /// The archived operation and consensus result for a finalized id, if
    /// any.
    pub fn operation_history(&self, operation_id: u32) -> (r: Option<
        &(OSOperation, ConsensusResult),
    >)
        ensures
            match r {
                Some(p) => val_of(self.history@, operation_id) == Some(*p),
                None => !has_key(self.history@, operation_id),
            },
    {
        match self.find_history(operation_id) {
            Some(i) => Some(&self.history[i].1),
            None => None,
        }
    }

    /// The stored trust level of a device tag, 0 if none was ever stored.
    pub fn device_trust_level(&self, device: &Vec<u8>) -> (r: u32)
        ensures
            r == match trust_of(self.device_trust@, device@) {
                Some(t) => t,
                None => 0u32,
            },
    {
        let ghost s = self.device_trust@;
        let mut i: usize = self.device_trust.len();
        proof {
            assert(s.take(s.len() as int) =~= s);
        }
        while i > 0
            invariant
                i <= s.len(),
                s == self.device_trust@,
                trust_of(s, device@) == trust_of(s.take(i as int), device@),
            decreases i,
        {
            i = i - 1;
            proof {
                assert(s.take(i as int + 1).drop_last() =~= s.take(i as int));
                assert(s.take(i as int + 1).last() == s[i as int]);
            }
            if crate::bytes::bytes_eq(&self.device_trust[i].0, device) {
                return self.device_trust[i].1;
            }
        }
        proof {
            assert(s.take(0).len() == 0);
        }
        0
    }

    /// Whether an operation category requires strict consensus before it may
    /// run at all.
    pub fn requires_high_consensus(op_type: &OperationType) -> (r: bool)
        ensures
            r == spec_requires_high_consensus(*op_type),
    {
        match op_type {
            OperationType::Sudo => true,
            OperationType::FileWrite => true,
            OperationType::Device => true,
            _ => false,
        }
    }
}

/// The high-impact categories: privilege elevation, critical writes, device
/// access.
pub open spec fn spec_requires_high_consensus(op_type: OperationType) -> bool {
    op_type == OperationType::Sudo || op_type == OperationType::FileWrite || op_type
        == OperationType::Device
}

/// Once an operation is archived in the history, its id is not in the
/// pending store: a finalized id never reappears as pending.
pub proof fn lemma_finalized_never_pending(m: Module, operation_id: u32)
    requires
        m.wf(),
        has_key(m.history@, operation_id),
    ensures
        !has_key(m.pending@, operation_id),
{
    lemma_val_of_implies_index(m.history@, operation_id);
    let i = choose|i: int| 0 <= i < m.history@.len() && (#[trigger] m.history@[i]).0 == operation_id;
    assert(!has_key(m.pending@, m.history@[i].0));
}

} // verus!

