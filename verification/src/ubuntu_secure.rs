//! Consensus over system-call transactions, decided by a fixed vote count,
//! with a reputation-based detector for Byzantine voting behaviour.
//!
//! A [`Pallet`] keeps registered nodes, pending transactions, the vote ledger,
//! recorded consensus results, and per-node reputation scores. Each node votes
//! at most once per transaction; once [`MINIMUM_VOTES`] votes (abstentions
//! included) are in — or [`FORCE_FINALIZE_CAP`] votes, whichever comes first —
//! the transaction is finalized: it is approved exactly when at least
//! [`APPROVAL_VOTES`] nodes approved. Finalization records the
//! [`ConsensusResult`], drops the transaction from the pending store, rewards
//! every node whose vote agreed with the outcome, penalizes every node whose
//! vote opposed it (abstainers are exempt), flags nodes whose reputation falls
//! below [`TRUST_FLOOR`], and purges the transaction's votes.

use vstd::prelude::*;

use crate::table::{
    has_key, lemma_index_implies_val_of, lemma_remove_key, lemma_remove_key_at_index,
    lemma_val_of_implies_index, lemma_val_of_push, lemma_val_of_update, remove_key, unique_keys,
    val_of,
};
use crate::tally::{count_matching, lemma_count_matching_permutation};

verus! {

/// Quorum: votes needed before a decision can be rendered.
pub const MINIMUM_VOTES: u32 = 3;

/// Fixed majority: approve votes needed for approval.
pub const APPROVAL_VOTES: u32 = 3;

/// Force-finalize fallback: with this many votes the transaction is decided
/// with whatever tally exists, so it cannot be stuck forever.
pub const FORCE_FINALIZE_CAP: u32 = 5;

/// Reputation given to a node on registration.
pub const BASELINE_REPUTATION: u32 = 100;

/// Reputation gained by voting with the final outcome.
pub const REPUTATION_REWARD: u32 = 1;

/// Reputation lost by voting against the final outcome.
pub const REPUTATION_PENALTY: u32 = 2;

/// Below this reputation a node is flagged as behaving maliciously.
pub const TRUST_FLOOR: u32 = 50;

/// System-call transaction categories.
#[derive(Clone, Copy, PartialEq, Eq, Structural, Debug)]
pub enum SyscallType {
    FileOpen,
    FileWrite,
    ProcessExec,
    PermissionChange,
    NetworkOperation,
}

/// Transaction classification for consensus requirements.
#[derive(Clone, Copy, PartialEq, Eq, Structural, Debug)]
pub enum TransactionClass {
    /// Security-critical: requires full consensus.
    ClassA,
    /// Performance-critical: cached consensus.
    ClassB,
    /// Non-critical: local only.
    ClassC,
}

/// The kinds of node in the network.
#[derive(Clone, Copy, PartialEq, Eq, Structural, Debug)]
pub enum NodeType {
    /// Primary viewport, potentially compromised.
    Laptop,
    /// ARM architecture device.
    Phone,
    /// RISC-V architecture device.
    Pi,
    /// x86 cloud instance.
    Cloud,
    /// Social trust validation.
    Friend,
}

/// A node's voting decision.
#[derive(Clone, Copy, PartialEq, Eq, Structural, Debug)]
pub enum Vote {
    Approve,
    Deny,
    Abstain,
}

/// A system-call transaction awaiting consensus.
#[derive(Clone, PartialEq, Eq, Debug)]
pub struct SyscallTransaction {
    pub caller: u64,
    pub syscall_type: SyscallType,
    /// File path or executable path.
    pub path: Vec<u8>,
    /// Operation flags.
    pub flags: u32,
    pub class: TransactionClass,
    /// Logical clock value supplied by the caller at submission.
    pub timestamp: u64,
    /// Cryptographic signature; verification is the surrounding system's
    /// concern, and the engine stores it empty.
    pub signature: Vec<u8>,
}

/// One node's recorded vote.
#[derive(Clone, PartialEq, Eq, Debug)]
pub struct NodeVote {
    pub node_id: u64,
    pub node_type: NodeType,
    pub vote: Vote,
    /// Optional free-text reason.
    pub reason: Vec<u8>,
    pub timestamp: u64,
}

/// The tally recorded when a transaction is finalized.
#[derive(Clone, Copy, PartialEq, Eq, Structural, Debug)]
pub struct ConsensusResult {
    /// Whether the transaction was approved.
    pub approved: bool,
    /// Approve votes.
    pub votes_for: u32,
    /// Deny votes.
    pub votes_against: u32,
    /// Votes received in all, abstentions included.
    pub total_votes: u32,
    /// Whether the quorum was reached.
    pub threshold_met: bool,
}

/// Why a call was rejected. A rejected call leaves the engine unchanged.
#[derive(Clone, Copy, PartialEq, Eq, Structural, Debug)]
pub enum Error {
    /// The transaction is not pending and was never finalized.
    TransactionNotFound,
    /// The caller is not a registered node.
    NodeNotRegistered,
    /// The caller already voted on this transaction.
    AlreadyVoted,
    /// The transaction was already finalized.
    ConsensusAlreadyReached,
    /// Too few nodes for consensus.
    InsufficientNodes,
    /// The transaction signature is invalid.
    InvalidSignature,
    /// The operation was denied by consensus.
    OperationDenied,
    /// The node's reputation is too low.
    LowReputation,
}

/// Notifications handed to the surrounding system's event sink.
#[derive(Clone, PartialEq, Eq, Debug)]
pub enum Event {
    /// A transaction was submitted for consensus.
    SyscallSubmitted { transaction_id: u64, caller: u64, syscall_type: SyscallType, path: Vec<u8> },
    /// A node voted on a transaction.
    NodeVoted { transaction_id: u64, voter: u64, node_type: NodeType, vote: Vote },
    /// Consensus was reached for a transaction.
    ConsensusReached { transaction_id: u64, approved: bool, votes_for: u32, votes_against: u32 },
    /// A node registered in the network.
    NodeRegistered { node_id: u64, node_type: NodeType },
    /// The distributed state hash was updated.
    OSStateUpdated { new_state_hash: u64, updater: u64 },
    /// A node's reputation fell below the trust floor.
    MaliciousBehaviorDetected { node_id: u64, reputation: u32 },
}

/// The vote stored in `s` for `(transaction, node)`, if any.
pub open spec fn vote_lookup(s: Seq<(u64, NodeVote)>, tx: u64, node: u64) -> Option<Vote>
    decreases s.len(),
{
    if s.len() == 0 {
        None
    } else if s.last().0 == tx && s.last().1.node_id == node {
        Some(s.last().1.vote)
    } else {
        vote_lookup(s.drop_last(), tx, node)
    }
}

/// The vote choices recorded for `tx`, in ledger order.
pub open spec fn votes_of(s: Seq<(u64, NodeVote)>, tx: u64) -> Seq<Vote>
    decreases s.len(),
{
    if s.len() == 0 {
        Seq::empty()
    } else if s.last().0 == tx {
        votes_of(s.drop_last(), tx).push(s.last().1.vote)
    } else {
        votes_of(s.drop_last(), tx)
    }
}

/// The ledger with every vote for `tx` removed.
pub open spec fn purge_votes(s: Seq<(u64, NodeVote)>, tx: u64) -> Seq<(u64, NodeVote)>
    decreases s.len(),
{
    if s.len() == 0 {
        s
    } else if s.last().0 == tx {
        purge_votes(s.drop_last(), tx)
    } else {
        purge_votes(s.drop_last(), tx).push(s.last())
    }
}

/// At most one vote per `(transaction, node)` pair.
pub open spec fn vote_keys_unique(s: Seq<(u64, NodeVote)>) -> bool {
    forall|i: int, j: int|
        0 <= i < j < s.len() ==> !((#[trigger] s[i]).0 == (#[trigger] s[j]).0 && s[i].1.node_id
            == s[j].1.node_id)
}

/// A ledger entry at some index is found by `vote_lookup`.
pub proof fn lemma_vote_index_implies_lookup(s: Seq<(u64, NodeVote)>, i: int)
    requires
        0 <= i < s.len(),
    ensures
        vote_lookup(s, s[i].0, s[i].1.node_id) is Some,
    decreases s.len(),
{
    if !(s.last().0 == s[i].0 && s.last().1.node_id == s[i].1.node_id) {
        lemma_vote_index_implies_lookup(s.drop_last(), i);
    }
}

/// A vote found by `vote_lookup` stands at some ledger index.
pub proof fn lemma_vote_lookup_implies_index(s: Seq<(u64, NodeVote)>, tx: u64, node: u64)
    requires
        vote_lookup(s, tx, node) is Some,
    ensures
        exists|i: int|
            0 <= i < s.len() && (#[trigger] s[i]).0 == tx && s[i].1.node_id == node,
    decreases s.len(),
{
    if s.last().0 == tx && s.last().1.node_id == node {
        assert(s[s.len() - 1].0 == tx && s[s.len() - 1].1.node_id == node);
    } else {
        lemma_vote_lookup_implies_index(s.drop_last(), tx, node);
        let i = choose|i: int|
            0 <= i < s.drop_last().len() && (#[trigger] s.drop_last()[i]).0 == tx
                && s.drop_last()[i].1.node_id == node;
        assert(s[i].0 == tx && s[i].1.node_id == node);
    }
}

/// Counted votes and purged entries partition the ledger.
pub proof fn lemma_votes_of_len(s: Seq<(u64, NodeVote)>, tx: u64)
    ensures
        votes_of(s, tx).len() <= s.len(),
        purge_votes(s, tx).len() + votes_of(s, tx).len() == s.len(),
    decreases s.len(),
{
    if s.len() > 0 {
        lemma_votes_of_len(s.drop_last(), tx);
    }
}

/// Purging `tx` keeps exactly the entries of other transactions, in order;
/// with a unique ledger the kept part is unique again.
pub proof fn lemma_purge_votes(s: Seq<(u64, NodeVote)>, tx: u64)
    requires
        vote_keys_unique(s),
    ensures
        vote_keys_unique(purge_votes(s, tx)),
        purge_votes(s, tx).len() <= s.len(),
        forall|i: int|
            0 <= i < purge_votes(s, tx).len() ==> s.contains(#[trigger] purge_votes(s, tx)[i])
                && purge_votes(s, tx)[i].0 != tx,
    decreases s.len(),
{
    if s.len() == 0 {
    } else {
        let d = s.drop_last();
        let r = purge_votes(s, tx);
        let rd = purge_votes(d, tx);
        lemma_purge_votes(d, tx);
        assert(forall|i: int| 0 <= i < d.len() ==> #[trigger] d[i] == s[i]);
        assert(forall|p: (u64, NodeVote)| d.contains(p) ==> s.contains(p));
        if s.last().0 == tx {
            assert(forall|i: int| 0 <= i < rd.len() ==> s.contains(#[trigger] rd[i]));
        } else {
            assert(r.drop_last() =~= rd);
            assert(r.last() == s.last());
            assert(forall|i: int| 0 <= i < rd.len() ==> #[trigger] r[i] == rd[i]);
            assert(r[r.len() - 1] == s[s.len() - 1]);
            assert(forall|i: int| 0 <= i < r.len() ==> s.contains(#[trigger] r[i]));
            assert forall|i: int| 0 <= i < rd.len() implies !((#[trigger] rd[i]).0 == s.last().0
                && rd[i].1.node_id == s.last().1.node_id) by {
                assert(d.contains(rd[i]));
                let ii = choose|ii: int| 0 <= ii < d.len() && d[ii] == rd[i];
                assert(s[ii] == rd[i]);
                assert(!(s[ii].0 == s[s.len() - 1].0 && s[ii].1.node_id == s[s.len()
                    - 1].1.node_id));
            }
            assert forall|i: int, j: int| 0 <= i < j < r.len() implies !((#[trigger] r[i]).0 == (
            #[trigger] r[j]).0 && r[i].1.node_id == r[j].1.node_id) by {
                if j < r.len() - 1 {
                    assert(!(rd[i].0 == rd[j].0 && rd[i].1.node_id == rd[j].1.node_id));
                } else {
                    assert(r[i] == rd[i]);
                    assert(r[j] == s.last());
                }
            }
        }
    }
}

/// The voters behind the votes recorded for `tx`, in ledger order.
pub open spec fn voters_of(s: Seq<(u64, NodeVote)>, tx: u64) -> Seq<u64>
    decreases s.len(),
{
    if s.len() == 0 {
        Seq::empty()
    } else if s.last().0 == tx {
        voters_of(s.drop_last(), tx).push(s.last().1.node_id)
    } else {
        voters_of(s.drop_last(), tx)
    }
}

/// There is one counted voter per counted vote, and each of them cast some
/// vote on `tx` in the ledger.
proof fn lemma_voters_of_from_ledger(s: Seq<(u64, NodeVote)>, tx: u64)
    ensures
        voters_of(s, tx).len() == votes_of(s, tx).len(),
        forall|x: u64|
            voters_of(s, tx).contains(x) ==> exists|j: int|
                0 <= j < s.len() && (#[trigger] s[j]).0 == tx && s[j].1.node_id == x,
    decreases s.len(),
{
    if s.len() == 0 {
    } else {
        let d = s.drop_last();
        lemma_voters_of_from_ledger(d, tx);
        assert(forall|i: int| 0 <= i < d.len() ==> #[trigger] d[i] == s[i]);
        let cur = voters_of(s, tx);
        let prev = voters_of(d, tx);
        assert forall|x: u64|
            cur.contains(x) implies exists|j: int|
            0 <= j < s.len() && (#[trigger] s[j]).0 == tx && s[j].1.node_id == x by {
            let i = choose|i: int| 0 <= i < cur.len() && cur[i] == x;
            if s.last().0 == tx && i == cur.len() - 1 {
                assert(s[s.len() - 1].0 == tx && s[s.len() - 1].1.node_id == x);
            } else {
                assert(prev[i] == x);
                assert(prev.contains(x));
                let j = choose|j: int|
                    0 <= j < d.len() && (#[trigger] d[j]).0 == tx && d[j].1.node_id == x;
                assert(s[j].0 == tx && s[j].1.node_id == x);
            }
        }
    }
}

/// With one vote per pair, the counted voters are pairwise distinct.
proof fn lemma_voters_of_distinct(s: Seq<(u64, NodeVote)>, tx: u64)
    requires
        vote_keys_unique(s),
    ensures
        voters_of(s, tx).no_duplicates(),
    decreases s.len(),
{
    if s.len() == 0 {
    } else {
        let d = s.drop_last();
        lemma_voters_of_distinct(d, tx);
        assert(forall|i: int| 0 <= i < d.len() ==> #[trigger] d[i] == s[i]);
        if s.last().0 == tx {
            let prev = voters_of(d, tx);
            let cur = voters_of(s, tx);
            assert(!prev.contains(s.last().1.node_id)) by {
                if prev.contains(s.last().1.node_id) {
                    lemma_voters_of_from_ledger(d, tx);
                    let j = choose|j: int|
                        0 <= j < d.len() && (#[trigger] d[j]).0 == tx && d[j].1.node_id == s.last().1.node_id;
                    assert(s[j].0 == s[s.len() - 1].0 && s[j].1.node_id == s[s.len()
                        - 1].1.node_id);
                }
            }
            assert forall|i: int, j: int|
                0 <= i < cur.len() && 0 <= j < cur.len() && i != j implies cur[i] != cur[j] by {
                if i < cur.len() - 1 && j < cur.len() - 1 {
                    assert(prev[i] == cur[i] && prev[j] == cur[j]);
                } else if i == cur.len() - 1 {
                    assert(prev[j] == cur[j]);
                    assert(prev.contains(prev[j]));
                } else {
                    assert(prev[i] == cur[i]);
                    assert(prev.contains(prev[i]));
                }
            }
        }
    }
}

/// The participation bound: the votes counted for one transaction never
/// outnumber the registered nodes, since each counted vote names a distinct
/// registered node.
pub proof fn lemma_votes_bounded_by_nodes(p: Pallet, tx: u64)
    requires
        p.wf(),
    ensures
        votes_of(p.votes@, tx).len() <= p.nodes@.len(),
{
    broadcast use vstd::set::group_set_axioms;
    broadcast use vstd::seq_lib::seq_to_set_is_finite;

    let vo = voters_of(p.votes@, tx);
    let node_ids = p.nodes@.map_values(|pair: (u64, NodeType)| pair.0);
    lemma_voters_of_from_ledger(p.votes@, tx);
    lemma_voters_of_distinct(p.votes@, tx);
    vo.unique_seq_to_set();
    assert forall|x: u64| vo.to_set().contains(x) implies node_ids.to_set().contains(x) by {
        assert(vo.contains(x));
        let j = choose|j: int|
            0 <= j < p.votes@.len() && (#[trigger] p.votes@[j]).0 == tx && p.votes@[j].1.node_id
                == x;
        assert(has_key(p.nodes@, x));
        lemma_val_of_implies_index(p.nodes@, x);
        let k = choose|k: int| 0 <= k < p.nodes@.len() && (#[trigger] p.nodes@[k]).0 == x;
        assert(node_ids[k] == x);
        assert(node_ids.contains(x));
    }
    assert(vo.to_set().subset_of(node_ids.to_set()));
    node_ids.lemma_cardinality_of_set();
    vstd::set_lib::lemma_len_subset(vo.to_set(), node_ids.to_set());
}

/// Count of approve votes.
pub open spec fn approve_count(vs: Seq<Vote>) -> nat {
    count_matching(vs, Vote::Approve)
}

/// Count of deny votes.
pub open spec fn deny_count(vs: Seq<Vote>) -> nat {
    count_matching(vs, Vote::Deny)
}

/// Whether a vote sequence reaches the quorum. Abstentions count toward it.
pub open spec fn spec_threshold_met(vs: Seq<Vote>) -> bool {
    vs.len() >= MINIMUM_VOTES
}

/// Whether a vote sequence is decided at all: at the quorum, or at the
/// force-finalize cap with whatever tally exists.
pub open spec fn spec_finalizes(vs: Seq<Vote>) -> bool {
    spec_threshold_met(vs) || vs.len() >= FORCE_FINALIZE_CAP
}

/// Approved exactly when the quorum was reached and at least
/// `APPROVAL_VOTES` nodes approved.
pub open spec fn spec_approved(vs: Seq<Vote>) -> bool {
    spec_threshold_met(vs) && approve_count(vs) >= APPROVAL_VOTES
}

/// The result recorded when `vs` is finalized.
pub open spec fn spec_consensus_result(vs: Seq<Vote>) -> ConsensusResult {
    ConsensusResult {
        approved: spec_approved(vs),
        votes_for: approve_count(vs) as u32,
        votes_against: deny_count(vs) as u32,
        total_votes: vs.len() as u32,
        threshold_met: spec_threshold_met(vs),
    }
}

/// Tallying is order-independent: two vote sequences holding the same votes
/// the same number of times — however they are ordered — are decided
/// together and finalized to the same result.
pub proof fn lemma_consensus_order_independent(vs1: Seq<Vote>, vs2: Seq<Vote>)
    requires
        vs1.to_multiset() == vs2.to_multiset(),
    ensures
        spec_finalizes(vs1) == spec_finalizes(vs2),
        spec_consensus_result(vs1) == spec_consensus_result(vs2),
{
    broadcast use vstd::seq_lib::group_to_multiset_ensures;

    assert(vs1.len() == vs1.to_multiset().len());
    assert(vs2.len() == vs2.to_multiset().len());
    lemma_count_matching_permutation(vs1, vs2);
}

/// A node's reputation: the stored score, or 0 for a node never scored.
pub open spec fn rep_of(reps: Seq<(u64, u32)>, node: u64) -> u32 {
    match val_of(reps, node) {
        Some(r) => r,
        None => 0,
    }
}

/// The score after one vote is judged against the outcome: agreement earns
/// `REPUTATION_REWARD`, opposition costs `REPUTATION_PENALTY` (saturating at
/// 0), and an abstention leaves the score untouched.
pub open spec fn spec_adjusted(base: u32, vote: Vote, approved: bool) -> u32 {
    if vote is Abstain {
        base
    } else if (approved && vote is Approve) || (!approved && vote is Deny) {
        if base + REPUTATION_REWARD <= u32::MAX {
            (base + REPUTATION_REWARD) as u32
        } else {
            u32::MAX
        }
    } else {
        if base >= REPUTATION_PENALTY {
            (base - REPUTATION_PENALTY) as u32
        } else {
            0
        }
    }
}

/// A node's reputation after a finalization of `tx` is judged: adjusted for
/// the node's own vote, untouched for nodes that did not vote.
pub open spec fn rep_after(
    reps: Seq<(u64, u32)>,
    s: Seq<(u64, NodeVote)>,
    tx: u64,
    approved: bool,
    node: u64,
) -> u32 {
    match vote_lookup(s, tx, node) {
        Some(v) => spec_adjusted(rep_of(reps, node), v, approved),
        None => rep_of(reps, node),
    }
}

/// The malicious-behaviour flags a finalization emits: one per non-abstaining
/// voter of `tx` whose adjusted score falls below the trust floor, in ledger
/// order.
pub open spec fn rep_events(
    s: Seq<(u64, NodeVote)>,
    tx: u64,
    reps: Seq<(u64, u32)>,
    approved: bool,
) -> Seq<Event>
    decreases s.len(),
{
    if s.len() == 0 {
        Seq::empty()
    } else {
        let rest = rep_events(s.drop_last(), tx, reps, approved);
        let e = s.last();
        let adjusted = spec_adjusted(rep_of(reps, e.1.node_id), e.1.vote, approved);
        if e.0 == tx && !(e.1.vote is Abstain) && adjusted < TRUST_FLOOR {
            rest.push(Event::MaliciousBehaviorDetected { node_id: e.1.node_id, reputation: adjusted })
        } else {
            rest
        }
    }
}

/// How one finalization treats each node: a node that voted with the final
/// outcome never loses reputation, one that voted against it never gains,
/// and a node that abstained or did not vote keeps its score exactly.
pub proof fn lemma_reputation_alignment(
    reps: Seq<(u64, u32)>,
    ledger: Seq<(u64, NodeVote)>,
    tx: u64,
    approved: bool,
    node: u64,
)
    ensures
        vote_lookup(ledger, tx, node) is None ==> rep_after(reps, ledger, tx, approved, node)
            == rep_of(reps, node),
        vote_lookup(ledger, tx, node) == Some(Vote::Abstain) ==> rep_after(
            reps,
            ledger,
            tx,
            approved,
            node,
        ) == rep_of(reps, node),
        vote_lookup(ledger, tx, node) == Some(if approved {
            Vote::Approve
        } else {
            Vote::Deny
        }) ==> rep_after(reps, ledger, tx, approved, node) >= rep_of(reps, node),
        vote_lookup(ledger, tx, node) == Some(if approved {
            Vote::Deny
        } else {
            Vote::Approve
        }) ==> rep_after(reps, ledger, tx, approved, node) <= rep_of(reps, node),
{
}

/// The consensus engine for system-call transactions.
pub struct Pallet {
    /// The id the next submitted transaction receives.
    pub next_transaction_id: u64,
    /// Pending transactions awaiting consensus, keyed by transaction id.
    pub pending: Vec<(u64, SyscallTransaction)>,
    /// The vote ledger: at most one entry per (transaction, node).
    pub votes: Vec<(u64, NodeVote)>,
    /// Consensus results of finalized transactions, keyed by transaction id.
    pub results: Vec<(u64, ConsensusResult)>,
    /// Registered nodes and their declared type.
    pub nodes: Vec<(u64, NodeType)>,
    /// Reputation scores, keyed by node id.
    pub reputations: Vec<(u64, u32)>,
    /// Events emitted so far, oldest first.
    pub events: Vec<Event>,
}

impl Pallet {
    /// The engine invariant: ids are unique and below the id counter, a
    /// finalized id is never pending, every vote points at a pending
    /// transaction and a registered node with at most one vote per pair, and
    /// the ledger fits the 32-bit tally.
    pub open spec fn wf(self) -> bool {
        &&& 1 <= self.next_transaction_id
        &&& unique_keys(self.pending@)
        &&& forall|i: int|
            0 <= i < self.pending@.len() ==> 1 <= (#[trigger] self.pending@[i]).0
                < self.next_transaction_id
        &&& unique_keys(self.results@)
        &&& forall|i: int|
            0 <= i < self.results@.len() ==> 1 <= (#[trigger] self.results@[i]).0
                < self.next_transaction_id
        &&& forall|i: int|
            0 <= i < self.results@.len() ==> !has_key(
                self.pending@,
                (#[trigger] self.results@[i]).0,
            )
        &&& vote_keys_unique(self.votes@)
        &&& forall|i: int|
            0 <= i < self.votes@.len() ==> has_key(self.pending@, (#[trigger] self.votes@[i]).0)
        &&& forall|i: int|
            0 <= i < self.votes@.len() ==> has_key(
                self.nodes@,
                (#[trigger] self.votes@[i]).1.node_id,
            )
        &&& unique_keys(self.nodes@)
        &&& unique_keys(self.reputations@)
        &&& self.votes@.len() <= u32::MAX
    }

    /// A fresh engine with no state.
    pub fn new() -> (p: Pallet)
        ensures
            p.wf(),
            p.next_transaction_id == 1,
            p.pending@.len() == 0,
            p.votes@.len() == 0,
            p.results@.len() == 0,
            p.nodes@.len() == 0,
            p.reputations@.len() == 0,
            p.events@.len() == 0,
    {
        Pallet {
            next_transaction_id: 1,
            pending: Vec::new(),
            votes: Vec::new(),
            results: Vec::new(),
            nodes: Vec::new(),
            reputations: Vec::new(),
            events: Vec::new(),
        }
    }

    /// The index of the pending entry for `transaction_id`, if pending.
    fn find_pending(&self, transaction_id: u64) -> (r: Option<usize>)
        ensures
            match r {
                Some(i) => i < self.pending@.len() && self.pending@[i as int].0 == transaction_id
                    && val_of(self.pending@, transaction_id) == Some(self.pending@[i as int].1),
                None => !has_key(self.pending@, transaction_id),
            },
    {
        let ghost s = self.pending@;
        let mut i: usize = self.pending.len();
        proof {
            assert(s.take(s.len() as int) =~= s);
        }
        while i > 0
            invariant
                i <= s.len(),
                s == self.pending@,
                val_of(s, transaction_id) == val_of(s.take(i as int), transaction_id),
            decreases i,
        {
            i = i - 1;
            proof {
                assert(s.take(i as int + 1).drop_last() =~= s.take(i as int));
                assert(s.take(i as int + 1).last() == s[i as int]);
            }
            if self.pending[i].0 == transaction_id {
                return Some(i);
            }
        }
        proof {
            assert(s.take(0).len() == 0);
        }
        None
    }

    /// The index of the recorded result for `transaction_id`, if finalized.
    fn find_result(&self, transaction_id: u64) -> (r: Option<usize>)
        ensures
            match r {
                Some(i) => i < self.results@.len() && self.results@[i as int].0 == transaction_id
                    && val_of(self.results@, transaction_id) == Some(self.results@[i as int].1),
                None => !has_key(self.results@, transaction_id),
            },
    {
        let ghost s = self.results@;
        let mut i: usize = self.results.len();
        proof {
            assert(s.take(s.len() as int) =~= s);
        }
        while i > 0
            invariant
                i <= s.len(),
                s == self.results@,
                val_of(s, transaction_id) == val_of(s.take(i as int), transaction_id),
            decreases i,
        {
            i = i - 1;
            proof {
                assert(s.take(i as int + 1).drop_last() =~= s.take(i as int));
                assert(s.take(i as int + 1).last() == s[i as int]);
            }
            if self.results[i].0 == transaction_id {
                return Some(i);
            }
        }
        proof {
            assert(s.take(0).len() == 0);
        }
        None
    }

    /// The index of the registration entry for `node`, if registered.
    fn find_node(&self, node: u64) -> (r: Option<usize>)
        ensures
            match r {
                Some(i) => i < self.nodes@.len() && self.nodes@[i as int].0 == node && val_of(
                    self.nodes@,
                    node,
                ) == Some(self.nodes@[i as int].1),
                None => !has_key(self.nodes@, node),
            },
    {
        let ghost s = self.nodes@;
        let mut i: usize = self.nodes.len();
        proof {
            assert(s.take(s.len() as int) =~= s);
        }
        while i > 0
            invariant
                i <= s.len(),
                s == self.nodes@,
                val_of(s, node) == val_of(s.take(i as int), node),
            decreases i,
        {
            i = i - 1;
            proof {
                assert(s.take(i as int + 1).drop_last() =~= s.take(i as int));
                assert(s.take(i as int + 1).last() == s[i as int]);
            }
            if self.nodes[i].0 == node {
                return Some(i);
            }
        }
        proof {
            assert(s.take(0).len() == 0);
        }
        None
    }

    /// The index of the reputation entry for `node`, if one was stored.
    fn find_reputation(&self, node: u64) -> (r: Option<usize>)
        ensures
            match r {
                Some(i) => i < self.reputations@.len() && self.reputations@[i as int].0 == node
                    && val_of(self.reputations@, node) == Some(self.reputations@[i as int].1),
                None => !has_key(self.reputations@, node),
            },
    {
        let ghost s = self.reputations@;
        let mut i: usize = self.reputations.len();
        proof {
            assert(s.take(s.len() as int) =~= s);
        }
        while i > 0
            invariant
                i <= s.len(),
                s == self.reputations@,
                val_of(s, node) == val_of(s.take(i as int), node),
            decreases i,
        {
            i = i - 1;
            proof {
                assert(s.take(i as int + 1).drop_last() =~= s.take(i as int));
                assert(s.take(i as int + 1).last() == s[i as int]);
            }
            if self.reputations[i].0 == node {
                return Some(i);
            }
        }
        proof {
            assert(s.take(0).len() == 0);
        }
        None
    }

    /// Store or overwrite a node's reputation score.
    fn set_reputation(&mut self, node: u64, score: u32)
        requires
            unique_keys(old(self).reputations@),
        ensures
            unique_keys(final(self).reputations@),
            forall|m: u64|
                #[trigger] val_of(final(self).reputations@, m) == if m == node {
                    Some(score)
                } else {
                    val_of(old(self).reputations@, m)
                },
            final(self).next_transaction_id == old(self).next_transaction_id,
            final(self).pending@ == old(self).pending@,
            final(self).votes@ == old(self).votes@,
            final(self).results@ == old(self).results@,
            final(self).nodes@ == old(self).nodes@,
            final(self).events@ == old(self).events@,
    {
        let ghost s = self.reputations@;
        match self.find_reputation(node) {
            Some(i) => {
                self.reputations[i] = (node, score);
                proof {
                    lemma_val_of_update(s, i as int, node, score);
                }
            },
            None => {
                self.reputations.push((node, score));
                proof {
                    assert forall|i: int| 0 <= i < s.len() implies (#[trigger] s[i]).0 != node by {
                        if s[i].0 == node {
                            lemma_index_implies_val_of(s, node, i);
                        }
                    }
                    lemma_val_of_push(s, node, score);
                }
            },
        }
    }

    /// Store or overwrite a node's declared type.
    fn set_node(&mut self, node: u64, node_type: NodeType)
        requires
            unique_keys(old(self).nodes@),
        ensures
            unique_keys(final(self).nodes@),
            forall|m: u64|
                #[trigger] val_of(final(self).nodes@, m) == if m == node {
                    Some(node_type)
                } else {
                    val_of(old(self).nodes@, m)
                },
            final(self).next_transaction_id == old(self).next_transaction_id,
            final(self).pending@ == old(self).pending@,
            final(self).votes@ == old(self).votes@,
            final(self).results@ == old(self).results@,
            final(self).reputations@ == old(self).reputations@,
            final(self).events@ == old(self).events@,
    {
        let ghost s = self.nodes@;
        match self.find_node(node) {
            Some(i) => {
                self.nodes[i] = (node, node_type);
                proof {
                    lemma_val_of_update(s, i as int, node, node_type);
                }
            },
            None => {
                self.nodes.push((node, node_type));
                proof {
                    assert forall|i: int| 0 <= i < s.len() implies (#[trigger] s[i]).0 != node by {
                        if s[i].0 == node {
                            lemma_index_implies_val_of(s, node, i);
                        }
                    }
                    lemma_val_of_push(s, node, node_type);
                }
            },
        }
    }

    /// Register a node with its declared type and give it the baseline
    /// reputation. Re-registering overwrites the type and resets the score to
    /// the baseline; this engine accepts re-registration rather than
    /// rejecting it.
    pub fn register_node(&mut self, who: u64, node_type: NodeType) -> (r: Result<(), Error>)
        requires
            old(self).wf(),
        ensures
            final(self).wf(),
            r is Ok,
            val_of(final(self).nodes@, who) == Some(node_type),
            forall|m: u64|
                m != who ==> #[trigger] val_of(final(self).nodes@, m) == val_of(
                    old(self).nodes@,
                    m,
                ),
            rep_of(final(self).reputations@, who) == BASELINE_REPUTATION,
            forall|m: u64|
                m != who ==> #[trigger] val_of(final(self).reputations@, m) == val_of(
                    old(self).reputations@,
                    m,
                ),
            final(self).events@ == old(self).events@.push(
                Event::NodeRegistered { node_id: who, node_type },
            ),
            final(self).pending@ == old(self).pending@,
            final(self).votes@ == old(self).votes@,
            final(self).results@ == old(self).results@,
            final(self).next_transaction_id == old(self).next_transaction_id,
    {
        self.set_node(who, node_type);
        self.set_reputation(who, BASELINE_REPUTATION);
        self.events.push(Event::NodeRegistered { node_id: who, node_type });
        proof {
            assert forall|i: int|
                0 <= i < self.votes@.len() implies has_key(
                self.nodes@,
                (#[trigger] self.votes@[i]).1.node_id,
            ) by {
                let n = self.votes@[i].1.node_id;
                if n != who {
                    assert(val_of(self.nodes@, n) == val_of(old(self).nodes@, n));
                }
            }
        }
        Ok(())
    }

    /// Submit a system-call transaction for consensus. It is stored pending
    /// under the next id, with an empty signature, and the submission is
    /// announced carrying the path.
    pub fn submit_syscall(
        &mut self,
        who: u64,
        syscall_type: SyscallType,
        path: Vec<u8>,
        flags: u32,
        class: TransactionClass,
        now: u64,
    ) -> (r: Result<u64, Error>)
        requires
            old(self).wf(),
            old(self).next_transaction_id < u64::MAX,
        ensures
            final(self).wf(),
            ({
                let id = old(self).next_transaction_id;
                &&& r == Ok::<u64, Error>(id)
                &&& final(self).next_transaction_id == id + 1
                &&& final(self).pending@.len() == old(self).pending@.len() + 1
                &&& final(self).pending@.drop_last() == old(self).pending@
                &&& final(self).pending@.last().0 == id
                &&& ({
                    let t = final(self).pending@.last().1;
                    &&& t.caller == who
                    &&& t.syscall_type == syscall_type
                    &&& t.path@ == path@
                    &&& t.flags == flags
                    &&& t.class == class
                    &&& t.timestamp == now
                    &&& t.signature@ == Seq::<u8>::empty()
                })
                &&& final(self).events@ == old(self).events@.push(
                    Event::SyscallSubmitted { transaction_id: id, caller: who, syscall_type, path },
                )
                &&& final(self).votes@ == old(self).votes@
                &&& final(self).results@ == old(self).results@
                &&& final(self).nodes@ == old(self).nodes@
                &&& final(self).reputations@ == old(self).reputations@
            }),
    {
        let transaction_id = self.next_transaction_id;
        let stored_path = crate::bytes::copy_bytes(&path);
        let transaction = SyscallTransaction {
            caller: who,
            syscall_type,
            path: stored_path,
            flags,
            class,
            timestamp: now,
            signature: Vec::new(),
        };
        self.pending.push((transaction_id, transaction));
        self.next_transaction_id = transaction_id + 1;
        self.events.push(
            Event::SyscallSubmitted { transaction_id, caller: who, syscall_type, path },
        );
        proof {
            let p0 = old(self).pending@;
            let p1 = self.pending@;
            assert(p1.drop_last() =~= p0);
            lemma_val_of_push(p0, transaction_id, p1.last().1);
            assert(forall|i: int| 0 <= i < p0.len() ==> (#[trigger] p0[i]).0 != transaction_id);
            assert(forall|i: int| 0 <= i < p0.len() ==> #[trigger] p1[i] == p0[i]);
            assert forall|i: int|
                0 <= i < self.results@.len() implies !has_key(
                p1,
                (#[trigger] self.results@[i]).0,
            ) by {
                assert(self.results@[i].0 != transaction_id);
                assert(val_of(p1, self.results@[i].0) == val_of(p0, self.results@[i].0));
            }
            assert forall|i: int|
                0 <= i < self.votes@.len() implies has_key(p1, (#[trigger] self.votes@[i]).0) by {
                if self.votes@[i].0 != transaction_id {
                    assert(val_of(p1, self.votes@[i].0) == val_of(p0, self.votes@[i].0));
                }
            }
        }
        Ok(transaction_id)
    }

    /// A node's reputation score, 0 if none was ever stored.
    pub fn node_reputation(&self, node: u64) -> (r: u32)
        ensures
            r == rep_of(self.reputations@, node),
    {
        match self.find_reputation(node) {
            Some(i) => self.reputations[i].1,
            None => 0,
        }
    }

    /// Tally the ledger for one transaction: all votes, approvals, denials.
    fn tally_votes(&self, transaction_id: u64) -> (r: (u32, u32, u32))
        requires
            self.votes@.len() <= u32::MAX,
        ensures
            ({
                let vs = votes_of(self.votes@, transaction_id);
                &&& r.0 == vs.len()
                &&& r.1 == approve_count(vs)
                &&& r.2 == deny_count(vs)
                &&& r.1 + r.2 <= r.0
            }),
    {
        let ghost s = self.votes@;
        let mut total: u32 = 0;
        let mut approve: u32 = 0;
        let mut deny: u32 = 0;
        let mut i: usize = 0;
        while i < self.votes.len()
            invariant
                i <= s.len(),
                s == self.votes@,
                s.len() <= u32::MAX,
                total == votes_of(s.take(i as int), transaction_id).len(),
                approve == approve_count(votes_of(s.take(i as int), transaction_id)),
                deny == deny_count(votes_of(s.take(i as int), transaction_id)),
                approve + deny <= total <= i,
            decreases s.len() - i,
        {
            proof {
                assert(s.take(i as int + 1).drop_last() =~= s.take(i as int));
                assert(s.take(i as int + 1).last() == s[i as int]);
                let vs_i = votes_of(s.take(i as int), transaction_id);
                if s[i as int].0 == transaction_id {
                    assert(vs_i.push(s[i as int].1.vote).drop_last() =~= vs_i);
                }
            }
            let matches_tx = self.votes[i].0 == transaction_id;
            if matches_tx {
                total = total + 1;
                match self.votes[i].1.vote {
                    Vote::Approve => {
                        approve = approve + 1;
                    },
                    Vote::Deny => {
                        deny = deny + 1;
                    },
                    Vote::Abstain => {},
                }
            }
            i = i + 1;
        }
        proof {
            assert(s.take(s.len() as int) =~= s);
        }
        (total, approve, deny)
    }

    /// Drop every ledger entry of one transaction.
    fn retain_votes(&mut self, transaction_id: u64)
        ensures
            final(self).votes@ == purge_votes(old(self).votes@, transaction_id),
            final(self).next_transaction_id == old(self).next_transaction_id,
            final(self).pending@ == old(self).pending@,
            final(self).results@ == old(self).results@,
            final(self).nodes@ == old(self).nodes@,
            final(self).reputations@ == old(self).reputations@,
            final(self).events@ == old(self).events@,
    {
        let ghost v0 = self.votes@;
        let mut rest: Vec<(u64, NodeVote)> = Vec::new();
        core::mem::swap(&mut self.votes, &mut rest);
        let ledger_len = rest.len();
        let mut k: usize = 0;
        proof {
            assert(v0.skip(0) =~= v0);
            assert(v0.take(0).len() == 0);
        }
        while rest.len() > 0
            invariant
                v0.len() == ledger_len,
                k <= v0.len(),
                rest@ == v0.skip(k as int),
                self.votes@ == purge_votes(v0.take(k as int), transaction_id),
                self.next_transaction_id == old(self).next_transaction_id,
                self.pending@ == old(self).pending@,
                self.results@ == old(self).results@,
                self.nodes@ == old(self).nodes@,
                self.reputations@ == old(self).reputations@,
                self.events@ == old(self).events@,
            decreases rest@.len(),
        {
            proof {
                assert(v0.take(k as int + 1).drop_last() =~= v0.take(k as int));
                assert(v0.take(k as int + 1).last() == v0[k as int]);
                assert(rest@[0] == v0[k as int]);
            }
            let pair = rest.remove(0);
            proof {
                assert(rest@ =~= v0.skip(k as int + 1));
            }
            if pair.0 != transaction_id {
                self.votes.push(pair);
            }
            k = k + 1;
        }
        proof {
            assert(v0.take(v0.len() as int) =~= v0);
        }
    }

    /// Judge every vote on a just-finalized transaction against the outcome:
    /// agreement is rewarded, opposition penalized (saturating at 0), and
    /// abstentions are exempt. Every non-abstaining voter whose adjusted
    /// score falls below the trust floor is flagged.
    fn update_node_reputations(&mut self, transaction_id: u64, approved: bool)
        requires
            vote_keys_unique(old(self).votes@),
            unique_keys(old(self).reputations@),
        ensures
            unique_keys(final(self).reputations@),
            forall|n: u64|
                #[trigger] rep_of(final(self).reputations@, n) == rep_after(
                    old(self).reputations@,
                    old(self).votes@,
                    transaction_id,
                    approved,
                    n,
                ),
            final(self).events@ == old(self).events@ + rep_events(
                old(self).votes@,
                transaction_id,
                old(self).reputations@,
                approved,
            ),
            final(self).next_transaction_id == old(self).next_transaction_id,
            final(self).pending@ == old(self).pending@,
            final(self).votes@ == old(self).votes@,
            final(self).results@ == old(self).results@,
            final(self).nodes@ == old(self).nodes@,
    {
        let ghost v = self.votes@;
        let ghost reps0 = self.reputations@;
        let ghost e0 = self.events@;
        let mut i: usize = 0;
        proof {
            assert(v.take(0).len() == 0);
        }
        while i < self.votes.len()
            invariant
                i <= v.len(),
                v == self.votes@,
                vote_keys_unique(v),
                unique_keys(self.reputations@),
                forall|n: u64|
                    #[trigger] rep_of(self.reputations@, n) == rep_after(
                        reps0,
                        v.take(i as int),
                        transaction_id,
                        approved,
                        n,
                    ),
                self.events@ == e0 + rep_events(v.take(i as int), transaction_id, reps0, approved),
                self.next_transaction_id == old(self).next_transaction_id,
                self.pending@ == old(self).pending@,
                self.results@ == old(self).results@,
                self.nodes@ == old(self).nodes@,
            decreases v.len() - i,
        {
            let ghost reps_entry = self.reputations@;
            proof {
                assert(v.take(i as int + 1).drop_last() =~= v.take(i as int));
                assert(v.take(i as int + 1).last() == v[i as int]);
            }
            let entry_tx = self.votes[i].0;
            let voter = self.votes[i].1.node_id;
            let choice = self.votes[i].1.vote;
            if entry_tx == transaction_id {
                proof {
                    // This voter was not seen earlier in the ledger.
                    if vote_lookup(v.take(i as int), transaction_id, voter) is Some {
                        lemma_vote_lookup_implies_index(v.take(i as int), transaction_id, voter);
                        let j = choose|j: int|
                            0 <= j < v.take(i as int).len() && (#[trigger] v.take(i as int)[j]).0
                                == transaction_id && v.take(i as int)[j].1.node_id == voter;
                        assert(v[j] == v.take(i as int)[j]);
                        assert(false);
                    }
                }
                let base = self.node_reputation(voter);
                proof {
                    assert(rep_of(self.reputations@, voter) == rep_of(reps0, voter));
                }
                match choice {
                    Vote::Abstain => {},
                    _ => {
                        let agreed = (approved && matches!(choice, Vote::Approve)) || (!approved
                            && matches!(choice, Vote::Deny));
                        let updated = if agreed {
                            if base <= u32::MAX - REPUTATION_REWARD {
                                base + REPUTATION_REWARD
                            } else {
                                u32::MAX
                            }
                        } else {
                            if base >= REPUTATION_PENALTY {
                                base - REPUTATION_PENALTY
                            } else {
                                0
                            }
                        };
                        proof {
                            assert(updated == spec_adjusted(rep_of(reps0, voter), choice, approved));
                        }
                        self.set_reputation(voter, updated);
                        if updated < TRUST_FLOOR {
                            self.events.push(
                                Event::MaliciousBehaviorDetected { node_id: voter, reputation: updated },
                            );
                            proof {
                                assert(self.events@ =~= e0 + rep_events(
                                    v.take(i as int + 1),
                                    transaction_id,
                                    reps0,
                                    approved,
                                ));
                            }
                        }
                    },
                }
            }
            proof {
                assert forall|n: u64|
                    #[trigger] rep_of(self.reputations@, n) == rep_after(
                        reps0,
                        v.take(i as int + 1),
                        transaction_id,
                        approved,
                        n,
                    ) by {
                    assert(rep_of(reps_entry, n) == rep_after(
                        reps0,
                        v.take(i as int),
                        transaction_id,
                        approved,
                        n,
                    ));
                    assert(v.take(i as int + 1).last() == v[i as int]);
                    if v[i as int].0 == transaction_id && v[i as int].1.node_id == n {
                        assert(vote_lookup(v.take(i as int + 1), transaction_id, n) == Some(
                            v[i as int].1.vote,
                        ));
                        assert(vote_lookup(v.take(i as int), transaction_id, n) is None);
                    } else {
                        assert(vote_lookup(v.take(i as int + 1), transaction_id, n)
                            == vote_lookup(v.take(i as int), transaction_id, n));
                    }
                }
            }
            i = i + 1;
        }
        proof {
            assert(v.take(v.len() as int) =~= v);
        }
    }

    /// The vote a node has recorded on a transaction, if any.
    pub fn transaction_votes(&self, transaction_id: u64, node: u64) -> (r: Option<Vote>)
        ensures
            r == vote_lookup(self.votes@, transaction_id, node),
    {
        let ghost s = self.votes@;
        let mut i: usize = self.votes.len();
        proof {
            assert(s.take(s.len() as int) =~= s);
        }
        while i > 0
            invariant
                i <= s.len(),
                s == self.votes@,
                vote_lookup(s, transaction_id, node) == vote_lookup(
                    s.take(i as int),
                    transaction_id,
                    node,
                ),
            decreases i,
        {
            i = i - 1;
            proof {
                assert(s.take(i as int + 1).drop_last() =~= s.take(i as int));
                assert(s.take(i as int + 1).last() == s[i as int]);
            }
            if self.votes[i].0 == transaction_id && self.votes[i].1.node_id == node {
                return Some(self.votes[i].1.vote);
            }
        }
        proof {
            assert(s.take(0).len() == 0);
        }
        None
    }

    /// Cast a node's vote on a pending transaction, then re-evaluate the
    /// consensus for it. Exactly one vote per node and transaction is
    /// accepted; a rejected call leaves the engine unchanged. A vote on a
    /// finalized transaction is rejected as `ConsensusAlreadyReached`, one on
    /// an unknown transaction as `TransactionNotFound`.
    pub fn vote_on_transaction(
        &mut self,
        who: u64,
        transaction_id: u64,
        vote: Vote,
        reason: Vec<u8>,
        now: u64,
    ) -> (r: Result<(), Error>)
        requires
            old(self).wf(),
            old(self).votes@.len() < u32::MAX,
        ensures
            final(self).wf(),
            final(self).next_transaction_id == old(self).next_transaction_id,
            final(self).nodes@ == old(self).nodes@,
            !has_key(old(self).nodes@, who) ==> r == Err::<(), Error>(Error::NodeNotRegistered)
                && *final(self) == *old(self),
            has_key(old(self).nodes@, who) && has_key(old(self).results@, transaction_id) ==> r
                == Err::<(), Error>(Error::ConsensusAlreadyReached) && *final(self) == *old(self),
            has_key(old(self).nodes@, who) && !has_key(old(self).results@, transaction_id)
                && !has_key(old(self).pending@, transaction_id) ==> r == Err::<(), Error>(
                Error::TransactionNotFound,
            ) && *final(self) == *old(self),
            has_key(old(self).nodes@, who) && !has_key(old(self).results@, transaction_id)
                && has_key(old(self).pending@, transaction_id) && vote_lookup(
                old(self).votes@,
                transaction_id,
                who,
            ) is Some ==> r == Err::<(), Error>(Error::AlreadyVoted) && *final(self) == *old(self),
            has_key(old(self).nodes@, who) && !has_key(old(self).results@, transaction_id)
                && has_key(old(self).pending@, transaction_id) && vote_lookup(
                old(self).votes@,
                transaction_id,
                who,
            ) is None ==> r is Ok && ({
                let nt = val_of(old(self).nodes@, who)->Some_0;
                let rec = NodeVote { node_id: who, node_type: nt, vote, reason, timestamp: now };
                let ledger = old(self).votes@.push((transaction_id, rec));
                let vs = votes_of(old(self).votes@, transaction_id).push(vote);
                let voted_events = old(self).events@.push(
                    Event::NodeVoted { transaction_id, voter: who, node_type: nt, vote },
                );
                if !spec_finalizes(vs) {
                    &&& final(self).votes@ == ledger
                    &&& final(self).pending@ == old(self).pending@
                    &&& final(self).results@ == old(self).results@
                    &&& final(self).reputations@ == old(self).reputations@
                    &&& final(self).events@ == voted_events
                } else {
                    let res = spec_consensus_result(vs);
                    &&& final(self).results@ == old(self).results@.push((transaction_id, res))
                    &&& final(self).pending@ == remove_key(old(self).pending@, transaction_id)
                    &&& final(self).votes@ == purge_votes(old(self).votes@, transaction_id)
                    &&& forall|n: u64|
                        #[trigger] rep_of(final(self).reputations@, n) == rep_after(
                            old(self).reputations@,
                            ledger,
                            transaction_id,
                            res.approved,
                            n,
                        )
                    &&& final(self).events@ == voted_events.push(
                        Event::ConsensusReached {
                            transaction_id,
                            approved: res.approved,
                            votes_for: res.votes_for,
                            votes_against: res.votes_against,
                        },
                    ) + rep_events(ledger, transaction_id, old(self).reputations@, res.approved)
                }
            }),
    {
        let node_type = match self.find_node(who) {
            None => {
                return Err(Error::NodeNotRegistered);
            },
            Some(i) => self.nodes[i].1,
        };
        if self.find_result(transaction_id).is_some() {
            return Err(Error::ConsensusAlreadyReached);
        }
        if self.find_pending(transaction_id).is_none() {
            return Err(Error::TransactionNotFound);
        }
        if self.transaction_votes(transaction_id, who).is_some() {
            return Err(Error::AlreadyVoted);
        }
        let record = NodeVote { node_id: who, node_type, vote, reason, timestamp: now };
        let ghost v0 = self.votes@;
        self.votes.push((transaction_id, record));
        self.events.push(Event::NodeVoted { transaction_id, voter: who, node_type, vote });
        proof {
            let v1 = self.votes@;
            assert(v1.drop_last() =~= v0);
            assert(v1.last() == (transaction_id, record));
            // One vote per pair still holds: `who` had no vote on this
            // transaction yet.
            assert forall|i: int, j: int| 0 <= i < j < v1.len() implies !((#[trigger] v1[i]).0 == (
            #[trigger] v1[j]).0 && v1[i].1.node_id == v1[j].1.node_id) by {
                if j == v1.len() - 1 {
                    assert(v1[i] == v0[i]);
                    if v0[i].0 == transaction_id && v0[i].1.node_id == who {
                        lemma_vote_index_implies_lookup(v0, i);
                    }
                }
            }
            assert(forall|i: int| 0 <= i < v0.len() ==> #[trigger] v1[i] == v0[i]);
            // The new ledger tallies as the old one plus this vote.
            assert(votes_of(v1, transaction_id) == votes_of(v0, transaction_id).push(vote));
            assert(purge_votes(v1, transaction_id) == purge_votes(v0, transaction_id));
        }
        let ghost mid = *self;
        self.check_consensus(transaction_id);
        proof {
            let vs = votes_of(old(self).votes@, transaction_id).push(vote);
            if spec_finalizes(vs) {
                let res = spec_consensus_result(vs);
                assert(mid.events@ + seq![
                    Event::ConsensusReached {
                        transaction_id,
                        approved: res.approved,
                        votes_for: res.votes_for,
                        votes_against: res.votes_against,
                    },
                ] =~= mid.events@.push(
                    Event::ConsensusReached {
                        transaction_id,
                        approved: res.approved,
                        votes_for: res.votes_for,
                        votes_against: res.votes_against,
                    },
                ));
            }
        }
        Ok(())
    }

    /// Explicitly re-evaluate the consensus for a pending transaction. This
    /// behaves identically whether it is called after every vote or once at
    /// the end: votes already trigger the same evaluation. A transaction
    /// that is not pending is reported as `TransactionNotFound`.
    pub fn finalize_consensus(&mut self, _who: u64, transaction_id: u64) -> (r: Result<(), Error>)
        requires
            old(self).wf(),
        ensures
            final(self).wf(),
            final(self).next_transaction_id == old(self).next_transaction_id,
            final(self).nodes@ == old(self).nodes@,
            !has_key(old(self).pending@, transaction_id) ==> r == Err::<(), Error>(
                Error::TransactionNotFound,
            ) && *final(self) == *old(self),
            has_key(old(self).pending@, transaction_id) ==> r is Ok && ({
                let vs = votes_of(old(self).votes@, transaction_id);
                if !spec_finalizes(vs) {
                    *final(self) == *old(self)
                } else {
                    let res = spec_consensus_result(vs);
                    &&& final(self).results@ == old(self).results@.push((transaction_id, res))
                    &&& final(self).pending@ == remove_key(old(self).pending@, transaction_id)
                    &&& final(self).votes@ == purge_votes(old(self).votes@, transaction_id)
                    &&& forall|n: u64|
                        #[trigger] rep_of(final(self).reputations@, n) == rep_after(
                            old(self).reputations@,
                            old(self).votes@,
                            transaction_id,
                            res.approved,
                            n,
                        )
                    &&& final(self).events@ == old(self).events@.push(
                        Event::ConsensusReached {
                            transaction_id,
                            approved: res.approved,
                            votes_for: res.votes_for,
                            votes_against: res.votes_against,
                        },
                    ) + rep_events(
                        old(self).votes@,
                        transaction_id,
                        old(self).reputations@,
                        res.approved,
                    )
                }
            }),
    {
        if self.find_pending(transaction_id).is_none() {
            return Err(Error::TransactionNotFound);
        }
        self.check_consensus(transaction_id);
        Ok(())
    }

    /// The pending transaction stored under an id, if any.
    pub fn pending_transactions(&self, transaction_id: u64) -> (r: Option<&SyscallTransaction>)
        ensures
            match r {
                Some(t) => val_of(self.pending@, transaction_id) == Some(*t),
                None => !has_key(self.pending@, transaction_id),
            },
    {
        match self.find_pending(transaction_id) {
            Some(i) => Some(&self.pending[i].1),
            None => None,
        }
    }

    /// The consensus result recorded for a finalized transaction, if any.
    pub fn consensus_results(&self, transaction_id: u64) -> (r: Option<ConsensusResult>)
        ensures
            r == val_of(self.results@, transaction_id),
    {
        match self.find_result(transaction_id) {
            Some(i) => Some(self.results[i].1),
            None => None,
        }
    }

    /// The declared type of a registered node, if it is registered.
    pub fn registered_nodes(&self, node: u64) -> (r: Option<NodeType>)
        ensures
            r == val_of(self.nodes@, node),
    {
        match self.find_node(node) {
            Some(i) => Some(self.nodes[i].1),
            None => None,
        }
    }

    /// Tally a pending transaction and, once it is decided — at the quorum,
    /// or at the force-finalize cap — finalize it: record the result, drop
    /// the transaction from the pending store, announce the decision, judge
    /// the voters' reputations, and purge the votes. Short of both bounds
    /// nothing changes.
    fn check_consensus(&mut self, transaction_id: u64)
        requires
            old(self).wf(),
            has_key(old(self).pending@, transaction_id),
        ensures
            final(self).wf(),
            final(self).next_transaction_id == old(self).next_transaction_id,
            final(self).nodes@ == old(self).nodes@,
            ({
                let vs = votes_of(old(self).votes@, transaction_id);
                if !spec_finalizes(vs) {
                    *final(self) == *old(self)
                } else {
                    let res = spec_consensus_result(vs);
                    &&& final(self).results@ == old(self).results@.push((transaction_id, res))
                    &&& final(self).pending@ == remove_key(old(self).pending@, transaction_id)
                    &&& final(self).votes@ == purge_votes(old(self).votes@, transaction_id)
                    &&& forall|n: u64|
                        #[trigger] rep_of(final(self).reputations@, n) == rep_after(
                            old(self).reputations@,
                            old(self).votes@,
                            transaction_id,
                            res.approved,
                            n,
                        )
                    &&& final(self).events@ == old(self).events@.push(
                        Event::ConsensusReached {
                            transaction_id,
                            approved: res.approved,
                            votes_for: res.votes_for,
                            votes_against: res.votes_against,
                        },
                    ) + rep_events(
                        old(self).votes@,
                        transaction_id,
                        old(self).reputations@,
                        res.approved,
                    )
                }
            }),
    {
        let (total, approve, deny) = self.tally_votes(transaction_id);
        let threshold_met = total >= MINIMUM_VOTES;
        let approved = threshold_met && approve >= APPROVAL_VOTES;
        if !(threshold_met || total >= FORCE_FINALIZE_CAP) {
            return ;
        }
        let ghost vs = votes_of(self.votes@, transaction_id);
        let result = ConsensusResult {
            approved,
            votes_for: approve,
            votes_against: deny,
            total_votes: total,
            threshold_met,
        };
        proof {
            lemma_votes_of_len(old(self).votes@, transaction_id);
            assert(result == spec_consensus_result(vs));
        }
        let idx = match self.find_pending(transaction_id) {
            Some(i) => i,
            None => {
                proof {
                    assert(false);
                }
                return ;
            },
        };
        let ghost p0 = self.pending@;
        let ghost r0 = self.results@;
        let ghost v0 = self.votes@;
        let ghost e0 = self.events@;
        self.results.push((transaction_id, result));
        let _removed = self.pending.remove(idx);
        self.events.push(
            Event::ConsensusReached {
                transaction_id,
                approved,
                votes_for: approve,
                votes_against: deny,
            },
        );
        self.update_node_reputations(transaction_id, approved);
        self.retain_votes(transaction_id);
        proof {
            let p1 = self.pending@;
            let r1 = self.results@;
            let v1 = self.votes@;
            // The pending store lost exactly this transaction.
            lemma_remove_key_at_index(p0, idx as int);
            lemma_remove_key(p0, transaction_id);
            assert(p1 == remove_key(p0, transaction_id));
            // The emitted events: the decision, then the flags.
            assert(self.events@ =~= e0.push(
                Event::ConsensusReached {
                    transaction_id,
                    approved,
                    votes_for: approve,
                    votes_against: deny,
                },
            ) + rep_events(v0, transaction_id, old(self).reputations@, approved));
            // Pending ids stay unique and bounded.
            assert forall|i: int|
                0 <= i < p1.len() implies 1 <= (#[trigger] p1[i]).0
                < self.next_transaction_id by {
                assert(p0.contains(p1[i]));
                let j = choose|j: int| 0 <= j < p0.len() && p0[j] == p1[i];
                assert(1 <= p0[j].0 < self.next_transaction_id);
            }
            // The results gain this id, which no recorded result carried.
            assert forall|i: int| 0 <= i < r0.len() implies (#[trigger] r0[i]).0
                != transaction_id by {
                assert(!has_key(p0, r0[i].0));
            }
            lemma_val_of_push(r0, transaction_id, result);
            assert(unique_keys(r1));
            assert(forall|i: int| 0 <= i < r0.len() ==> #[trigger] r1[i] == r0[i]);
            assert(r1[r1.len() - 1] == (transaction_id, result));
            assert forall|i: int|
                0 <= i < r1.len() implies 1 <= (#[trigger] r1[i]).0
                < self.next_transaction_id by {
                if i < r0.len() {
                } else {
                    assert(r1[i].0 == transaction_id);
                    assert(1 <= p0[idx as int].0 < self.next_transaction_id);
                }
            }
            // No recorded result's id is pending any more.
            assert forall|i: int| 0 <= i < r1.len() implies !has_key(p1, (#[trigger] r1[i]).0) by {
                if i < r0.len() {
                    assert(r1[i].0 != transaction_id);
                    assert(val_of(p1, r1[i].0) == val_of(p0, r1[i].0));
                } else {
                    assert(r1[i].0 == transaction_id);
                }
            }
            // The purged ledger still points at pending transactions and
            // registered nodes, one vote per pair.
            lemma_purge_votes(v0, transaction_id);
            assert forall|i: int|
                0 <= i < v1.len() implies has_key(p1, (#[trigger] v1[i]).0) && has_key(
                self.nodes@,
                v1[i].1.node_id,
            ) by {
                assert(v0.contains(v1[i]) && v1[i].0 != transaction_id);
                let j = choose|j: int| 0 <= j < v0.len() && v0[j] == v1[i];
                assert(has_key(p0, v0[j].0));
                assert(has_key(self.nodes@, v0[j].1.node_id));
                assert(val_of(p1, v1[i].0) == val_of(p0, v1[i].0));
            }
        }
    }
}

/// Once a consensus result is recorded for a transaction, its id is not in
/// the pending store: a finalized id never reappears as pending.
pub proof fn lemma_finalized_never_pending(p: Pallet, transaction_id: u64)
    requires
        p.wf(),
        has_key(p.results@, transaction_id),
    ensures
        !has_key(p.pending@, transaction_id),
{
    lemma_val_of_implies_index(p.results@, transaction_id);
    let i = choose|i: int|
        0 <= i < p.results@.len() && (#[trigger] p.results@[i]).0 == transaction_id;
    assert(!has_key(p.pending@, p.results@[i].0));
}

} // verus!
