use ubuntu_consensus::ubuntu_secure::{
    ConsensusResult, Error, Event, NodeType, Pallet, SyscallType, TransactionClass, Vote,
    BASELINE_REPUTATION,
};

fn network_of_five() -> Pallet {
    let mut p = Pallet::new();
    p.register_node(1, NodeType::Laptop).unwrap();
    p.register_node(2, NodeType::Phone).unwrap();
    p.register_node(3, NodeType::Pi).unwrap();
    p.register_node(4, NodeType::Cloud).unwrap();
    p.register_node(5, NodeType::Friend).unwrap();
    p
}

fn submit_exec(p: &mut Pallet, caller: u64) -> u64 {
    p.submit_syscall(
        caller,
        SyscallType::ProcessExec,
        vec![47, 98, 105, 110],
        0,
        TransactionClass::ClassA,
        3,
    )
    .unwrap()
}

#[test]
fn registration_sets_type_and_baseline_reputation() {
    let p = network_of_five();
    assert_eq!(p.registered_nodes(1), Some(NodeType::Laptop));
    assert_eq!(p.registered_nodes(9), None);
    assert_eq!(p.node_reputation(1), BASELINE_REPUTATION);
    assert_eq!(p.node_reputation(9), 0);
}

#[test]
fn reregistration_overwrites_and_resets() {
    let mut p = network_of_five();
    p.register_node(1, NodeType::Cloud).unwrap();
    assert_eq!(p.registered_nodes(1), Some(NodeType::Cloud));
    assert_eq!(p.node_reputation(1), BASELINE_REPUTATION);
}

#[test]
fn submitted_transaction_is_pending() {
    let mut p = network_of_five();
    let tx = submit_exec(&mut p, 1);
    assert_eq!(tx, 1);
    let stored = p.pending_transactions(tx).unwrap();
    assert_eq!(stored.caller, 1);
    assert_eq!(stored.syscall_type, SyscallType::ProcessExec);
    assert_eq!(stored.path, vec![47, 98, 105, 110]);
    assert!(stored.signature.is_empty());
    assert_eq!(p.consensus_results(tx), None);
}

#[test]
fn three_approvals_reach_consensus() {
    let mut p = network_of_five();
    let tx = submit_exec(&mut p, 1);
    p.vote_on_transaction(1, tx, Vote::Approve, vec![], 4).unwrap();
    p.vote_on_transaction(2, tx, Vote::Approve, vec![], 5).unwrap();
    assert_eq!(p.consensus_results(tx), None);
    p.vote_on_transaction(3, tx, Vote::Approve, vec![], 6).unwrap();
    assert_eq!(
        p.consensus_results(tx),
        Some(ConsensusResult {
            approved: true,
            votes_for: 3,
            votes_against: 0,
            total_votes: 3,
            threshold_met: true,
        })
    );
    assert!(p.pending_transactions(tx).is_none());
}

#[test]
fn three_denials_reach_consensus_denied() {
    let mut p = network_of_five();
    let tx = submit_exec(&mut p, 1);
    p.vote_on_transaction(1, tx, Vote::Deny, vec![], 4).unwrap();
    p.vote_on_transaction(2, tx, Vote::Deny, vec![], 5).unwrap();
    p.vote_on_transaction(3, tx, Vote::Deny, vec![], 6).unwrap();
    assert_eq!(
        p.consensus_results(tx),
        Some(ConsensusResult {
            approved: false,
            votes_for: 0,
            votes_against: 3,
            total_votes: 3,
            threshold_met: true,
        })
    );
}

#[test]
fn abstentions_count_toward_threshold_only() {
    let mut p = network_of_five();
    let tx = submit_exec(&mut p, 1);
    p.vote_on_transaction(1, tx, Vote::Approve, vec![], 4).unwrap();
    p.vote_on_transaction(2, tx, Vote::Abstain, vec![], 5).unwrap();
    p.vote_on_transaction(3, tx, Vote::Abstain, vec![], 6).unwrap();
    // Three votes meet the threshold, but only one approval: denied.
    assert_eq!(
        p.consensus_results(tx),
        Some(ConsensusResult {
            approved: false,
            votes_for: 1,
            votes_against: 0,
            total_votes: 3,
            threshold_met: true,
        })
    );
}

#[test]
fn unregistered_node_cannot_vote_or_be_voted_past() {
    let mut p = Pallet::new();
    p.register_node(1, NodeType::Laptop).unwrap();
    let tx = submit_exec(&mut p, 1);
    assert_eq!(
        p.vote_on_transaction(9, tx, Vote::Approve, vec![], 4),
        Err(Error::NodeNotRegistered)
    );
    assert_eq!(
        p.vote_on_transaction(1, 77, Vote::Approve, vec![], 4),
        Err(Error::TransactionNotFound)
    );
}

#[test]
fn double_vote_rejected_keeps_first_node_vote() {
    let mut p = network_of_five();
    let tx = submit_exec(&mut p, 1);
    p.vote_on_transaction(1, tx, Vote::Deny, vec![], 4).unwrap();
    assert_eq!(
        p.vote_on_transaction(1, tx, Vote::Approve, vec![], 5),
        Err(Error::AlreadyVoted)
    );
    assert_eq!(p.transaction_votes(tx, 1), Some(Vote::Deny));
}

#[test]
fn finalized_transaction_rejects_further_votes() {
    let mut p = network_of_five();
    let tx = submit_exec(&mut p, 1);
    p.vote_on_transaction(1, tx, Vote::Approve, vec![], 4).unwrap();
    p.vote_on_transaction(2, tx, Vote::Approve, vec![], 5).unwrap();
    p.vote_on_transaction(3, tx, Vote::Approve, vec![], 6).unwrap();
    assert_eq!(
        p.vote_on_transaction(4, tx, Vote::Deny, vec![], 7),
        Err(Error::ConsensusAlreadyReached)
    );
    assert!(p.pending_transactions(tx).is_none());
}

#[test]
fn explicit_finalize_matches_per_vote_evaluation() {
    let mut p = network_of_five();
    let tx = submit_exec(&mut p, 1);
    p.vote_on_transaction(1, tx, Vote::Approve, vec![], 4).unwrap();
    p.vote_on_transaction(2, tx, Vote::Approve, vec![], 5).unwrap();
    // Below the threshold an explicit trigger changes nothing.
    assert_eq!(p.finalize_consensus(1, tx), Ok(()));
    assert!(p.pending_transactions(tx).is_some());
    assert_eq!(p.consensus_results(tx), None);
    p.vote_on_transaction(3, tx, Vote::Deny, vec![], 6).unwrap();
    assert!(p.consensus_results(tx).is_some());
    // Once finalized the transaction is gone from the pending store.
    assert_eq!(p.finalize_consensus(1, tx), Err(Error::TransactionNotFound));
}

#[test]
fn reputation_follows_alignment_with_outcome() {
    let mut p = network_of_five();
    let tx = submit_exec(&mut p, 1);
    // Denied outcome: the denier agreed, the approver opposed, the
    // abstainer is exempt.
    p.vote_on_transaction(1, tx, Vote::Approve, vec![], 4).unwrap();
    p.vote_on_transaction(2, tx, Vote::Deny, vec![], 5).unwrap();
    p.vote_on_transaction(3, tx, Vote::Abstain, vec![], 6).unwrap();
    assert_eq!(p.consensus_results(tx).unwrap().approved, false);
    assert_eq!(p.node_reputation(1), BASELINE_REPUTATION - 2);
    assert_eq!(p.node_reputation(2), BASELINE_REPUTATION + 1);
    assert_eq!(p.node_reputation(3), BASELINE_REPUTATION);
    // Approved outcome: every approver is rewarded.
    let tx2 = submit_exec(&mut p, 1);
    p.vote_on_transaction(3, tx2, Vote::Approve, vec![], 7).unwrap();
    p.vote_on_transaction(4, tx2, Vote::Approve, vec![], 8).unwrap();
    p.vote_on_transaction(5, tx2, Vote::Approve, vec![], 9).unwrap();
    assert_eq!(p.consensus_results(tx2).unwrap().approved, true);
    assert_eq!(p.node_reputation(3), BASELINE_REPUTATION + 1);
    assert_eq!(p.node_reputation(4), BASELINE_REPUTATION + 1);
    assert_eq!(p.node_reputation(5), BASELINE_REPUTATION + 1);
}

#[test]
fn reputation_floor_flags_malicious_node() {
    let mut p = network_of_five();
    // Node 1 opposes the outcome 26 times: 100 - 26 * 2 = 48, below 50.
    for round in 0..26u64 {
        let tx = submit_exec(&mut p, 2);
        p.vote_on_transaction(1, tx, Vote::Approve, vec![], round).unwrap();
        p.vote_on_transaction(2, tx, Vote::Deny, vec![], round).unwrap();
        p.vote_on_transaction(3, tx, Vote::Deny, vec![], round).unwrap();
        assert_eq!(p.consensus_results(tx).unwrap().approved, false);
    }
    assert_eq!(p.node_reputation(1), 48);
    assert!(p
        .events
        .contains(&Event::MaliciousBehaviorDetected { node_id: 1, reputation: 48 }));
    assert!(!p
        .events
        .iter()
        .any(|e| matches!(e, Event::MaliciousBehaviorDetected { node_id: 1, reputation: 50 })));
}

#[test]
fn votes_are_purged_after_finalization() {
    let mut p = network_of_five();
    let tx = submit_exec(&mut p, 1);
    p.vote_on_transaction(1, tx, Vote::Approve, vec![], 4).unwrap();
    p.vote_on_transaction(2, tx, Vote::Approve, vec![], 5).unwrap();
    p.vote_on_transaction(3, tx, Vote::Approve, vec![], 6).unwrap();
    assert_eq!(p.transaction_votes(tx, 1), None);
    assert_eq!(p.transaction_votes(tx, 2), None);
    assert_eq!(p.transaction_votes(tx, 3), None);
}

#[test]
fn consensus_events_are_announced() {
    let mut p = network_of_five();
    let tx = submit_exec(&mut p, 1);
    p.vote_on_transaction(1, tx, Vote::Approve, vec![], 4).unwrap();
    p.vote_on_transaction(2, tx, Vote::Approve, vec![], 5).unwrap();
    p.vote_on_transaction(3, tx, Vote::Approve, vec![], 6).unwrap();
    assert!(p.events.contains(&Event::SyscallSubmitted {
        transaction_id: tx,
        caller: 1,
        syscall_type: SyscallType::ProcessExec,
        path: vec![47, 98, 105, 110],
    }));
    assert!(p.events.contains(&Event::NodeVoted {
        transaction_id: tx,
        voter: 2,
        node_type: NodeType::Phone,
        vote: Vote::Approve,
    }));
    assert_eq!(
        p.events.last(),
        Some(&Event::ConsensusReached {
            transaction_id: tx,
            approved: true,
            votes_for: 3,
            votes_against: 0,
        })
    );
}
