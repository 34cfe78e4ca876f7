use ubuntu_consensus::ubuntu_os::{
    ConsensusResult, Error, Event, Module, OperationType, Vote,
};

fn engine_with_validators(minimum_votes: u32, threshold: u32, validators: &[u64]) -> Module {
    let mut m = Module::new(minimum_votes, threshold);
    for v in validators {
        m.add_validator(*v).unwrap();
    }
    m
}

fn submit_sudo(m: &mut Module, requester: u64) -> u32 {
    m.submit_operation(requester, OperationType::Sudo, vec![1, 2, 3], vec![9], 7)
        .unwrap()
}

#[test]
fn submit_and_vote_works() {
    let mut m = engine_with_validators(3, 60, &[1, 2, 3]);
    let id = submit_sudo(&mut m, 42);
    assert_eq!(id, 1);
    assert!(m.pending_operations(id).is_some());
    assert_eq!(m.vote_on_operation(1, id, Vote::Approve), Ok(()));
    assert_eq!(m.operation_votes(id, 1), Some(Vote::Approve));
    assert_eq!(m.vote_on_operation(2, id, Vote::Approve), Ok(()));
    assert_eq!(m.vote_on_operation(3, id, Vote::Approve), Ok(()));
    assert_eq!(m.get_consensus_result(id), Some(true));
    assert!(m.pending_operations(id).is_none());
}

#[test]
fn two_thirds_approval_passes_sixty_percent() {
    let mut m = engine_with_validators(3, 60, &[1, 2, 3]);
    let id = submit_sudo(&mut m, 42);
    m.vote_on_operation(1, id, Vote::Approve).unwrap();
    m.vote_on_operation(2, id, Vote::Approve).unwrap();
    m.vote_on_operation(3, id, Vote::Deny).unwrap();
    let (_, result) = m.operation_history(id).unwrap();
    assert_eq!(
        *result,
        ConsensusResult { total_votes: 3, approve_votes: 2, deny_votes: 1, approved: true }
    );
}

#[test]
fn one_third_approval_fails_sixty_percent() {
    let mut m = engine_with_validators(3, 60, &[1, 2, 3]);
    let id = submit_sudo(&mut m, 42);
    m.vote_on_operation(1, id, Vote::Approve).unwrap();
    m.vote_on_operation(2, id, Vote::Deny).unwrap();
    m.vote_on_operation(3, id, Vote::Deny).unwrap();
    let (_, result) = m.operation_history(id).unwrap();
    assert_eq!(
        *result,
        ConsensusResult { total_votes: 3, approve_votes: 1, deny_votes: 2, approved: false }
    );
    assert_eq!(m.get_consensus_result(id), Some(false));
}

#[test]
fn abstentions_count_toward_quorum_but_not_ratio() {
    let mut m = engine_with_validators(4, 60, &[1, 2, 3, 4]);
    let id = submit_sudo(&mut m, 42);
    m.vote_on_operation(1, id, Vote::Approve).unwrap();
    m.vote_on_operation(2, id, Vote::Abstain).unwrap();
    m.vote_on_operation(3, id, Vote::Abstain).unwrap();
    assert!(m.pending_operations(id).is_some());
    m.vote_on_operation(4, id, Vote::Deny).unwrap();
    // Quorum counts all four votes; the ratio is 1 of 2 = 50%, below 60%.
    let (_, result) = m.operation_history(id).unwrap();
    assert_eq!(
        *result,
        ConsensusResult { total_votes: 4, approve_votes: 1, deny_votes: 1, approved: false }
    );
}

#[test]
fn abstentions_alone_never_approve() {
    let mut m = engine_with_validators(3, 60, &[1, 2, 3]);
    let id = submit_sudo(&mut m, 42);
    m.vote_on_operation(1, id, Vote::Abstain).unwrap();
    m.vote_on_operation(2, id, Vote::Abstain).unwrap();
    m.vote_on_operation(3, id, Vote::Abstain).unwrap();
    // The ratio denominator is guarded: only abstentions reads as 0%.
    let (_, result) = m.operation_history(id).unwrap();
    assert_eq!(
        *result,
        ConsensusResult { total_votes: 3, approve_votes: 0, deny_votes: 0, approved: false }
    );
}

#[test]
fn double_vote_rejected_and_first_vote_kept() {
    let mut m = engine_with_validators(3, 60, &[1, 2, 3]);
    let id = submit_sudo(&mut m, 42);
    m.vote_on_operation(1, id, Vote::Deny).unwrap();
    assert_eq!(m.vote_on_operation(1, id, Vote::Approve), Err(Error::AlreadyVoted));
    assert_eq!(m.operation_votes(id, 1), Some(Vote::Deny));
}

#[test]
fn below_quorum_stays_pending() {
    let mut m = engine_with_validators(3, 60, &[1, 2, 3]);
    let id = submit_sudo(&mut m, 42);
    m.vote_on_operation(1, id, Vote::Approve).unwrap();
    m.vote_on_operation(2, id, Vote::Approve).unwrap();
    assert!(m.pending_operations(id).is_some());
    assert_eq!(m.get_consensus_result(id), None);
}

#[test]
fn finalized_operation_rejects_further_votes() {
    let mut m = engine_with_validators(3, 60, &[1, 2, 3, 4]);
    let id = submit_sudo(&mut m, 42);
    m.vote_on_operation(1, id, Vote::Approve).unwrap();
    m.vote_on_operation(2, id, Vote::Approve).unwrap();
    m.vote_on_operation(3, id, Vote::Approve).unwrap();
    assert!(m.pending_operations(id).is_none());
    assert_eq!(
        m.vote_on_operation(4, id, Vote::Deny),
        Err(Error::ConsensusAlreadyReached)
    );
}

#[test]
fn unknown_operation_rejects_votes() {
    let mut m = engine_with_validators(3, 60, &[1]);
    assert_eq!(m.vote_on_operation(1, 99, Vote::Approve), Err(Error::OperationNotFound));
}

#[test]
fn non_validator_cannot_vote() {
    let mut m = engine_with_validators(3, 60, &[1]);
    let id = submit_sudo(&mut m, 42);
    assert_eq!(m.vote_on_operation(8, id, Vote::Approve), Err(Error::NotValidator));
    assert_eq!(m.operation_votes(id, 8), None);
}

#[test]
fn empty_payload_rejected() {
    let mut m = engine_with_validators(3, 60, &[1]);
    assert_eq!(
        m.submit_operation(42, OperationType::Network, vec![], vec![9], 7),
        Err(Error::InvalidOperation)
    );
    assert_eq!(m.next_operation_id, 1);
}

#[test]
fn trust_level_clamped_at_100() {
    let mut m = Module::new(3, 60);
    m.update_device_trust(vec![108, 97, 112], 150).unwrap();
    assert_eq!(m.device_trust_level(&vec![108, 97, 112]), 100);
    assert_eq!(
        m.events.last(),
        Some(&Event::DeviceTrustUpdated(vec![108, 97, 112], 100))
    );
    m.update_device_trust(vec![108, 97, 112], 30).unwrap();
    assert_eq!(m.device_trust_level(&vec![108, 97, 112]), 30);
}

#[test]
fn tally_is_order_independent() {
    let orders: [[Vote; 3]; 3] = [
        [Vote::Approve, Vote::Approve, Vote::Deny],
        [Vote::Approve, Vote::Deny, Vote::Approve],
        [Vote::Deny, Vote::Approve, Vote::Approve],
    ];
    let mut results = Vec::new();
    for order in orders.iter() {
        let mut m = engine_with_validators(3, 60, &[1, 2, 3]);
        let id = submit_sudo(&mut m, 42);
        for (voter, vote) in order.iter().enumerate() {
            m.vote_on_operation(voter as u64 + 1, id, *vote).unwrap();
        }
        results.push(m.operation_history(id).unwrap().1);
    }
    assert_eq!(results[0], results[1]);
    assert_eq!(results[1], results[2]);
}

#[test]
fn high_consensus_categories() {
    assert!(Module::requires_high_consensus(&OperationType::Sudo));
    assert!(Module::requires_high_consensus(&OperationType::FileWrite));
    assert!(Module::requires_high_consensus(&OperationType::Device));
    assert!(!Module::requires_high_consensus(&OperationType::Network));
    assert!(!Module::requires_high_consensus(&OperationType::Process));
    assert!(!Module::requires_high_consensus(&OperationType::Memory));
}

#[test]
fn end_to_end_sudo_scenario() {
    // Five registered nodes, a quorum of five, a sixty percent threshold.
    let mut m = engine_with_validators(5, 60, &[1, 2, 3, 4, 5]);
    let id = m
        .submit_operation(42, OperationType::Sudo, vec![115, 117], vec![9], 11)
        .unwrap();
    m.vote_on_operation(1, id, Vote::Approve).unwrap();
    m.vote_on_operation(2, id, Vote::Approve).unwrap();
    m.vote_on_operation(3, id, Vote::Deny).unwrap();
    m.vote_on_operation(4, id, Vote::Abstain).unwrap();
    assert!(m.pending_operations(id).is_some());
    m.vote_on_operation(5, id, Vote::Approve).unwrap();
    // total 5 >= 5; ratio 3 of 4 = 75% >= 60%: approved and executed.
    assert!(m.pending_operations(id).is_none());
    let (operation, result) = m.operation_history(id).unwrap();
    assert_eq!(operation.requester, 42);
    assert_eq!(operation.operation_type, OperationType::Sudo);
    assert_eq!(
        *result,
        ConsensusResult { total_votes: 5, approve_votes: 3, deny_votes: 1, approved: true }
    );
    assert!(m.events.contains(&Event::ConsensusReached(id, true)));
    assert!(m.events.contains(&Event::OperationExecuted(id)));
    assert_eq!(m.events.last(), Some(&Event::OperationExecuted(id)));
}

#[test]
fn sequential_ids_and_separate_tallies() {
    let mut m = engine_with_validators(3, 60, &[1, 2, 3]);
    let a = submit_sudo(&mut m, 42);
    let b = submit_sudo(&mut m, 43);
    assert_eq!((a, b), (1, 2));
    m.vote_on_operation(1, a, Vote::Approve).unwrap();
    m.vote_on_operation(1, b, Vote::Deny).unwrap();
    assert_eq!(m.operation_votes(a, 1), Some(Vote::Approve));
    assert_eq!(m.operation_votes(b, 1), Some(Vote::Deny));
}
