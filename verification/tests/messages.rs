use consensus::agenda::Agenda;
use consensus::optimistic_compiler::OptimisticCompiler;
use consensus::types::{
    Action, ConsensusMessage, Digest, Input, PublicKey, RecoveryVote, State, SubProto,
    VoteProgress, QC,
};

fn compiler() -> OptimisticCompiler {
    OptimisticCompiler::new(PublicKey([7; 32]))
}

fn vote() -> RecoveryVote {
    RecoveryVote {
        era: 5,
        index: 260,
        qc: QC { view: 5, round: 2, signatures: vec![1, 2, 3] },
        author: PublicKey([9; 32]),
        signature: vec![4, 5],
    }
}

fn jolteon_messages() -> Vec<ConsensusMessage> {
    vec![
        ConsensusMessage::ProposeJolteon(vec![1]),
        ConsensusMessage::VoteJolteon(vec![2]),
        ConsensusMessage::TimeoutJolteon(vec![3]),
        ConsensusMessage::TCJolteon(vec![4]),
        ConsensusMessage::SignedQCJolteon(vec![5]),
        ConsensusMessage::RandomnessShareJolteon(vec![6]),
        ConsensusMessage::RandomCoinJolteon(vec![7]),
        ConsensusMessage::SyncRequestJolteon(Digest([8; 32]), PublicKey([8; 32])),
        ConsensusMessage::SyncReplyJolteon(vec![9]),
    ]
}

fn vaba_messages() -> Vec<ConsensusMessage> {
    vec![
        ConsensusMessage::ProposeVaba(vec![1]),
        ConsensusMessage::VoteVaba(vec![2]),
        ConsensusMessage::TimeoutVaba(vec![3]),
        ConsensusMessage::TCVaba(vec![4]),
        ConsensusMessage::SignedQCVaba(vec![5]),
        ConsensusMessage::RandomnessShareVaba(vec![6]),
        ConsensusMessage::RandomCoinVaba(vec![7]),
        ConsensusMessage::SyncRequestVaba(Digest([8; 32]), PublicKey([8; 32])),
        ConsensusMessage::SyncReplyVaba(vec![9]),
    ]
}

#[test]
fn jolteon_messages_go_to_jolteon() {
    let c = compiler();
    for (message, same) in jolteon_messages().into_iter().zip(jolteon_messages()) {
        assert_eq!(c.handle_message(message), vec![Action::Forward(SubProto::Jolteon, same)]);
    }
}

#[test]
fn vaba_messages_go_to_vaba() {
    let c = compiler();
    for (message, same) in vaba_messages().into_iter().zip(vaba_messages()) {
        assert_eq!(c.handle_message(message), vec![Action::Forward(SubProto::Vaba, same)]);
    }
}

#[test]
fn other_messages_go_nowhere() {
    let c = compiler();
    assert_eq!(c.handle_message(ConsensusMessage::LoopBack(vec![1])), vec![]);
    assert_eq!(c.handle_message(ConsensusMessage::Other(vec![1])), vec![]);
    assert_eq!(c.forward_message(ConsensusMessage::Recovery(vote())), vec![]);
}

#[test]
fn recovery_votes_are_verified_first() {
    let c = compiler();
    let actions = c.handle_message(ConsensusMessage::Recovery(vote()));
    assert_eq!(actions, vec![Action::VerifyVote(vote())]);
}

#[test]
fn valid_votes_are_counted_and_invalid_ones_dropped() {
    let c = compiler();
    assert_eq!(
        c.handle_recovery_vote(vote(), VoteProgress::Verified(true)),
        vec![Action::AggregateVote(vote())]
    );
    assert_eq!(c.handle_recovery_vote(vote(), VoteProgress::Verified(false)), vec![]);
}

#[test]
fn enough_votes_give_the_certificate() {
    let c = compiler();
    let mut bytes = [2u8; 32];
    bytes[16..].copy_from_slice(&[0, 0, 0, 0, 0, 0, 0, 5, 0, 0, 0, 0, 0, 0, 1, 4]);
    assert_eq!(
        c.handle_recovery_vote(vote(), VoteProgress::Aggregated(true)),
        vec![Action::SendCertificate(Digest(bytes))]
    );
    assert_eq!(c.handle_recovery_vote(vote(), VoteProgress::Aggregated(false)), vec![]);
}

#[test]
fn messages_and_votes_leave_the_state() {
    let mut c = compiler();
    for message in jolteon_messages().into_iter().chain(vaba_messages()) {
        assert_eq!(c.step(Input::Message(message)).len(), 1);
    }
    assert_eq!(c.step(Input::Vote(vote(), VoteProgress::Received)).len(), 1);
    assert_eq!(c.step(Input::Vote(vote(), VoteProgress::Verified(true))).len(), 1);
    assert_eq!(c.step(Input::Vote(vote(), VoteProgress::Aggregated(true))).len(), 1);
    assert_eq!(c.state(), State::Steady);
    assert_eq!(c.era(), 0);
    assert!(c.main_chain().is_empty());
    assert!(c.vaba_chain().is_empty());
}

fn numbered(n: u64) -> RecoveryVote {
    let mut vote = vote();
    vote.index = n;
    vote.signature = vec![n as u8];
    vote
}

fn sent(n: u64) -> Action {
    Action::Broadcast(ConsensusMessage::Recovery(numbered(n)))
}

#[test]
fn signed_votes_are_sent_and_then_handled() {
    let c = compiler();
    assert_eq!(
        c.send_votes(vec![numbered(4), numbered(3)]),
        vec![
            sent(4),
            Action::VerifyVote(numbered(4)),
            sent(3),
            Action::VerifyVote(numbered(3)),
        ]
    );
    assert_eq!(c.send_votes(vec![]), vec![]);
}

#[test]
fn each_own_vote_is_finished_before_the_next_is_sent() {
    let mut c = compiler();
    let mut agenda = Agenda::new();
    agenda.prepend(vec![Action::StopStart]);
    agenda.prepend(c.step(Input::Signed(vec![numbered(1), numbered(2), numbered(3)])));
    let mut done = vec![];
    while let Some(action) = agenda.next() {
        match &action {
            Action::VerifyVote(v) => {
                let progress = VoteProgress::Verified(v.index != 2);
                agenda.prepend(c.step(Input::Vote(v.clone(), progress)));
            }
            Action::AggregateVote(v) => {
                let progress = VoteProgress::Aggregated(v.index == 1);
                agenda.prepend(c.step(Input::Vote(v.clone(), progress)));
            }
            _ => {}
        }
        done.push(action);
    }
    assert_eq!(
        done,
        vec![
            sent(1),
            Action::VerifyVote(numbered(1)),
            Action::AggregateVote(numbered(1)),
            Action::SendCertificate(OptimisticCompiler::make_recovery_cert(5, 1)),
            sent(2),
            Action::VerifyVote(numbered(2)),
            sent(3),
            Action::VerifyVote(numbered(3)),
            Action::AggregateVote(numbered(3)),
            Action::StopStart,
        ]
    );
}

#[test]
fn agenda_is_performed_from_the_front() {
    let mut agenda = Agenda::new();
    assert_eq!(agenda.next(), None);
    agenda.prepend(vec![sent(1), sent(2)]);
    assert_eq!(agenda.next(), Some(sent(1)));
    agenda.prepend(vec![sent(3), sent(4)]);
    agenda.prepend(vec![]);
    assert_eq!(agenda.next(), Some(sent(3)));
    assert_eq!(agenda.next(), Some(sent(4)));
    assert_eq!(agenda.next(), Some(sent(2)));
    assert_eq!(agenda.next(), None);
}
