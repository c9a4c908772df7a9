use consensus::benchmark::committed_entries;
use consensus::optimistic_compiler::OptimisticCompiler;
use consensus::types::{
    Action, Block, Digest, Event, Input, PublicKey, State, VoteRequest, QC,
};
use std::collections::VecDeque;

fn compiler() -> OptimisticCompiler {
    OptimisticCompiler::new(PublicKey([7; 32]))
}

fn tx(n: u8) -> Digest {
    let mut bytes = [0; 32];
    bytes[0] = n;
    bytes[31] = 1;
    Digest(bytes)
}

fn cert(era: u64, index: u64) -> Digest {
    OptimisticCompiler::make_recovery_cert(era, index)
}

fn qc(view: u64, round: u64) -> QC {
    QC { view, round, signatures: vec![view as u8, round as u8, 42] }
}

fn holding(payload: Vec<Digest>) -> Block {
    Block { payload, round: 0, qc: qc(99, 99) }
}

fn committed(round: u64, view: u64, qc_round: u64) -> Block {
    Block { payload: vec![tx(200)], round, qc: qc(view, qc_round) }
}

fn commit(c: &mut OptimisticCompiler, blocks: Vec<Block>) -> Vec<Action> {
    c.handle_blocks(VecDeque::from(blocks))
}

fn output(c: &mut OptimisticCompiler, payload: Vec<Digest>) -> Vec<Action> {
    c.handle_event(Event::VabaOut(holding(payload)))
}

/// Outputs empty blocks, none of which calls for anything.
fn output_empty(c: &mut OptimisticCompiler, n: usize) {
    for _ in 0..n {
        assert_eq!(output(c, vec![]), vec![]);
    }
}

/// A compiler that a late batch has brought into the recovery state.
fn recovering() -> OptimisticCompiler {
    let mut c = compiler();
    assert_eq!(output(&mut c, vec![tx(1)]), vec![]);
    output_empty(&mut c, 8);
    assert_eq!(output(&mut c, vec![]), vec![Action::StopStart, Action::CastVotes(vec![])]);
    assert_eq!(c.state(), State::Recovery);
    c
}

fn toggles(actions: &Vec<Action>) -> usize {
    actions.iter().filter(|a| matches!(a, Action::StopStart)).count()
}

#[test]
fn starts_steady_and_empty() {
    let c = compiler();
    assert_eq!(c.state(), State::Steady);
    assert_eq!(c.era(), 0);
    assert_eq!(c.position(), 0);
    assert_eq!(c.k_voted(), 0);
    assert!(c.main_chain().is_empty());
    assert!(c.vaba_chain().is_empty());
}

#[test]
fn late_batch_begins_recovery_at_the_tenth_block() {
    let mut c = compiler();
    assert_eq!(output(&mut c, vec![tx(1)]), vec![]);
    output_empty(&mut c, 8);
    assert_eq!(c.state(), State::Steady);
    assert_eq!(c.position(), 0);
    let actions = output(&mut c, vec![]);
    assert_eq!(actions, vec![Action::StopStart, Action::CastVotes(vec![])]);
    assert_eq!(c.state(), State::Recovery);
    assert_eq!(c.era(), 0);
    assert_eq!(c.position(), 10);
}

#[test]
fn committed_batch_passes() {
    let mut c = compiler();
    assert_eq!(commit(&mut c, vec![holding(vec![tx(5), tx(1)])]), vec![]);
    assert_eq!(output(&mut c, vec![tx(1)]), vec![]);
    output_empty(&mut c, 9);
    assert_eq!(c.state(), State::Steady);
    assert_eq!(c.position(), 1);
}

#[test]
fn batch_committed_just_in_time_passes() {
    let mut c = compiler();
    assert_eq!(output(&mut c, vec![tx(1)]), vec![]);
    output_empty(&mut c, 8);
    assert_eq!(commit(&mut c, vec![holding(vec![tx(1)])]), vec![]);
    output_empty(&mut c, 1);
    assert_eq!(c.state(), State::Steady);
    assert_eq!(c.position(), 1);
}

#[test]
fn certified_on_time_searches_every_block() {
    let mut c = compiler();
    assert!(!c.certified_on_time(&tx(1)));
    commit(&mut c, vec![holding(vec![tx(1)]), holding(vec![]), holding(vec![tx(2), tx(3)])]);
    assert!(c.certified_on_time(&tx(1)));
    assert!(c.certified_on_time(&tx(3)));
    assert!(!c.certified_on_time(&tx(4)));
    commit(&mut c, vec![holding(vec![tx(4)])]);
    assert!(c.certified_on_time(&tx(4)));
    assert!(c.certified_on_time(&tx(1)));
}

#[test]
fn one_late_batch_is_enough() {
    for payload in [vec![tx(1), tx(3)], vec![tx(3), tx(1)], vec![tx(1), cert(0, 0), tx(3)]] {
        let mut c = compiler();
        commit(&mut c, vec![holding(vec![tx(1)])]);
        assert_eq!(output(&mut c, payload), vec![]);
        output_empty(&mut c, 8);
        assert_eq!(output(&mut c, vec![]), vec![Action::StopStart, Action::CastVotes(vec![])]);
        assert_eq!(c.state(), State::Recovery);
    }
}

#[test]
fn every_batch_committed_passes() {
    let mut c = compiler();
    commit(&mut c, vec![holding(vec![tx(3)]), holding(vec![tx(1)])]);
    output(&mut c, vec![tx(1), cert(4, 4), tx(3), tx(1)]);
    output_empty(&mut c, 9);
    assert_eq!(c.position(), 1);
    assert_eq!(c.state(), State::Steady);
}

#[test]
fn longer_main_chain_never_causes_recovery() {
    for held in [vec![], vec![tx(1)], vec![tx(2)], vec![tx(1), tx(2)]] {
        let mut shorter = compiler();
        let mut longer = compiler();
        commit(&mut shorter, vec![holding(held.clone())]);
        commit(&mut longer, vec![holding(vec![tx(2)]), holding(held)]);
        for c in [&mut shorter, &mut longer] {
            output(c, vec![tx(1)]);
            output(c, vec![tx(2), tx(1)]);
            for _ in 0..9 {
                output(c, vec![]);
            }
        }
        if shorter.state() == State::Steady {
            assert_eq!(longer.state(), State::Steady);
            assert_eq!(longer.position(), shorter.position());
        }
    }
}

#[test]
fn recovery_looks_at_each_block_once() {
    let mut c = recovering();
    output(&mut c, vec![cert(3, 0)]);
    output(&mut c, vec![tx(4)]);
    assert_eq!(c.position(), 12);
    output(&mut c, vec![cert(0, u64::MAX)]);
    assert_eq!(c.position(), 13);
    assert_eq!(c.state(), State::Steady);
}

#[test]
fn certificates_before_a_batch_are_ignored() {
    let mut c = compiler();
    commit(&mut c, vec![holding(vec![tx(1)])]);
    output(&mut c, vec![cert(0, 0), cert(3, 3), tx(1), cert(1, 1)]);
    output_empty(&mut c, 9);
    assert_eq!(c.position(), 1);

    let mut c = compiler();
    output(&mut c, vec![cert(0, 0), tx(1)]);
    output_empty(&mut c, 8);
    assert_eq!(toggles(&output(&mut c, vec![])), 1);
    assert_eq!(c.state(), State::Recovery);
}

#[test]
fn certificates_alone_stall_the_steady_state() {
    let mut c = compiler();
    output(&mut c, vec![cert(0, 0)]);
    output(&mut c, vec![tx(1)]);
    output_empty(&mut c, 30);
    assert_eq!(commit(&mut c, vec![holding(vec![tx(1)])]), vec![]);
    assert_eq!(c.position(), 0);
    assert_eq!(c.state(), State::Steady);
    assert_eq!(c.vaba_chain().len(), 32);
}

#[test]
fn empty_blocks_pass() {
    let mut c = compiler();
    output_empty(&mut c, 25);
    assert_eq!(c.position(), 16);
}

#[test]
fn blocks_are_appended_from_the_back() {
    let mut c = compiler();
    let actions = commit(&mut c, vec![committed(3, 0, 0), committed(2, 0, 0)]);
    assert_eq!(actions, vec![]);
    commit(&mut c, vec![committed(5, 0, 0), committed(4, 0, 0)]);
    commit(&mut c, vec![]);
    let rounds: Vec<u64> = c.main_chain().iter().map(|b| b.round).collect();
    assert_eq!(rounds, vec![2, 3, 4, 5]);
}

#[test]
fn other_notifications_are_quiet() {
    let mut c = compiler();
    output(&mut c, vec![tx(1)]);
    for event in [Event::Vote, Event::Lock, Event::Advance] {
        assert_eq!(c.handle_event(event), vec![]);
    }
    assert_eq!(c.state(), State::Steady);
    assert_eq!(c.position(), 0);
    let mut c = recovering();
    for event in [Event::Vote, Event::Lock, Event::Advance] {
        assert_eq!(c.handle_event(event), vec![]);
    }
    assert_eq!(c.state(), State::Recovery);
    assert_eq!(c.position(), 10);
}

#[test]
fn recovery_ends_at_once_if_its_certificate_is_there() {
    let mut c = compiler();
    output(&mut c, vec![tx(1)]);
    output_empty(&mut c, 3);
    assert_eq!(output(&mut c, vec![cert(0, 8)]), vec![]);
    output_empty(&mut c, 4);
    let actions = output(&mut c, vec![]);
    assert_eq!(
        actions,
        vec![Action::StopStart, Action::CastVotes(vec![]), Action::StopStart]
    );
    assert_eq!(c.state(), State::Steady);
    assert_eq!(c.era(), 1);
    assert_eq!(c.position(), 5);
}

#[test]
fn certificate_of_the_era_ends_recovery() {
    let mut c = recovering();
    let actions = output(&mut c, vec![tx(3), cert(0, 4), cert(1, 1)]);
    assert_eq!(actions, vec![Action::CastVotes(vec![]), Action::StopStart]);
    assert_eq!(c.state(), State::Steady);
    assert_eq!(c.era(), 1);
    assert_eq!(c.position(), 11);
}

#[test]
fn certificate_of_another_era_does_not_end_recovery() {
    let mut c = recovering();
    assert_eq!(output(&mut c, vec![cert(1, 0)]), vec![Action::CastVotes(vec![])]);
    assert_eq!(output(&mut c, vec![cert(1 << 56, 0)]), vec![Action::CastVotes(vec![])]);
    assert_eq!(output(&mut c, vec![tx(9)]), vec![Action::CastVotes(vec![])]);
    assert_eq!(c.state(), State::Recovery);
    assert_eq!(c.era(), 0);
    assert_eq!(c.position(), 13);
}

#[test]
fn first_certificate_of_a_block_decides() {
    let mut c = recovering();
    assert_eq!(output(&mut c, vec![cert(1, 0), cert(0, 0)]), vec![Action::CastVotes(vec![])]);
    assert_eq!(c.state(), State::Recovery);
}

#[test]
fn later_eras_need_their_own_certificate() {
    let mut c = recovering();
    output(&mut c, vec![cert(0, 0)]);
    assert_eq!(output(&mut c, vec![tx(2)]), vec![]);
    output_empty(&mut c, 8);
    assert_eq!(toggles(&output(&mut c, vec![])), 1);
    assert_eq!(toggles(&output(&mut c, vec![cert(0, 0)])), 0);
    assert_eq!(c.state(), State::Recovery);
    assert_eq!(toggles(&output(&mut c, vec![cert(1, 0)])), 1);
    assert_eq!(c.state(), State::Steady);
    assert_eq!(c.era(), 2);
}

#[test]
fn blocks_in_recovery_only_extend_the_main_chain() {
    let mut c = recovering();
    assert_eq!(commit(&mut c, vec![holding(vec![tx(1)])]), vec![]);
    assert_eq!(c.state(), State::Recovery);
    assert_eq!(c.position(), 10);
    assert_eq!(c.main_chain().len(), 1);
    assert_eq!(c.k_voted(), 0);
}

fn request(index: u64, view: u64, qc_round: u64) -> VoteRequest {
    VoteRequest { era: view, index, qc: qc(view, qc_round), author: PublicKey([7; 32]) }
}

#[test]
fn votes_are_for_certified_rounds_of_the_era() {
    let mut c = compiler();
    // From the front of the main chain: certificates of rounds 2, 0 and 5 in
    // era 0, of round 1 in era 1, and of round 0 in era 0 again.
    let blocks = vec![
        committed(14, 0, 0),
        committed(13, 1, 1),
        committed(12, 0, 5),
        committed(11, 0, 0),
        committed(10, 0, 2),
    ];
    commit(&mut c, blocks);
    output(&mut c, vec![tx(1)]);
    output_empty(&mut c, 8);
    let actions = output(&mut c, vec![]);
    let votes = vec![request(11, 0, 0), request(14, 0, 0), request(10, 0, 2)];
    assert_eq!(actions, vec![Action::StopStart, Action::CastVotes(votes)]);
    assert_eq!(c.k_voted(), 5);
}

#[test]
fn no_round_is_voted_on_twice() {
    let mut c = compiler();
    commit(&mut c, vec![committed(10, 0, 0)]);
    output(&mut c, vec![tx(1)]);
    output_empty(&mut c, 8);
    let actions = output(&mut c, vec![]);
    assert_eq!(
        actions,
        vec![Action::StopStart, Action::CastVotes(vec![request(10, 0, 0)])]
    );
    commit(&mut c, vec![committed(12, 0, 0), committed(11, 0, 1)]);
    let actions = output(&mut c, vec![]);
    assert_eq!(actions, vec![Action::CastVotes(vec![request(11, 0, 1)])]);
    assert_eq!(output(&mut c, vec![]), vec![Action::CastVotes(vec![])]);
    assert_eq!(c.k_voted(), 3);
}

#[test]
fn jolteon_runs_iff_steady() {
    let mut c = compiler();
    let mut count = 0;
    for i in 0..200u64 {
        let payload = match i % 7 {
            0 => vec![tx(1)],
            3 => vec![cert(c.era(), i), tx(1)],
            5 => vec![cert(c.era() + 1, i), tx(2)],
            _ => vec![],
        };
        let before = c.era();
        let actions = c.step(Input::Event(Event::VabaOut(holding(payload))));
        count += toggles(&actions);
        assert_eq!(count % 2 == 0, c.state() == State::Steady);
        assert!(c.era() <= before + 1);
        assert!(2 * c.era() as usize <= c.position());
        assert!(c.position() <= c.vaba_chain().len());
    }
    assert!(c.era() > 1);
}

#[test]
fn steps_are_the_handlers() {
    let mut a = recovering();
    let mut b = recovering();
    assert_eq!(
        a.step(Input::Event(Event::VabaOut(holding(vec![cert(0, 1)])))),
        b.handle_event(Event::VabaOut(holding(vec![cert(0, 1)])))
    );
    assert_eq!(
        a.step(Input::Blocks(VecDeque::from(vec![committed(1, 1, 0)]))),
        b.handle_blocks(VecDeque::from(vec![committed(1, 1, 0)]))
    );
    assert_eq!(a.era(), b.era());
    assert_eq!(a.main_chain(), b.main_chain());
    assert_eq!(a.vaba_chain(), b.vaba_chain());
}

#[test]
fn committed_entries_are_base64() {
    let block = holding(vec![Digest([0; 32]), Digest([1; 32]), Digest([255; 32])]);
    assert_eq!(
        committed_entries(&block),
        vec![
            "AAAAAAAAAAAAAAAAAAAAAAAAAAAAAAAAAAAAAAAAAAA=",
            "AQEBAQEBAQEBAQEBAQEBAQEBAQEBAQEBAQEBAQEBAQE=",
            "//////////////////////////////////////////8=",
        ]
    );
    assert!(committed_entries(&holding(vec![])).is_empty());
}

#[test]
fn chains_only_grow() {
    let mut c = compiler();
    commit(&mut c, vec![committed(1, 0, 0)]);
    output(&mut c, vec![tx(1)]);
    for i in 0..12u8 {
        output(&mut c, vec![cert(0, 1), tx(i)]);
        commit(&mut c, vec![committed(i as u64 + 2, 0, 1)]);
        assert_eq!(c.main_chain()[0], committed(1, 0, 0));
        assert_eq!(c.main_chain().len(), i as usize + 2);
        assert_eq!(c.vaba_chain()[0], holding(vec![tx(1)]));
        assert_eq!(c.vaba_chain().len(), i as usize + 2);
    }
}
