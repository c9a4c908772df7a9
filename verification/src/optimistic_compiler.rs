use crate::certificate;
use crate::certificate::{read_be, write_be, CERT_MARK, CERT_PREFIX};
use crate::meaning;
use crate::model;
use crate::model::{Model, Verdict, LOOPBACK};
use crate::types;
use crate::types::{
    Action, Block, ConsensusMessage, Digest, Event, Input, PublicKey, RecoveryVote, SeqNumber,
    State, SubProto, VoteProgress, VoteRequest,
};
use std::collections::VecDeque;
use vstd::prelude::*;

verus! {

/// The state machine that drives the two protocols.
///
/// It starts in the steady state. There it walks along the VABA chain, some
/// blocks behind its end, and demands of each block that the fast path has
/// committed what the block holds. The first block of which that is not true
/// begins a recovery, in which Jolteon stands still and the nodes vote on what
/// it had certified. A certificate of enough such votes, once it is itself
/// output by VABA, ends the recovery and the era.
#[derive(Debug)]
pub struct OptimisticCompiler {
    name: PublicKey,
    era: SeqNumber,
    l: usize,
    k_voted: usize,
    state: State,
    main_chain: Vec<Block>,
    vaba_chain: Vec<Block>,
}

impl View for OptimisticCompiler {
    type V = Model;

    closed spec fn view(&self) -> Model {
        Model {
            name: self.name@,
            era: self.era as nat,
            l: self.l as nat,
            k_voted: self.k_voted as nat,
            state: self.state,
            main: types::blocks_view(self.main_chain@),
            vaba: types::blocks_view(self.vaba_chain@),
        }
    }
}

impl OptimisticCompiler {
    /// A compiler in the steady state of era 0, with empty chains.
    pub fn new(name: PublicKey) -> (compiler: OptimisticCompiler)
        ensures
            compiler@ == model::initial(name@),
            compiler@.wf(),
    {
        let compiler = OptimisticCompiler {
            name,
            era: 0,
            l: 0,
            k_voted: 0,
            state: State::Steady,
            main_chain: Vec::new(),
            vaba_chain: Vec::new(),
        };
        assert(compiler@.main =~= Seq::empty());
        assert(compiler@.vaba =~= Seq::empty());
        compiler
    }

    /// Whether the first bytes of `digest` mark it as a recovery certificate.
    /// A digest that ends inside the mark cannot be judged.
    pub fn is_certificate(digest: &[u8]) -> (marked: bool)
        requires
            digest@.len() >= CERT_PREFIX || exists|i: int|
                0 <= i < digest@.len() && digest@[i] != CERT_MARK,
        ensures
            marked == certificate::is_cert(digest@),
            marked == (digest@.len() >= 16 && forall|i: int|
                0 <= i < 16 ==> #[trigger] digest@[i] == 2),
    {
        let mut i: usize = 0;
        while i < CERT_PREFIX
            invariant
                i <= CERT_PREFIX,
                digest@.len() >= CERT_PREFIX || exists|j: int|
                    0 <= j < digest@.len() && digest@[j] != CERT_MARK,
                forall|j: int| 0 <= j < i ==> #[trigger] digest@[j] == CERT_MARK,
                i <= digest@.len(),
            decreases CERT_PREFIX - i,
        {
            if digest[i] != CERT_MARK {
                return false;
            }
            i += 1;
        }
        true
    }

    /// The recovery certificate for position `index` in era `era`.
    pub fn make_recovery_cert(era: SeqNumber, index: SeqNumber) -> (cert: Digest)
        ensures
            cert@ == certificate::certificate(era as nat, index as nat),
    {
        let mut bytes: [u8; 32] = [CERT_MARK;32];
        write_be(&mut bytes, 16, era);
        write_be(&mut bytes, 24, index);
        proof {
            certificate::lemma_be_bytes_len(era as nat, 8);
            certificate::lemma_be_bytes_len(index as nat, 8);
            assert(bytes@ =~= certificate::certificate(era as nat, index as nat));
        }
        Digest(bytes)
    }

    /// Whether some block of the main chain holds `tx`.
    pub fn certified_on_time(&self, tx: &Digest) -> (found: bool)
        ensures
            found == model::certified(self@.main, tx@),
            found == exists|i: int, k: int|
                0 <= i < self@.main.len() && 0 <= k < self@.main[i].payload.len()
                    && #[trigger] self@.main[i].payload[k] == tx@,
    {
        proof {
            meaning::law_what_is_certified(self@.main, tx@);
        }
        let mut i: usize = 0;
        while i < self.main_chain.len()
            invariant
                i <= self.main_chain@.len(),
                forall|j: int|
                    0 <= j < i ==> !(#[trigger] self@.main[j]).payload.contains(tx@),
            decreases self.main_chain@.len() - i,
        {
            let payload = &self.main_chain[i].payload;
            let ghost digests = self@.main[i as int].payload;
            let mut k: usize = 0;
            while k < payload.len()
                invariant
                    i < self.main_chain@.len(),
                    payload == self.main_chain@[i as int].payload,
                    digests == self@.main[i as int].payload,
                    k <= payload@.len(),
                    forall|j: int| 0 <= j < k ==> #[trigger] digests[j] != tx@,
                decreases payload@.len() - k,
            {
                if payload[k].same_as(tx) {
                    assert(digests[k as int] == tx@);
                    assert(self@.main[i as int].payload.contains(tx@));
                    return true;
                }
                k += 1;
            }
            i += 1;
        }
        false
    }

    /// The verdict of the steady state on the block at position `at` of the
    /// VABA chain.
    fn judge(&self, at: usize) -> (verdict: Verdict)
        requires
            at < self@.vaba.len(),
        ensures
            verdict == model::verdict(self@.main, self@.vaba[at as int].payload),
    {
        let payload = &self.vaba_chain[at].payload;
        let ghost digests = self@.vaba[at as int].payload;
        if payload.len() == 0 {
            return Verdict::Passed;
        }
        let mut any_tx: bool = false;
        let mut i: usize = 0;
        while i < payload.len()
            invariant
                i <= payload@.len(),
                digests == types::digests_view(payload@),
                digests == self@.vaba[at as int].payload,
                any_tx ==> model::has_tx(digests),
                forall|j: int|
                    0 <= j < i ==> certificate::is_cert(#[trigger] digests[j]) || (any_tx
                        && model::certified(self@.main, digests[j])),
                payload@.len() > 0,
            decreases payload@.len() - i,
        {
            let tx = &payload[i];
            assert(digests[i as int] == tx@);
            // Recovery certificates are ignored.
            if !OptimisticCompiler::is_certificate(tx.0.as_slice()) {
                assert(model::has_tx(digests));
                if !self.certified_on_time(tx) {
                    assert(model::has_late_tx(self@.main, digests));
                    return Verdict::Late;
                }
                any_tx = true;
            }
            i += 1;
        }
        if any_tx {
            Verdict::Passed
        } else {
            Verdict::Stalled
        }
    }

    /// Looks through the VABA chain in the steady state. Returns whether a
    /// block calls for recovery.
    pub(crate) fn _ss_try_resolve(&mut self) -> (late: bool)
        requires
            old(self)@.wf(),
        ensures
            (final(self)@, late) == model::scan_steady(old(self)@),
            final(self)@.wf(),
    {
        proof {
            model::lemma_scan_steady(self@);
        }
        let ghost m = self@;
        while self.vaba_chain.len() - self.l >= LOOPBACK
            invariant
                m == old(self)@,
                m.wf(),
                m.l <= self.l <= self.vaba_chain@.len(),
                self@ == (Model { l: self.l as nat, ..m }),
                m.l < self.l ==> self.l <= model::steady_end(m),
                forall|j: int| m.l <= j < self.l ==> !#[trigger] model::holds_up(m)(j),
            decreases self.vaba_chain@.len() - self.l,
        {
            match self.judge(self.l) {
                Verdict::Passed => {
                    assert(!model::holds_up(m)(self.l as int));
                    self.l = self.l + 1;
                },
                Verdict::Late => {
                    proof {
                        assert(model::holds_up(m)(self.l as int));
                        model::lemma_first_where_is(
                            model::holds_up(m),
                            m.l as int,
                            model::steady_end(m),
                            self.l as int,
                        );
                    }
                    self.l = self.l + 1;
                    return true;
                },
                Verdict::Stalled => {
                    proof {
                        assert(model::holds_up(m)(self.l as int));
                        model::lemma_first_where_is(
                            model::holds_up(m),
                            m.l as int,
                            model::steady_end(m),
                            self.l as int,
                        );
                    }
                    return false;
                },
            }
        }
        proof {
            model::lemma_first_where_is(
                model::holds_up(m),
                m.l as int,
                model::steady_end(m),
                self.l as int,
            );
        }
        false
    }

    /// Whether the first certificate of the block at position `at` of the VABA
    /// chain, if it has one, names the current era.
    fn ends_era(&self, at: usize) -> (ends: bool)
        requires
            at < self@.vaba.len(),
        ensures
            ends == model::ends_era(self@.vaba[at as int].payload, self@.era),
    {
        let payload = &self.vaba_chain[at].payload;
        let ghost digests = self@.vaba[at as int].payload;
        let ghost marked = |i: int| certificate::is_cert(digests[i]);
        let mut i: usize = 0;
        while i < payload.len()
            invariant
                i <= payload@.len(),
                digests == types::digests_view(payload@),
                marked == (|i: int| certificate::is_cert(digests[i])),
                forall|j: int| 0 <= j < i ==> !#[trigger] marked(j),
                digests == self@.vaba[at as int].payload,
            decreases payload@.len() - i,
        {
            let tx = &payload[i];
            assert(digests[i as int] == tx@);
            if OptimisticCompiler::is_certificate(tx.0.as_slice()) {
                proof {
                    assert(marked(i as int));
                    model::lemma_first_where_is(marked, 0, digests.len() as int, i as int);
                }
                return read_be(tx, 16) == self.era;
            }
            i += 1;
        }
        proof {
            model::lemma_first_where_is(marked, 0, digests.len() as int, i as int);
        }
        false
    }

    /// Looks through the VABA chain in the recovery state. Returns whether a
    /// block ends the recovery.
    pub(crate) fn _rs_try_resolve(&mut self) -> (found: bool)
        requires
            old(self)@.wf(),
        ensures
            (final(self)@, found) == model::scan_recovery(old(self)@),
            final(self)@.wf(),
    {
        proof {
            model::lemma_scan_recovery(self@);
        }
        let ghost m = self@;
        while self.l < self.vaba_chain.len()
            invariant
                m == old(self)@,
                m.wf(),
                m.l <= self.l <= self.vaba_chain@.len(),
                self@ == (Model { l: self.l as nat, ..m }),
                forall|j: int| m.l <= j < self.l ==> !#[trigger] model::ends_recovery(m)(j),
            decreases self.vaba_chain@.len() - self.l,
        {
            let ends = self.ends_era(self.l);
            assert(ends == model::ends_recovery(m)(self.l as int));
            if ends {
                proof {
                    model::lemma_first_where_is(
                        model::ends_recovery(m),
                        m.l as int,
                        m.vaba.len() as int,
                        self.l as int,
                    );
                }
                self.l = self.l + 1;
                return true;
            }
            self.l = self.l + 1;
        }
        proof {
            model::lemma_first_where_is(
                model::ends_recovery(m),
                m.l as int,
                m.vaba.len() as int,
                self.l as int,
            );
        }
        false
    }

    /// Casts votes for what the fast path has certified in this era since
    /// votes were last cast.
    pub(crate) fn rs_try_vote(&mut self) -> (actions: Vec<Action>)
        requires
            old(self)@.wf(),
        ensures
            final(self)@ == model::cast_votes(old(self)@).0,
            types::actions_view(actions@) == model::cast_votes(old(self)@).1,
            final(self)@.wf(),
    {
        let k: usize = self.main_chain.len();
        let ghost m = self@;
        let mut requests: Vec<VoteRequest> = Vec::new();
        let mut round: usize = self.k_voted;
        assert(types::requests_view(requests@) =~= model::votes_between(m, m.k_voted, round as nat));
        while round < k
            invariant
                m == self@,
                k == self.main_chain@.len(),
                m.k_voted <= round <= k,
                types::requests_view(requests@) == model::votes_between(
                    m,
                    m.k_voted,
                    round as nat,
                ),
            decreases k - round,
        {
            let ghost earlier = model::votes_between(m, m.k_voted, round as nat);
            let ghost pred = model::votable(m.era, round as nat);
            let mut i: usize = 0;
            proof {
                reveal(Seq::filter);
                assert(types::requests_view(requests@) =~= earlier + model::votes_at(
                    m.main.take(0),
                    m.name,
                    m.era,
                    round as nat,
                ));
            }
            while i < self.main_chain.len()
                invariant
                    m == self@,
                    i <= self.main_chain@.len(),
                    pred == model::votable(m.era, round as nat),
                    types::requests_view(requests@) == earlier + model::votes_at(
                        m.main.take(i as int),
                        m.name,
                        m.era,
                        round as nat,
                    ),
                decreases self.main_chain@.len() - i,
            {
                let block = &self.main_chain[i];
                let ghost before = requests@;
                let ghost so_far = m.main.take(i as int);
                proof {
                    assert(m.main.take(i + 1) =~= so_far.push(block@));
                    so_far.lemma_filter_push(block@, pred);
                }
                if block.qc.round == round as u64 && block.qc.view == self.era {
                    let request = VoteRequest {
                        era: self.era,
                        index: block.round,
                        qc: block.qc.clone(),
                        author: self.name,
                    };
                    requests.push(request);
                    proof {
                        assert(pred(block@));
                        let vote = model::vote_for(m.name, m.era);
                        assert(request@ == vote(block@));
                        assert(types::requests_view(requests@) =~= types::requests_view(
                            before,
                        ).push(request@));
                        assert(so_far.filter(pred).push(block@).map_values(vote)
                            =~= so_far.filter(pred).map_values(vote).push(request@));
                        assert(types::requests_view(requests@) =~= earlier + model::votes_at(
                            m.main.take(i + 1),
                            m.name,
                            m.era,
                            round as nat,
                        ));
                    }
                }
                i += 1;
            }
            assert(m.main.take(i as int) =~= m.main);
            round += 1;
        }
        self.k_voted = k;
        let mut actions: Vec<Action> = Vec::new();
        actions.push(Action::CastVotes(requests));
        assert(types::actions_view(actions@) =~= model::cast_votes(m).1);
        actions
    }

    /// Resolves in the steady state.
    pub(crate) fn ss_try_resolve(&mut self) -> (actions: Vec<Action>)
        requires
            old(self)@.wf(),
        ensures
            final(self)@ == model::resolve_steady(old(self)@).0,
            types::actions_view(actions@) == model::resolve_steady(old(self)@).1,
            final(self)@.wf(),
        decreases old(self)@.vaba.len() - old(self)@.l, 0int,
    {
        proof {
            model::lemma_scan_steady(self@);
        }
        if self._ss_try_resolve() {
            self.switch_to_recovery()
        } else {
            let actions: Vec<Action> = Vec::new();
            assert(types::actions_view(actions@) =~= Seq::empty());
            actions
        }
    }

    /// Enters the recovery state.
    pub(crate) fn switch_to_recovery(&mut self) -> (actions: Vec<Action>)
        requires
            old(self)@.wf(),
            2 * old(self)@.era + 1 <= old(self)@.l,
        ensures
            final(self)@ == model::enter_recovery(old(self)@).0,
            types::actions_view(actions@) == model::enter_recovery(old(self)@).1,
            final(self)@.wf(),
        decreases old(self)@.vaba.len() - old(self)@.l, 3int,
    {
        let ghost m = self@;
        self.state = State::Recovery;
        let mut actions: Vec<Action> = Vec::new();
        actions.push(Action::StopStart);
        assert(self@ =~= Model { state: State::Recovery, ..m });
        let mut cast = self.rs_try_vote();
        let mut then_done = self.rs_try_resolve();
        let ghost (cast_done, resolve_done) = (cast@, then_done@);
        actions.append(&mut cast);
        actions.append(&mut then_done);
        assert(types::actions_view(actions@) =~= seq![types::ActionView::StopStart]
            + types::actions_view(cast_done) + types::actions_view(resolve_done));
        actions
    }

    /// Resolves in the recovery state.
    pub(crate) fn rs_try_resolve(&mut self) -> (actions: Vec<Action>)
        requires
            old(self)@.wf(),
            2 * old(self)@.era + 1 <= old(self)@.l,
        ensures
            final(self)@ == model::resolve_recovery(old(self)@).0,
            types::actions_view(actions@) == model::resolve_recovery(old(self)@).1,
            final(self)@.wf(),
        decreases old(self)@.vaba.len() - old(self)@.l, 2int,
    {
        proof {
            model::lemma_scan_recovery(self@);
        }
        if self._rs_try_resolve() {
            self.switch_to_steady()
        } else {
            let actions: Vec<Action> = Vec::new();
            assert(types::actions_view(actions@) =~= Seq::empty());
            actions
        }
    }

    /// Enters the steady state of the next era.
    pub(crate) fn switch_to_steady(&mut self) -> (actions: Vec<Action>)
        requires
            old(self)@.wf(),
            2 * (old(self)@.era + 1) <= old(self)@.l,
        ensures
            final(self)@ == model::enter_steady(old(self)@).0,
            types::actions_view(actions@) == model::enter_steady(old(self)@).1,
            final(self)@.wf(),
        decreases old(self)@.vaba.len() - old(self)@.l, 1int,
    {
        let ghost m = self@;
        self.era = self.era + 1;
        self.state = State::Steady;
        assert(self@ =~= Model { era: m.era + 1, state: State::Steady, ..m });
        let mut actions = self.ss_try_resolve();
        let ghost done = actions@;
        actions.push(Action::StopStart);
        assert(types::actions_view(actions@) =~= types::actions_view(done) + seq![
            types::ActionView::StopStart,
        ]);
        actions
    }

    /// Appends committed blocks to the main chain, starting from the back, and
    /// resolves.
    pub fn handle_blocks(&mut self, blocks: VecDeque<Block>) -> (actions: Vec<Action>)
        requires
            old(self)@.wf(),
        ensures
            final(self)@ == model::on_blocks(old(self)@, types::blocks_view(blocks@)).0,
            types::actions_view(actions@) == model::on_blocks(
                old(self)@,
                types::blocks_view(blocks@),
            ).1,
            final(self)@.wf(),
    {
        let ghost m = self@;
        let ghost chain = self.main_chain@;
        let ghost taken = blocks@;
        let mut blocks = blocks;
        assert(chain + taken.reverse() =~= self.main_chain@ + blocks@.reverse());
        while blocks.len() > 0
            invariant
                chain + taken.reverse() == self.main_chain@ + blocks@.reverse(),
                self@ == (Model { main: types::blocks_view(self.main_chain@), ..m }),
            decreases blocks@.len(),
        {
            let ghost before = self.main_chain@;
            let ghost waiting = blocks@;
            if let Some(block) = blocks.pop_back() {
                self.main_chain.push(block);
                assert(before + waiting.reverse() =~= self.main_chain@ + blocks@.reverse());
            }
        }
        assert(self.main_chain@ =~= chain + taken.reverse());
        assert(self@.main =~= m.main + types::blocks_view(taken).reverse());
        self.ss_try_resolve()
    }

    /// Reacts to a notification of one of the protocols.
    pub fn handle_event(&mut self, event: Event) -> (actions: Vec<Action>)
        requires
            old(self)@.wf(),
        ensures
            final(self)@ == model::on_event(old(self)@, event).0,
            types::actions_view(actions@) == model::on_event(old(self)@, event).1,
            final(self)@.wf(),
    {
        let ghost m = self@;
        match self.state {
            State::Steady => {
                if let Event::VabaOut(block) = event {
                    self.vaba_chain.push(block);
                    assert(self@.vaba =~= m.vaba.push(block@));
                }
                self.ss_try_resolve()
            },
            State::Recovery => {
                if let Event::VabaOut(block) = event {
                    self.vaba_chain.push(block);
                    assert(self@.vaba =~= m.vaba.push(block@));
                    let mut actions = self.rs_try_vote();
                    let mut then_done = self.rs_try_resolve();
                    let ghost (cast_done, resolve_done) = (actions@, then_done@);
                    actions.append(&mut then_done);
                    assert(types::actions_view(actions@) =~= types::actions_view(cast_done)
                        + types::actions_view(resolve_done));
                    actions
                } else {
                    let actions: Vec<Action> = Vec::new();
                    assert(types::actions_view(actions@) =~= Seq::empty());
                    actions
                }
            },
        }
    }

    /// Takes a recovery vote one stage further.
    pub fn handle_recovery_vote(&self, vote: RecoveryVote, progress: VoteProgress) -> (actions: Vec<
        Action,
    >)
        ensures
            types::actions_view(actions@) == model::on_vote(vote@, progress),
    {
        let mut actions: Vec<Action> = Vec::new();
        match progress {
            VoteProgress::Received => {
                actions.push(Action::VerifyVote(vote));
            },
            VoteProgress::Verified(valid) => {
                if valid {
                    actions.push(Action::AggregateVote(vote));
                }
            },
            VoteProgress::Aggregated(enough) => {
                if enough {
                    let cert = OptimisticCompiler::make_recovery_cert(vote.era, vote.index);
                    actions.push(Action::SendCertificate(cert));
                }
            },
        }
        assert(types::actions_view(actions@) =~= model::on_vote(vote@, progress));
        actions
    }

    /// Sends each signed vote of this node, in order, to all other nodes and
    /// handles it like a vote received before the next is sent.
    pub fn send_votes(&self, votes: Vec<RecoveryVote>) -> (actions: Vec<Action>)
        ensures
            types::actions_view(actions@) == model::on_signed(types::votes_view(votes@)),
    {
        let ghost signed = types::votes_view(votes@);
        let mut actions: Vec<Action> = Vec::new();
        let mut i: usize = 0;
        while i < votes.len()
            invariant
                i <= votes@.len(),
                signed == types::votes_view(votes@),
                actions@.len() == 2 * i,
                forall|k: int|
                    0 <= k < 2 * i ==> (#[trigger] actions@[k])@ == model::on_signed(signed)[k],
            decreases votes@.len() - i,
        {
            let ghost before = actions@;
            actions.push(Action::Broadcast(ConsensusMessage::Recovery(votes[i].clone())));
            actions.push(Action::VerifyVote(votes[i].clone()));
            assert(forall|k: int| 0 <= k < 2 * i ==> actions@[k] == before[k]);
            assert((2 * i) as int / 2 == i && (2 * i + 1) / 2 == i);
            assert(signed[i as int] == votes@[i as int]@);
            i += 1;
        }
        assert(types::actions_view(actions@) =~= model::on_signed(signed));
        actions
    }

    /// Hands a message to the protocol that it is for. A message that is for
    /// neither goes nowhere, and nor does a loopback.
    pub fn forward_message(&self, message: ConsensusMessage) -> (actions: Vec<Action>)
        ensures
            types::actions_view(actions@) == model::forwarded(message),
    {
        let to = match &message {
            ConsensusMessage::ProposeJolteon(_) => Some(SubProto::Jolteon),
            ConsensusMessage::VoteJolteon(_) => Some(SubProto::Jolteon),
            ConsensusMessage::TimeoutJolteon(_) => Some(SubProto::Jolteon),
            ConsensusMessage::TCJolteon(_) => Some(SubProto::Jolteon),
            ConsensusMessage::SignedQCJolteon(_) => Some(SubProto::Jolteon),
            ConsensusMessage::RandomnessShareJolteon(_) => Some(SubProto::Jolteon),
            ConsensusMessage::RandomCoinJolteon(_) => Some(SubProto::Jolteon),
            ConsensusMessage::SyncRequestJolteon(_, _) => Some(SubProto::Jolteon),
            ConsensusMessage::SyncReplyJolteon(_) => Some(SubProto::Jolteon),
            ConsensusMessage::ProposeVaba(_) => Some(SubProto::Vaba),
            ConsensusMessage::VoteVaba(_) => Some(SubProto::Vaba),
            ConsensusMessage::TimeoutVaba(_) => Some(SubProto::Vaba),
            ConsensusMessage::TCVaba(_) => Some(SubProto::Vaba),
            ConsensusMessage::SignedQCVaba(_) => Some(SubProto::Vaba),
            ConsensusMessage::RandomnessShareVaba(_) => Some(SubProto::Vaba),
            ConsensusMessage::RandomCoinVaba(_) => Some(SubProto::Vaba),
            ConsensusMessage::SyncRequestVaba(_, _) => Some(SubProto::Vaba),
            ConsensusMessage::SyncReplyVaba(_) => Some(SubProto::Vaba),
            ConsensusMessage::LoopBack(_) => None,
            ConsensusMessage::Recovery(_) => None,
            ConsensusMessage::Other(_) => None,
        };
        let mut actions: Vec<Action> = Vec::new();
        if let Some(to) = to {
            actions.push(Action::Forward(to, message));
        }
        assert(types::actions_view(actions@) =~= model::forwarded(message));
        actions
    }

    /// Reacts to a message from the network.
    pub fn handle_message(&self, message: ConsensusMessage) -> (actions: Vec<Action>)
        ensures
            types::actions_view(actions@) == model::on_message(message),
    {
        match message {
            ConsensusMessage::Recovery(vote) => {
                self.handle_recovery_vote(vote, VoteProgress::Received)
            },
            _ => self.forward_message(message),
        }
    }

    /// Reacts to one input.
    pub fn step(&mut self, input: Input) -> (actions: Vec<Action>)
        requires
            old(self)@.wf(),
        ensures
            final(self)@ == model::step(old(self)@, input).0,
            types::actions_view(actions@) == model::step(old(self)@, input).1,
            final(self)@.wf(),
    {
        match input {
            Input::Message(message) => self.handle_message(message),
            Input::Blocks(blocks) => self.handle_blocks(blocks),
            Input::Event(event) => self.handle_event(event),
            Input::Vote(vote, progress) => self.handle_recovery_vote(vote, progress),
            Input::Signed(votes) => self.send_votes(votes),
        }
    }

    /// The number of recoveries that have ended.
    pub fn era(&self) -> (era: SeqNumber)
        ensures
            era == self@.era,
    {
        self.era
    }

    /// The mode.
    pub fn state(&self) -> (state: State)
        ensures
            state == self@.state,
    {
        self.state
    }

    /// The position in the VABA chain of the next block to look at.
    pub fn position(&self) -> (l: usize)
        ensures
            l == self@.l,
    {
        self.l
    }

    /// The length of the main chain when votes were last cast.
    pub fn k_voted(&self) -> (k_voted: usize)
        ensures
            k_voted == self@.k_voted,
    {
        self.k_voted
    }

    /// What the fast path has committed, the oldest block first.
    pub fn main_chain(&self) -> (chain: &Vec<Block>)
        ensures
            types::blocks_view(chain@) == self@.main,
    {
        &self.main_chain
    }

    /// What VABA has output, the oldest block first.
    pub fn vaba_chain(&self) -> (chain: &Vec<Block>)
        ensures
            types::blocks_view(chain@) == self@.vaba,
    {
        &self.vaba_chain
    }
}

} // verus!
