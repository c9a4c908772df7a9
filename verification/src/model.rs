use crate::certificate;
use crate::types;
use crate::types::{
    ActionView, BlockView, ConsensusMessage, Event, Input, MessageView, RecoveryVoteView, State,
    SubProto, VoteProgress, VoteRequestView,
};
use vstd::prelude::*;

verus! {

/// How many blocks VABA must have output from a block on, that one counted,
/// before the fast path is held to that block.
pub const LOOPBACK: usize = 10;

/// The state of the compiler as mathematics.
#[verifier::ext_equal]
pub struct Model {
    /// The name of this node.
    pub name: Seq<u8>,
    /// How many recoveries have ended.
    pub era: nat,
    /// The position in the VABA chain of the next block to look at.
    pub l: nat,
    /// The length of the main chain when votes were last cast.
    pub k_voted: nat,
    /// The mode.
    pub state: State,
    /// What the fast path has committed, the oldest block first.
    pub main: Seq<BlockView>,
    /// What VABA has output, the oldest block first.
    pub vaba: Seq<BlockView>,
}

/// The state before any input.
pub open spec fn initial(name: Seq<u8>) -> Model {
    Model {
        name,
        era: 0,
        l: 0,
        k_voted: 0,
        state: State::Steady,
        main: Seq::empty(),
        vaba: Seq::empty(),
    }
}

impl Model {
    /// The invariant of the state: the positions lie within the chains, and
    /// each switch between the modes has consumed a block of the VABA chain.
    pub open spec fn wf(self) -> bool {
        &&& self.l <= self.vaba.len()
        &&& self.k_voted <= self.main.len()
        &&& 2 * self.era + (if self.state is Recovery { 1int } else { 0int }) <= self.l
    }
}

/// The first position in `from..to` at which `p` holds, or `to` if there is none.
pub open spec fn first_where(p: spec_fn(int) -> bool, from: int, to: int) -> int
    decreases to - from,
{
    if from >= to || p(from) {
        from
    } else {
        first_where(p, from + 1, to)
    }
}

pub proof fn lemma_first_where(p: spec_fn(int) -> bool, from: int, to: int)
    requires
        from <= to,
    ensures
        from <= first_where(p, from, to) <= to,
        forall|j: int| from <= j < first_where(p, from, to) ==> !#[trigger] p(j),
        first_where(p, from, to) < to ==> p(first_where(p, from, to)),
    decreases to - from,
{
    if from < to && !p(from) {
        lemma_first_where(p, from + 1, to);
    }
}

pub proof fn lemma_first_where_is(p: spec_fn(int) -> bool, from: int, to: int, at: int)
    requires
        from <= at <= to,
        forall|j: int| from <= j < at ==> !#[trigger] p(j),
        at < to ==> p(at),
    ensures
        first_where(p, from, to) == at,
    decreases to - from,
{
    if from < at {
        assert(!p(from));
        lemma_first_where_is(p, from + 1, to, at);
    }
}

/// The position of the first certificate in `payload`, or its length.
pub open spec fn first_cert(payload: Seq<Seq<u8>>) -> int {
    first_where(|i: int| certificate::is_cert(payload[i]), 0, payload.len() as int)
}

/// Whether `payload` holds a transaction batch, that is a digest that is no
/// certificate.
pub open spec fn has_tx(payload: Seq<Seq<u8>>) -> bool {
    exists|i: int| 0 <= i < payload.len() && !certificate::is_cert(#[trigger] payload[i])
}

/// Whether some block of the main chain holds `tx`.
pub open spec fn certified(main: Seq<BlockView>, tx: Seq<u8>) -> bool {
    exists|i: int| 0 <= i < main.len() && (#[trigger] main[i]).payload.contains(tx)
}

/// Whether `payload` holds a transaction batch that no block of the main chain
/// holds.
pub open spec fn has_late_tx(main: Seq<BlockView>, payload: Seq<Seq<u8>>) -> bool {
    exists|i: int|
        0 <= i < payload.len() && !certificate::is_cert(#[trigger] payload[i]) && !certified(
            main,
            payload[i],
        )
}

/// What the steady state makes of a block of the VABA chain.
pub enum Verdict {
    /// Go on with the next block.
    Passed,
    /// The fast path is late: recover.
    Late,
    /// Look at the same block again next time.
    Stalled,
}

/// The verdict on a block with this payload, given the main chain: one
/// transaction batch that the main chain lacks is enough to recover. A block of
/// certificates only stalls the steady state; any other passes, and so does an
/// empty one.
pub open spec fn verdict(main: Seq<BlockView>, payload: Seq<Seq<u8>>) -> Verdict {
    if payload.len() == 0 {
        Verdict::Passed
    } else if !has_tx(payload) {
        Verdict::Stalled
    } else if has_late_tx(main, payload) {
        Verdict::Late
    } else {
        Verdict::Passed
    }
}

/// Whether the block at each position of the VABA chain holds the steady state up.
pub open spec fn holds_up(m: Model) -> spec_fn(int) -> bool {
    |j: int| !(verdict(m.main, m.vaba[j].payload) is Passed)
}

/// The first position from `l` on whose block VABA output too recently to
/// hold the fast path to it.
pub open spec fn steady_end(m: Model) -> int {
    if m.vaba.len() < m.l + LOOPBACK {
        m.l as int
    } else {
        m.vaba.len() - LOOPBACK + 1
    }
}

/// The position at which the steady state stops looking.
pub open spec fn steady_stop(m: Model) -> int {
    first_where(holds_up(m), m.l as int, steady_end(m))
}

/// Looking through the VABA chain in the steady state: passed blocks are left
/// behind, and so is the block that calls for recovery. The flag says whether
/// there is one.
pub open spec fn scan_steady(m: Model) -> (Model, bool) {
    let stop = steady_stop(m);
    if stop < steady_end(m) && verdict(m.main, m.vaba[stop].payload) is Late {
        (Model { l: (stop + 1) as nat, ..m }, true)
    } else {
        (Model { l: stop as nat, ..m }, false)
    }
}

/// Whether the first certificate of the payload, if it has one, names `era`.
pub open spec fn ends_era(payload: Seq<Seq<u8>>, era: nat) -> bool {
    &&& first_cert(payload) < payload.len()
    &&& certificate::cert_era(payload[first_cert(payload)]) == era
}

/// Whether the block at each position of the VABA chain ends the recovery.
pub open spec fn ends_recovery(m: Model) -> spec_fn(int) -> bool {
    |j: int| ends_era(m.vaba[j].payload, m.era)
}

/// The position at which the recovery state stops looking.
pub open spec fn recovery_stop(m: Model) -> int {
    first_where(ends_recovery(m), m.l as int, m.vaba.len() as int)
}

/// Looking through the VABA chain in the recovery state: all blocks are left
/// behind up to and with the one that ends the recovery. The flag says whether
/// there is one.
pub open spec fn scan_recovery(m: Model) -> (Model, bool) {
    let stop = recovery_stop(m);
    if stop < m.vaba.len() {
        (Model { l: (stop + 1) as nat, ..m }, true)
    } else {
        (Model { l: stop as nat, ..m }, false)
    }
}

/// Whether a block's certificate is of `round` and of view `era`.
pub open spec fn votable(era: nat, round: nat) -> spec_fn(BlockView) -> bool {
    |b: BlockView| b.qc.round == round && b.qc.view == era
}

/// The vote for a block.
pub open spec fn vote_for(name: Seq<u8>, era: nat) -> spec_fn(BlockView) -> VoteRequestView {
    |b: BlockView| VoteRequestView { era, index: b.round, qc: b.qc, author: name }
}

/// The votes for those of `blocks` whose certificate is of `round`.
pub open spec fn votes_at(
    blocks: Seq<BlockView>,
    name: Seq<u8>,
    era: nat,
    round: nat,
) -> Seq<VoteRequestView> {
    blocks.filter(votable(era, round)).map_values(vote_for(name, era))
}

/// The votes for those blocks of the main chain whose certificates are of the
/// rounds `from..to`, round by round.
pub open spec fn votes_between(m: Model, from: nat, to: nat) -> Seq<VoteRequestView>
    decreases to,
{
    if from >= to {
        Seq::empty()
    } else {
        votes_between(m, from, (to - 1) as nat) + votes_at(m.main, m.name, m.era, (to - 1) as nat)
    }
}

/// The votes to cast: for the rounds between the lengths of the main chain
/// when votes were last cast and now.
pub open spec fn votes(m: Model) -> Seq<VoteRequestView> {
    votes_between(m, m.k_voted, m.main.len())
}

/// Casting votes: the state afterwards and the action.
pub open spec fn cast_votes(m: Model) -> (Model, Seq<ActionView>) {
    (Model { k_voted: m.main.len(), ..m }, seq![ActionView::CastVotes(votes(m))])
}

pub proof fn lemma_scan_steady(m: Model)
    ensures
        scan_steady(m).0 == (Model { l: scan_steady(m).0.l, ..m }),
        m.l <= scan_steady(m).0.l,
        m.l <= m.vaba.len() ==> scan_steady(m).0.l <= m.vaba.len(),
        scan_steady(m).1 ==> m.l < scan_steady(m).0.l <= m.vaba.len(),
{
    lemma_first_where(holds_up(m), m.l as int, steady_end(m));
}

pub proof fn lemma_scan_recovery(m: Model)
    ensures
        scan_recovery(m).0 == (Model { l: scan_recovery(m).0.l, ..m }),
        m.l <= m.vaba.len() ==> m.l <= scan_recovery(m).0.l <= m.vaba.len(),
        scan_recovery(m).1 ==> m.l < scan_recovery(m).0.l <= m.vaba.len(),
{
    if m.l <= m.vaba.len() {
        lemma_first_where(ends_recovery(m), m.l as int, m.vaba.len() as int);
    }
}

/// Resolving in the steady state: look through the VABA chain and recover if
/// a block calls for it.
pub open spec fn resolve_steady(m: Model) -> (Model, Seq<ActionView>)
    decreases m.vaba.len() - m.l, 0int,
{
    proof {
        lemma_scan_steady(m);
    }
    let (scanned, late) = scan_steady(m);
    if late {
        enter_recovery(scanned)
    } else {
        (scanned, Seq::empty())
    }
}

/// Entering the recovery state: Jolteon is stopped, votes are cast, and the
/// VABA chain is searched for a certificate.
pub open spec fn enter_recovery(m: Model) -> (Model, Seq<ActionView>)
    decreases m.vaba.len() - m.l, 3int,
{
    let (voted, cast) = cast_votes(Model { state: State::Recovery, ..m });
    let (resolved, then_done) = resolve_recovery(voted);
    (resolved, seq![ActionView::StopStart] + cast + then_done)
}

/// Resolving in the recovery state: look through the VABA chain and return to
/// the steady state if a block ends the recovery.
pub open spec fn resolve_recovery(m: Model) -> (Model, Seq<ActionView>)
    decreases m.vaba.len() - m.l, 2int,
{
    proof {
        lemma_scan_recovery(m);
    }
    let (scanned, found) = scan_recovery(m);
    if found {
        enter_steady(scanned)
    } else {
        (scanned, Seq::empty())
    }
}

/// Entering the steady state: the next era begins, the steady state resolves,
/// and only then is Jolteon started.
pub open spec fn enter_steady(m: Model) -> (Model, Seq<ActionView>)
    decreases m.vaba.len() - m.l, 1int,
{
    let (resolved, done) = resolve_steady(Model { era: m.era + 1, state: State::Steady, ..m });
    (resolved, done + seq![ActionView::StopStart])
}

/// Taking in committed blocks, the oldest at the back.
pub open spec fn on_blocks(m: Model, blocks: Seq<BlockView>) -> (Model, Seq<ActionView>) {
    resolve_steady(Model { main: m.main + blocks.reverse(), ..m })
}

/// Taking in a notification.
pub open spec fn on_event(m: Model, event: Event) -> (Model, Seq<ActionView>) {
    match (m.state, event) {
        (State::Steady, Event::VabaOut(block)) => {
            resolve_steady(Model { vaba: m.vaba.push(block@), ..m })
        },
        (State::Steady, _) => resolve_steady(m),
        (State::Recovery, Event::VabaOut(block)) => {
            let (voted, cast) = cast_votes(Model { vaba: m.vaba.push(block@), ..m });
            let (resolved, then_done) = resolve_recovery(voted);
            (resolved, cast + then_done)
        },
        (State::Recovery, _) => (m, Seq::empty()),
    }
}

/// Whether the message is for Jolteon.
pub open spec fn for_jolteon(message: ConsensusMessage) -> bool {
    ||| message is ProposeJolteon
    ||| message is VoteJolteon
    ||| message is TimeoutJolteon
    ||| message is TCJolteon
    ||| message is SignedQCJolteon
    ||| message is RandomnessShareJolteon
    ||| message is RandomCoinJolteon
    ||| message is SyncRequestJolteon
    ||| message is SyncReplyJolteon
}

/// Whether the message is for VABA.
pub open spec fn for_vaba(message: ConsensusMessage) -> bool {
    ||| message is ProposeVaba
    ||| message is VoteVaba
    ||| message is TimeoutVaba
    ||| message is TCVaba
    ||| message is SignedQCVaba
    ||| message is RandomnessShareVaba
    ||| message is RandomCoinVaba
    ||| message is SyncRequestVaba
    ||| message is SyncReplyVaba
}

/// Where a message goes: to the protocol that it is for, if any.
pub open spec fn forwarded(message: ConsensusMessage) -> Seq<ActionView> {
    if for_jolteon(message) {
        seq![ActionView::Forward(SubProto::Jolteon, message)]
    } else if for_vaba(message) {
        seq![ActionView::Forward(SubProto::Vaba, message)]
    } else {
        Seq::empty()
    }
}

/// What a recovery vote calls for: it is verified; if it is valid it is
/// counted; if the votes are then enough their certificate is submitted.
pub open spec fn on_vote(vote: RecoveryVoteView, progress: VoteProgress) -> Seq<ActionView> {
    match progress {
        VoteProgress::Received => seq![ActionView::VerifyVote(vote)],
        VoteProgress::Verified(true) => seq![ActionView::AggregateVote(vote)],
        VoteProgress::Aggregated(true) => seq![
            ActionView::SendCertificate(certificate::certificate(vote.era, vote.index)),
        ],
        _ => Seq::empty(),
    }
}

/// What signed votes of this node call for: each in turn is sent to all other
/// nodes and then handled like a vote received.
pub open spec fn on_signed(votes: Seq<RecoveryVoteView>) -> Seq<ActionView> {
    Seq::new(
        2 * votes.len(),
        |k: int|
            if k % 2 == 0 {
                ActionView::Broadcast(MessageView::Recovery(votes[k / 2]))
            } else {
                ActionView::VerifyVote(votes[k / 2])
            },
    )
}

/// What a message from the network calls for.
pub open spec fn on_message(message: ConsensusMessage) -> Seq<ActionView> {
    match message {
        ConsensusMessage::Recovery(vote) => on_vote(vote@, VoteProgress::Received),
        _ => forwarded(message),
    }
}

/// One step of the compiler: the state afterwards and the actions.
pub open spec fn step(m: Model, input: Input) -> (Model, Seq<ActionView>) {
    match input {
        Input::Message(message) => (m, on_message(message)),
        Input::Blocks(blocks) => on_blocks(m, types::blocks_view(blocks@)),
        Input::Event(event) => on_event(m, event),
        Input::Vote(vote, progress) => (m, on_vote(vote@, progress)),
        Input::Signed(votes) => (m, on_signed(types::votes_view(votes@))),
    }
}

/// The state after a number of inputs.
pub open spec fn run(m: Model, inputs: Seq<Input>) -> Model
    decreases inputs.len(),
{
    if inputs.len() == 0 {
        m
    } else {
        step(run(m, inputs.drop_last()), inputs.last()).0
    }
}

} // verus!
