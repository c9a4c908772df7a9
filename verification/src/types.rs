use std::collections::VecDeque;
use vstd::prelude::*;

verus! {

/// An era, a round or a view number.
pub type SeqNumber = u64;

/// The digest of a transaction batch, or a recovery certificate in its place.
#[derive(Clone, Copy, Debug, PartialEq, Eq)]
pub struct Digest(pub [u8; 32]);

impl View for Digest {
    type V = Seq<u8>;

    open spec fn view(&self) -> Seq<u8> {
        self.0@
    }
}

impl Digest {
    /// Whether both digests consist of the same bytes.
    pub fn same_as(&self, other: &Digest) -> (same: bool)
        ensures
            same == (self@ == other@),
    {
        let mut i: usize = 0;
        while i < 32
            invariant
                i <= 32,
                forall|j: int| 0 <= j < i ==> self@[j] == other@[j],
            decreases 32 - i,
        {
            if self.0[i] != other.0[i] {
                assert(self@[i as int] != other@[i as int]);
                return false;
            }
            i += 1;
        }
        assert(self@ =~= other@);
        true
    }
}

/// The name of a node.
#[derive(Clone, Copy, Debug, PartialEq, Eq)]
pub struct PublicKey(pub [u8; 32]);

impl View for PublicKey {
    type V = Seq<u8>;

    open spec fn view(&self) -> Seq<u8> {
        self.0@
    }
}

/// A quorum certificate. Its signatures are carried along and never read here.
#[derive(Debug, PartialEq, Eq)]
pub struct QC {
    pub view: SeqNumber,
    pub round: SeqNumber,
    pub signatures: Vec<u8>,
}

/// The mathematical content of a [`QC`].
pub struct QCView {
    pub view: nat,
    pub round: nat,
    pub signatures: Seq<u8>,
}

impl View for QC {
    type V = QCView;

    open spec fn view(&self) -> QCView {
        QCView {
            view: self.view as nat,
            round: self.round as nat,
            signatures: self.signatures@,
        }
    }
}

impl Clone for QC {
    fn clone(&self) -> (copy: QC)
        ensures
            copy@ == self@,
    {
        let signatures = self.signatures.clone();
        assert(signatures@ =~= self.signatures@);
        QC { view: self.view, round: self.round, signatures }
    }
}

/// A block of either chain.
#[derive(Debug, PartialEq, Eq)]
pub struct Block {
    pub payload: Vec<Digest>,
    pub round: SeqNumber,
    pub qc: QC,
}

/// The mathematical content of a [`Block`].
pub struct BlockView {
    pub payload: Seq<Seq<u8>>,
    pub round: nat,
    pub qc: QCView,
}

impl View for Block {
    type V = BlockView;

    open spec fn view(&self) -> BlockView {
        BlockView {
            payload: digests_view(self.payload@),
            round: self.round as nat,
            qc: self.qc@,
        }
    }
}

/// The digests of `digests`, each as its bytes.
pub open spec fn digests_view(digests: Seq<Digest>) -> Seq<Seq<u8>> {
    digests.map_values(|d: Digest| d@)
}

/// The blocks of `blocks`, each as its content.
pub open spec fn blocks_view(blocks: Seq<Block>) -> Seq<BlockView> {
    blocks.map_values(|b: Block| b@)
}

/// What a recovery vote consists of before it is signed.
#[derive(Debug, PartialEq, Eq)]
pub struct VoteRequest {
    pub era: SeqNumber,
    pub index: SeqNumber,
    pub qc: QC,
    pub author: PublicKey,
}

/// The mathematical content of a [`VoteRequest`].
pub struct VoteRequestView {
    pub era: nat,
    pub index: nat,
    pub qc: QCView,
    pub author: Seq<u8>,
}

impl View for VoteRequest {
    type V = VoteRequestView;

    open spec fn view(&self) -> VoteRequestView {
        VoteRequestView {
            era: self.era as nat,
            index: self.index as nat,
            qc: self.qc@,
            author: self.author@,
        }
    }
}

/// The requests of `requests`, each as its content.
pub open spec fn requests_view(requests: Seq<VoteRequest>) -> Seq<VoteRequestView> {
    requests.map_values(|r: VoteRequest| r@)
}

/// A signed recovery vote.
#[derive(Debug, PartialEq, Eq)]
pub struct RecoveryVote {
    pub era: SeqNumber,
    pub index: SeqNumber,
    pub qc: QC,
    pub author: PublicKey,
    pub signature: Vec<u8>,
}

/// The mathematical content of a [`RecoveryVote`].
pub struct RecoveryVoteView {
    pub era: nat,
    pub index: nat,
    pub qc: QCView,
    pub author: Seq<u8>,
    pub signature: Seq<u8>,
}

impl View for RecoveryVote {
    type V = RecoveryVoteView;

    open spec fn view(&self) -> RecoveryVoteView {
        RecoveryVoteView {
            era: self.era as nat,
            index: self.index as nat,
            qc: self.qc@,
            author: self.author@,
            signature: self.signature@,
        }
    }
}

impl Clone for RecoveryVote {
    fn clone(&self) -> (copy: RecoveryVote)
        ensures
            copy@ == self@,
    {
        let signature = self.signature.clone();
        assert(signature@ =~= self.signature@);
        RecoveryVote {
            era: self.era,
            index: self.index,
            qc: self.qc.clone(),
            author: self.author,
            signature,
        }
    }
}

/// The votes of `votes`, each as its content.
pub open spec fn votes_view(votes: Seq<RecoveryVote>) -> Seq<RecoveryVoteView> {
    votes.map_values(|v: RecoveryVote| v@)
}

/// How far a recovery vote has come. The verdict on its signature and the
/// count of the votes so far are made outside the core.
#[derive(Clone, Copy, Debug, PartialEq, Eq)]
pub enum VoteProgress {
    /// The vote has arrived.
    Received,
    /// Its verification has ended; `true` if the vote is valid.
    Verified(bool),
    /// It has been added to the votes so far; `true` if they are now enough.
    Aggregated(bool),
}

/// The two protocols that the compiler runs.
#[derive(Clone, Copy, Debug, PartialEq, Eq)]
pub enum SubProto {
    Jolteon,
    Vaba,
}

/// The mode of the compiler.
#[derive(Clone, Copy, Debug, PartialEq, Eq)]
pub enum State {
    Steady,
    Recovery,
}

/// A notification from one of the two protocols.
#[derive(Debug, PartialEq, Eq)]
pub enum Event {
    Vote,
    Lock,
    Advance,
    /// VABA has output a block.
    VabaOut(Block),
}

/// A message from the network. Only recovery votes are for the compiler
/// itself; of all others it carries the encoded content along.
#[derive(Debug, PartialEq, Eq)]
pub enum ConsensusMessage {
    Recovery(RecoveryVote),
    LoopBack(Vec<u8>),
    ProposeJolteon(Vec<u8>),
    VoteJolteon(Vec<u8>),
    TimeoutJolteon(Vec<u8>),
    TCJolteon(Vec<u8>),
    SignedQCJolteon(Vec<u8>),
    RandomnessShareJolteon(Vec<u8>),
    RandomCoinJolteon(Vec<u8>),
    SyncRequestJolteon(Digest, PublicKey),
    SyncReplyJolteon(Vec<u8>),
    ProposeVaba(Vec<u8>),
    VoteVaba(Vec<u8>),
    TimeoutVaba(Vec<u8>),
    TCVaba(Vec<u8>),
    SignedQCVaba(Vec<u8>),
    RandomnessShareVaba(Vec<u8>),
    RandomCoinVaba(Vec<u8>),
    SyncRequestVaba(Digest, PublicKey),
    SyncReplyVaba(Vec<u8>),
    /// Any message that is for neither protocol.
    Other(Vec<u8>),
}

/// The mathematical content of a [`ConsensusMessage`]: of a recovery vote its
/// content, of any other message the message itself.
pub enum MessageView {
    Recovery(RecoveryVoteView),
    Carried(ConsensusMessage),
}

impl View for ConsensusMessage {
    type V = MessageView;

    open spec fn view(&self) -> MessageView {
        match *self {
            ConsensusMessage::Recovery(vote) => MessageView::Recovery(vote@),
            message => MessageView::Carried(message),
        }
    }
}

/// What the compiler reacts to.
#[derive(Debug, PartialEq, Eq)]
pub enum Input {
    /// A message from the network.
    Message(ConsensusMessage),
    /// Blocks that Jolteon has committed, the oldest at the back.
    Blocks(VecDeque<Block>),
    /// A notification from one of the protocols.
    Event(Event),
    /// News of a recovery vote.
    Vote(RecoveryVote, VoteProgress),
    /// The votes asked for by [`Action::CastVotes`], signed, in the same order.
    Signed(Vec<RecoveryVote>),
}

/// What is to be done outside the core. What the report on an action calls for
/// is done before any action after it.
#[derive(Debug, PartialEq, Eq)]
pub enum Action {
    /// Hand the message to the protocol.
    Forward(SubProto, ConsensusMessage),
    /// Verify the vote and report the outcome as [`VoteProgress::Verified`].
    VerifyVote(RecoveryVote),
    /// Add the vote to the votes so far and report whether they are now enough
    /// as [`VoteProgress::Aggregated`].
    AggregateVote(RecoveryVote),
    /// Submit the recovery certificate to the mempool.
    SendCertificate(Digest),
    /// Stop Jolteon if it runs, start it if it does not.
    StopStart,
    /// Sign all these votes and report them as [`Input::Signed`].
    CastVotes(Vec<VoteRequest>),
    /// Send the message to all other nodes.
    Broadcast(ConsensusMessage),
}

/// The mathematical content of an [`Action`].
pub enum ActionView {
    Forward(SubProto, ConsensusMessage),
    VerifyVote(RecoveryVoteView),
    AggregateVote(RecoveryVoteView),
    SendCertificate(Seq<u8>),
    StopStart,
    CastVotes(Seq<VoteRequestView>),
    Broadcast(MessageView),
}

impl View for Action {
    type V = ActionView;

    open spec fn view(&self) -> ActionView {
        match *self {
            Action::Forward(to, message) => ActionView::Forward(to, message),
            Action::VerifyVote(vote) => ActionView::VerifyVote(vote@),
            Action::AggregateVote(vote) => ActionView::AggregateVote(vote@),
            Action::SendCertificate(cert) => ActionView::SendCertificate(cert@),
            Action::StopStart => ActionView::StopStart,
            Action::CastVotes(requests) => ActionView::CastVotes(requests_view(requests@)),
            Action::Broadcast(message) => ActionView::Broadcast(message@),
        }
    }
}

/// The actions of `actions`, each as its content.
pub open spec fn actions_view(actions: Seq<Action>) -> Seq<ActionView> {
    actions.map_values(|a: Action| a@)
}

} // verus!
