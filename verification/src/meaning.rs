use crate::agenda;
use crate::benchmark;
use crate::call_laws;
use crate::certificate;
use crate::laws;
use crate::model;
use crate::model::Model;
use crate::types;
use crate::types::{
    Action, ActionView, Block, BlockView, ConsensusMessage, Digest, Event, Input, MessageView,
    PublicKey, RecoveryVote, RecoveryVoteView, State, SubProto, VoteProgress, VoteRequest,
};
use vstd::prelude::*;

verus! {

// ---- The data ----

/// A digest and a name are their bytes.
pub proof fn law_bytes_are_kept(digest: Digest, name: PublicKey)
    ensures
        digest@.len() == 32,
        forall|i: int| 0 <= i < 32 ==> #[trigger] digest@[i] == digest.0[i],
        name@.len() == 32,
        forall|i: int| 0 <= i < 32 ==> #[trigger] name@[i] == name.0[i],
{
}

/// A block, its certificate and chains of blocks are seen whole.
pub proof fn law_blocks_are_seen_whole(blocks: Seq<Block>, i: int, k: int)
    requires
        0 <= i < blocks.len(),
    ensures
        types::blocks_view(blocks).len() == blocks.len(),
        ({
            let b = types::blocks_view(blocks)[i];
            &&& b == blocks[i]@
            &&& b.round == blocks[i].round
            &&& b.qc.view == blocks[i].qc.view
            &&& b.qc.round == blocks[i].qc.round
            &&& b.qc.signatures == blocks[i].qc.signatures@
            &&& b.payload.len() == blocks[i].payload@.len()
            &&& 0 <= k < blocks[i].payload@.len() ==> b.payload[k] == blocks[i].payload@[k].0@
        }),
{
}

/// Votes, signed or to be signed, are seen whole.
pub proof fn law_votes_are_seen_whole(
    requests: Seq<VoteRequest>,
    votes: Seq<RecoveryVote>,
    i: int,
)
    ensures
        types::requests_view(requests).len() == requests.len(),
        0 <= i < requests.len() ==> ({
            let r = types::requests_view(requests)[i];
            &&& r.era == requests[i].era
            &&& r.index == requests[i].index
            &&& r.qc == requests[i].qc@
            &&& r.author == requests[i].author.0@
        }),
        types::votes_view(votes).len() == votes.len(),
        0 <= i < votes.len() ==> ({
            let v = types::votes_view(votes)[i];
            &&& v == votes[i]@
            &&& v.era == votes[i].era
            &&& v.index == votes[i].index
            &&& v.qc == votes[i].qc@
            &&& v.author == votes[i].author.0@
            &&& v.signature == votes[i].signature@
        }),
{
}

/// Actions are seen one for one, each with all that it carries.
pub proof fn law_actions_are_seen_whole(actions: Seq<Action>, i: int)
    requires
        0 <= i < actions.len(),
    ensures
        types::actions_view(actions).len() == actions.len(),
        ({
            let seen = types::actions_view(actions)[i];
            match actions[i] {
                Action::Forward(to, message) => seen == ActionView::Forward(to, message),
                Action::VerifyVote(vote) => seen == ActionView::VerifyVote(vote@),
                Action::AggregateVote(vote) => seen == ActionView::AggregateVote(vote@),
                Action::SendCertificate(cert) => seen == ActionView::SendCertificate(cert.0@),
                Action::StopStart => seen is StopStart,
                Action::CastVotes(requests) => seen == ActionView::CastVotes(
                    types::requests_view(requests@),
                ),
                Action::Broadcast(ConsensusMessage::Recovery(vote)) => seen
                    == ActionView::Broadcast(MessageView::Recovery(vote@)),
                Action::Broadcast(message) => seen == ActionView::Broadcast(
                    MessageView::Carried(message),
                ),
            }
        }),
{
}

// ---- Certificates ----

proof fn lemma_eight_bytes(s: Seq<u8>)
    requires
        s.len() == 8,
    ensures
        certificate::be_value(s) == s[0] * 0x100_0000_0000_0000 + s[1] * 0x1_0000_0000_0000 + s[2]
            * 0x100_0000_0000 + s[3] * 0x1_0000_0000 + s[4] * 0x100_0000 + s[5] * 0x1_0000 + s[6]
            * 0x100 + s[7],
{
    reveal_with_fuel(certificate::be_value, 2);
    assert(s.take(8) =~= s);
    assert(s.take(8).drop_last() =~= s.take(7));
    assert(s.take(7).drop_last() =~= s.take(6));
    assert(s.take(6).drop_last() =~= s.take(5));
    assert(s.take(5).drop_last() =~= s.take(4));
    assert(s.take(4).drop_last() =~= s.take(3));
    assert(s.take(3).drop_last() =~= s.take(2));
    assert(s.take(2).drop_last() =~= s.take(1));
    assert(s.take(1).drop_last() =~= s.take(0));
    assert(certificate::be_value(s.take(0)) == 0);
    assert(certificate::be_value(s.take(1)) == s[0]);
    assert(certificate::be_value(s.take(2)) == s[0] * 0x100 + s[1]);
    assert(certificate::be_value(s.take(3)) == s[0] * 0x1_0000 + s[1] * 0x100 + s[2]);
    assert(certificate::be_value(s.take(4)) == s[0] * 0x100_0000 + s[1] * 0x1_0000 + s[2] * 0x100
        + s[3]);
    assert(certificate::be_value(s.take(5)) == s[0] * 0x1_0000_0000 + s[1] * 0x100_0000 + s[2]
        * 0x1_0000 + s[3] * 0x100 + s[4]);
    assert(certificate::be_value(s.take(6)) == s[0] * 0x100_0000_0000 + s[1] * 0x1_0000_0000 + s[2]
        * 0x100_0000 + s[3] * 0x1_0000 + s[4] * 0x100 + s[5]);
    assert(certificate::be_value(s.take(7)) == s[0] * 0x1_0000_0000_0000 + s[1] * 0x100_0000_0000
        + s[2] * 0x1_0000_0000 + s[3] * 0x100_0000 + s[4] * 0x1_0000 + s[5] * 0x100 + s[6]);
}

/// A digest is a certificate if and only if each of its first sixteen bytes
/// is 2.
pub proof fn law_what_marks_a_certificate(digest: Seq<u8>)
    ensures
        certificate::is_cert(digest) <==> digest.len() >= 16 && forall|i: int|
            0 <= i < 16 ==> #[trigger] digest[i] == 2,
{
}

/// The next eight bytes of a certificate are the era that it names and the
/// last eight the index, the first of each eight weighing most.
pub proof fn law_what_a_certificate_names(digest: Seq<u8>)
    requires
        digest.len() == 32,
    ensures
        certificate::cert_era(digest) == digest[16] * 0x100_0000_0000_0000 + digest[17]
            * 0x1_0000_0000_0000 + digest[18] * 0x100_0000_0000 + digest[19] * 0x1_0000_0000
            + digest[20] * 0x100_0000 + digest[21] * 0x1_0000 + digest[22] * 0x100 + digest[23],
        certificate::cert_index(digest) == digest[24] * 0x100_0000_0000_0000 + digest[25]
            * 0x1_0000_0000_0000 + digest[26] * 0x100_0000_0000 + digest[27] * 0x1_0000_0000
            + digest[28] * 0x100_0000 + digest[29] * 0x1_0000 + digest[30] * 0x100 + digest[31],
{
    lemma_eight_bytes(digest.subrange(16, 24));
    lemma_eight_bytes(digest.subrange(24, 32));
}

/// The certificate made for an era and an index is sixteen bytes of 2, the
/// era and the index.
pub proof fn law_how_a_certificate_is_made(era: u64, index: u64)
    ensures
        ({
            let c = certificate::certificate(era as nat, index as nat);
            &&& c.len() == 32
            &&& forall|i: int| 0 <= i < 16 ==> #[trigger] c[i] == 2
            &&& era == c[16] * 0x100_0000_0000_0000 + c[17] * 0x1_0000_0000_0000 + c[18]
                * 0x100_0000_0000 + c[19] * 0x1_0000_0000 + c[20] * 0x100_0000 + c[21] * 0x1_0000
                + c[22] * 0x100 + c[23]
            &&& index == c[24] * 0x100_0000_0000_0000 + c[25] * 0x1_0000_0000_0000 + c[26]
                * 0x100_0000_0000 + c[27] * 0x1_0000_0000 + c[28] * 0x100_0000 + c[29] * 0x1_0000
                + c[30] * 0x100 + c[31]
        }),
{
    laws::law_certificate_round_trip(era, index);
    let c = certificate::certificate(era as nat, index as nat);
    law_what_marks_a_certificate(c);
    law_what_a_certificate_names(c);
}

// ---- The state ----

/// The compiler starts in the steady state of era 0, with nothing in its
/// chains, nothing looked at and nothing voted on.
pub proof fn law_the_start(name: Seq<u8>)
    ensures
        ({
            let m = model::initial(name);
            &&& m.name == name
            &&& m.era == 0
            &&& m.l == 0
            &&& m.k_voted == 0
            &&& m.state is Steady
            &&& m.main.len() == 0
            &&& m.vaba.len() == 0
            &&& laws::settled(m)
        }),
{
    laws::law_every_reachable_state_is_settled(name, Seq::empty());
}

/// What the invariant says.
pub proof fn law_the_invariant(m: Model)
    ensures
        m.wf() <==> {
            &&& m.l <= m.vaba.len()
            &&& m.k_voted <= m.main.len()
            &&& m.state is Steady ==> 2 * m.era <= m.l
            &&& m.state is Recovery ==> 2 * m.era + 1 <= m.l
        },
{
}

/// A state is at rest if and only if the recovery state has looked at all
/// blocks of the VABA chain, and the steady state at all but the last nine or
/// is held up by a block of certificates only.
pub proof fn law_what_is_settled(m: Model)
    ensures
        laws::settled(m) <==> {
            &&& m.wf()
            &&& m.state is Recovery ==> m.l == m.vaba.len()
            &&& m.state is Steady ==> m.vaba.len() < m.l + 10 || {
                &&& m.vaba[m.l as int].payload.len() > 0
                &&& forall|i: int|
                    #![trigger m.vaba[m.l as int].payload[i]]
                    0 <= i < m.vaba[m.l as int].payload.len()
                        ==> m.vaba[m.l as int].payload[i].len() >= 16 && forall|b: int|
                        0 <= b < 16 ==> #[trigger] m.vaba[m.l as int].payload[i][b] == 2
            }
        },
{
    let at = m.l as int;
    let payload = m.vaba[at].payload;
    model::lemma_first_where(model::holds_up(m), at, model::steady_end(m));
    law_what_a_block_calls_for(m.main, payload);
    assert(model::holds_up(m)(at) == !(model::verdict(m.main, payload) is Passed));
    if m.state is Steady && m.vaba.len() < m.l + 10 {
        assert(model::scan_steady(m).0 =~= m);
    } else if m.state is Steady {
        if model::verdict(m.main, payload) is Stalled {
            assert(model::steady_stop(m) == at);
            assert(model::scan_steady(m).0 =~= m);
        }
    }
}

// ---- The steady state ----

/// A batch is certified if and only if some block of the main chain holds it,
/// at any position of its payload.
pub proof fn law_what_is_certified(main: Seq<BlockView>, tx: Seq<u8>)
    ensures
        forall|i: int, k: int|
            0 <= i < main.len() && 0 <= k < main[i].payload.len() ==> model::certified(
                main,
                #[trigger] main[i].payload[k],
            ),
        model::certified(main, tx) ==> exists|i: int, k: int|
            0 <= i < main.len() && 0 <= k < main[i].payload.len() && #[trigger] main[i].payload[k]
                == tx,
{
    assert forall|i: int, k: int|
        0 <= i < main.len() && 0 <= k < main[i].payload.len() implies model::certified(
        main,
        #[trigger] main[i].payload[k],
    ) by {
        assert(main[i].payload.contains(main[i].payload[k]));
    }
    if model::certified(main, tx) {
        let i = choose|i: int| 0 <= i < main.len() && (#[trigger] main[i]).payload.contains(tx);
        let k = choose|k: int| 0 <= k < main[i].payload.len() && main[i].payload[k] == tx;
        assert(main[i].payload[k] == tx);
    }
}

/// A block calls for recovery if and only if one of its digests is no
/// certificate and stands nowhere in the main chain, however long that is. It
/// holds the steady state up if and only if it holds something and that is
/// certificates only. Otherwise it passes.
pub proof fn law_what_a_block_calls_for(main: Seq<BlockView>, payload: Seq<Seq<u8>>)
    ensures
        model::verdict(main, payload) is Late <==> exists|i: int|
            #![trigger payload[i]]
            0 <= i < payload.len() && !(payload[i].len() >= 16 && forall|b: int|
                0 <= b < 16 ==> #[trigger] payload[i][b] == 2) && forall|n: int, k: int|
                0 <= n < main.len() && 0 <= k < main[n].payload.len()
                    ==> #[trigger] main[n].payload[k] != payload[i],
        model::verdict(main, payload) is Stalled <==> payload.len() > 0 && forall|i: int|
            #![trigger payload[i]]
            0 <= i < payload.len() ==> payload[i].len() >= 16 && forall|b: int|
                0 <= b < 16 ==> #[trigger] payload[i][b] == 2,
{
    assert forall|i: int| 0 <= i < payload.len() implies model::certified(
        main,
        #[trigger] payload[i],
    ) == !(forall|n: int, k: int|
        0 <= n < main.len() && 0 <= k < main[n].payload.len() ==> #[trigger] main[n].payload[k]
            != payload[i]) by {
        law_what_is_certified(main, payload[i]);
    }
    assert forall|i: int| 0 <= i < payload.len() implies certificate::is_cert(
        #[trigger] payload[i],
    ) == (payload[i].len() >= 16 && forall|b: int|
        0 <= b < 16 ==> #[trigger] payload[i][b] == 2) by {}
    if model::has_late_tx(main, payload) {
        let i = choose|i: int|
            0 <= i < payload.len() && !certificate::is_cert(#[trigger] payload[i])
                && !model::certified(main, payload[i]);
        assert(model::has_tx(payload));
    }
}

/// A block whose first digest that is no certificate stands nowhere in the
/// main chain calls for recovery, and so does one in which any other does.
pub proof fn law_missing_batch_is_late(main: Seq<BlockView>, payload: Seq<Seq<u8>>, i: int)
    requires
        0 <= i < payload.len(),
        exists|b: int| 0 <= b < 16 && b < payload[i].len() && payload[i][b] != 2,
        forall|n: int|
            0 <= n < main.len() ==> !(#[trigger] main[n]).payload.contains(payload[i]),
    ensures
        model::verdict(main, payload) is Late,
{
    let b = choose|b: int| 0 <= b < 16 && b < payload[i].len() && payload[i][b] != 2;
    assert(payload[i][b] != 2);
    assert forall|n: int, k: int|
        0 <= n < main.len() && 0 <= k < main[n].payload.len() implies #[trigger] main[n].payload[k]
        != payload[i] by {
        assert(!main[n].payload.contains(payload[i]));
        assert(main[n].payload.contains(main[n].payload[k]));
    }
    law_what_a_block_calls_for(main, payload);
}

/// What the steady state has done when it stops looking: it has moved on over
/// blocks that pass and that had ten blocks from them on, and over no others
/// but the one that calls for recovery. Nothing else has changed.
pub proof fn law_what_the_steady_state_looks_at(m: Model)
    requires
        m.l <= m.vaba.len(),
    ensures
        ({
            let (after, late) = model::scan_steady(m);
            &&& after.name == m.name && after.era == m.era && after.k_voted == m.k_voted
            &&& after.state == m.state && after.main == m.main && after.vaba == m.vaba
            &&& m.l <= after.l <= m.vaba.len()
            &&& forall|j: int|
                #![trigger m.vaba[j]]
                m.l <= j < after.l - (if late { 1int } else { 0int }) ==> j + 10 <= m.vaba.len()
                    && model::verdict(m.main, m.vaba[j].payload) is Passed
            &&& late ==> {
                &&& m.l < after.l
                &&& after.l - 1 + 10 <= m.vaba.len()
                &&& model::verdict(m.main, m.vaba[after.l - 1].payload) is Late
            }
            &&& !late ==> after.l + 10 > m.vaba.len() || model::verdict(
                m.main,
                m.vaba[after.l as int].payload,
            ) is Stalled
        }),
{
    let p = model::holds_up(m);
    model::lemma_first_where(p, m.l as int, model::steady_end(m));
    let stop = model::steady_stop(m);
    assert forall|j: int|
        #![trigger m.vaba[j]]
        m.l <= j < stop implies model::verdict(m.main, m.vaba[j].payload) is Passed by {
        assert(!p(j));
    }
    if stop < model::steady_end(m) {
        assert(p(stop));
    }
}

/// The output of VABA that gives the next block to look at its tenth block
/// begins a recovery if one of the digests of that block is no certificate and
/// stands nowhere in the main chain: Jolteon is stopped and votes are cast, and
/// the state is the recovery state or has already gone through it. If there is
/// no such digest, or the block has fewer blocks from it on, nothing is called
/// for.
pub proof fn law_missing_batch_begins_recovery(m: Model, block: Block)
    requires
        laws::settled(m),
        m.state is Steady,
    ensures
        ({
            let vaba = m.vaba.push(block@);
            let payload = vaba[m.l as int].payload;
            let (after, actions) = model::step(m, Input::Event(Event::VabaOut(block)));
            let missing = exists|i: int|
                #![trigger payload[i]]
                0 <= i < payload.len() && !(payload[i].len() >= 16 && forall|b: int|
                    0 <= b < 16 ==> #[trigger] payload[i][b] == 2) && forall|n: int|
                    0 <= n < m.main.len() ==> !(#[trigger] m.main[n]).payload.contains(payload[i]);
            if vaba.len() >= m.l + 10 && missing {
                &&& actions.len() >= 2
                &&& actions[0] is StopStart
                &&& actions[1] == ActionView::CastVotes(model::votes(m))
                &&& after.state is Recovery && after.era == m.era && actions.len() == 2
                    || after.state is Steady && after.era == m.era + 1 && actions.len() == 3
                    && actions[2] is StopStart
            } else {
                &&& actions.len() == 0
                &&& after.state is Steady
                &&& after.era == m.era
                &&& after.k_voted == m.k_voted
            }
        }),
{
    let vaba = m.vaba.push(block@);
    let payload = vaba[m.l as int].payload;
    laws::law_when_recovery_begins(m, block);
    law_what_a_block_calls_for(m.main, payload);
    assert forall|i: int|
        #![trigger payload[i]]
        0 <= i < payload.len() implies (forall|n: int|
        0 <= n < m.main.len() ==> !(#[trigger] m.main[n]).payload.contains(payload[i])) == (forall|
        n: int,
        k: int,
    |
        0 <= n < m.main.len() && 0 <= k < m.main[n].payload.len()
            ==> #[trigger] m.main[n].payload[k] != payload[i]) by {
        law_what_is_certified(m.main, payload[i]);
    }
}

// ---- The recovery state ----

/// A block ends an era if and only if one of its digests is a certificate
/// whose eight bytes after the mark are that era, and none before it is a
/// certificate.
pub proof fn law_what_ends_an_era(payload: Seq<Seq<u8>>, era: nat)
    requires
        forall|i: int| 0 <= i < payload.len() ==> (#[trigger] payload[i]).len() == 32,
    ensures
        model::ends_era(payload, era) <==> exists|i: int|
            #![trigger payload[i]]
            {
                &&& 0 <= i < payload.len()
                &&& forall|b: int| 0 <= b < 16 ==> #[trigger] payload[i][b] == 2
                &&& era == payload[i][16] * 0x100_0000_0000_0000 + payload[i][17]
                    * 0x1_0000_0000_0000 + payload[i][18] * 0x100_0000_0000 + payload[i][19]
                    * 0x1_0000_0000 + payload[i][20] * 0x100_0000 + payload[i][21] * 0x1_0000
                    + payload[i][22] * 0x100 + payload[i][23]
                &&& forall|j: int|
                    #![trigger payload[j]]
                    0 <= j < i ==> !(payload[j].len() >= 16 && forall|b: int|
                        0 <= b < 16 ==> #[trigger] payload[j][b] == 2)
            },
{
    let p = |i: int| certificate::is_cert(payload[i]);
    model::lemma_first_where(p, 0, payload.len() as int);
    let first = model::first_cert(payload);
    let names_era = |i: int|
        era == payload[i][16] * 0x100_0000_0000_0000 + payload[i][17] * 0x1_0000_0000_0000
            + payload[i][18] * 0x100_0000_0000 + payload[i][19] * 0x1_0000_0000 + payload[i][20]
            * 0x100_0000 + payload[i][21] * 0x1_0000 + payload[i][22] * 0x100 + payload[i][23];
    let leads = |i: int|
        {
            &&& 0 <= i < payload.len()
            &&& forall|b: int| 0 <= b < 16 ==> #[trigger] payload[i][b] == 2
            &&& forall|j: int|
                #![trigger payload[j]]
                0 <= j < i ==> !(payload[j].len() >= 16 && forall|b: int|
                        0 <= b < 16 ==> #[trigger] payload[j][b] == 2)
        };
    assert forall|i: int| #[trigger] leads(i) implies i == first by {
        assert(payload[i].len() == 32);
        assert(p(i));
        if first < i {
            assert(p(first));
            assert(payload[first].len() == 32);
        }
    }
    if first < payload.len() {
        assert(p(first));
        assert(payload[first].len() == 32);
        law_what_a_certificate_names(payload[first]);
        assert forall|j: int|
            #![trigger payload[j]]
            0 <= j < first implies !(payload[j].len() >= 16 && forall|b: int|
            0 <= b < 16 ==> #[trigger] payload[j][b] == 2) by {
            assert(!p(j));
        }
        assert(leads(first));
        assert(model::ends_era(payload, era) == names_era(first));
    }
    assert forall|i: int|
        #![trigger payload[i]]
        leads(i) && names_era(i) implies model::ends_era(payload, era) by {
        assert(i == first);
    }
}

/// A block without certificates ends no era.
pub proof fn law_no_certificate_ends_nothing(payload: Seq<Seq<u8>>, era: nat)
    requires
        forall|i: int|
            #![trigger payload[i]]
            0 <= i < payload.len() ==> !(payload[i].len() >= 16 && forall|b: int|
                0 <= b < 16 ==> #[trigger] payload[i][b] == 2),
    ensures
        !model::ends_era(payload, era),
{
    let p = |i: int| certificate::is_cert(payload[i]);
    model::lemma_first_where(p, 0, payload.len() as int);
    let first = model::first_cert(payload);
    if first < payload.len() {
        assert(p(first));
    }
}

/// What the recovery state has done when it stops looking: it has moved on
/// over blocks that do not end the era and, if there is one, over the first
/// that does; if there is none, over all. Nothing else has changed.
pub proof fn law_what_the_recovery_state_looks_at(m: Model)
    requires
        m.l <= m.vaba.len(),
    ensures
        ({
            let (after, found) = model::scan_recovery(m);
            &&& after.name == m.name && after.era == m.era && after.k_voted == m.k_voted
            &&& after.state == m.state && after.main == m.main && after.vaba == m.vaba
            &&& m.l <= after.l <= m.vaba.len()
            &&& forall|j: int|
                #![trigger m.vaba[j]]
                m.l <= j < after.l - (if found { 1int } else { 0int }) ==> !model::ends_era(
                    m.vaba[j].payload,
                    m.era,
                )
            &&& found ==> m.l < after.l && model::ends_era(m.vaba[after.l - 1].payload, m.era)
            &&& !found ==> after.l == m.vaba.len()
        }),
{
    let p = model::ends_recovery(m);
    model::lemma_first_where(p, m.l as int, m.vaba.len() as int);
    let stop = model::recovery_stop(m);
    assert forall|j: int| #![trigger m.vaba[j]] m.l <= j < stop implies !model::ends_era(
        m.vaba[j].payload,
        m.era,
    ) by {
        assert(!p(j));
    }
    if stop < m.vaba.len() {
        assert(p(stop));
    }
}

/// In the recovery state, a block without certificates changes nothing but
/// the position and what has been voted on: the recovery and the era go on, and
/// Jolteon stands still.
pub proof fn law_recovery_goes_on_without_certificate(m: Model, block: Block)
    requires
        laws::settled(m),
        m.state is Recovery,
        forall|i: int|
            #![trigger block.payload@[i]]
            0 <= i < block.payload@.len() ==> exists|b: int|
                0 <= b < 16 && #[trigger] block.payload@[i].0@[b] != 2,
    ensures
        ({
            let (after, actions) = model::step(m, Input::Event(Event::VabaOut(block)));
            &&& after.state is Recovery
            &&& after.era == m.era
            &&& after.l == m.vaba.len() + 1
            &&& actions.len() == 1
            &&& actions[0] == ActionView::CastVotes(model::votes(m))
        }),
{
    let payload = block@.payload;
    assert forall|i: int|
        #![trigger payload[i]]
        0 <= i < payload.len() implies !(payload[i].len() >= 16 && forall|b: int|
        0 <= b < 16 ==> #[trigger] payload[i][b] == 2) by {
        let b = choose|b: int| 0 <= b < 16 && #[trigger] block.payload@[i].0@[b] != 2;
        assert(payload[i][b] != 2);
    }
    law_no_certificate_ends_nothing(payload, m.era);
    laws::law_when_recovery_ends(m, block);
}

/// What the report that the votes are enough calls for is one certificate, and
/// it names the era and the index of the vote. What any other report calls for
/// is no certificate.
pub proof fn law_certificate_of_a_vote(vote: RecoveryVote, progress: VoteProgress)
    ensures
        ({
            let actions = model::on_vote(vote@, progress);
            match progress {
                VoteProgress::Received => actions.len() == 1 && actions[0]
                    == ActionView::VerifyVote(vote@),
                VoteProgress::Verified(valid) => if valid {
                    actions.len() == 1 && actions[0] == ActionView::AggregateVote(vote@)
                } else {
                    actions.len() == 0
                },
                VoteProgress::Aggregated(enough) => if enough {
                    &&& actions.len() == 1
                    &&& actions[0] matches ActionView::SendCertificate(c)
                    &&& c.len() == 32
                    &&& forall|i: int| 0 <= i < 16 ==> #[trigger] c[i] == 2
                    &&& vote.era == c[16] * 0x100_0000_0000_0000 + c[17] * 0x1_0000_0000_0000
                        + c[18] * 0x100_0000_0000 + c[19] * 0x1_0000_0000 + c[20] * 0x100_0000
                        + c[21] * 0x1_0000 + c[22] * 0x100 + c[23]
                    &&& vote.index == c[24] * 0x100_0000_0000_0000 + c[25] * 0x1_0000_0000_0000
                        + c[26] * 0x100_0000_0000 + c[27] * 0x1_0000_0000 + c[28] * 0x100_0000
                        + c[29] * 0x1_0000 + c[30] * 0x100 + c[31]
                } else {
                    actions.len() == 0
                },
            }
        }),
{
    law_how_a_certificate_is_made(vote.era, vote.index);
}

/// The certificate that enough votes of the current era give, once VABA
/// outputs it alone in a block, ends the recovery and begins the next era; one
/// that votes of another era give does not.
pub proof fn law_votes_end_their_own_recovery(m: Model, vote: RecoveryVote, block: Block)
    requires
        laws::settled(m),
        m.state is Recovery,
        block.payload@.len() == 1,
        model::on_vote(vote@, VoteProgress::Aggregated(true))[0] == ActionView::SendCertificate(
            block.payload@[0].0@,
        ),
    ensures
        ({
            let (after, actions) = model::step(m, Input::Event(Event::VabaOut(block)));
            if vote.era == m.era {
                &&& after.state is Steady
                &&& after.era == m.era + 1
                &&& actions.len() == 2
                &&& actions[1] is StopStart
            } else {
                &&& after.state is Recovery
                &&& after.era == m.era
                &&& actions.len() == 1
            }
        }),
{
    let payload = block@.payload;
    let c = payload[0];
    assert(c == block.payload@[0].0@);
    law_certificate_of_a_vote(vote, VoteProgress::Aggregated(true));
    law_what_ends_an_era(payload, m.era);
    laws::law_when_recovery_ends(m, block);
}

// ---- Votes ----

/// The votes cast, in full: there is one for each position of the main chain
/// whose block has a certificate of the current era and of a round from where
/// votes were last cast up to the length of the chain. They come in order of
/// these rounds, ties in the order of the chain, and each is made of the era,
/// the round and the certificate of its block, and the name of this node.
pub proof fn law_which_votes_are_cast(m: Model) -> (positions: Seq<int>)
    ensures
        positions.len() == model::votes(m).len(),
        forall|k: int|
            #![trigger positions[k]]
            #![trigger model::votes(m)[k]]
            0 <= k < positions.len() ==> {
                let b = m.main[positions[k]];
                let v = model::votes(m)[k];
                &&& 0 <= positions[k] < m.main.len()
                &&& b.qc.view == m.era
                &&& m.k_voted <= b.qc.round < m.main.len()
                &&& v.era == m.era
                &&& v.index == b.round
                &&& v.qc == b.qc
                &&& v.author == m.name
            },
        forall|p: int|
            #![trigger m.main[p]]
            0 <= p < m.main.len() && m.main[p].qc.view == m.era && m.k_voted
                <= m.main[p].qc.round < m.main.len() ==> exists|k: int|
                0 <= k < positions.len() && #[trigger] positions[k] == p,
        forall|a: int, b: int|
            #![trigger positions[a], positions[b]]
            0 <= a < b < positions.len() ==> m.main[positions[a]].qc.round
                < m.main[positions[b]].qc.round || m.main[positions[a]].qc.round
                == m.main[positions[b]].qc.round && positions[a] < positions[b],
{
    let positions = call_laws::voted_positions(m);
    call_laws::law_one_vote_per_position(m);
    assert forall|k: int|
        #![trigger positions[k]]
        #![trigger model::votes(m)[k]]
        0 <= k < positions.len() implies {
        let b = m.main[positions[k]];
        let v = model::votes(m)[k];
        &&& 0 <= positions[k] < m.main.len()
        &&& b.qc.view == m.era
        &&& m.k_voted <= b.qc.round < m.main.len()
        &&& v.era == m.era
        &&& v.index == b.round
        &&& v.qc == b.qc
        &&& v.author == m.name
    } by {
        assert(positions.contains(positions[k]));
    }
    assert forall|p: int|
        #![trigger m.main[p]]
        0 <= p < m.main.len() && m.main[p].qc.view == m.era && m.k_voted <= m.main[p].qc.round
            < m.main.len() implies exists|k: int|
        0 <= k < positions.len() && #[trigger] positions[k] == p by {
        assert(laws::due(m, m.main[p]));
        assert(positions.contains(p));
    }
    assert forall|a: int, b: int|
        #![trigger positions[a], positions[b]]
        0 <= a < b < positions.len() implies m.main[positions[a]].qc.round
        < m.main[positions[b]].qc.round || m.main[positions[a]].qc.round
        == m.main[positions[b]].qc.round && positions[a] < positions[b] by {
        assert(call_laws::goes_before(m, positions[a], positions[b]));
    }
    positions
}

/// Casting votes is one action and changes nothing but how far votes have
/// been cast.
pub proof fn law_what_casting_votes_changes(m: Model)
    ensures
        ({
            let (after, actions) = model::cast_votes(m);
            &&& after.name == m.name && after.era == m.era && after.l == m.l
            &&& after.state == m.state && after.main == m.main && after.vaba == m.vaba
            &&& after.k_voted == m.main.len()
            &&& actions.len() == 1
            &&& actions[0] == ActionView::CastVotes(model::votes(m))
        }),
{
}

/// Each signed vote is sent to all other nodes as a recovery message, directly
/// followed by its verification.
pub proof fn law_signed_votes_are_sent(votes: Seq<RecoveryVoteView>, i: int)
    requires
        0 <= i < votes.len(),
    ensures
        model::on_signed(votes).len() == 2 * votes.len(),
        model::on_signed(votes)[2 * i] == ActionView::Broadcast(MessageView::Recovery(votes[i])),
        model::on_signed(votes)[2 * i + 1] == ActionView::VerifyVote(votes[i]),
{
    assert((2 * i) / 2 == i && (2 * i) % 2 == 0);
    assert((2 * i + 1) / 2 == i && (2 * i + 1) % 2 == 1);
}

/// All that is done about an own vote, case by case.
pub proof fn law_an_own_vote_in_full(vote: RecoveryVoteView, valid: bool, enough: bool)
    ensures
        ({
            let all = agenda::own_vote(vote, valid, enough);
            &&& all.len() == if !valid {
                2int
            } else if !enough {
                3int
            } else {
                4int
            }
            &&& all[0] == ActionView::Broadcast(MessageView::Recovery(vote))
            &&& all[1] == ActionView::VerifyVote(vote)
            &&& valid ==> all[2] == ActionView::AggregateVote(vote)
            &&& valid && enough ==> all[3] == ActionView::SendCertificate(
                certificate::certificate(vote.era, vote.index),
            )
        }),
{
}

// ---- Messages ----

/// A message goes to the protocol that its kind is for, unchanged and once,
/// whatever its content. A loopback, a recovery vote and any other message go
/// to neither.
pub proof fn law_where_messages_go(message: ConsensusMessage)
    ensures
        ({
            let actions = model::forwarded(message);
            match message {
                ConsensusMessage::ProposeJolteon(_)
                | ConsensusMessage::VoteJolteon(_)
                | ConsensusMessage::TimeoutJolteon(_)
                | ConsensusMessage::TCJolteon(_)
                | ConsensusMessage::SignedQCJolteon(_)
                | ConsensusMessage::RandomnessShareJolteon(_)
                | ConsensusMessage::RandomCoinJolteon(_)
                | ConsensusMessage::SyncRequestJolteon(_, _)
                | ConsensusMessage::SyncReplyJolteon(_) => actions.len() == 1 && actions[0]
                    == ActionView::Forward(SubProto::Jolteon, message),
                ConsensusMessage::ProposeVaba(_)
                | ConsensusMessage::VoteVaba(_)
                | ConsensusMessage::TimeoutVaba(_)
                | ConsensusMessage::TCVaba(_)
                | ConsensusMessage::SignedQCVaba(_)
                | ConsensusMessage::RandomnessShareVaba(_)
                | ConsensusMessage::RandomCoinVaba(_)
                | ConsensusMessage::SyncRequestVaba(_, _)
                | ConsensusMessage::SyncReplyVaba(_) => actions.len() == 1 && actions[0]
                    == ActionView::Forward(SubProto::Vaba, message),
                ConsensusMessage::LoopBack(_)
                | ConsensusMessage::Recovery(_)
                | ConsensusMessage::Other(_) => actions.len() == 0,
            }
        }),
{
}

/// A message from the network is forwarded, unless it is a recovery vote,
/// which is verified.
pub proof fn law_what_messages_call_for(message: ConsensusMessage)
    ensures
        match message {
            ConsensusMessage::Recovery(vote) => model::on_message(message).len() == 1
                && model::on_message(message)[0] == ActionView::VerifyVote(vote@),
            _ => model::on_message(message) == model::forwarded(message),
        },
{
}

// ---- Steps ----

/// Each input goes to the operation for it. Messages and news of votes leave
/// the state as it is.
pub proof fn law_what_a_step_does(m: Model, input: Input)
    ensures
        ({
            let (after, actions) = model::step(m, input);
            match input {
                Input::Message(message) => after == m && actions == model::on_message(message),
                Input::Vote(vote, progress) => after == m && actions == model::on_vote(
                    vote@,
                    progress,
                ),
                Input::Signed(votes) => after == m && actions == model::on_signed(
                    types::votes_view(votes@),
                ),
                Input::Blocks(blocks) => (after, actions) == model::on_blocks(
                    m,
                    types::blocks_view(blocks@),
                ),
                Input::Event(event) => (after, actions) == model::on_event(m, event),
            }
        }),
{
}

/// Committed blocks come to stand at the end of the main chain, the one at
/// the back first, and call for nothing.
pub proof fn law_where_committed_blocks_go(m: Model, blocks: Seq<BlockView>, i: int)
    requires
        laws::settled(m),
    ensures
        ({
            let (after, actions) = model::on_blocks(m, blocks);
            &&& actions.len() == 0
            &&& after.name == m.name && after.era == m.era && after.l == m.l
            &&& after.k_voted == m.k_voted && after.state == m.state && after.vaba == m.vaba
            &&& after.main.len() == m.main.len() + blocks.len()
            &&& 0 <= i < m.main.len() ==> after.main[i] == m.main[i]
            &&& 0 <= i < blocks.len() ==> after.main[m.main.len() + i] == blocks[blocks.len() - 1
                - i]
        }),
{
    laws::law_blocks_only_extend_the_main_chain(m, blocks);
}

/// Notifications other than the output of VABA leave everything as it is.
pub proof fn law_what_other_notifications_do(m: Model)
    requires
        laws::settled(m),
    ensures
        forall|event: Event|
            event is Vote || event is Lock || event is Advance ==> (#[trigger] model::on_event(
                m,
                event,
            )).0 == m && model::on_event(m, event).1.len() == 0,
{
    assert forall|event: Event|
        event is Vote || event is Lock || event is Advance implies (#[trigger] model::on_event(
        m,
        event,
    )).0 == m && model::on_event(m, event).1.len() == 0 by {
        laws::law_other_notifications_are_quiet(m, event);
    }
}

/// Taking in blocks and notifications, in any state. Committed blocks are
/// appended and the steady state resolves. A block that VABA outputs is appended
/// and the state of the moment resolves, the recovery state after casting votes.
/// Of other notifications the recovery state takes none.
pub proof fn law_how_inputs_are_taken(m: Model, blocks: Seq<BlockView>, event: Event)
    ensures
        model::on_blocks(m, blocks) == model::resolve_steady(
            Model { main: m.main + blocks.reverse(), ..m },
        ),
        event matches Event::VabaOut(block) ==> m.state is Steady ==> model::on_event(m, event)
            == model::resolve_steady(Model { vaba: m.vaba.push(block@), ..m }),
        event matches Event::VabaOut(block) ==> m.state is Recovery ==> {
            let (after, actions) = model::on_event(m, event);
            let (resolved, then_done) = model::resolve_recovery(
                Model { vaba: m.vaba.push(block@), k_voted: m.main.len(), ..m },
            );
            &&& after == resolved
            &&& actions.len() == then_done.len() + 1
            &&& actions[0] == ActionView::CastVotes(model::votes(m))
            &&& forall|i: int| 0 <= i < then_done.len() ==> #[trigger] actions[i + 1]
                == then_done[i]
        },
        !(event is VabaOut) && m.state is Steady ==> model::on_event(m, event)
            == model::resolve_steady(m),
        !(event is VabaOut) && m.state is Recovery ==> model::on_event(m, event).0 == m
            && model::on_event(m, event).1.len() == 0,
{
    if let Event::VabaOut(block) = event {
        laws::lemma_same_votes(m, Model { vaba: m.vaba.push(block@), ..m });
    }
}

/// Resolving in the steady state, in any state: nothing beyond looking if no
/// block calls for recovery; otherwise the recovery state is entered.
pub proof fn law_how_steady_resolves(m: Model)
    requires
        m.l <= m.vaba.len(),
    ensures
        ({
            let (scanned, late) = model::scan_steady(m);
            let (after, actions) = model::resolve_steady(m);
            if late {
                (after, actions) == model::enter_recovery(scanned)
            } else {
                after == scanned && actions.len() == 0
            }
        }),
{
}

/// Entering the recovery state, in any state: Jolteon is stopped first, then
/// votes are cast, then comes what resolving calls for.
pub proof fn law_how_recovery_is_entered(m: Model)
    requires
        m.l <= m.vaba.len(),
    ensures
        ({
            let (after, actions) = model::enter_recovery(m);
            let recovering = Model { state: State::Recovery, k_voted: m.main.len(), ..m };
            let (resolved, then_done) = model::resolve_recovery(recovering);
            &&& after == resolved
            &&& actions.len() == then_done.len() + 2
            &&& actions[0] is StopStart
            &&& actions[1] == ActionView::CastVotes(model::votes(m))
            &&& forall|i: int| 0 <= i < then_done.len() ==> #[trigger] actions[i + 2]
                == then_done[i]
        }),
{
    laws::lemma_same_votes(m, Model { state: State::Recovery, ..m });
}

/// Resolving in the recovery state, in any state: nothing beyond looking if no
/// block ends the era; otherwise the steady state is entered.
pub proof fn law_how_recovery_resolves(m: Model)
    requires
        m.l <= m.vaba.len(),
    ensures
        ({
            let (scanned, found) = model::scan_recovery(m);
            let (after, actions) = model::resolve_recovery(m);
            if found {
                (after, actions) == model::enter_steady(scanned)
            } else {
                after == scanned && actions.len() == 0
            }
        }),
{
}

/// Entering the steady state, in any state: the era is the next one, and
/// Jolteon is started last, after all that resolving calls for.
pub proof fn law_how_steady_is_entered(m: Model)
    requires
        m.l <= m.vaba.len(),
    ensures
        ({
            let (after, actions) = model::enter_steady(m);
            let (resolved, done) = model::resolve_steady(
                Model { era: m.era + 1, state: State::Steady, ..m },
            );
            &&& after == resolved
            &&& actions.len() == done.len() + 1
            &&& forall|i: int| 0 <= i < done.len() ==> #[trigger] actions[i] == done[i]
            &&& actions[actions.len() - 1] is StopStart
        }),
{
}

// ---- The log ----

/// There is one text for each digest, in order.
pub proof fn law_one_text_per_digest(digests: Seq<Seq<u8>>, strings: Seq<String>, i: int)
    ensures
        benchmark::texts(digests).len() == digests.len(),
        0 <= i < digests.len() ==> benchmark::texts(digests)[i] == benchmark::base64_text(
            digests[i],
        ),
        benchmark::strings_view(strings).len() == strings.len(),
        0 <= i < strings.len() ==> benchmark::strings_view(strings)[i] == strings[i]@,
{
}

} // verus!
