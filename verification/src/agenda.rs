use crate::certificate;
use crate::model;
use crate::types;
use crate::types::{Action, ActionView, MessageView, RecoveryVoteView, VoteProgress};
use std::collections::VecDeque;
use vstd::prelude::*;

verus! {

/// The actions that are still to be performed, the next one first.
#[derive(Debug)]
pub struct Agenda {
    actions: VecDeque<Action>,
}

impl View for Agenda {
    type V = Seq<ActionView>;

    closed spec fn view(&self) -> Seq<ActionView> {
        types::actions_view(self.actions@)
    }
}

impl Agenda {
    /// An agenda with nothing on it.
    pub fn new() -> (agenda: Agenda)
        ensures
            agenda@ == Seq::<ActionView>::empty(),
    {
        let agenda = Agenda { actions: VecDeque::new() };
        assert(agenda@ =~= Seq::empty());
        agenda
    }

    /// Takes the next action off the agenda.
    pub fn next(&mut self) -> (action: Option<Action>)
        ensures
            match action {
                Some(a) => {
                    &&& old(self)@.len() > 0
                    &&& a@ == old(self)@.first()
                    &&& final(self)@ == old(self)@.drop_first()
                },
                None => old(self)@.len() == 0 && final(self)@ == old(self)@,
            },
    {
        let ghost before = self@;
        let action = self.actions.pop_front();
        assert(action is Some ==> self@ =~= before.drop_first());
        assert(action is None ==> self@ =~= before);
        action
    }

    /// Puts what the last action has called for before everything else.
    pub fn prepend(&mut self, actions: Vec<Action>)
        ensures
            final(self)@ == types::actions_view(actions@) + old(self)@,
    {
        let ghost given = types::actions_view(actions@);
        let ghost before = self@;
        let mut left = actions;
        assert(given + before =~= types::actions_view(left@) + self@);
        while left.len() > 0
            invariant
                given + before == types::actions_view(left@) + self@,
            decreases left@.len(),
        {
            let ghost waiting = left@;
            let ghost after = self@;
            if let Some(action) = left.pop() {
                self.actions.push_front(action);
                assert(types::actions_view(waiting) + after =~= types::actions_view(left@) + self@);
            }
        }
        assert(types::actions_view(left@) + self@ =~= self@);
    }
}

/// What the report on a performed action calls for, `outcome` being the report
/// on a vote. Other actions are not reported on.
pub open spec fn follow_up(action: ActionView, outcome: bool) -> Seq<ActionView> {
    match action {
        ActionView::VerifyVote(vote) => model::on_vote(vote, VoteProgress::Verified(outcome)),
        ActionView::AggregateVote(vote) => model::on_vote(vote, VoteProgress::Aggregated(outcome)),
        _ => Seq::empty(),
    }
}

/// What is performed from `agenda`, one action for each of `outcomes`, and what
/// is then left: each action is taken off the front, and what it calls for is
/// put there.
pub open spec fn performed(agenda: Seq<ActionView>, outcomes: Seq<bool>) -> (
    Seq<ActionView>,
    Seq<ActionView>,
)
    decreases outcomes.len(),
{
    if agenda.len() == 0 || outcomes.len() == 0 {
        (Seq::empty(), agenda)
    } else {
        let (done, left) = performed(
            follow_up(agenda.first(), outcomes.first()) + agenda.drop_first(),
            outcomes.drop_first(),
        );
        (seq![agenda.first()] + done, left)
    }
}

/// All that is done about an own vote: it is sent, verified, counted if it is
/// `valid`, and its certificate submitted if the votes are then `enough`.
pub open spec fn own_vote(vote: RecoveryVoteView, valid: bool, enough: bool) -> Seq<ActionView> {
    seq![ActionView::Broadcast(MessageView::Recovery(vote))] + model::on_vote(
        vote,
        VoteProgress::Received,
    ) + model::on_vote(vote, VoteProgress::Verified(valid)) + if valid {
        model::on_vote(vote, VoteProgress::Aggregated(enough))
    } else {
        Seq::empty()
    }
}

/// The reports on the actions of [`own_vote`].
pub open spec fn own_outcomes(valid: bool, enough: bool) -> Seq<bool> {
    if !valid {
        seq![true, false]
    } else if !enough {
        seq![true, true, false]
    } else {
        seq![true, true, true, true]
    }
}

/// All that is done about own votes, one after the other.
pub open spec fn own_votes(
    votes: Seq<RecoveryVoteView>,
    valid: Seq<bool>,
    enough: Seq<bool>,
) -> Seq<ActionView>
    decreases votes.len(),
{
    if votes.len() == 0 {
        Seq::empty()
    } else {
        own_vote(votes[0], valid[0], enough[0]) + own_votes(
            votes.drop_first(),
            valid.drop_first(),
            enough.drop_first(),
        )
    }
}

/// The reports on the actions of [`own_votes`].
pub open spec fn all_outcomes(valid: Seq<bool>, enough: Seq<bool>) -> Seq<bool>
    decreases valid.len(),
{
    if valid.len() == 0 {
        Seq::empty()
    } else {
        own_outcomes(valid[0], enough[0]) + all_outcomes(valid.drop_first(), enough.drop_first())
    }
}

proof fn lemma_performed_step(
    action: ActionView,
    agenda: Seq<ActionView>,
    outcome: bool,
    outcomes: Seq<bool>,
)
    ensures
        ({
            let (done, left) = performed(follow_up(action, outcome) + agenda, outcomes);
            performed(seq![action] + agenda, seq![outcome] + outcomes) == (
                seq![action] + done,
                left,
            )
        }),
{
    let all = seq![action] + agenda;
    assert(all.drop_first() =~= agenda);
    assert((seq![outcome] + outcomes).drop_first() =~= outcomes);
}

proof fn lemma_own_vote(
    vote: RecoveryVoteView,
    valid: bool,
    enough: bool,
    rest: Seq<ActionView>,
    outcomes: Seq<bool>,
)
    ensures
        ({
            let sent = ActionView::Broadcast(MessageView::Recovery(vote));
            let (done, left) = performed(rest, outcomes);
            performed(
                seq![sent, ActionView::VerifyVote(vote)] + rest,
                own_outcomes(valid, enough) + outcomes,
            ) == (own_vote(vote, valid, enough) + done, left)
        }),
{
    let sent = ActionView::Broadcast(MessageView::Recovery(vote));
    let verify = ActionView::VerifyVote(vote);
    let count = ActionView::AggregateVote(vote);
    let submit = ActionView::SendCertificate(
        certificate::certificate(vote.era, vote.index),
    );
    let none = Seq::<ActionView>::empty();
    let (done, left) = performed(rest, outcomes);
    assert(none + rest =~= rest);

    let o3 = seq![true] + outcomes;
    lemma_performed_step(submit, rest, true, outcomes);

    let o2 = if enough { seq![true] + o3 } else { seq![false] + outcomes };
    if enough {
        lemma_performed_step(count, rest, true, o3);
    } else {
        lemma_performed_step(count, rest, false, outcomes);
    }

    let o1 = if valid { seq![true] + o2 } else { seq![false] + outcomes };
    if valid {
        lemma_performed_step(verify, rest, true, o2);
    } else {
        lemma_performed_step(verify, rest, false, outcomes);
    }

    lemma_performed_step(sent, seq![verify] + rest, true, o1);
    assert(none + (seq![verify] + rest) =~= seq![verify] + rest);
    assert(seq![sent] + (seq![verify] + rest) =~= seq![sent, verify] + rest);
    assert(own_outcomes(valid, enough) + outcomes =~= seq![true] + o1);
    let whole = performed(
        seq![sent, verify] + rest,
        own_outcomes(valid, enough) + outcomes,
    );
    assert(whole.0 =~= own_vote(vote, valid, enough) + done);
}

/// The signed votes of this node go out one after the other, in order, each
/// once and to all other nodes, and each is handled to the end before the next
/// goes out; only then comes what was on the agenda before. This holds whatever
/// the verification of each vote and the count of the votes give.
pub proof fn law_own_votes_go_out_one_by_one(
    votes: Seq<RecoveryVoteView>,
    valid: Seq<bool>,
    enough: Seq<bool>,
    rest: Seq<ActionView>,
)
    requires
        votes.len() == valid.len() == enough.len(),
    ensures
        performed(model::on_signed(votes) + rest, all_outcomes(valid, enough)) == (
            own_votes(votes, valid, enough),
            rest,
        ),
    decreases votes.len(),
{
    if votes.len() == 0 {
        assert(model::on_signed(votes) + rest =~= rest);
    } else {
        let later = model::on_signed(votes.drop_first());
        let first = seq![
            ActionView::Broadcast(MessageView::Recovery(votes[0])),
            ActionView::VerifyVote(votes[0]),
        ];
        assert(model::on_signed(votes) + rest =~= first + (later + rest)) by {
            assert forall|k: int| 0 <= k < later.len() implies #[trigger] later[k]
                == model::on_signed(votes)[k + 2] by {
                assert((k + 2) / 2 == k / 2 + 1);
                assert((k + 2) % 2 == k % 2);
            }
        }
        law_own_votes_go_out_one_by_one(
            votes.drop_first(),
            valid.drop_first(),
            enough.drop_first(),
            rest,
        );
        lemma_own_vote(
            votes[0],
            valid[0],
            enough[0],
            later + rest,
            all_outcomes(valid.drop_first(), enough.drop_first()),
        );
    }
}

} // verus!
