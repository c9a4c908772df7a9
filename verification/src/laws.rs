use crate::certificate;
use crate::model;
use crate::model::{Model, LOOPBACK};
use crate::types::{ActionView, Block, BlockView, Event, Input, State, VoteRequestView};
use vstd::prelude::*;

verus! {

/// Whether the state has nothing left to resolve: the recovery state has
/// looked at every block of the VABA chain, and the steady state at every
/// block that it can get past.
pub open spec fn settled(m: Model) -> bool {
    &&& m.wf()
    &&& m.state is Recovery ==> m.l == m.vaba.len()
    &&& m.state is Steady ==> model::scan_steady(m) == (m, false)
}

proof fn lemma_resolve_steady_settles(m: Model)
    requires
        m.wf(),
        m.state is Steady,
    ensures
        settled(model::resolve_steady(m).0),
    decreases m.vaba.len() - m.l, 0int,
{
    model::lemma_scan_steady(m);
    let (scanned, late) = model::scan_steady(m);
    if late {
        let voted = model::cast_votes(Model { state: State::Recovery, ..scanned }).0;
        lemma_resolve_recovery_settles(voted);
    } else {
        let stop = model::steady_stop(m);
        model::lemma_first_where(model::holds_up(m), m.l as int, model::steady_end(m));
        assert(model::steady_end(scanned) == model::steady_end(m));
        if stop < model::steady_end(m) {
            assert(model::holds_up(m)(stop));
            assert(model::holds_up(scanned)(stop));
        }
        assert(model::steady_stop(scanned) == stop);
        assert(model::scan_steady(scanned).0 =~= scanned);
    }
}

proof fn lemma_resolve_recovery_settles(m: Model)
    requires
        m.wf(),
        m.state is Recovery,
    ensures
        settled(model::resolve_recovery(m).0),
    decreases m.vaba.len() - m.l, 2int,
{
    model::lemma_scan_recovery(m);
    let (scanned, found) = model::scan_recovery(m);
    if found {
        lemma_resolve_steady_settles(
            Model { era: scanned.era + 1, state: State::Steady, ..scanned },
        );
    } else {
        model::lemma_first_where(
            model::ends_recovery(m),
            m.l as int,
            m.vaba.len() as int,
        );
    }
}

/// With fewer blocks ahead than the steady state waits for, nothing is to be
/// resolved.
proof fn lemma_nothing_due(m: Model)
    requires
        m.vaba.len() < m.l + LOOPBACK,
    ensures
        model::resolve_steady(m) == (m, Seq::<ActionView>::empty()),
{
    assert(model::scan_steady(m).0 =~= m);
}

/// Committed blocks extend the main chain, the one at the back first, and do
/// nothing else.
pub proof fn law_blocks_only_extend_the_main_chain(m: Model, blocks: Seq<BlockView>)
    requires
        settled(m),
    ensures
        model::on_blocks(m, blocks) == (
            Model { main: m.main + blocks.reverse(), ..m },
            Seq::<ActionView>::empty(),
        ),
{
    let grown = Model { main: m.main + blocks.reverse(), ..m };
    if m.vaba.len() < m.l + LOOPBACK {
        lemma_nothing_due(grown);
    } else {
        let at = m.l as int;
        model::lemma_first_where(model::holds_up(m), at, model::steady_end(m));
        assert(model::steady_stop(m) == at);
        assert(model::holds_up(m)(at));
        assert(model::verdict(m.main, m.vaba[at].payload) is Stalled);
        assert(model::holds_up(grown)(at));
        assert(model::steady_stop(grown) == at);
        assert(model::scan_steady(grown).0 =~= grown);
    }
}

/// Notifications other than the output of VABA change nothing and call for
/// nothing.
pub proof fn law_other_notifications_are_quiet(m: Model, event: Event)
    requires
        settled(m),
        !(event is VabaOut),
    ensures
        model::on_event(m, event) == (m, Seq::<ActionView>::empty()),
{
}

/// Each step leaves a settled state settled.
pub proof fn law_steps_settle(m: Model, input: Input)
    requires
        settled(m),
    ensures
        settled(model::step(m, input).0),
{
    match input {
        Input::Blocks(blocks) => {
            let taken = crate::types::blocks_view(blocks@);
            law_blocks_only_extend_the_main_chain(m, taken);
            if m.state is Steady {
                lemma_resolve_steady_settles(Model { main: m.main + taken.reverse(), ..m });
            }
        },
        Input::Event(Event::VabaOut(block)) => {
            let grown = Model { vaba: m.vaba.push(block@), ..m };
            if m.state is Steady {
                lemma_resolve_steady_settles(grown);
            } else {
                lemma_resolve_recovery_settles(model::cast_votes(grown).0);
            }
        },
        Input::Event(event) => {
            law_other_notifications_are_quiet(m, event);
        },
        _ => {},
    }
}

/// So does any number of steps.
pub proof fn law_runs_settle(m: Model, inputs: Seq<Input>)
    requires
        settled(m),
    ensures
        settled(model::run(m, inputs)),
    decreases inputs.len(),
{
    if inputs.len() > 0 {
        law_runs_settle(m, inputs.drop_last());
        law_steps_settle(model::run(m, inputs.drop_last()), inputs.last());
    }
}

/// Every state that any inputs lead to is settled. In particular the positions
/// lie within the chains, and no era is counted that no two blocks of the
/// VABA chain account for.
pub proof fn law_every_reachable_state_is_settled(name: Seq<u8>, inputs: Seq<Input>)
    ensures
        settled(model::run(model::initial(name), inputs)),
{
    let m = model::initial(name);
    assert(model::scan_steady(m).0 =~= m);
    law_runs_settle(m, inputs);
}

/// Whether `after` is `before` with steps taken: the chains have only been
/// appended to, the counters have not gone back, and the name is the same.
pub open spec fn extends(before: Model, after: Model) -> bool {
    &&& before.name == after.name
    &&& before.main.is_prefix_of(after.main)
    &&& before.vaba.is_prefix_of(after.vaba)
    &&& before.era <= after.era
    &&& before.l <= after.l
    &&& before.k_voted <= after.k_voted
}

proof fn lemma_resolve_steady_extends(m: Model)
    requires
        m.wf(),
    ensures
        ({
            let after = model::resolve_steady(m).0;
            &&& after == (Model {
                era: after.era,
                l: after.l,
                k_voted: after.k_voted,
                state: after.state,
                ..m
            })
            &&& extends(m, after)
            &&& after.wf()
        }),
    decreases m.vaba.len() - m.l, 0int,
{
    model::lemma_scan_steady(m);
    let (scanned, late) = model::scan_steady(m);
    if late {
        let voted = model::cast_votes(Model { state: State::Recovery, ..scanned }).0;
        lemma_resolve_recovery_extends(voted);
    }
}

proof fn lemma_resolve_recovery_extends(m: Model)
    requires
        m.wf(),
        m.state is Recovery,
    ensures
        ({
            let after = model::resolve_recovery(m).0;
            &&& after == (Model {
                era: after.era,
                l: after.l,
                k_voted: after.k_voted,
                state: after.state,
                ..m
            })
            &&& extends(m, after)
            &&& after.wf()
        }),
    decreases m.vaba.len() - m.l, 2int,
{
    model::lemma_scan_recovery(m);
    let (scanned, found) = model::scan_recovery(m);
    if found {
        lemma_resolve_steady_extends(
            Model { era: scanned.era + 1, state: State::Steady, ..scanned },
        );
    }
}

/// A step only appends to the chains and never takes a counter back. Blocks
/// from Jolteon are all that it appends to the main chain, and blocks from
/// VABA all that it appends to the VABA chain.
pub proof fn law_steps_extend(m: Model, input: Input)
    requires
        m.wf(),
    ensures
        extends(m, model::step(m, input).0),
        model::step(m, input).0.main == match input {
            Input::Blocks(blocks) => m.main + crate::types::blocks_view(blocks@).reverse(),
            _ => m.main,
        },
        model::step(m, input).0.vaba == match input {
            Input::Event(Event::VabaOut(block)) => m.vaba.push(block@),
            _ => m.vaba,
        },
        model::step(m, input).0.wf(),
{
    match input {
        Input::Blocks(blocks) => {
            let taken = crate::types::blocks_view(blocks@);
            lemma_resolve_steady_extends(Model { main: m.main + taken.reverse(), ..m });
        },
        Input::Event(Event::VabaOut(block)) => {
            let grown = Model { vaba: m.vaba.push(block@), ..m };
            if m.state is Steady {
                lemma_resolve_steady_extends(grown);
            } else {
                lemma_resolve_recovery_extends(model::cast_votes(grown).0);
            }
        },
        Input::Event(event) => {
            if m.state is Steady {
                lemma_resolve_steady_extends(m);
            }
        },
        _ => {},
    }
}

/// So do any number of steps.
pub proof fn law_runs_extend(m: Model, inputs: Seq<Input>)
    requires
        m.wf(),
    ensures
        extends(m, model::run(m, inputs)),
        model::run(m, inputs).wf(),
    decreases inputs.len(),
{
    if inputs.len() > 0 {
        law_runs_extend(m, inputs.drop_last());
        let before = model::run(m, inputs.drop_last());
        law_steps_extend(before, inputs.last());
        let after = model::run(m, inputs);
        assert forall|i: int| 0 <= i < m.main.len() implies m.main[i] == after.main[i] by {
            assert(m.main[i] == before.main[i]);
        }
        assert forall|i: int| 0 <= i < m.vaba.len() implies m.vaba[i] == after.vaba[i] by {
            assert(m.vaba[i] == before.vaba[i]);
        }
        assert(after.main.subrange(0, m.main.len() as int) =~= m.main);
        assert(after.vaba.subrange(0, m.vaba.len() as int) =~= m.vaba);
    }
}

/// What a transaction batch owes to the main chain it never owes again: once
/// certified it stays so, whatever is appended.
pub proof fn law_certified_stays_certified(
    main: Seq<BlockView>,
    more: Seq<BlockView>,
    tx: Seq<u8>,
)
    requires
        model::certified(main, tx),
    ensures
        model::certified(main + more, tx),
{
    let i = choose|i: int| 0 <= i < main.len() && (#[trigger] main[i]).payload.contains(tx);
    assert((main + more)[i].payload.contains(tx));
}

/// In the steady state, the output of VABA begins a recovery if and only if
/// the next block to look at now has enough blocks from it on and the main
/// chain lacks one of its transaction batches.
///
/// The recovery then ends at once if and only if one of the blocks behind it
/// ends the era. Either way no second recovery begins in the same step.
pub proof fn law_when_recovery_begins(m: Model, block: Block)
    requires
        settled(m),
        m.state is Steady,
    ensures
        ({
            let vaba = m.vaba.push(block@);
            let (after, actions) = model::on_event(m, Event::VabaOut(block));
            let late = vaba.len() >= m.l + LOOPBACK && model::verdict(
                m.main,
                vaba[m.l as int].payload,
            ) is Late;
            let ended = exists|j: int|
                m.l < j < vaba.len() && model::ends_era((#[trigger] vaba[j]).payload, m.era);
            let cast = ActionView::CastVotes(model::votes(m));
            &&& after.name == m.name && after.main == m.main && after.vaba == vaba
            &&& if !late {
                &&& after.state is Steady
                &&& after.era == m.era
                &&& after.l == if vaba.len() >= m.l + LOOPBACK && model::verdict(
                    m.main,
                    vaba[m.l as int].payload,
                ) is Passed {
                    m.l + 1
                } else {
                    m.l
                }
                &&& after.k_voted == m.k_voted
                &&& actions == Seq::<ActionView>::empty()
            } else if !ended {
                &&& after.state is Recovery
                &&& after.era == m.era
                &&& after.l == vaba.len()
                &&& after.k_voted == m.main.len()
                &&& actions == seq![ActionView::StopStart, cast]
            } else {
                &&& after.state is Steady
                &&& after.era == m.era + 1
                &&& m.l + 1 < after.l <= vaba.len()
                &&& model::ends_era(vaba[after.l - 1].payload, m.era)
                &&& forall|j: int|
                    #![trigger vaba[j]]
                    m.l < j < after.l - 1 ==> !model::ends_era(vaba[j].payload, m.era)
                &&& after.k_voted == m.main.len()
                &&& actions == seq![ActionView::StopStart, cast, ActionView::StopStart]
            }
        }),
{
    let grown = Model { vaba: m.vaba.push(block@), ..m };
    let (after, actions) = model::on_event(m, Event::VabaOut(block));
    let at = m.l as int;
    lemma_same_votes(m, grown);
    model::lemma_first_where(model::holds_up(m), at, model::steady_end(m));
    if grown.vaba.len() < grown.l + LOOPBACK {
        lemma_nothing_due(grown);
    } else {
        model::lemma_first_where(model::holds_up(grown), at, model::steady_end(grown));
        let v = model::verdict(m.main, grown.vaba[at].payload);
        assert(model::holds_up(grown)(at) == !(v is Passed));
        if m.vaba.len() >= m.l + LOOPBACK {
            assert(model::holds_up(m)(at));
            assert(v is Stalled);
            assert(model::steady_stop(grown) == at);
        } else {
            assert(model::steady_end(grown) == at + 1);
        }
        if v is Late {
            lemma_recovery_round(grown);
        }
    }
}

/// Recovery from a block that leaves too few behind it to begin another.
proof fn lemma_recovery_round(m: Model)
    requires
        m.wf(),
        m.state is Steady,
        m.vaba.len() == m.l + LOOPBACK,
        model::verdict(m.main, m.vaba[m.l as int].payload) is Late,
    ensures
        ({
            let (after, actions) = model::resolve_steady(m);
            let ended = exists|j: int|
                m.l < j < m.vaba.len() && model::ends_era((#[trigger] m.vaba[j]).payload, m.era);
            let cast = ActionView::CastVotes(model::votes(m));
            &&& after.name == m.name && after.main == m.main && after.vaba == m.vaba
            &&& after.k_voted == m.main.len()
            &&& if ended {
                &&& after.state is Steady
                &&& after.era == m.era + 1
                &&& m.l + 1 < after.l <= m.vaba.len()
                &&& model::ends_era(m.vaba[after.l - 1].payload, m.era)
                &&& forall|j: int|
                    #![trigger m.vaba[j]]
                    m.l < j < after.l - 1 ==> !model::ends_era(m.vaba[j].payload, m.era)
                &&& actions == seq![ActionView::StopStart, cast, ActionView::StopStart]
            } else {
                &&& after.state is Recovery
                &&& after.era == m.era
                &&& after.l == m.vaba.len()
                &&& actions == seq![ActionView::StopStart, cast]
            }
        }),
{
    let at = m.l as int;
    assert(model::holds_up(m)(at));
    let scanned = Model { l: m.l + 1, ..m };
    assert(model::scan_steady(m) == (scanned, true));
    let recovering = Model { state: State::Recovery, ..scanned };
    let (voted, cast) = model::cast_votes(recovering);
    lemma_same_votes(m, recovering);
    lemma_recovery_outcome(voted);
    let rest = model::resolve_recovery(voted).1;
    let (after, actions) = model::resolve_steady(m);
    assert(actions == seq![ActionView::StopStart] + cast + rest);
    assert(cast == seq![ActionView::CastVotes(model::votes(m))]);
}

pub proof fn lemma_same_votes(a: Model, b: Model)
    requires
        a.main == b.main,
        a.name == b.name,
        a.era == b.era,
        a.k_voted == b.k_voted,
    ensures
        model::votes(a) == model::votes(b),
{
    lemma_same_votes_between(a, b, a.k_voted, a.main.len());
}

proof fn lemma_same_votes_between(a: Model, b: Model, from: nat, to: nat)
    requires
        a.main == b.main,
        a.name == b.name,
        a.era == b.era,
    ensures
        model::votes_between(a, from, to) == model::votes_between(b, from, to),
    decreases to,
{
    if from < to {
        lemma_same_votes_between(a, b, from, (to - 1) as nat);
    }
}

/// Resolving in the recovery state when fewer blocks are left than a new
/// recovery needs.
proof fn lemma_recovery_outcome(m: Model)
    requires
        m.l <= m.vaba.len(),
        m.vaba.len() < m.l + LOOPBACK,
    ensures
        ({
            let (after, actions) = model::resolve_recovery(m);
            let ended = exists|j: int|
                m.l <= j < m.vaba.len() && model::ends_era((#[trigger] m.vaba[j]).payload, m.era);
            if ended {
                &&& m.l <= model::recovery_stop(m) < m.vaba.len()
                &&& model::ends_era(m.vaba[model::recovery_stop(m)].payload, m.era)
                &&& forall|j: int|
                    #![trigger m.vaba[j]]
                    m.l <= j < model::recovery_stop(m) ==> !model::ends_era(
                        m.vaba[j].payload,
                        m.era,
                    )
                &&& after == (Model {
                    era: m.era + 1,
                    state: State::Steady,
                    l: (model::recovery_stop(m) + 1) as nat,
                    ..m
                })
                &&& actions == seq![ActionView::StopStart]
            } else {
                &&& after == (Model { l: m.vaba.len(), ..m })
                &&& actions == Seq::<ActionView>::empty()
            }
        }),
{
    let p = model::ends_recovery(m);
    model::lemma_first_where(p, m.l as int, m.vaba.len() as int);
    let stop = model::recovery_stop(m);
    if stop < m.vaba.len() {
        assert(p(stop));
        assert(model::ends_era(m.vaba[stop].payload, m.era));
        assert forall|j: int| #![trigger m.vaba[j]] m.l <= j < stop implies !model::ends_era(
            m.vaba[j].payload,
            m.era,
        ) by {
            assert(!p(j));
        }
        let scanned = Model { l: (stop + 1) as nat, ..m };
        let steady = Model { era: m.era + 1, state: State::Steady, ..scanned };
        lemma_nothing_due(steady);
        assert(model::resolve_recovery(m).1 =~= seq![ActionView::StopStart]);
    } else {
        assert forall|j: int| m.l <= j < m.vaba.len() implies !model::ends_era(
            (#[trigger] m.vaba[j]).payload,
            m.era,
        ) by {
            assert(!p(j));
        }
    }
}

/// In the recovery state, the output of VABA casts the votes that are due. It
/// ends the recovery, begins the next era and starts Jolteon if and only if
/// the first certificate of the block names the current era.
pub proof fn law_when_recovery_ends(m: Model, block: Block)
    requires
        settled(m),
        m.state is Recovery,
    ensures
        ({
            let (after, actions) = model::on_event(m, Event::VabaOut(block));
            let cast = ActionView::CastVotes(model::votes(m));
            let vaba = m.vaba.push(block@);
            if model::ends_era(block@.payload, m.era) {
                &&& after == (Model {
                    era: m.era + 1,
                    state: State::Steady,
                    l: vaba.len(),
                    k_voted: m.main.len(),
                    vaba,
                    ..m
                })
                &&& actions == seq![cast, ActionView::StopStart]
            } else {
                &&& after == (Model { l: vaba.len(), k_voted: m.main.len(), vaba, ..m })
                &&& actions == seq![cast]
            }
        }),
{
    let grown = Model { vaba: m.vaba.push(block@), ..m };
    lemma_same_votes(m, grown);
    let (voted, cast) = model::cast_votes(grown);
    lemma_recovery_outcome(voted);
    let p = model::ends_recovery(voted);
    model::lemma_first_where(p, voted.l as int, voted.vaba.len() as int);
    let last = m.vaba.len() as int;
    assert(voted.vaba[last] == block@);
    assert(p(last) == model::ends_era(block@.payload, m.era));
    let (after, actions) = model::on_event(m, Event::VabaOut(block));
    assert(actions == cast + model::resolve_recovery(voted).1);
    if model::ends_era(block@.payload, m.era) {
        assert(model::recovery_stop(voted) == last);
        assert(actions =~= seq![ActionView::CastVotes(model::votes(m)), ActionView::StopStart]);
    } else {
        assert(actions =~= seq![ActionView::CastVotes(model::votes(m))]);
    }
}

/// Nothing but the output of VABA ends a recovery or begins one, stops or
/// starts Jolteon, or casts a vote.
pub proof fn law_only_vaba_switches(m: Model, input: Input)
    requires
        settled(m),
        !(input matches Input::Event(Event::VabaOut(_))),
    ensures
        ({
            let (after, actions) = model::step(m, input);
            &&& after == (Model { main: after.main, ..m })
            &&& forall|i: int|
                0 <= i < actions.len() ==> !(actions[i] is StopStart) && !((
                #[trigger] actions[i]) is CastVotes)
        }),
{
    match input {
        Input::Blocks(blocks) => {
            law_blocks_only_extend_the_main_chain(m, crate::types::blocks_view(blocks@));
        },
        Input::Event(event) => {
            law_other_notifications_are_quiet(m, event);
        },
        _ => {},
    }
}

/// How often Jolteon is stopped or started.
pub open spec fn toggles(actions: Seq<ActionView>) -> nat
    decreases actions.len(),
{
    if actions.len() == 0 {
        0
    } else {
        toggles(actions.drop_last()) + (if actions.last() is StopStart { 1nat } else { 0nat })
    }
}

pub proof fn lemma_toggles_add(a: Seq<ActionView>, b: Seq<ActionView>)
    ensures
        toggles(a + b) == toggles(a) + toggles(b),
    decreases b.len(),
{
    if b.len() == 0 {
        assert(a + b =~= a);
    } else {
        lemma_toggles_add(a, b.drop_last());
        assert((a + b).drop_last() =~= a + b.drop_last());
    }
}

proof fn lemma_no_toggles(actions: Seq<ActionView>)
    requires
        forall|i: int| 0 <= i < actions.len() ==> !(#[trigger] actions[i] is StopStart),
    ensures
        toggles(actions) == 0,
    decreases actions.len(),
{
    if actions.len() > 0 {
        lemma_no_toggles(actions.drop_last());
    }
}

/// All actions of a run, in order.
pub open spec fn run_actions(m: Model, inputs: Seq<Input>) -> Seq<ActionView>
    decreases inputs.len(),
{
    if inputs.len() == 0 {
        Seq::empty()
    } else {
        run_actions(m, inputs.drop_last()) + model::step(
            model::run(m, inputs.drop_last()),
            inputs.last(),
        ).1
    }
}

/// Jolteon is stopped or started once for each switch of the mode, of which
/// a step makes at most two.
pub proof fn law_jolteon_is_toggled_at_each_switch(m: Model, input: Input)
    requires
        settled(m),
    ensures
        toggles(model::step(m, input).1) <= 2,
        toggles(model::step(m, input).1) % 2 == 0 <==> model::step(m, input).0.state == m.state,
{
    reveal_with_fuel(toggles, 4);
    match input {
        Input::Event(Event::VabaOut(block)) => {
            if m.state is Steady {
                law_when_recovery_begins(m, block);
                let cast = ActionView::CastVotes(model::votes(m));
                let once = seq![ActionView::StopStart, cast];
                let twice = seq![ActionView::StopStart, cast, ActionView::StopStart];
                assert(once.drop_last() =~= seq![ActionView::StopStart]);
                assert(twice.drop_last() =~= once);
            } else {
                law_when_recovery_ends(m, block);
                let cast = ActionView::CastVotes(model::votes(m));
                let once = seq![cast, ActionView::StopStart];
                assert(once.drop_last() =~= seq![cast]);
            }
        },
        _ => {
            law_only_vaba_switches(m, input);
            lemma_no_toggles(model::step(m, input).1);
        },
    }
}

/// Jolteon, running at the start, runs in the steady state and stands still
/// in the recovery state: after any inputs it has been stopped or started an
/// even number of times if and only if the state is steady.
pub proof fn law_jolteon_runs_iff_steady(name: Seq<u8>, inputs: Seq<Input>)
    ensures
        toggles(run_actions(model::initial(name), inputs)) % 2 == 0 <==> model::run(
            model::initial(name),
            inputs,
        ).state is Steady,
    decreases inputs.len(),
{
    if inputs.len() > 0 {
        let m = model::initial(name);
        let before = model::run(m, inputs.drop_last());
        law_jolteon_runs_iff_steady(name, inputs.drop_last());
        law_every_reachable_state_is_settled(name, inputs.drop_last());
        law_jolteon_is_toggled_at_each_switch(before, inputs.last());
        lemma_toggles_add(
            run_actions(m, inputs.drop_last()),
            model::step(before, inputs.last()).1,
        );
    }
}

/// A block that holds certificates only, once it is the next to look at and
/// has enough blocks from it on, keeps the steady state where it is, whatever
/// comes in.
pub proof fn law_certificates_alone_stall_the_steady_state(m: Model, input: Input)
    requires
        settled(m),
        m.state is Steady,
        m.vaba.len() >= m.l + LOOPBACK,
    ensures
        model::verdict(m.main, m.vaba[m.l as int].payload) is Stalled,
        ({
            let after = model::step(m, input).0;
            &&& settled(after)
            &&& after.state is Steady
            &&& after.vaba.len() >= after.l + LOOPBACK
            &&& after.l == m.l
            &&& after.era == m.era
        }),
{
    let at = m.l as int;
    model::lemma_first_where(model::holds_up(m), at, model::steady_end(m));
    assert(model::holds_up(m)(at));
    law_steps_settle(m, input);
    match input {
        Input::Event(Event::VabaOut(block)) => {
            let grown = Model { vaba: m.vaba.push(block@), ..m };
            assert(model::holds_up(grown)(at));
            assert(model::steady_stop(grown) == at);
        },
        _ => {
            law_only_vaba_switches(m, input);
            law_steps_extend(m, input);
        },
    }
}

/// Certificates among the transaction batches of a block make no difference
/// to its verdict, wherever they stand. (A block that is empty without them is
/// another matter.)
pub proof fn law_certificates_are_ignored(
    main: Seq<BlockView>,
    payload: Seq<Seq<u8>>,
    at: int,
    cert: Seq<u8>,
)
    requires
        payload.len() > 0,
        0 <= at <= payload.len(),
        certificate::is_cert(cert),
    ensures
        model::verdict(main, payload.insert(at, cert)) == model::verdict(main, payload),
{
    let longer = payload.insert(at, cert);
    assert forall|j: int| 0 <= j < payload.len() implies exists|k: int|
        0 <= k < longer.len() && #[trigger] longer[k] == #[trigger] payload[j] by {
        let k = if j < at { j } else { j + 1 };
        assert(longer[k] == payload[j]);
    }
    assert forall|k: int| 0 <= k < longer.len() && k != at implies exists|j: int|
        0 <= j < payload.len() && #[trigger] payload[j] == #[trigger] longer[k] by {
        let j = if k < at { k } else { k - 1 };
        assert(longer[k] == payload[j]);
    }
    assert(longer[at] == cert);
    if model::has_tx(payload) {
        let j = choose|j: int|
            0 <= j < payload.len() && !certificate::is_cert(#[trigger] payload[j]);
        assert(exists|k: int| 0 <= k < longer.len() && longer[k] == payload[j]);
    }
    if model::has_late_tx(main, payload) {
        let j = choose|j: int|
            0 <= j < payload.len() && !certificate::is_cert(#[trigger] payload[j])
                && !model::certified(main, payload[j]);
        assert(exists|k: int| 0 <= k < longer.len() && longer[k] == payload[j]);
    }
    if model::has_tx(longer) {
        let k = choose|k: int|
            0 <= k < longer.len() && !certificate::is_cert(#[trigger] longer[k]);
        assert(exists|j: int| 0 <= j < payload.len() && payload[j] == longer[k]);
    }
    if model::has_late_tx(main, longer) {
        let k = choose|k: int|
            0 <= k < longer.len() && !certificate::is_cert(#[trigger] longer[k])
                && !model::certified(main, longer[k]);
        assert(exists|j: int| 0 <= j < payload.len() && payload[j] == longer[k]);
    }
}

/// A certificate is recognised as one and gives back the era and the index
/// that it was made for.
pub proof fn law_certificate_round_trip(era: u64, index: u64)
    ensures
        ({
            let cert = certificate::certificate(era as nat, index as nat);
            &&& cert.len() == 32
            &&& certificate::is_cert(cert)
            &&& certificate::cert_era(cert) == era
            &&& certificate::cert_index(cert) == index
        }),
{
    let cert = certificate::certificate(era as nat, index as nat);
    certificate::lemma_pow256_eight();
    certificate::lemma_be_bytes_len(era as nat, 8);
    certificate::lemma_be_bytes_len(index as nat, 8);
    certificate::lemma_value_of_bytes(era as nat, 8);
    certificate::lemma_value_of_bytes(index as nat, 8);
    assert(cert.subrange(16, 24) =~= certificate::be_bytes(era as nat, 8));
    assert(cert.subrange(24, 32) =~= certificate::be_bytes(index as nat, 8));
}

/// Whatever digest is marked as a certificate is the certificate for the era
/// and the index that it names.
pub proof fn law_marked_digests_are_certificates(digest: Seq<u8>)
    requires
        digest.len() == 32,
        certificate::is_cert(digest),
    ensures
        digest == certificate::certificate(
            certificate::cert_era(digest),
            certificate::cert_index(digest),
        ),
        certificate::cert_era(digest) <= u64::MAX,
        certificate::cert_index(digest) <= u64::MAX,
{
    certificate::lemma_pow256_eight();
    certificate::lemma_bytes_of_value(digest.subrange(16, 24));
    certificate::lemma_bytes_of_value(digest.subrange(24, 32));
    assert(digest =~= certificate::certificate(
        certificate::cert_era(digest),
        certificate::cert_index(digest),
    ));
}

/// Certificates for different eras or indices differ.
pub proof fn law_certificates_are_distinct(era1: u64, index1: u64, era2: u64, index2: u64)
    requires
        certificate::certificate(era1 as nat, index1 as nat) == certificate::certificate(
            era2 as nat,
            index2 as nat,
        ),
    ensures
        era1 == era2,
        index1 == index2,
{
    law_certificate_round_trip(era1, index1);
    law_certificate_round_trip(era2, index2);
}

/// The certificate that enough votes of an era give ends a recovery of that
/// era, and of no other, once VABA outputs a block whose first certificate it is.
pub proof fn law_certificate_ends_its_own_era(m: Model, block: Block, era: u64, index: u64)
    requires
        settled(m),
        m.state is Recovery,
        model::first_cert(block@.payload) < block@.payload.len(),
        block@.payload[model::first_cert(block@.payload)] == certificate::certificate(
            era as nat,
            index as nat,
        ),
    ensures
        ({
            let after = model::on_event(m, Event::VabaOut(block)).0;
            if era == m.era {
                after.state is Steady && after.era == m.era + 1
            } else {
                after.state is Recovery && after.era == m.era
            }
        }),
{
    law_certificate_round_trip(era, index);
    law_when_recovery_ends(m, block);
}

/// Whether the block calls for a vote: its certificate is of the current era
/// and of a round not voted on before.
pub open spec fn due(m: Model, block: BlockView) -> bool {
    &&& block.qc.view == m.era
    &&& m.k_voted <= block.qc.round < m.main.len()
}

proof fn lemma_votes_at(
    blocks: Seq<BlockView>,
    name: Seq<u8>,
    era: nat,
    round: nat,
    vote: VoteRequestView,
)
    ensures
        model::votes_at(blocks, name, era, round).contains(vote) <==> exists|i: int|
            0 <= i < blocks.len() && (#[trigger] blocks[i]).qc.round == round
                && blocks[i].qc.view == era && vote == model::vote_for(name, era)(blocks[i]),
{
    let p = model::votable(era, round);
    let f = model::vote_for(name, era);
    let kept = blocks.filter(p);
    let given = model::votes_at(blocks, name, era, round);
    if given.contains(vote) {
        let k = choose|k: int| 0 <= k < given.len() && given[k] == vote;
        blocks.lemma_filter_pred(p, k);
        blocks.lemma_filter_contains_rev(p, kept[k]);
        let i = choose|i: int| 0 <= i < blocks.len() && blocks[i] == kept[k];
        assert(blocks[i].qc.round == round);
    }
    if exists|i: int|
        0 <= i < blocks.len() && (#[trigger] blocks[i]).qc.round == round && blocks[i].qc.view
            == era && vote == f(blocks[i]) {
        let i = choose|i: int|
            0 <= i < blocks.len() && (#[trigger] blocks[i]).qc.round == round && blocks[i].qc.view
                == era && vote == f(blocks[i]);
        assert(p(blocks[i]));
        blocks.lemma_filter_contains(p, i);
        let k = choose|k: int| 0 <= k < kept.len() && kept[k] == blocks[i];
        assert(given[k] == vote);
    }
}

proof fn lemma_votes_between(m: Model, from: nat, to: nat, vote: VoteRequestView)
    ensures
        model::votes_between(m, from, to).contains(vote) <==> exists|i: int|
            0 <= i < m.main.len() && from <= (#[trigger] m.main[i]).qc.round < to
                && m.main[i].qc.view == m.era && vote == model::vote_for(m.name, m.era)(
                m.main[i],
            ),
    decreases to,
{
    if from < to {
        let low = model::votes_between(m, from, (to - 1) as nat);
        let high = model::votes_at(m.main, m.name, m.era, (to - 1) as nat);
        lemma_votes_between(m, from, (to - 1) as nat, vote);
        lemma_votes_at(m.main, m.name, m.era, (to - 1) as nat, vote);
        let all = model::votes_between(m, from, to);
        assert(all == low + high);
        if low.contains(vote) {
            let k = choose|k: int| 0 <= k < low.len() && low[k] == vote;
            assert(all[k] == vote);
        }
        if high.contains(vote) {
            let k = choose|k: int| 0 <= k < high.len() && high[k] == vote;
            assert(all[low.len() + k] == vote);
        }
        if all.contains(vote) {
            let k = choose|k: int| 0 <= k < all.len() && all[k] == vote;
            if k < low.len() {
                assert(low[k] == vote);
            } else {
                assert(high[k - low.len()] == vote);
            }
        }
    }
}

/// The votes cast are exactly those for the blocks of the main chain that call
/// for one. Each names the era, the round of its block and this node, and
/// carries the certificate of its block.
pub proof fn law_votes_are_those_due(m: Model, vote: VoteRequestView)
    ensures
        model::votes(m).contains(vote) <==> exists|i: int|
            0 <= i < m.main.len() && due(m, #[trigger] m.main[i]) && vote == (VoteRequestView {
                era: m.era,
                index: m.main[i].round,
                qc: m.main[i].qc,
                author: m.name,
            }),
{
    lemma_votes_between(m, m.k_voted, m.main.len(), vote);
    if model::votes(m).contains(vote) {
        let i = choose|i: int|
            0 <= i < m.main.len() && m.k_voted <= (#[trigger] m.main[i]).qc.round < m.main.len()
                && m.main[i].qc.view == m.era && vote == model::vote_for(m.name, m.era)(m.main[i]);
        assert(due(m, m.main[i]));
    }
}

/// Votes are cast round by round.
pub proof fn law_votes_are_in_order_of_rounds(m: Model, i: int, j: int)
    requires
        0 <= i <= j < model::votes(m).len(),
    ensures
        model::votes(m)[i].qc.round <= model::votes(m)[j].qc.round,
{
    lemma_votes_in_order(m, m.k_voted, m.main.len(), i, j);
}

proof fn lemma_votes_in_order(m: Model, from: nat, to: nat, i: int, j: int)
    requires
        0 <= i <= j < model::votes_between(m, from, to).len(),
    ensures
        model::votes_between(m, from, to)[i].qc.round <= model::votes_between(
            m,
            from,
            to,
        )[j].qc.round,
    decreases to,
{
    let all = model::votes_between(m, from, to);
    let low = model::votes_between(m, from, (to - 1) as nat);
    let high = model::votes_at(m.main, m.name, m.era, (to - 1) as nat);
    if j < low.len() {
        lemma_votes_in_order(m, from, (to - 1) as nat, i, j);
    } else {
        assert(high.contains(high[j - low.len()]));
        lemma_votes_at(m.main, m.name, m.era, (to - 1) as nat, high[j - low.len()]);
        assert(all.contains(all[i]));
        lemma_votes_between(m, from, to, all[i]);
    }
}

/// Whether the vote is among those that `actions` cast.
pub open spec fn casts(actions: Seq<ActionView>, vote: VoteRequestView) -> bool {
    exists|i: int|
        0 <= i < actions.len() && (#[trigger] actions[i] matches ActionView::CastVotes(votes)
            && votes.contains(vote))
}

/// A vote is cast only for a block of the main chain, with the era at the
/// beginning of the step, and for a round that no earlier step can have voted
/// on and no later one will.
pub proof fn law_votes_of_a_step(m: Model, input: Input, vote: VoteRequestView)
    requires
        settled(m),
        casts(model::step(m, input).1, vote),
    ensures
        model::votes(m).contains(vote),
        m.k_voted <= vote.qc.round < model::step(m, input).0.k_voted,
        vote.era == m.era == vote.qc.view,
        vote.author == m.name,
{
    let (after, actions) = model::step(m, input);
    match input {
        Input::Event(Event::VabaOut(block)) => {
            if m.state is Steady {
                law_when_recovery_begins(m, block);
            } else {
                law_when_recovery_ends(m, block);
            }
            law_votes_are_those_due(m, vote);
        },
        _ => {
            law_only_vaba_switches(m, input);
        },
    }
}

/// No round is voted on twice: a vote of a later step is for a later round.
pub proof fn law_no_round_is_voted_on_twice(
    m: Model,
    first: Input,
    between: Seq<Input>,
    second: Input,
    vote1: VoteRequestView,
    vote2: VoteRequestView,
)
    requires
        settled(m),
        casts(model::step(m, first).1, vote1),
        casts(model::step(model::run(model::step(m, first).0, between), second).1, vote2),
    ensures
        vote1.qc.round < vote2.qc.round,
{
    let after = model::step(m, first).0;
    law_steps_settle(m, first);
    law_runs_settle(after, between);
    law_runs_extend(after, between);
    law_votes_of_a_step(m, first, vote1);
    law_votes_of_a_step(model::run(after, between), second, vote2);
}

} // verus!
