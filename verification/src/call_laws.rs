use crate::certificate;
use crate::laws;
use crate::model;
use crate::model::Model;
use crate::types::{ActionView, BlockView, State, VoteRequestView};
use vstd::prelude::*;

verus! {

/// A block that passed still does when the main chain is longer, one that
/// stalled still does, and none becomes late.
proof fn lemma_verdict_on_longer_main(
    main: Seq<BlockView>,
    longer: Seq<BlockView>,
    payload: Seq<Seq<u8>>,
)
    requires
        main.is_prefix_of(longer),
    ensures
        model::verdict(main, payload) is Passed ==> model::verdict(longer, payload) is Passed,
        model::verdict(main, payload) is Stalled <==> model::verdict(longer, payload) is Stalled,
{
    if model::has_late_tx(longer, payload) {
        let i = choose|i: int|
            0 <= i < payload.len() && !certificate::is_cert(#[trigger] payload[i])
                && !model::certified(longer, payload[i]);
        let more = longer.skip(main.len() as int);
        assert(longer =~= main + more);
        if model::certified(main, payload[i]) {
            laws::law_certified_stays_certified(main, more, payload[i]);
        }
        assert(model::has_late_tx(main, payload));
    }
}

/// A longer main chain never causes a recovery that a shorter one did not, and
/// never holds the steady state back.
pub proof fn law_longer_main_chain_never_causes_recovery(shorter: Model, longer: Model)
    requires
        shorter.main.is_prefix_of(longer.main),
        shorter.vaba == longer.vaba,
        shorter.l == longer.l,
    ensures
        !model::scan_steady(shorter).1 ==> !model::scan_steady(longer).1 && model::scan_steady(
            longer,
        ).0.l == model::scan_steady(shorter).0.l,
        model::scan_steady(longer).0.l >= model::scan_steady(shorter).0.l,
{
    let p = model::holds_up(shorter);
    let q = model::holds_up(longer);
    let from = shorter.l as int;
    let end = model::steady_end(shorter);
    let stop = model::steady_stop(shorter);
    model::lemma_first_where(p, from, end);
    model::lemma_first_where(q, from, end);
    assert forall|j: int| from <= j < end && !p(j) implies !#[trigger] q(j) by {
        lemma_verdict_on_longer_main(shorter.main, longer.main, shorter.vaba[j].payload);
    }
    let later = model::steady_stop(longer);
    if later < stop {
        assert(!p(later));
    }
    if stop < end {
        assert(p(stop));
        lemma_verdict_on_longer_main(shorter.main, longer.main, shorter.vaba[stop].payload);
        if model::verdict(shorter.main, shorter.vaba[stop].payload) is Stalled {
            assert(q(stop));
        }
        if later == stop {
            assert(q(stop));
        }
    }
}

/// Once the steady state has found nothing to recover from, it finds nothing
/// and stays where it is until VABA outputs another block, however the main
/// chain grows.
pub proof fn law_quiet_scan_stays_quiet(before: Model, now: Model)
    requires
        !model::scan_steady(before).1,
        model::scan_steady(before).0.main.is_prefix_of(now.main),
        model::scan_steady(before).0.vaba == now.vaba,
        model::scan_steady(before).0.l == now.l,
    ensures
        model::scan_steady(now) == (now, false),
{
    let scanned = model::scan_steady(before).0;
    let stop = model::steady_stop(before);
    model::lemma_scan_steady(before);
    model::lemma_first_where(model::holds_up(before), before.l as int, model::steady_end(before));
    assert(model::steady_end(now) == model::steady_end(before));
    if stop < model::steady_end(before) {
        assert(model::holds_up(before)(stop));
        lemma_verdict_on_longer_main(before.main, now.main, now.vaba[stop].payload);
        assert(model::holds_up(now)(stop));
    }
    assert(model::steady_stop(now) == stop);
    assert(model::scan_steady(now).0 =~= now);
}

/// Looking through the VABA chain in the recovery state in vain, and again
/// after more blocks, is the same as looking through all of them at once.
pub proof fn law_recovery_scan_in_parts(m: Model, more: Seq<BlockView>)
    requires
        m.l <= m.vaba.len(),
        !model::scan_recovery(m).1,
    ensures
        ({
            let scanned = model::scan_recovery(m).0;
            model::scan_recovery(Model { vaba: scanned.vaba + more, ..scanned })
                == model::scan_recovery(Model { vaba: m.vaba + more, ..m })
        }),
{
    let scanned = model::scan_recovery(m).0;
    let rest = Model { vaba: scanned.vaba + more, ..scanned };
    let all = Model { vaba: m.vaba + more, ..m };
    model::lemma_scan_recovery(m);
    model::lemma_first_where(model::ends_recovery(m), m.l as int, m.vaba.len() as int);
    model::lemma_first_where(
        model::ends_recovery(rest),
        rest.l as int,
        rest.vaba.len() as int,
    );
    let stop = model::recovery_stop(rest);
    assert forall|j: int| m.l <= j < stop implies !#[trigger] model::ends_recovery(all)(j) by {
        if j < m.vaba.len() {
            assert(!model::ends_recovery(m)(j));
            assert(all.vaba[j] == m.vaba[j]);
        } else {
            assert(!model::ends_recovery(rest)(j));
        }
    }
    if stop < rest.vaba.len() {
        assert(model::ends_recovery(rest)(stop));
        assert(model::ends_recovery(all)(stop));
    }
    model::lemma_first_where_is(
        model::ends_recovery(all),
        m.l as int,
        all.vaba.len() as int,
        stop,
    );
}

/// A block that holds just a certificate ends the search in the recovery state
/// if the certificate is of the current era, whatever its index, and does not
/// if it is of another.
pub proof fn law_lone_certificate_in_recovery(m: Model, era: u64, index: u64)
    requires
        m.l < m.vaba.len(),
        m.vaba[m.l as int].payload == seq![certificate::certificate(era as nat, index as nat)],
    ensures
        era == m.era ==> model::scan_recovery(m) == (Model { l: m.l + 1, ..m }, true),
        era != m.era && m.l + 1 == m.vaba.len() ==> model::scan_recovery(m) == (
            Model { l: m.vaba.len(), ..m },
            false,
        ),
{
    let payload = m.vaba[m.l as int].payload;
    laws::law_certificate_round_trip(era, index);
    assert(certificate::is_cert(payload[0]));
    model::lemma_first_where_is(|i: int| certificate::is_cert(payload[i]), 0, 1, 0);
    assert(model::ends_recovery(m)(m.l as int) == (era == m.era));
    model::lemma_first_where(model::ends_recovery(m), m.l as int, m.vaba.len() as int);
}

/// What resolving does, in any state: the chains stay, and the toggles of
/// Jolteon tell the mode, the eras that have passed, and how far the position
/// has moved at least.
proof fn lemma_resolve_steady_counts(m: Model)
    ensures
        ({
            let (after, actions) = model::resolve_steady(m);
            let n = laws::toggles(actions);
            &&& after.name == m.name && after.main == m.main && after.vaba == m.vaba
            &&& after.l >= m.l + n
            &&& after.era == m.era + n / 2
            &&& m.state is Steady ==> (after.state is Steady <==> n % 2 == 0)
            &&& m.k_voted == m.main.len() ==> after.k_voted == m.main.len()
        }),
    decreases m.vaba.len() - m.l, 0int,
{
    model::lemma_scan_steady(m);
    let (scanned, late) = model::scan_steady(m);
    if late {
        let (voted, cast) = model::cast_votes(Model { state: State::Recovery, ..scanned });
        let (after, then_done) = model::resolve_recovery(voted);
        lemma_resolve_recovery_counts(voted);
        let stop = seq![ActionView::StopStart];
        laws::lemma_toggles_add(stop + cast, then_done);
        laws::lemma_toggles_add(stop, cast);
        lemma_toggles_one(ActionView::StopStart);
        lemma_toggles_one(ActionView::CastVotes(model::votes(
            Model { state: State::Recovery, ..scanned },
        )));
    }
}

proof fn lemma_toggles_one(action: ActionView)
    ensures
        laws::toggles(seq![action]) == (if action is StopStart { 1nat } else { 0nat }),
{
    reveal_with_fuel(laws::toggles, 2);
    assert(seq![action].drop_last() =~= Seq::empty());
    assert(seq![action].last() == action);
}

proof fn lemma_resolve_recovery_counts(m: Model)
    requires
        m.l <= m.vaba.len(),
        m.state is Recovery,
    ensures
        ({
            let (after, actions) = model::resolve_recovery(m);
            let n = laws::toggles(actions);
            &&& after.name == m.name && after.main == m.main && after.vaba == m.vaba
            &&& after.l >= m.l + n
            &&& after.era == m.era + (n + 1) / 2
            &&& after.state is Recovery <==> n % 2 == 0
            &&& m.k_voted == m.main.len() ==> after.k_voted == m.main.len()
        }),
    decreases m.vaba.len() - m.l, 2int,
{
    model::lemma_scan_recovery(m);
    let (scanned, found) = model::scan_recovery(m);
    if found {
        let steady = Model { era: scanned.era + 1, state: State::Steady, ..scanned };
        lemma_resolve_steady_counts(steady);
        laws::lemma_toggles_add(
            model::resolve_steady(steady).1,
            seq![ActionView::StopStart],
        );
        lemma_toggles_one(ActionView::StopStart);
    }
}

/// Entering the steady state toggles Jolteon at least once. The number of
/// toggles tells everything that happened on the way: the state is steady if
/// and only if it is odd, every two of them but for the first stand for one more
/// era, and each but the first has consumed a block.
pub proof fn law_entering_steady_counts(m: Model)
    ensures
        ({
            let (after, actions) = model::enter_steady(m);
            let n = laws::toggles(actions);
            &&& n >= 1
            &&& after.state is Steady <==> n % 2 == 1
            &&& after.era == m.era + (n + 1) / 2
            &&& after.l >= m.l + (n - 1)
        }),
{
    let steady = Model { era: m.era + 1, state: State::Steady, ..m };
    lemma_resolve_steady_counts(steady);
    laws::lemma_toggles_add(model::resolve_steady(steady).1, seq![ActionView::StopStart]);
    lemma_toggles_one(ActionView::StopStart);
}

/// Resolving in the steady state toggles Jolteon if and only if the scan finds
/// a block to recover from. If it finds none, nothing happens beyond the scan;
/// if it does, the votes have been cast for the whole main chain.
pub proof fn law_resolving_toggles_iff_late(m: Model)
    ensures
        ({
            let (scanned, late) = model::scan_steady(m);
            let (after, actions) = model::resolve_steady(m);
            &&& laws::toggles(actions) > 0 <==> late
            &&& scanned == (Model { l: scanned.l, ..m })
            &&& !late ==> after == scanned && actions == Seq::<ActionView>::empty()
            &&& late ==> after.l >= scanned.l && after.k_voted == m.main.len()
            &&& after.main == m.main && after.vaba == m.vaba
        }),
{
    model::lemma_scan_steady(m);
    lemma_resolve_steady_counts(m);
    let (scanned, late) = model::scan_steady(m);
    if late {
        let recovering = Model { state: State::Recovery, ..scanned };
        let (voted, cast) = model::cast_votes(recovering);
        let (after, then_done) = model::resolve_recovery(voted);
        lemma_resolve_recovery_counts(voted);
        let stop = seq![ActionView::StopStart];
        laws::lemma_toggles_add(stop + cast, then_done);
        laws::lemma_toggles_add(stop, cast);
        lemma_toggles_one(ActionView::StopStart);
    }
}

/// Casting votes again before the main chain has grown casts none and changes
/// nothing, even if the era or the state have changed in between.
pub proof fn law_voting_again_casts_nothing(before: Model, now: Model)
    requires
        now.main == model::cast_votes(before).0.main,
        now.k_voted == model::cast_votes(before).0.k_voted,
    ensures
        model::votes(now) == Seq::<VoteRequestView>::empty(),
        model::cast_votes(now) == (
            now,
            seq![ActionView::CastVotes(Seq::<VoteRequestView>::empty())],
        ),
{
    assert(model::cast_votes(now).0 =~= now);
}

/// The positions of those blocks whose certificate is of `round` and of view
/// `era`.
pub open spec fn positions_at(main: Seq<BlockView>, era: nat, round: nat) -> Seq<int> {
    Seq::new(main.len(), |i: int| i).filter(
        |i: int| main[i].qc.round == round && main[i].qc.view == era,
    )
}

/// The positions voted on for the rounds `from..to`, round by round.
pub open spec fn positions_between(m: Model, from: nat, to: nat) -> Seq<int>
    decreases to,
{
    if from >= to {
        Seq::empty()
    } else {
        positions_between(m, from, (to - 1) as nat) + positions_at(
            m.main,
            m.era,
            (to - 1) as nat,
        )
    }
}

/// The positions of the main chain that casting votes votes on, in order.
pub open spec fn voted_positions(m: Model) -> Seq<int> {
    positions_between(m, m.k_voted, m.main.len())
}

/// The vote for the block at each position of the main chain.
pub open spec fn vote_at(m: Model) -> spec_fn(int) -> VoteRequestView {
    |i: int| model::vote_for(m.name, m.era)(m.main[i])
}

/// Whether the vote for position `a` of the main chain goes before that for
/// position `b`: by the rounds of the certificates, ties as in the chain.
pub open spec fn goes_before(m: Model, a: int, b: int) -> bool {
    ||| m.main[a].qc.round < m.main[b].qc.round
    ||| m.main[a].qc.round == m.main[b].qc.round && a < b
}

proof fn lemma_filtered_positions(
    blocks: Seq<BlockView>,
    indices: Seq<int>,
    p: spec_fn(BlockView) -> bool,
    q: spec_fn(int) -> bool,
    f: spec_fn(BlockView) -> VoteRequestView,
    g: spec_fn(int) -> VoteRequestView,
)
    requires
        blocks.len() == indices.len(),
        forall|i: int| 0 <= i < blocks.len() ==> #[trigger] indices[i] == i,
        forall|i: int| 0 <= i < blocks.len() ==> #[trigger] q(i) == p(blocks[i]),
        forall|i: int| 0 <= i < blocks.len() ==> #[trigger] g(i) == f(blocks[i]),
    ensures
        blocks.filter(p).map_values(f) == indices.filter(q).map_values(g),
        indices.filter(q).no_duplicates(),
        forall|x: int| #[trigger] indices.filter(q).contains(x) <==> 0 <= x < blocks.len() && q(x),
        forall|a: int, b: int|
            #![trigger indices.filter(q)[a], indices.filter(q)[b]]
            0 <= a < b < indices.filter(q).len() ==> indices.filter(q)[a] < indices.filter(q)[b],
    decreases blocks.len(),
{
    reveal(Seq::filter);
    if blocks.len() == 0 {
        assert(blocks.filter(p).map_values(f) =~= indices.filter(q).map_values(g));
    } else {
        let bs = blocks.drop_last();
        let is = indices.drop_last();
        let last = blocks.len() - 1;
        assert forall|i: int| 0 <= i < bs.len() implies #[trigger] q(i) == p(bs[i]) by {
            assert(bs[i] == blocks[i]);
        }
        assert forall|i: int| 0 <= i < bs.len() implies #[trigger] g(i) == f(bs[i]) by {
            assert(bs[i] == blocks[i]);
        }
        lemma_filtered_positions(bs, is, p, q, f, g);
        assert(indices[last] == last);
        assert(q(last) == p(blocks[last]));
        assert(g(last) == f(blocks[last]));
        let kept = is.filter(q);
        let all = indices.filter(q);
        let chosen = bs.filter(p);
        assert(blocks.last() == blocks[last] && indices.last() == last);
        if q(last) {
            assert(blocks.filter(p) == chosen.push(blocks[last]));
            assert(all == kept.push(last));
            assert(blocks.filter(p).map_values(f) =~= chosen.map_values(f).push(f(blocks[last])));
            assert(all.map_values(g) =~= kept.map_values(g).push(g(last)));
            assert(!kept.contains(last));
            assert(all[kept.len() as int] == last);
            assert forall|a: int, b: int|
                #![trigger all[a], all[b]]
                0 <= a < b < all.len() implies all[a] < all[b] by {
                assert(kept.contains(kept[a]));
                if b < kept.len() {
                    assert(kept[a] < kept[b]);
                }
            }
            assert forall|x: int| #[trigger] all.contains(x) <==> 0 <= x < blocks.len() && q(
                x,
            ) by {
                if kept.contains(x) {
                    let k = choose|k: int| 0 <= k < kept.len() && kept[k] == x;
                    assert(all[k] == x);
                }
                if all.contains(x) && x != last {
                    let k = choose|k: int| 0 <= k < all.len() && all[k] == x;
                    assert(kept[k] == x);
                }
            }
        }
    }
}

proof fn lemma_positions_between(m: Model, from: nat, to: nat)
    ensures
        model::votes_between(m, from, to) == positions_between(m, from, to).map_values(
            vote_at(m),
        ),
        positions_between(m, from, to).no_duplicates(),
        forall|x: int| #[trigger]
            positions_between(m, from, to).contains(x) <==> 0 <= x < m.main.len() && from
                <= m.main[x].qc.round < to && m.main[x].qc.view == m.era,
        forall|a: int, b: int|
            #![trigger positions_between(m, from, to)[a], positions_between(m, from, to)[b]]
            0 <= a < b < positions_between(m, from, to).len() ==> goes_before(
                m,
                positions_between(m, from, to)[a],
                positions_between(m, from, to)[b],
            ),
    decreases to,
{
    let all = positions_between(m, from, to);
    if from >= to {
        assert(model::votes_between(m, from, to) =~= all.map_values(vote_at(m)));
    } else {
        let round = (to - 1) as nat;
        let low = positions_between(m, from, round);
        let high = positions_at(m.main, m.era, round);
        lemma_positions_between(m, from, round);
        lemma_filtered_positions(
            m.main,
            Seq::new(m.main.len(), |i: int| i),
            model::votable(m.era, round),
            |i: int| m.main[i].qc.round == round && m.main[i].qc.view == m.era,
            model::vote_for(m.name, m.era),
            vote_at(m),
        );
        assert(model::votes_between(m, from, to) =~= all.map_values(vote_at(m)));
        assert forall|x: int| #[trigger] all.contains(x) <==> low.contains(x) || high.contains(
            x,
        ) by {
            if low.contains(x) {
                let k = choose|k: int| 0 <= k < low.len() && low[k] == x;
                assert(all[k] == x);
            }
            if high.contains(x) {
                let k = choose|k: int| 0 <= k < high.len() && high[k] == x;
                assert(all[low.len() + k] == x);
            }
            if all.contains(x) {
                let k = choose|k: int| 0 <= k < all.len() && all[k] == x;
                if k < low.len() {
                    assert(low[k] == x);
                } else {
                    assert(high[k - low.len()] == x);
                }
            }
        }
        assert forall|i: int, j: int|
            #![trigger all[i], all[j]]
            0 <= i < j < all.len() implies goes_before(m, all[i], all[j]) by {
            if j < low.len() {
                assert(goes_before(m, low[i], low[j]));
            } else {
                assert(high.contains(high[j - low.len()]));
                if i < low.len() {
                    assert(low.contains(low[i]));
                } else {
                    assert(high.contains(high[i - low.len()]));
                    assert(high[i - low.len()] < high[j - low.len()]);
                }
            }
        }
        assert forall|i: int, j: int| 0 <= i < j < all.len() implies all[i] != all[j] by {
            if i < low.len() {
                assert(low.contains(low[i]));
                if j >= low.len() {
                    assert(high.contains(high[j - low.len()]));
                }
            }
        }
    }
}

/// Casting votes gives one vote for each position of the main chain whose
/// block calls for one, and none for any other. The votes are in order of the
/// rounds of the certificates, ties in the order of the chain.
pub proof fn law_one_vote_per_position(m: Model)
    ensures
        model::votes(m) == voted_positions(m).map_values(vote_at(m)),
        voted_positions(m).no_duplicates(),
        forall|x: int| #[trigger]
            voted_positions(m).contains(x) <==> 0 <= x < m.main.len() && laws::due(m, m.main[x]),
        forall|a: int, b: int|
            #![trigger voted_positions(m)[a], voted_positions(m)[b]]
            0 <= a < b < voted_positions(m).len() ==> goes_before(
                m,
                voted_positions(m)[a],
                voted_positions(m)[b],
            ),
{
    lemma_positions_between(m, m.k_voted, m.main.len());
}

/// Whether `calls` are the states before successive calls that cast votes:
/// between them the main chain has only been appended to, and nothing but the
/// calls has written up to where votes were cast.
pub open spec fn voting_calls(calls: Seq<Model>) -> bool {
    &&& calls.len() > 0 ==> calls[0].k_voted <= calls[0].main.len()
    &&& forall|i: int, j: int|
        #![trigger calls[i], calls[j]]
        0 <= i < calls.len() && j == i + 1 && j < calls.len() ==> {
            &&& calls[i].main.is_prefix_of(calls[j].main)
            &&& calls[j].k_voted == model::cast_votes(calls[i]).0.k_voted
        }
}

proof fn lemma_voting_calls(calls: Seq<Model>, i: int, j: int)
    requires
        voting_calls(calls),
        0 <= i < j < calls.len(),
    ensures
        calls[i].main.is_prefix_of(calls[j].main),
        calls[i].k_voted <= calls[i].main.len() <= calls[j].k_voted <= calls[j].main.len(),
    decreases j,
{
    assert(calls[j - 1].main.is_prefix_of(calls[j].main));
    if i < j - 1 {
        lemma_voting_calls(calls, i, j - 1);
        let (a, b, c) = (calls[i].main, calls[j - 1].main, calls[j].main);
        assert forall|k: int| 0 <= k < a.len() implies a[k] == c[k] by {
            assert(a[k] == b[k]);
            assert(b[k] == c[k]);
        }
        assert(c.subrange(0, a.len() as int) =~= a);
    } else if i > 0 {
        lemma_voting_calls(calls, i - 1, i);
    }
}

/// Over any number of calls that cast votes, each position of the main chain
/// is voted on at most once.
pub proof fn law_no_position_is_voted_on_twice(calls: Seq<Model>, i: int, j: int, position: int)
    requires
        voting_calls(calls),
        0 <= i < j < calls.len(),
    ensures
        !(voted_positions(calls[i]).contains(position) && voted_positions(calls[j]).contains(
            position,
        )),
{
    lemma_voting_calls(calls, i, j);
    law_one_vote_per_position(calls[i]);
    law_one_vote_per_position(calls[j]);
    if 0 <= position < calls[i].main.len() {
        assert(calls[i].main[position] == calls[j].main[position]);
    }
}

/// A block that is appended too late, its certificate being of a round that
/// votes have already been cast up to, is never voted on.
pub proof fn law_late_block_is_never_voted_on(calls: Seq<Model>, i: int, j: int, position: int)
    requires
        voting_calls(calls),
        0 <= i < j < calls.len(),
        calls[i].main.len() <= position < calls[j].main.len(),
        calls[j].main[position].qc.round < model::cast_votes(calls[i]).0.k_voted,
    ensures
        !voted_positions(calls[j]).contains(position),
{
    lemma_voting_calls(calls, i, j);
    law_one_vote_per_position(calls[j]);
}

} // verus!
