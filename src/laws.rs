//! Properties of reconstruction that relate several calls or hold of every
//! input.
use vstd::prelude::*;
use crate::team::Team;
use crate::timeline::{
    has_distinct_times, is_time_ordered, lemma_sequenced_keeps, run, sequenced, team_times_of,
    IntermediateTeamTime, ProcessingState, TeamTime,
};

verus! {

/// Each interval starts no later than it ends, and no interval ends after a
/// later one starts.
pub open spec fn is_chronological(out: Seq<TeamTime>) -> bool {
    &&& forall|i: int| 0 <= i < out.len() ==> out[i].start <= out[i].end
    &&& forall|i: int, j: int| 0 <= i < j < out.len() ==> out[i].end <= out[j].start
}

/// Each event is strictly later than the one before it.
spec fn is_strictly_time_ordered(s: Seq<IntermediateTeamTime>) -> bool {
    forall|i: int, j: int| 0 <= i < j < s.len() ==> s[i].at() < s[j].at()
}

/// What folding time-ordered events keeps true: the emitted intervals are
/// chronological and end no later than the open session's start and the
/// last event.
spec fn run_invariant(s: Seq<IntermediateTeamTime>) -> bool {
    let (state, out) = run(s);
    &&& is_chronological(out)
    &&& s.len() > 0 ==> forall|i: int| 0 <= i < out.len() ==> out[i].end <= s.last().at()
    &&& s.len() == 0 ==> state is Absent && out.len() == 0
    &&& state matches ProcessingState::Present(t0, _) ==> t0 <= s.last().at() && forall|i: int|
        0 <= i < out.len() ==> out[i].end <= t0
    &&& is_strictly_time_ordered(s) ==> forall|i: int|
        0 <= i < out.len() ==> out[i].start < out[i].end
}

proof fn lemma_run_invariant(s: Seq<IntermediateTeamTime>)
    requires
        is_time_ordered(s),
    ensures
        run_invariant(s),
    decreases s.len(),
{
    if s.len() > 0 {
        let p = s.drop_last();
        assert(is_time_ordered(p));
        assert(is_strictly_time_ordered(s) ==> is_strictly_time_ordered(p));
        lemma_run_invariant(p);
        if p.len() > 0 {
            assert(p.last() == s[s.len() - 2]);
            assert(p.last().at() <= s.last().at());
            assert(is_strictly_time_ordered(s) ==> p.last().at() < s.last().at());
        }
    }
}

/// Reconstruction gives its intervals in time order: each starts no later
/// than it ends, and each ends no later than the next one starts.
pub proof fn lemma_team_times_chronological(events: Seq<IntermediateTeamTime>)
    ensures
        is_chronological(team_times_of(events)),
{
    lemma_sequenced_keeps(events);
    lemma_run_invariant(sequenced(events));
}

proof fn lemma_count_of_repeat(s: Seq<IntermediateTeamTime>, i: int, j: int)
    requires
        0 <= i < s.len(),
        0 <= j < s.len(),
        i != j,
        s[i] == s[j],
    ensures
        s.to_multiset().count(s[i]) >= 2,
{
    broadcast use vstd::seq_lib::group_to_multiset_ensures;

    let r = s.remove(i);
    let k = if j < i { j } else { j - 1 };
    assert(r[k] == s[j]);
    assert(r.contains(s[i]));
    s.to_multiset_ensures();
    r.to_multiset_ensures();
    assert(r.to_multiset().count(s[i]) > 0);
    assert(r.to_multiset() == s.to_multiset().remove(s[i]));
}

proof fn lemma_repeat_of_count(s: Seq<IntermediateTeamTime>, p: int)
    requires
        0 <= p < s.len(),
        s.to_multiset().count(s[p]) >= 2,
    ensures
        exists|q: int| 0 <= q < s.len() && q != p && s[q] == s[p],
{
    broadcast use vstd::seq_lib::group_to_multiset_ensures;

    let r = s.remove(p);
    assert(r.to_multiset().count(s[p]) > 0);
    assert(r.contains(s[p]));
    let k = choose|k: int| 0 <= k < r.len() && r[k] == s[p];
    let q = if k < p { k } else { k + 1 };
    assert(s[q] == s[p]);
}

/// Having no two events at one time is a property of the events, not of
/// their order.
pub proof fn lemma_distinct_times_kept(x: Seq<IntermediateTeamTime>, y: Seq<IntermediateTeamTime>)
    requires
        x.to_multiset() == y.to_multiset(),
        has_distinct_times(x),
    ensures
        has_distinct_times(y),
{
    broadcast use vstd::seq_lib::group_to_multiset_ensures;

    assert forall|i: int, j: int|
        0 <= i < y.len() && 0 <= j < y.len() && i != j implies y[i].at() != y[j].at() by {
        if y[i].at() == y[j].at() {
            assert(y.contains(y[i]));
            assert(y.contains(y[j]));
            assert(y.to_multiset().count(y[i]) > 0);
            assert(y.to_multiset().count(y[j]) > 0);
            assert(x.to_multiset().count(y[i]) > 0);
            assert(x.to_multiset().count(y[j]) > 0);
            assert(x.contains(y[i]));
            assert(x.contains(y[j]));
            let p = choose|p: int| 0 <= p < x.len() && x[p] == y[i];
            let q = choose|q: int| 0 <= q < x.len() && x[q] == y[j];
            if p == q {
                lemma_count_of_repeat(y, i, j);
                lemma_repeat_of_count(x, p);
            }
        }
    }
}

proof fn lemma_strict_ordered_unique(x: Seq<IntermediateTeamTime>, y: Seq<IntermediateTeamTime>)
    requires
        is_strictly_time_ordered(x),
        is_strictly_time_ordered(y),
        x.to_multiset() == y.to_multiset(),
    ensures
        x == y,
    decreases x.len(),
{
    broadcast use vstd::seq_lib::group_to_multiset_ensures;

    x.to_multiset_ensures();
    y.to_multiset_ensures();
    assert(x.len() == y.len());
    if x.len() > 0 {
        assert(x.contains(x[0]));
        assert(x.to_multiset().count(x[0]) > 0);
        assert(y.to_multiset().count(x[0]) > 0);
        assert(y.contains(x[0]));
        assert(y.contains(y[0]));
        assert(y.to_multiset().count(y[0]) > 0);
        assert(x.to_multiset().count(y[0]) > 0);
        assert(x.contains(y[0]));
        let j = choose|j: int| 0 <= j < y.len() && y[j] == x[0];
        let i = choose|i: int| 0 <= i < x.len() && x[i] == y[0];
        assert(j == 0) by {
            if j > 0 {
                assert(y[0].at() < y[j].at());
                if i > 0 {
                    assert(x[0].at() < x[i].at());
                }
            }
        }
        assert(x.remove(0) =~= x.drop_first());
        assert(y.remove(0) =~= y.drop_first());
        lemma_strict_ordered_unique(x.drop_first(), y.drop_first());
        assert forall|k: int| 0 <= k < x.len() implies x[k] == y[k] by {
            if k > 0 {
                assert(x[k] == x.drop_first()[k - 1]);
                assert(y[k] == y.drop_first()[k - 1]);
            }
        }
        assert(x =~= y);
    }
}

proof fn lemma_sequenced_strict(events: Seq<IntermediateTeamTime>)
    requires
        has_distinct_times(events),
    ensures
        is_strictly_time_ordered(sequenced(events)),
{
    lemma_sequenced_keeps(events);
    lemma_distinct_times_kept(events, sequenced(events));
}

/// When no two events share a time, the order in which the events are
/// given does not change the reconstructed intervals.
pub proof fn lemma_team_times_ignore_order(
    a: Seq<IntermediateTeamTime>,
    b: Seq<IntermediateTeamTime>,
)
    requires
        a.to_multiset() == b.to_multiset(),
        has_distinct_times(a),
    ensures
        sequenced(a) == sequenced(b),
        team_times_of(a) == team_times_of(b),
{
    lemma_distinct_times_kept(a, b);
    lemma_sequenced_strict(a);
    lemma_sequenced_strict(b);
    lemma_sequenced_keeps(a);
    lemma_sequenced_keeps(b);
    lemma_strict_ordered_unique(sequenced(a), sequenced(b));
}

/// When no two events share a time, every reconstructed interval ends
/// strictly after it starts.
pub proof fn lemma_team_times_nonempty(events: Seq<IntermediateTeamTime>)
    requires
        has_distinct_times(events),
    ensures
        forall|i: int|
            0 <= i < team_times_of(events).len() ==> #[trigger] team_times_of(events)[i].start
                < team_times_of(events)[i].end,
{
    lemma_sequenced_keeps(events);
    lemma_sequenced_strict(events);
    lemma_run_invariant(sequenced(events));
}

/// Events with no `Join` among them never open a session: folding them
/// stays `Absent` and emits nothing, and so does reconstruction in any
/// order.
pub proof fn lemma_no_join_no_team_times(events: Seq<IntermediateTeamTime>)
    requires
        forall|i: int| 0 <= i < events.len() ==> !(events[i] is Join),
    ensures
        run(events) == (ProcessingState::Absent, Seq::<TeamTime>::empty()),
        team_times_of(events) == Seq::<TeamTime>::empty(),
{
    lemma_no_join_run(events);
    lemma_sequenced_keeps(events);
    let s = sequenced(events);
    events.to_multiset_ensures();
    s.to_multiset_ensures();
    assert forall|i: int| 0 <= i < s.len() implies !(s[i] is Join) by {
        assert(s.contains(s[i]));
        assert(s.to_multiset().count(s[i]) > 0);
        assert(events.to_multiset().count(s[i]) > 0);
        assert(events.contains(s[i]));
    }
    lemma_no_join_run(s);
}

proof fn lemma_no_join_run(events: Seq<IntermediateTeamTime>)
    requires
        forall|i: int| 0 <= i < events.len() ==> !(events[i] is Join),
    ensures
        run(events) == (ProcessingState::Absent, Seq::<TeamTime>::empty()),
    decreases events.len(),
{
    if events.len() > 0 {
        lemma_no_join_run(events.drop_last());
    }
}

/// The interval that a `Join` at `t` closes, when the fold is in `state`.
pub open spec fn closed_by_join(state: ProcessingState, t: i64) -> Seq<TeamTime> {
    match state {
        ProcessingState::Present(t0, team) => seq![TeamTime { start: t0, end: t, team }],
        ProcessingState::Absent => Seq::empty(),
    }
}

/// The team an event shows the player in, if it shows one.
pub open spec fn team_seen(e: IntermediateTeamTime) -> Option<Team> {
    match e {
        IntermediateTeamTime::Kill(_, team) => Some(team),
        _ => None,
    }
}

/// A session that no `Leave` ends is dropped: after a `Join` at `t`
/// followed only by sightings of one team, the fold has emitted what it had
/// before the `Join`, and the interval that the `Join` itself closed, and
/// nothing for the session the `Join` opened.
pub proof fn lemma_open_session_dropped(
    before: Seq<IntermediateTeamTime>,
    t: i64,
    after: Seq<IntermediateTeamTime>,
)
    requires
        forall|i: int| 0 <= i < after.len() ==> after[i] is Kill,
        forall|i: int, j: int|
            0 <= i < after.len() && 0 <= j < after.len() ==> team_seen(after[i]) == team_seen(
                after[j],
            ),
    ensures
        run(before.push(IntermediateTeamTime::Join(t)) + after).1 == run(before).1 + closed_by_join(
            run(before).0,
            t,
        ),
{
    let opened = before.push(IntermediateTeamTime::Join(t));
    lemma_open_session_state(before, t, after);
    assert(opened.drop_last() =~= before);
    assert(run(opened).1 =~= run(before).1 + closed_by_join(run(before).0, t));
}

proof fn lemma_open_session_state(
    before: Seq<IntermediateTeamTime>,
    t: i64,
    after: Seq<IntermediateTeamTime>,
)
    requires
        forall|i: int| 0 <= i < after.len() ==> after[i] is Kill,
        forall|i: int, j: int|
            0 <= i < after.len() && 0 <= j < after.len() ==> team_seen(after[i]) == team_seen(
                after[j],
            ),
    ensures
        run(before.push(IntermediateTeamTime::Join(t)) + after).1 == run(
            before.push(IntermediateTeamTime::Join(t)),
        ).1,
        run(before.push(IntermediateTeamTime::Join(t)) + after).0 == ProcessingState::Present(
            t,
            if after.len() == 0 {
                None
            } else {
                team_seen(after[0])
            },
        ),
    decreases after.len(),
{
    let opened = before.push(IntermediateTeamTime::Join(t));
    if after.len() == 0 {
        assert(opened + after =~= opened);
        assert(opened.drop_last() =~= before);
    } else {
        let shorter = after.drop_last();
        lemma_open_session_state(before, t, shorter);
        assert((opened + after).drop_last() =~= opened + shorter);
        assert((opened + after).last() == after.last());
        if shorter.len() > 0 {
            assert(shorter[0] == after[0]);
        }
        assert(team_seen(after.last()) == team_seen(after[0]));
    }
}

} // verus!
