use vstd::prelude::*;
use crate::team::Team;

verus! {

/// One piece of evidence about a player, at a time in Unix epoch seconds.
#[derive(PartialEq, Eq, Structural, Debug, Clone, Copy)]
pub enum IntermediateTeamTime {
    /// The player connected.
    Join(i64),
    /// The player disconnected.
    Leave(i64),
    /// The player was seen acting for a team.
    Kill(i64, Team),
}

impl IntermediateTeamTime {
    /// When the event happened.
    pub open spec fn at(self) -> i64 {
        match self {
            IntermediateTeamTime::Join(t) => t,
            IntermediateTeamTime::Leave(t) => t,
            IntermediateTeamTime::Kill(t, _) => t,
        }
    }

    /// When the event happened.
    pub fn time(&self) -> (r: i64)
        ensures
            r == self.at(),
    {
        match self {
            IntermediateTeamTime::Join(t) => *t,
            IntermediateTeamTime::Leave(t) => *t,
            IntermediateTeamTime::Kill(t, _) => *t,
        }
    }
}

/// A closed period of presence, from `start` to `end` in Unix epoch
/// seconds, with the team the player was seen in, if any was seen.
/// Reconstruction never gives one that ends before it starts, and gives
/// only ones that end after they start when no two events share a time.
#[derive(PartialEq, Eq, Structural, Debug, Clone, Copy)]
pub struct TeamTime {
    pub start: i64,
    pub end: i64,
    pub team: Option<Team>,
}

impl TeamTime {
    pub fn new(start: i64, end: i64, team: Option<Team>) -> (r: TeamTime)
        ensures
            r == (TeamTime { start, end, team }),
    {
        TeamTime { start, end, team }
    }
}

// ---------------------------------------------------------------------
// Sequencing

/// Inserts `e` after every element of `s` that is not later than it.
pub open spec fn insert_by_time(s: Seq<IntermediateTeamTime>, e: IntermediateTeamTime) -> Seq<
    IntermediateTeamTime,
>
    decreases s.len(),
{
    if s.len() == 0 {
        seq![e]
    } else if s.last().at() <= e.at() {
        s.push(e)
    } else {
        insert_by_time(s.drop_last(), e).push(s.last())
    }
}

/// The stable sort of `s` by time: ascending, and events with equal times
/// in their order in `s`.
pub open spec fn sequenced(s: Seq<IntermediateTeamTime>) -> Seq<IntermediateTeamTime>
    decreases s.len(),
{
    if s.len() == 0 {
        s
    } else {
        insert_by_time(sequenced(s.drop_last()), s.last())
    }
}

/// No event is earlier than one before it.
pub open spec fn is_time_ordered(s: Seq<IntermediateTeamTime>) -> bool {
    forall|i: int, j: int| 0 <= i < j < s.len() ==> s[i].at() <= s[j].at()
}

/// No two events happen at the same time.
pub open spec fn has_distinct_times(s: Seq<IntermediateTeamTime>) -> bool {
    forall|i: int, j: int| 0 <= i < s.len() && 0 <= j < s.len() && i != j ==> s[i].at() != s[j].at()
}

/// Sequencing keeps every event, as often as it occurs, and puts them in
/// time order.
pub proof fn lemma_sequenced_keeps(s: Seq<IntermediateTeamTime>)
    ensures
        sequenced(s).to_multiset() == s.to_multiset(),
        is_time_ordered(sequenced(s)),
    decreases s.len(),
{
    broadcast use vstd::seq_lib::group_to_multiset_ensures;

    if s.len() > 0 {
        lemma_sequenced_keeps(s.drop_last());
        lemma_insert_keeps(sequenced(s.drop_last()), s.last());
        assert(s.drop_last().push(s.last()) =~= s);
    }
}

proof fn lemma_insert_at(s: Seq<IntermediateTeamTime>, e: IntermediateTeamTime, j: int)
    requires
        0 <= j <= s.len(),
        forall|k: int| j <= k < s.len() ==> s[k].at() > e.at(),
        j > 0 ==> s[j - 1].at() <= e.at(),
    ensures
        insert_by_time(s, e) == s.insert(j, e),
    decreases s.len(),
{
    if s.len() == 0 {
        assert(seq![e] =~= s.insert(j, e));
    } else if j == s.len() {
        assert(s.push(e) =~= s.insert(j, e));
    } else {
        lemma_insert_at(s.drop_last(), e, j);
        assert(s.drop_last().insert(j, e).push(s.last()) =~= s.insert(j, e));
    }
}

proof fn lemma_insert_keeps(s: Seq<IntermediateTeamTime>, e: IntermediateTeamTime)
    ensures
        insert_by_time(s, e).to_multiset() == s.to_multiset().insert(e),
        is_time_ordered(s) ==> is_time_ordered(insert_by_time(s, e)),
    decreases s.len(),
{
    broadcast use vstd::seq_lib::group_to_multiset_ensures;

    if s.len() == 0 {
        assert(seq![e] =~= s.push(e));
    } else if s.last().at() <= e.at() {
    } else {
        let p = s.drop_last();
        lemma_insert_keeps(p, e);
        assert(p.push(s.last()) =~= s);
        assert(insert_by_time(p, e).to_multiset().insert(s.last()) =~= s.to_multiset().insert(e));
        if is_time_ordered(s) {
            let r = insert_by_time(p, e);
            let q = r.push(s.last());
            assert forall|i: int, j: int| 0 <= i < j < q.len() implies q[i].at() <= q[j].at() by {
                if j == q.len() - 1 {
                    // every element of r is an element of p or e, all no later than s.last()
                    assert(r.to_multiset().count(r[i]) > 0);
                    assert(p.push(e).to_multiset() =~= p.to_multiset().insert(e));
                    assert(p.push(e).contains(r[i]));
                    let k = choose|k: int| 0 <= k < p.push(e).len() && p.push(e)[k] == r[i];
                    if k < p.len() {
                        assert(s[k] == p[k]);
                    }
                }
            }
        }
    }
}

/// Sorts `events` by time, keeping events with equal times in their order.
pub fn sequence(events: Vec<IntermediateTeamTime>) -> (r: Vec<IntermediateTeamTime>)
    ensures
        r@ == sequenced(events@),
        is_time_ordered(r@),
        r@.to_multiset() == events@.to_multiset(),
{
    proof {
        lemma_sequenced_keeps(events@);
    }
    let mut r: Vec<IntermediateTeamTime> = Vec::new();
    let n = events.len();
    for i in 0..n
        invariant
            n == events.len(),
            r@ == sequenced(events@.take(i as int)),
    {
        let e = events[i];
        let t = e.time();
        let mut j = r.len();
        while j > 0 && r[j - 1].time() > t
            invariant
                j <= r.len(),
                forall|k: int| j <= k < r.len() ==> r@[k].at() > t,
            decreases j,
        {
            j = j - 1;
        }
        proof {
            lemma_insert_at(r@, e, j as int);
            assert(events@.take(i + 1).drop_last() =~= events@.take(i as int));
        }
        r.insert(j, e);
    }
    assert(events@.take(n as int) =~= events@);
    r
}

// ---------------------------------------------------------------------
// Reconstruction

/// What the reconstruction knows of the player between two events.
#[derive(PartialEq, Eq, Structural, Debug, Clone, Copy)]
pub enum ProcessingState {
    /// Not connected.
    Absent,
    /// Connected since the given time, in the given team if one is known.
    Present(i64, Option<Team>),
}

/// One transition of the state machine: the next state, and the interval
/// that the event closes, if any.
pub open spec fn transition(state: ProcessingState, event: IntermediateTeamTime) -> (
    ProcessingState,
    Option<TeamTime>,
) {
    match state {
        ProcessingState::Absent => match event {
            IntermediateTeamTime::Join(t) => (ProcessingState::Present(t, None), None),
            _ => (ProcessingState::Absent, None),
        },
        ProcessingState::Present(t0, team) => match event {
            IntermediateTeamTime::Join(t1) => (
                ProcessingState::Present(t1, None),
                Some(TeamTime { start: t0, end: t1, team }),
            ),
            IntermediateTeamTime::Leave(t1) => (
                ProcessingState::Absent,
                Some(TeamTime { start: t0, end: t1, team }),
            ),
            IntermediateTeamTime::Kill(t1, seen) => match team {
                None => (ProcessingState::Present(t0, Some(seen)), None),
                Some(known) => if known == seen {
                    (state, None)
                } else {
                    (
                        ProcessingState::Present(t1, Some(seen)),
                        Some(TeamTime { start: t0, end: t1, team }),
                    )
                },
            },
        },
    }
}

/// The state after folding `events` from `Absent`, and the intervals emitted
/// on the way, in order.
pub open spec fn run(events: Seq<IntermediateTeamTime>) -> (ProcessingState, Seq<TeamTime>)
    decreases events.len(),
{
    if events.len() == 0 {
        (ProcessingState::Absent, Seq::empty())
    } else {
        let (state, out) = run(events.drop_last());
        let (next, emitted) = transition(state, events.last());
        match emitted {
            Some(tt) => (next, out.push(tt)),
            None => (next, out),
        }
    }
}

/// The intervals that reconstruction gives for `events`, in any order.
pub open spec fn team_times_of(events: Seq<IntermediateTeamTime>) -> Seq<TeamTime> {
    run(sequenced(events)).1
}

impl ProcessingState {
    /// Applies one event.
    pub fn advance(&self, event: &IntermediateTeamTime) -> (r: (ProcessingState, Option<TeamTime>))
        ensures
            r == transition(*self, *event),
    {
        match *self {
            ProcessingState::Absent => match *event {
                IntermediateTeamTime::Join(t) => (ProcessingState::Present(t, None), None),
                _ => (ProcessingState::Absent, None),
            },
            ProcessingState::Present(t0, team) => match *event {
                IntermediateTeamTime::Join(t1) => (
                    ProcessingState::Present(t1, None),
                    Some(TeamTime::new(t0, t1, team)),
                ),
                IntermediateTeamTime::Leave(t1) => (
                    ProcessingState::Absent,
                    Some(TeamTime::new(t0, t1, team)),
                ),
                IntermediateTeamTime::Kill(t1, seen) => match team {
                    None => (ProcessingState::Present(t0, Some(seen)), None),
                    Some(known) => if known == seen {
                        (*self, None)
                    } else {
                        (ProcessingState::Present(t1, Some(seen)), Some(TeamTime::new(t0, t1, team)))
                    },
                },
            },
        }
    }
}

/// Folds events that are already in time order into the intervals they
/// close. A session still open when the events run out gives no interval.
pub fn fold_team_times(events: &Vec<IntermediateTeamTime>) -> (r: Vec<TeamTime>)
    ensures
        r@ == run(events@).1,
{
    let mut state = ProcessingState::Absent;
    let mut times: Vec<TeamTime> = Vec::new();
    let n = events.len();
    for i in 0..n
        invariant
            n == events.len(),
            (state, times@) == run(events@.take(i as int)),
    {
        proof {
            assert(events@.take(i + 1).drop_last() =~= events@.take(i as int));
        }
        let (next, emitted) = state.advance(&events[i]);
        if let Some(tt) = emitted {
            times.push(tt);
        }
        state = next;
    }
    assert(events@.take(n as int) =~= events@);
    times
}

/// Orders the events by time and reconstructs the player's intervals.
pub fn extract_team_times(intermediaries: Vec<IntermediateTeamTime>) -> (r: Vec<TeamTime>)
    ensures
        r@ == team_times_of(intermediaries@),
{
    let ordered = sequence(intermediaries);
    fold_team_times(&ordered)
}

} // verus!
