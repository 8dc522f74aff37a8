use pdec::team::Team;
use pdec::timeline::{
    extract_team_times, fold_team_times, sequence, IntermediateTeamTime, ProcessingState, TeamTime,
};

use IntermediateTeamTime::{Join, Kill, Leave};

fn tt(start: i64, end: i64, team: Option<Team>) -> TeamTime {
    TeamTime::new(start, end, team)
}

#[test]
fn join_sighting_leave_gives_one_interval() {
    let out = extract_team_times(vec![Join(100), Kill(150, Team::Axis), Leave(200)]);
    assert_eq!(out, vec![tt(100, 200, Some(Team::Axis))]);
}

#[test]
fn team_switch_splits_the_session() {
    let out = extract_team_times(vec![
        Join(100),
        Kill(150, Team::Axis),
        Kill(180, Team::Allies),
        Leave(200),
    ]);
    assert_eq!(
        out,
        vec![tt(100, 180, Some(Team::Axis)), tt(180, 200, Some(Team::Allies))]
    );
}

#[test]
fn second_join_closes_first_and_stays_open() {
    let out = extract_team_times(vec![Join(100), Join(150)]);
    assert_eq!(out, vec![tt(100, 150, None)]);
}

#[test]
fn sighting_before_join_is_dropped() {
    let out = extract_team_times(vec![Kill(50, Team::Axis), Join(100), Leave(200)]);
    assert_eq!(out, vec![tt(100, 200, None)]);
}

#[test]
fn repeated_same_team_does_not_split() {
    let out = extract_team_times(vec![
        Join(100),
        Kill(150, Team::Axis),
        Kill(160, Team::Axis),
        Leave(200),
    ]);
    assert_eq!(out, vec![tt(100, 200, Some(Team::Axis))]);
}

#[test]
fn empty_input_gives_nothing() {
    assert_eq!(extract_team_times(vec![]), vec![]);
}

#[test]
fn open_session_is_dropped() {
    assert_eq!(extract_team_times(vec![Join(100)]), vec![]);
    assert_eq!(
        extract_team_times(vec![Join(100), Leave(150), Join(300), Kill(320, Team::Allies)]),
        vec![tt(100, 150, None)]
    );
}

#[test]
fn leave_and_sighting_without_join_give_nothing() {
    assert_eq!(extract_team_times(vec![Leave(10), Kill(20, Team::Axis), Leave(30)]), vec![]);
    let (state, emitted) = ProcessingState::Absent.advance(&Leave(10));
    assert_eq!(state, ProcessingState::Absent);
    assert_eq!(emitted, None);
    let (state, emitted) = ProcessingState::Absent.advance(&Kill(10, Team::Allies));
    assert_eq!(state, ProcessingState::Absent);
    assert_eq!(emitted, None);
}

#[test]
fn events_out_of_order_are_sorted_first() {
    let given = vec![Leave(200), Kill(150, Team::Axis), Join(100)];
    assert_eq!(extract_team_times(given), vec![tt(100, 200, Some(Team::Axis))]);
}

#[test]
fn order_of_input_does_not_matter_with_distinct_times() {
    let a = vec![Join(100), Kill(150, Team::Axis), Kill(180, Team::Allies), Leave(200), Join(300), Leave(400)];
    let b = vec![Leave(400), Kill(180, Team::Allies), Join(300), Leave(200), Join(100), Kill(150, Team::Axis)];
    assert_eq!(extract_team_times(a), extract_team_times(b));
}

#[test]
fn output_is_chronological() {
    let out = extract_team_times(vec![
        Join(500),
        Leave(50),
        Join(10),
        Kill(20, Team::Axis),
        Join(30),
        Kill(40, Team::Allies),
        Kill(45, Team::Axis),
        Leave(600),
    ]);
    assert_eq!(
        out,
        vec![
            tt(10, 30, Some(Team::Axis)),
            tt(30, 45, Some(Team::Allies)),
            tt(45, 50, Some(Team::Axis)),
            tt(500, 600, None),
        ]
    );
    for w in out.windows(2) {
        assert!(w[0].end <= w[1].start);
    }
    for t in &out {
        assert!(t.start < t.end);
    }
}

#[test]
fn sequence_is_stable() {
    let got = sequence(vec![Leave(5), Join(3), Join(5), Kill(3, Team::Axis), Leave(1)]);
    assert_eq!(got, vec![Leave(1), Join(3), Kill(3, Team::Axis), Leave(5), Join(5)]);
}

#[test]
fn sequence_keeps_duplicates() {
    let got = sequence(vec![Join(7), Join(7), Leave(2)]);
    assert_eq!(got, vec![Leave(2), Join(7), Join(7)]);
}

#[test]
fn equal_times_keep_input_order() {
    assert_eq!(extract_team_times(vec![Join(100), Leave(100)]), vec![tt(100, 100, None)]);
    assert_eq!(extract_team_times(vec![Leave(100), Join(100)]), vec![]);
}

#[test]
fn fold_does_not_reorder() {
    assert_eq!(fold_team_times(&vec![Leave(200), Join(100)]), vec![]);
    assert_eq!(fold_team_times(&vec![Join(100), Leave(200)]), vec![tt(100, 200, None)]);
}

#[test]
fn first_sighting_sets_team_without_moving_start() {
    let (state, emitted) = ProcessingState::Present(100, None).advance(&Kill(150, Team::Allies));
    assert_eq!(state, ProcessingState::Present(100, Some(Team::Allies)));
    assert_eq!(emitted, None);
}

#[test]
fn extreme_times() {
    let out = extract_team_times(vec![Join(i64::MIN), Leave(i64::MAX)]);
    assert_eq!(out, vec![tt(i64::MIN, i64::MAX, None)]);
}

#[test]
fn event_time_reads_each_kind() {
    assert_eq!(Join(1).time(), 1);
    assert_eq!(Leave(2).time(), 2);
    assert_eq!(Kill(3, Team::Axis).time(), 3);
}
