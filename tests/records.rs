use pdec::records::{
    epoch_seconds_in, historical_log_into_intermediate, historical_logs_url,
    team_times_from_logs, HistoricalLog, HistoricalLogsRequest, NormalizeError, LOG_LIMIT,
};
use pdec::team::Team;
use pdec::timeline::{IntermediateTeamTime, TeamTime};

fn log(kind: &str, raw: &str) -> HistoricalLog {
    HistoricalLog { kind: kind.to_string(), raw: raw.to_string() }
}

#[test]
fn connect_without_digits_is_rejected() {
    let record = log("CONNECTED", "no digits here");
    assert_eq!(record.normalize("76561198000000000"), Err(NormalizeError::MissingTimestamp));
    assert_eq!(historical_log_into_intermediate("p1", vec![record]), vec![]);
}

#[test]
fn connect_and_disconnect_give_join_and_leave() {
    assert_eq!(
        log("CONNECTED", "[1700000000] CONNECTED Someone (p1)").normalize("p1"),
        Ok(Some(IntermediateTeamTime::Join(1700000000)))
    );
    assert_eq!(
        log("DISCONNECTED", "at 1700000500 DISCONNECTED").normalize("p1"),
        Ok(Some(IntermediateTeamTime::Leave(1700000500)))
    );
}

#[test]
fn kill_with_tag_gives_sighting() {
    let record = log("KILL", "1700000100 KILL: A(Axis/p1) -> B(Allies/p2) with MP40");
    assert_eq!(
        record.normalize("p1"),
        Ok(Some(IntermediateTeamTime::Kill(1700000100, Team::Axis)))
    );
    assert_eq!(
        record.normalize("p2"),
        Ok(Some(IntermediateTeamTime::Kill(1700000100, Team::Allies)))
    );
}

#[test]
fn kill_without_tag_for_player_is_unmatched() {
    let record = log("KILL", "1700000100 KILL: A(Axis/p1) -> B(Allies/p2)");
    assert_eq!(record.normalize("p3"), Err(NormalizeError::UnmatchedTag));
}

#[test]
fn kill_with_unknown_team_is_unmatched() {
    let record = log("KILL", "1700000100 KILL: A(Neutral/p1)");
    assert_eq!(record.normalize("p1"), Err(NormalizeError::UnmatchedTag));
}

#[test]
fn kill_tag_without_time_is_missing_timestamp() {
    let record = log("KILL", "KILL: A(Allies/p1)");
    assert_eq!(record.normalize("p1"), Err(NormalizeError::MissingTimestamp));
}

#[test]
fn other_kinds_are_ignored() {
    assert_eq!(log("CHAT", "1700000000 hello").normalize("p1"), Ok(None));
    assert_eq!(log("connected", "1700000000").normalize("p1"), Ok(None));
}

#[test]
fn first_long_digit_run_is_the_time() {
    assert_eq!(epoch_seconds_in("id 12345 at 1234567 and 7654321"), Some(1234567));
    assert_eq!(epoch_seconds_in("abc123456def"), Some(123456));
    assert_eq!(epoch_seconds_in("000042"), Some(42));
    assert_eq!(epoch_seconds_in("12345"), None);
    assert_eq!(epoch_seconds_in(""), None);
}

#[test]
fn digit_run_beyond_i64_is_none() {
    assert_eq!(epoch_seconds_in("9223372036854775807"), Some(i64::MAX));
    assert_eq!(epoch_seconds_in("9223372036854775808"), None);
    assert_eq!(epoch_seconds_in("123456789012345678901234567890"), None);
}

#[test]
fn time_outside_the_calendar_is_rejected() {
    let record = log("CONNECTED", "9000000000000000");
    assert_eq!(epoch_seconds_in("9000000000000000"), Some(9000000000000000));
    assert_eq!(record.time(), None);
    assert_eq!(record.normalize("p1"), Err(NormalizeError::MissingTimestamp));
    assert_eq!(log("CONNECTED", "1700000000").time(), Some(1700000000));
}

#[test]
fn logs_become_intervals() {
    let logs = vec![
        log("DISCONNECTED", "1700000200 DISCONNECTED"),
        log("KILL", "1700000180 KILL: x(Allies/p1) -> y(Axis/p2)"),
        log("KILL", "1700000150 KILL: x(Axis/p1) -> y(Allies/p2)"),
        log("KILL", "1700000160 KILL: x(Axis/p9) -> y(Allies/p2)"),
        log("CONNECTED", "no time"),
        log("CONNECTED", "1700000100 CONNECTED"),
    ];
    assert_eq!(
        team_times_from_logs("p1", logs),
        vec![
            TeamTime::new(1700000100, 1700000180, Some(Team::Axis)),
            TeamTime::new(1700000180, 1700000200, Some(Team::Allies)),
        ]
    );
}

#[test]
fn request_by_id_asks_for_everything() {
    let r = HistoricalLogsRequest::by_id("p1".to_string());
    assert_eq!(r.player_id, "p1");
    assert_eq!(r.player_name, "");
    assert_eq!(r.log_type, "");
    assert_eq!(r.from, None);
    assert_eq!(r.till, None);
    assert_eq!(r.limit, LOG_LIMIT);
    assert_eq!(LOG_LIMIT, 9999999);
    assert_eq!(r.time_sort, "desc");
    assert!(!r.exact_player);
    assert!(!r.exact_action);
    assert_eq!(r.server_filter, "");
    assert_eq!(r.output, None);
}

#[test]
fn logs_url_joins_route() {
    assert_eq!(historical_logs_url("http://x:8"), "http://x:8/api/get_historical_logs");
}

#[test]
fn event_at_uses_given_time() {
    assert_eq!(
        log("CONNECTED", "no digits").event_at("p1", Some(5)),
        Ok(Some(IntermediateTeamTime::Join(5)))
    );
    assert_eq!(
        log("DISCONNECTED", "1700000000").event_at("p1", None),
        Err(NormalizeError::MissingTimestamp)
    );
    assert_eq!(
        log("KILL", "(Allies/p1)").event_at("p1", Some(9)),
        Ok(Some(IntermediateTeamTime::Kill(9, Team::Allies)))
    );
    assert_eq!(log("KILL", "(Allies/p1)").event_at("p2", Some(9)), Err(NormalizeError::UnmatchedTag));
    assert_eq!(log("OTHER", "").event_at("p1", None), Ok(None));
}

#[test]
fn tag_must_have_label_and_exact_id() {
    assert_eq!(log("KILL", "1700000000 (/p1)").normalize("p1"), Err(NormalizeError::UnmatchedTag));
    assert_eq!(log("KILL", "1700000000 (Axis/p12)").normalize("p1"), Err(NormalizeError::UnmatchedTag));
    assert_eq!(
        log("KILL", "1700000000 (x(Axis/p1)").normalize("p1"),
        Ok(Some(IntermediateTeamTime::Kill(1700000000, Team::Axis)))
    );
    assert_eq!(
        log("KILL", "1700000000 (Neutral/p1) (Axis/p1)").normalize("p1"),
        Err(NormalizeError::UnmatchedTag)
    );
}
