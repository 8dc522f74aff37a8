//! Normalization of the server's textual log records into events.
use vstd::prelude::*;
use crate::team::{team_named, team_of_chars, Team};
use crate::text::{chars_of, route_url, str_eq};
use crate::timeline::{extract_team_times, team_times_of, IntermediateTeamTime, TeamTime};

verus! {

// ---------------------------------------------------------------------
// Timestamps

pub open spec fn is_digit(c: char) -> bool {
    '0' <= c <= '9'
}

/// The end of the run of digits of `s` that goes on from `i`.
pub open spec fn digit_run_end(s: Seq<char>, i: int) -> int
    decreases s.len() - i,
{
    if 0 <= i < s.len() && is_digit(s[i]) {
        digit_run_end(s, i + 1)
    } else {
        i
    }
}

/// A maximal run of at least six digits starts at `i`.
pub open spec fn long_run_at(s: Seq<char>, i: int) -> bool {
    &&& 0 <= i < s.len()
    &&& (i == 0 || !is_digit(s[i - 1]))
    &&& digit_run_end(s, i) - i >= 6
}

/// The first position, from `i` on, where a run of at least six digits
/// starts.
pub open spec fn first_long_run_from(s: Seq<char>, i: int) -> Option<int>
    decreases s.len() - i,
{
    if i < 0 || i >= s.len() {
        None
    } else if long_run_at(s, i) {
        Some(i)
    } else {
        first_long_run_from(s, i + 1)
    }
}

/// The number that the decimal digits `ds` write.
pub open spec fn digits_value(ds: Seq<char>) -> nat
    decreases ds.len(),
{
    if ds.len() == 0 {
        0
    } else {
        (10 * digits_value(ds.drop_last()) + (ds.last() as int - '0' as int)) as nat
    }
}

/// The count of seconds written by the first run of six or more digits in
/// `s`; `None` where there is no such run or its value exceeds `i64`.
pub open spec fn epoch_seconds_of(s: Seq<char>) -> Option<i64> {
    match first_long_run_from(s, 0) {
        None => None,
        Some(i) => {
            let v = digits_value(s.subrange(i, digit_run_end(s, i)));
            if v <= i64::MAX {
                Some(v as i64)
            } else {
                None
            }
        },
    }
}

proof fn lemma_digit_run(s: Seq<char>, i: int)
    requires
        0 <= i <= s.len(),
    ensures
        i <= digit_run_end(s, i) <= s.len(),
        forall|k: int| i <= k < digit_run_end(s, i) ==> is_digit(s[k]),
        digit_run_end(s, i) < s.len() ==> !is_digit(s[digit_run_end(s, i)]),
    decreases s.len() - i,
{
    if i < s.len() && is_digit(s[i]) {
        lemma_digit_run(s, i + 1);
    }
}

fn digit_run_end_at(s: &[char], i: usize) -> (r: usize)
    requires
        i <= s@.len(),
    ensures
        r == digit_run_end(s@, i as int),
        i <= r <= s@.len(),
{
    let mut j = i;
    while j < s.len() && '0' <= s[j] && s[j] <= '9'
        invariant
            i <= j <= s@.len(),
            digit_run_end(s@, j as int) == digit_run_end(s@, i as int),
        decreases s@.len() - j,
    {
        j = j + 1;
    }
    j
}

/// The value of the decimal digits `s[from..to]`, if it fits in `i64`.
fn digits_to_i64(s: &[char], from: usize, to: usize) -> (r: Option<i64>)
    requires
        from <= to <= s@.len(),
        forall|k: int| from <= k < to ==> is_digit(s@[k]),
    ensures
        r == (if digits_value(s@.subrange(from as int, to as int)) <= i64::MAX {
            Some(digits_value(s@.subrange(from as int, to as int)) as i64)
        } else {
            None
        }),
{
    let mut v: i64 = 0;
    let mut k = from;
    while k < to
        invariant
            from <= k <= to <= s@.len(),
            forall|m: int| from <= m < to ==> is_digit(s@[m]),
            v >= 0,
            v == digits_value(s@.subrange(from as int, k as int)),
        decreases to - k,
    {
        let d = (s[k] as u32 - '0' as u32) as i64;
        proof {
            assert(s@.subrange(from as int, k + 1).drop_last() =~= s@.subrange(from as int, k as int));
        }
        match v.checked_mul(10) {
            None => {
                proof {
                    lemma_digits_grow(s@.subrange(from as int, to as int), k - from + 1);
                    assert(s@.subrange(from as int, to as int).take(k - from + 1) =~= s@.subrange(from as int, k + 1));
                }
                return None;
            },
            Some(w) => match w.checked_add(d) {
                None => {
                    proof {
                        lemma_digits_grow(s@.subrange(from as int, to as int), k - from + 1);
                        assert(s@.subrange(from as int, to as int).take(k - from + 1) =~= s@.subrange(from as int, k + 1));
                    }
                    return None;
                },
                Some(x) => {
                    v = x;
                },
            },
        }
        k = k + 1;
    }
    Some(v)
}

/// A number only grows as digits are added after it.
proof fn lemma_digits_grow(ds: Seq<char>, n: int)
    requires
        0 <= n <= ds.len(),
        forall|k: int| 0 <= k < ds.len() ==> is_digit(ds[k]),
    ensures
        digits_value(ds.take(n)) <= digits_value(ds),
    decreases ds.len() - n,
{
    if n < ds.len() {
        lemma_digits_grow(ds, n + 1);
        assert(ds.take(n + 1).drop_last() =~= ds.take(n));
    } else {
        assert(ds.take(n) =~= ds);
    }
}

/// The count of seconds written by the first run of six or more digits in
/// `raw`, where it fits in `i64`.
pub fn epoch_seconds_in(raw: &str) -> (r: Option<i64>)
    ensures
        r == epoch_seconds_of(raw@),
{
    let s = chars_of(raw);
    let n = s.len();
    let mut i: usize = 0;
    while i < n
        invariant
            n == s@.len(),
            s@ == raw@,
            i <= n,
            first_long_run_from(s@, 0) == first_long_run_from(s@, i as int),
        decreases n - i,
    {
        if i == 0 || !('0' <= s[i - 1] && s[i - 1] <= '9') {
            let e = digit_run_end_at(s.as_slice(), i);
            if e - i >= 6 {
                proof {
                    lemma_digit_run(s@, i as int);
                }
                return digits_to_i64(s.as_slice(), i, e);
            }
        }
        i = i + 1;
    }
    None
}

/// Whether chrono represents the instant `secs` seconds after the Unix
/// epoch as a UTC date and time.
pub uninterp spec fn utc_representable(secs: i64) -> bool;

/// Relies on chrono's `DateTime::<Utc>::from_timestamp(secs, 0)`, which is
/// `None` exactly when the second count falls outside the dates that chrono
/// represents.
#[verifier::external_body]
fn is_utc_representable(secs: i64) -> (r: bool)
    ensures
        r == utc_representable(secs),
{
    chrono::DateTime::<chrono::Utc>::from_timestamp(secs, 0).is_some()
}

/// The time of a record whose text is `raw`: the count of seconds that its
/// first run of six or more digits writes, where that is an instant chrono
/// can represent.
pub open spec fn record_time(raw: Seq<char>) -> Option<i64> {
    match epoch_seconds_of(raw) {
        Some(t) => if utc_representable(t) {
            Some(t)
        } else {
            None
        },
        None => None,
    }
}

// ---------------------------------------------------------------------
// Team tags

pub open spec fn is_tag_delimiter(c: char) -> bool {
    c == '/' || c == '(' || c == ')'
}

/// The first position from `i` on that holds a tag delimiter, or the end.
pub open spec fn label_end(s: Seq<char>, i: int) -> int
    decreases s.len() - i,
{
    if 0 <= i < s.len() && !is_tag_delimiter(s[i]) {
        label_end(s, i + 1)
    } else {
        i
    }
}

/// A tag `(<label>/<id>)` starts at `p`: an opening parenthesis, a
/// non-empty label free of `/`, `(` and `)`, a slash, the identifier
/// itself and a closing parenthesis.
pub open spec fn tag_at(s: Seq<char>, id: Seq<char>, p: int) -> bool {
    let q = label_end(s, p + 1);
    &&& 0 <= p < s.len()
    &&& s[p] == '('
    &&& q > p + 1
    &&& q + id.len() + 1 < s.len()
    &&& s[q] == '/'
    &&& s.subrange(q + 1, q + 1 + id.len()) == id
    &&& s[q + 1 + id.len()] == ')'
}

/// The first position, from `p` on, where a tag for `id` starts.
pub open spec fn first_tag_from(s: Seq<char>, id: Seq<char>, p: int) -> Option<int>
    decreases s.len() - p,
{
    if p < 0 || p >= s.len() {
        None
    } else if tag_at(s, id, p) {
        Some(p)
    } else {
        first_tag_from(s, id, p + 1)
    }
}

/// The team that the first tag for `id` in `s` names, if there is such a
/// tag and its label is a team.
pub open spec fn tagged_team(s: Seq<char>, id: Seq<char>) -> Option<Team> {
    match first_tag_from(s, id, 0) {
        Some(p) => team_named(s.subrange(p + 1, label_end(s, p + 1))),
        None => None,
    }
}

proof fn lemma_label_end(s: Seq<char>, i: int)
    requires
        0 <= i <= s.len(),
    ensures
        i <= label_end(s, i) <= s.len(),
    decreases s.len() - i,
{
    if i < s.len() && !is_tag_delimiter(s[i]) {
        lemma_label_end(s, i + 1);
    }
}

fn label_end_at(s: &[char], i: usize) -> (r: usize)
    requires
        i <= s@.len(),
    ensures
        r == label_end(s@, i as int),
        i <= r <= s@.len(),
{
    let mut j = i;
    while j < s.len() && s[j] != '/' && s[j] != '(' && s[j] != ')'
        invariant
            i <= j <= s@.len(),
            label_end(s@, j as int) == label_end(s@, i as int),
        decreases s@.len() - j,
    {
        j = j + 1;
    }
    j
}

fn is_tag_at(s: &[char], id: &[char], p: usize) -> (r: bool)
    requires
        p < s@.len(),
    ensures
        r == tag_at(s@, id@, p as int),
{
    if s[p] != '(' {
        return false;
    }
    let q = label_end_at(s, p + 1);
    let m = id.len();
    if q <= p + 1 || q >= s.len() || s.len() - q - 1 <= m || s[q] != '/' {
        return false;
    }
    let n = s.len();
    let mut k: usize = 0;
    while k < m
        invariant
            n == s@.len(),
            p < s@.len(),
            s@[p as int] == '(',
            q == label_end(s@, p + 1),
            p + 1 < q < s@.len(),
            s@[q as int] == '/',
            q + 1 + m < s@.len(),
            m == id@.len(),
            k <= m,
            forall|j: int| 0 <= j < k ==> s@[q + 1 + j] == id@[j],
        decreases m - k,
    {
        if s[q + 1 + k] != id[k] {
            assert(s@.subrange(q + 1, q + 1 + m)[k as int] != id@[k as int]);
            return false;
        }
        k = k + 1;
    }
    assert(s@.subrange(q + 1, q + 1 + m) =~= id@);
    s[q + 1 + m] == ')'
}

/// The team that the first tag for `id` in `s` names.
fn find_tagged_team(s: &[char], id: &[char]) -> (r: Option<Team>)
    ensures
        r == tagged_team(s@, id@),
{
    let n = s.len();
    let mut p: usize = 0;
    while p < n
        invariant
            n == s@.len(),
            p <= n,
            first_tag_from(s@, id@, 0) == first_tag_from(s@, id@, p as int),
        decreases n - p,
    {
        if is_tag_at(s, id, p) {
            let q = label_end_at(s, p + 1);
            let label = vstd::slice::slice_subrange(s, p + 1, q);
            return team_of_chars(label);
        }
        p = p + 1;
    }
    None
}

// ---------------------------------------------------------------------
// Records

/// One record of the server's historical log, as the server sends it.
#[derive(Debug, Clone)]
pub struct HistoricalLog {
    /// The record's type label, such as `CONNECTED`.
    pub kind: String,
    /// The record's text.
    pub raw: String,
}

/// The body of a reply to a [`HistoricalLogsRequest`].
#[derive(Debug)]
pub struct HistoricalLogsResponse {
    pub result: Vec<HistoricalLog>,
}

/// Why a record gives no event.
#[derive(PartialEq, Eq, Structural, Debug, Clone, Copy)]
pub enum NormalizeError {
    /// The text holds no run of six or more digits that reads as a time.
    MissingTimestamp,
    /// An action record carries no team tag for the watched player.
    UnmatchedTag,
}

/// The event that a record of type `kind` with text `raw`, read as
/// happening at `time`, gives about the player `id`: `Ok(None)` for a type
/// that says nothing of presence.
pub open spec fn event_for(kind: Seq<char>, raw: Seq<char>, id: Seq<char>, time: Option<i64>) -> Result<
    Option<IntermediateTeamTime>,
    NormalizeError,
> {
    if kind == "DISCONNECTED"@ {
        match time {
            Some(t) => Ok(Some(IntermediateTeamTime::Leave(t))),
            None => Err(NormalizeError::MissingTimestamp),
        }
    } else if kind == "CONNECTED"@ {
        match time {
            Some(t) => Ok(Some(IntermediateTeamTime::Join(t))),
            None => Err(NormalizeError::MissingTimestamp),
        }
    } else if kind == "KILL"@ {
        match tagged_team(raw, id) {
            None => Err(NormalizeError::UnmatchedTag),
            Some(team) => match time {
                Some(t) => Ok(Some(IntermediateTeamTime::Kill(t, team))),
                None => Err(NormalizeError::MissingTimestamp),
            },
        }
    } else {
        Ok(None)
    }
}

/// The event that a record of type `kind` with text `raw` gives about the
/// player `id`, at the time its text holds.
pub open spec fn normalized(kind: Seq<char>, raw: Seq<char>, id: Seq<char>) -> Result<
    Option<IntermediateTeamTime>,
    NormalizeError,
> {
    event_for(kind, raw, id, record_time(raw))
}

/// The events that `logs` give about the player `id`, in the order of the
/// records, leaving out the records that give none.
pub open spec fn events_of(logs: Seq<HistoricalLog>, id: Seq<char>) -> Seq<IntermediateTeamTime>
    decreases logs.len(),
{
    if logs.len() == 0 {
        Seq::empty()
    } else {
        let before = events_of(logs.drop_last(), id);
        match normalized(logs.last().kind@, logs.last().raw@, id) {
            Ok(Some(e)) => before.push(e),
            _ => before,
        }
    }
}

impl HistoricalLog {
    /// The time of the record, if its text holds one.
    pub fn time(&self) -> (r: Option<i64>)
        ensures
            r == record_time(self.raw@),
    {
        match epoch_seconds_in(self.raw.as_str()) {
            Some(t) => if is_utc_representable(t) {
                Some(t)
            } else {
                None
            },
            None => None,
        }
    }

    /// The event this record gives about the player `id`, read as
    /// happening at `time`.
    pub fn event_at(&self, id: &str, time: Option<i64>) -> (r: Result<
        Option<IntermediateTeamTime>,
        NormalizeError,
    >)
        ensures
            r == event_for(self.kind@, self.raw@, id@, time),
    {
        let kind = self.kind.as_str();
        if str_eq(kind, "DISCONNECTED") {
            match time {
                Some(t) => Ok(Some(IntermediateTeamTime::Leave(t))),
                None => Err(NormalizeError::MissingTimestamp),
            }
        } else if str_eq(kind, "CONNECTED") {
            match time {
                Some(t) => Ok(Some(IntermediateTeamTime::Join(t))),
                None => Err(NormalizeError::MissingTimestamp),
            }
        } else if str_eq(kind, "KILL") {
            let raw = chars_of(self.raw.as_str());
            let id_chars = chars_of(id);
            match find_tagged_team(raw.as_slice(), id_chars.as_slice()) {
                None => Err(NormalizeError::UnmatchedTag),
                Some(team) => match time {
                    Some(t) => Ok(Some(IntermediateTeamTime::Kill(t, team))),
                    None => Err(NormalizeError::MissingTimestamp),
                },
            }
        } else {
            Ok(None)
        }
    }

    /// The event this record gives about the player `id`.
    pub fn normalize(&self, id: &str) -> (r: Result<Option<IntermediateTeamTime>, NormalizeError>)
        ensures
            r == normalized(self.kind@, self.raw@, id@),
    {
        self.event_at(id, self.time())
    }
}

/// Normalizes each record, leaving out those that give no event.
pub fn historical_log_into_intermediate(id: &str, logs: Vec<HistoricalLog>) -> (r: Vec<
    IntermediateTeamTime,
>)
    ensures
        r@ == events_of(logs@, id@),
{
    let mut times: Vec<IntermediateTeamTime> = Vec::new();
    let n = logs.len();
    for i in 0..n
        invariant
            n == logs.len(),
            times@ == events_of(logs@.take(i as int), id@),
    {
        proof {
            assert(logs@.take(i + 1).drop_last() =~= logs@.take(i as int));
        }
        if let Ok(Some(e)) = logs[i].normalize(id) {
            times.push(e);
        }
    }
    assert(logs@.take(n as int) =~= logs@);
    times
}

/// The intervals of presence of the player `id` that `logs` show.
pub fn team_times_from_logs(id: &str, logs: Vec<HistoricalLog>) -> (r: Vec<TeamTime>)
    ensures
        r@ == team_times_of(events_of(logs@, id@)),
{
    let events = historical_log_into_intermediate(id, logs);
    extract_team_times(events)
}

/// The query for the historical log of one player.
#[derive(Debug, Clone)]
pub struct HistoricalLogsRequest {
    pub player_name: String,
    pub log_type: String,
    pub player_id: String,
    pub from: Option<String>,
    pub till: Option<String>,
    pub limit: u32,
    pub time_sort: String,
    pub exact_player: bool,
    pub exact_action: bool,
    pub server_filter: String,
    pub output: Option<String>,
}

/// The address of the server's historical log route.
pub fn historical_logs_url(endpoint: &str) -> (r: String)
    ensures
        r@ == endpoint@ + "/api/get_historical_logs"@,
{
    route_url(endpoint, "/api/get_historical_logs")
}

/// The most records one query asks for.
pub const LOG_LIMIT: u32 = 9999999;

impl HistoricalLogsRequest {
    /// Asks for every record of the player `id`, newest first.
    pub fn by_id(id: String) -> (r: HistoricalLogsRequest)
        ensures
            r.player_id == id,
            r.player_name@ == Seq::<char>::empty(),
            r.log_type@ == Seq::<char>::empty(),
            r.from is None,
            r.till is None,
            r.limit == LOG_LIMIT,
            r.time_sort@ == "desc"@,
            !r.exact_player,
            !r.exact_action,
            r.server_filter@ == Seq::<char>::empty(),
            r.output is None,
    {
        HistoricalLogsRequest {
            player_name: String::new(),
            log_type: String::new(),
            player_id: id,
            from: None,
            till: None,
            limit: LOG_LIMIT,
            time_sort: "desc".to_owned(),
            exact_player: false,
            exact_action: false,
            server_filter: String::new(),
            output: None,
        }
    }
}

} // verus!
