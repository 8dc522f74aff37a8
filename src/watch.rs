//! The players under observation, each with the intervals reconstructed
//! for them.
use vstd::prelude::*;
use crate::team::Player;
use crate::text::str_eq;
use crate::timeline::TeamTime;

verus! {

/// Whether `t` shows in a view of the time axis from `min_x` to `max_x`.
pub open spec fn in_view(min_x: i64, max_x: i64) -> spec_fn(TeamTime) -> bool {
    |t: TeamTime| t.end > min_x && t.start < max_x
}

/// The intervals of `times` that reach into the view from `min_x` to
/// `max_x`, in their order.
pub fn visible_team_times(times: &Vec<TeamTime>, min_x: i64, max_x: i64) -> (r: Vec<TeamTime>)
    ensures
        r@ == times@.filter(in_view(min_x, max_x)),
{
    let mut r: Vec<TeamTime> = Vec::new();
    let n = times.len();
    for i in 0..n
        invariant
            n == times.len(),
            r@ == times@.take(i as int).filter(in_view(min_x, max_x)),
    {
        proof {
            times@.take(i as int).lemma_filter_push(times@[i as int], in_view(min_x, max_x));
            assert(times@.take(i + 1) =~= times@.take(i as int).push(times@[i as int]));
        }
        let t = times[i];
        if t.end > min_x && t.start < max_x {
            r.push(t);
        }
    }
    assert(times@.take(n as int) =~= times@);
    r
}

/// The first position, from `k` on, of a player whose identifier is `id`.
pub open spec fn first_watched_from(
    entries: Seq<(Player, Vec<TeamTime>)>,
    id: Seq<char>,
    k: int,
) -> Option<int>
    decreases entries.len() - k,
{
    if k < 0 || k >= entries.len() {
        None
    } else if entries[k].0.id@ == id {
        Some(k)
    } else {
        first_watched_from(entries, id, k + 1)
    }
}

/// The watched players in the order they were added, each with the
/// intervals reconstructed for them. Intervals are never changed once
/// stored: a player's are dropped whole when the player is unwatched.
#[derive(Debug)]
pub struct WatchList {
    entries: Vec<(Player, Vec<TeamTime>)>,
}

impl WatchList {
    pub closed spec fn view_entries(&self) -> Seq<(Player, Vec<TeamTime>)> {
        self.entries@
    }

    pub fn new() -> (r: WatchList)
        ensures
            r.view_entries() == Seq::<(Player, Vec<TeamTime>)>::empty(),
    {
        WatchList { entries: Vec::new() }
    }

    /// Starts watching `player`, whose intervals are `times`.
    pub fn watch(&mut self, player: Player, times: Vec<TeamTime>)
        ensures
            final(self).view_entries() == old(self).view_entries().push((player, times)),
    {
        self.entries.push((player, times));
    }

    /// Stops watching the first player whose identifier is `id`, dropping
    /// their intervals; `false` where no such player is watched.
    pub fn unwatch(&mut self, id: &str) -> (r: bool)
        ensures
            match first_watched_from(old(self).view_entries(), id@, 0) {
                Some(k) => r && final(self).view_entries() == old(self).view_entries().remove(k),
                None => !r && final(self).view_entries() == old(self).view_entries(),
            },
    {
        let n = self.entries.len();
        let mut k: usize = 0;
        while k < n
            invariant
                n == self.entries@.len(),
                self.entries@ == old(self).entries@,
                k <= n,
                first_watched_from(self.entries@, id@, 0) == first_watched_from(
                    self.entries@,
                    id@,
                    k as int,
                ),
            decreases n - k,
        {
            if str_eq(self.entries[k].0.id.as_str(), id) {
                self.entries.remove(k);
                return true;
            }
            k = k + 1;
        }
        false
    }

    /// How many players are watched.
    pub fn len(&self) -> (r: usize)
        ensures
            r == self.view_entries().len(),
    {
        self.entries.len()
    }

    /// The `i`-th watched player and their intervals.
    pub fn get(&self, i: usize) -> (r: &(Player, Vec<TeamTime>))
        requires
            i < self.view_entries().len(),
        ensures
            *r == self.view_entries()[i as int],
    {
        &self.entries[i]
    }
}

} // verus!
