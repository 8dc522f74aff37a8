use vstd::prelude::*;

verus! {

/// One of the two sides a player can fight for.
#[derive(PartialEq, Eq, Structural, Debug, Clone, Copy)]
pub enum Team {
    Axis,
    Allies,
}

/// The team whose label is exactly `name`, if any.
pub open spec fn team_named(name: Seq<char>) -> Option<Team> {
    if name == seq!['A', 'l', 'l', 'i', 'e', 's'] {
        Some(Team::Allies)
    } else if name == seq!['A', 'x', 'i', 's'] {
        Some(Team::Axis)
    } else {
        None
    }
}

/// The team labelled by the characters `name`.
pub fn team_of_chars(name: &[char]) -> (r: Option<Team>)
    ensures
        r == team_named(name@),
{
    if name.len() == 6 && name[0] == 'A' && name[1] == 'l' && name[2] == 'l' && name[3] == 'i'
        && name[4] == 'e' && name[5] == 's' {
        assert(name@ =~= seq!['A', 'l', 'l', 'i', 'e', 's']);
        Some(Team::Allies)
    } else if name.len() == 4 && name[0] == 'A' && name[1] == 'x' && name[2] == 'i' && name[3]
        == 's' {
        assert(name@ =~= seq!['A', 'x', 'i', 's']);
        Some(Team::Axis)
    } else {
        None
    }
}

impl Team {
    /// The team labelled `v`, which must be `"Allies"` or `"Axis"`.
    pub fn from_str(v: &str) -> (r: Team)
        requires
            team_named(v@) is Some,
        ensures
            team_named(v@) == Some(r),
    {
        let chars = crate::text::chars_of(v);
        team_of_chars(chars.as_slice()).unwrap()
    }
}

/// A watched player: the identifier the server knows them by, and the
/// name chosen for display.
#[derive(Debug, Clone)]
pub struct Player {
    pub id: String,
    pub name: String,
}

impl Player {
    pub fn new(id: String, name: String) -> (r: Player)
        ensures
            r.id == id,
            r.name == name,
    {
        Player { name, id }
    }
}

} // verus!
