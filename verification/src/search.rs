use vstd::prelude::*;
use crate::table::{count_occupied, occupied, seat, Table};

verus! {

/// The filter a table search runs against; a zero field (or, for the
/// name, an equal string) means the table must match it.
pub struct SearchCriteria {
    pub name: String,
    pub max_players: usize,
    pub current_players: i32,
    pub minimal_bid: i32,
    pub starting_chips: i32,
}

/// The public summary of a table that a search returns.
pub struct PubTable {
    pub id: usize,
    pub name: String,
    pub current_players: i32,
    pub max_players: usize,
    pub minimal_bid: i32,
    pub starting_chips: i32,
}

/// Whether a table with `n_players` seated players passes the search
/// filter: each numeric criterion must equal the table's value or be 0
/// (meaning any), and the name must match exactly.
pub open spec fn spec_matches(t: Table, c: SearchCriteria, n_players: int) -> bool {
    &&& (t.max_players == c.max_players || c.max_players == 0)
    &&& (t.minimal_bid == c.minimal_bid || c.minimal_bid == 0)
    &&& (t.starting_chips == c.starting_chips || c.starting_chips == 0)
    &&& (n_players == c.current_players as int || c.current_players == 0)
    &&& t.name@ == c.name@
}

/// How many seats of the table are taken.
pub fn count_players(t: &Table) -> (n: usize)
    requires
        t.players@.len() == 8,
    ensures
        n as int == count_occupied(t.players@, 8),
        n <= 8,
{
    let mut n: usize = 0;
    let mut i: usize = 0;
    while i < 8
        invariant
            i <= 8,
            n as int == count_occupied(t.players@, i as int),
            n <= i,
            t.players@.len() == 8,
        decreases 8 - i,
    {
        if t.players[i].is_some() {
            n = n + 1;
        }
        i = i + 1;
    }
    n
}

/// Whether the table passes the search filter.
pub fn table_matches(t: &Table, criteria: &SearchCriteria) -> (r: bool)
    requires
        t.players@.len() == 8,
    ensures
        r == spec_matches(*t, *criteria, count_occupied(t.players@, 8)),
{
    let n = count_players(t);
    (t.max_players == criteria.max_players || criteria.max_players == 0) && (t.minimal_bid
        == criteria.minimal_bid || criteria.minimal_bid == 0) && (t.starting_chips
        == criteria.starting_chips || criteria.starting_chips == 0) && (n as i32
        == criteria.current_players || criteria.current_players == 0) && t.name
        == criteria.name
}

/// Whether some seated player of the table holds the identity token `key`.
pub fn table_has_key(t: &Table, key: &String) -> (r: bool)
    requires
        t.players@.len() == 8,
    ensures
        r == exists|i: int|
            0 <= i < 8 && occupied(t.players@, i) && (#[trigger] seat(t.players@, i)).key@
                == key@,
{
    let mut i: usize = 0;
    while i < 8
        invariant
            i <= 8,
            t.players@.len() == 8,
            forall|j: int|
                0 <= j < i as int && occupied(t.players@, j) ==> (#[trigger] seat(
                    t.players@,
                    j,
                )).key@ != key@,
        decreases 8 - i,
    {
        let hit = match &t.players[i] {
            Some(p) => p.key == *key,
            None => false,
        };
        if hit {
            proof {
                assert(occupied(t.players@, i as int) && seat(t.players@, i as int).key@
                    == key@);
            }
            return true;
        }
        i = i + 1;
    }
    false
}

/// The first seat whose player holds the identity token `key`.
pub fn seat_of_key(t: &Table, key: &String) -> (r: Option<usize>)
    requires
        t.players@.len() == 8,
    ensures
        match r {
            Some(i) => i < 8 && occupied(t.players@, i as int) && seat(
                t.players@,
                i as int,
            ).key@ == key@ && forall|j: int|
                0 <= j < i as int && occupied(t.players@, j) ==> (#[trigger] seat(
                    t.players@,
                    j,
                )).key@ != key@,
            None => forall|j: int|
                0 <= j < 8 && occupied(t.players@, j) ==> (#[trigger] seat(
                    t.players@,
                    j,
                )).key@ != key@,
        },
{
    let mut i: usize = 0;
    while i < 8
        invariant
            i <= 8,
            t.players@.len() == 8,
            forall|j: int|
                0 <= j < i as int && occupied(t.players@, j) ==> (#[trigger] seat(
                    t.players@,
                    j,
                )).key@ != key@,
        decreases 8 - i,
    {
        let hit = match &t.players[i] {
            Some(p) => p.key == *key,
            None => false,
        };
        if hit {
            return Some(i);
        }
        i = i + 1;
    }
    None
}

} // verus!
