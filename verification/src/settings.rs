use vstd::prelude::*;
use crate::table::{wf, Table, MONEY_CAP};

verus! {

/// A request to change a table's configuration, authorized by the
/// requesting player's identity token.
pub struct TableSettings {
    pub key: String,
    pub name: String,
    pub minimal_bid: i32,
    pub max_players: usize,
    pub starting_chips: i32,
}

/// The accepted configuration bounds: a positive minimum bid, a seat cap
/// between 1 and 7, and a positive starting stack.
pub open spec fn spec_settings_valid(s: TableSettings) -> bool {
    &&& s.minimal_bid > 0
    &&& 0 < s.max_players < 8
    &&& s.starting_chips > 0
}

/// Whether a settings request passes the configuration bounds.
pub fn validate_settings(s: &TableSettings) -> (r: bool)
    ensures
        r == spec_settings_valid(*s),
{
    s.minimal_bid > 0 && s.max_players > 0 && s.max_players < 8 && s.starting_chips > 0
}

/// Applies a valid settings request to the table; an out-of-bounds
/// request (or a starting stack beyond what the table may hold) is
/// rejected with nothing changed.
pub fn apply_settings(t: &mut Table, s: TableSettings) -> (r: bool)
    requires
        wf(*old(t)),
    ensures
        wf(*final(t)),
        r == (spec_settings_valid(s) && s.starting_chips <= MONEY_CAP),
        !r ==> *final(t) == *old(t),
        r ==> final(t).name == s.name && final(t).minimal_bid == s.minimal_bid
            && final(t).max_players == s.max_players && final(t).starting_chips
            == s.starting_chips && final(t).players == old(t).players && final(t).cards
            == old(t).cards && final(t).pot == old(t).pot && final(t).current_required_bet
            == old(t).current_required_bet && final(t).revealed_cards == old(t).revealed_cards
            && final(t).current_player_index == old(t).current_player_index
            && final(t).button_index == old(t).button_index && final(t).is_game_running
            == old(t).is_game_running,
{
    if !(validate_settings(&s) && s.starting_chips <= MONEY_CAP) {
        return false;
    }
    t.name = s.name;
    t.minimal_bid = s.minimal_bid;
    t.max_players = s.max_players;
    t.starting_chips = s.starting_chips;
    true
}

} // verus!
