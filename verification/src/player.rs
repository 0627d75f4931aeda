use vstd::prelude::*;
use crate::card::Card;

verus! {

/// A seated player: identity, hole cards, stack, and per-hand flags.
#[derive(Debug)]
pub struct Player {
    pub name: String,
    pub cards: [Option<Card>; 2],
    pub chips: i32,
    pub current_bet: i32,
    pub has_acted: bool,
    pub has_folded: bool,
    pub key: String,
}

impl Player {
    /// A newly seated player with the given stack and no cards yet.
    pub fn new(name: String, key: String, chips: i32) -> (p: Player)
        ensures
            p.name == name,
            p.key == key,
            p.chips == chips,
            p.current_bet == 0,
            p.has_acted == false,
            p.has_folded == false,
            p.cards[0] is None,
            p.cards[1] is None,
    {
        Player {
            name,
            cards: [None, None],
            chips,
            current_bet: 0,
            has_acted: false,
            has_folded: false,
            key,
        }
    }
}

} // verus!
