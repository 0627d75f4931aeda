use vstd::prelude::*;
use crate::card::{get_best_hand, spec_category, spec_ranks, Card, FullHand};
use crate::player::Player;
use crate::table::{occupied, seat, seat_cards_d, Table};

verus! {

/// What a viewer is shown of one seated player: public betting state
/// always; hole cards only for the viewer's own seat while the hand runs,
/// and for everyone (with their evaluated best hand) once it is over.
pub struct PubPlayer {
    pub name: String,
    pub chips: i32,
    pub current_bet: i32,
    pub has_folded: bool,
    pub cards: [Option<Card>; 2],
    pub best_hand: Option<FullHand>,
}

/// What a viewer is shown of a table: the seats through `PubPlayer`, only
/// the revealed part of the board, and the table's public counters.
pub struct PubTable {
    pub name: String,
    pub player: usize,
    pub players: Vec<Option<PubPlayer>>,
    pub revealed_cards: [Option<Card>; 5],
    pub pot: i32,
    pub current_required_bet: i32,
    pub current_player_index: usize,
    pub button_index: usize,
    pub is_game_running: bool,
    pub minimal_bid: i32,
    pub max_players: usize,
    pub starting_chips: i32,
}

/// Whether seat `i`'s full hand may be shown to everyone: the hand is
/// over, and the board and the seat's hole cards are all dealt.
pub open spec fn seat_visible(t: Table, i: int) -> bool {
    &&& !t.is_game_running
    &&& forall|j: int| 0 <= j < 5 ==> t.cards@[j] is Some
    &&& seat(t.players@, i).cards[0] is Some
    &&& seat(t.players@, i).cards[1] is Some
}

/// The seat the viewer with token `key` sits in: the highest matching
/// seat, or 10 when no seat matches.
pub open spec fn viewer_seat(ps: Seq<Option<Player>>, key: Seq<char>, n: int) -> int
    decreases n,
{
    if n <= 0 {
        10
    } else if occupied(ps, n - 1) && seat(ps, n - 1).key@ == key {
        n - 1
    } else {
        viewer_seat(ps, key, n - 1)
    }
}

/// The read-only projection of a table for the viewer holding `key`: a
/// pure function of the table's state that hides what the viewer may not
/// see.
#[verifier::rlimit(60)]
pub fn project_table(t: &Table, key: &String) -> (r: PubTable)
    requires
        t.players@.len() == 8,
        t.revealed_cards <= 5,
    ensures
        r.name == t.name,
        r.pot == t.pot,
        r.current_required_bet == t.current_required_bet,
        r.current_player_index == t.current_player_index,
        r.button_index == t.button_index,
        r.is_game_running == t.is_game_running,
        r.minimal_bid == t.minimal_bid,
        r.max_players == t.max_players,
        r.starting_chips == t.starting_chips,
        r.player as int == viewer_seat(t.players@, key@, 8),
        r.players@.len() == 8,
        forall|i: int| 0 <= i < 8 ==> ((#[trigger] r.players@[i]) is Some == occupied(t.players@, i)),
        forall|i: int|
            0 <= i < 8 && occupied(t.players@, i) ==> {
                let p = seat(t.players@, i);
                let q = (#[trigger] r.players@[i])->0;
                &&& q.name == p.name
                &&& q.chips == p.chips
                &&& q.current_bet == p.current_bet
                &&& q.has_folded == p.has_folded
                &&& (if seat_visible(*t, i) {
                    q.cards[0] == p.cards[0] && q.cards[1] == p.cards[1] && q.best_hand is Some && q.best_hand->0.hand_type
                        == spec_category(seat_cards_d(t.players@, t.cards@, i))
                        && q.best_hand->0.ranks@ == spec_ranks(
                        seat_cards_d(t.players@, t.cards@, i),
                    )
                } else {
                    q.best_hand is None && (if p.key@ == key@ {
                        q.cards[0] == p.cards[0] && q.cards[1] == p.cards[1]
                    } else {
                        q.cards[0] is None && q.cards[1] is None
                    })
                })
            },
        forall|j: int|
            0 <= j < 5 ==> r.revealed_cards@[j] == (if j < t.revealed_cards as int {
                t.cards@[j]
            } else {
                None::<Card>
            }),
{
    let board_full = t.cards[0].is_some() && t.cards[1].is_some() && t.cards[2].is_some()
        && t.cards[3].is_some() && t.cards[4].is_some();
    let mut players: Vec<Option<PubPlayer>> = Vec::new();
    let mut player_index: usize = 10;
    let mut i: usize = 0;
    while i < 8
        invariant
            i <= 8,
            t.players@.len() == 8,
            players@.len() == i as int,
            board_full == (forall|j: int| 0 <= j < 5 ==> t.cards@[j] is Some),
            player_index as int == viewer_seat(t.players@, key@, i as int),
            forall|k: int|
                0 <= k < i as int ==> ((#[trigger] players@[k]) is Some == occupied(
                    t.players@,
                    k,
                )),
            forall|k: int|
                0 <= k < i as int && occupied(t.players@, k) ==> {
                    let p = seat(t.players@, k);
                    let q = (#[trigger] players@[k])->0;
                    &&& q.name == p.name
                    &&& q.chips == p.chips
                    &&& q.current_bet == p.current_bet
                    &&& q.has_folded == p.has_folded
                    &&& (if seat_visible(*t, k) {
                        q.cards[0] == p.cards[0] && q.cards[1] == p.cards[1] && q.best_hand is Some && q.best_hand->0.hand_type
                            == spec_category(seat_cards_d(t.players@, t.cards@, k))
                            && q.best_hand->0.ranks@ == spec_ranks(
                            seat_cards_d(t.players@, t.cards@, k),
                        )
                    } else {
                        q.best_hand is None && (if p.key@ == key@ {
                            q.cards[0] == p.cards[0] && q.cards[1] == p.cards[1]
                        } else {
                            q.cards[0] is None && q.cards[1] is None
                        })
                    })
                },
        decreases 8 - i,
    {
        match &t.players[i] {
            Some(p) => {
                let own = p.key == *key;
                if own {
                    player_index = i;
                }
                let visible = !t.is_game_running && board_full && p.cards[0].is_some()
                    && p.cards[1].is_some();
                if visible {
                    let all = [
                        t.cards[0].unwrap(),
                        t.cards[1].unwrap(),
                        t.cards[2].unwrap(),
                        t.cards[3].unwrap(),
                        t.cards[4].unwrap(),
                        p.cards[0].unwrap(),
                        p.cards[1].unwrap(),
                    ];
                    proof {
                        assert(all@ =~= seat_cards_d(t.players@, t.cards@, i as int));
                    }
                    let best = get_best_hand(all);
                    players.push(
                        Some(
                            PubPlayer {
                                name: p.name.clone(),
                                chips: p.chips,
                                current_bet: p.current_bet,
                                has_folded: p.has_folded,
                                cards: [p.cards[0], p.cards[1]],
                                best_hand: Some(best),
                            },
                        ),
                    );
                } else {
                    let shown: [Option<Card>; 2] = if own {
                        [p.cards[0], p.cards[1]]
                    } else {
                        [None, None]
                    };
                    players.push(
                        Some(
                            PubPlayer {
                                name: p.name.clone(),
                                chips: p.chips,
                                current_bet: p.current_bet,
                                has_folded: p.has_folded,
                                cards: shown,
                                best_hand: None,
                            },
                        ),
                    );
                }
            },
            None => {
                players.push(None);
            },
        }
        i = i + 1;
    }
    let mut revealed: [Option<Card>; 5] = [None, None, None, None, None];
    let mut j: usize = 0;
    while j < 5
        invariant
            j <= 5,
            t.revealed_cards <= 5,
            forall|k: int|
                0 <= k < 5 ==> revealed@[k] == (if k < j as int && k < t.revealed_cards as int {
                    t.cards@[k]
                } else {
                    None::<Card>
                }),
        decreases 5 - j,
    {
        if j < t.revealed_cards {
            revealed[j] = t.cards[j];
        }
        j = j + 1;
    }
    PubTable {
        name: t.name.clone(),
        player: player_index,
        players,
        revealed_cards: revealed,
        pot: t.pot,
        current_required_bet: t.current_required_bet,
        current_player_index: t.current_player_index,
        button_index: t.button_index,
        is_game_running: t.is_game_running,
        minimal_bid: t.minimal_bid,
        max_players: t.max_players,
        starting_chips: t.starting_chips,
    }
}

} // verus!
