use holdem::card::{Card, Color, Rank};
use holdem::player::Player;
use holdem::search::{seat_of_key, table_has_key, table_matches, SearchCriteria};
use holdem::settings::{apply_settings, TableSettings};
use holdem::table::{PlayerAction, Table};
use holdem::view::project_table;

fn c(color: Color, rank: Rank) -> Card {
    Card { color, rank }
}

fn player(name: &str, key: &str, chips: i32) -> Player {
    Player::new(name.to_string(), key.to_string(), chips)
}

fn fresh_table() -> Table {
    Table::new(
        "host".to_string(),
        "Table".to_string(),
        7,
        10,
        100,
        "key-host".to_string(),
    )
}

/// A three-player table in the middle of a hand, with a fixed board.
fn running_table(pot: i32, required: i32) -> Table {
    let mut t = fresh_table();
    assert!(t.add_player("bob".to_string(), "key-bob".to_string()));
    assert!(t.add_player("eve".to_string(), "key-eve".to_string()));
    for i in 0..3 {
        if let Some(p) = t.players[i].as_mut() {
            p.cards = [
                Some(c(suit_of(i), Rank::Two)),
                Some(c(suit_of(i), Rank::Seven)),
            ];
        }
    }
    t.cards = [
        Some(c(Color::Heart, Rank::Ten)),
        Some(c(Color::Heart, Rank::Jack)),
        Some(c(Color::Heart, Rank::Queen)),
        Some(c(Color::Heart, Rank::King)),
        Some(c(Color::Heart, Rank::Ace)),
    ];
    t.is_game_running = true;
    t.pot = pot;
    t.current_required_bet = required;
    t.revealed_cards = 0;
    t.current_player_index = 0;
    t
}

fn suit_of(i: usize) -> Color {
    match i {
        0 => Color::Diamond,
        1 => Color::Club,
        _ => Color::Spade,
    }
}

#[test]
fn add_player_fills_first_empty_seat() {
    let mut t = fresh_table();
    assert!(t.add_player("bob".to_string(), "key-bob".to_string()));
    assert_eq!(t.players[1].as_ref().unwrap().name, "bob");
    assert_eq!(t.players[1].as_ref().unwrap().chips, 100);
    assert!(t.players[2].is_none());
}

#[test]
fn add_player_fails_past_seat_cap() {
    let mut t = fresh_table();
    t.max_players = 1;
    assert!(t.add_player("b".to_string(), "kb".to_string()));
    // first empty seat is index 2, beyond the cap of 1
    assert!(!t.add_player("c".to_string(), "kc".to_string()));
    assert!(t.players[2].is_none());
}

#[test]
fn remove_player_compacts_higher_seats() {
    let mut t = fresh_table();
    for (n, k) in [("b", "kb"), ("c", "kc"), ("d", "kd"), ("e", "ke")] {
        assert!(t.add_player(n.to_string(), k.to_string()));
    }
    // seats 0..4 occupied; remove seat 2
    let names_before: Vec<String> =
        t.players.iter().flatten().map(|p| p.name.clone()).collect();
    assert!(t.remove_player(2));
    assert_eq!(t.players[2].as_ref().unwrap().name, names_before[3]);
    assert_eq!(t.players[3].as_ref().unwrap().name, names_before[4]);
    assert!(t.players[4].is_none());
    assert_eq!(t.players[0].as_ref().unwrap().name, names_before[0]);
    assert_eq!(t.players[1].as_ref().unwrap().name, names_before[1]);
    // removing an empty seat fails
    assert!(!t.remove_player(6));
}

#[test]
fn start_needs_three_players() {
    let mut t = fresh_table();
    assert!(!t.start_new_game());
    assert!(t.add_player("bob".to_string(), "key-bob".to_string()));
    assert!(!t.start_new_game());
    assert!(!t.is_game_running);
}

#[test]
fn start_posts_blinds_and_deals() {
    let mut t = fresh_table();
    assert!(t.add_player("bob".to_string(), "key-bob".to_string()));
    assert!(t.add_player("eve".to_string(), "key-eve".to_string()));
    assert!(t.start_new_game());
    assert!(t.is_game_running);
    assert_eq!(t.revealed_cards, 0);
    // the button moved to seat 0; seats 1 and 2 posted 5 each
    assert_eq!(t.button_index, 0);
    assert_eq!(t.pot, 10);
    assert_eq!(t.current_required_bet, 5);
    assert_eq!(t.players[1].as_ref().unwrap().chips, 95);
    assert_eq!(t.players[2].as_ref().unwrap().chips, 95);
    assert_eq!(t.players[1].as_ref().unwrap().current_bet, 5);
    assert_eq!(t.players[2].as_ref().unwrap().current_bet, 5);
    assert_eq!(t.players[0].as_ref().unwrap().current_bet, 0);
    assert_eq!(t.current_player_index, 0);
    for p in t.players.iter().flatten() {
        assert!(p.cards[0].is_some() && p.cards[1].is_some());
        assert!(!p.has_folded);
    }
    for b in t.cards.iter() {
        assert!(b.is_some());
    }
    // the button's call completes the round: the flop shows, bets reset
    assert!(t.player_action(PlayerAction::Call));
    assert_eq!(t.pot, 15);
    assert_eq!(t.revealed_cards, 3);
    assert_eq!(t.current_required_bet, 0);
    for p in t.players.iter().flatten() {
        assert_eq!(p.current_bet, 0);
        assert!(!p.has_acted);
    }
}

#[test]
fn round_completion_reveals_street_and_resets() {
    let mut t = running_table(30, 5);
    for i in 0..3 {
        let p = t.players[i].as_mut().unwrap();
        p.current_bet = 5;
        p.has_acted = i != 0;
    }
    // seat 0 still owes nothing more; its call completes the round
    assert!(t.player_action(PlayerAction::Call));
    assert_eq!(t.revealed_cards, 3);
    assert_eq!(t.current_required_bet, 0);
    for p in t.players.iter().flatten() {
        assert_eq!(p.current_bet, 0);
        assert!(!p.has_acted);
    }
    assert_eq!(t.pot, 30);
    assert!(t.is_game_running);
}

#[test]
fn fold_to_one_awards_pot_immediately() {
    let mut t = running_table(40, 0);
    t.players[2].as_mut().unwrap().has_folded = true;
    let eve_before = t.players[1].as_ref().unwrap().chips;
    // seat 0 folds; only seat 1 is left in the hand
    assert!(t.player_action(PlayerAction::Fold));
    assert!(!t.is_game_running);
    assert_eq!(t.pot, 0);
    assert_eq!(t.players[1].as_ref().unwrap().chips, eve_before + 40);
}

#[test]
fn split_pot_divides_evenly_and_discards_remainder() {
    // the board is a royal flush, so all three players tie
    let mut t = running_table(30, 0);
    t.revealed_cards = 5;
    for i in 0..3 {
        let p = t.players[i].as_mut().unwrap();
        p.current_bet = 0;
        p.has_acted = i != 0;
    }
    let before: Vec<i32> = t.players.iter().flatten().map(|p| p.chips).collect();
    // seat 0 checks; the completed round after the river runs the showdown
    assert!(t.player_action(PlayerAction::Check));
    assert!(!t.is_game_running);
    assert_eq!(t.pot, 0);
    for (i, p) in t.players.iter().flatten().enumerate() {
        assert_eq!(p.chips, before[i] + 10);
    }
}

#[test]
fn raise_beyond_stack_is_rejected_without_change() {
    let mut t = running_table(10, 0);
    let chips_before: Vec<i32> = t.players.iter().flatten().map(|p| p.chips).collect();
    assert!(!t.player_action(PlayerAction::Raise(1000)));
    assert_eq!(t.pot, 10);
    assert_eq!(t.current_required_bet, 0);
    let chips_after: Vec<i32> = t.players.iter().flatten().map(|p| p.chips).collect();
    assert_eq!(chips_before, chips_after);
    // a negative raise is rejected too
    assert!(!t.player_action(PlayerAction::Raise(-5)));
    assert_eq!(t.current_player_index, 0);
}

#[test]
fn raise_moves_chips_and_required_bet() {
    let mut t = running_table(10, 0);
    assert!(t.player_action(PlayerAction::Raise(20)));
    assert_eq!(t.pot, 30);
    assert_eq!(t.current_required_bet, 20);
    assert_eq!(t.players[0].as_ref().unwrap().chips, 80);
    assert_eq!(t.players[0].as_ref().unwrap().current_bet, 20);
    assert_eq!(t.current_player_index, 1);
}

#[test]
fn short_stack_call_is_a_partial_all_in() {
    let mut t = running_table(10, 50);
    t.players[0].as_mut().unwrap().chips = 30;
    t.players[1].as_mut().unwrap().current_bet = 50;
    t.players[2].as_mut().unwrap().current_bet = 50;
    assert!(t.player_action(PlayerAction::Call));
    let p = t.players[0].as_ref().unwrap();
    assert_eq!(p.chips, 0);
    assert_eq!(p.current_bet, 30);
    assert_eq!(t.pot, 40);
}

#[test]
fn check_requires_no_outstanding_bet() {
    let mut t = running_table(10, 5);
    // an illegal check reports success but changes nothing
    assert!(t.player_action(PlayerAction::Check));
    assert!(!t.players[0].as_ref().unwrap().has_acted);
    assert_eq!(t.current_player_index, 0);
}

#[test]
fn actions_on_idle_table_are_rejected() {
    let mut t = fresh_table();
    assert!(!t.player_action(PlayerAction::Call));
    assert_eq!(t.pot, 0);
}

#[test]
fn settings_validation_bounds() {
    let mut t = fresh_table();
    let bad = TableSettings {
        key: "key-host".to_string(),
        name: "new".to_string(),
        minimal_bid: 0,
        max_players: 3,
        starting_chips: 50,
    };
    assert!(!apply_settings(&mut t, bad));
    assert_eq!(t.name, "Table");
    let good = TableSettings {
        key: "key-host".to_string(),
        name: "new".to_string(),
        minimal_bid: 20,
        max_players: 3,
        starting_chips: 50,
    };
    assert!(apply_settings(&mut t, good));
    assert_eq!(t.name, "new");
    assert_eq!(t.minimal_bid, 20);
    assert_eq!(t.max_players, 3);
    assert_eq!(t.starting_chips, 50);
}

#[test]
fn search_filter_matches_on_fields() {
    let t = fresh_table();
    let all = SearchCriteria {
        name: "Table".to_string(),
        max_players: 0,
        current_players: 0,
        minimal_bid: 0,
        starting_chips: 0,
    };
    assert!(table_matches(&t, &all));
    let wrong_name = SearchCriteria { name: "Other".to_string(), ..all };
    assert!(!table_matches(&t, &wrong_name));
    let exact = SearchCriteria {
        name: "Table".to_string(),
        max_players: 7,
        current_players: 1,
        minimal_bid: 10,
        starting_chips: 100,
    };
    assert!(table_matches(&t, &exact));
    let wrong_count = SearchCriteria { current_players: 2, ..exact };
    assert!(!table_matches(&t, &wrong_count));
}

#[test]
fn key_lookup_finds_seats() {
    let mut t = fresh_table();
    assert!(t.add_player("bob".to_string(), "key-bob".to_string()));
    let host_key = "key-host".to_string();
    let bob_key = "key-bob".to_string();
    let nobody = "key-nobody".to_string();
    assert!(table_has_key(&t, &host_key));
    assert!(table_has_key(&t, &bob_key));
    assert!(!table_has_key(&t, &nobody));
    assert_eq!(seat_of_key(&t, &bob_key), Some(1));
    assert_eq!(seat_of_key(&t, &nobody), None);
}

#[test]
fn projection_hides_other_players_cards_while_running() {
    let t = running_table(10, 0);
    let own = "key-host".to_string();
    let view = project_table(&t, &own);
    assert_eq!(view.player, 0);
    assert_eq!(view.pot, 10);
    let me = view.players[0].as_ref().unwrap();
    assert!(me.cards[0].is_some());
    let other = view.players[1].as_ref().unwrap();
    assert!(other.cards[0].is_none() && other.cards[1].is_none());
    assert!(other.best_hand.is_none());
    // nothing of the board is revealed yet
    for b in view.revealed_cards.iter() {
        assert!(b.is_none());
    }
}

#[test]
fn projection_reveals_hands_after_showdown() {
    let mut t = running_table(0, 0);
    t.is_game_running = false;
    t.revealed_cards = 5;
    let viewer = "key-eve".to_string();
    let view = project_table(&t, &viewer);
    assert_eq!(view.player, 2);
    let host = view.players[0].as_ref().unwrap();
    assert!(host.cards[0].is_some());
    let best = host.best_hand.as_ref().unwrap();
    // the royal-flush board is everyone's best hand
    assert_eq!(best.hand_type, holdem::card::HandType::StraightFlush);
    assert_eq!(best.ranks, vec![Rank::Ace]);
    assert_eq!(view.revealed_cards[4], t.cards[4]);
}
