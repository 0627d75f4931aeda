use holdem::card::{
    compare_hands, find_flush, find_four_of_a_kind, find_full_house, find_one_pair,
    find_straight, find_three_of_a_kind, find_two_pair, get_best_hand, get_new_deck, Card, Color,
    FullHand, HandType, Rank,
};
use std::cmp::Ordering;

fn c(color: Color, rank: Rank) -> Card {
    Card { color, rank }
}

#[test]
fn deck_has_52_distinct_cards() {
    let deck = get_new_deck();
    assert_eq!(deck.len(), 52);
    for i in 0..52 {
        for j in 0..i {
            assert!(!(deck[i] == deck[j]));
        }
    }
}

#[test]
fn high_card_takes_top_five() {
    let hand = get_best_hand([
        c(Color::Heart, Rank::Two),
        c(Color::Diamond, Rank::Four),
        c(Color::Club, Rank::Six),
        c(Color::Spade, Rank::Eight),
        c(Color::Heart, Rank::Ten),
        c(Color::Diamond, Rank::Queen),
        c(Color::Club, Rank::Ace),
    ]);
    assert_eq!(hand.hand_type, HandType::HighCard);
    assert_eq!(
        hand.ranks,
        vec![Rank::Ace, Rank::Queen, Rank::Ten, Rank::Eight, Rank::Six]
    );
}

#[test]
fn one_pair_with_three_kickers() {
    let hand = get_best_hand([
        c(Color::Heart, Rank::Nine),
        c(Color::Diamond, Rank::Nine),
        c(Color::Club, Rank::King),
        c(Color::Spade, Rank::Seven),
        c(Color::Heart, Rank::Five),
        c(Color::Diamond, Rank::Three),
        c(Color::Club, Rank::Two),
    ]);
    assert_eq!(hand.hand_type, HandType::OnePair);
    assert_eq!(hand.ranks, vec![Rank::Nine, Rank::King, Rank::Seven, Rank::Five]);
}

#[test]
fn two_pair_picks_highest_pairs_and_kicker() {
    let hand = get_best_hand([
        c(Color::Heart, Rank::Four),
        c(Color::Diamond, Rank::Four),
        c(Color::Club, Rank::Jack),
        c(Color::Spade, Rank::Jack),
        c(Color::Heart, Rank::Eight),
        c(Color::Diamond, Rank::Eight),
        c(Color::Club, Rank::Ace),
    ]);
    assert_eq!(hand.hand_type, HandType::TwoPair);
    assert_eq!(hand.ranks, vec![Rank::Jack, Rank::Eight, Rank::Ace]);
}

#[test]
fn three_of_a_kind_with_two_kickers() {
    let hand = get_best_hand([
        c(Color::Heart, Rank::Six),
        c(Color::Diamond, Rank::Six),
        c(Color::Club, Rank::Six),
        c(Color::Spade, Rank::King),
        c(Color::Heart, Rank::Nine),
        c(Color::Diamond, Rank::Three),
        c(Color::Club, Rank::Two),
    ]);
    assert_eq!(hand.hand_type, HandType::ThreeOfAKind);
    assert_eq!(hand.ranks, vec![Rank::Six, Rank::King, Rank::Nine]);
}

#[test]
fn straight_uses_highest_run() {
    let hand = get_best_hand([
        c(Color::Heart, Rank::Five),
        c(Color::Diamond, Rank::Six),
        c(Color::Club, Rank::Seven),
        c(Color::Spade, Rank::Eight),
        c(Color::Heart, Rank::Nine),
        c(Color::Diamond, Rank::Ten),
        c(Color::Club, Rank::Ace),
    ]);
    assert_eq!(hand.hand_type, HandType::Straight);
    assert_eq!(hand.ranks, vec![Rank::Ten]);
}

#[test]
fn wheel_straight_is_five_high() {
    let hand = get_best_hand([
        c(Color::Heart, Rank::Ace),
        c(Color::Diamond, Rank::Two),
        c(Color::Club, Rank::Three),
        c(Color::Spade, Rank::Four),
        c(Color::Heart, Rank::Five),
        c(Color::Diamond, Rank::Nine),
        c(Color::Club, Rank::Jack),
    ]);
    assert_eq!(hand.hand_type, HandType::Straight);
    assert_eq!(hand.ranks, vec![Rank::Five]);
}

#[test]
fn flush_takes_five_highest_of_suit() {
    let hand = get_best_hand([
        c(Color::Spade, Rank::Two),
        c(Color::Spade, Rank::Five),
        c(Color::Spade, Rank::Nine),
        c(Color::Spade, Rank::Jack),
        c(Color::Spade, Rank::King),
        c(Color::Spade, Rank::Three),
        c(Color::Heart, Rank::Ace),
    ]);
    assert_eq!(hand.hand_type, HandType::Flush);
    assert_eq!(
        hand.ranks,
        vec![Rank::King, Rank::Jack, Rank::Nine, Rank::Five, Rank::Three]
    );
}

#[test]
fn full_house_takes_best_triple_then_best_pair() {
    let hand = get_best_hand([
        c(Color::Heart, Rank::Ten),
        c(Color::Diamond, Rank::Ten),
        c(Color::Club, Rank::Ten),
        c(Color::Spade, Rank::Four),
        c(Color::Heart, Rank::Four),
        c(Color::Diamond, Rank::Ace),
        c(Color::Club, Rank::Ace),
    ]);
    assert_eq!(hand.hand_type, HandType::FullHouse);
    assert_eq!(hand.ranks, vec![Rank::Ten, Rank::Ace]);
}

#[test]
fn two_triples_make_a_full_house() {
    let hand = get_best_hand([
        c(Color::Heart, Rank::Ace),
        c(Color::Diamond, Rank::Ace),
        c(Color::Club, Rank::Ace),
        c(Color::Spade, Rank::King),
        c(Color::Heart, Rank::King),
        c(Color::Diamond, Rank::King),
        c(Color::Club, Rank::Queen),
    ]);
    assert_eq!(hand.hand_type, HandType::FullHouse);
    assert_eq!(hand.ranks, vec![Rank::Ace, Rank::King]);
}

#[test]
fn four_of_a_kind_with_best_kicker() {
    let hand = get_best_hand([
        c(Color::Heart, Rank::Seven),
        c(Color::Diamond, Rank::Seven),
        c(Color::Club, Rank::Seven),
        c(Color::Spade, Rank::Seven),
        c(Color::Heart, Rank::Queen),
        c(Color::Diamond, Rank::Two),
        c(Color::Club, Rank::Three),
    ]);
    assert_eq!(hand.hand_type, HandType::FourOfAKind);
    assert_eq!(hand.ranks, vec![Rank::Seven, Rank::Queen]);
}

#[test]
fn straight_flush_beats_plain_flush_and_straight() {
    let hand = get_best_hand([
        c(Color::Club, Rank::Five),
        c(Color::Club, Rank::Six),
        c(Color::Club, Rank::Seven),
        c(Color::Club, Rank::Eight),
        c(Color::Club, Rank::Nine),
        c(Color::Heart, Rank::Ace),
        c(Color::Diamond, Rank::Ace),
    ]);
    assert_eq!(hand.hand_type, HandType::StraightFlush);
    assert_eq!(hand.ranks, vec![Rank::Nine]);
}

#[test]
fn wheel_straight_flush_is_five_high() {
    let hand = get_best_hand([
        c(Color::Diamond, Rank::Ace),
        c(Color::Diamond, Rank::Two),
        c(Color::Diamond, Rank::Three),
        c(Color::Diamond, Rank::Four),
        c(Color::Diamond, Rank::Five),
        c(Color::Heart, Rank::King),
        c(Color::Spade, Rank::King),
    ]);
    assert_eq!(hand.hand_type, HandType::StraightFlush);
    assert_eq!(hand.ranks, vec![Rank::Five]);
}

#[test]
fn evaluation_ignores_card_order() {
    let base = [
        c(Color::Heart, Rank::Nine),
        c(Color::Diamond, Rank::Nine),
        c(Color::Club, Rank::King),
        c(Color::Spade, Rank::Seven),
        c(Color::Heart, Rank::Five),
        c(Color::Diamond, Rank::Three),
        c(Color::Club, Rank::Two),
    ];
    let reordered = [
        base[6], base[2], base[4], base[0], base[5], base[1], base[3],
    ];
    let a = get_best_hand(base);
    let b = get_best_hand(reordered);
    assert_eq!(a.hand_type, b.hand_type);
    assert_eq!(a.ranks, b.ranks);
}

#[test]
fn rank_list_length_matches_category() {
    let quads = get_best_hand([
        c(Color::Heart, Rank::Seven),
        c(Color::Diamond, Rank::Seven),
        c(Color::Club, Rank::Seven),
        c(Color::Spade, Rank::Seven),
        c(Color::Heart, Rank::Queen),
        c(Color::Diamond, Rank::Two),
        c(Color::Club, Rank::Three),
    ]);
    assert_eq!(quads.ranks.len(), 2);
    let high = get_best_hand([
        c(Color::Heart, Rank::Two),
        c(Color::Diamond, Rank::Four),
        c(Color::Club, Rank::Six),
        c(Color::Spade, Rank::Eight),
        c(Color::Heart, Rank::Ten),
        c(Color::Diamond, Rank::Queen),
        c(Color::Club, Rank::Ace),
    ]);
    assert_eq!(high.ranks.len(), 5);
}

#[test]
fn compare_hands_is_positional_on_rank_lists() {
    let a = FullHand { hand_type: HandType::OnePair, ranks: vec![Rank::Nine, Rank::King] };
    let b = FullHand { hand_type: HandType::OnePair, ranks: vec![Rank::Nine, Rank::Queen] };
    assert_eq!(compare_hands(&a, &b), Ordering::Greater);
    assert_eq!(compare_hands(&b, &a), Ordering::Less);
    let shorter = FullHand { hand_type: HandType::Straight, ranks: vec![Rank::Nine] };
    assert_eq!(compare_hands(&a, &shorter), Ordering::Equal);
}

#[test]
fn find_straight_sees_the_wheel() {
    let mut counts = vec![0u8; 15];
    counts[14] = 1;
    counts[2] = 1;
    counts[3] = 1;
    counts[4] = 1;
    counts[5] = 1;
    assert_eq!(find_straight(&counts), Some(Rank::Five));
    let empty = vec![0u8; 15];
    assert_eq!(find_straight(&empty), None);
}

#[test]
fn find_flush_needs_five_of_suit() {
    let mut counts = vec![0u8; 15];
    counts[4] = 1;
    counts[7] = 1;
    counts[9] = 1;
    counts[11] = 1;
    assert_eq!(find_flush(&counts), None);
    counts[13] = 1;
    let ranks = find_flush(&counts).unwrap();
    assert_eq!(ranks, vec![Rank::King, Rank::Jack, Rank::Nine, Rank::Seven, Rank::Four]);
}

#[test]
fn finders_report_exact_combinations() {
    // counts for 7,7,7,7,Q,3,2
    let mut quad = vec![0u8; 15];
    quad[7] = 4;
    quad[12] = 1;
    quad[3] = 1;
    quad[2] = 1;
    assert_eq!(find_four_of_a_kind(&quad), Some((Rank::Seven, Rank::Queen)));
    assert_eq!(find_full_house(&quad), None);
    // counts for T,T,T,4,4,A,A
    let mut fh = vec![0u8; 15];
    fh[10] = 3;
    fh[4] = 2;
    fh[14] = 2;
    assert_eq!(find_full_house(&fh), Some((Rank::Ten, Rank::Ace)));
    assert_eq!(find_two_pair(&fh), Some((Rank::Ace, Rank::Ten, Rank::Four)));
    // counts for 6,6,6,K,9,3,2
    let mut trips = vec![0u8; 15];
    trips[6] = 3;
    trips[13] = 1;
    trips[9] = 1;
    trips[3] = 1;
    trips[2] = 1;
    let (t, ks) = find_three_of_a_kind(&trips).unwrap();
    assert_eq!(t, Rank::Six);
    assert_eq!(ks, vec![Rank::King, Rank::Nine]);
    assert_eq!(find_four_of_a_kind(&trips), None);
    // counts for 9,9,K,7,5,3,2
    let mut pair = vec![0u8; 15];
    pair[9] = 2;
    pair[13] = 1;
    pair[7] = 1;
    pair[5] = 1;
    pair[3] = 1;
    pair[2] = 1;
    let (p, ks) = find_one_pair(&pair).unwrap();
    assert_eq!(p, Rank::Nine);
    assert_eq!(ks, vec![Rank::King, Rank::Seven, Rank::Five]);
    assert_eq!(find_two_pair(&pair), None);
    assert_eq!(find_full_house(&pair), None);
}
