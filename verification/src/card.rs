use vstd::prelude::*;

verus! {

/// One of the four suits of a standard deck.
#[derive(Copy, Clone, PartialEq, Eq, Structural, Debug)]
pub enum Color {
    Heart,
    Diamond,
    Club,
    Spade,
}

/// The thirteen card ranks, ordered Two < Three < ... < Ace.
#[derive(Copy, Clone, PartialEq, Eq, Structural, Debug)]
pub enum Rank {
    Two,
    Three,
    Four,
    Five,
    Six,
    Seven,
    Eight,
    Nine,
    Ten,
    Jack,
    Queen,
    King,
    Ace,
}

/// A playing card: a suit and a rank.
#[derive(Copy, Clone, PartialEq, Eq, Structural, Debug)]
pub struct Card {
    pub color: Color,
    pub rank: Rank,
}

/// The nine hand categories, weakest to strongest.
#[derive(Copy, Clone, PartialEq, Eq, Structural, Debug)]
pub enum HandType {
    HighCard,
    OnePair,
    TwoPair,
    ThreeOfAKind,
    Straight,
    Flush,
    FullHouse,
    FourOfAKind,
    StraightFlush,
}

/// An evaluated hand: its category and the ordered tie-break rank list.
#[derive(Clone, Debug)]
pub struct FullHand {
    pub hand_type: HandType,
    pub ranks: Vec<Rank>,
}

/// Numeric value of a rank: Two is 2, ..., Ten is 10, Jack 11, Queen 12,
/// King 13, Ace 14.
pub open spec fn rv(r: Rank) -> int {
    match r {
        Rank::Two => 2,
        Rank::Three => 3,
        Rank::Four => 4,
        Rank::Five => 5,
        Rank::Six => 6,
        Rank::Seven => 7,
        Rank::Eight => 8,
        Rank::Nine => 9,
        Rank::Ten => 10,
        Rank::Jack => 11,
        Rank::Queen => 12,
        Rank::King => 13,
        Rank::Ace => 14,
    }
}

/// The rank of a numeric value in 2..=14 (values outside that range are
/// mapped to Ace; they never arise in this crate).
pub open spec fn rank_of(v: int) -> Rank {
    if v == 2 {
        Rank::Two
    } else if v == 3 {
        Rank::Three
    } else if v == 4 {
        Rank::Four
    } else if v == 5 {
        Rank::Five
    } else if v == 6 {
        Rank::Six
    } else if v == 7 {
        Rank::Seven
    } else if v == 8 {
        Rank::Eight
    } else if v == 9 {
        Rank::Nine
    } else if v == 10 {
        Rank::Ten
    } else if v == 11 {
        Rank::Jack
    } else if v == 12 {
        Rank::Queen
    } else if v == 13 {
        Rank::King
    } else {
        Rank::Ace
    }
}

pub proof fn lemma_rank_of_rv(r: Rank)
    ensures
        rank_of(rv(r)) == r,
{
    match r {
        Rank::Two => {},
        Rank::Three => {},
        Rank::Four => {},
        Rank::Five => {},
        Rank::Six => {},
        Rank::Seven => {},
        Rank::Eight => {},
        Rank::Nine => {},
        Rank::Ten => {},
        Rank::Jack => {},
        Rank::Queen => {},
        Rank::King => {},
        Rank::Ace => {},
    }
}

pub proof fn lemma_rv_rank_of(v: int)
    requires
        2 <= v <= 14,
    ensures
        rv(rank_of(v)) == v,
{
}

/// How many copies of exactly the card `c` appear in `s`.  All hand
/// statistics are derived from this function, so every one of them depends
/// only on the multiset of cards, never on their order.
pub open spec fn card_count(s: Seq<Card>, c: Card) -> nat {
    s.to_multiset().count(c)
}

/// How many cards of rank value `v` (any suit) appear in `s`.
pub open spec fn rank_count(s: Seq<Card>, v: int) -> int {
    suit_rank_count(s, Color::Heart, v) + suit_rank_count(s, Color::Diamond, v)
        + suit_rank_count(s, Color::Club, v) + suit_rank_count(s, Color::Spade, v)
}

/// How many cards of suit `col` and rank value `v` appear in `s`.  Values
/// outside 2..=14 stand for no rank and count 0.
pub open spec fn suit_rank_count(s: Seq<Card>, col: Color, v: int) -> int {
    if 2 <= v <= 14 {
        card_count(s, Card { color: col, rank: rank_of(v) }) as int
    } else {
        0
    }
}

/// The per-rank-value count table of `s`: index `v` in 2..=14 holds the
/// number of cards of that rank value.
pub open spec fn rank_counts(s: Seq<Card>) -> Seq<int> {
    Seq::new(15, |v: int| rank_count(s, v))
}

/// The per-rank-value count table of the cards of suit `col` in `s`.
pub open spec fn suit_counts(s: Seq<Card>, col: Color) -> Seq<int> {
    Seq::new(15, |v: int| suit_rank_count(s, col, v))
}

/// Whether the count table `c` holds a straight whose high card has value
/// `h`: the five values `h-4 ..= h` are all present, with the wheel
/// (Ace, 2, 3, 4, 5) counting as the straight with high value 5.
pub open spec fn straight_at(c: Seq<int>, h: int) -> bool {
    if h == 5 {
        c[14] > 0 && c[5] > 0 && c[4] > 0 && c[3] > 0 && c[2] > 0
    } else {
        6 <= h <= 14 && c[h] > 0 && c[h - 1] > 0 && c[h - 2] > 0 && c[h - 3] > 0 && c[h - 4] > 0
    }
}

/// The highest straight-high value at most `h` in the count table `c`,
/// or 0 if there is none.
pub open spec fn best_straight_from(c: Seq<int>, h: int) -> int
    decreases h,
{
    if h < 5 {
        0
    } else if straight_at(c, h) {
        h
    } else {
        best_straight_from(c, h - 1)
    }
}

/// The largest rank value at most `h`, other than `e1` and `e2`, whose
/// count in `c` is at least `n`; 0 if there is none.  Passing 0 for `e1`
/// or `e2` excludes nothing, since rank values start at 2.
pub open spec fn top_rank(c: Seq<int>, n: int, e1: int, e2: int, h: int) -> int
    decreases h,
{
    if h < 2 {
        0
    } else if h != e1 && h != e2 && c[h] >= n {
        h
    } else {
        top_rank(c, n, e1, e2, h - 1)
    }
}

/// The element at position `k` (0-based) of the list of rank values at most
/// `v`, other than `e1` and `e2`, written out highest first with as many
/// repetitions as the count table `c` gives; 0 if the list is shorter.
pub open spec fn nth_desc(c: Seq<int>, e1: int, e2: int, k: int, v: int) -> int
    decreases v,
{
    if v < 2 {
        0
    } else {
        let cnt = if v == e1 || v == e2 {
            0
        } else {
            c[v]
        };
        if k < cnt {
            v
        } else {
            nth_desc(c, e1, e2, k - cnt, v - 1)
        }
    }
}

/// The sum of the counts for rank values 2..=h in `c`.
pub open spec fn sum_counts(c: Seq<int>, h: int) -> int
    decreases h,
{
    if h < 2 {
        0
    } else {
        sum_counts(c, h - 1) + c[h]
    }
}

pub open spec fn max2(a: int, b: int) -> int {
    if a >= b {
        a
    } else {
        b
    }
}

/// The best straight-flush high value over the four suits of `s`; 0 when no
/// suit holds a straight.
pub open spec fn sf_high(s: Seq<Card>) -> int {
    max2(
        max2(
            best_straight_from(suit_counts(s, Color::Heart), 14),
            best_straight_from(suit_counts(s, Color::Diamond), 14),
        ),
        max2(
            best_straight_from(suit_counts(s, Color::Club), 14),
            best_straight_from(suit_counts(s, Color::Spade), 14),
        ),
    )
}

/// Whether some suit of `s` has at least five cards.
pub open spec fn has_flush(s: Seq<Card>) -> bool {
    sum_counts(suit_counts(s, Color::Heart), 14) >= 5
        || sum_counts(suit_counts(s, Color::Diamond), 14) >= 5
        || sum_counts(suit_counts(s, Color::Club), 14) >= 5
        || sum_counts(suit_counts(s, Color::Spade), 14) >= 5
}

/// The suit holding at least five cards of `s`, searched in the fixed order
/// Heart, Diamond, Club, Spade.  With at most seven cards at most one suit
/// can qualify, so the order never matters for real inputs.
pub open spec fn flush_suit(s: Seq<Card>) -> Color {
    if sum_counts(suit_counts(s, Color::Heart), 14) >= 5 {
        Color::Heart
    } else if sum_counts(suit_counts(s, Color::Diamond), 14) >= 5 {
        Color::Diamond
    } else if sum_counts(suit_counts(s, Color::Club), 14) >= 5 {
        Color::Club
    } else {
        Color::Spade
    }
}

/// Whether `c` holds a full house: a triple, plus a pair of a different
/// rank (a second triple also qualifies as the pair).
pub open spec fn has_full_house(c: Seq<int>) -> bool {
    top_rank(c, 3, 0, 0, 14) >= 2 && top_rank(c, 2, top_rank(c, 3, 0, 0, 14), 0, 14) >= 2
}

/// The category of the best five-card hand drawable from `s`, decided in
/// strict priority order, strongest first.
pub open spec fn spec_category(s: Seq<Card>) -> HandType {
    let c = rank_counts(s);
    if sf_high(s) >= 5 {
        HandType::StraightFlush
    } else if top_rank(c, 4, 0, 0, 14) >= 2 {
        HandType::FourOfAKind
    } else if has_full_house(c) {
        HandType::FullHouse
    } else if has_flush(s) {
        HandType::Flush
    } else if best_straight_from(c, 14) >= 5 {
        HandType::Straight
    } else if top_rank(c, 3, 0, 0, 14) >= 2 {
        HandType::ThreeOfAKind
    } else if top_rank(c, 2, 0, 0, 14) >= 2 && top_rank(c, 2, top_rank(c, 2, 0, 0, 14), 0, 14)
        >= 2 {
        HandType::TwoPair
    } else if top_rank(c, 2, 0, 0, 14) >= 2 {
        HandType::OnePair
    } else {
        HandType::HighCard
    }
}

/// The fixed length of the tie-break rank list for each category.
pub open spec fn arity(h: HandType) -> int {
    match h {
        HandType::StraightFlush => 1,
        HandType::FourOfAKind => 2,
        HandType::FullHouse => 2,
        HandType::Flush => 5,
        HandType::Straight => 1,
        HandType::ThreeOfAKind => 3,
        HandType::TwoPair => 3,
        HandType::OnePair => 4,
        HandType::HighCard => 5,
    }
}

/// The tie-break rank list of the best hand of `s`: the primary ranks of
/// the category, highest first, then the kickers drawn highest first from
/// the remaining cards.
pub open spec fn spec_ranks(s: Seq<Card>) -> Seq<Rank> {
    let c = rank_counts(s);
    match spec_category(s) {
        HandType::StraightFlush => seq![rank_of(sf_high(s))],
        HandType::FourOfAKind => {
            let q = top_rank(c, 4, 0, 0, 14);
            seq![rank_of(q), rank_of(nth_desc(c, q, q, 0, 14))]
        },
        HandType::FullHouse => {
            let t = top_rank(c, 3, 0, 0, 14);
            seq![rank_of(t), rank_of(top_rank(c, 2, t, 0, 14))]
        },
        HandType::Flush => {
            let fc = suit_counts(s, flush_suit(s));
            Seq::new(5, |i: int| rank_of(nth_desc(fc, 0, 0, i, 14)))
        },
        HandType::Straight => seq![rank_of(best_straight_from(c, 14))],
        HandType::ThreeOfAKind => {
            let t = top_rank(c, 3, 0, 0, 14);
            seq![rank_of(t)] + Seq::new(2, |i: int| rank_of(nth_desc(c, t, t, i, 14)))
        },
        HandType::TwoPair => {
            let p1 = top_rank(c, 2, 0, 0, 14);
            let p2 = top_rank(c, 2, p1, 0, 14);
            seq![rank_of(p1), rank_of(p2), rank_of(nth_desc(c, p1, p2, 0, 14))]
        },
        HandType::OnePair => {
            let p = top_rank(c, 2, 0, 0, 14);
            seq![rank_of(p)] + Seq::new(3, |i: int| rank_of(nth_desc(c, p, p, i, 14)))
        },
        HandType::HighCard => Seq::new(5, |i: int| rank_of(nth_desc(c, 0, 0, i, 14))),
    }
}

/// Numeric value of a rank, as executable code.
pub fn rank_value(r: Rank) -> (v: u8)
    ensures
        v as int == rv(r),
        2 <= v <= 14,
{
    match r {
        Rank::Two => 2,
        Rank::Three => 3,
        Rank::Four => 4,
        Rank::Five => 5,
        Rank::Six => 6,
        Rank::Seven => 7,
        Rank::Eight => 8,
        Rank::Nine => 9,
        Rank::Ten => 10,
        Rank::Jack => 11,
        Rank::Queen => 12,
        Rank::King => 13,
        Rank::Ace => 14,
    }
}

/// The integer view of a table of `u8` counts.
pub open spec fn cv(c: Seq<u8>) -> Seq<int> {
    Seq::new(c.len(), |i: int| c[i] as int)
}

/// The number of list positions that `nth_desc` can serve: the sum of the
/// counts for rank values 2..=h other than `e1` and `e2`.
pub open spec fn avail(c: Seq<int>, e1: int, e2: int, h: int) -> int
    decreases h,
{
    if h < 2 {
        0
    } else {
        avail(c, e1, e2, h - 1) + (if h == e1 || h == e2 {
            0int
        } else {
            c[h]
        })
    }
}

pub proof fn lemma_bs_range(c: Seq<int>, h: int)
    ensures
        best_straight_from(c, h) == 0 || 5 <= best_straight_from(c, h) <= h,
    decreases h,
{
    if h >= 5 && !straight_at(c, h) {
        lemma_bs_range(c, h - 1);
    }
}

pub proof fn lemma_nth_range(c: Seq<int>, e1: int, e2: int, k: int, v: int)
    requires
        0 <= k < avail(c, e1, e2, v),
        forall|j: int| 2 <= j <= v ==> c[j] >= 0,
    ensures
        2 <= nth_desc(c, e1, e2, k, v) <= v,
    decreases v,
{
    if v >= 2 {
        let cnt = if v == e1 || v == e2 {
            0int
        } else {
            c[v]
        };
        if k < cnt {
        } else {
            lemma_nth_range(c, e1, e2, k - cnt, v - 1);
        }
    }
}

pub proof fn lemma_avail_sum(c: Seq<int>, e1: int, e2: int, h: int)
    ensures
        avail(c, e1, e2, h) == sum_counts(c, h) - (if 2 <= e1 <= h {
            c[e1]
        } else {
            0int
        }) - (if 2 <= e2 <= h && e2 != e1 {
            c[e2]
        } else {
            0int
        }),
    decreases h,
{
    if h >= 2 {
        lemma_avail_sum(c, e1, e2, h - 1);
    }
}

/// The rank with a given numeric value, as executable code.
pub fn rank_from_value(v: u8) -> (r: Rank)
    ensures
        r == rank_of(v as int),
{
    if v == 2 {
        Rank::Two
    } else if v == 3 {
        Rank::Three
    } else if v == 4 {
        Rank::Four
    } else if v == 5 {
        Rank::Five
    } else if v == 6 {
        Rank::Six
    } else if v == 7 {
        Rank::Seven
    } else if v == 8 {
        Rank::Eight
    } else if v == 9 {
        Rank::Nine
    } else if v == 10 {
        Rank::Ten
    } else if v == 11 {
        Rank::Jack
    } else if v == 12 {
        Rank::Queen
    } else if v == 13 {
        Rank::King
    } else {
        Rank::Ace
    }
}

/// The rank value at position `k` of the descending rank list of `counts`,
/// skipping the values `e1` and `e2`; 0 when the list is exhausted.
pub fn nth_rank(counts: &Vec<u8>, e1: u8, e2: u8, k0: u8) -> (r: u8)
    requires
        counts@.len() == 15,
    ensures
        r as int == nth_desc(cv(counts@), e1 as int, e2 as int, k0 as int, 14),
{
    let mut v: u8 = 14;
    let mut k: u64 = k0 as u64;
    while v >= 2
        invariant
            counts@.len() == 15,
            v <= 14,
            nth_desc(cv(counts@), e1 as int, e2 as int, k0 as int, 14) == nth_desc(
                cv(counts@),
                e1 as int,
                e2 as int,
                k as int,
                v as int,
            ),
        decreases v,
    {
        let cnt: u64 = if v == e1 || v == e2 {
            0
        } else {
            counts[v as usize] as u64
        };
        if k < cnt {
            return v;
        }
        k = k - cnt;
        v = v - 1;
    }
    0
}

/// The largest rank value whose count is at least `n`, skipping `e1` and
/// `e2`; 0 when there is none.
pub fn top_rank_value(counts: &Vec<u8>, n: u8, e1: u8, e2: u8) -> (r: u8)
    requires
        counts@.len() == 15,
    ensures
        r as int == top_rank(cv(counts@), n as int, e1 as int, e2 as int, 14),
{
    let mut h: u8 = 14;
    while h >= 2
        invariant
            counts@.len() == 15,
            h <= 14,
            top_rank(cv(counts@), n as int, e1 as int, e2 as int, 14) == top_rank(
                cv(counts@),
                n as int,
                e1 as int,
                e2 as int,
                h as int,
            ),
        decreases h,
    {
        if h != e1 && h != e2 && counts[h as usize] >= n {
            return h;
        }
        h = h - 1;
    }
    0
}

fn straight_present(counts: &Vec<u8>, h: u8) -> (r: bool)
    requires
        counts@.len() == 15,
        5 <= h <= 14,
    ensures
        r == straight_at(cv(counts@), h as int),
{
    if h == 5 {
        counts[14] > 0 && counts[5] > 0 && counts[4] > 0 && counts[3] > 0 && counts[2] > 0
    } else {
        counts[h as usize] > 0 && counts[(h - 1) as usize] > 0 && counts[(h - 2) as usize] > 0
            && counts[(h - 3) as usize] > 0 && counts[(h - 4) as usize] > 0
    }
}

/// The highest straight in a rank count table, as its high card; the wheel
/// counts as a Five-high straight.
pub fn find_straight(counts: &Vec<u8>) -> (r: Option<Rank>)
    requires
        counts@.len() == 15,
    ensures
        best_straight_from(cv(counts@), 14) >= 5 ==> r == Some(
            rank_of(best_straight_from(cv(counts@), 14)),
        ),
        best_straight_from(cv(counts@), 14) < 5 ==> r is None,
{
    let mut h: u8 = 14;
    while h >= 5
        invariant
            counts@.len() == 15,
            h <= 14,
            best_straight_from(cv(counts@), 14) == best_straight_from(cv(counts@), h as int),
        decreases h,
    {
        if straight_present(counts, h) {
            return Some(rank_from_value(h));
        }
        h = h - 1;
    }
    None
}

/// The best straight flush over the four per-suit count tables, as its high
/// card; `None` when no suit holds a straight.
pub fn find_straight_flush(
    hearts: &Vec<u8>,
    diamonds: &Vec<u8>,
    clubs: &Vec<u8>,
    spades: &Vec<u8>,
) -> (r: Option<Rank>)
    requires
        hearts@.len() == 15,
        diamonds@.len() == 15,
        clubs@.len() == 15,
        spades@.len() == 15,
    ensures
        ({
            let b = max2(
                max2(
                    best_straight_from(cv(hearts@), 14),
                    best_straight_from(cv(diamonds@), 14),
                ),
                max2(best_straight_from(cv(clubs@), 14), best_straight_from(cv(spades@), 14)),
            );
            if b >= 5 {
                r == Some(rank_of(b))
            } else {
                r is None
            }
        }),
{
    proof {
        lemma_bs_range(cv(hearts@), 14);
        lemma_bs_range(cv(diamonds@), 14);
        lemma_bs_range(cv(clubs@), 14);
        lemma_bs_range(cv(spades@), 14);
    }
    let mut best: u8 = 0;
    if let Some(rk) = find_straight(hearts) {
        let v = rank_value(rk);
        proof {
            lemma_rv_rank_of(best_straight_from(cv(hearts@), 14));
        }
        if v > best {
            best = v;
        }
    }
    if let Some(rk) = find_straight(diamonds) {
        let v = rank_value(rk);
        proof {
            lemma_rv_rank_of(best_straight_from(cv(diamonds@), 14));
        }
        if v > best {
            best = v;
        }
    }
    if let Some(rk) = find_straight(clubs) {
        let v = rank_value(rk);
        proof {
            lemma_rv_rank_of(best_straight_from(cv(clubs@), 14));
        }
        if v > best {
            best = v;
        }
    }
    if let Some(rk) = find_straight(spades) {
        let v = rank_value(rk);
        proof {
            lemma_rv_rank_of(best_straight_from(cv(spades@), 14));
        }
        if v > best {
            best = v;
        }
    }
    if best >= 5 {
        Some(rank_from_value(best))
    } else {
        None
    }
}

/// The five highest ranks, descending, of a suit's count table, when that
/// suit has at least five cards; `None` otherwise.
pub fn find_flush(counts: &Vec<u8>) -> (r: Option<Vec<Rank>>)
    requires
        counts@.len() == 15,
    ensures
        (sum_counts(cv(counts@), 14) >= 5) == (r is Some),
        r is Some ==> r.unwrap()@.len() == 5 && forall|i: int|
            0 <= i < 5 ==> r.unwrap()@[i] == rank_of(nth_desc(cv(counts@), 0, 0, i, 14)),
{
    let mut total: u32 = 0;
    let mut v: u8 = 2;
    while v <= 14
        invariant
            counts@.len() == 15,
            2 <= v <= 15,
            total == sum_counts(cv(counts@), v as int - 1),
            total <= 300 * (v as int),
        decreases 15 - v,
    {
        total = total + counts[v as usize] as u32;
        v = v + 1;
    }
    if total < 5 {
        return None;
    }
    let mut ranks: Vec<Rank> = Vec::new();
    let mut i: u8 = 0;
    while i < 5
        invariant
            counts@.len() == 15,
            i <= 5,
            ranks@.len() == i as int,
            sum_counts(cv(counts@), 14) >= 5,
            forall|j: int| 0 <= j < i as int ==> ranks@[j] == rank_of(nth_desc(cv(counts@), 0, 0, j, 14)),
        decreases 5 - i,
    {
        let val = nth_rank(counts, 0, 0, i);
        proof {
            lemma_avail_sum(cv(counts@), 0, 0, 14);
            lemma_nth_range(cv(counts@), 0, 0, i as int, 14);
        }
        let rk = rank_from_value(val);
        ranks.push(rk);
        i = i + 1;
    }
    Some(ranks)
}

pub proof fn lemma_counts_push(s: Seq<Card>, c: Card)
    ensures
        forall|col: Color, v: int|
            0 <= v < 15 ==> #[trigger] suit_counts(s.push(c), col)[v] == suit_counts(s, col)[v] + (
            if col == c.color && v == rv(c.rank) {
                1int
            } else {
                0int
            }),
        forall|v: int|
            0 <= v < 15 ==> #[trigger] rank_counts(s.push(c))[v] == rank_counts(s)[v] + (if v == rv(
                c.rank,
            ) {
                1int
            } else {
                0int
            }),
{
    broadcast use vstd::seq_lib::group_to_multiset_ensures;
    broadcast use vstd::multiset::group_multiset_axioms;

    lemma_rank_of_rv(c.rank);
    assert(s.push(c).to_multiset() =~= s.to_multiset().insert(c));
    assert forall|col: Color, v: int|
        0 <= v < 15 implies #[trigger] suit_counts(s.push(c), col)[v] == suit_counts(s, col)[v] + (
    if col == c.color && v == rv(c.rank) {
        1int
    } else {
        0int
    }) by {
        if 2 <= v <= 14 {
            lemma_rv_rank_of(v);
            let probe = Card { color: col, rank: rank_of(v) };
            if probe == c {
                assert(col == c.color && v == rv(c.rank));
            } else {
                assert(!(col == c.color && v == rv(c.rank)));
            }
        }
    }
}

proof fn lemma_sum_zero(c: Seq<int>, h: int)
    requires
        forall|v: int| 2 <= v <= h ==> c[v] == 0,
    ensures
        sum_counts(c, h) == 0,
    decreases h,
{
    if h >= 2 {
        lemma_sum_zero(c, h - 1);
    }
}

proof fn lemma_sum_delta(c1: Seq<int>, c2: Seq<int>, j: int, h: int)
    requires
        forall|v: int| 2 <= v <= h ==> c2[v] == c1[v] + (if v == j {
            1int
        } else {
            0int
        }),
    ensures
        sum_counts(c2, h) == sum_counts(c1, h) + (if 2 <= j <= h {
            1int
        } else {
            0int
        }),
    decreases h,
{
    if h >= 2 {
        lemma_sum_delta(c1, c2, j, h - 1);
    }
}

/// The counts of a hand sum to the number of its cards.
pub proof fn lemma_counts_total(s: Seq<Card>)
    ensures
        sum_counts(rank_counts(s), 14) == s.len(),
    decreases s.len(),
{
    broadcast use vstd::seq_lib::group_to_multiset_ensures;
    broadcast use vstd::multiset::group_multiset_axioms;

    if s.len() == 0 {
        assert forall|v: int| 2 <= v <= 14 implies rank_counts(s)[v] == 0 by {
            assert(s.to_multiset().len() == 0);
        }
        lemma_sum_zero(rank_counts(s), 14);
    } else {
        let s0 = s.drop_last();
        let c = s.last();
        assert(s0.push(c) =~= s);
        lemma_counts_total(s0);
        lemma_counts_push(s0, c);
        lemma_sum_delta(rank_counts(s0), rank_counts(s0.push(c)), rv(c.rank), 14);
        assert(rank_counts(s0.push(c)) == rank_counts(s));
    }
}

fn zero_table() -> (t: Vec<u8>)
    ensures
        t@.len() == 15,
        forall|v: int| 0 <= v < 15 ==> t@[v] == 0,
{
    let mut t: Vec<u8> = Vec::new();
    let mut i: usize = 0;
    while i < 15
        invariant
            t@.len() == i as int,
            i <= 15,
            forall|v: int| 0 <= v < i as int ==> t@[v] == 0,
        decreases 15 - i,
    {
        t.push(0);
        i = i + 1;
    }
    t
}


/// The four-of-a-kind in a rank count table, as the quad rank and the best
/// kicker; `None` when no rank has four cards.
pub fn find_four_of_a_kind(counts: &Vec<u8>) -> (r: Option<(Rank, Rank)>)
    requires
        counts@.len() == 15,
    ensures
        (top_rank(cv(counts@), 4, 0, 0, 14) >= 2) == (r is Some),
        r is Some ==> ({
            let q = top_rank(cv(counts@), 4, 0, 0, 14);
            (r->0).0 == rank_of(q) && (r->0).1 == rank_of(nth_desc(cv(counts@), q, q, 0, 14))
        }),
{
    let quad = top_rank_value(counts, 4, 0, 0);
    if quad >= 2 {
        let kick = nth_rank(counts, quad, quad, 0);
        Some((rank_from_value(quad), rank_from_value(kick)))
    } else {
        None
    }
}

/// The full house in a rank count table, as the triple rank and the best
/// different rank paired with it (a second triple counts as the pair);
/// `None` when there is no such combination.
pub fn find_full_house(counts: &Vec<u8>) -> (r: Option<(Rank, Rank)>)
    requires
        counts@.len() == 15,
    ensures
        ({
            let t = top_rank(cv(counts@), 3, 0, 0, 14);
            let p = top_rank(cv(counts@), 2, t, 0, 14);
            &&& (t >= 2 && p >= 2) == (r is Some)
            &&& r is Some ==> (r->0).0 == rank_of(t) && (r->0).1 == rank_of(p)
        }),
{
    let trip = top_rank_value(counts, 3, 0, 0);
    if trip >= 2 {
        let pair = top_rank_value(counts, 2, trip, 0);
        if pair >= 2 {
            return Some((rank_from_value(trip), rank_from_value(pair)));
        }
    }
    None
}

/// The three of a kind in a rank count table, as the triple rank and its
/// two best kickers; `None` when no rank has three cards.
pub fn find_three_of_a_kind(counts: &Vec<u8>) -> (r: Option<(Rank, Vec<Rank>)>)
    requires
        counts@.len() == 15,
    ensures
        (top_rank(cv(counts@), 3, 0, 0, 14) >= 2) == (r is Some),
        r is Some ==> ({
            let t = top_rank(cv(counts@), 3, 0, 0, 14);
            (r->0).0 == rank_of(t) && (r->0).1@.len() == 2 && (r->0).1@[0] == rank_of(
                nth_desc(cv(counts@), t, t, 0, 14),
            ) && (r->0).1@[1] == rank_of(nth_desc(cv(counts@), t, t, 1, 14))
        }),
{
    let trip = top_rank_value(counts, 3, 0, 0);
    if trip >= 2 {
        let mut kickers: Vec<Rank> = Vec::new();
        kickers.push(rank_from_value(nth_rank(counts, trip, trip, 0)));
        kickers.push(rank_from_value(nth_rank(counts, trip, trip, 1)));
        Some((rank_from_value(trip), kickers))
    } else {
        None
    }
}

/// The two pair in a rank count table, as the higher pair, the lower pair
/// and the best kicker; `None` when there are not two distinct pairs.
pub fn find_two_pair(counts: &Vec<u8>) -> (r: Option<(Rank, Rank, Rank)>)
    requires
        counts@.len() == 15,
    ensures
        ({
            let p1 = top_rank(cv(counts@), 2, 0, 0, 14);
            let p2 = top_rank(cv(counts@), 2, p1, 0, 14);
            &&& (p1 >= 2 && p2 >= 2) == (r is Some)
            &&& r is Some ==> (r->0).0 == rank_of(p1) && (r->0).1 == rank_of(p2) && (r->0).2
                == rank_of(nth_desc(cv(counts@), p1, p2, 0, 14))
        }),
{
    let p1 = top_rank_value(counts, 2, 0, 0);
    if p1 >= 2 {
        let p2 = top_rank_value(counts, 2, p1, 0);
        if p2 >= 2 {
            let kick = nth_rank(counts, p1, p2, 0);
            return Some((rank_from_value(p1), rank_from_value(p2), rank_from_value(kick)));
        }
    }
    None
}

/// The pair in a rank count table, as the pair rank and its three best
/// kickers; `None` when no rank has two cards.
pub fn find_one_pair(counts: &Vec<u8>) -> (r: Option<(Rank, Vec<Rank>)>)
    requires
        counts@.len() == 15,
    ensures
        (top_rank(cv(counts@), 2, 0, 0, 14) >= 2) == (r is Some),
        r is Some ==> ({
            let p = top_rank(cv(counts@), 2, 0, 0, 14);
            (r->0).0 == rank_of(p) && (r->0).1@.len() == 3 && (r->0).1@[0] == rank_of(
                nth_desc(cv(counts@), p, p, 0, 14),
            ) && (r->0).1@[1] == rank_of(nth_desc(cv(counts@), p, p, 1, 14)) && (r->0).1@[2]
                == rank_of(nth_desc(cv(counts@), p, p, 2, 14))
        }),
{
    let pair = top_rank_value(counts, 2, 0, 0);
    if pair >= 2 {
        let mut kickers: Vec<Rank> = Vec::new();
        kickers.push(rank_from_value(nth_rank(counts, pair, pair, 0)));
        kickers.push(rank_from_value(nth_rank(counts, pair, pair, 1)));
        kickers.push(rank_from_value(nth_rank(counts, pair, pair, 2)));
        Some((rank_from_value(pair), kickers))
    } else {
        None
    }
}

/// Builds the rank count table of all seven cards, and one per suit.
#[verifier::rlimit(100)]
fn build_tables(cards: &[Card; 7]) -> (t: (Vec<u8>, Vec<u8>, Vec<u8>, Vec<u8>, Vec<u8>))
    ensures
        t.0@.len() == 15 && cv(t.0@) == rank_counts(cards@),
        t.1@.len() == 15 && cv(t.1@) == suit_counts(cards@, Color::Heart),
        t.2@.len() == 15 && cv(t.2@) == suit_counts(cards@, Color::Diamond),
        t.3@.len() == 15 && cv(t.3@) == suit_counts(cards@, Color::Club),
        t.4@.len() == 15 && cv(t.4@) == suit_counts(cards@, Color::Spade),
{
    let ghost s = cards@;
    let mut counts: Vec<u8> = zero_table();
    let mut hearts: Vec<u8> = zero_table();
    let mut diamonds: Vec<u8> = zero_table();
    let mut clubs: Vec<u8> = zero_table();
    let mut spades: Vec<u8> = zero_table();
    proof {
        assert(s.take(0) =~= Seq::<Card>::empty());
        lemma_counts_total(s.take(0));
        assert forall|v: int| 0 <= v < 15 implies rank_counts(s.take(0))[v] == 0 by {
            broadcast use vstd::seq_lib::group_to_multiset_ensures;
            broadcast use vstd::multiset::group_multiset_axioms;

            assert(s.take(0).to_multiset().len() == 0);
        }
        assert forall|col: Color, v: int| 0 <= v < 15 implies suit_counts(s.take(0), col)[v]
            == 0 by {
            broadcast use vstd::seq_lib::group_to_multiset_ensures;
            broadcast use vstd::multiset::group_multiset_axioms;

            assert(s.take(0).to_multiset().len() == 0);
        }
    }
    let mut i: usize = 0;
    while i < 7
        invariant
            i <= 7,
            s == cards@,
            counts@.len() == 15,
            hearts@.len() == 15,
            diamonds@.len() == 15,
            clubs@.len() == 15,
            spades@.len() == 15,
            forall|v: int|
                0 <= v < 15 ==> #[trigger] counts@[v] as int == rank_counts(s.take(i as int))[v]
                    && rank_counts(s.take(i as int))[v] <= 4 * i as int,
            forall|v: int|
                0 <= v < 15 ==> #[trigger] hearts@[v] as int == suit_counts(
                    s.take(i as int),
                    Color::Heart,
                )[v],
            forall|v: int|
                0 <= v < 15 ==> #[trigger] diamonds@[v] as int == suit_counts(
                    s.take(i as int),
                    Color::Diamond,
                )[v],
            forall|v: int|
                0 <= v < 15 ==> #[trigger] clubs@[v] as int == suit_counts(
                    s.take(i as int),
                    Color::Club,
                )[v],
            forall|v: int|
                0 <= v < 15 ==> #[trigger] spades@[v] as int == suit_counts(
                    s.take(i as int),
                    Color::Spade,
                )[v],
        decreases 7 - i,
    {
        let c = cards[i];
        let v = rank_value(c.rank) as usize;
        proof {
            assert(s.take(i as int + 1) =~= s.take(i as int).push(s[i as int]));
            lemma_counts_push(s.take(i as int), s[i as int]);
        }
        proof {
            assert(counts@[v as int] as int <= 4 * i as int);
            assert(suit_counts(s.take(i as int), Color::Heart)[v as int] + suit_counts(
                s.take(i as int),
                Color::Diamond,
            )[v as int] + suit_counts(s.take(i as int), Color::Club)[v as int] + suit_counts(
                s.take(i as int),
                Color::Spade,
            )[v as int] == rank_counts(s.take(i as int))[v as int]);
        }
        let cur = counts[v];
        counts[v] = cur + 1;
        proof {
            assert forall|w: int|
                0 <= w < 15 implies #[trigger] counts@[w] as int == rank_counts(
                s.take(i as int + 1),
            )[w] && rank_counts(s.take(i as int + 1))[w] <= 4 * (i as int + 1) by {
                if w == v as int {
                    assert(counts@[w] == cur + 1);
                }
            }
        }
        match c.color {
            Color::Heart => {
                let cs = hearts[v];
                hearts[v] = cs + 1;
            },
            Color::Diamond => {
                let cs = diamonds[v];
                diamonds[v] = cs + 1;
            },
            Color::Club => {
                let cs = clubs[v];
                clubs[v] = cs + 1;
            },
            Color::Spade => {
                let cs = spades[v];
                spades[v] = cs + 1;
            },
        }
        i = i + 1;
    }
    proof {
        assert(s.take(7) =~= s);
        assert(forall|v: int| 0 <= v < 15 ==> #[trigger] counts@[v] as int == rank_counts(s)[v]);
        assert(cv(counts@) =~= rank_counts(s));
        assert(cv(hearts@) =~= suit_counts(s, Color::Heart));
        assert(cv(diamonds@) =~= suit_counts(s, Color::Diamond));
        assert(cv(clubs@) =~= suit_counts(s, Color::Club));
        assert(cv(spades@) =~= suit_counts(s, Color::Spade));
    }
    (counts, hearts, diamonds, clubs, spades)
}

/// The best five-card hand drawable from seven distinct cards: its
/// category, and the tie-break rank list of `spec_ranks`, whose length is
/// always `arity` of the category.
#[verifier::rlimit(60)]
pub fn get_best_hand(cards: [Card; 7]) -> (r: FullHand)
    ensures
        r.hand_type == spec_category(cards@),
        r.ranks@ == spec_ranks(cards@),
        r.ranks@.len() == arity(r.hand_type),
{
    let ghost s = cards@;
    let (counts, hearts, diamonds, clubs, spades) = build_tables(&cards);
    let ghost ct = rank_counts(s);
    let sfr = find_straight_flush(&hearts, &diamonds, &clubs, &spades);
    let four = find_four_of_a_kind(&counts);
    let fullh = find_full_house(&counts);
    let flh = find_flush(&hearts);
    let fld = find_flush(&diamonds);
    let flc = find_flush(&clubs);
    let fls = find_flush(&spades);
    let straight = find_straight(&counts);
    let trips = find_three_of_a_kind(&counts);
    let twop = find_two_pair(&counts);
    let onep = find_one_pair(&counts);

    if let Some(high) = sfr {
        let mut ranks: Vec<Rank> = Vec::new();
        ranks.push(high);
        proof {
            assert(ranks@ =~= spec_ranks(s));
        }
        FullHand { hand_type: HandType::StraightFlush, ranks }
    } else if four.is_some() {
        let (q, k) = four.unwrap();
        let mut ranks: Vec<Rank> = Vec::new();
        ranks.push(q);
        ranks.push(k);
        proof {
            assert(ranks@ =~= spec_ranks(s));
        }
        FullHand { hand_type: HandType::FourOfAKind, ranks }
    } else if fullh.is_some() {
        let (t, p) = fullh.unwrap();
        let mut ranks: Vec<Rank> = Vec::new();
        ranks.push(t);
        ranks.push(p);
        proof {
            assert(ranks@ =~= spec_ranks(s));
        }
        FullHand { hand_type: HandType::FullHouse, ranks }
    } else if flh.is_some() {
        let ranks = flh.unwrap();
        proof {
            assert(flush_suit(s) == Color::Heart);
            assert(ranks@ =~= spec_ranks(s));
        }
        FullHand { hand_type: HandType::Flush, ranks }
    } else if fld.is_some() {
        let ranks = fld.unwrap();
        proof {
            assert(flush_suit(s) == Color::Diamond);
            assert(ranks@ =~= spec_ranks(s));
        }
        FullHand { hand_type: HandType::Flush, ranks }
    } else if flc.is_some() {
        let ranks = flc.unwrap();
        proof {
            assert(flush_suit(s) == Color::Club);
            assert(ranks@ =~= spec_ranks(s));
        }
        FullHand { hand_type: HandType::Flush, ranks }
    } else if fls.is_some() {
        let ranks = fls.unwrap();
        proof {
            assert(flush_suit(s) == Color::Spade);
            assert(ranks@ =~= spec_ranks(s));
        }
        FullHand { hand_type: HandType::Flush, ranks }
    } else if let Some(high) = straight {
        let mut ranks: Vec<Rank> = Vec::new();
        ranks.push(high);
        proof {
            assert(ranks@ =~= spec_ranks(s));
        }
        FullHand { hand_type: HandType::Straight, ranks }
    } else if trips.is_some() {
        let (t, ks) = trips.unwrap();
        let mut ranks: Vec<Rank> = Vec::new();
        ranks.push(t);
        ranks.push(ks[0]);
        ranks.push(ks[1]);
        proof {
            assert(ranks@ =~= spec_ranks(s));
        }
        FullHand { hand_type: HandType::ThreeOfAKind, ranks }
    } else if twop.is_some() {
        let (p1, p2, k) = twop.unwrap();
        let mut ranks: Vec<Rank> = Vec::new();
        ranks.push(p1);
        ranks.push(p2);
        ranks.push(k);
        proof {
            assert(ranks@ =~= spec_ranks(s));
        }
        FullHand { hand_type: HandType::TwoPair, ranks }
    } else if onep.is_some() {
        let (p, ks) = onep.unwrap();
        let mut ranks: Vec<Rank> = Vec::new();
        ranks.push(p);
        ranks.push(ks[0]);
        ranks.push(ks[1]);
        ranks.push(ks[2]);
        proof {
            assert(ranks@ =~= spec_ranks(s));
        }
        FullHand { hand_type: HandType::OnePair, ranks }
    } else {
        let mut ranks: Vec<Rank> = Vec::new();
        let mut k: u8 = 0;
        while k < 5
            invariant
                counts@.len() == 15,
                cv(counts@) == ct,
                k <= 5,
                ranks@.len() == k as int,
                forall|j: int| 0 <= j < k as int ==> ranks@[j] == rank_of(nth_desc(ct, 0, 0, j, 14)),
            decreases 5 - k,
        {
            let val = nth_rank(&counts, 0, 0, k);
            ranks.push(rank_from_value(val));
            k = k + 1;
        }
        proof {
            assert(ranks@ =~= spec_ranks(s));
        }
        FullHand { hand_type: HandType::HighCard, ranks }
    }
}

/// The suit at position `k` of the fixed suit order used by the deck
/// builder.
pub open spec fn suit_of_index(k: int) -> Color {
    if k == 0 {
        Color::Heart
    } else if k == 1 {
        Color::Diamond
    } else if k == 2 {
        Color::Club
    } else {
        Color::Spade
    }
}

fn suit_from_index(k: usize) -> (c: Color)
    requires
        k < 4,
    ensures
        c == suit_of_index(k as int),
{
    if k == 0 {
        Color::Heart
    } else if k == 1 {
        Color::Diamond
    } else if k == 2 {
        Color::Club
    } else {
        Color::Spade
    }
}

/// A fresh ordered deck of all 52 distinct cards: the four suits in a fixed
/// order, and within each suit the thirteen ranks ascending.
pub fn get_new_deck() -> (deck: Vec<Card>)
    ensures
        deck@.len() == 52,
        deck@.no_duplicates(),
        forall|k: int|
            0 <= k < 52 ==> #[trigger] deck@[k] == (Card {
                color: suit_of_index(k / 13),
                rank: rank_of(2 + k % 13),
            }),
{
    let mut deck: Vec<Card> = Vec::new();
    let mut si: usize = 0;
    while si < 4
        invariant
            si <= 4,
            deck@.len() == 13 * si as int,
            forall|k: int|
                0 <= k < deck@.len() ==> #[trigger] deck@[k] == (Card {
                    color: suit_of_index(k / 13),
                    rank: rank_of(2 + k % 13),
                }),
        decreases 4 - si,
    {
        let color = suit_from_index(si);
        let mut r: usize = 2;
        while r <= 14
            invariant
                si < 4,
                2 <= r <= 15,
                color == suit_of_index(si as int),
                deck@.len() == 13 * si as int + r as int - 2,
                forall|k: int|
                    0 <= k < deck@.len() ==> #[trigger] deck@[k] == (Card {
                        color: suit_of_index(k / 13),
                        rank: rank_of(2 + k % 13),
                    }),
            decreases 15 - r,
        {
            deck.push(Card { color, rank: rank_from_value(r as u8) });
            proof {
                let k = deck@.len() - 1;
                assert(k == 13 * si as int + r as int - 2);
                assert(k / 13 == si as int && k % 13 == r as int - 2) by (nonlinear_arith)
                    requires
                        k == 13 * si as int + r as int - 2,
                        si < 4,
                        2 <= r <= 14,
                ;
            }
            r = r + 1;
        }
        si = si + 1;
    }
    proof {
        assert forall|k1: int, k2: int| 0 <= k1 < k2 < 52 implies deck@[k1] != deck@[k2] by {
            assert(deck@[k1] == (Card { color: suit_of_index(k1 / 13), rank: rank_of(2 + k1 % 13) }));
            assert(deck@[k2] == (Card { color: suit_of_index(k2 / 13), rank: rank_of(2 + k2 % 13) }));
            if k1 / 13 == k2 / 13 {
                assert(k1 % 13 != k2 % 13);
                lemma_rv_rank_of(2 + k1 % 13);
                lemma_rv_rank_of(2 + k2 % 13);
            }
        }
    }
    deck
}

/// The result of comparing two tie-break rank lists position by position
/// from index `i` on: the first position where they differ decides, and a
/// list that runs out while still equal compares as `Equal`.
pub open spec fn spec_compare(a: Seq<Rank>, b: Seq<Rank>, i: int) -> core::cmp::Ordering
    decreases a.len() - i,
{
    if i < 0 || i >= a.len() || i >= b.len() {
        core::cmp::Ordering::Equal
    } else if rv(a[i]) < rv(b[i]) {
        core::cmp::Ordering::Less
    } else if rv(a[i]) > rv(b[i]) {
        core::cmp::Ordering::Greater
    } else {
        spec_compare(a, b, i + 1)
    }
}

/// Compares two evaluated hands exactly as the showdown does: only their
/// tie-break rank lists are compared, element by element; the categories
/// themselves take no part in the comparison.
pub fn compare_hands(hand1: &FullHand, hand2: &FullHand) -> (r: core::cmp::Ordering)
    ensures
        r == spec_compare(hand1.ranks@, hand2.ranks@, 0),
{
    let n = if hand1.ranks.len() < hand2.ranks.len() {
        hand1.ranks.len()
    } else {
        hand2.ranks.len()
    };
    let mut i: usize = 0;
    while i < n
        invariant
            n <= hand1.ranks.len(),
            n <= hand2.ranks.len(),
            n == hand1.ranks.len() || n == hand2.ranks.len(),
            i <= n,
            spec_compare(hand1.ranks@, hand2.ranks@, 0) == spec_compare(
                hand1.ranks@,
                hand2.ranks@,
                i as int,
            ),
        decreases n - i,
    {
        let a = rank_value(hand1.ranks[i]);
        let b = rank_value(hand2.ranks[i]);
        if a < b {
            return core::cmp::Ordering::Less;
        }
        if a > b {
            return core::cmp::Ordering::Greater;
        }
        i = i + 1;
    }
    core::cmp::Ordering::Equal
}

/// The tie-break rank list always has the fixed length that the category
/// prescribes: 1 for straights, 2 for four of a kind and full houses, 3
/// for three of a kind and two pair, 4 for one pair, and 5 for flushes and
/// high-card hands.
pub proof fn lemma_rank_list_arity(s: Seq<Card>)
    ensures
        spec_ranks(s).len() == arity(spec_category(s)),
{
}

/// When the wheel (Ace, 2, 3, 4, 5) is the only straight in a hand, the
/// straight's high card is the Five, not the Ace.
pub proof fn lemma_wheel_high_is_five(c: Seq<int>, h: int)
    requires
        straight_at(c, 5),
        forall|g: int| 6 <= g <= 14 ==> !straight_at(c, g),
        5 <= h <= 14,
    ensures
        best_straight_from(c, h) == 5,
        rank_of(best_straight_from(c, h)) == Rank::Five,
    decreases h,
{
    if h > 5 {
        lemma_wheel_high_is_five(c, h - 1);
    }
}

/// The evaluation of a hand is invariant under reordering of its cards:
/// two sequences holding the same cards get the same category and the same
/// tie-break rank list.
pub proof fn lemma_evaluate_permutation(s1: Seq<Card>, s2: Seq<Card>)
    requires
        s1.to_multiset() == s2.to_multiset(),
    ensures
        spec_category(s1) == spec_category(s2),
        spec_ranks(s1) == spec_ranks(s2),
{
    assert(rank_counts(s1) =~= rank_counts(s2));
    assert(suit_counts(s1, Color::Heart) =~= suit_counts(s2, Color::Heart));
    assert(suit_counts(s1, Color::Diamond) =~= suit_counts(s2, Color::Diamond));
    assert(suit_counts(s1, Color::Club) =~= suit_counts(s2, Color::Club));
    assert(suit_counts(s1, Color::Spade) =~= suit_counts(s2, Color::Spade));
    assert(sf_high(s1) == sf_high(s2));
    assert(has_flush(s1) == has_flush(s2));
    assert(flush_suit(s1) == flush_suit(s2));
    assert(spec_category(s1) == spec_category(s2));
    assert(spec_ranks(s1) =~= spec_ranks(s2));
}

} // verus!
