use vstd::prelude::*;
use crate::card::{
    spec_compare, spec_ranks, get_best_hand, compare_hands, get_new_deck, Card, FullHand, Rank,
};
use crate::player::Player;
use crate::shuffle::shuffle_cards;

verus! {

/// A decision submitted by the player whose turn it is.
#[derive(Copy, Clone, PartialEq, Eq, Structural, Debug)]
pub enum PlayerAction {
    Fold,
    Check,
    Call,
    Raise(i32),
}

/// The largest total amount of chips (stacks plus pot) a table may hold;
/// it keeps every chip computation far away from `i32` overflow.
pub const MONEY_CAP: i32 = 1_000_000_000;

/// The fixed blind posted by the two seats after the button when a hand
/// starts.
pub const BLIND: i32 = 5;

/// One table of the game: eight seats, the board, the pot, and the betting
/// round state.
#[derive(Debug)]
pub struct Table {
    pub name: String,
    pub players: [Option<Player>; 8],
    pub revealed_cards: usize,
    pub cards: [Option<Card>; 5],
    pub pot: i32,
    pub current_required_bet: i32,
    pub current_player_index: usize,
    pub button_index: usize,
    pub is_game_running: bool,
    pub minimal_bid: i32,
    pub max_players: usize,
    pub starting_chips: i32,
}

/// Whether seat `i` is occupied.
pub open spec fn occupied(ps: Seq<Option<Player>>, i: int) -> bool {
    ps[i] is Some
}

/// The player in seat `i`.
pub open spec fn seat(ps: Seq<Option<Player>>, i: int) -> Player {
    ps[i]->0
}

/// Whether seat `i` holds a player who has not folded.
pub open spec fn active(ps: Seq<Option<Player>>, i: int) -> bool {
    occupied(ps, i) && !seat(ps, i).has_folded
}

/// The chips of the player in seat `i`, or 0 for an empty seat.
pub open spec fn seat_chips(ps: Seq<Option<Player>>, i: int) -> int {
    match ps[i] {
        Some(p) => p.chips as int,
        None => 0,
    }
}

/// The total chips in the stacks of seats below `n`.
pub open spec fn stack_sum(ps: Seq<Option<Player>>, n: int) -> int
    decreases n,
{
    if n <= 0 {
        0
    } else {
        stack_sum(ps, n - 1) + seat_chips(ps, n - 1)
    }
}

/// The number of occupied seats below `n`.
pub open spec fn count_occupied(ps: Seq<Option<Player>>, n: int) -> int
    decreases n,
{
    if n <= 0 {
        0
    } else {
        count_occupied(ps, n - 1) + (if occupied(ps, n - 1) {
            1int
        } else {
            0int
        })
    }
}

/// The number of occupied, non-folded seats below `n`.
pub open spec fn count_active(ps: Seq<Option<Player>>, n: int) -> int
    decreases n,
{
    if n <= 0 {
        0
    } else {
        count_active(ps, n - 1) + (if active(ps, n - 1) {
            1int
        } else {
            0int
        })
    }
}

/// Seats fill from index 0 without gaps: every seat below an occupied one
/// is occupied too.
pub open spec fn compact(ps: Seq<Option<Player>>) -> bool {
    forall|i: int, j: int| 0 <= i < j < 8 && occupied(ps, j) ==> occupied(ps, i)
}

/// All the chips the table holds: the pot plus every seated stack.
pub open spec fn chips_total(t: Table) -> int {
    t.pot + stack_sum(t.players@, 8)
}

/// The table's structural invariant.  Every operation of the state machine
/// preserves it: indices stay in range, seats stay gap-free, no chip count
/// is ever negative, nobody's round contribution exceeds the required bet,
/// the table's total chips stay bounded, an idle table holds no pot, and a
/// running hand has a full board and two hole cards for every player still
/// in the hand.
pub open spec fn wf(t: Table) -> bool {
    &&& t.current_player_index < 8
    &&& t.button_index < 8
    &&& t.revealed_cards <= 5
    &&& t.pot >= 0
    &&& 0 <= t.current_required_bet <= t.pot + BLIND
    &&& 0 < t.starting_chips <= MONEY_CAP
    &&& chips_total(t) <= MONEY_CAP
    &&& compact(t.players@)
    &&& forall|i: int|
        0 <= i < 8 && occupied(t.players@, i) ==> (#[trigger] seat(t.players@, i)).chips >= 0
            && seat(t.players@, i).current_bet >= 0
    &&& t.is_game_running ==> forall|i: int|
        0 <= i < 8 && occupied(t.players@, i) ==> (#[trigger] seat(t.players@, i)).current_bet
            <= t.current_required_bet
    &&& !t.is_game_running ==> t.pot == 0 && t.current_required_bet == 0
    &&& t.is_game_running ==> (forall|j: int| 0 <= j < 5 ==> t.cards@[j] is Some) && (forall|i: int|
        0 <= i < 8 && active(t.players@, i) ==> (#[trigger] seat(t.players@, i)).cards[0] is Some
            && seat(t.players@, i).cards[1] is Some)
}

proof fn lemma_stack_sum_update(a: Seq<Option<Player>>, b: Seq<Option<Player>>, j: int, n: int)
    requires
        a.len() == 8,
        b.len() == 8,
        0 <= j < 8,
        n <= 8,
        forall|i: int| 0 <= i < 8 && i != j ==> a[i] == b[i],
    ensures
        stack_sum(b, n) == stack_sum(a, n) + (if j < n {
            seat_chips(b, j) - seat_chips(a, j)
        } else {
            0int
        }),
    decreases n,
{
    if n > 0 {
        lemma_stack_sum_update(a, b, j, n - 1);
        assert(stack_sum(a, n) == stack_sum(a, n - 1) + seat_chips(a, n - 1));
        assert(stack_sum(b, n) == stack_sum(b, n - 1) + seat_chips(b, n - 1));
    } else {
        assert(stack_sum(a, n) == 0);
        assert(stack_sum(b, n) == 0);
    }
}

proof fn lemma_count_occupied_update(
    a: Seq<Option<Player>>,
    b: Seq<Option<Player>>,
    j: int,
    n: int,
)
    requires
        a.len() == 8,
        b.len() == 8,
        0 <= j < 8,
        n <= 8,
        forall|i: int| 0 <= i < 8 && i != j ==> a[i] == b[i],
        occupied(a, j) == occupied(b, j),
    ensures
        count_occupied(b, n) == count_occupied(a, n),
    decreases n,
{
    if n > 0 {
        lemma_count_occupied_update(a, b, j, n - 1);
    }
}

proof fn lemma_count_active_update(a: Seq<Option<Player>>, b: Seq<Option<Player>>, j: int, n: int)
    requires
        a.len() == 8,
        b.len() == 8,
        0 <= j < 8,
        n <= 8,
        forall|i: int| 0 <= i < 8 && i != j ==> a[i] == b[i],
        active(a, j) == active(b, j),
    ensures
        count_active(b, n) == count_active(a, n),
    decreases n,
{
    if n > 0 {
        lemma_count_active_update(a, b, j, n - 1);
    }
}

proof fn lemma_count_le(ps: Seq<Option<Player>>, n: int)
    requires
        0 <= n,
    ensures
        count_occupied(ps, n) <= n,
        0 <= count_active(ps, n) <= count_occupied(ps, n),
    decreases n,
{
    if n > 0 {
        lemma_count_le(ps, n - 1);
    }
}

proof fn lemma_count_full_prefix(ps: Seq<Option<Player>>, n: int)
    requires
        forall|i: int| 0 <= i < n ==> occupied(ps, i),
    ensures
        count_occupied(ps, n) == if n >= 0 {
            n
        } else {
            0int
        },
    decreases n,
{
    if n > 0 {
        lemma_count_full_prefix(ps, n - 1);
    }
}

proof fn lemma_count_empty_suffix(ps: Seq<Option<Player>>, k: int, n: int)
    requires
        forall|i: int| k <= i < n ==> !occupied(ps, i),
        0 <= k <= n,
    ensures
        count_occupied(ps, n) == count_occupied(ps, k),
    decreases n,
{
    if n > k {
        lemma_count_empty_suffix(ps, k, n - 1);
    }
}

/// With gap-free seats, the occupied seats are exactly those below the
/// occupied count.
pub proof fn lemma_compact_occupancy(ps: Seq<Option<Player>>)
    requires
        ps.len() == 8,
        compact(ps),
    ensures
        forall|i: int| 0 <= i < 8 ==> (occupied(ps, i) <==> i < count_occupied(ps, 8)),
{
    lemma_count_le(ps, 8);
    assert forall|i: int| 0 <= i < 8 implies (occupied(ps, i) <==> i < count_occupied(ps, 8)) by {
        if occupied(ps, i) {
            assert(forall|j: int| 0 <= j <= i ==> occupied(ps, j));
            lemma_count_full_prefix(ps, i + 1);
            lemma_count_le(ps.subrange(0, 0), 0);
            lemma_count_mono(ps, i + 1, 8);
        } else {
            assert(forall|j: int| i <= j < 8 ==> !occupied(ps, j));
            lemma_count_empty_suffix(ps, i, 8);
            lemma_count_le(ps, i);
        }
    }
}

proof fn lemma_count_mono(ps: Seq<Option<Player>>, n: int, m: int)
    requires
        n <= m,
    ensures
        count_occupied(ps, n) <= count_occupied(ps, m),
        count_active(ps, n) <= count_active(ps, m),
    decreases m - n,
{
    if m > n {
        lemma_count_mono(ps, n, m - 1);
    }
}


proof fn lemma_count_occupied_update_one(a: Seq<Option<Player>>, b: Seq<Option<Player>>, j: int)
    requires
        a.len() == 8,
        b.len() == 8,
        0 <= j < 8,
        forall|i: int| 0 <= i < 8 && i != j ==> a[i] == b[i],
        !occupied(a, j),
        occupied(b, j),
    ensures
        count_occupied(b, 8) == count_occupied(a, 8) + 1,
{
    lemma_count_update_delta(a, b, j, 8);
}

proof fn lemma_count_update_delta(a: Seq<Option<Player>>, b: Seq<Option<Player>>, j: int, n: int)
    requires
        a.len() == 8,
        b.len() == 8,
        0 <= j < 8,
        n <= 8,
        forall|i: int| 0 <= i < 8 && i != j ==> a[i] == b[i],
    ensures
        count_occupied(b, n) == count_occupied(a, n) + (if j < n {
            (if occupied(b, j) {
                1int
            } else {
                0int
            }) - (if occupied(a, j) {
                1int
            } else {
                0int
            })
        } else {
            0int
        }),
    decreases n,
{
    if n > 0 {
        lemma_count_update_delta(a, b, j, n - 1);
    }
}

proof fn lemma_shift_sum(a: Seq<Option<Player>>, b: Seq<Option<Player>>, index: int, n: int)
    requires
        a.len() == 8,
        b.len() == 8,
        0 <= index < 8,
        index <= n <= 7,
        forall|j: int| 0 <= j < index ==> b[j] == a[j],
        forall|j: int| index <= j < 7 ==> b[j] == a[j + 1],
        b[7] is None,
    ensures
        stack_sum(b, n) == stack_sum(a, n + 1) - seat_chips(a, index),
    decreases n - index,
{
    if n == index {
        lemma_stack_sum_same_prefix(a, b, index);
    } else {
        lemma_shift_sum(a, b, index, n - 1);
    }
}

proof fn lemma_stack_sum_same_prefix(a: Seq<Option<Player>>, b: Seq<Option<Player>>, n: int)
    requires
        forall|j: int| 0 <= j < n ==> b[j] == a[j],
    ensures
        stack_sum(b, n) == stack_sum(a, n),
    decreases n,
{
    if n > 0 {
        lemma_stack_sum_same_prefix(a, b, n - 1);
    }
}

/// After removing a seat and shifting the rest down, the table invariant
/// still holds.
proof fn lemma_shift_wf(orig: Seq<Option<Player>>, now: Seq<Option<Player>>, index: int, t0: Table, t1: Table)
    requires
        orig.len() == 8,
        now.len() == 8,
        0 <= index < 8,
        occupied(orig, index),
        forall|j: int| 0 <= j < index ==> now[j] == orig[j],
        forall|j: int| index <= j < 7 ==> now[j] == orig[j + 1],
        now[7] is None,
        wf(t0),
        t0.players@ == orig,
        t1.players@ == now,
        t1.pot == t0.pot,
        t1.current_required_bet == t0.current_required_bet,
        t1.current_player_index == t0.current_player_index,
        t1.button_index == t0.button_index,
        t1.revealed_cards == t0.revealed_cards,
        t1.is_game_running == t0.is_game_running,
        t1.starting_chips == t0.starting_chips,
        t1.cards == t0.cards,
    ensures
        wf(t1),
{
    lemma_shift_sum(orig, now, index, 7);
    assert(stack_sum(now, 8) == stack_sum(now, 7) + seat_chips(now, 7));
    assert(occupied(t0.players@, index));
    assert(seat(t0.players@, index).chips >= 0);
    assert(seat_chips(orig, index) >= 0);
    assert forall|x: int, y: int| 0 <= x < y < 8 && occupied(now, y) implies occupied(now, x) by {
        if y < index {
            assert(occupied(orig, y));
            assert(occupied(orig, x));
        } else {
            assert(y < 7);
            assert(occupied(orig, y + 1));
            if x < index {
                assert(occupied(orig, x));
            } else {
                assert(occupied(orig, x + 1));
            }
        }
    }
    assert(compact(now));
    assert forall|i: int| 0 <= i < 8 && occupied(now, i) implies (#[trigger] seat(now, i)).chips
        >= 0 && seat(now, i).current_bet >= 0 && (t1.is_game_running ==> seat(now, i).current_bet
        <= t1.current_required_bet) by {
        if i < index {
            assert(occupied(t0.players@, i) && seat(t0.players@, i) == seat(now, i));
        } else {
            assert(occupied(t0.players@, i + 1) && seat(t0.players@, i + 1) == seat(now, i));
        }
    }
    if t1.is_game_running {
        assert forall|i: int| 0 <= i < 8 && active(now, i) implies (#[trigger] seat(
            now,
            i,
        )).cards[0] is Some && seat(now, i).cards[1] is Some by {
            if i < index {
                assert(active(t0.players@, i) && seat(t0.players@, i) == seat(now, i));
            } else {
                assert(active(t0.players@, i + 1) && seat(t0.players@, i + 1) == seat(now, i));
            }
        }
    }
}


/// The first seat after `i` (cyclically, probing offsets `d..=8`) that
/// holds a player still in the hand; `i` itself when there is none.
pub open spec fn next_active_from(ps: Seq<Option<Player>>, i: int, d: int) -> int
    decreases 9 - d,
{
    if d > 8 {
        i
    } else if active(ps, (i + d) % 8) {
        (i + d) % 8
    } else {
        next_active_from(ps, i, d + 1)
    }
}

/// The next seat after `i`, cyclically, holding a player still in the
/// hand; `i` itself when no seat does.
pub open spec fn next_active_seat(ps: Seq<Option<Player>>, i: int) -> int {
    next_active_from(ps, i, 1)
}

/// Whether every seated player still in the hand has acted and has matched
/// the required bet: the condition that ends a betting round.
pub open spec fn all_matched(ps: Seq<Option<Player>>, req: int) -> bool {
    forall|i: int|
        0 <= i < 8 && active(ps, i) ==> (#[trigger] seat(ps, i)).has_acted && seat(
            ps,
            i,
        ).current_bet == req
}

/// The tables' configuration fields, which no in-hand operation touches.
pub open spec fn same_config(a: Table, b: Table) -> bool {
    &&& a.name == b.name
    &&& a.minimal_bid == b.minimal_bid
    &&& a.max_players == b.max_players
    &&& a.starting_chips == b.starting_chips
}

proof fn lemma_next_active_finds(ps: Seq<Option<Player>>, i: int, j: int, d: int)
    requires
        0 <= i < 8,
        0 <= j < 8,
        active(ps, j),
        1 <= d <= 8,
        d <= ((j - i - 1) % 8) + 1,
    ensures
        active(ps, next_active_from(ps, i, d)),
        ((j - i - 1) % 8) + 1 <= 7 ==> next_active_from(ps, i, d) != i,
    decreases 8 - d,
{
    let dj = ((j - i - 1) % 8) + 1;
    assert((i + dj) % 8 == j) by (nonlinear_arith)
        requires
            0 <= i < 8,
            0 <= j < 8,
            dj == ((j - i - 1) % 8) + 1,
    ;
    if active(ps, (i + d) % 8) {
        if 1 <= d <= 7 {
            assert((i + d) % 8 != i) by (nonlinear_arith)
                requires
                    0 <= i < 8,
                    1 <= d <= 7,
            ;
        }
    } else {
        assert((i + d) % 8 != j);
        assert(d < dj);
        lemma_next_active_finds(ps, i, j, d + 1);
    }
}

/// When anyone is still in the hand, the next-active-seat search finds a
/// seat that is; and when someone other than seat `i` is, it never stays
/// on `i`.
pub proof fn lemma_next_active_found(ps: Seq<Option<Player>>, i: int, j: int)
    requires
        0 <= i < 8,
        0 <= j < 8,
        active(ps, j),
    ensures
        active(ps, next_active_seat(ps, i)),
        j != i ==> next_active_seat(ps, i) != i,
        0 <= next_active_seat(ps, i) < 8,
{
    let dj = ((j - i - 1) % 8) + 1;
    assert(1 <= dj <= 8) by (nonlinear_arith)
        requires
            0 <= i < 8,
            0 <= j < 8,
            dj == ((j - i - 1) % 8) + 1,
    ;
    lemma_next_active_finds(ps, i, j, 1);
    if j != i {
        assert(dj <= 7) by (nonlinear_arith)
            requires
                0 <= i < 8,
                0 <= j < 8,
                i != j,
                dj == ((j - i - 1) % 8) + 1,
        ;
    }
    lemma_next_active_range(ps, i, 1);
}

proof fn lemma_next_active_range(ps: Seq<Option<Player>>, i: int, d: int)
    requires
        0 <= i < 8,
        1 <= d <= 9,
    ensures
        0 <= next_active_from(ps, i, d) < 8,
    decreases 9 - d,
{
    if d <= 8 {
        if !active(ps, (i + d) % 8) {
            lemma_next_active_range(ps, i, d + 1);
        }
    }
}

/// Two sequences that seat the same players with the same folded flags
/// agree on every next-active-seat search.
pub proof fn lemma_next_active_same(a: Seq<Option<Player>>, b: Seq<Option<Player>>, i: int, d: int)
    requires
        forall|k: int| 0 <= k < 8 ==> active(a, k) == active(b, k),
        0 <= i < 8,
        1 <= d <= 9,
    ensures
        next_active_from(a, i, d) == next_active_from(b, i, d),
    decreases 9 - d,
{
    if d <= 8 {
        assert(0 <= (i + d) % 8 < 8);
        if !active(a, (i + d) % 8) {
            lemma_next_active_same(a, b, i, d + 1);
        }
    }
}


/// The seven cards a showdown evaluates for seat `i`: the five board cards
/// and the seat's two hole cards.
pub open spec fn seat_cards_d(ps: Seq<Option<Player>>, board: Seq<Option<Card>>, i: int) -> Seq<
    Card,
> {
    seq![
        board[0]->0,
        board[1]->0,
        board[2]->0,
        board[3]->0,
        board[4]->0,
        seat(ps, i).cards[0]->0,
        seat(ps, i).cards[1]->0,
    ]
}

/// The showdown scan over seats below `n`: the best tie-break rank list
/// seen so far and the seats holding it.  Seats are visited in index
/// order; a strictly better hand replaces the set, an equal one joins it.
pub open spec fn showdown_upto_d(ps: Seq<Option<Player>>, board: Seq<Option<Card>>, n: int) -> (
    Option<Seq<Rank>>,
    Seq<int>,
)
    decreases n,
{
    if n <= 0 {
        (None, Seq::empty())
    } else {
        let prev = showdown_upto_d(ps, board, n - 1);
        let i = n - 1;
        if active(ps, i) {
            let r = spec_ranks(seat_cards_d(ps, board, i));
            match prev.0 {
                None => (Some(r), seq![i]),
                Some(br) => match spec_compare(r, br, 0) {
                    core::cmp::Ordering::Greater => (Some(r), seq![i]),
                    core::cmp::Ordering::Equal => (Some(br), prev.1.push(i)),
                    core::cmp::Ordering::Less => prev,
                },
            }
        } else {
            prev
        }
    }
}

/// The seats that share the pot at showdown.
pub open spec fn winners_d(ps: Seq<Option<Player>>, board: Seq<Option<Card>>) -> Seq<int> {
    showdown_upto_d(ps, board, 8).1
}

/// What seat `i` is paid at showdown: an equal integer share of the pot
/// for each winning seat (any remainder is not awarded), nothing for the
/// rest.
pub open spec fn award_d(ps: Seq<Option<Player>>, board: Seq<Option<Card>>, pot: int, i: int) -> int {
    let w = winners_d(ps, board);
    if w.contains(i) && w.len() > 0 {
        pot / w.len() as int
    } else {
        0
    }
}

/// The end of a hand, settled from the pre-showdown seats `ps`, board and
/// `pot`: the hand stops running, the pot is paid out and zeroed, the
/// required bet resets, and each player keeps every other field.
pub open spec fn hand_ended_d(
    ps: Seq<Option<Player>>,
    board: Seq<Option<Card>>,
    pot: int,
    t1: Table,
) -> bool {
    &&& t1.is_game_running == false
    &&& t1.pot == 0
    &&& t1.current_required_bet == 0
    &&& forall|i: int| 0 <= i < 8 ==> occupied(t1.players@, i) == occupied(ps, i)
    &&& forall|i: int|
        0 <= i < 8 && occupied(ps, i) ==> {
            let p0 = seat(ps, i);
            let p1 = #[trigger] seat(t1.players@, i);
            p1.name == p0.name && p1.key == p0.key && p1.cards == p0.cards && p1.current_bet
                == p0.current_bet && p1.has_acted == p0.has_acted && p1.has_folded == p0.has_folded
                && p1.chips == p0.chips + award_d(ps, board, pot, i)
        }
}

/// A street reveal: the next board cards turn up, the required bet drops
/// to zero, and every seated player's round contribution and acted flag
/// reset; stacks, hole cards and folded flags stay.
pub open spec fn street_advanced_d(ps: Seq<Option<Player>>, revealed: int, pot: int, t1: Table) -> bool {
    &&& t1.is_game_running == true
    &&& t1.pot == pot
    &&& t1.current_required_bet == 0
    &&& t1.revealed_cards == (if revealed < 3 {
        3int
    } else {
        revealed + 1
    })
    &&& forall|i: int| 0 <= i < 8 ==> occupied(t1.players@, i) == occupied(ps, i)
    &&& forall|i: int|
        0 <= i < 8 && occupied(ps, i) ==> {
            let p0 = seat(ps, i);
            let p1 = #[trigger] seat(t1.players@, i);
            p1.name == p0.name && p1.key == p0.key && p1.cards == p0.cards && p1.chips == p0.chips
                && p1.has_folded == p0.has_folded && p1.current_bet == 0 && p1.has_acted == false
        }
}

proof fn lemma_showdown_entries(ps: Seq<Option<Player>>, board: Seq<Option<Card>>, n: int)
    ensures
        forall|k: int|
            0 <= k < showdown_upto_d(ps, board, n).1.len() ==> 0 <= #[trigger] showdown_upto_d(
                ps,
                board,
                n,
            ).1[k] < n && active(ps, showdown_upto_d(ps, board, n).1[k]),
        forall|k1: int, k2: int|
            0 <= k1 < k2 < showdown_upto_d(ps, board, n).1.len() ==> #[trigger] showdown_upto_d(
                ps,
                board,
                n,
            ).1[k1] < #[trigger] showdown_upto_d(ps, board, n).1[k2],
        (showdown_upto_d(ps, board, n).0 is None) == (showdown_upto_d(ps, board, n).1.len() == 0),
        showdown_upto_d(ps, board, n).1.len() <= (if n >= 0 {
            n
        } else {
            0int
        }),
    decreases n,
{
    if n > 0 {
        lemma_showdown_entries(ps, board, n - 1);
    }
}


proof fn lemma_stack_nonneg_bounds(ps: Seq<Option<Player>>, n: int)
    requires
        n <= 8,
        forall|i: int| 0 <= i < 8 ==> #[trigger] seat_chips(ps, i) >= 0,
    ensures
        stack_sum(ps, n) >= 0,
        n == 8 ==> forall|i: int|
            0 <= i < 8 ==> #[trigger] seat_chips(ps, i) <= stack_sum(ps, 8),
    decreases n,
{
    if n > 0 {
        lemma_stack_nonneg_bounds(ps, n - 1);
    }
    if n == 8 {
        assert forall|i: int| 0 <= i < 8 implies #[trigger] seat_chips(ps, i) <= stack_sum(ps, 8) by {
            lemma_stack_partial(ps, i);
        }
    }
}

proof fn lemma_stack_partial(ps: Seq<Option<Player>>, i: int)
    requires
        0 <= i < 8,
        forall|j: int| 0 <= j < 8 ==> seat_chips(ps, j) >= 0,
    ensures
        stack_sum(ps, i) + seat_chips(ps, i) <= stack_sum(ps, 8),
        stack_sum(ps, i) >= 0,
{
    lemma_stack_suffix(ps, i + 1, 8);
    lemma_stack_nonneg_upto(ps, i);
}

proof fn lemma_stack_suffix(ps: Seq<Option<Player>>, k: int, n: int)
    requires
        0 <= k <= n <= 8,
        forall|j: int| 0 <= j < 8 ==> seat_chips(ps, j) >= 0,
    ensures
        stack_sum(ps, k) <= stack_sum(ps, n),
    decreases n - k,
{
    if n > k {
        lemma_stack_suffix(ps, k, n - 1);
    }
}

proof fn lemma_stack_nonneg_upto(ps: Seq<Option<Player>>, n: int)
    requires
        n <= 8,
        forall|j: int| 0 <= j < 8 ==> seat_chips(ps, j) >= 0,
    ensures
        stack_sum(ps, n) >= 0,
    decreases n,
{
    if n > 0 {
        lemma_stack_nonneg_upto(ps, n - 1);
    }
}


/// What a completed action settles to, from the post-action seats `ps`,
/// board, `pot`, required bet `req`, street `revealed` and acting seat
/// `cur0`: the hand ends when at most one player is left in; the street
/// advances (or the showdown runs, after the river) when everyone left in
/// has acted and matched the bet; otherwise only the turn moves on.
pub open spec fn settled_d(
    ps: Seq<Option<Player>>,
    board: Seq<Option<Card>>,
    pot: int,
    req: int,
    revealed: int,
    cur0: int,
    t1: Table,
) -> bool {
    if count_active(ps, 8) <= 1 {
        hand_ended_d(ps, board, pot, t1) && t1.revealed_cards == revealed
            && t1.current_player_index == cur0
    } else if all_matched(ps, req) {
        if revealed == 5 {
            hand_ended_d(ps, board, pot, t1) && t1.revealed_cards == revealed
                && t1.current_player_index as int == next_active_seat(ps, 7)
        } else {
            street_advanced_d(ps, revealed, pot, t1) && t1.current_player_index as int
                == next_active_seat(ps, next_active_seat(ps, 7))
        }
    } else {
        &&& t1.is_game_running == true
        &&& t1.players@ == ps
        &&& t1.pot == pot
        &&& t1.current_required_bet == req
        &&& t1.revealed_cards == revealed
        &&& t1.current_player_index as int == next_active_seat(ps, cur0)
    }
}

proof fn lemma_stack_sum_pointwise(a: Seq<Option<Player>>, b: Seq<Option<Player>>, n: int)
    requires
        n <= 8,
        forall|i: int| 0 <= i < 8 ==> seat_chips(a, i) == seat_chips(b, i),
    ensures
        stack_sum(a, n) == stack_sum(b, n),
    decreases n,
{
    if n > 0 {
        lemma_stack_sum_pointwise(a, b, n - 1);
    }
}


/// One seat changed by the acting player's decision keeps the table
/// invariant, provided the books balance: what left the stack went into
/// the pot, and the required bet never drops during a round.
proof fn lemma_action_mid_wf(t0: Table, t1: Table, cur: int)
    requires
        wf(t0),
        t0.is_game_running,
        t1.is_game_running,
        0 <= cur < 8,
        occupied(t0.players@, cur),
        t1.players@.len() == 8,
        forall|j: int| 0 <= j < 8 && j != cur ==> t1.players@[j] == t0.players@[j],
        occupied(t1.players@, cur),
        seat(t1.players@, cur).chips >= 0,
        seat(t1.players@, cur).current_bet >= 0,
        seat(t1.players@, cur).current_bet <= t1.current_required_bet,
        seat(t1.players@, cur).cards == seat(t0.players@, cur).cards,
        seat(t0.players@, cur).has_folded ==> seat(t1.players@, cur).has_folded,
        seat(t1.players@, cur).chips <= seat(t0.players@, cur).chips,
        t1.pot == t0.pot + (seat(t0.players@, cur).chips - seat(t1.players@, cur).chips),
        t0.current_required_bet <= t1.current_required_bet <= t1.pot + BLIND,
        t1.cards == t0.cards,
        t1.revealed_cards == t0.revealed_cards,
        t1.current_player_index < 8,
        t1.button_index < 8,
        t1.name == t0.name,
        t1.minimal_bid == t0.minimal_bid,
        t1.max_players == t0.max_players,
        t1.starting_chips == t0.starting_chips,
    ensures
        wf(t1),
{
    lemma_stack_sum_update(t0.players@, t1.players@, cur, 8);
    assert(seat_chips(t1.players@, cur) == seat(t1.players@, cur).chips);
    assert(seat_chips(t0.players@, cur) == seat(t0.players@, cur).chips);
    assert(chips_total(t1) == chips_total(t0));
    assert(t1.cards@ == t0.cards@);
    assert forall|x: int, y: int|
        0 <= x < y < 8 && occupied(t1.players@, y) implies occupied(t1.players@, x) by {
        assert(occupied(t0.players@, y));
        assert(occupied(t0.players@, x));
    }
    assert forall|i: int| 0 <= i < 8 && occupied(t1.players@, i) implies (#[trigger] seat(
        t1.players@,
        i,
    )).chips >= 0 && seat(t1.players@, i).current_bet >= 0 && seat(t1.players@, i).current_bet
        <= t1.current_required_bet by {
        if i != cur {
            assert(occupied(t0.players@, i));
            assert(seat(t1.players@, i) == seat(t0.players@, i));
        }
    }
    assert forall|i: int| 0 <= i < 8 && active(t1.players@, i) implies (#[trigger] seat(
        t1.players@,
        i,
    )).cards[0] is Some && seat(t1.players@, i).cards[1] is Some by {
        if i != cur {
            assert(active(t0.players@, i));
            assert(seat(t1.players@, i) == seat(t0.players@, i));
        } else {
            assert(!seat(t0.players@, cur).has_folded);
            assert(active(t0.players@, cur));
        }
    }
}


/// Composes a completed action with what follows it: the round check (as
/// `check_for_round_end` reports it in `t1`) and, while the hand still
/// runs, the turn advancing; together they give the settled state.
proof fn lemma_settle_compose(
    mps: Seq<Option<Player>>,
    board: Seq<Option<Card>>,
    pot: int,
    req: int,
    revealed: int,
    cur: int,
    t1: Table,
    t2: Table,
)
    requires
        0 <= cur < 8,
        ({
            if count_active(mps, 8) <= 1 {
                hand_ended_d(mps, board, pot, t1) && t1.revealed_cards == revealed
                    && t1.current_player_index == cur
            } else if all_matched(mps, req) {
                if revealed == 5 {
                    hand_ended_d(mps, board, pot, t1) && t1.revealed_cards == revealed
                        && t1.current_player_index as int == next_active_seat(mps, 7)
                } else {
                    street_advanced_d(mps, revealed, pot, t1) && t1.current_player_index as int
                        == next_active_seat(mps, 7)
                }
            } else {
                t1.players@ == mps && t1.pot == pot && t1.current_required_bet == req
                    && t1.revealed_cards == revealed && t1.is_game_running
                    && t1.current_player_index == cur
            }
        }),
        !t1.is_game_running ==> t2 == t1,
        t1.is_game_running ==> t2.players == t1.players && t2.pot == t1.pot
            && t2.current_required_bet == t1.current_required_bet && t2.revealed_cards
            == t1.revealed_cards && t2.is_game_running == t1.is_game_running
            && t2.current_player_index as int == next_active_seat(
            t1.players@,
            t1.current_player_index as int,
        ),
    ensures
        settled_d(mps, board, pot, req, revealed, cur, t2),
{
    if count_active(mps, 8) <= 1 {
    } else if all_matched(mps, req) {
        if revealed == 5 {
        } else {
            assert(t1.is_game_running);
            assert forall|k: int| 0 <= k < 8 implies active(t1.players@, k) == active(
                mps,
                k,
            ) by {
                if occupied(mps, k) {
                    assert(seat(t1.players@, k).has_folded == seat(mps, k).has_folded);
                }
            }
            lemma_next_active_range(mps, 7, 1);
            let x = next_active_seat(mps, 7);
            lemma_next_active_same(t1.players@, mps, x, 1);
        }
    } else {
    }
}


/// The first occupied seat after `i` (cyclically, probing offsets
/// `d..=8`); `i` itself when every other seat is empty.
pub open spec fn next_occupied_from(ps: Seq<Option<Player>>, i: int, d: int) -> int
    decreases 9 - d,
{
    if d > 8 {
        i
    } else if occupied(ps, (i + d) % 8) {
        (i + d) % 8
    } else {
        next_occupied_from(ps, i, d + 1)
    }
}

/// The next occupied seat after `i`, cyclically.
pub open spec fn next_occupied_seat(ps: Seq<Option<Player>>, i: int) -> int {
    next_occupied_from(ps, i, 1)
}

/// The smaller of two chip amounts.
pub open spec fn min_chips(a: int, b: int) -> int {
    if a < b {
        a
    } else {
        b
    }
}

proof fn lemma_next_active_vs_occupied(
    a: Seq<Option<Player>>,
    b: Seq<Option<Player>>,
    i: int,
    d: int,
)
    requires
        forall|k: int| 0 <= k < 8 ==> active(a, k) == occupied(b, k),
        0 <= i < 8,
        1 <= d <= 9,
    ensures
        next_active_from(a, i, d) == next_occupied_from(b, i, d),
    decreases 9 - d,
{
    if d <= 8 {
        assert(0 <= (i + d) % 8 < 8);
        if !active(a, (i + d) % 8) {
            lemma_next_active_vs_occupied(a, b, i, d + 1);
        }
    }
}


proof fn lemma_two_active(ps: Seq<Option<Player>>, k: int, j: int)
    requires
        0 <= k < j < 8,
        active(ps, k),
        active(ps, j),
    ensures
        count_active(ps, 8) >= 2,
{
    lemma_count_mono(ps, j + 1, 8);
    lemma_count_mono(ps, k + 1, j);
    lemma_count_le(ps, k);
}

proof fn lemma_fold_to_one_upto(ps: Seq<Option<Player>>, board: Seq<Option<Card>>, j: int, n: int)
    requires
        0 <= j < 8,
        0 <= n <= 8,
        forall|k: int| 0 <= k < 8 ==> (active(ps, k) <==> k == j),
    ensures
        showdown_upto_d(ps, board, n) == if n <= j {
            (None::<Seq<Rank>>, Seq::<int>::empty())
        } else {
            (Some(spec_ranks(seat_cards_d(ps, board, j))), seq![j])
        },
    decreases n,
{
    if n > 0 {
        lemma_fold_to_one_upto(ps, board, j, n - 1);
    }
}

/// When every seated player but one has folded, that player alone wins the
/// showdown and is paid the whole pot.
pub proof fn lemma_fold_to_one(ps: Seq<Option<Player>>, board: Seq<Option<Card>>, pot: int, j: int)
    requires
        0 <= j < 8,
        active(ps, j),
        count_active(ps, 8) <= 1,
        pot >= 0,
    ensures
        winners_d(ps, board) == seq![j],
        award_d(ps, board, pot, j) == pot,
        forall|i: int| 0 <= i < 8 && i != j ==> award_d(ps, board, pot, i) == 0,
{
    assert forall|k: int| 0 <= k < 8 implies (active(ps, k) <==> k == j) by {
        if k != j && active(ps, k) {
            if k < j {
                lemma_two_active(ps, k, j);
            } else {
                lemma_two_active(ps, j, k);
            }
        }
    }
    lemma_fold_to_one_upto(ps, board, j, 8);
    assert(winners_d(ps, board) == seq![j]);
    assert(winners_d(ps, board)[0] == j);
    assert(winners_d(ps, board).contains(j));
    assert(winners_d(ps, board).len() == 1);
    assert(pot / 1int == pot);
    assert forall|i: int| 0 <= i < 8 && i != j implies award_d(ps, board, pot, i) == 0 by {
        if winners_d(ps, board).contains(i) {
            assert(winners_d(ps, board)[0] == j);
        }
    }
}


/// No two cards dealt for the current hand are equal: the five board
/// cards and every seated player's two hole cards are pairwise distinct.
pub open spec fn dealt_cards_distinct(t: Table) -> bool {
    &&& forall|a: int, b: int| 0 <= a < b < 5 ==> t.cards@[a]->0 != t.cards@[b]->0
    &&& forall|i: int, a: int, b: int|
        #![trigger seat(t.players@, i).cards[a], t.cards@[b]]
        0 <= i < 8 && occupied(t.players@, i) && 0 <= a < 2 && 0 <= b < 5 ==> (seat(
            t.players@,
            i,
        ).cards[a])->0 != t.cards@[b]->0
    &&& forall|i: int, a: int, j: int, b: int|
        #![trigger seat(t.players@, i).cards[a], seat(t.players@, j).cards[b]]
        0 <= i < 8 && 0 <= j < 8 && occupied(t.players@, i) && occupied(t.players@, j) && 0 <= a
            < 2 && 0 <= b < 2 && (i != j || a != b) ==> (seat(t.players@, i).cards[a])->0 != (seat(
            t.players@,
            j,
        ).cards[b])->0
}

/// Distinctness of the dealt cards only reads the board and each seat's
/// hole cards, so any step that keeps those keeps it.
proof fn lemma_distinct_preserved(t1: Table, t2: Table)
    requires
        dealt_cards_distinct(t1),
        t2.cards@ == t1.cards@,
        forall|i: int| 0 <= i < 8 ==> occupied(t2.players@, i) == occupied(t1.players@, i),
        forall|i: int, a: int|
            0 <= i < 8 && occupied(t1.players@, i) && 0 <= a < 2 ==> (#[trigger] seat(
                t2.players@,
                i,
            ).cards[a]) == seat(t1.players@, i).cards[a],
    ensures
        dealt_cards_distinct(t2),
{
}

impl Table {
    /// A new table with the given configuration, its host seated alone at
    /// seat 0 with a fresh stack, and no hand running.
    pub fn new(
        host_name: String,
        table_name: String,
        max_players: usize,
        minimal_bid: i32,
        starting_chips: i32,
        host_key: String,
    ) -> (t: Table)
        requires
            0 < starting_chips <= MONEY_CAP,
        ensures
            wf(t),
            t.name == table_name,
            t.minimal_bid == minimal_bid,
            t.max_players == max_players,
            t.starting_chips == starting_chips,
            occupied(t.players@, 0) && seat(t.players@, 0).name == host_name && seat(
                t.players@,
                0,
            ).key == host_key && seat(t.players@, 0).chips == starting_chips,
            forall|i: int| 1 <= i < 8 ==> !occupied(t.players@, i),
            t.pot == 0 && t.current_required_bet == 0 && t.revealed_cards == 0,
            t.current_player_index == 0 && t.button_index == 7,
            !t.is_game_running,
            count_occupied(t.players@, 8) == 1,
    {
        let host = Player::new(host_name, host_key, starting_chips);
        let players: [Option<Player>; 8] = [Some(host), None, None, None, None, None, None, None];
        let t = Table {
            name: table_name,
            players,
            revealed_cards: 0,
            cards: [None, None, None, None, None],
            pot: 0,
            current_required_bet: 0,
            current_player_index: 0,
            button_index: 7,
            is_game_running: false,
            minimal_bid,
            max_players,
            starting_chips,
        };
        proof {
            reveal_with_fuel(stack_sum, 9);
            reveal_with_fuel(count_occupied, 9);
            assert(stack_sum(t.players@, 8) == starting_chips as int);
            assert(count_occupied(t.players@, 8) == 1);
        }
        t
    }

    /// Seats a new player in the first empty seat, when that seat's index
    /// is within the seat cap; the newcomer gets the table's starting
    /// stack.  A player who joins while a hand is running sits the rest of
    /// that hand out, as if folded, and plays from the next deal on.
    pub fn add_player(&mut self, name: String, key: String) -> (r: bool)
        requires
            wf(*old(self)),
            chips_total(*old(self)) + old(self).starting_chips <= MONEY_CAP,
        ensures
            wf(*final(self)),
            r == (count_occupied(old(self).players@, 8) < 8 && count_occupied(
                old(self).players@,
                8,
            ) <= old(self).max_players),
            !r ==> *final(self) == *old(self),
            r ==> ({
                let n = count_occupied(old(self).players@, 8);
                &&& forall|j: int| 0 <= j < 8 && j != n ==> final(self).players@[j] == old(self).players@[j]
                &&& occupied(final(self).players@, n)
                &&& seat(final(self).players@, n).name == name
                &&& seat(final(self).players@, n).key == key
                &&& seat(final(self).players@, n).chips == old(self).starting_chips
                &&& seat(final(self).players@, n).current_bet == 0
                &&& seat(final(self).players@, n).has_acted == false
                &&& seat(final(self).players@, n).has_folded == old(self).is_game_running
                &&& seat(final(self).players@, n).cards[0] is None
                &&& seat(final(self).players@, n).cards[1] is None
                &&& count_occupied(final(self).players@, 8) == n + 1
                &&& final(self).pot == old(self).pot
                &&& final(self).name == old(self).name
                &&& final(self).cards == old(self).cards
                &&& final(self).revealed_cards == old(self).revealed_cards
                &&& final(self).current_required_bet == old(self).current_required_bet
                &&& final(self).current_player_index == old(self).current_player_index
                &&& final(self).button_index == old(self).button_index
                &&& final(self).is_game_running == old(self).is_game_running
                &&& final(self).minimal_bid == old(self).minimal_bid
                &&& final(self).max_players == old(self).max_players
                &&& final(self).starting_chips == old(self).starting_chips
            }),
    {
        proof {
            lemma_compact_occupancy(self.players@);
            lemma_count_le(self.players@, 8);
        }
        let ghost n = count_occupied(self.players@, 8);
        let mut i: usize = 0;
        while i < 8
            invariant
                i <= 8,
                i as int <= n && n <= 8,
                forall|j: int| 0 <= j < i as int ==> occupied(self.players@, j),
                forall|j: int| 0 <= j < 8 ==> (occupied(self.players@, j) <==> j < n),
                wf(*self),
                *self == *old(self),
                n == count_occupied(old(self).players@, 8),
                chips_total(*self) + self.starting_chips <= MONEY_CAP,
            decreases 8 - i,
        {
            if self.players[i].is_some() {
                proof {
                    assert(self.players@[i as int] is Some);
                    assert(occupied(self.players@, i as int));
                    assert((i as int) < n);
                }
                i = i + 1;
                continue ;
            }
            proof {
                assert(!(self.players@[i as int] is Some));
                assert(!occupied(self.players@, i as int));
                assert(i as int == n);
            }
            if i > self.max_players {
                return false;
            }
            let mut p = Player::new(name, key, self.starting_chips);
            if self.is_game_running {
                p.has_folded = true;
            }
            let ghost before = self.players@;
            self.players[i] = Some(p);
            proof {
                assert(self.players@ == before.update(i as int, self.players@[i as int]));
                assert(self.players@[i as int] is Some);
                lemma_stack_sum_update(before, self.players@, i as int, 8);
                lemma_count_occupied_update_one(before, self.players@, i as int);
                assert forall|j: int| 0 <= j < 8 implies (occupied(self.players@, j) <==> j < n
                    + 1) by {
                    if j != i as int {
                        assert(self.players@[j] == before[j]);
                        assert(occupied(before, j) <==> j < n);
                        assert(occupied(self.players@, j) == occupied(before, j));
                    }
                }
                assert(compact(self.players@));
                assert(seat_chips(self.players@, i as int) == p.chips);
                assert(stack_sum(self.players@, 8) == stack_sum(before, 8)
                    + self.starting_chips);
                assert forall|j: int| 0 <= j < 8 && j != i as int implies self.players@[j]
                    == before[j] && #[trigger] seat(self.players@, j) == seat(before, j)
                    && occupied(self.players@, j) == occupied(before, j) && active(
                    self.players@,
                    j,
                ) == active(before, j) by {}
            }
            return true;
        }
        proof {
            assert(n == 8);
        }
        false
    }

    /// Vacates a seat and shifts every higher seat down by one, keeping
    /// the remaining players' order and fields; fails when the seat was
    /// already empty.
    pub fn remove_player(&mut self, index: usize) -> (r: bool)
        requires
            wf(*old(self)),
            index < 8,
        ensures
            wf(*final(self)),
            r == occupied(old(self).players@, index as int),
            !r ==> *final(self) == *old(self),
            r ==> ({
                &&& forall|j: int| 0 <= j < index as int ==> final(self).players@[j] == old(self).players@[j]
                &&& forall|j: int|
                    index as int <= j < 7 ==> final(self).players@[j] == old(self).players@[j + 1]
                &&& final(self).players@[7] is None
                &&& final(self).pot == old(self).pot
                &&& final(self).name == old(self).name
                &&& final(self).cards == old(self).cards
                &&& final(self).revealed_cards == old(self).revealed_cards
                &&& final(self).current_required_bet == old(self).current_required_bet
                &&& final(self).current_player_index == old(self).current_player_index
                &&& final(self).button_index == old(self).button_index
                &&& final(self).is_game_running == old(self).is_game_running
                &&& final(self).minimal_bid == old(self).minimal_bid
                &&& final(self).max_players == old(self).max_players
                &&& final(self).starting_chips == old(self).starting_chips
            }),
    {
        if self.players[index].is_none() {
            return false;
        }
        let ghost orig = self.players@;
        self.players[index] = None;
        let mut i: usize = index;
        while i < 7
            invariant
                index as int <= i as int && i as int <= 7,
                index < 8,
                self.players@.len() == 8,
                forall|j: int| 0 <= j < index as int ==> self.players@[j] == orig[j],
                forall|j: int| index as int <= j < i as int ==> self.players@[j] == orig[j + 1],
                self.players@[i as int] is None,
                forall|j: int| (i as int) < j < 8 ==> self.players@[j] == orig[j],
                self.name == old(self).name,
                self.cards == old(self).cards,
                self.revealed_cards == old(self).revealed_cards,
                self.pot == old(self).pot,
                self.current_required_bet == old(self).current_required_bet,
                self.current_player_index == old(self).current_player_index,
                self.button_index == old(self).button_index,
                self.is_game_running == old(self).is_game_running,
                self.minimal_bid == old(self).minimal_bid,
                self.max_players == old(self).max_players,
                self.starting_chips == old(self).starting_chips,
            decreases 7 - i,
        {
            let moved = self.players[i + 1].take();
            self.players[i] = moved;
            i = i + 1;
        }
        proof {
            lemma_shift_wf(orig, self.players@, index as int, *old(self), *self);
        }
        true
    }

    /// Moves the turn pointer to the next seat, cyclically, whose player
    /// has not folded, skipping empty and folded seats; when no such seat
    /// exists the pointer stays where it is.
    fn increment_current_player(&mut self)
        requires
            wf(*old(self)),
        ensures
            wf(*final(self)),
            final(self).players == old(self).players,
            final(self).cards == old(self).cards,
            final(self).name == old(self).name,
            final(self).pot == old(self).pot,
            final(self).current_required_bet == old(self).current_required_bet,
            final(self).revealed_cards == old(self).revealed_cards,
            final(self).button_index == old(self).button_index,
            final(self).is_game_running == old(self).is_game_running,
            final(self).minimal_bid == old(self).minimal_bid,
            final(self).max_players == old(self).max_players,
            final(self).starting_chips == old(self).starting_chips,
            final(self).current_player_index as int == next_active_seat(
                old(self).players@,
                old(self).current_player_index as int,
            ),
    {
        let start = self.current_player_index;
        let mut d: usize = 1;
        while d <= 8
            invariant
                wf(*self),
                *self == *old(self),
                start == self.current_player_index,
                start < 8,
                1 <= d <= 9,
                next_active_seat(old(self).players@, start as int) == next_active_from(
                    old(self).players@,
                    start as int,
                    d as int,
                ),
            decreases 9 - d,
        {
            let idx = (start + d) % 8;
            let hit = match &self.players[idx] {
                Some(p) => !p.has_folded,
                None => false,
            };
            if hit {
                proof {
                    assert(active(self.players@, idx as int));
                }
                self.current_player_index = idx;
                return ;
            }
            proof {
                assert(!active(self.players@, idx as int));
            }
            d = d + 1;
        }
    }

    /// Settles the hand: evaluates every player still in, pays the pot out
    /// in equal integer shares to the seats holding the best hand under
    /// `compare_hands` (scanning seats in index order), and leaves the
    /// table idle.  With no seat left in, the pot is simply discarded.
    fn end_game(&mut self)
        requires
            wf(*old(self)),
            old(self).is_game_running,
        ensures
            wf(*final(self)),
            hand_ended_d(old(self).players@, old(self).cards@, old(self).pot as int, *final(self)),
            final(self).cards == old(self).cards,
            final(self).name == old(self).name,
            final(self).revealed_cards == old(self).revealed_cards,
            final(self).current_player_index == old(self).current_player_index,
            final(self).button_index == old(self).button_index,
            final(self).minimal_bid == old(self).minimal_bid,
            final(self).max_players == old(self).max_players,
            final(self).starting_chips == old(self).starting_chips,
    {
        let ghost ps0 = self.players@;
        let ghost board0 = self.cards@;
        let ghost pot0 = self.pot as int;
        self.is_game_running = false;
        self.current_required_bet = 0;
        let mut best: Option<FullHand> = None;
        let mut winners: Vec<usize> = Vec::new();
        let mut i: usize = 0;
        while i < 8
            invariant
                i <= 8,
                self.players@ == ps0,
                self.cards@ == board0,
                wf(*old(self)),
                old(self).is_game_running,
                ps0 == old(self).players@,
                board0 == old(self).cards@,
                (best is None) == (showdown_upto_d(ps0, board0, i as int).0 is None),
                best is Some ==> best->0.ranks@ == showdown_upto_d(ps0, board0, i as int).0->0,
                winners@.map_values(|x: usize| x as int) == showdown_upto_d(
                    ps0,
                    board0,
                    i as int,
                ).1,
                forall|k: int| 0 <= k < winners@.len() ==> #[trigger] winners@[k] < 8,
            decreases 8 - i,
        {
            let is_in = match &self.players[i] {
                Some(p) => !p.has_folded,
                None => false,
            };
            if is_in {
                proof {
                    assert(active(ps0, i as int));
                    assert(seat(ps0, i as int).cards[0] is Some);
                    assert(seat(ps0, i as int).cards[1] is Some);
                }
                let (h0, h1) = match &self.players[i] {
                    Some(p) => (p.cards[0].unwrap(), p.cards[1].unwrap()),
                    None => (self.cards[0].unwrap(), self.cards[0].unwrap()),
                };
                let all = [
                    self.cards[0].unwrap(),
                    self.cards[1].unwrap(),
                    self.cards[2].unwrap(),
                    self.cards[3].unwrap(),
                    self.cards[4].unwrap(),
                    h0,
                    h1,
                ];
                proof {
                    assert(all@ =~= seat_cards_d(ps0, board0, i as int));
                }
                let fh = get_best_hand(all);
                let verdict: u8 = match &best {
                    None => 0,
                    Some(b) => match compare_hands(&fh, b) {
                        core::cmp::Ordering::Greater => 0,
                        core::cmp::Ordering::Equal => 1,
                        core::cmp::Ordering::Less => 2,
                    },
                };
                if verdict == 0 {
                    best = Some(fh);
                    winners = Vec::new();
                    winners.push(i);
                } else if verdict == 1 {
                    winners.push(i);
                }
            }
            proof {
                assert(winners@.map_values(|x: usize| x as int) =~= showdown_upto_d(
                    ps0,
                    board0,
                    i as int + 1,
                ).1);
            }
            i = i + 1;
        }
        let ghost w = winners_d(ps0, board0);
        proof {
            lemma_showdown_entries(ps0, board0, 8);
            assert(winners@.len() == w.len());
            assert(w.len() <= 8);
            assert forall|j: int| 0 <= j < 8 implies #[trigger] seat_chips(ps0, j) >= 0 by {
                if occupied(ps0, j) {
                    assert(seat(ps0, j).chips >= 0);
                }
            }
            lemma_stack_nonneg_bounds(ps0, 8);
        }
        if winners.len() > 0 {
            let share = self.pot / (winners.len() as i32);
            let ghost share_g = share as int;
            proof {
                broadcast use vstd::arithmetic::div_mod::lemma_fundamental_div_mod;
                broadcast use vstd::arithmetic::div_mod::lemma_mod_bound;

                assert(share_g == pot0 / w.len() as int);
                assert(share_g <= pot0) by (nonlinear_arith)
                    requires
                        share_g == pot0 / w.len() as int,
                        pot0 >= 0,
                        1 <= w.len() as int <= 8,
                ;
                assert(w.len() as int * share_g <= pot0) by (nonlinear_arith)
                    requires
                        share_g == pot0 / w.len() as int,
                        pot0 >= 0,
                        1 <= w.len() as int <= 8,
                ;
            }
            let mut k: usize = 0;
            while k < winners.len()
                invariant
                    k <= winners.len(),
                    winners@.len() == w.len(),
                    winners@.map_values(|x: usize| x as int) == w,
                    forall|kk: int| 0 <= kk < w.len() ==> 0 <= #[trigger] w[kk] < 8 && active(ps0, w[kk]),
                    forall|k1: int, k2: int| 0 <= k1 < k2 < w.len() ==> #[trigger] w[k1] < #[trigger] w[k2],
                    1 <= w.len() <= 8,
                    share_g == pot0 / w.len() as int,
                    0 <= share_g,
                    w.len() as int * share_g <= pot0,
                    share == share_g,
                    self.players@.len() == 8,
                    self.cards@ == board0,
                    self.pot == old(self).pot,
                    pot0 == old(self).pot as int,
                    self.current_required_bet == 0,
                    self.is_game_running == false,
                    self.name == old(self).name,
                    self.revealed_cards == old(self).revealed_cards,
                    self.current_player_index == old(self).current_player_index,
                    self.button_index == old(self).button_index,
                    self.minimal_bid == old(self).minimal_bid,
                    self.max_players == old(self).max_players,
                    self.starting_chips == old(self).starting_chips,
                    forall|j: int| 0 <= j < 8 ==> occupied(self.players@, j) == occupied(ps0, j),
                    forall|j: int|
                        0 <= j < 8 && occupied(ps0, j) ==> {
                            let p0 = seat(ps0, j);
                            let p1 = #[trigger] seat(self.players@, j);
                            p1.name == p0.name && p1.key == p0.key && p1.cards == p0.cards
                                && p1.current_bet == p0.current_bet && p1.has_acted == p0.has_acted
                                && p1.has_folded == p0.has_folded && p1.chips == p0.chips + (
                            if w.subrange(0, k as int).contains(j) {
                                share_g
                            } else {
                                0int
                            })
                        },
                    stack_sum(self.players@, 8) == stack_sum(ps0, 8) + k as int * share_g,
                    stack_sum(ps0, 8) + pot0 <= MONEY_CAP,
                    stack_sum(ps0, 8) >= 0,
                    forall|j: int| 0 <= j < 8 ==> seat_chips(ps0, j) >= 0 && seat_chips(ps0, j) <= stack_sum(ps0, 8),
                decreases winners.len() - k,
            {
                let ws = winners[k];
                proof {
                    assert(w[k as int] == ws as int);
                    assert(active(ps0, ws as int));
                    assert(occupied(self.players@, ws as int));
                    assert(!w.subrange(0, k as int).contains(ws as int));
                    assert(k as int * share_g <= w.len() as int * share_g) by (nonlinear_arith)
                        requires
                            0 <= k as int <= w.len() as int,
                            share_g >= 0,
                    ;
                }
                proof {
                    assert(seat(self.players@, ws as int).chips == seat_chips(ps0, ws as int));
                    assert(seat_chips(ps0, ws as int) <= stack_sum(ps0, 8));
                    assert(share_g <= pot0) by (nonlinear_arith)
                        requires
                            share_g == pot0 / w.len() as int,
                            pot0 >= 0,
                            1 <= w.len() as int <= 8,
                    ;
                }
                let ghost before = self.players@;
                let mut slot = self.players[ws].take();
                match slot {
                    Some(mut p) => {
                        p.chips = p.chips + share;
                        self.players[ws] = Some(p);
                    },
                    None => {
                        self.players[ws] = None;
                    },
                }
                proof {
                    lemma_stack_sum_update(before, self.players@, ws as int, 8);
                    assert(w.subrange(0, k as int + 1) =~= w.subrange(0, k as int).push(
                        w[k as int],
                    ));
                    assert(w.subrange(0, k as int + 1)[k as int] == ws as int);
                    assert(w.subrange(0, k as int + 1).contains(ws as int));
                    assert forall|j: int| 0 <= j < 8 && occupied(ps0, j) && j != ws as int implies
                        #[trigger] seat(self.players@, j) == seat(before, j) by {}
                    assert forall|j: int| 0 <= j < 8 && j != ws as int implies w.subrange(
                        0,
                        k as int + 1,
                    ).contains(j) == w.subrange(0, k as int).contains(j) by {
                        if w.subrange(0, k as int + 1).contains(j) {
                            let idx = choose|idx: int|
                                0 <= idx < w.subrange(0, k as int + 1).len() && #[trigger] w.subrange(
                                    0,
                                    k as int + 1,
                                )[idx] == j;
                            assert(idx < k as int);
                            assert(w.subrange(0, k as int)[idx] == j);
                        }
                        if w.subrange(0, k as int).contains(j) {
                            let idx = choose|idx: int|
                                0 <= idx < w.subrange(0, k as int).len() && #[trigger] w.subrange(
                                    0,
                                    k as int,
                                )[idx] == j;
                            assert(w.subrange(0, k as int + 1)[idx] == j);
                        }
                    }
                    assert((k as int + 1) * share_g == k as int * share_g + share_g) by (nonlinear_arith);
                }
                k = k + 1;
            }
            proof {
                assert(w.subrange(0, w.len() as int) =~= w);
            }
        }
        self.pot = 0;
        proof {
            assert forall|x: int, y: int|
                0 <= x < y < 8 && occupied(self.players@, y) implies occupied(
                self.players@,
                x,
            ) by {
                assert(occupied(ps0, y));
                assert(occupied(ps0, x));
            }
            assert(compact(self.players@));
            assert forall|j: int| 0 <= j < 8 && occupied(self.players@, j) implies (#[trigger] seat(
                self.players@,
                j,
            )).chips >= 0 && seat(self.players@, j).current_bet >= 0 by {
                assert(occupied(ps0, j));
                assert(seat(ps0, j).chips >= 0 && seat(ps0, j).current_bet >= 0);
            }
            assert(chips_total(*self) <= MONEY_CAP);
        }
    }

    /// Starts the next betting round: the required bet drops to zero and
    /// every seated player's round contribution and acted flag reset.
    fn reset_round(&mut self)
        requires
            wf(*old(self)),
            old(self).is_game_running,
        ensures
            wf(*final(self)),
            final(self).current_required_bet == 0,
            final(self).cards == old(self).cards,
            final(self).name == old(self).name,
            final(self).pot == old(self).pot,
            final(self).revealed_cards == old(self).revealed_cards,
            final(self).current_player_index == old(self).current_player_index,
            final(self).button_index == old(self).button_index,
            final(self).is_game_running == old(self).is_game_running,
            final(self).minimal_bid == old(self).minimal_bid,
            final(self).max_players == old(self).max_players,
            final(self).starting_chips == old(self).starting_chips,
            forall|i: int|
                0 <= i < 8 ==> occupied(final(self).players@, i) == occupied(
                    old(self).players@,
                    i,
                ),
            forall|i: int|
                0 <= i < 8 && occupied(old(self).players@, i) ==> {
                    let p0 = seat(old(self).players@, i);
                    let p1 = #[trigger] seat(final(self).players@, i);
                    p1.name == p0.name && p1.key == p0.key && p1.cards == p0.cards && p1.chips
                        == p0.chips && p1.has_folded == p0.has_folded && p1.current_bet == 0
                        && p1.has_acted == false
                },
    {
        let ghost ps0 = self.players@;
        self.current_required_bet = 0;
        let mut i: usize = 0;
        while i < 8
            invariant
                i <= 8,
                self.players@.len() == 8,
                ps0 == old(self).players@,
                self.cards == old(self).cards,
                self.name == old(self).name,
                self.pot == old(self).pot,
                self.revealed_cards == old(self).revealed_cards,
                self.current_player_index == old(self).current_player_index,
                self.button_index == old(self).button_index,
                self.is_game_running == old(self).is_game_running,
                self.minimal_bid == old(self).minimal_bid,
                self.max_players == old(self).max_players,
                self.starting_chips == old(self).starting_chips,
                self.current_required_bet == 0,
                forall|j: int| (i as int) <= j < 8 ==> self.players@[j] == ps0[j],
                forall|j: int|
                    0 <= j < 8 ==> occupied(self.players@, j) == occupied(ps0, j),
                forall|j: int|
                    0 <= j < i as int && occupied(ps0, j) ==> {
                        let p0 = seat(ps0, j);
                        let p1 = #[trigger] seat(self.players@, j);
                        p1.name == p0.name && p1.key == p0.key && p1.cards == p0.cards && p1.chips
                            == p0.chips && p1.has_folded == p0.has_folded && p1.current_bet == 0
                            && p1.has_acted == false
                    },
            decreases 8 - i,
        {
            let ghost before = self.players@;
            let mut slot = self.players[i].take();
            match slot {
                Some(mut p) => {
                    p.current_bet = 0;
                    p.has_acted = false;
                    self.players[i] = Some(p);
                },
                None => {
                    self.players[i] = None;
                },
            }
            proof {
                assert forall|j: int| 0 <= j < 8 && j != i as int implies self.players@[j]
                    == before[j] by {}
                assert(before[i as int] == ps0[i as int]);
                assert forall|j: int| 0 <= j < (i as int + 1) && occupied(ps0, j) implies {
                    let p0 = seat(ps0, j);
                    let p1 = #[trigger] seat(self.players@, j);
                    p1.name == p0.name && p1.key == p0.key && p1.cards == p0.cards && p1.chips
                        == p0.chips && p1.has_folded == p0.has_folded && p1.current_bet == 0
                        && p1.has_acted == false
                } by {
                    if j == i as int {
                        assert(seat(self.players@, j).name == seat(ps0, j).name);
                    } else {
                        assert(seat(self.players@, j) == seat(before, j));
                    }
                }
            }
            i = i + 1;
        }
        proof {
            assert forall|j: int| 0 <= j < 8 implies seat_chips(self.players@, j) == seat_chips(
                ps0,
                j,
            ) by {
                if occupied(ps0, j) {
                    assert(seat(self.players@, j).chips == seat(ps0, j).chips);
                }
            }
            lemma_stack_sum_pointwise(self.players@, ps0, 8);
            assert forall|x: int, y: int|
                0 <= x < y < 8 && occupied(self.players@, y) implies occupied(
                self.players@,
                x,
            ) by {
                assert(occupied(ps0, y));
                assert(occupied(ps0, x));
            }
        }
    }

    /// Decides whether the action just taken completed the betting round,
    /// and if so advances the game: the hand ends at once when at most one
    /// player is left in; a completed round reveals the next street (after
    /// the river, it runs the showdown) and resets the round state.
    fn check_for_round_end(&mut self)
        requires
            wf(*old(self)),
        ensures
            wf(*final(self)),
            !old(self).is_game_running ==> *final(self) == *old(self),
            same_config(*old(self), *final(self)),
            final(self).cards == old(self).cards,
            final(self).button_index == old(self).button_index,
            old(self).is_game_running ==> ({
                let ps = old(self).players@;
                if count_active(ps, 8) <= 1 {
                    hand_ended_d(ps, old(self).cards@, old(self).pot as int, *final(self))
                        && final(self).revealed_cards == old(self).revealed_cards && final(self).current_player_index == old(self).current_player_index
                } else if all_matched(ps, old(self).current_required_bet as int) {
                    if old(self).revealed_cards == 5 {
                        hand_ended_d(ps, old(self).cards@, old(self).pot as int, *final(self))
                            && final(self).revealed_cards == old(self).revealed_cards && final(self).current_player_index as int == next_active_seat(ps, 7)
                    } else {
                        street_advanced_d(
                            ps,
                            old(self).revealed_cards as int,
                            old(self).pot as int,
                            *final(self),
                        ) && final(self).current_player_index as int == next_active_seat(ps, 7)
                    }
                } else {
                    *final(self) == *old(self)
                }
            }),
    {
        if !self.is_game_running {
            return ;
        }
        let ghost ps0 = self.players@;
        let mut actives: usize = 0;
        let mut i: usize = 0;
        while i < 8
            invariant
                i <= 8,
                *self == *old(self),
                ps0 == self.players@,
                actives as int == count_active(ps0, i as int),
                actives <= i,
            decreases 8 - i,
        {
            let is_in = match &self.players[i] {
                Some(p) => !p.has_folded,
                None => false,
            };
            if is_in {
                actives = actives + 1;
            }
            proof {
                assert(active(ps0, i as int) == is_in);
            }
            i = i + 1;
        }
        if actives <= 1 {
            self.end_game();
            return ;
        }
        let mut matched = true;
        let mut j: usize = 0;
        while j < 8
            invariant
                j <= 8,
                *self == *old(self),
                ps0 == self.players@,
                matched == (forall|k: int|
                    0 <= k < j as int && active(ps0, k) ==> (#[trigger] seat(ps0, k)).has_acted
                        && seat(ps0, k).current_bet == self.current_required_bet),
            decreases 8 - j,
        {
            let bad = match &self.players[j] {
                Some(p) => !p.has_folded && (!p.has_acted
                    || p.current_bet != self.current_required_bet),
                None => false,
            };
            proof {
                if bad {
                    assert(active(ps0, j as int));
                    assert(!(seat(ps0, j as int).has_acted && seat(ps0, j as int).current_bet
                        == self.current_required_bet));
                } else {
                    assert(active(ps0, j as int) ==> seat(ps0, j as int).has_acted && seat(
                        ps0,
                        j as int,
                    ).current_bet == self.current_required_bet);
                }
            }
            if bad {
                matched = false;
            }
            j = j + 1;
        }
        if !matched {
            proof {
                assert(!all_matched(ps0, self.current_required_bet as int));
            }
            return ;
        }
        proof {
            assert(all_matched(ps0, self.current_required_bet as int));
        }
        self.current_player_index = 7;
        self.increment_current_player();
        if self.revealed_cards < 3 {
            self.revealed_cards = 3;
            self.reset_round();
        } else if self.revealed_cards < 5 {
            let r = self.revealed_cards;
            self.revealed_cards = r + 1;
            self.reset_round();
        } else {
            self.end_game();
        }
    }

    /// Applies the acting player's decision.  A fold or a call always goes
    /// through; a check acts only when no bet is required (but still
    /// reports success, as a harmless no-op otherwise); a raise is
    /// rejected, with nothing changed, when its amount is negative or when
    /// the amount plus the catch-up to the required bet would exceed the
    /// player's stack, so a stack can never go negative.  An action on an
    /// idle table is rejected without effect; one aimed at an empty seat
    /// only advances the turn pointer.  After a successful action the
    /// round-completion rules of `settled_d` run.
    #[verifier::rlimit(100)]
    pub fn player_action(&mut self, action: PlayerAction) -> (r: bool)
        requires
            wf(*old(self)),
        ensures
            wf(*final(self)),
            same_config(*old(self), *final(self)),
            final(self).cards == old(self).cards,
            final(self).button_index == old(self).button_index,
            !old(self).is_game_running ==> r == false && *final(self) == *old(self),
            old(self).is_game_running && !occupied(
                old(self).players@,
                old(self).current_player_index as int,
            ) ==> r == false && final(self).players == old(self).players && final(self).pot
                == old(self).pot && final(self).current_required_bet
                == old(self).current_required_bet && final(self).revealed_cards
                == old(self).revealed_cards && final(self).is_game_running
                == old(self).is_game_running && final(self).current_player_index as int == next_active_seat(
                old(self).players@,
                old(self).current_player_index as int,
            ),
            old(self).is_game_running && occupied(
                old(self).players@,
                old(self).current_player_index as int,
            ) ==> ({
                let t0 = *old(self);
                let ps = t0.players@;
                let cur = t0.current_player_index as int;
                let p = seat(ps, cur);
                let req = t0.current_required_bet as int;
                let cb = p.current_bet as int;
                match action {
                    PlayerAction::Fold => {
                        let mid = ps.update(
                            cur,
                            Some(Player { has_folded: true, has_acted: true, ..p }),
                        );
                        r == true && settled_d(
                            mid,
                            t0.cards@,
                            t0.pot as int,
                            req,
                            t0.revealed_cards as int,
                            cur,
                            *final(self),
                        )
                    },
                    PlayerAction::Check => {
                        if req == 0 {
                            let mid = ps.update(cur, Some(Player { has_acted: true, ..p }));
                            r == true && settled_d(
                                mid,
                                t0.cards@,
                                t0.pot as int,
                                req,
                                t0.revealed_cards as int,
                                cur,
                                *final(self),
                            )
                        } else {
                            r == true && *final(self) == t0
                        }
                    },
                    PlayerAction::Call => {
                        let add = if p.chips < req - cb {
                            p.chips as int
                        } else {
                            req - cb
                        };
                        let mid = ps.update(
                            cur,
                            Some(
                                Player {
                                    chips: (p.chips - add) as i32,
                                    current_bet: (cb + add) as i32,
                                    has_acted: true,
                                    ..p
                                },
                            ),
                        );
                        r == true && settled_d(
                            mid,
                            t0.cards@,
                            t0.pot + add,
                            req,
                            t0.revealed_cards as int,
                            cur,
                            *final(self),
                        )
                    },
                    PlayerAction::Raise(v) => {
                        if v < 0 || v + (req - cb) > p.chips {
                            r == false && *final(self) == t0
                        } else {
                            let add = v + (req - cb);
                            let mid = ps.update(
                                cur,
                                Some(
                                    Player {
                                        chips: (p.chips - add) as i32,
                                        current_bet: (cb + add) as i32,
                                        has_acted: true,
                                        ..p
                                    },
                                ),
                            );
                            r == true && settled_d(
                                mid,
                                t0.cards@,
                                t0.pot + add,
                                req + v,
                                t0.revealed_cards as int,
                                cur,
                                *final(self),
                            )
                        }
                    },
                }
            }),
    {
        if !self.is_game_running {
            return false;
        }
        let cur = self.current_player_index;
        if self.players[cur].is_none() {
            self.increment_current_player();
            return false;
        }
        let ghost t0 = *old(self);
        let ghost ps = t0.players@;
        proof {
            assert(occupied(ps, cur as int));
            assert forall|j: int| 0 <= j < 8 implies seat_chips(ps, j) >= 0 by {
                if occupied(ps, j) {
                    assert(seat(ps, j).chips >= 0);
                }
            }
            lemma_stack_nonneg_bounds(ps, 8);
        }
        match action {
            PlayerAction::Fold => {
                let mut slot = self.players[cur].take();
                match slot {
                    Some(mut p) => {
                        p.has_folded = true;
                        p.has_acted = true;
                        self.players[cur] = Some(p);
                    },
                    None => {
                        self.players[cur] = None;
                    },
                }
                proof {
                    assert(seat(self.players@, cur as int) == (Player {
                        has_folded: true,
                        has_acted: true,
                        ..seat(ps, cur as int)
                    }));
                    assert(self.players@ =~= ps.update(
                        cur as int,
                        Some(
                            (Player {
                                has_folded: true,
                                has_acted: true,
                                ..seat(ps, cur as int)
                            }),
                        ),
                    ));
                    lemma_action_mid_wf(t0, *self, cur as int);
                }
                let ghost mid = *self;
                let ghost mpot = self.pot as int;
                let ghost mreq = self.current_required_bet as int;
                self.check_for_round_end();
                let ghost t1 = *self;
                if self.is_game_running {
                    self.increment_current_player();
                }
                proof {
                    lemma_settle_compose(
                        mid.players@,
                        t0.cards@,
                        mpot,
                        mreq,
                        t0.revealed_cards as int,
                        cur as int,
                        t1,
                        *self,
                    );
                }
                true
            },
            PlayerAction::Check => {
                if self.current_required_bet == 0 {
                    let mut slot = self.players[cur].take();
                    match slot {
                        Some(mut p) => {
                            p.has_acted = true;
                            self.players[cur] = Some(p);
                        },
                        None => {
                            self.players[cur] = None;
                        },
                    }
                    proof {
                        assert(seat(self.players@, cur as int) == (Player {
                            has_acted: true,
                            ..seat(ps, cur as int)
                        }));
                        assert(self.players@ =~= ps.update(
                            cur as int,
                            Some((Player { has_acted: true, ..seat(ps, cur as int) })),
                        ));
                        lemma_action_mid_wf(t0, *self, cur as int);
                    }
                    let ghost mid = *self;
                    let ghost mpot = self.pot as int;
                    let ghost mreq = self.current_required_bet as int;
                    self.check_for_round_end();
                    let ghost t1 = *self;
                    if self.is_game_running {
                        self.increment_current_player();
                    }
                    proof {
                        lemma_settle_compose(
                            mid.players@,
                            t0.cards@,
                            mpot,
                            mreq,
                            t0.revealed_cards as int,
                            cur as int,
                            t1,
                            *self,
                        );
                    }
                }
                true
            },
            PlayerAction::Call => {
                let mut slot = self.players[cur].take();
                match slot {
                    Some(mut p) => {
                        proof {
                            assert(p == seat(ps, cur as int));
                            assert(p.current_bet <= t0.current_required_bet);
                            assert(seat_chips(ps, cur as int) == p.chips as int);
                            assert(seat_chips(ps, cur as int) <= stack_sum(ps, 8));
                            assert(t0.pot + stack_sum(ps, 8) <= MONEY_CAP);
                        }
                        let shortfall = self.current_required_bet - p.current_bet;
                        let add = if p.chips < shortfall {
                            p.chips
                        } else {
                            shortfall
                        };
                        p.chips = p.chips - add;
                        p.current_bet = p.current_bet + add;
                        p.has_acted = true;
                        self.pot = self.pot + add;
                        self.players[cur] = Some(p);
                    },
                    None => {
                        self.players[cur] = None;
                    },
                }
                proof {
                    let ghost addg = ({
                        let p0 = seat(ps, cur as int);
                        let reqg = t0.current_required_bet as int;
                        let cbg = p0.current_bet as int;
                        if p0.chips < reqg - cbg {
                            p0.chips as int
                        } else {
                            reqg - cbg
                        }
                    });
                    assert(seat(self.players@, cur as int) == (Player {
                        chips: (seat(ps, cur as int).chips - addg) as i32,
                        current_bet: (seat(ps, cur as int).current_bet + addg) as i32,
                        has_acted: true,
                        ..seat(ps, cur as int)
                    }));
                    assert(self.players@ =~= ps.update(
                        cur as int,
                        Some(
                            (Player {
                                chips: (seat(ps, cur as int).chips - addg) as i32,
                                current_bet: (seat(ps, cur as int).current_bet + addg) as i32,
                                has_acted: true,
                                ..seat(ps, cur as int)
                            }),
                        ),
                    ));
                    lemma_action_mid_wf(t0, *self, cur as int);
                }
                let ghost mid = *self;
                let ghost mpot = self.pot as int;
                let ghost mreq = self.current_required_bet as int;
                self.check_for_round_end();
                let ghost t1 = *self;
                if self.is_game_running {
                    self.increment_current_player();
                }
                proof {
                    lemma_settle_compose(
                        mid.players@,
                        t0.cards@,
                        mpot,
                        mreq,
                        t0.revealed_cards as int,
                        cur as int,
                        t1,
                        *self,
                    );
                }
                true
            },
            PlayerAction::Raise(v) => {
                let (ok, add) = match &self.players[cur] {
                    Some(p) => {
                        proof {
                            assert(*p == seat(ps, cur as int));
                            assert(p.current_bet <= t0.current_required_bet);
                            assert(seat_chips(ps, cur as int) == p.chips as int);
                            assert(seat_chips(ps, cur as int) <= stack_sum(ps, 8));
                            assert(t0.pot + stack_sum(ps, 8) <= MONEY_CAP);
                        }
                        let shortfall = self.current_required_bet - p.current_bet;
                        if v < 0 || v > p.chips - shortfall {
                            (false, 0)
                        } else {
                            (true, v + shortfall)
                        }
                    },
                    None => (false, 0),
                };
                if !ok {
                    return false;
                }
                let mut slot = self.players[cur].take();
                match slot {
                    Some(mut p) => {
                        proof {
                            assert(p == seat(ps, cur as int));
                            assert(p.current_bet <= t0.current_required_bet);
                            assert(seat_chips(ps, cur as int) == p.chips as int);
                            assert(seat_chips(ps, cur as int) <= stack_sum(ps, 8));
                            assert(t0.pot + stack_sum(ps, 8) <= MONEY_CAP);
                        }
                        p.chips = p.chips - add;
                        p.current_bet = p.current_bet + add;
                        p.has_acted = true;
                        self.pot = self.pot + add;
                        self.current_required_bet = self.current_required_bet + v;
                        self.players[cur] = Some(p);
                    },
                    None => {
                        self.players[cur] = None;
                    },
                }
                proof {
                    let ghost addg = (v + (t0.current_required_bet - seat(
                        ps,
                        cur as int,
                    ).current_bet)) as int;
                    assert(seat(self.players@, cur as int) == (Player {
                        chips: (seat(ps, cur as int).chips - addg) as i32,
                        current_bet: (seat(ps, cur as int).current_bet + addg) as i32,
                        has_acted: true,
                        ..seat(ps, cur as int)
                    }));
                    assert(self.players@ =~= ps.update(
                        cur as int,
                        Some(
                            (Player {
                                chips: (seat(ps, cur as int).chips - addg) as i32,
                                current_bet: (seat(ps, cur as int).current_bet + addg) as i32,
                                has_acted: true,
                                ..seat(ps, cur as int)
                            }),
                        ),
                    ));
                    lemma_action_mid_wf(t0, *self, cur as int);
                }
                let ghost mid = *self;
                let ghost mpot = self.pot as int;
                let ghost mreq = self.current_required_bet as int;
                self.check_for_round_end();
                let ghost t1 = *self;
                if self.is_game_running {
                    self.increment_current_player();
                }
                proof {
                    lemma_settle_compose(
                        mid.players@,
                        t0.cards@,
                        mpot,
                        mreq,
                        t0.revealed_cards as int,
                        cur as int,
                        t1,
                        *self,
                    );
                }
                true
            },
        }
    }

    /// Deals a fresh hand: shuffles a new 52-card deck, gives every seated
    /// player two cards off the top and the board its five, face down, and
    /// resets every per-hand flag and round contribution.  Stacks, the
    /// pot, the required bet and both seat pointers are untouched.
    fn reroll_cards(&mut self)
        requires
            wf(*old(self)),
        ensures
            wf(*final(self)),
            same_config(*old(self), *final(self)),
            final(self).pot == old(self).pot,
            final(self).current_required_bet == old(self).current_required_bet,
            final(self).current_player_index == old(self).current_player_index,
            final(self).button_index == old(self).button_index,
            final(self).is_game_running == true,
            final(self).revealed_cards == 0,
            forall|j: int| 0 <= j < 5 ==> final(self).cards@[j] is Some,
            forall|i: int|
                0 <= i < 8 ==> occupied(final(self).players@, i) == occupied(
                    old(self).players@,
                    i,
                ),
            forall|i: int|
                0 <= i < 8 && occupied(old(self).players@, i) ==> {
                    let p0 = seat(old(self).players@, i);
                    let p1 = #[trigger] seat(final(self).players@, i);
                    p1.name == p0.name && p1.key == p0.key && p1.chips == p0.chips
                        && p1.current_bet == 0 && p1.has_acted == false && p1.has_folded == false
                        && p1.cards[0] is Some && p1.cards[1] is Some
                },
            dealt_cards_distinct(*final(self)),
    {
        let ghost ps0 = self.players@;
        let mut deck = get_new_deck();
        let ghost deck0 = deck@;
        shuffle_cards(&mut deck);
        proof {
            assert(deck@.len() == 52);
            broadcast use vstd::seq_lib::group_to_multiset_ensures;

            deck0.lemma_multiset_has_no_duplicates();
            deck@.lemma_multiset_has_no_duplicates_conv();
            assert(deck@.no_duplicates());
            lemma_compact_occupancy(ps0);
            lemma_count_le(ps0, 8);
        }
        let mut idx: usize = 0;
        let mut i: usize = 0;
        while i < 8
            invariant
                i <= 8,
                idx <= 2 * i,
                deck@.len() == 52,
                self.players@.len() == 8,
                ps0 == old(self).players@,
                self.cards == old(self).cards,
                self.name == old(self).name,
                self.pot == old(self).pot,
                self.current_required_bet == old(self).current_required_bet,
                self.revealed_cards == old(self).revealed_cards,
                self.current_player_index == old(self).current_player_index,
                self.button_index == old(self).button_index,
                self.minimal_bid == old(self).minimal_bid,
                self.max_players == old(self).max_players,
                self.starting_chips == old(self).starting_chips,
                forall|j: int| (i as int) <= j < 8 ==> self.players@[j] == ps0[j],
                forall|j: int| 0 <= j < 8 ==> occupied(self.players@, j) == occupied(ps0, j),
                forall|j: int| 0 <= j < 8 ==> (occupied(ps0, j) <==> j < count_occupied(ps0, 8)),
                idx as int == 2 * (if i as int <= count_occupied(ps0, 8) {
                    i as int
                } else {
                    count_occupied(ps0, 8)
                }),
                deck@.no_duplicates(),
                forall|j: int|
                    0 <= j < i as int && occupied(ps0, j) ==> {
                        let p0 = seat(ps0, j);
                        let p1 = #[trigger] seat(self.players@, j);
                        p1.name == p0.name && p1.key == p0.key && p1.chips == p0.chips
                            && p1.current_bet == 0 && p1.has_acted == false && p1.has_folded
                            == false && p1.cards[0] == Some(deck@[2 * j]) && p1.cards[1] == Some(
                            deck@[2 * j + 1],
                        )
                    },
            decreases 8 - i,
        {
            proof {
                if occupied(ps0, i as int) {
                    assert((i as int) < count_occupied(ps0, 8));
                    assert(idx as int == 2 * i as int);
                }
            }
            let ghost before = self.players@;
            let mut slot = self.players[i].take();
            match slot {
                Some(mut p) => {
                    p.cards = [Some(deck[idx]), Some(deck[idx + 1])];
                    p.current_bet = 0;
                    p.has_acted = false;
                    p.has_folded = false;
                    self.players[i] = Some(p);
                    idx = idx + 2;
                },
                None => {
                    self.players[i] = None;
                },
            }
            proof {
                assert forall|j: int| 0 <= j < 8 && j != i as int implies self.players@[j]
                    == before[j] by {}
                assert(before[i as int] == ps0[i as int]);
                assert forall|j: int| 0 <= j < (i as int + 1) && occupied(ps0, j) implies {
                    let p0 = seat(ps0, j);
                    let p1 = #[trigger] seat(self.players@, j);
                    p1.name == p0.name && p1.key == p0.key && p1.chips == p0.chips
                        && p1.current_bet == 0 && p1.has_acted == false && p1.has_folded == false
                        && p1.cards[0] == Some(deck@[2 * j]) && p1.cards[1] == Some(
                        deck@[2 * j + 1],
                    )
                } by {
                    if j == i as int {
                        assert(seat(self.players@, j).name == seat(ps0, j).name);
                        assert(j < count_occupied(ps0, 8));
                        assert(idx as int == 2 * j + 2);
                    } else {
                        assert(seat(self.players@, j) == seat(before, j));
                    }
                }
            }
            i = i + 1;
        }
        self.is_game_running = true;
        self.cards[0] = Some(deck[16]);
        self.cards[1] = Some(deck[17]);
        self.cards[2] = Some(deck[18]);
        self.cards[3] = Some(deck[19]);
        self.cards[4] = Some(deck[20]);
        self.revealed_cards = 0;
        proof {
            assert forall|j: int| 0 <= j < 8 implies seat_chips(self.players@, j) == seat_chips(
                ps0,
                j,
            ) by {
                if occupied(ps0, j) {
                    assert(seat(self.players@, j).chips == seat(ps0, j).chips);
                }
            }
            lemma_stack_sum_pointwise(self.players@, ps0, 8);
            assert forall|x: int, y: int|
                0 <= x < y < 8 && occupied(self.players@, y) implies occupied(
                self.players@,
                x,
            ) by {
                assert(occupied(ps0, y));
                assert(occupied(ps0, x));
            }
            assert forall|a: int, b: int| 0 <= a < b < 5 implies self.cards@[a]->0
                != self.cards@[b]->0 by {
                assert(self.cards@[a] == Some(deck@[16 + a]));
                assert(self.cards@[b] == Some(deck@[16 + b]));
            }
            assert forall|i: int, a: int, b: int|
                #![trigger seat(self.players@, i).cards[a], self.cards@[b]]
                0 <= i < 8 && occupied(self.players@, i) && 0 <= a < 2 && 0 <= b
                    < 5 implies (seat(self.players@, i).cards[a])->0
                != self.cards@[b]->0 by {
                assert(seat(self.players@, i).cards[a] == Some(deck@[2 * i + a]));
                assert(self.cards@[b] == Some(deck@[16 + b]));
                assert(2 * i + a < 16);
            }
            assert forall|i: int, a: int, j: int, b: int|
                #![trigger seat(self.players@, i).cards[a], seat(self.players@, j).cards[b]]
                0 <= i < 8 && 0 <= j < 8 && occupied(self.players@, i) && occupied(
                    self.players@,
                    j,
                ) && 0 <= a < 2 && 0 <= b < 2 && (i != j || a != b) implies (seat(
                self.players@,
                i,
            ).cards[a])->0 != (seat(self.players@, j).cards[b])->0 by {
                assert(seat(self.players@, i).cards[a] == Some(deck@[2 * i + a]));
                assert(seat(self.players@, j).cards[b] == Some(deck@[2 * j + b]));
                assert(2 * i + a != 2 * j + b);
            }
        }
    }

    /// The seat whose turn it is posts the fixed blind: it puts in as much
    /// of the blind as its stack covers, and the required bet rises to the
    /// blind.
    fn post_blind(&mut self)
        requires
            wf(*old(self)),
            old(self).is_game_running,
            active(old(self).players@, old(self).current_player_index as int),
            seat(old(self).players@, old(self).current_player_index as int).current_bet == 0,
            old(self).current_required_bet <= BLIND,
        ensures
            wf(*final(self)),
            same_config(*old(self), *final(self)),
            final(self).cards == old(self).cards,
            final(self).revealed_cards == old(self).revealed_cards,
            final(self).current_player_index == old(self).current_player_index,
            final(self).button_index == old(self).button_index,
            final(self).is_game_running == old(self).is_game_running,
            final(self).current_required_bet == BLIND,
            ({
                let cur = old(self).current_player_index as int;
                let p0 = seat(old(self).players@, cur);
                let b = min_chips(BLIND as int, p0.chips as int);
                &&& final(self).pot == old(self).pot + b
                &&& forall|j: int|
                    0 <= j < 8 && j != cur ==> final(self).players@[j] == old(self).players@[j]
                &&& occupied(final(self).players@, cur)
                &&& seat(final(self).players@, cur) == (Player {
                    chips: (p0.chips - b) as i32,
                    current_bet: b as i32,
                    has_acted: true,
                    ..p0
                })
            }),
    {
        let ghost t0 = *old(self);
        let ghost ps = t0.players@;
        let cur = self.current_player_index;
        proof {
            assert forall|j: int| 0 <= j < 8 implies seat_chips(ps, j) >= 0 by {
                if occupied(ps, j) {
                    assert(seat(ps, j).chips >= 0);
                }
            }
            lemma_stack_nonneg_bounds(ps, 8);
            assert(seat_chips(ps, cur as int) <= stack_sum(ps, 8));
            assert(t0.pot + stack_sum(ps, 8) <= MONEY_CAP);
        }
        let mut slot = self.players[cur].take();
        match slot {
            Some(mut p) => {
                let b = if p.chips < BLIND {
                    p.chips
                } else {
                    BLIND
                };
                p.chips = p.chips - b;
                p.current_bet = b;
                p.has_acted = true;
                self.pot = self.pot + b;
                self.players[cur] = Some(p);
            },
            None => {
                self.players[cur] = None;
            },
        }
        self.current_required_bet = BLIND;
        proof {
            lemma_action_mid_wf(t0, *self, cur as int);
        }
    }

    /// Starts a new hand when at least three seats are taken: deals fresh
    /// cards to everyone, advances the button to the next occupied seat,
    /// and has the two seats after the button post the fixed blinds, the
    /// first as the opening bet and the second as a call of it; the seat
    /// after them acts first.  With fewer than three players nothing
    /// changes.
    #[verifier::rlimit(100)]
    pub fn start_new_game(&mut self) -> (r: bool)
        requires
            wf(*old(self)),
            !old(self).is_game_running,
        ensures
            wf(*final(self)),
            same_config(*old(self), *final(self)),
            r == (count_occupied(old(self).players@, 8) >= 3),
            !r ==> *final(self) == *old(self),
            r ==> ({
                let ps0 = old(self).players@;
                let btn1 = next_occupied_seat(ps0, old(self).button_index as int);
                let s1 = next_occupied_seat(ps0, btn1);
                let s2 = next_occupied_seat(ps0, s1);
                let b1 = min_chips(BLIND as int, seat(ps0, s1).chips as int);
                let b2 = min_chips(BLIND as int, seat(ps0, s2).chips as int);
                &&& final(self).is_game_running
                &&& final(self).revealed_cards == 0
                &&& (forall|j: int| 0 <= j < 5 ==> final(self).cards@[j] is Some)
                &&& final(self).button_index as int == btn1
                &&& final(self).current_player_index as int == next_occupied_seat(ps0, s2)
                &&& final(self).current_required_bet == BLIND
                &&& s1 != s2
                &&& final(self).pot == b1 + b2
                &&& dealt_cards_distinct(*final(self))
                &&& (forall|i: int|
                    0 <= i < 8 ==> occupied(final(self).players@, i) == occupied(ps0, i))
                &&& (forall|i: int|
                    0 <= i < 8 && occupied(ps0, i) ==> {
                        let p0 = seat(ps0, i);
                        let p1 = #[trigger] seat(final(self).players@, i);
                        p1.name == p0.name && p1.key == p0.key && p1.has_folded == false
                            && p1.cards[0] is Some && p1.cards[1] is Some && (if i == s1 {
                            p1.chips == p0.chips - b1 && p1.current_bet == b1 && p1.has_acted
                        } else if i == s2 {
                            p1.chips == p0.chips - b2 && p1.current_bet == b2 && p1.has_acted
                        } else {
                            p1.chips == p0.chips && p1.current_bet == 0 && !p1.has_acted
                        })
                    })
            }),
    {
        let ghost ps0 = self.players@;
        let mut cnt: usize = 0;
        let mut i: usize = 0;
        while i < 8
            invariant
                i <= 8,
                *self == *old(self),
                ps0 == self.players@,
                cnt as int == count_occupied(ps0, i as int),
                cnt <= i,
            decreases 8 - i,
        {
            if self.players[i].is_some() {
                cnt = cnt + 1;
            }
            proof {
                assert((cnt as int == count_occupied(ps0, i as int + 1)));
            }
            i = i + 1;
        }
        if cnt < 3 {
            return false;
        }
        proof {
            lemma_compact_occupancy(ps0);
            assert(occupied(ps0, 0) && occupied(ps0, 1) && occupied(ps0, 2));
        }
        self.reroll_cards();
        let ghost tr = *self;
        let ghost psr = self.players@;
        proof {
            assert forall|k: int| 0 <= k < 8 implies active(psr, k) == occupied(ps0, k) by {
                if occupied(ps0, k) {
                    assert(seat(psr, k).has_folded == false);
                }
            }
            lemma_next_active_found(psr, old(self).button_index as int, 0);
        }
        self.current_player_index = self.button_index;
        self.increment_current_player();
        self.button_index = self.current_player_index;
        proof {
            lemma_next_active_vs_occupied(psr, ps0, old(self).button_index as int, 1);
            lemma_next_active_found(psr, self.button_index as int, 0);
            lemma_next_active_range(psr, self.button_index as int, 1);
        }
        self.increment_current_player();
        proof {
            lemma_next_active_vs_occupied(psr, ps0, self.button_index as int, 1);
        }
        self.post_blind();
        let ghost ps_b1 = self.players@;
        let ghost s1g = self.current_player_index as int;
        proof {
            assert forall|k: int| 0 <= k < 8 implies active(ps_b1, k) == occupied(ps0, k) by {
                if k != s1g {
                    assert(ps_b1[k] == psr[k]);
                } else {
                    assert(occupied(ps_b1, k) && !seat(ps_b1, k).has_folded);
                }
            }
            lemma_next_active_found(ps_b1, s1g, 0);
            assert(occupied(ps0, 1 as int));
            if s1g == 0 {
                lemma_next_active_found(ps_b1, s1g, 1);
            } else {
                lemma_next_active_found(ps_b1, s1g, 0);
            }
            lemma_next_active_range(ps_b1, s1g, 1);
        }
        self.increment_current_player();
        proof {
            lemma_next_active_vs_occupied(ps_b1, ps0, s1g, 1);
        }
        self.post_blind();
        let ghost ps_b2 = self.players@;
        let ghost s2g = self.current_player_index as int;
        proof {
            assert forall|k: int| 0 <= k < 8 implies active(ps_b2, k) == occupied(ps0, k) by {
                if k != s2g {
                    assert(ps_b2[k] == ps_b1[k]);
                } else {
                    assert(occupied(ps_b2, k) && !seat(ps_b2, k).has_folded);
                }
            }
            lemma_next_active_range(ps_b2, s2g, 1);
        }
        self.increment_current_player();
        proof {
            lemma_next_active_vs_occupied(ps_b2, ps0, s2g, 1);
            assert forall|i: int, a: int|
                0 <= i < 8 && occupied(tr.players@, i) && 0 <= a < 2 implies (#[trigger] seat(
                    self.players@,
                    i,
                ).cards[a]) == seat(tr.players@, i).cards[a] by {
                if i != s1g && i != s2g {
                    assert(self.players@[i] == ps_b1[i]);
                    assert(ps_b1[i] == psr[i]);
                } else if i == s1g {
                    assert(seat(ps_b1, i).cards == seat(psr, i).cards);
                    assert(self.players@[i] == ps_b1[i]);
                } else {
                    assert(seat(self.players@, i).cards == seat(ps_b1, i).cards);
                    assert(ps_b1[i] == psr[i]);
                }
            }
            lemma_distinct_preserved(tr, *self);
        }
        true
    }
}

} // verus!
