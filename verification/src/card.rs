//! Cards: the five suits, the rank ranges and the standard deck.
use vstd::prelude::*;

verus! {

/// Lowest rank of a common card (the ace).
pub const RANK_MIN: u8 = 1;
/// Highest rank of a common card (the king).
pub const RANK_MAX: u8 = 13;
/// Number of ranks in each common suit.
pub const NUM_RANKS: usize = 13;
/// Number of common cards in the deck.
pub const NUM_COMMON: usize = 52;
/// Lowest trump rank.
pub const TRUMP_RANK_MIN: u8 = 0;
/// Highest trump rank.
pub const TRUMP_RANK_MAX: u8 = 21;
/// Number of trump cards in the deck.
pub const NUM_TRUMPS: usize = 22;
/// Number of cards in the deck.
pub const DECK_SIZE: usize = 74;

/// The four common suits and the trump suit.
#[derive(Clone, Copy, Debug, PartialEq, Eq, Structural, Hash)]
pub enum Suit {
    Spades,
    Hearts,
    Diamonds,
    Clubs,
    Trump,
}

/// A playing card: a rank within its suit.
#[derive(Clone, Copy, Debug, PartialEq, Eq, Structural, Hash)]
pub struct Card {
    pub rank: u8,
    pub suit: Suit,
}

/// The common suit at position `i` (0 to 3) in deal order.
pub open spec fn common_suit_at(i: int) -> Suit {
    if i == 0 {
        Suit::Spades
    } else if i == 1 {
        Suit::Hearts
    } else if i == 2 {
        Suit::Diamonds
    } else {
        Suit::Clubs
    }
}

/// Position of a common suit in deal order; the trump suit has none.
pub open spec fn common_position(s: Suit) -> int {
    match s {
        Suit::Spades => 0,
        Suit::Hearts => 1,
        Suit::Diamonds => 2,
        Suit::Clubs => 3,
        Suit::Trump => -1,
    }
}

/// A card that belongs to the deck: a common card of rank `RANK_MIN..=RANK_MAX`
/// or a trump of rank `TRUMP_RANK_MIN..=TRUMP_RANK_MAX`.
pub open spec fn is_deck_card(c: Card) -> bool {
    if c.suit == Suit::Trump {
        TRUMP_RANK_MIN <= c.rank <= TRUMP_RANK_MAX
    } else {
        RANK_MIN <= c.rank <= RANK_MAX
    }
}

/// The `i`-th card of the unshuffled deck: the common cards rank by rank, each
/// rank in the four common suits, then the trumps from lowest to highest.
pub open spec fn deck_card_at(i: int) -> Card {
    if i < NUM_COMMON {
        Card { rank: (i / 4 + 1) as u8, suit: common_suit_at(i % 4) }
    } else {
        Card { rank: (i - NUM_COMMON) as u8, suit: Suit::Trump }
    }
}

/// The unshuffled deck.
pub open spec fn standard_deck() -> Seq<Card> {
    Seq::new(DECK_SIZE as nat, |i: int| deck_card_at(i))
}

impl Suit {
    /// The four common suits, in deal order.
    pub fn iter_common() -> (r: [Suit; 4])
        ensures
            forall|i: int| 0 <= i < 4 ==> #[trigger] r@[i] == common_suit_at(i),
    {
        [Suit::Spades, Suit::Hearts, Suit::Diamonds, Suit::Clubs]
    }

    /// Position of a common suit in deal order (`None` for the trump suit).
    pub fn common_index(self) -> (r: Option<usize>)
        ensures
            self == Suit::Trump ==> r is None,
            self != Suit::Trump ==> r == Some(common_position(self) as usize),
    {
        match self {
            Suit::Spades => Some(0),
            Suit::Hearts => Some(1),
            Suit::Diamonds => Some(2),
            Suit::Clubs => Some(3),
            Suit::Trump => None,
        }
    }
}

/// The common suit at position `i` in deal order.
fn common_suit(i: usize) -> (s: Suit)
    requires
        i < 4,
    ensures
        s == common_suit_at(i as int),
{
    if i == 0 {
        Suit::Spades
    } else if i == 1 {
        Suit::Hearts
    } else if i == 2 {
        Suit::Diamonds
    } else {
        Suit::Clubs
    }
}

/// The `i`-th card of the unshuffled deck.
pub fn card_at(i: usize) -> (c: Card)
    requires
        i < DECK_SIZE,
    ensures
        c == deck_card_at(i as int),
{
    if i < NUM_COMMON {
        Card { rank: (i / 4 + 1) as u8, suit: common_suit(i % 4) }
    } else {
        Card { rank: (i - NUM_COMMON) as u8, suit: Suit::Trump }
    }
}

/// Builds the unshuffled deck.
pub fn unshuffled_deck() -> (deck: Vec<Card>)
    ensures
        deck@ == standard_deck(),
{
    let mut deck: Vec<Card> = Vec::with_capacity(DECK_SIZE);
    let mut i: usize = 0;
    while i < DECK_SIZE
        invariant
            i <= DECK_SIZE,
            deck@ == Seq::new(i as nat, |j: int| deck_card_at(j)),
        decreases DECK_SIZE - i,
    {
        deck.push(card_at(i));
        i = i + 1;
        assert(deck@ =~= Seq::new(i as nat, |j: int| deck_card_at(j)));
    }
    deck
}

/// The deck has `DECK_SIZE` cards, no card twice, and it holds exactly the
/// cards of the deck: 13 ranks in each of 4 common suits and 22 trumps.
pub proof fn law_standard_deck()
    ensures
        standard_deck().len() == DECK_SIZE,
        standard_deck().no_duplicates(),
        forall|c: Card| standard_deck().contains(c) <==> is_deck_card(c),
{
    let d = standard_deck();
    assert forall|i: int, j: int| 0 <= i < d.len() && 0 <= j < d.len() && i != j implies d[i]
        != d[j] by {
        if i < NUM_COMMON && j < NUM_COMMON {
            assert(i == (i / 4) * 4 + i % 4) by (nonlinear_arith);
            assert(j == (j / 4) * 4 + j % 4) by (nonlinear_arith);
            assert(0 <= i / 4 < 13) by (nonlinear_arith)
                requires
                    0 <= i < 52,
            ;
            assert(0 <= j / 4 < 13) by (nonlinear_arith)
                requires
                    0 <= j < 52,
            ;
        }
    }
    assert forall|c: Card| d.contains(c) <==> is_deck_card(c) by {
        if is_deck_card(c) {
            if c.suit == Suit::Trump {
                let k = NUM_COMMON + c.rank;
                assert(d[k as int] == c);
            } else {
                let k = (c.rank - 1) * 4 + common_position(c.suit);
                assert(0 <= k < 52) by (nonlinear_arith)
                    requires
                        k == (c.rank - 1) * 4 + common_position(c.suit),
                        1 <= c.rank <= 13,
                        0 <= common_position(c.suit) < 4,
                ;
                assert(k / 4 == c.rank - 1 && k % 4 == common_position(c.suit)) by (nonlinear_arith)
                    requires
                        k == (c.rank - 1) * 4 + common_position(c.suit),
                        0 <= common_position(c.suit) < 4,
                ;
                assert(d[k as int] == c);
            }
        }
        if d.contains(c) {
            let k = choose|k: int| 0 <= k < d.len() && d[k] == c;
            if k < NUM_COMMON {
                assert(0 <= k / 4 < 13) by (nonlinear_arith)
                    requires
                        0 <= k < 52,
                ;
            }
        }
    }
}

} // verus!
