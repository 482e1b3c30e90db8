//! Counting the cards on the board: how many there are, and how many of them
//! are trumps.
use vstd::prelude::*;
use vstd::multiset::Multiset;

use crate::card::{Card, Suit, DECK_SIZE, NUM_COMMON, NUM_TRUMPS, standard_deck};
use crate::laws::all_cards;

verus! {

broadcast use vstd::multiset::group_multiset_axioms;

/// Whether a card is a trump.
pub open spec fn trump_suited() -> spec_fn(Card) -> bool {
    |c: Card| c.suit == Suit::Trump
}

/// Number of trumps in `m`.
pub open spec fn trump_count(m: Multiset<Card>) -> nat {
    m.filter(trump_suited()).len()
}

/// Number of trumps in a pile.
pub open spec fn pile_trumps() -> spec_fn(Seq<Card>) -> nat {
    |s: Seq<Card>| trump_count(s.to_multiset())
}

/// Number of cards in a pile.
pub open spec fn pile_size() -> spec_fn(Seq<Card>) -> nat {
    |s: Seq<Card>| s.len()
}

/// The sum of `w` over the piles.
pub open spec fn pile_sum(piles: Seq<Seq<Card>>, w: spec_fn(Seq<Card>) -> nat) -> nat
    decreases piles.len(),
{
    if piles.len() == 0 {
        0
    } else {
        pile_sum(piles.drop_last(), w) + w(piles.last())
    }
}

/// The trumps of two multisets together are those of each.
pub proof fn lemma_trump_count_add(m1: Multiset<Card>, m2: Multiset<Card>)
    ensures
        trump_count(m1.add(m2)) == trump_count(m1) + trump_count(m2),
{
    let f = trump_suited();
    assert(m1.add(m2).filter(f) =~= m1.filter(f).add(m2.filter(f)));
}

/// A pile of trumps counts as many trumps as cards; a pile counts no trump
/// exactly when it holds none.
pub proof fn lemma_pile_trumps(s: Seq<Card>)
    ensures
        (forall|i: int| 0 <= i < s.len() ==> #[trigger] s[i].suit == Suit::Trump) ==> trump_count(
            s.to_multiset(),
        ) == s.len(),
        (forall|i: int| 0 <= i < s.len() ==> #[trigger] s[i].suit != Suit::Trump) <==> trump_count(
            s.to_multiset(),
        ) == 0,
{
    broadcast use vstd::seq_lib::group_to_multiset_ensures;

    let f = trump_suited();
    let m = s.to_multiset();
    if forall|i: int| 0 <= i < s.len() ==> #[trigger] s[i].suit == Suit::Trump {
        assert forall|v: Card| #[trigger] m.filter(f).count(v) == m.count(v) by {
            if !f(v) && m.count(v) > 0 {
                assert(s.contains(v));
                let i = choose|i: int| 0 <= i < s.len() && s[i] == v;
                assert(s[i].suit == Suit::Trump);
            }
        }
        assert(m.filter(f) =~= m);
    }
    if forall|i: int| 0 <= i < s.len() ==> #[trigger] s[i].suit != Suit::Trump {
        assert forall|v: Card| #[trigger] m.filter(f).count(v) == 0 by {
            if f(v) && m.count(v) > 0 {
                assert(s.contains(v));
                let i = choose|i: int| 0 <= i < s.len() && s[i] == v;
                assert(s[i].suit != Suit::Trump);
            }
        }
        assert(m.filter(f) =~= Multiset::empty());
    }
    if trump_count(m) == 0 {
        assert forall|i: int| 0 <= i < s.len() implies #[trigger] s[i].suit != Suit::Trump by {
            if s[i].suit == Suit::Trump {
                assert(s.contains(s[i]));
                assert(m.filter(f).count(s[i]) == m.count(s[i]));
                assert(m.filter(f).count(s[i]) <= m.filter(f).len());
            }
        }
    }
}

/// The deck holds `DECK_SIZE` cards, `NUM_TRUMPS` of them trumps.
pub proof fn lemma_deck_census()
    ensures
        standard_deck().to_multiset().len() == DECK_SIZE,
        trump_count(standard_deck().to_multiset()) == NUM_TRUMPS,
{
    let d = standard_deck();
    let a = d.take(NUM_COMMON as int);
    let b = d.skip(NUM_COMMON as int);
    vstd::seq_lib::to_multiset_len(d);
    assert(a + b =~= d);
    vstd::seq_lib::lemma_multiset_commutative(a, b);
    assert forall|i: int| 0 <= i < a.len() implies #[trigger] a[i].suit != Suit::Trump by {
        assert(a[i] == d[i]);
    }
    assert forall|i: int| 0 <= i < b.len() implies #[trigger] b[i].suit == Suit::Trump by {
        assert(b[i] == d[i + NUM_COMMON]);
    }
    lemma_pile_trumps(a);
    lemma_pile_trumps(b);
    lemma_trump_count_add(a.to_multiset(), b.to_multiset());
}

/// The board holds as many cards, and as many trumps, as its piles together.
pub proof fn lemma_board_census(piles: Seq<Seq<Card>>)
    ensures
        all_cards(piles).len() == pile_sum(piles, pile_size()),
        trump_count(all_cards(piles)) == pile_sum(piles, pile_trumps()),
    decreases piles.len(),
{
    if piles.len() == 0 {
        assert(all_cards(piles).filter(trump_suited()) =~= Multiset::empty());
    } else {
        lemma_board_census(piles.drop_last());
        lemma_trump_count_add(all_cards(piles.drop_last()), piles.last().to_multiset());
        vstd::seq_lib::to_multiset_len(piles.last());
    }
}

/// A sum over two runs of piles is the sum of the sums.
pub proof fn lemma_pile_sum_split(a: Seq<Seq<Card>>, b: Seq<Seq<Card>>, w: spec_fn(Seq<Card>) -> nat)
    ensures
        pile_sum(a + b, w) == pile_sum(a, w) + pile_sum(b, w),
    decreases b.len(),
{
    if b.len() == 0 {
        assert(a + b =~= a);
    } else {
        lemma_pile_sum_split(a, b.drop_last(), w);
        assert((a + b).drop_last() =~= a + b.drop_last());
    }
}

/// No pile weighs more than the sum over all of them.
pub proof fn lemma_pile_sum_member(s: Seq<Seq<Card>>, w: spec_fn(Seq<Card>) -> nat, j: int)
    requires
        0 <= j < s.len(),
    ensures
        w(s[j]) <= pile_sum(s, w),
    decreases s.len(),
{
    if j < s.len() - 1 {
        lemma_pile_sum_member(s.drop_last(), w, j);
    }
}

/// The sum over the first `k + 1` piles adds the weight of pile `k` to that over the first `k`.
pub proof fn lemma_pile_sum_take(s: Seq<Seq<Card>>, w: spec_fn(Seq<Card>) -> nat, k: int)
    requires
        0 <= k < s.len(),
    ensures
        pile_sum(s.take(k + 1), w) == pile_sum(s.take(k), w) + w(s[k]),
{
    assert(s.take(k + 1).drop_last() =~= s.take(k));
}

/// When the first `k` piles weigh as much as all of them, every later pile weighs nothing.
pub proof fn lemma_rest_weighs_nothing(s: Seq<Seq<Card>>, w: spec_fn(Seq<Card>) -> nat, k: int)
    requires
        0 <= k <= s.len(),
        pile_sum(s.take(k), w) >= pile_sum(s, w),
    ensures
        forall|d: int| k <= d < s.len() ==> #[trigger] w(s[d]) == 0,
{
    assert(s.take(k) + s.skip(k) =~= s);
    lemma_pile_sum_split(s.take(k), s.skip(k), w);
    assert forall|d: int| k <= d < s.len() implies #[trigger] w(s[d]) == 0 by {
        lemma_pile_sum_member(s.skip(k), w, d - k);
        assert(s.skip(k)[d - k] == s[d]);
    }
}

/// Piles that all weigh nothing weigh nothing together.
pub proof fn lemma_pile_sum_zero(s: Seq<Seq<Card>>, w: spec_fn(Seq<Card>) -> nat)
    requires
        forall|j: int| 0 <= j < s.len() ==> w(#[trigger] s[j]) == 0,
    ensures
        pile_sum(s, w) == 0,
    decreases s.len(),
{
    if s.len() > 0 {
        assert(w(s[s.len() - 1]) == 0);
        lemma_pile_sum_zero(s.drop_last(), w);
    }
}

} // verus!
