//! What holds of every game: the rules of the free cells and foundations, the
//! conservation of cards, what a won board holds, how wins are counted, and
//! what an undo gives back.
use vstd::prelude::*;
use vstd::multiset::Multiset;

use crate::board::{
    BoardPos, DepotRole, Layout, NUM_DEPOTS, EMPTY_COLUMN, FREECELL_BLOCKS_COMMON,
    FREECELL_BLOCKS_TRUMP, FREECELL_SINGLE_USE, applied_all, deal_target, dealt,
    lemma_applied_all_layout, lemma_dealt_shape, lemma_replay_ok_cells, lemma_replay_ok_prefix,
    lemma_replay_push, lemma_undone_layout, replay, replay_ok, role_of, tableau_count, undone,
};
use crate::card::{
    Card, Suit, NUM_RANKS, NUM_TRUMPS, RANK_MIN, TRUMP_RANK_MAX, TRUMP_RANK_MIN, common_suit_at,
    is_deck_card, law_standard_deck, standard_deck,
};
use crate::census::{
    lemma_board_census, lemma_deck_census, lemma_pile_sum_split, lemma_pile_sum_take,
    lemma_pile_sum_zero, lemma_pile_trumps, lemma_rest_weighs_nothing, pile_size, pile_trumps,
};
use crate::game::{
    ActionRecord, AnimationKey, GameState, advance_outcome, builds_down, builds_up,
    click_outcome, completes_trumps, double_click_outcome, first_fit, history_sound,
    homes_for, intent_outcome, lemma_move_extends_history, lemma_move_records_ok, marks_ok,
    move_legal, move_records, next_index, restart_outcome, selectable, stacks,
    builds_ok, foundations_built, home_rank, home_suit, is_built_home, top_of, undo_outcome,
    won,
};

verus! {

broadcast use vstd::multiset::group_multiset_axioms;

/// All the cards of the piles, as a multiset.
pub open spec fn all_cards(piles: Seq<Seq<Card>>) -> Multiset<Card>
    decreases piles.len(),
{
    if piles.len() == 0 {
        Multiset::empty()
    } else {
        all_cards(piles.drop_last()).add(piles.last().to_multiset())
    }
}

/// Replacing one pile changes the cards on the board by what the pile held and holds.
pub proof fn lemma_all_cards_update(piles: Seq<Seq<Card>>, i: int, s: Seq<Card>)
    requires
        0 <= i < piles.len(),
    ensures
        all_cards(piles.update(i, s)).add(piles[i].to_multiset()) =~= all_cards(piles).add(
            s.to_multiset(),
        ),
    decreases piles.len(),
{
    let u = piles.update(i, s);
    if i == piles.len() - 1 {
        assert(u.drop_last() =~= piles.drop_last());
        assert(u.last() == s);
        assert(all_cards(u) == all_cards(u.drop_last()).add(s.to_multiset()));
        assert(all_cards(piles) == all_cards(piles.drop_last()).add(piles[i].to_multiset()));
        assert(all_cards(u).add(piles[i].to_multiset()) =~= all_cards(piles).add(s.to_multiset()));
    } else {
        let dl = piles.drop_last();
        lemma_all_cards_update(dl, i, s);
        assert(u.drop_last() =~= dl.update(i, s));
        assert(u.last() == piles.last());
        assert(dl[i] == piles[i]);
        assert(all_cards(u) == all_cards(dl.update(i, s)).add(piles.last().to_multiset()));
        assert(all_cards(piles) == all_cards(dl).add(piles.last().to_multiset()));
        assert forall|v: Card| #[trigger] all_cards(u).add(piles[i].to_multiset()).count(v)
            == all_cards(piles).add(s.to_multiset()).count(v) by {
            assert(all_cards(dl.update(i, s)).add(dl[i].to_multiset()).count(v) == all_cards(dl).add(
                s.to_multiset(),
            ).count(v));
        }
        assert(all_cards(u).add(piles[i].to_multiset()) =~= all_cards(piles).add(s.to_multiset()));
    }
}

/// Moving cards from one depot to another neither creates nor loses a card.
pub proof fn law_moves_conserve_cards(l: Layout, from: BoardPos, to: BoardPos)
    requires
        l.piles.len() == NUM_DEPOTS,
        l.step_ok(ActionRecord::Move { pos1: from, pos2: to }),
    ensures
        all_cards(l.moved(from, to).piles) =~= all_cards(l.piles),
{
    broadcast use vstd::seq_lib::group_to_multiset_ensures;

    let src = l.piles[from.depot_index as int];
    let dst = l.piles[to.depot_index as int];
    let c = from.card_index as int;
    let p1 = l.piles.update(from.depot_index as int, src.take(c));
    let p2 = p1.update(to.depot_index as int, dst + src.skip(c).reverse());
    lemma_all_cards_update(l.piles, from.depot_index as int, src.take(c));
    lemma_all_cards_update(p1, to.depot_index as int, dst + src.skip(c).reverse());
    assert(p1[to.depot_index as int] == dst);
    let take = src.take(c);
    let skip = src.skip(c);
    vstd::seq_lib::lemma_multiset_commutative(dst, skip.reverse());
    skip.lemma_reverse_to_multiset();
    vstd::seq_lib::lemma_multiset_commutative(take, skip);
    assert(take + skip =~= src);
    assert(p2 == l.moved(from, to).piles);
    assert forall|v: Card| #[trigger] all_cards(p2).count(v) == all_cards(l.piles).count(v) by {
        assert(all_cards(p1).add(src.to_multiset()).count(v) == all_cards(l.piles).add(
            take.to_multiset(),
        ).count(v));
        assert(all_cards(p2).add(dst.to_multiset()).count(v) == all_cards(p1).add(
            (dst + skip.reverse()).to_multiset(),
        ).count(v));
        assert((dst + skip.reverse()).to_multiset().count(v) == dst.to_multiset().count(v)
            + skip.reverse().to_multiset().count(v));
        assert(skip.reverse().to_multiset().count(v) == skip.to_multiset().count(v));
        assert(src.to_multiset().count(v) == take.to_multiset().count(v) + skip.to_multiset().count(
            v,
        ));
    }
}

/// Every card of a deal lies on the dealt board, and nothing else does.
pub proof fn law_deal_places_every_card(deal: Seq<Card>)
    ensures
        all_cards(dealt(deal).piles) =~= deal.to_multiset(),
    decreases deal.len(),
{
    broadcast use vstd::seq_lib::group_to_multiset_ensures;

    if deal.len() == 0 {
        let e = crate::board::Layout::empty().piles;
        assert forall|k: nat| k <= NUM_DEPOTS implies #[trigger] all_cards(e.take(k as int))
            =~= Multiset::<Card>::empty() by {
            lemma_all_cards_empty_piles(e, k);
        }
        assert(e.take(NUM_DEPOTS as int) =~= e);
    } else {
        let prev = dealt(deal.drop_last());
        let c = deal.last();
        let t = deal_target(c, tableau_count(deal.drop_last()));
        law_deal_places_every_card(deal.drop_last());
        lemma_dealt_shape(deal.drop_last());
        assert(0 <= t < NUM_DEPOTS);
        lemma_all_cards_update(prev.piles, t, prev.piles[t].push(c));
        assert(deal.drop_last().push(c) =~= deal);
        let new_piles = prev.piles.update(t, prev.piles[t].push(c));
        assert(dealt(deal).piles == new_piles);
        assert forall|v: Card| #[trigger] all_cards(new_piles).count(v) == deal.to_multiset().count(
            v,
        ) by {
            assert(all_cards(new_piles).add(prev.piles[t].to_multiset()).count(v) == all_cards(
                prev.piles,
            ).add(prev.piles[t].push(c).to_multiset()).count(v));
            assert(prev.piles[t].push(c).to_multiset() =~= prev.piles[t].to_multiset().insert(c));
            assert(deal.to_multiset() =~= deal.drop_last().to_multiset().insert(c));
        }
    }
}

/// The first `k` piles of a board of empty piles hold no card.
proof fn lemma_all_cards_empty_piles(e: Seq<Seq<Card>>, k: nat)
    requires
        k <= e.len(),
        forall|i: int| 0 <= i < e.len() ==> #[trigger] e[i] == Seq::<Card>::empty(),
    ensures
        all_cards(e.take(k as int)) =~= Multiset::<Card>::empty(),
    decreases k,
{
    broadcast use vstd::seq_lib::group_to_multiset_ensures;

    if k > 0 {
        lemma_all_cards_empty_piles(e, (k - 1) as nat);
        assert(e.take(k as int).drop_last() =~= e.take(k - 1));
    }
}

/// Replaying a history changes no card: the board holds the cards of its start.
pub proof fn lemma_replay_conserves_cards(start: Layout, hist: Seq<ActionRecord>)
    requires
        replay_ok(start, hist),
    ensures
        all_cards(replay(start, hist).piles) =~= all_cards(start.piles),
    decreases hist.len(),
{
    if hist.len() > 0 {
        lemma_replay_conserves_cards(start, hist.drop_last());
        let prev = replay(start, hist.drop_last());
        lemma_replay_ok_cells(start, hist.drop_last());
        match hist.last() {
            ActionRecord::Move { pos1, pos2 } => {
                law_moves_conserve_cards(prev, pos1, pos2);
            },
            ActionRecord::FreeCellSingleUsed => {},
        }
    }
}

/// In every well-formed game the board holds exactly the cards of the deal:
/// no move creates or loses a card.
pub proof fn law_game_conserves_cards(g: GameState)
    requires
        g.wf(),
    ensures
        all_cards(g.board@.layout.piles) =~= g.deal@.to_multiset(),
{
    lemma_replay_conserves_cards(dealt(g.deal@), g.history@);
    law_deal_places_every_card(g.deal@);
}

/// A move of at least one card keeps the free cells within their rules (one
/// card each, the single-use cell empty once used), keeps the undo marks
/// strictly rising and within the history, and neither creates nor loses a card.
pub proof fn law_move_keeps_cells_marks_and_cards(
    a: GameState,
    b: GameState,
    p1: BoardPos,
    p2: BoardPos,
)
    requires
        a.board@.layout.cells_ok(),
        marks_ok(a.undo_stack@, a.history@.len()),
        p1.depot_index < NUM_DEPOTS,
        p1.card_index < a.board@.layout.piles[p1.depot_index as int].len(),
        p2.depot_index < NUM_DEPOTS,
        intent_outcome(a, b, p1, p2),
    ensures
        b.board@.layout.cells_ok(),
        marks_ok(b.undo_stack@, b.history@.len()),
        all_cards(b.board@.layout.piles) =~= all_cards(a.board@.layout.piles),
{
    let l = a.board@.layout;
    if move_legal(l, p1, p2) {
        let recs = move_records(l, p1, p2);
        assert(a.board.depots@[2].len() <= usize::MAX);
        assert(l.piles[2] == a.board.depots@[2]@);
        assert(a.board.depots@[p1.depot_index as int].len() <= usize::MAX);
        assert(l.piles[p1.depot_index as int] == a.board.depots@[p1.depot_index as int]@);
        lemma_move_records_ok(l, p1, p2);
        lemma_applied_all_layout(a.board@, recs);
        lemma_replay_ok_cells(l, recs);
        lemma_replay_conserves_cards(l, recs);
        assert(recs.len() >= 1);
        let m = b.undo_stack@;
        assert(a.history@.len() == a.history.len());
        assert forall|i: int, j: int| 0 <= i < j < m.len() implies #[trigger] m[i] < #[trigger] m[j] by {
            if j < m.len() - 1 {
                assert(a.undo_stack@[i] < a.undo_stack@[j]);
            } else {
                assert(a.undo_stack@[i] < a.history@.len());
            }
        }
        assert forall|i: int| 0 <= i < m.len() implies #[trigger] m[i] < b.history@.len() by {
            if i < m.len() - 1 {
                assert(a.undo_stack@[i] < a.history@.len());
            }
        }
    }
}

/// Cards cannot be moved between free cells.
pub proof fn law_no_move_between_free_cells(l: Layout, p1: BoardPos, p2: BoardPos)
    requires
        DepotRole::FreeCell.holds(p1.depot_index as int),
        DepotRole::FreeCell.holds(p2.depot_index as int),
    ensures
        !move_legal(l, p1, p2),
{
}

/// While the left free cell holds a card, no card goes to a trump foundation.
pub proof fn law_left_cell_blocks_trumps(l: Layout, p1: BoardPos, p2: BoardPos)
    requires
        l.piles[FREECELL_BLOCKS_TRUMP as int].len() > 0,
        role_of(p2.depot_index as int) == Some(DepotRole::TrumpLow) || role_of(p2.depot_index as int)
            == Some(DepotRole::TrumpHigh),
    ensures
        !move_legal(l, p1, p2),
{
}

/// While the right free cell holds a card, no card goes to a common foundation.
pub proof fn law_right_cell_blocks_commons(l: Layout, p1: BoardPos, p2: BoardPos)
    requires
        l.piles[FREECELL_BLOCKS_COMMON as int].len() > 0,
        DepotRole::CommonHome.holds(p2.depot_index as int),
    ensures
        !move_legal(l, p1, p2),
{
}

/// Once used up, the middle free cell takes no card.
pub proof fn law_single_use_cell_once(l: Layout, p1: BoardPos, p2: BoardPos)
    requires
        l.single_used,
        p2.depot_index == FREECELL_SINGLE_USE,
    ensures
        !move_legal(l, p1, p2),
{
}

/// Moving a card out of the middle free cell uses it up.
pub proof fn law_leaving_single_use_cell_uses_it(l: Layout, p1: BoardPos, p2: BoardPos)
    requires
        p1.depot_index == FREECELL_SINGLE_USE,
    ensures
        move_records(l, p1, p2).last() == ActionRecord::FreeCellSingleUsed,
        replay(l, move_records(l, p1, p2)).single_used,
{
    let recs = move_records(l, p1, p2);
    assert(recs.drop_last().push(recs.last()) =~= recs);
}

/// A free cell holds at most one card, and only one card at a time goes there.
pub proof fn law_free_cells_hold_one_card(g: GameState, p1: BoardPos, p2: BoardPos)
    requires
        g.wf(),
        selectable(g.board@.layout.piles, p1),
        DepotRole::FreeCell.holds(p2.depot_index as int),
        move_legal(g.board@.layout, p1, p2),
    ensures
        forall|d: int|
            #[trigger] DepotRole::FreeCell.holds(d) ==> g.board@.layout.piles[d].len() <= 1,
        g.board@.layout.piles[p1.depot_index as int].len() - p1.card_index == 1,
        applied_all(g.board@, move_records(g.board@.layout, p1, p2)).layout.piles[p2.depot_index as int].len()
            == 1,
{
    lemma_replay_ok_cells(dealt(g.deal@), g.history@);
    let recs = move_records(g.board@.layout, p1, p2);
    lemma_applied_all_layout(g.board@, recs);
    assert(recs =~= seq![ActionRecord::Move { pos1: p1, pos2: p2 }]);
    assert(recs.drop_last() =~= Seq::<ActionRecord>::empty());
    let src = g.board@.layout.piles[p1.depot_index as int];
    assert(src.skip(p1.card_index as int).len() == 1);
    assert(src.skip(p1.card_index as int).reverse().len() == 1);
    assert(applied_all(g.board@, recs.drop_last()) == g.board@);
    assert(recs.last() == ActionRecord::Move { pos1: p1, pos2: p2 });
    assert(applied_all(g.board@, recs) == g.board@.moved(p1, p2));
}

/// In the tableau, a card goes only onto a card of its suit one rank apart, or
/// onto an empty column.
pub proof fn law_tableau_builds_by_suit(l: Layout, p1: BoardPos, p2: BoardPos)
    requires
        DepotRole::Tableau.holds(p2.depot_index as int),
        move_legal(l, p1, p2),
        l.piles[p2.depot_index as int].len() > 0,
    ensures
        stacks(l.piles[p2.depot_index as int].last(), l.piles[p1.depot_index as int].last()),
{
}

/// The trump foundations start from the ends and meet in the middle: the left
/// one opens with the lowest trump and builds up one rank at a time, the right
/// one opens with the highest trump and builds down one rank at a time.
pub proof fn law_trumps_build_from_both_ends(l: Layout, p1: BoardPos, p2: BoardPos)
    requires
        move_legal(l, p1, p2),
        p2.depot_index < 2,
    ensures
        l.piles[p2.depot_index as int].len() == 0 && p2.depot_index == 0 ==> l.piles[p1.depot_index as int].last()
            == (Card { rank: TRUMP_RANK_MIN, suit: Suit::Trump }),
        l.piles[p2.depot_index as int].len() == 0 && p2.depot_index == 1 ==> l.piles[p1.depot_index as int].last()
            == (Card { rank: TRUMP_RANK_MAX, suit: Suit::Trump }),
        l.piles[p2.depot_index as int].len() > 0 && p2.depot_index == 0 ==> builds_up(
            l.piles[0].last(),
            l.piles[p1.depot_index as int].last(),
        ),
        l.piles[p2.depot_index as int].len() > 0 && p2.depot_index == 1 ==> builds_down(
            l.piles[1].last(),
            l.piles[p1.depot_index as int].last(),
        ),
{
}

/// Common cards go to their foundations in increasing order by suit: an ace
/// opens an empty foundation, and each further card is the next rank of the
/// suit on top. No trump goes there.
pub proof fn law_common_foundations_build_up(l: Layout, p1: BoardPos, p2: BoardPos)
    requires
        move_legal(l, p1, p2),
        DepotRole::CommonHome.holds(p2.depot_index as int),
    ensures
        l.piles[p1.depot_index as int].last().suit != Suit::Trump,
        l.piles[p2.depot_index as int].len() == 0 ==> l.piles[p1.depot_index as int].last().rank
            == RANK_MIN,
        l.piles[p2.depot_index as int].len() > 0 ==> builds_up(
            l.piles[p2.depot_index as int].last(),
            l.piles[p1.depot_index as int].last(),
        ),
{
}

/// The place of the last trump is never the target of a move that a player asks for.
pub proof fn law_last_trump_place_not_a_target(l: Layout, p1: BoardPos, p2: BoardPos)
    requires
        p2.depot_index == DepotRole::TrumpLast.start_of(),
    ensures
        !move_legal(l, p1, p2),
{
}

/// Several selected cards move as if one by one from the top: they land on the
/// target in reverse order.
pub proof fn law_supermove_reverses(l: Layout, p1: BoardPos, p2: BoardPos)
    requires
        l.piles.len() == NUM_DEPOTS,
        p1.depot_index < NUM_DEPOTS,
        p2.depot_index < NUM_DEPOTS,
        p1.depot_index != p2.depot_index,
    ensures
        l.moved(p1, p2).piles[p2.depot_index as int] == l.piles[p2.depot_index as int]
            + l.piles[p1.depot_index as int].skip(p1.card_index as int).reverse(),
        l.moved(p1, p2).piles[p1.depot_index as int] == l.piles[p1.depot_index as int].take(
            p1.card_index as int,
        ),
{
}

/// A move of several cards is the move of all but the lowest of them followed
/// by the move of the lowest one on top: cards move as if one by one.
pub proof fn law_supermove_is_one_by_one(l: Layout, from: BoardPos, to: BoardPos)
    requires
        l.piles.len() == NUM_DEPOTS,
        from.depot_index < NUM_DEPOTS,
        to.depot_index < NUM_DEPOTS,
        from.depot_index != to.depot_index,
        from.card_index < l.piles[from.depot_index as int].len(),
        from.card_index + 1 <= usize::MAX,
    ensures
        ({
            let n = l.piles[from.depot_index as int].len() - from.card_index;
            let rest = BoardPos { depot_index: from.depot_index, card_index: (from.card_index + 1) as usize };
            let top = BoardPos {
                depot_index: to.depot_index,
                card_index: (l.piles[to.depot_index as int].len() + n - 1) as usize,
            };
            l.moved(from, to) == l.moved(rest, to).moved(from, top)
        }),
{
    let src = l.piles[from.depot_index as int];
    let dst = l.piles[to.depot_index as int];
    let c = from.card_index as int;
    let rest = BoardPos { depot_index: from.depot_index, card_index: (from.card_index + 1) as usize };
    let n = src.len() - c;
    let top = BoardPos { depot_index: to.depot_index, card_index: (dst.len() + n - 1) as usize };
    let m1 = l.moved(rest, to);
    assert(m1.piles[from.depot_index as int] == src.take(c + 1));
    assert(src.take(c + 1).take(c) =~= src.take(c));
    assert(src.take(c + 1).skip(c) =~= seq![src[c]]);
    assert(seq![src[c]].reverse() =~= seq![src[c]]);
    assert(src.skip(c).reverse() =~= src.skip(c + 1).reverse() + seq![src[c]]);
    assert(dst + src.skip(c).reverse() =~= (dst + src.skip(c + 1).reverse()) + seq![src[c]]);
    assert(l.moved(from, to).piles =~= m1.moved(from, top).piles);
}

/// An undo takes the board back to the layout that the history's first
/// actions, down to the last undo mark, make from the deal.
pub proof fn law_undo_restores_history_prefix(g: GameState)
    requires
        g.wf(),
        g.undo_stack@.len() > 0,
    ensures
        undone(g.board@, g.history@, g.undo_stack@.last() as nat).layout == replay(
            dealt(g.deal@),
            g.history@.take(g.undo_stack@.last() as int),
        ),
{
    lemma_undone_layout(
        dealt(g.deal@),
        g.board@,
        g.history@,
        g.undo_stack@.last() as nat,
    );
}

/// Wins never go down, and a game counts at most one: an animation step adds
/// at most one win, only to a game not yet won, and marks the game won.
pub proof fn law_wins_counted_once(a: GameState, b: GameState, key: u16, saved: bool)
    requires
        advance_outcome(a, b, key, saved),
    ensures
        b.num_wins >= a.num_wins,
        b.num_wins <= a.num_wins + 1,
        b.num_wins == a.num_wins + 1 ==> !a.already_won && b.already_won,
        a.already_won ==> b.already_won && b.num_wins == a.num_wins,
{
}

/// Undoing every undo mark gives back the board that a restart deals: the
/// first mark is at the start of the history, and the layout there is the deal's.
pub proof fn law_undoing_every_mark_restarts(g: GameState)
    requires
        g.wf(),
        g.undo_stack@.len() > 0,
    ensures
        g.undo_stack@[0] == 0,
        undone(g.board@, g.history@, 0).layout == dealt(g.deal@),
{
    lemma_undone_layout(dealt(g.deal@), g.board@, g.history@, 0);
    assert(g.history@.take(0) =~= Seq::<ActionRecord>::empty());
}

/// Adding an entry keeps a history sound when the layout it leads to has its
/// foundations built by the rules.
pub proof fn lemma_history_sound_push(start: Layout, h: Seq<ActionRecord>, r: ActionRecord)
    requires
        history_sound(start, h),
        foundations_built(replay(start, h).applied(r)),
    ensures
        history_sound(start, h.push(r)),
{
    lemma_replay_push(start, h, r);
    assert(h.push(r).drop_last() =~= h);
}

/// Every prefix of a sound history is sound.
pub proof fn lemma_history_sound_prefix(start: Layout, h: Seq<ActionRecord>, k: int)
    requires
        history_sound(start, h),
        0 <= k <= h.len(),
    ensures
        history_sound(start, h.take(k)),
    decreases h.len(),
{
    if k == h.len() {
        assert(h.take(k) =~= h);
    } else {
        lemma_history_sound_prefix(start, h.drop_last(), k);
        assert(h.drop_last().take(k) =~= h.take(k));
    }
}

/// The ace at the bottom of common foundation `d`.
pub open spec fn home_ace(d: int) -> Card {
    Card { rank: RANK_MIN, suit: common_suit_at(d - 3) }
}

/// The deck holds each of its cards once and nothing else.
proof fn lemma_standard_counts()
    ensures
        forall|x: Card| #[trigger] standard_deck().to_multiset().count(x) <= 1,
        forall|x: Card|
            #[trigger] standard_deck().to_multiset().count(x) > 0 <==> is_deck_card(x),
{
    broadcast use vstd::seq_lib::group_to_multiset_ensures;

    law_standard_deck();
    standard_deck().lemma_multiset_has_no_duplicates();
}

/// A common foundation of a dealt board holds its ace as many times as the
/// deal does, and no other card.
proof fn lemma_dealt_home(deal: Seq<Card>, d: int)
    requires
        DepotRole::CommonHome.holds(d),
    ensures
        dealt(deal).piles[d].len() == deal.to_multiset().count(home_ace(d)),
        forall|i: int|
            0 <= i < dealt(deal).piles[d].len() ==> #[trigger] dealt(deal).piles[d][i] == home_ace(d),
    decreases deal.len(),
{
    broadcast use vstd::seq_lib::group_to_multiset_ensures;

    if deal.len() == 0 {
        assert(dealt(deal).piles[d] =~= Seq::<Card>::empty());
    } else {
        let prev = deal.drop_last();
        let c = deal.last();
        lemma_dealt_home(prev, d);
        lemma_dealt_shape(prev);
        let t = deal_target(c, tableau_count(prev));
        assert(prev.push(c) =~= deal);
        assert(deal.to_multiset() =~= prev.to_multiset().insert(c));
        if c == home_ace(d) {
            assert(t == d);
        } else {
            assert(t != d);
        }
        let pile = dealt(deal).piles[d];
        assert forall|i: int| 0 <= i < pile.len() implies #[trigger] pile[i] == home_ace(d) by {
            if t == d && i == pile.len() - 1 {
            } else {
                assert(pile[i] == dealt(prev).piles[d][i]);
            }
        }
    }
}

/// A dealt board starts a sound history: the trump places start empty and every
/// common foundation holds its ace alone.
pub proof fn lemma_history_sound_dealt(deal: Seq<Card>)
    requires
        deal.to_multiset() == standard_deck().to_multiset(),
    ensures
        history_sound(dealt(deal), Seq::empty()),
{
    let l = dealt(deal);
    lemma_dealt_shape(deal);
    lemma_standard_counts();
    assert forall|d: int| #[trigger] DepotRole::CommonHome.holds(d) implies l.piles[d].len() == 1
        && l.piles[d][0] == home_ace(d) by {
        lemma_dealt_home(deal, d);
        assert(is_deck_card(home_ace(d)));
    }
    assert forall|d: int, i: int| is_built_home(d) && 0 <= i < l.piles[d].len() implies (
    #[trigger] l.piles[d][i]).suit == home_suit(d) && l.piles[d][i].rank == home_rank(d, i) by {
        assert(DepotRole::CommonHome.holds(d));
    }
    assert(foundations_built(replay(l, Seq::empty())));
}

/// Cards that may be picked up together are all of one suit, that of the top card.
pub proof fn lemma_run_one_suit(s: Seq<Card>, c: int)
    requires
        0 <= c < s.len(),
        forall|i: int| c <= i < s.len() - 1 ==> #[trigger] stacks(s[i], s[i + 1]),
    ensures
        forall|i: int| c <= i < s.len() ==> #[trigger] s[i].suit == s.last().suit,
    decreases s.len() - c,
{
    if c < s.len() - 1 {
        lemma_run_one_suit(s, c + 1);
        assert(stacks(s[c], s[c + 1]));
    }
}

/// From `c` up, the ranks fall one by one towards the top card.
pub open spec fn run_falls_to_top(s: Seq<Card>, c: int) -> bool {
    forall|i: int| c <= i < s.len() ==> (#[trigger] s[i]).rank == s.last().rank + (s.len() - 1 - i)
}

/// From `c` up, the ranks rise one by one towards the top card.
pub open spec fn run_rises_to_top(s: Seq<Card>, c: int) -> bool {
    forall|i: int| c <= i < s.len() ==> (#[trigger] s[i]).rank + (s.len() - 1 - i) == s.last().rank
}

/// Cards that may be picked up together, all different, run in one direction:
/// going back and forth would repeat a card.
pub proof fn lemma_run_monotone(s: Seq<Card>, c: int)
    requires
        0 <= c < s.len(),
        s.no_duplicates(),
        forall|i: int| c <= i < s.len() - 1 ==> #[trigger] stacks(s[i], s[i + 1]),
    ensures
        run_falls_to_top(s, c) || run_rises_to_top(s, c),
    decreases s.len() - c,
{
    if c < s.len() - 1 {
        lemma_run_monotone(s, c + 1);
        assert(stacks(s[c], s[c + 1]));
        if c + 1 < s.len() - 1 {
            let i = c + 1;
            assert(stacks(s[i], s[i + 1]));
            if s[c].rank == s[c + 2].rank {
                assert(s[c] == s[c + 2]);
            }
        }
        if run_falls_to_top(s, c + 1) && s[c].rank == s[c + 1].rank + 1 {
            assert forall|i: int| c <= i < s.len() implies (#[trigger] s[i]).rank == s.last().rank + (
            s.len() - 1 - i) by {
                if i > c {
                    assert(s[i].rank == s.last().rank + (s.len() - 1 - i));
                }
            }
        } else if run_rises_to_top(s, c + 1) && s[c].rank + 1 == s[c + 1].rank {
            assert forall|i: int| c <= i < s.len() implies (#[trigger] s[i]).rank + (s.len() - 1 - i)
                == s.last().rank by {
                if i > c {
                    assert(s[i].rank + (s.len() - 1 - i) == s.last().rank);
                }
            }
        } else {
            assert(c + 1 == s.len() - 1);
        }
    }
}

/// How many times a card lies on the board bounds how many times it lies in
/// any one pile, or in any two piles together.
proof fn lemma_all_cards_count(piles: Seq<Seq<Card>>, d: int, e: int, x: Card)
    requires
        0 <= d < piles.len(),
        0 <= e < piles.len(),
    ensures
        all_cards(piles).count(x) >= piles[d].to_multiset().count(x),
        d != e ==> all_cards(piles).count(x) >= piles[d].to_multiset().count(x) + piles[e].to_multiset().count(x),
    decreases piles.len(),
{
    let last = piles.len() - 1;
    let prev = piles.drop_last();
    if d < last {
        lemma_all_cards_count(prev, d, d, x);
    }
    if e < last {
        lemma_all_cards_count(prev, e, e, x);
    }
    if d < last && e < last {
        lemma_all_cards_count(prev, d, e, x);
    }
}

/// On a board that holds the deck, no card lies twice, and every card is a card of the deck.
pub proof fn lemma_board_distinct(piles: Seq<Seq<Card>>)
    requires
        all_cards(piles) =~= standard_deck().to_multiset(),
    ensures
        forall|d: int| 0 <= d < piles.len() ==> (#[trigger] piles[d]).no_duplicates(),
        forall|d: int, e: int, i: int, j: int|
            0 <= d < piles.len() && 0 <= e < piles.len() && d != e && 0 <= i < piles[d].len() && 0
                <= j < piles[e].len() ==> #[trigger] piles[d][i] != #[trigger] piles[e][j],
        forall|d: int, i: int|
            0 <= d < piles.len() && 0 <= i < piles[d].len() ==> is_deck_card(#[trigger] piles[d][i]),
{
    broadcast use vstd::seq_lib::group_to_multiset_ensures;

    lemma_standard_counts();
    assert forall|d: int| 0 <= d < piles.len() implies (#[trigger] piles[d]).no_duplicates() by {
        assert forall|x: Card| piles[d].to_multiset().contains(x) implies piles[d].to_multiset().count(x)
            == 1 by {
            lemma_all_cards_count(piles, d, d, x);
        }
        piles[d].lemma_multiset_has_no_duplicates_conv();
    }
    assert forall|d: int, e: int, i: int, j: int|
        0 <= d < piles.len() && 0 <= e < piles.len() && d != e && 0 <= i < piles[d].len() && 0 <= j
            < piles[e].len() implies #[trigger] piles[d][i] != #[trigger] piles[e][j] by {
        let x = piles[d][i];
        if x == piles[e][j] {
            lemma_all_cards_count(piles, d, e, x);
            assert(piles[d].contains(x));
            assert(piles[e].contains(x));
        }
    }
    assert forall|d: int, i: int| 0 <= d < piles.len() && 0 <= i < piles[d].len() implies is_deck_card(
        #[trigger] piles[d][i],
    ) by {
        let x = piles[d][i];
        lemma_all_cards_count(piles, d, d, x);
        assert(piles[d].contains(x));
    }
}

/// With every trump on the three trump places, no other pile holds a trump:
/// the deck has no more.
pub proof fn lemma_no_trump_off_home(l: Layout)
    requires
        l.piles.len() == NUM_DEPOTS,
        all_cards(l.piles) =~= standard_deck().to_multiset(),
        foundations_built(l),
        l.piles[2].len() > 0,
    ensures
        forall|d: int, i: int|
            3 <= d < NUM_DEPOTS && 0 <= i < l.piles[d].len() ==> #[trigger] l.piles[d][i].suit
                != Suit::Trump,
{
    let p = l.piles;
    let w = pile_trumps();
    lemma_board_census(p);
    lemma_deck_census();
    assert forall|d: int| 0 <= d < 3 implies w(#[trigger] p[d]) == p[d].len() by {
        assert forall|i: int| 0 <= i < p[d].len() implies #[trigger] p[d][i].suit == Suit::Trump by {
            assert(l.piles[d][i].suit == Suit::Trump);
        }
        lemma_pile_trumps(p[d]);
    }
    assert(p.take(0) =~= Seq::<Seq<Card>>::empty());
    lemma_pile_sum_take(p, w, 0);
    lemma_pile_sum_take(p, w, 1);
    lemma_pile_sum_take(p, w, 2);
    lemma_rest_weighs_nothing(p, w, 3);
    assert forall|d: int, i: int| 3 <= d < NUM_DEPOTS && 0 <= i < l.piles[d].len() implies #[trigger] l.piles[d][i].suit
        != Suit::Trump by {
        assert(w(p[d]) == 0);
        lemma_pile_trumps(p[d]);
    }
}

/// The cards of `from` and up, laid on `to`, continue the build of `to`.
pub open spec fn continues_build(l: Layout, from: BoardPos, to: BoardPos) -> bool {
    let src = l.piles[from.depot_index as int];
    forall|i: int|
        from.card_index <= i < src.len() ==> (#[trigger] src[i]).suit == home_suit(
            to.depot_index as int,
        ) && src[i].rank == home_rank(
            to.depot_index as int,
            l.piles[to.depot_index as int].len() + (src.len() - 1 - i),
        )
}

/// On a board that holds the deck with its foundations built, cards that may be
/// picked up and may go to a foundation continue its build: the top card fits,
/// and the others follow in order, since every card lies once.
proof fn lemma_run_continues(l: Layout, p1: BoardPos, p2: BoardPos)
    requires
        l.piles.len() == NUM_DEPOTS,
        all_cards(l.piles) =~= standard_deck().to_multiset(),
        builds_ok(l),
        selectable(l.piles, p1),
        p2.depot_index < NUM_DEPOTS,
        move_legal(l, p1, p2),
        is_built_home(p2.depot_index as int),
    ensures
        continues_build(l, p1, p2),
{
    let d1 = p1.depot_index as int;
    let t = p2.depot_index as int;
    let src = l.piles[d1];
    let dst = l.piles[t];
    let c = p1.card_index as int;
    let front = src.last();
    let n = src.len() - c;
    lemma_board_distinct(l.piles);
    assert(l.piles[d1].no_duplicates());
    if dst.len() > 0 {
        assert(dst.last() == l.piles[t][dst.len() - 1]);
    }
    if DepotRole::CommonHome.holds(t) {
        assert(dst.len() > 0);
    }
    assert(front.suit == home_suit(t) && front.rank == home_rank(t, dst.len() as int));
    if DepotRole::Tableau.holds(d1) {
        lemma_run_one_suit(src, c);
        lemma_run_monotone(src, c);
        if n >= 2 {
            let below = src[src.len() - 2];
            assert(below.suit == front.suit);
            assert(below == l.piles[d1][src.len() - 2]);
            if t == 1 {
                if !run_rises_to_top(src, c) {
                    assert(below.rank == front.rank + 1);
                    if dst.len() > 0 {
                        assert(below == l.piles[t][dst.len() - 1]);
                    } else {
                        assert(is_deck_card(l.piles[d1][src.len() - 2]));
                    }
                }
            } else {
                if !run_falls_to_top(src, c) {
                    assert(below.rank + 1 == front.rank);
                    if dst.len() > 0 {
                        assert(below == l.piles[t][dst.len() - 1]);
                    }
                }
            }
        }
    } else {
        assert(n == 1);
    }
}

/// Moving cards off a pile that is no foundation keeps every foundation built,
/// when the cards continue the build of the foundation they go to, and only
/// trumps go to the place of the last trump.
proof fn lemma_built_moved(l: Layout, from: BoardPos, to: BoardPos)
    requires
        l.piles.len() == NUM_DEPOTS,
        builds_ok(l),
        7 <= from.depot_index < NUM_DEPOTS,
        to.depot_index < NUM_DEPOTS,
        from.depot_index != to.depot_index,
        from.card_index <= l.piles[from.depot_index as int].len(),
        is_built_home(to.depot_index as int) ==> continues_build(l, from, to),
        to.depot_index == 2 ==> forall|i: int|
            from.card_index <= i < l.piles[from.depot_index as int].len() ==> (
            #[trigger] l.piles[from.depot_index as int][i]).suit == Suit::Trump,
    ensures
        builds_ok(l.moved(from, to)),
{
    let m = l.moved(from, to);
    let src = l.piles[from.depot_index as int];
    let c = from.card_index as int;
    let mv = src.skip(c).reverse();
    assert forall|d: int, i: int| is_built_home(d) && 0 <= i < m.piles[d].len() implies (
    #[trigger] m.piles[d][i]).suit == home_suit(d) && m.piles[d][i].rank == home_rank(d, i) by {
        if d == to.depot_index {
            let dst = l.piles[d];
            assert(m.piles[d] == dst + mv);
            if i < dst.len() {
                assert(m.piles[d][i] == l.piles[d][i]);
            } else {
                let k = i - dst.len();
                let j = c + mv.len() - 1 - k;
                assert(m.piles[d][i] == mv[k]);
                assert(mv[k] == src[j]);
                assert(src[j] == l.piles[from.depot_index as int][j]);
            }
        } else {
            assert(m.piles[d] == l.piles[d]);
            assert(m.piles[d][i] == l.piles[d][i]);
        }
    }
    assert forall|i: int| 0 <= i < m.piles[2].len() implies (#[trigger] m.piles[2][i]).suit
        == Suit::Trump by {
        if to.depot_index == 2 {
            let dst = l.piles[2];
            assert(m.piles[2] == dst + mv);
            if i < dst.len() {
                assert(m.piles[2][i] == l.piles[2][i]);
            } else {
                let k = i - dst.len();
                let j = c + mv.len() - 1 - k;
                assert(m.piles[2][i] == mv[k]);
                assert(mv[k] == src[j]);
                assert(src[j] == l.piles[from.depot_index as int][j]);
            }
        } else {
            assert(m.piles[2] == l.piles[2]);
            assert(m.piles[2][i] == l.piles[2][i]);
        }
    }
    assert forall|d: int| #[trigger] DepotRole::CommonHome.holds(d) implies m.piles[d].len() > 0 by {
        assert(l.piles[d].len() > 0);
    }
}

/// On a board that holds the deck with its trump foundations built, the two
/// trump foundations hold at most every trump between them.
proof fn lemma_trump_bound(l: Layout)
    requires
        l.piles.len() == NUM_DEPOTS,
        all_cards(l.piles) =~= standard_deck().to_multiset(),
        builds_ok(l),
    ensures
        l.piles[0].len() + l.piles[1].len() <= NUM_TRUMPS,
{
    lemma_board_distinct(l.piles);
    let a = l.piles[0].len() as int;
    let b = l.piles[1].len() as int;
    if a + b > NUM_TRUMPS {
        if b == 0 {
            assert(is_deck_card(l.piles[0][a - 1]));
        } else {
            let i = NUM_TRUMPS - b;
            assert(l.piles[0][i].rank == home_rank(0, i));
            assert(l.piles[1][b - 1].rank == home_rank(1, b - 1));
            assert(l.piles[0][i] == l.piles[1][b - 1]);
        }
    }
}

/// A move of cards that may be picked up keeps every layout along the history
/// with its foundations built by the rules.
pub proof fn lemma_history_sound_move(
    start: Layout,
    h: Seq<ActionRecord>,
    l: Layout,
    p1: BoardPos,
    p2: BoardPos,
)
    requires
        history_sound(start, h),
        l == replay(start, h),
        l.cells_ok(),
        all_cards(l.piles) =~= standard_deck().to_multiset(),
        selectable(l.piles, p1),
        p2.depot_index < NUM_DEPOTS,
        move_legal(l, p1, p2),
        l.piles[2].len() <= usize::MAX,
        l.piles[p1.depot_index as int].len() <= usize::MAX,
    ensures
        history_sound(start, h + move_records(l, p1, p2)),
{
    let recs = move_records(l, p1, p2);
    let d1 = p1.depot_index;
    let c = p1.card_index as int;
    let src = l.piles[d1 as int];
    let n = src.len() - c;
    let front = src.last();
    let top2 = BoardPos { depot_index: 2usize, card_index: l.piles[2].len() as usize };
    let to_last = ActionRecord::Move { pos1: p1, pos2: top2 };
    assert(foundations_built(l));
    assert(d1 >= 7);
    if DepotRole::Tableau.holds(d1 as int) {
        lemma_run_one_suit(src, c);
    }
    assert(forall|i: int| c <= i < src.len() ==> #[trigger] src[i].suit == front.suit);
    if is_built_home(p2.depot_index as int) {
        lemma_run_continues(l, p1, p2);
        assert(front == l.piles[d1 as int][src.len() - 1]);
    }
    if l.piles[2].len() > 0 {
        lemma_no_trump_off_home(l);
        assert(src[src.len() - 1].suit != Suit::Trump);
        assert(p2.depot_index >= 3);
    }
    let mut moves = h;
    if completes_trumps(l, p1, p2) {
        assert(l.piles[2].len() == 0);
        assert(p2.depot_index < 2);
        assert(front.suit == Suit::Trump);
        if n > 1 {
            let p1b = BoardPos { depot_index: d1, card_index: (c + 1) as usize };
            let m1 = ActionRecord::Move { pos1: p1b, pos2: p2 };
            lemma_built_moved(l, p1b, p2);
            let l1 = l.moved(p1b, p2);
            assert(l1.piles[2] == l.piles[2]);
            assert(l1.piles[p2.depot_index as int].len() == l.piles[p2.depot_index as int].len() + n - 1);
            assert(foundations_built(l1));
            lemma_history_sound_push(start, h, m1);
            lemma_replay_push(start, h, m1);
            assert(l1.piles[d1 as int] == src.take(c + 1));
            assert(l1.piles[d1 as int][c] == src[c]);
            lemma_built_moved(l1, p1, top2);
            assert(foundations_built(l1.moved(p1, top2)));
            lemma_history_sound_push(start, h.push(m1), to_last);
            moves = h.push(m1).push(to_last);
            assert(h + seq![m1, to_last] =~= moves);
        } else {
            lemma_built_moved(l, p1, top2);
            assert(foundations_built(l.moved(p1, top2)));
            lemma_history_sound_push(start, h, to_last);
            moves = h.push(to_last);
            assert(h + seq![to_last] =~= moves);
        }
    } else {
        let m = ActionRecord::Move { pos1: p1, pos2: p2 };
        lemma_built_moved(l, p1, p2);
        let lm = l.moved(p1, p2);
        if p2.depot_index < 2 {
            law_moves_conserve_cards(l, p1, p2);
            lemma_trump_bound(lm);
            assert(lm.piles[2] == l.piles[2]);
            assert(lm.piles[p2.depot_index as int].len() == l.piles[p2.depot_index as int].len() + n);
        } else {
            assert(lm.piles[0] == l.piles[0]);
            assert(lm.piles[1] == l.piles[1]);
            assert(lm.piles[2] == l.piles[2]);
        }
        assert(foundations_built(lm));
        lemma_history_sound_push(start, h, m);
        moves = h.push(m);
        assert(h + seq![m] =~= moves);
    }
    if d1 == FREECELL_SINGLE_USE {
        let r = ActionRecord::FreeCellSingleUsed;
        assert(replay(start, moves).applied(r).piles == replay(start, moves).piles);
        lemma_history_sound_push(start, moves, r);
        assert(h + recs =~= moves.push(r));
    } else {
        assert(h + recs =~= moves);
    }
}

/// A move of cards that may be picked up keeps the history of a sound game sound.
pub proof fn lemma_move_keeps_history_sound(a: GameState, b: GameState, p1: BoardPos, p2: BoardPos)
    requires
        a.sound(),
        selectable(a.board@.layout.piles, p1),
        p2.depot_index < NUM_DEPOTS,
        intent_outcome(a, b, p1, p2),
    ensures
        b.deal@ == a.deal@,
        history_sound(dealt(b.deal@), b.history@),
{
    let l = a.board@.layout;
    if move_legal(l, p1, p2) {
        law_game_conserves_cards(a);
        lemma_replay_ok_cells(dealt(a.deal@), a.history@);
        assert(a.board.depots@[2].len() <= usize::MAX);
        assert(l.piles[2] == a.board.depots@[2]@);
        assert(a.board.depots@[p1.depot_index as int].len() <= usize::MAX);
        assert(l.piles[p1.depot_index as int] == a.board.depots@[p1.depot_index as int]@);
        lemma_history_sound_move(dealt(a.deal@), a.history@, l, p1, p2);
    }
}

/// With all the trumps on their places and every common foundation full, the
/// deck has no card left for the free cells and the tableau.
proof fn lemma_home_full_rest_empty(l: Layout)
    requires
        l.piles.len() == NUM_DEPOTS,
        all_cards(l.piles) =~= standard_deck().to_multiset(),
        l.piles[0].len() + l.piles[1].len() + l.piles[2].len() == NUM_TRUMPS,
        forall|d: int| #[trigger] DepotRole::CommonHome.holds(d) ==> l.piles[d].len() == NUM_RANKS,
    ensures
        forall|d: int| 7 <= d < NUM_DEPOTS ==> #[trigger] l.piles[d].len() == 0,
{
    let p = l.piles;
    let w = pile_size();
    lemma_board_census(p);
    lemma_deck_census();
    assert(DepotRole::CommonHome.holds(3));
    assert(DepotRole::CommonHome.holds(4));
    assert(DepotRole::CommonHome.holds(5));
    assert(DepotRole::CommonHome.holds(6));
    assert(p.take(0) =~= Seq::<Seq<Card>>::empty());
    lemma_pile_sum_take(p, w, 0);
    lemma_pile_sum_take(p, w, 1);
    lemma_pile_sum_take(p, w, 2);
    lemma_pile_sum_take(p, w, 3);
    lemma_pile_sum_take(p, w, 4);
    lemma_pile_sum_take(p, w, 5);
    lemma_pile_sum_take(p, w, 6);
    lemma_rest_weighs_nothing(p, w, 7);
    assert forall|d: int| 7 <= d < NUM_DEPOTS implies #[trigger] l.piles[d].len() == 0 by {
        assert(w(p[d]) == 0);
    }
}

/// A won game has every card on the foundations: in a sound game, a won board
/// holds all the trumps on the three trump places, every common card on its
/// foundation, and no card in a free cell or in the tableau.
pub proof fn law_won_means_all_cards_home(g: GameState)
    requires
        g.sound(),
        won(g.board@.layout.piles),
    ensures
        g.board@.layout.piles[0].len() + g.board@.layout.piles[1].len()
            + g.board@.layout.piles[2].len() == NUM_TRUMPS,
        forall|d: int|
            DepotRole::FreeCell.holds(d) || DepotRole::Tableau.holds(d) ==> #[trigger] g.board@.layout.piles[d].len()
                == 0,
{
    let l = g.board@.layout;
    law_game_conserves_cards(g);
    assert(foundations_built(l));
    assert(l.piles[2].len() > 0);
    lemma_home_full_rest_empty(l);
}

/// A game with every card on the foundations is won: in a sound game whose free
/// cells and tableau are empty, the last trump lies on its place and every
/// common foundation holds its thirteen cards.
pub proof fn law_all_cards_home_means_won(g: GameState)
    requires
        g.sound(),
        forall|d: int|
            DepotRole::FreeCell.holds(d) || DepotRole::Tableau.holds(d) ==> #[trigger] g.board@.layout.piles[d].len()
                == 0,
    ensures
        won(g.board@.layout.piles),
{
    let l = g.board@.layout;
    let p = l.piles;
    let w = pile_size();
    law_game_conserves_cards(g);
    assert(foundations_built(l));
    lemma_board_distinct(p);
    assert forall|d: int| #[trigger] DepotRole::CommonHome.holds(d) implies p[d].len() <= NUM_RANKS by {
        let k = p[d].len() - 1;
        assert(p[d].len() > 0);
        assert(is_deck_card(p[d][k]));
        assert(p[d][k].rank == home_rank(d, k));
    }
    assert(DepotRole::CommonHome.holds(3));
    assert(DepotRole::CommonHome.holds(4));
    assert(DepotRole::CommonHome.holds(5));
    assert(DepotRole::CommonHome.holds(6));
    lemma_board_census(p);
    lemma_deck_census();
    assert(p.take(0) =~= Seq::<Seq<Card>>::empty());
    lemma_pile_sum_take(p, w, 0);
    lemma_pile_sum_take(p, w, 1);
    lemma_pile_sum_take(p, w, 2);
    lemma_pile_sum_take(p, w, 3);
    lemma_pile_sum_take(p, w, 4);
    lemma_pile_sum_take(p, w, 5);
    lemma_pile_sum_take(p, w, 6);
    assert forall|j: int| 0 <= j < p.skip(7).len() implies w(#[trigger] p.skip(7)[j]) == 0 by {
        assert(p.skip(7)[j] == p[j + 7]);
        if j + 7 < 10 {
            assert(DepotRole::FreeCell.holds(j + 7));
        } else {
            assert(DepotRole::Tableau.holds(j + 7));
        }
    }
    lemma_pile_sum_zero(p.skip(7), w);
    assert(p.take(7) + p.skip(7) =~= p);
    lemma_pile_sum_split(p.take(7), p.skip(7), w);
    assert(p[2].len() > 0);
    assert forall|d: int| #[trigger] DepotRole::CommonHome.holds(d) implies p[d].len() == NUM_RANKS by {
    }
}

/// The game is won exactly when every card is on the foundations: in a sound
/// game, the board is won just when the free cells and the tableau are empty.
pub proof fn law_won_iff_all_cards_home(g: GameState)
    requires
        g.sound(),
    ensures
        won(g.board@.layout.piles) <==> forall|d: int|
            DepotRole::FreeCell.holds(d) || DepotRole::Tableau.holds(d) ==> #[trigger] g.board@.layout.piles[d].len()
                == 0,
{
    if won(g.board@.layout.piles) {
        law_won_means_all_cards_home(g);
    }
    if forall|d: int|
        DepotRole::FreeCell.holds(d) || DepotRole::Tableau.holds(d) ==> #[trigger] g.board@.layout.piles[d].len()
            == 0 {
        law_all_cards_home_means_won(g);
    }
}

/// The end of an animation step with some key takes `a` to `b`.
pub open spec fn one_animation_step(a: GameState, b: GameState) -> bool {
    exists|key: AnimationKey, saved: bool| #[trigger] advance_outcome(a, b, key, saved)
}

/// An undo takes `a` to `b`.
pub open spec fn one_undo(a: GameState, b: GameState) -> bool {
    exists|saved: bool| #[trigger] undo_outcome(a, b, saved)
}

/// One operation of a session other than a new game takes `a` to `b`: a click,
/// a double click, an undo, a restart or the end of an animation step.
pub open spec fn one_operation(a: GameState, b: GameState) -> bool {
    ||| exists|pos: BoardPos| #[trigger] click_outcome(a, b, pos)
    ||| exists|pos: BoardPos| #[trigger] double_click_outcome(a, b, pos)
    ||| one_undo(a, b)
    ||| exists|saved: bool| #[trigger] restart_outcome(a, b, saved)
    ||| one_animation_step(a, b)
}

/// Every operation but the end of an animation step keeps the wins and the
/// won mark; that one adds a win only to a game not yet won, and marks it won.
proof fn lemma_operation_wins(a: GameState, b: GameState)
    requires
        one_operation(a, b),
    ensures
        b.num_wins == a.num_wins + if b.already_won && !a.already_won {
            1int
        } else {
            0int
        },
        a.already_won ==> b.already_won,
{
    if exists|pos: BoardPos| #[trigger] click_outcome(a, b, pos) {
        let pos = choose|pos: BoardPos| #[trigger] click_outcome(a, b, pos);
        assert(click_outcome(a, b, pos));
    } else if exists|pos: BoardPos| #[trigger] double_click_outcome(a, b, pos) {
        let pos = choose|pos: BoardPos| #[trigger] double_click_outcome(a, b, pos);
        assert(double_click_outcome(a, b, pos));
    } else if one_undo(a, b) {
        let saved = choose|saved: bool| #[trigger] undo_outcome(a, b, saved);
        assert(undo_outcome(a, b, saved));
    } else if exists|saved: bool| #[trigger] restart_outcome(a, b, saved) {
        let saved = choose|saved: bool| #[trigger] restart_outcome(a, b, saved);
        assert(restart_outcome(a, b, saved));
    } else {
        let (key, saved) = choose|key: AnimationKey, saved: bool| #[trigger] advance_outcome(a, b, key, saved);
        assert(advance_outcome(a, b, key, saved));
    }
}

/// Over a session, the wins are those at the start plus one once the game is won.
proof fn lemma_session_wins(run: Seq<GameState>)
    requires
        run.len() > 0,
        forall|i: int| 0 <= i < run.len() - 1 ==> #[trigger] one_operation(run[i], run[i + 1]),
    ensures
        run.last().num_wins == run[0].num_wins + if run.last().already_won && !run[0].already_won {
            1int
        } else {
            0int
        },
        run[0].already_won ==> run.last().already_won,
    decreases run.len(),
{
    if run.len() > 1 {
        let prev = run.drop_last();
        assert forall|i: int| 0 <= i < prev.len() - 1 implies #[trigger] one_operation(prev[i], prev[i + 1]) by {
            assert(one_operation(run[i], run[i + 1]));
        }
        lemma_session_wins(prev);
        let i = run.len() - 2;
        assert(one_operation(run[i], run[i + 1]));
        lemma_operation_wins(run[i], run[i + 1]);
    }
}

/// Over any session of clicks, double clicks, undos, restarts and animation
/// steps (no new game), the wins never go down and rise by at most one, and by
/// none when the game was already won at the start: a game's win counts once.
pub proof fn law_wins_over_a_session(run: Seq<GameState>)
    requires
        run.len() > 0,
        forall|i: int| 0 <= i < run.len() - 1 ==> #[trigger] one_operation(run[i], run[i + 1]),
    ensures
        run[0].num_wins <= run.last().num_wins,
        run.last().num_wins <= run[0].num_wins + if run[0].already_won {
            0int
        } else {
            1int
        },
{
    lemma_session_wins(run);
}

/// The undo mark that the `k`-th undo of a run from `s0` goes back to (the
/// history's length before the first).
pub open spec fn undo_target(s0: GameState, k: int) -> int {
    if k == 0 {
        s0.history@.len() as int
    } else {
        s0.undo_stack@[s0.undo_stack@.len() - k] as int
    }
}

/// After `k` undos from a well-formed `s0`, the history is taken back to the
/// `k`-th mark from the end, the marks above it are gone, and the layout is
/// what that part of the history makes of the deal.
proof fn lemma_undo_run(run: Seq<GameState>, k: int)
    requires
        run.len() > 0,
        run[0].wf(),
        run[0].allow_undo,
        run.len() == run[0].undo_stack@.len() + 1,
        forall|i: int| 0 <= i < run.len() - 1 ==> !(#[trigger] run[i]).busy(),
        forall|i: int| 0 <= i < run.len() - 1 ==> #[trigger] one_undo(run[i], run[i + 1]),
        0 <= k < run.len(),
    ensures
        run[k].undo_stack@ == run[0].undo_stack@.take(run[0].undo_stack@.len() - k),
        0 <= undo_target(run[0], k) <= run[0].history@.len(),
        run[k].history@ == run[0].history@.take(undo_target(run[0], k)),
        run[k].board@.layout == replay(dealt(run[0].deal@), run[k].history@),
        run[k].deal@ == run[0].deal@,
        run[k].allow_undo,
    decreases k,
{
    let s0 = run[0];
    let n = s0.undo_stack@.len();
    let h = s0.history@;
    let start = dealt(s0.deal@);
    if k == 0 {
        assert(s0.undo_stack@.take(n as int) =~= s0.undo_stack@);
        assert(h.take(h.len() as int) =~= h);
    } else {
        lemma_undo_run(run, k - 1);
        let a = run[k - 1];
        let b = run[k];
        let i = k - 1;
        assert(!run[i].busy());
        assert(one_undo(run[i], run[i + 1]));
        let saved = choose|saved: bool| #[trigger] undo_outcome(a, b, saved);
        let m = undo_target(s0, k - 1);
        let t = s0.undo_stack@[n - k];
        assert(a.undo_stack@.last() == t);
        assert(t < m) by {
            if k > 1 {
                assert(s0.undo_stack@[n - k] < s0.undo_stack@[n - (k - 1)]);
            }
        }
        lemma_replay_ok_prefix(start, h, m);
        lemma_undone_layout(start, a.board@, a.history@, t as nat);
        assert(a.history@.take(t as int) =~= h.take(t as int));
        assert(a.undo_stack@.drop_last() =~= s0.undo_stack@.take(n - k));
    }
}

/// Undoing once per undo mark, with no animation pending before each undo,
/// ends where a restart goes: the layout dealt from the same deal, with no
/// history and no undo mark left.
pub proof fn law_undoing_all_marks_restarts(run: Seq<GameState>, r: GameState, saved: bool)
    requires
        run.len() > 0,
        run[0].wf(),
        run[0].allow_undo,
        run[0].history@.len() > 0,
        run.len() == run[0].undo_stack@.len() + 1,
        forall|i: int| 0 <= i < run.len() - 1 ==> !(#[trigger] run[i]).busy(),
        forall|i: int| 0 <= i < run.len() - 1 ==> #[trigger] one_undo(run[i], run[i + 1]),
        restart_outcome(run[0], r, saved),
    ensures
        saved,
        run.last().board@.layout == r.board@.layout,
        r.board@.layout == dealt(run[0].deal@),
        run.last().history@.len() == 0,
        r.history@.len() == 0,
        run.last().undo_stack@.len() == 0,
        r.undo_stack@.len() == 0,
{
    let n = run[0].undo_stack@.len();
    lemma_undo_run(run, n as int);
    assert(run[0].undo_stack@[0] == 0);
    assert(run[0].history@.take(0) =~= Seq::<ActionRecord>::empty());
}

/// Animation steps keep the layout, the history, the undo marks and the undo setting.
proof fn lemma_animation_run(run: Seq<GameState>)
    requires
        run.len() > 0,
        forall|i: int| 0 <= i < run.len() - 1 ==> #[trigger] one_animation_step(run[i], run[i + 1]),
    ensures
        run.last().board@.layout == run[0].board@.layout,
        run.last().history@ == run[0].history@,
        run.last().undo_stack@ == run[0].undo_stack@,
        run.last().allow_undo == run[0].allow_undo,
    decreases run.len(),
{
    if run.len() > 1 {
        let prev = run.drop_last();
        assert forall|i: int| 0 <= i < prev.len() - 1 implies #[trigger] one_animation_step(prev[i], prev[i + 1]) by {
            assert(one_animation_step(run[i], run[i + 1]));
        }
        lemma_animation_run(prev);
        let i = run.len() - 2;
        let a = run[i];
        let b = run[i + 1];
        assert(one_animation_step(run[i], run[i + 1]));
        let (key, saved) = choose|key: AnimationKey, saved: bool| #[trigger] advance_outcome(a, b, key, saved);
        assert(advance_outcome(a, b, key, saved));
    }
}

/// An undo takes back exactly the last move: after an allowed move of cards
/// that may be picked up, and animation steps until none is pending, undoing
/// restores the layout, the history and the undo marks from before the move.
pub proof fn law_undo_reverts_move(
    g: GameState,
    p1: BoardPos,
    p2: BoardPos,
    run: Seq<GameState>,
    back: GameState,
    saved: bool,
)
    requires
        g.wf(),
        g.allow_undo,
        selectable(g.board@.layout.piles, p1),
        p2.depot_index < NUM_DEPOTS,
        move_legal(g.board@.layout, p1, p2),
        run.len() > 0,
        intent_outcome(g, run[0], p1, p2),
        forall|i: int| 0 <= i < run.len() - 1 ==> #[trigger] one_animation_step(run[i], run[i + 1]),
        !run.last().busy(),
        undo_outcome(run.last(), back, saved),
    ensures
        saved,
        back.board@.layout == g.board@.layout,
        back.history@ == g.history@,
        back.undo_stack@ == g.undo_stack@,
{
    lemma_animation_run(run);
    let moved = run[0];
    let settled = run.last();
    let recs = move_records(g.board@.layout, p1, p2);
    let start = dealt(g.deal@);
    assert(g.board.depots@[2].len() <= usize::MAX);
    assert(g.board@.layout.piles[2] == g.board.depots@[2]@);
    assert(g.board.depots@[p1.depot_index as int].len() <= usize::MAX);
    assert(g.board@.layout.piles[p1.depot_index as int] == g.board.depots@[p1.depot_index as int]@);
    lemma_move_extends_history(start, g.history@, g.board@, p1, p2);
    let h1 = g.history@ + recs;
    let t = g.history@.len();
    assert(g.history@.len() == g.history.len());
    assert(settled.undo_stack@.last() == t);
    lemma_undone_layout(start, settled.board@, h1, t);
    assert(h1.take(t as int) =~= g.history@);
    assert(settled.undo_stack@.drop_last() =~= g.undo_stack@);
}

/// Undo takes back a click's move: when a click moves the selected cards, and
/// animation steps follow until none is pending, an undo restores the layout,
/// the history and the undo marks from before the click.
pub proof fn law_undo_reverts_click(
    g: GameState,
    pos: BoardPos,
    run: Seq<GameState>,
    back: GameState,
    saved: bool,
)
    requires
        g.wf(),
        g.allow_undo,
        !g.busy(),
        pos.depot_index < NUM_DEPOTS,
        g.board@.selected matches Some(src) && pos != src && !(src.depot_index == pos.depot_index
            && selectable(g.board@.layout.piles, pos)) && move_legal(
            g.board@.layout,
            src,
            BoardPos { depot_index: pos.depot_index, card_index: next_index(pos.card_index) },
        ),
        run.len() > 0,
        click_outcome(g, run[0], pos),
        forall|i: int| 0 <= i < run.len() - 1 ==> #[trigger] one_animation_step(run[i], run[i + 1]),
        !run.last().busy(),
        undo_outcome(run.last(), back, saved),
    ensures
        saved,
        back.board@.layout == g.board@.layout,
        back.history@ == g.history@,
        back.undo_stack@ == g.undo_stack@,
{
    let src = g.board@.selected->0;
    let dest = BoardPos { depot_index: pos.depot_index, card_index: next_index(pos.card_index) };
    law_undo_reverts_move(g, src, dest, run, back, saved);
}

/// The depot that a sort picks is one of those offered.
proof fn lemma_first_fit_offered(l: Layout, pos: BoardPos, homes: Seq<usize>)
    ensures
        first_fit(l, pos, homes) matches Some(h) ==> homes.contains(h),
        first_fit(l, pos, homes) matches Some(h) ==> move_legal(l, pos, top_of(l, h)),
    decreases homes.len(),
{
    if homes.len() > 0 && !move_legal(l, pos, top_of(l, homes[0])) {
        lemma_first_fit_offered(l, pos, homes.drop_first());
        let rest = homes.drop_first();
        if first_fit(l, pos, rest) is Some {
            let h = first_fit(l, pos, rest)->0;
            let j = choose|j: int| 0 <= j < rest.len() && rest[j] == h;
            assert(homes[j + 1] == h);
        }
    }
}

/// Undo takes back a double click's move: when a double click sorts cards to a
/// foundation, and animation steps follow until none is pending, an undo
/// restores the layout, the history and the undo marks from before.
pub proof fn law_undo_reverts_double_click(
    g: GameState,
    pos: BoardPos,
    run: Seq<GameState>,
    back: GameState,
    saved: bool,
)
    requires
        g.wf(),
        g.allow_undo,
        !g.busy(),
        selectable(g.board@.layout.piles, pos),
        first_fit(
            g.board@.layout,
            pos,
            homes_for(g.board@.layout.piles[pos.depot_index as int][pos.card_index as int]),
        ) is Some,
        run.len() > 0,
        double_click_outcome(g, run[0], pos),
        forall|i: int| 0 <= i < run.len() - 1 ==> #[trigger] one_animation_step(run[i], run[i + 1]),
        !run.last().busy(),
        undo_outcome(run.last(), back, saved),
    ensures
        saved,
        back.board@.layout == g.board@.layout,
        back.history@ == g.history@,
        back.undo_stack@ == g.undo_stack@,
{
    let l = g.board@.layout;
    let homes = homes_for(l.piles[pos.depot_index as int][pos.card_index as int]);
    lemma_first_fit_offered(l, pos, homes);
    let h = first_fit(l, pos, homes)->0;
    assert(h < NUM_DEPOTS);
    law_undo_reverts_move(g, pos, top_of(l, h), run, back, saved);
}

/// A move of at least one card that does not complete the trumps is carried
/// out as asked: the cards of `p1` and up leave their depot and land on `p2` in
/// reverse order, the move is recorded, and an undo mark is set at the
/// history's former length.
proof fn lemma_plain_move_outcome(a: GameState, b: GameState, p1: BoardPos, p2: BoardPos)
    requires
        move_legal(a.board@.layout, p1, p2),
        !completes_trumps(a.board@.layout, p1, p2),
        p1.card_index < a.board@.layout.piles[p1.depot_index as int].len(),
        intent_outcome(a, b, p1, p2),
    ensures
        b.board@.layout.piles == a.board@.layout.moved(p1, p2).piles,
        b.history@.len() > a.history@.len(),
        b.history@[a.history@.len() as int] == (ActionRecord::Move { pos1: p1, pos2: p2 }),
        b.undo_stack@ == a.undo_stack@.push(a.history@.len() as usize),
{
    let l = a.board@.layout;
    let m = ActionRecord::Move { pos1: p1, pos2: p2 };
    let recs = move_records(l, p1, p2);
    let e: Seq<ActionRecord> = Seq::empty();
    assert(seq![m].drop_last() =~= e);
    assert(seq![m].last() == m);
    assert(applied_all(a.board@, e) == a.board@);
    assert(applied_all(a.board@, seq![m]) == a.board@.applied(m));
    if p1.depot_index == FREECELL_SINGLE_USE {
        let r = ActionRecord::FreeCellSingleUsed;
        assert(recs == seq![m].push(r));
        assert(recs.drop_last() =~= seq![m]);
        assert(applied_all(a.board@, recs) == applied_all(a.board@, seq![m]).applied(r));
    } else {
        assert(recs == seq![m]);
    }
    assert((a.history@ + recs)[a.history@.len() as int] == recs[0]);
}

/// A common foundation takes the next card of its suit: when the right free
/// cell is empty and the top card moved is a common card of the suit of the
/// foundation's top card, one rank above it (up to the king), the move is
/// allowed and carried out.
pub proof fn law_common_foundation_takes_next_rank(
    a: GameState,
    b: GameState,
    p1: BoardPos,
    p2: BoardPos,
)
    requires
        a.board@.layout.piles.len() == NUM_DEPOTS,
        p1.depot_index < NUM_DEPOTS,
        p1.depot_index != p2.depot_index,
        p1.card_index < a.board@.layout.piles[p1.depot_index as int].len(),
        DepotRole::CommonHome.holds(p2.depot_index as int),
        p2.card_index == a.board@.layout.piles[p2.depot_index as int].len(),
        a.board@.layout.piles[FREECELL_BLOCKS_COMMON as int].len() == 0,
        a.board@.layout.piles[p2.depot_index as int].len() > 0,
        a.board@.layout.piles[p1.depot_index as int].last().suit != Suit::Trump,
        a.board@.layout.piles[p1.depot_index as int].last().suit == a.board@.layout.piles[p2.depot_index as int].last().suit,
        a.board@.layout.piles[p1.depot_index as int].last().rank == a.board@.layout.piles[p2.depot_index as int].last().rank + 1,
        intent_outcome(a, b, p1, p2),
    ensures
        move_legal(a.board@.layout, p1, p2),
        b.board@.layout.piles[p2.depot_index as int] == a.board@.layout.piles[p2.depot_index as int]
            + a.board@.layout.piles[p1.depot_index as int].skip(p1.card_index as int).reverse(),
        b.board@.layout.piles[p1.depot_index as int] == a.board@.layout.piles[p1.depot_index as int].take(p1.card_index as int),
        b.undo_stack@ == a.undo_stack@.push(a.history@.len() as usize),
{
    lemma_plain_move_outcome(a, b, p1, p2);
}

/// An ace goes onto an empty common foundation while the right free cell is empty.
pub proof fn law_empty_common_foundation_takes_an_ace(
    a: GameState,
    b: GameState,
    p1: BoardPos,
    p2: BoardPos,
)
    requires
        a.board@.layout.piles.len() == NUM_DEPOTS,
        p1.depot_index < NUM_DEPOTS,
        p1.depot_index != p2.depot_index,
        p1.card_index < a.board@.layout.piles[p1.depot_index as int].len(),
        DepotRole::CommonHome.holds(p2.depot_index as int),
        p2.card_index == 0,
        a.board@.layout.piles[p2.depot_index as int].len() == 0,
        a.board@.layout.piles[FREECELL_BLOCKS_COMMON as int].len() == 0,
        a.board@.layout.piles[p1.depot_index as int].last().suit != Suit::Trump,
        a.board@.layout.piles[p1.depot_index as int].last().rank == RANK_MIN,
        intent_outcome(a, b, p1, p2),
    ensures
        move_legal(a.board@.layout, p1, p2),
        b.board@.layout.piles[p2.depot_index as int] == a.board@.layout.piles[p1.depot_index as int].skip(
            p1.card_index as int,
        ).reverse(),
        b.undo_stack@ == a.undo_stack@.push(a.history@.len() as usize),
{
    lemma_plain_move_outcome(a, b, p1, p2);
    assert(Seq::<Card>::empty() + a.board@.layout.piles[p1.depot_index as int].skip(
        p1.card_index as int,
    ).reverse() =~= a.board@.layout.piles[p1.depot_index as int].skip(p1.card_index as int).reverse());
}

/// An empty tableau column takes any run of cards that may be picked up, which
/// lands as if moved one card at a time.
pub proof fn law_empty_column_takes_any_run(a: GameState, b: GameState, p1: BoardPos, p2: BoardPos)
    requires
        a.board@.layout.piles.len() == NUM_DEPOTS,
        p1.depot_index < NUM_DEPOTS,
        p1.depot_index != p2.depot_index,
        selectable(a.board@.layout.piles, p1),
        DepotRole::Tableau.holds(p2.depot_index as int),
        p2.card_index == 0,
        a.board@.layout.piles[p2.depot_index as int].len() == 0,
        intent_outcome(a, b, p1, p2),
    ensures
        move_legal(a.board@.layout, p1, p2),
        b.board@.layout.piles[p2.depot_index as int] == a.board@.layout.piles[p1.depot_index as int].skip(
            p1.card_index as int,
        ).reverse(),
        b.board@.layout.piles[p1.depot_index as int] == a.board@.layout.piles[p1.depot_index as int].take(p1.card_index as int),
        b.undo_stack@ == a.undo_stack@.push(a.history@.len() as usize),
{
    lemma_plain_move_outcome(a, b, p1, p2);
    assert(Seq::<Card>::empty() + a.board@.layout.piles[p1.depot_index as int].skip(
        p1.card_index as int,
    ).reverse() =~= a.board@.layout.piles[p1.depot_index as int].skip(p1.card_index as int).reverse());
}

/// A tableau column takes a run whose top card is of the suit of the column's
/// top card, one rank above or below it.
pub proof fn law_column_takes_a_suit_neighbour(a: GameState, b: GameState, p1: BoardPos, p2: BoardPos)
    requires
        a.board@.layout.piles.len() == NUM_DEPOTS,
        p1.depot_index < NUM_DEPOTS,
        p1.depot_index != p2.depot_index,
        p1.card_index < a.board@.layout.piles[p1.depot_index as int].len(),
        DepotRole::Tableau.holds(p2.depot_index as int),
        p2.card_index == a.board@.layout.piles[p2.depot_index as int].len(),
        a.board@.layout.piles[p2.depot_index as int].len() > 0,
        a.board@.layout.piles[p1.depot_index as int].last().suit == a.board@.layout.piles[p2.depot_index as int].last().suit,
        a.board@.layout.piles[p1.depot_index as int].last().rank == a.board@.layout.piles[p2.depot_index as int].last().rank + 1
            || a.board@.layout.piles[p1.depot_index as int].last().rank + 1 == a.board@.layout.piles[p2.depot_index as int].last().rank,
        intent_outcome(a, b, p1, p2),
    ensures
        move_legal(a.board@.layout, p1, p2),
        b.board@.layout.piles[p2.depot_index as int] == a.board@.layout.piles[p2.depot_index as int]
            + a.board@.layout.piles[p1.depot_index as int].skip(p1.card_index as int).reverse(),
        b.undo_stack@ == a.undo_stack@.push(a.history@.len() as usize),
{
    lemma_plain_move_outcome(a, b, p1, p2);
}

/// An empty free cell takes one card from outside the free cells, unless it is
/// the used-up single-use cell.
pub proof fn law_empty_free_cell_takes_one_card(a: GameState, b: GameState, p1: BoardPos, p2: BoardPos)
    requires
        a.board@.layout.piles.len() == NUM_DEPOTS,
        p1.depot_index < NUM_DEPOTS,
        !DepotRole::FreeCell.holds(p1.depot_index as int),
        a.board@.layout.piles[p1.depot_index as int].len() == p1.card_index + 1,
        DepotRole::FreeCell.holds(p2.depot_index as int),
        p2.card_index == 0,
        a.board@.layout.piles[p2.depot_index as int].len() == 0,
        !(p2.depot_index == FREECELL_SINGLE_USE && a.board@.layout.single_used),
        intent_outcome(a, b, p1, p2),
    ensures
        move_legal(a.board@.layout, p1, p2),
        b.board@.layout.piles[p2.depot_index as int] == seq![a.board@.layout.piles[p1.depot_index as int].last()],
        b.board@.layout.piles[p1.depot_index as int] == a.board@.layout.piles[p1.depot_index as int].drop_last(),
        b.undo_stack@ == a.undo_stack@.push(a.history@.len() as usize),
{
    let src = a.board@.layout.piles[p1.depot_index as int];
    lemma_plain_move_outcome(a, b, p1, p2);
    assert(src.skip(p1.card_index as int) =~= seq![src.last()]);
    assert(seq![src.last()].reverse() =~= seq![src.last()]);
    assert(Seq::<Card>::empty() + seq![src.last()] =~= seq![src.last()]);
    assert(src.take(p1.card_index as int) =~= src.drop_last());
}

/// The trump foundations take the next trump: the left one from the lowest trump
/// up, the right one from the highest down, while the left free cell is empty
/// (a move that would complete the trumps sends its last card to the place of
/// the last trump instead, see `law_completing_move_fills_last_trump_place`).
pub proof fn law_trump_foundations_take_next_trump(l: Layout, p1: BoardPos, p2: BoardPos)
    requires
        l.piles.len() == NUM_DEPOTS,
        p1.depot_index < NUM_DEPOTS,
        p1.depot_index != p2.depot_index,
        p1.depot_index != DepotRole::TrumpLast.start_of(),
        l.piles[p1.depot_index as int].len() > 0,
        p2.depot_index < 2,
        p2.card_index == l.piles[p2.depot_index as int].len(),
        l.piles[FREECELL_BLOCKS_TRUMP as int].len() == 0,
        l.piles[p1.depot_index as int].last().suit == Suit::Trump,
        l.piles[p2.depot_index as int].len() == 0 ==> l.piles[p1.depot_index as int].last().rank == if p2.depot_index == 0 {
            TRUMP_RANK_MIN
        } else {
            TRUMP_RANK_MAX
        },
        l.piles[p2.depot_index as int].len() > 0 ==> l.piles[p2.depot_index as int].last().suit == Suit::Trump
            && l.piles[p1.depot_index as int].last().rank == if p2.depot_index == 0 {
            l.piles[p2.depot_index as int].last().rank + 1
        } else {
            l.piles[p2.depot_index as int].last().rank - 1
        },
    ensures
        move_legal(l, p1, p2),
{
}

/// The first foundation offered that takes the cards is found.
proof fn lemma_first_fit_finds(l: Layout, pos: BoardPos, homes: Seq<usize>, h: usize)
    requires
        homes.contains(h),
        move_legal(l, pos, top_of(l, h)),
    ensures
        first_fit(l, pos, homes) is Some,
    decreases homes.len(),
{
    if !move_legal(l, pos, top_of(l, homes[0])) {
        let j = choose|j: int| 0 <= j < homes.len() && homes[j] == h;
        assert(j > 0);
        assert(homes.drop_first()[j - 1] == h);
        lemma_first_fit_finds(l, pos, homes.drop_first(), h);
    }
}

/// A double click sends cards home whenever a foundation of theirs takes them:
/// a common card to any of the four common foundations, a trump to either trump
/// foundation. The cards move onto one such foundation that takes them, and the
/// move is recorded with an undo mark.
pub proof fn law_double_click_sends_home(a: GameState, b: GameState, pos: BoardPos, h: usize)
    requires
        !a.busy(),
        selectable(a.board@.layout.piles, pos),
        ({
            let c = a.board@.layout.piles[pos.depot_index as int][pos.card_index as int];
            if c.suit == Suit::Trump {
                h == 0 || h == 1
            } else {
                DepotRole::CommonHome.holds(h as int)
            }
        }),
        move_legal(a.board@.layout, pos, top_of(a.board@.layout, h)),
        double_click_outcome(a, b, pos),
    ensures
        exists|f: usize|
            #![trigger top_of(a.board@.layout, f)]
            (f == 0 || f == 1 || DepotRole::CommonHome.holds(f as int)) && move_legal(
                a.board@.layout,
                pos,
                top_of(a.board@.layout, f),
            ) && intent_outcome(a, b, pos, top_of(a.board@.layout, f)),
        b.undo_stack@ == a.undo_stack@.push(a.history@.len() as usize),
        b.history@.len() > a.history@.len(),
{
    let l = a.board@.layout;
    let c = l.piles[pos.depot_index as int][pos.card_index as int];
    let homes = homes_for(c);
    if c.suit == Suit::Trump {
        assert(homes[h as int] == h);
    } else {
        assert(homes[h - 3] == h);
    }
    lemma_first_fit_finds(l, pos, homes, h);
    lemma_first_fit_offered(l, pos, homes);
    let f = first_fit(l, pos, homes)->0;
    let j = choose|j: int| 0 <= j < homes.len() && homes[j] == f;
    assert(f == 0 || f == 1 || DepotRole::CommonHome.holds(f as int));
    assert(intent_outcome(a, b, pos, top_of(l, f)));
    let recs = move_records(l, pos, top_of(l, f));
    assert(recs.len() >= 1);
}

/// The move that completes the trumps fills the place of the last trump: when
/// the trumps on the two trump foundations and the cards moved onto one of them
/// make every trump, the lowest of the moved cards goes to the place of the
/// last trump and the others land on the foundation; the move is recorded with
/// an undo mark.
pub proof fn law_completing_move_fills_last_trump_place(
    a: GameState,
    b: GameState,
    p1: BoardPos,
    p2: BoardPos,
)
    requires
        a.board@.layout.piles.len() == NUM_DEPOTS,
        p1.depot_index < NUM_DEPOTS,
        move_legal(a.board@.layout, p1, p2),
        p2.depot_index < 2,
        p1.card_index < a.board@.layout.piles[p1.depot_index as int].len(),
        a.board@.layout.piles[0].len() + a.board@.layout.piles[1].len() + (a.board@.layout.piles[p1.depot_index as int].len()
            - p1.card_index) == NUM_TRUMPS,
        a.board@.layout.piles[2].len() <= usize::MAX,
        a.board@.layout.piles[p1.depot_index as int].len() <= usize::MAX,
        intent_outcome(a, b, p1, p2),
    ensures
        b.board@.layout.piles[2] == a.board@.layout.piles[2].push(
            a.board@.layout.piles[p1.depot_index as int][p1.card_index as int],
        ),
        b.board@.layout.piles[p2.depot_index as int] == a.board@.layout.piles[p2.depot_index as int]
            + a.board@.layout.piles[p1.depot_index as int].skip(p1.card_index + 1).reverse(),
        b.board@.layout.piles[p1.depot_index as int] == a.board@.layout.piles[p1.depot_index as int].take(
            p1.card_index as int,
        ),
        b.undo_stack@ == a.undo_stack@.push(a.history@.len() as usize),
        b.history@.len() > a.history@.len(),
{
    let l = a.board@.layout;
    let d1 = p1.depot_index;
    let c = p1.card_index as int;
    let src = l.piles[d1 as int];
    let n = src.len() - c;
    let recs = move_records(l, p1, p2);
    let top2 = BoardPos { depot_index: 2usize, card_index: l.piles[2].len() as usize };
    let to_last = ActionRecord::Move { pos1: p1, pos2: top2 };
    let e: Seq<ActionRecord> = Seq::empty();
    assert(completes_trumps(l, p1, p2));
    assert(d1 != 2);
    lemma_applied_all_layout(a.board@, recs);
    let moves = if n > 1 {
        let p1b = BoardPos { depot_index: d1, card_index: (c + 1) as usize };
        let m1 = ActionRecord::Move { pos1: p1b, pos2: p2 };
        let s1 = e.push(m1);
        let s2 = s1.push(to_last);
        assert(s2 =~= seq![m1, to_last]);
        assert(s2.drop_last() =~= s1);
        assert(s1.drop_last() =~= e);
        let l1 = l.moved(p1b, p2);
        assert(replay(l, e) == l);
        lemma_replay_push(l, e, m1);
        lemma_replay_push(l, s1, to_last);
        assert(replay(l, s1) == l1);
        assert(replay(l, s2) == l1.moved(p1, top2));
        assert(l1.piles[2] == l.piles[2]);
        assert(l1.piles[d1 as int] == src.take(c + 1));
        assert(src.take(c + 1).skip(c) =~= seq![src[c]]);
        assert(src.take(c + 1).take(c) =~= src.take(c));
        assert(seq![src[c]].reverse() =~= seq![src[c]]);
        assert(l.piles[2] + seq![src[c]] =~= l.piles[2].push(src[c]));
        s2
    } else {
        let s1 = e.push(to_last);
        assert(s1 =~= seq![to_last]);
        assert(replay(l, e) == l);
        lemma_replay_push(l, e, to_last);
        assert(replay(l, s1) == l.moved(p1, top2));
        assert(src.skip(c) =~= seq![src[c]]);
        assert(src.skip(c + 1) =~= Seq::<Card>::empty());
        assert(seq![src[c]].reverse() =~= seq![src[c]]);
        assert(Seq::<Card>::empty().reverse() =~= Seq::<Card>::empty());
        assert(l.piles[2] + seq![src[c]] =~= l.piles[2].push(src[c]));
        assert(l.piles[p2.depot_index as int] + Seq::<Card>::empty() =~= l.piles[p2.depot_index as int]);
        s1
    };
    if d1 == FREECELL_SINGLE_USE {
        let r = ActionRecord::FreeCellSingleUsed;
        assert(recs == moves.push(r));
        assert(recs.drop_last() =~= moves);
        assert(replay(l, recs).piles == replay(l, moves).piles);
    } else {
        assert(recs == moves);
    }
}

/// The top card of a tableau column, and the card of a free cell, can always be
/// picked up; no card of a foundation or of the place of the last trump can be.
pub proof fn law_what_can_be_picked_up(piles: Seq<Seq<Card>>, pos: BoardPos)
    requires
        pos.depot_index < NUM_DEPOTS,
    ensures
        (DepotRole::Tableau.holds(pos.depot_index as int) || DepotRole::FreeCell.holds(pos.depot_index as int))
            && pos.card_index + 1 == piles[pos.depot_index as int].len() ==> selectable(piles, pos),
        pos.depot_index < 7 ==> !selectable(piles, pos),
        pos.card_index >= piles[pos.depot_index as int].len() ==> !selectable(piles, pos),
{
}

/// A click with nothing selected selects the cards clicked when they can be
/// picked up, and changes nothing else; a click on the selection clears it.
pub proof fn law_click_selects_and_clears(a: GameState, b: GameState, pos: BoardPos)
    requires
        !a.busy(),
        click_outcome(a, b, pos),
    ensures
        a.board@.selected is None && selectable(a.board@.layout.piles, pos) ==> b.board@.selected == Some(pos),
        a.board@.selected is None && !selectable(a.board@.layout.piles, pos) ==> b.board@.selected is None,
        a.board@.selected == Some(pos) ==> b.board@.selected is None,
        a.board@.selected matches Some(src) && src != pos && src.depot_index == pos.depot_index
            && selectable(a.board@.layout.piles, pos) ==> b.board@.selected == Some(pos)
            && b.board@.layout == a.board@.layout,
        a.board@.selected is None || a.board@.selected == Some(pos) ==> b.board@.layout == a.board@.layout
            && b.history@ == a.history@ && b.undo_stack@ == a.undo_stack@,
{
}

/// A game's first win is counted: when the end of the current animation step
/// leaves the board won in a game not yet won, the wins go up by one and the
/// game is marked won.
pub proof fn law_first_win_counts(a: GameState, b: GameState, saved: bool)
    requires
        !a.already_won,
        won(a.board@.advanced().layout.piles),
        advance_outcome(a, b, a.animation_key, saved),
    ensures
        b.num_wins == a.num_wins + 1,
        b.already_won,
        won(b.board@.layout.piles),
{
}

/// No card is dealt to the middle tableau column.
proof fn lemma_middle_column_dealt_empty(deal: Seq<Card>)
    ensures
        dealt(deal).piles[DepotRole::Tableau.start_of() + EMPTY_COLUMN] == Seq::<Card>::empty(),
    decreases deal.len(),
{
    if deal.len() > 0 {
        lemma_middle_column_dealt_empty(deal.drop_last());
        lemma_dealt_shape(deal.drop_last());
    }
}

/// A shuffled deck is dealt with every ace alone on the foundation of its suit,
/// the trump places and the free cells empty, and the middle tableau column empty.
pub proof fn law_deal_puts_aces_home(deal: Seq<Card>)
    requires
        deal.to_multiset() == standard_deck().to_multiset(),
    ensures
        forall|d: int| #[trigger] DepotRole::CommonHome.holds(d) ==> dealt(deal).piles[d] == seq![home_ace(d)],
        forall|d: int| 0 <= d < 3 || DepotRole::FreeCell.holds(d) ==> (#[trigger] dealt(deal).piles[d]).len() == 0,
        dealt(deal).piles[DepotRole::Tableau.start_of() + EMPTY_COLUMN].len() == 0,
{
    lemma_dealt_shape(deal);
    lemma_middle_column_dealt_empty(deal);
    lemma_standard_counts();
    assert forall|d: int| #[trigger] DepotRole::CommonHome.holds(d) implies dealt(deal).piles[d] == seq![home_ace(d)] by {
        lemma_dealt_home(deal, d);
        assert(is_deck_card(home_ace(d)));
        assert(dealt(deal).piles[d] =~= seq![home_ace(d)]);
    }
}

/// A tableau run can be picked up exactly when each of its cards has the suit
/// of the card just below it and a rank one apart from it.
pub proof fn law_tableau_runs_picked_up(piles: Seq<Seq<Card>>, pos: BoardPos)
    requires
        DepotRole::Tableau.holds(pos.depot_index as int),
        pos.card_index < piles[pos.depot_index as int].len(),
    ensures
        selectable(piles, pos) <==> forall|i: int, j: int|
            #![trigger piles[pos.depot_index as int][i], piles[pos.depot_index as int][j]]
            pos.card_index <= i && j == i + 1 && j < piles[pos.depot_index as int].len()
                ==> piles[pos.depot_index as int][j].suit == piles[pos.depot_index as int][i].suit
                && (piles[pos.depot_index as int][j].rank == piles[pos.depot_index as int][i].rank + 1
                || piles[pos.depot_index as int][j].rank + 1 == piles[pos.depot_index as int][i].rank),
{
    let pile = piles[pos.depot_index as int];
    let c = pos.card_index as int;
    if selectable(piles, pos) {
        assert forall|i: int, j: int| #![trigger pile[i], pile[j]] c <= i && j == i + 1 && j < pile.len() implies pile[j].suit
            == pile[i].suit && (pile[j].rank == pile[i].rank + 1 || pile[j].rank + 1 == pile[i].rank) by {
            assert(stacks(pile[i], pile[i + 1]));
        }
    }
    if forall|i: int, j: int| #![trigger pile[i], pile[j]] c <= i && j == i + 1 && j < pile.len() ==> pile[j].suit
        == pile[i].suit && (pile[j].rank == pile[i].rank + 1 || pile[j].rank + 1 == pile[i].rank) {
        assert forall|i: int| c <= i < pile.len() - 1 implies #[trigger] stacks(pile[i], pile[i + 1]) by {
            let j = i + 1;
            assert(pile[j].suit == pile[i].suit);
        }
    }
}

} // verus!
