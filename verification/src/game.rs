//! The game: moves, selection, automatic sorting, undo and winning.
use vstd::prelude::*;

use crate::board::{
    Board, BoardPos, DepotRole, Layout, NUM_DEPOTS, FREECELL_BLOCKS_COMMON, FREECELL_BLOCKS_TRUMP,
    FREECELL_SINGLE_USE, applied_all, dealt, lemma_applied_all_layout, lemma_dealt_shape,
    lemma_replay_concat, lemma_replay_ok_cells, lemma_replay_ok_prefix, lemma_replay_push,
    lemma_revert_undoes, replay,
    replay_ok, revertible, role_of, undone,
};
use crate::card::{
    Card, Suit, DECK_SIZE, RANK_MIN, common_suit_at, NUM_RANKS, NUM_TRUMPS, TRUMP_RANK_MAX, TRUMP_RANK_MIN, is_deck_card,
    law_standard_deck, standard_deck, unshuffled_deck,
};
use crate::laws::{
    lemma_history_sound_dealt, lemma_history_sound_prefix, lemma_move_keeps_history_sound,
};
use crate::shuffle::{shuffle_cards, thread_rng};
use rand::rngs::ThreadRng;

verus! {

/// Key that the animator hands back when an animation step is over.
pub type AnimationKey = u16;

/// One entry of the move history.
#[derive(Clone, Copy, Debug, PartialEq, Eq, Structural, Hash)]
pub enum ActionRecord {
    /// Cards moved from `pos1` up onto `pos2`.
    Move { pos1: BoardPos, pos2: BoardPos },
    /// The single-use free cell was used up.
    FreeCellSingleUsed,
}

/// Which screen is shown.
#[derive(Clone, Copy, Debug, PartialEq, Eq, Structural, Hash)]
pub enum ScreenState {
    Game,
    Settings,
    Help,
}

impl Default for ScreenState {
    fn default() -> (r: ScreenState)
        ensures
            r == ScreenState::Game,
    {
        ScreenState::Game
    }
}

/// The look of the cards.
#[derive(Clone, Copy, Debug, PartialEq, Eq, Structural, Hash)]
pub enum Skin {
    Classic,
}

impl Default for Skin {
    fn default() -> (r: Skin)
        ensures
            r == Skin::Classic,
    {
        Skin::Classic
    }
}

/// The whole state of a game session.
#[derive(Clone, Debug, PartialEq, Eq)]
pub struct GameState {
    pub board: Board,
    pub deal: Vec<Card>,
    pub animation_key: AnimationKey,
    pub history: Vec<ActionRecord>,
    pub undo_stack: Vec<usize>,
    pub already_won: bool,
    pub num_wins: i32,
    pub screen_state: ScreenState,
    pub allow_undo: bool,
    pub skin: Skin,
}

/// `front` may lie on `back`: same suit, ranks one apart either way.
pub open spec fn stacks(back: Card, front: Card) -> bool {
    back.suit == front.suit && (back.rank == front.rank + 1 || front.rank == back.rank + 1)
}

/// The cards of `pos` and up may be picked up: a card of a free cell, or a run of
/// a tableau column in which each card stacks on the one below.
pub open spec fn selectable(piles: Seq<Seq<Card>>, pos: BoardPos) -> bool {
    let pile = piles[pos.depot_index as int];
    &&& pos.card_index < pile.len()
    &&& match role_of(pos.depot_index as int) {
        Some(DepotRole::FreeCell) => pile.len() - pos.card_index <= 1,
        Some(DepotRole::Tableau) => forall|i: int|
            pos.card_index <= i < pile.len() - 1 ==> #[trigger] stacks(pile[i], pile[i + 1]),
        _ => false,
    }
}

/// The game is won: the last trump lies on its place and every common foundation is full.
pub open spec fn won(piles: Seq<Seq<Card>>) -> bool {
    &&& piles[DepotRole::TrumpLast.start_of()].len() > 0
    &&& forall|d: int| #[trigger] DepotRole::CommonHome.holds(d) ==> piles[d].len() == NUM_RANKS
}

/// The card that must open the trump foundation of `role` when it is empty.
pub open spec fn trump_opener(role: DepotRole) -> Card {
    Card {
        rank: if role == DepotRole::TrumpLow {
            TRUMP_RANK_MIN
        } else {
            TRUMP_RANK_MAX
        },
        suit: Suit::Trump,
    }
}

/// `front` goes on `top` one rank up in the same suit.
pub open spec fn builds_up(top: Card, front: Card) -> bool {
    front.suit == top.suit && front.rank == top.rank + 1
}

/// `front` goes on `top` one rank down in the same suit.
pub open spec fn builds_down(top: Card, front: Card) -> bool {
    front.suit == top.suit && front.rank + 1 == top.rank
}

/// Moving the cards of `p1` and up onto `p2` is allowed: `p2` is just above the
/// top of another depot, a move that completes the trumps does not start on the
/// place of the last trump (where its last card goes), and by the role of the
/// target depot, with `front` the top card of `p1`'s depot (the first to move):
/// - the low trump foundation: the left free cell is empty, and `front` is the
///   lowest trump on an empty foundation, or one rank above the foundation's top;
/// - the high trump foundation: likewise, from the highest trump down;
/// - the place of the last trump: never;
/// - a common foundation: the right free cell is empty, `front` is a common
///   card, and it is an ace on an empty foundation or one rank above the
///   foundation's top card of its suit;
/// - a free cell: the cards do not come from a free cell, the cell is empty and
///   not the used-up single-use cell, and exactly one card moves;
/// - a tableau column: `front` stacks on the column's top card, or the column is empty.
pub open spec fn move_legal(l: Layout, p1: BoardPos, p2: BoardPos) -> bool {
    let src = l.piles[p1.depot_index as int];
    let dst = l.piles[p2.depot_index as int];
    let front = src.last();
    &&& p1.depot_index != p2.depot_index
    &&& p2.card_index == dst.len()
    &&& src.len() > 0
    &&& completes_trumps(l, p1, p2) ==> p1.depot_index != DepotRole::TrumpLast.start_of()
    &&& match role_of(p2.depot_index as int) {
        Some(DepotRole::TrumpLow) => l.piles[FREECELL_BLOCKS_TRUMP as int].len() == 0 && if dst.len()
            > 0 {
            builds_up(dst.last(), front)
        } else {
            front == trump_opener(DepotRole::TrumpLow)
        },
        Some(DepotRole::TrumpHigh) => l.piles[FREECELL_BLOCKS_TRUMP as int].len() == 0 && if dst.len()
            > 0 {
            builds_down(dst.last(), front)
        } else {
            front == trump_opener(DepotRole::TrumpHigh)
        },
        Some(DepotRole::TrumpLast) => false,
        Some(DepotRole::CommonHome) => {
            &&& l.piles[FREECELL_BLOCKS_COMMON as int].len() == 0
            &&& front.suit != Suit::Trump
            &&& if dst.len() > 0 {
                builds_up(dst.last(), front)
            } else {
                front.rank == RANK_MIN
            }
        },
        Some(DepotRole::FreeCell) => {
            &&& role_of(p1.depot_index as int) != Some(DepotRole::FreeCell)
            &&& !(p2.depot_index == FREECELL_SINGLE_USE && l.single_used)
            &&& src.len() - p1.card_index == 1
            &&& dst.len() == 0
        },
        Some(DepotRole::Tableau) => dst.len() == 0 || stacks(dst.last(), front),
        None => false,
    }
}

/// The move goes to a trump foundation and, with the cards moved, every trump
/// would lie on the two trump foundations.
pub open spec fn completes_trumps(l: Layout, p1: BoardPos, p2: BoardPos) -> bool {
    &&& (role_of(p2.depot_index as int) == Some(DepotRole::TrumpLow) || role_of(
        p2.depot_index as int,
    ) == Some(DepotRole::TrumpHigh))
    &&& l.piles[0].len() + l.piles[1].len() + (l.piles[p1.depot_index as int].len()
        - p1.card_index) == NUM_TRUMPS
}

/// The history entries of an allowed move. When the move completes the trumps,
/// the lowest of the moved cards (the last one to move) goes to the place of the
/// last trump instead; when no card lies at or above `p1` nothing moves; moving
/// out of the single-use free cell uses it up.
pub open spec fn move_records(l: Layout, p1: BoardPos, p2: BoardPos) -> Seq<ActionRecord> {
    let n = l.piles[p1.depot_index as int].len() - p1.card_index;
    let to_last = ActionRecord::Move {
        pos1: p1,
        pos2: BoardPos { depot_index: 2usize, card_index: l.piles[2].len() as usize },
    };
    let moves = if completes_trumps(l, p1, p2) {
        if n > 1 {
            seq![
                ActionRecord::Move {
                    pos1: BoardPos {
                        depot_index: p1.depot_index,
                        card_index: (p1.card_index + 1) as usize,
                    },
                    pos2: p2,
                },
                to_last,
            ]
        } else {
            seq![to_last]
        }
    } else if n > 0 {
        seq![ActionRecord::Move { pos1: p1, pos2: p2 }]
    } else {
        seq![]
    };
    if p1.depot_index == FREECELL_SINGLE_USE {
        moves.push(ActionRecord::FreeCellSingleUsed)
    } else {
        moves
    }
}

/// The move can be carried out as recorded: when it is allowed and completes the
/// trumps, at least one card is picked up (the last of them goes to the place
/// of the last trump).
pub open spec fn move_guard(l: Layout, p1: BoardPos, p2: BoardPos) -> bool {
    move_legal(l, p1, p2) && completes_trumps(l, p1, p2) ==> p1.card_index
        < l.piles[p1.depot_index as int].len()
}

/// `b` keeps the deal, the animation key, the win record and the settings of `a`.
pub open spec fn same_settings(a: GameState, b: GameState) -> bool {
    &&& b.deal@ == a.deal@
    &&& b.animation_key == a.animation_key
    &&& b.already_won == a.already_won
    &&& b.num_wins == a.num_wins
    &&& b.screen_state == a.screen_state
    &&& b.allow_undo == a.allow_undo
    &&& b.skin == a.skin
}

/// `b` is `a` unchanged.
pub open spec fn same_play(a: GameState, b: GameState) -> bool {
    &&& same_settings(a, b)
    &&& b.board@ == a.board@
    &&& b.history@ == a.history@
    &&& b.undo_stack@ == a.undo_stack@
}

/// `b` is what trying to move the cards of `p1` onto `p2` makes of `a`: when the
/// move is allowed its entries are carried out and recorded, and an undo mark
/// is set at the history's former length; otherwise nothing changes.
pub open spec fn intent_outcome(a: GameState, b: GameState, p1: BoardPos, p2: BoardPos) -> bool {
    if move_legal(a.board@.layout, p1, p2) {
        let recs = move_records(a.board@.layout, p1, p2);
        &&& same_settings(a, b)
        &&& b.board@ == applied_all(a.board@, recs)
        &&& b.history@ == a.history@ + recs
        &&& b.undo_stack@ == a.undo_stack@.push(a.history@.len() as usize)
    } else {
        same_play(a, b)
    }
}

/// An allowed move of at least one card records actions that can be carried
/// out one after the other, and every layout along the way keeps the free-cell rules.
pub proof fn lemma_move_records_ok(l: Layout, p1: BoardPos, p2: BoardPos)
    requires
        l.cells_ok(),
        p1.depot_index < NUM_DEPOTS,
        p1.card_index < l.piles[p1.depot_index as int].len(),
        p2.depot_index < NUM_DEPOTS,
        move_legal(l, p1, p2),
        move_guard(l, p1, p2),
        l.piles[2].len() <= usize::MAX,
        l.piles[p1.depot_index as int].len() <= usize::MAX,
    ensures
        replay_ok(l, move_records(l, p1, p2)),
{
    let recs = move_records(l, p1, p2);
    let d1 = p1.depot_index;
    let c = p1.card_index;
    let n = l.piles[d1 as int].len() - c;
    let e: Seq<ActionRecord> = Seq::empty();
    assert(replay_ok(l, e));
    let to_last = ActionRecord::Move {
        pos1: p1,
        pos2: BoardPos { depot_index: 2usize, card_index: l.piles[2].len() as usize },
    };
    let mut moves: Seq<ActionRecord> = e;
    if completes_trumps(l, p1, p2) {
        if n > 1 {
            let p1b = BoardPos { depot_index: d1, card_index: (c + 1) as usize };
            let m1 = ActionRecord::Move { pos1: p1b, pos2: p2 };
            lemma_replay_push(l, e, m1);
            let l1 = l.moved(p1b, p2);
            assert(l1.cells_ok());
            let s1 = e.push(m1);
            assert(replay(l, s1) == l1);
            lemma_replay_push(l, s1, to_last);
            assert(d1 != 2);
            assert(l1.piles[2] == l.piles[2]);
            assert(d1 < NUM_DEPOTS);
            assert(l1.step_ok(to_last));
            let l2 = l1.moved(p1, BoardPos { depot_index: 2usize, card_index: l.piles[2].len() as usize });
            assert(l2.cells_ok());
            assert(replay_ok(l, s1.push(to_last)));
            moves = s1.push(to_last);
            assert(moves =~= seq![m1, to_last]);
        } else {
            lemma_replay_push(l, e, to_last);
            let l1 = l.moved(p1, BoardPos { depot_index: 2usize, card_index: l.piles[2].len() as usize });
            if DepotRole::FreeCell.holds(d1 as int) {
                assert(l1.piles[d1 as int] =~= Seq::<Card>::empty());
            }
            assert(l1.cells_ok());
            assert(replay_ok(l, e.push(to_last)));
            moves = e.push(to_last);
            assert(moves =~= seq![to_last]);
        }
    } else {
        let m = ActionRecord::Move { pos1: p1, pos2: p2 };
        lemma_replay_push(l, e, m);
        let l1 = l.moved(p1, p2);
        if DepotRole::FreeCell.holds(d1 as int) {
            assert(l1.piles[d1 as int] =~= Seq::<Card>::empty());
        }
        assert(l1.cells_ok());
        assert(replay_ok(l, e.push(m)));
        moves = e.push(m);
        assert(moves =~= seq![m]);
    }
    assert(replay_ok(l, moves));
    if d1 == FREECELL_SINGLE_USE {
        assert(DepotRole::FreeCell.holds(d1 as int));
        assert(n == 1);
        assert(!l.single_used);
        assert(replay(l, moves).single_used == l.single_used);
        assert(replay(l, moves).piles[d1 as int].len() == 0);
        lemma_replay_push(l, moves, ActionRecord::FreeCellSingleUsed);
        assert(recs == moves.push(ActionRecord::FreeCellSingleUsed));
    } else {
        assert(recs == moves);
    }
}

/// Recording an allowed move keeps the history replayable, and the replayed
/// layout is the board's layout after the move.
pub proof fn lemma_move_extends_history(
    start: Layout,
    hist: Seq<ActionRecord>,
    b: crate::board::BoardView,
    p1: BoardPos,
    p2: BoardPos,
)
    requires
        replay_ok(start, hist),
        b.layout == replay(start, hist),
        p1.depot_index < NUM_DEPOTS,
        p1.card_index < b.layout.piles[p1.depot_index as int].len(),
        p2.depot_index < NUM_DEPOTS,
        move_legal(b.layout, p1, p2),
        move_guard(b.layout, p1, p2),
        b.layout.piles[2].len() <= usize::MAX,
        b.layout.piles[p1.depot_index as int].len() <= usize::MAX,
    ensures
        replay_ok(start, hist + move_records(b.layout, p1, p2)),
        replay(start, hist + move_records(b.layout, p1, p2)) == applied_all(
            b,
            move_records(b.layout, p1, p2),
        ).layout,
{
    let recs = move_records(b.layout, p1, p2);
    lemma_replay_ok_cells(start, hist);
    lemma_move_records_ok(b.layout, p1, p2);
    lemma_replay_concat(start, hist, recs);
    lemma_applied_all_layout(b, recs);
}

/// The card index just above `c`, wrapping past the largest index to zero.
pub open spec fn next_index(c: usize) -> usize {
    if c == usize::MAX {
        0
    } else {
        (c + 1) as usize
    }
}

/// The position just above the top card of depot `d`.
pub open spec fn top_of(l: Layout, d: usize) -> BoardPos {
    BoardPos { depot_index: d, card_index: l.piles[d as int].len() as usize }
}

/// `b` is `a` with the selection set to `sel` and nothing else changed.
pub open spec fn selection_set(a: GameState, b: GameState, sel: Option<BoardPos>) -> bool {
    &&& same_settings(a, b)
    &&& b.board@ == crate::board::BoardView { selected: sel, ..a.board@ }
    &&& b.history@ == a.history@
    &&& b.undo_stack@ == a.undo_stack@
}

/// `b` is what a click on `pos` makes of `a`. While animations play nothing
/// changes. With a selection: a click on it clears it; a click on another
/// selectable position of the same depot selects that one; any other click tries
/// to move the selected cards onto the position just above the clicked one. With
/// no selection, a click on a selectable position selects it.
pub open spec fn click_outcome(a: GameState, b: GameState, pos: BoardPos) -> bool {
    if a.busy() {
        same_play(a, b)
    } else {
        match a.board@.selected {
            Some(src) => if pos == src {
                selection_set(a, b, None)
            } else if src.depot_index == pos.depot_index && selectable(a.board@.layout.piles, pos) {
                selection_set(a, b, Some(pos))
            } else {
                intent_outcome(
                    a,
                    b,
                    src,
                    BoardPos { depot_index: pos.depot_index, card_index: next_index(pos.card_index) },
                )
            },
            None => if selectable(a.board@.layout.piles, pos) {
                selection_set(a, b, Some(pos))
            } else {
                same_play(a, b)
            },
        }
    }
}

/// The first of `homes` onto whose top the cards of `pos` may move.
pub open spec fn first_fit(l: Layout, pos: BoardPos, homes: Seq<usize>) -> Option<usize>
    decreases homes.len(),
{
    if homes.len() == 0 {
        None
    } else if move_legal(l, pos, top_of(l, homes[0])) {
        Some(homes[0])
    } else {
        first_fit(l, pos, homes.drop_first())
    }
}

/// `b` is what sorting the cards of `pos` to the first fitting of `homes` makes of `a`.
pub open spec fn sort_outcome(a: GameState, b: GameState, pos: BoardPos, homes: Seq<usize>) -> bool {
    match first_fit(a.board@.layout, pos, homes) {
        Some(h) => intent_outcome(a, b, pos, top_of(a.board@.layout, h)),
        None => same_play(a, b),
    }
}

/// The foundations a card is sorted to on a double click: the two trump
/// foundations for a trump, the four common foundations otherwise.
pub open spec fn homes_for(c: Card) -> Seq<usize> {
    if c.suit == Suit::Trump {
        seq![0usize, 1usize]
    } else {
        seq![3usize, 4usize, 5usize, 6usize]
    }
}

/// `b` is what a double click on `pos` makes of `a`: nothing while animations
/// play or when `pos` cannot be selected; otherwise the cards are sorted to the
/// first foundation that takes them, if any.
pub open spec fn double_click_outcome(a: GameState, b: GameState, pos: BoardPos) -> bool {
    if a.busy() || !selectable(a.board@.layout.piles, pos) {
        same_play(a, b)
    } else {
        sort_outcome(
            a,
            b,
            pos,
            homes_for(a.board@.layout.piles[pos.depot_index as int][pos.card_index as int]),
        )
    }
}

/// The animation key after `k`, wrapping past the largest key to zero.
pub open spec fn next_key(k: AnimationKey) -> AnimationKey {
    if k == u16::MAX {
        0
    } else {
        (k + 1) as u16
    }
}

/// The end of the animation step with `key` counts a first win in this game.
pub open spec fn counts_a_win(a: GameState, key: AnimationKey) -> bool {
    key == a.animation_key && !a.already_won && won(a.board@.advanced().layout.piles)
}

/// `b` is what the end of an animation step with `key` makes of `a`, and `saved`
/// says whether the state is to be saved. A stale key changes nothing. Otherwise
/// the key moves on, one pending animation is dropped, a first win in this game
/// is counted, and the state is to be saved once no animation is pending.
pub open spec fn advance_outcome(a: GameState, b: GameState, key: AnimationKey, saved: bool) -> bool {
    if key != a.animation_key {
        same_play(a, b) && !saved
    } else {
        let bv = a.board@.advanced();
        let newly_won = won(bv.layout.piles) && !a.already_won;
        &&& b.board@ == bv
        &&& b.animation_key == next_key(a.animation_key)
        &&& b.already_won == (a.already_won || won(bv.layout.piles))
        &&& b.num_wins == if newly_won {
            a.num_wins + 1
        } else {
            a.num_wins as int
        }
        &&& b.deal@ == a.deal@
        &&& b.history@ == a.history@
        &&& b.undo_stack@ == a.undo_stack@
        &&& b.screen_state == a.screen_state
        &&& b.allow_undo == a.allow_undo
        &&& b.skin == a.skin
        &&& saved == (bv.acts.len() == 0)
    }
}

/// `b` is what a restart makes of `a`: when there is a move to undo and undo is
/// allowed, the board is dealt again from the same deal and the history and undo
/// marks are cleared; otherwise nothing changes. `saved` says whether the state
/// is to be saved.
pub open spec fn restart_outcome(a: GameState, b: GameState, saved: bool) -> bool {
    if a.history@.len() == 0 || !a.can_undo() {
        same_play(a, b) && !saved
    } else {
        &&& same_settings(a, b)
        &&& b.board@ == crate::board::BoardView {
            layout: dealt(a.deal@),
            selected: None,
            acts: Seq::empty(),
        }
        &&& b.history@ == Seq::<ActionRecord>::empty()
        &&& b.undo_stack@ == Seq::<usize>::empty()
        &&& saved
    }
}

/// `b` is what an undo makes of `a`: unless animations play or nothing can be
/// undone, the last undo mark is taken off and the history is taken back, newest
/// first, down to that mark (all of it is kept when the mark lies beyond its
/// end). `saved` says whether the state is to be saved.
pub open spec fn undo_outcome(a: GameState, b: GameState, saved: bool) -> bool {
    if a.busy() || !a.can_undo() {
        same_play(a, b) && !saved
    } else {
        let t = a.undo_stack@.last();
        let kept = if t <= a.history@.len() {
            t as int
        } else {
            a.history@.len() as int
        };
        &&& same_settings(a, b)
        &&& b.undo_stack@ == a.undo_stack@.drop_last()
        &&& b.history@ == a.history@.take(kept)
        &&& b.board@ == undone(a.board@, a.history@, t as nat)
        &&& saved
    }
}

/// An undo can be carried out: when it acts, the board has one pile per depot
/// and the moves back to the last undo mark can be taken back on it.
pub open spec fn undo_ok(a: GameState) -> bool {
    !a.busy() && a.can_undo() ==> a.board.depots@.len() == NUM_DEPOTS && revertible(
        a.board@,
        a.history@,
        a.undo_stack@.last() as nat,
    )
}

/// The undo marks rise strictly and each lies before the end of a history of
/// `len` entries: every mark starts a move that recorded at least one entry.
pub open spec fn marks_ok(marks: Seq<usize>, len: nat) -> bool {
    &&& forall|i: int, j: int| 0 <= i < j < marks.len() ==> marks[i] < marks[j]
    &&& forall|i: int| 0 <= i < marks.len() ==> #[trigger] marks[i] < len
}

/// The foundations whose cards follow a fixed order: the two trump
/// foundations and the four common foundations.
pub open spec fn is_built_home(d: int) -> bool {
    d == 0 || d == 1 || DepotRole::CommonHome.holds(d)
}

/// The suit of the cards of foundation `d`: trumps on the trump places, the
/// common suit of its position on a common foundation.
pub open spec fn home_suit(d: int) -> Suit {
    if d < 3 {
        Suit::Trump
    } else {
        common_suit_at(d - 3)
    }
}

/// The rank of the `i`-th card from the bottom of foundation `d` built by the
/// rules: up from the lowest trump, down from the highest, up from the ace.
pub open spec fn home_rank(d: int, i: int) -> int {
    if d == 0 {
        TRUMP_RANK_MIN + i
    } else if d == 1 {
        TRUMP_RANK_MAX - i
    } else {
        RANK_MIN + i
    }
}

/// Every foundation holds a build by the rules, the place of the last trump
/// holds trumps only, and every common foundation holds at least its ace.
pub open spec fn builds_ok(l: Layout) -> bool {
    &&& forall|d: int, i: int|
        is_built_home(d) && 0 <= i < l.piles[d].len() ==> (#[trigger] l.piles[d][i]).suit
            == home_suit(d) && l.piles[d][i].rank == home_rank(d, i)
    &&& forall|i: int| 0 <= i < l.piles[2].len() ==> (#[trigger] l.piles[2][i]).suit == Suit::Trump
    &&& forall|d: int| #[trigger] DepotRole::CommonHome.holds(d) ==> l.piles[d].len() > 0
}

/// The foundations are built by the rules; the two trump foundations never
/// hold every trump while the place of the last trump is empty, and once it is
/// filled the three trump places hold every trump.
pub open spec fn foundations_built(l: Layout) -> bool {
    &&& builds_ok(l)
    &&& l.piles[2].len() == 0 ==> l.piles[0].len() + l.piles[1].len() < NUM_TRUMPS
    &&& l.piles[2].len() > 0 ==> l.piles[0].len() + l.piles[1].len() + l.piles[2].len() == NUM_TRUMPS
}

/// Every layout along the history, from `start` on, has its foundations built by the rules.
pub open spec fn history_sound(start: Layout, hist: Seq<ActionRecord>) -> bool
    decreases hist.len(),
{
    &&& foundations_built(replay(start, hist))
    &&& hist.len() > 0 ==> history_sound(start, hist.drop_last())
}

/// A permutation of the deck holds every card of the deck exactly once.
pub proof fn lemma_shuffled_deck(d: Seq<Card>)
    requires
        d.to_multiset() == standard_deck().to_multiset(),
    ensures
        d.len() == DECK_SIZE,
        d.no_duplicates(),
        forall|c: Card| d.contains(c) <==> is_deck_card(c),
{
    broadcast use vstd::seq_lib::group_to_multiset_ensures;

    let s = standard_deck();
    law_standard_deck();
    s.lemma_multiset_has_no_duplicates();
    d.lemma_multiset_has_no_duplicates_conv();
    vstd::seq_lib::to_multiset_len(d);
    vstd::seq_lib::to_multiset_len(s);
    assert forall|c: Card| d.contains(c) <==> is_deck_card(c) by {
        assert(d.to_multiset().count(c) == s.to_multiset().count(c));
    }
}

/// Whether `high` lies one rank above `low` in the same suit.
fn follows_up(low: Card, high: Card) -> (r: bool)
    ensures
        r == builds_up(low, high),
{
    low.suit == high.suit && low.rank < 255 && high.rank == low.rank + 1
}

impl GameState {
    /// Animations are pending.
    pub open spec fn busy(&self) -> bool {
        self.board@.acts.len() > 0
    }

    /// There is a move to undo, and undo is allowed.
    pub open spec fn can_undo(&self) -> bool {
        self.allow_undo && self.undo_stack@.len() > 0
    }

    /// The board has one pile per depot and the selection, if any, is of cards
    /// that may be picked up.
    pub open spec fn ready(&self) -> bool {
        &&& self.board.wf()
        &&& self.board@.selected matches Some(p) ==> selectable(self.board@.layout.piles, p)
    }

    /// The board is ready, it is what the deal and the history make of it, the
    /// first undo mark is at the start of the history (and there is one as soon as
    /// there is a history), every recorded move can be taken back, and the undo
    /// marks point into the history in strictly increasing order.
    pub open spec fn wf(&self) -> bool {
        &&& self.ready()
        &&& replay_ok(dealt(self.deal@), self.history@)
        &&& self.board@.layout == replay(dealt(self.deal@), self.history@)
        &&& marks_ok(self.undo_stack@, self.history@.len())
        &&& self.undo_stack@.len() == 0 ==> self.history@.len() == 0
        &&& self.undo_stack@.len() > 0 ==> self.undo_stack@[0] == 0
    }

    /// The state is well formed, its deal is a shuffled deck, and along its
    /// history every layout kept its foundations built by the rules: what the
    /// game's own operations make of a new game.
    pub open spec fn sound(&self) -> bool {
        &&& self.wf()
        &&& self.deal@.to_multiset() == standard_deck().to_multiset()
        &&& history_sound(dealt(self.deal@), self.history@)
    }

    /// A freshly shuffled deck: every card of the deck exactly once, in an order
    /// chosen by `rng`.
    pub fn new_deal(rng: &mut ThreadRng) -> (deck: Vec<Card>)
        ensures
            deck@.to_multiset() == standard_deck().to_multiset(),
            deck@.len() == DECK_SIZE,
            deck@.no_duplicates(),
            forall|c: Card| deck@.contains(c) <==> is_deck_card(c),
    {
        let mut deck = unshuffled_deck();
        shuffle_cards(&mut deck, rng);
        proof {
            lemma_shuffled_deck(deck@);
        }
        deck
    }

    /// A session at the start of a new game, with no wins, undo allowed, and
    /// the game screen and the default skin shown.
    pub fn init() -> (g: GameState)
        ensures
            g.sound(),
            g.deal@.to_multiset() == standard_deck().to_multiset(),
            g.board@ == (crate::board::BoardView {
                layout: dealt(g.deal@),
                selected: None,
                acts: Seq::empty(),
            }),
            g.history@.len() == 0,
            g.undo_stack@.len() == 0,
            g.animation_key == 0,
            !g.already_won,
            g.num_wins == 0,
            g.screen_state == ScreenState::Game,
            g.allow_undo,
            g.skin == Skin::Classic,
    {
        let mut res = GameState {
            board: Board::empty(),
            deal: Vec::new(),
            animation_key: 0,
            history: Vec::new(),
            undo_stack: Vec::new(),
            already_won: false,
            num_wins: 0,
            screen_state: ScreenState::Game,
            allow_undo: true,
            skin: Skin::default(),
        };
        res.new_game();
        res
    }

    /// Starts a new game with a freshly shuffled deal.
    pub fn new_game(&mut self)
        ensures
            final(self).sound(),
            final(self).deal@.to_multiset() == standard_deck().to_multiset(),
            final(self).board@ == (crate::board::BoardView {
                layout: dealt(final(self).deal@),
                selected: None,
                acts: Seq::empty(),
            }),
            final(self).history@.len() == 0,
            final(self).undo_stack@.len() == 0,
            !final(self).already_won,
            final(self).animation_key == old(self).animation_key,
            final(self).num_wins == old(self).num_wins,
            final(self).screen_state == old(self).screen_state,
            final(self).allow_undo == old(self).allow_undo,
            final(self).skin == old(self).skin,
    {
        let mut rng = thread_rng();
        let deal = Self::new_deal(&mut rng);
        self.board = Board::from_deal(&deal);
        self.deal = deal;
        self.history.clear();
        self.undo_stack.clear();
        self.already_won = false;
        proof {
            lemma_dealt_shape(self.deal@);
            lemma_history_sound_dealt(self.deal@);
            assert(self.history@ =~= Seq::<ActionRecord>::empty());
        }
    }

    /// Whether the state holds together: the board is ready, it is what the deal
    /// and the history make of it, and the undo marks point into the history in
    /// strictly rising order. A saved game is played on only when it does.
    pub fn is_consistent(&self) -> (r: bool)
        ensures
            r == self.wf(),
    {
        if self.board.depots.len() != NUM_DEPOTS {
            return false;
        }
        match self.board.selected {
            Some(p) => {
                if p.depot_index >= NUM_DEPOTS || !self.can_select(p) {
                    return false;
                }
            },
            None => {},
        }
        let hl = self.history.len();
        let n = self.undo_stack.len();
        if n == 0 {
            if hl != 0 {
                return false;
            }
        } else if self.undo_stack[0] != 0 {
            return false;
        }
        let mut i: usize = 0;
        while i < n
            invariant
                i <= n,
                n == self.undo_stack@.len(),
                hl == self.history@.len(),
                marks_ok(self.undo_stack@.take(i as int), hl as nat),
            decreases n - i,
        {
            if self.undo_stack[i] >= hl {
                assert(self.undo_stack@.take(i + 1)[i as int] == self.undo_stack@[i as int]);
                return false;
            }
            if i > 0 && self.undo_stack[i - 1] >= self.undo_stack[i] {
                assert(self.undo_stack@.take(i + 1)[i - 1] == self.undo_stack@[i - 1]);
                assert(self.undo_stack@.take(i + 1)[i as int] == self.undo_stack@[i as int]);
                return false;
            }
            proof {
                let m = self.undo_stack@;
                assert forall|a: int, b: int| 0 <= a < b < i + 1 implies #[trigger] m.take(i + 1)[a] < #[trigger] m.take(i + 1)[b] by {
                    if b < i {
                        assert(m.take(i as int)[a] < m.take(i as int)[b]);
                    } else if a < i - 1 {
                        assert(m.take(i as int)[a] < m.take(i as int)[i - 1]);
                    }
                }
                assert forall|a: int| 0 <= a < i + 1 implies #[trigger] m.take(i + 1)[a] < hl by {
                    if a < i {
                        assert(m.take(i as int)[a] < hl);
                    }
                }
            }
            i = i + 1;
        }
        assert(self.undo_stack@.take(n as int) =~= self.undo_stack@);
        let ghost start = dealt(self.deal@);
        let ghost h = self.history@;
        let mut b = Board::from_deal(&self.deal);
        proof {
            lemma_dealt_shape(self.deal@);
            assert(h.take(0) =~= Seq::<ActionRecord>::empty());
        }
        let mut k: usize = 0;
        while k < hl
            invariant
                k <= hl,
                hl == h.len(),
                h == self.history@,
                start == dealt(self.deal@),
                b.depots@.len() == NUM_DEPOTS,
                b@.layout == replay(start, h.take(k as int)),
                replay_ok(start, h.take(k as int)),
            decreases hl - k,
        {
            let rec = self.history[k];
            proof {
                assert(h.take(k + 1) =~= h.take(k as int).push(rec));
                assert(h.take(k as int).push(rec).drop_last() =~= h.take(k as int));
                lemma_replay_push(start, h.take(k as int), rec);
            }
            if !b.can_apply(rec) {
                proof {
                    if replay_ok(start, h) {
                        lemma_replay_ok_prefix(start, h, k + 1);
                    }
                }
                return false;
            }
            b.apply(rec);
            if !b.cells_ok() {
                proof {
                    if replay_ok(start, h) {
                        lemma_replay_ok_prefix(start, h, k + 1);
                    }
                }
                return false;
            }
            k = k + 1;
        }
        assert(h.take(hl as int) =~= h);
        b.same_cards(&self.board) && b.freecell_single_used == self.board.freecell_single_used
    }

    /// Whether animations are pending (input is ignored meanwhile).
    pub fn is_busy(&self) -> (r: bool)
        ensures
            r == self.busy(),
    {
        self.is_acting()
    }

    /// Whether animations are pending.
    pub fn is_acting(&self) -> (r: bool)
        ensures
            r == self.busy(),
    {
        !self.board.animation_acts.is_empty()
    }

    /// Whether undo is allowed and there is a move to undo.
    pub fn undo_possible(&self) -> (r: bool)
        ensures
            r == self.can_undo(),
    {
        self.allow_undo && !self.undo_stack.is_empty()
    }

    /// Whether `front` may lie on `back`.
    pub fn can_stack(&self, back: Card, front: Card) -> (r: bool)
        ensures
            r == stacks(back, front),
    {
        back.suit == front.suit && (if back.rank > front.rank {
            back.rank - front.rank == 1
        } else {
            front.rank - back.rank == 1
        })
    }

    /// Whether the cards of `pos` and up may be picked up.
    pub fn can_select(&self, pos: BoardPos) -> (r: bool)
        requires
            self.board.depots@.len() == NUM_DEPOTS,
            pos.depot_index < NUM_DEPOTS,
        ensures
            r == selectable(self.board@.layout.piles, pos),
    {
        let depot = pos.depot_index;
        let ord = pos.card_index;
        let len = self.board.depots[depot].len();
        if ord >= len {
            return false;
        }
        let ghost pile = self.board@.layout.piles[depot as int];
        assert(pile == self.board.depots@[depot as int]@);
        let role = match DepotRole::role(depot) {
            Some(r) => r,
            None => return false,
        };
        match role {
            DepotRole::TrumpLow => false,
            DepotRole::TrumpHigh => false,
            DepotRole::TrumpLast => false,
            DepotRole::CommonHome => false,
            DepotRole::FreeCell => len - ord <= 1,
            DepotRole::Tableau => {
                let mut i = ord;
                while i + 1 < len
                    invariant
                        ord <= i < len,
                        self.board.depots@.len() == NUM_DEPOTS,
                        depot < NUM_DEPOTS,
                        depot == pos.depot_index,
                        ord == pos.card_index,
                        role_of(depot as int) == Some(DepotRole::Tableau),
                        pile == self.board@.layout.piles[depot as int],
                        len == pile.len(),
                        pile == self.board.depots@[depot as int]@,
                        forall|j: int| ord <= j < i ==> #[trigger] stacks(pile[j], pile[j + 1]),
                    decreases len - i,
                {
                    let back = self.board.depots[depot][i];
                    let front = self.board.depots[depot][i + 1];
                    if !self.can_stack(back, front) {
                        assert(!stacks(pile[i as int], pile[i + 1]));
                        return false;
                    }
                    i = i + 1;
                }
                true
            },
        }
    }

    fn do_move_raw(&mut self, pos1: BoardPos, pos2: BoardPos)
        requires
            old(self).board.depots@.len() == NUM_DEPOTS,
            old(self).board@.layout.step_ok(ActionRecord::Move { pos1, pos2 }),
        ensures
            final(self).board@ == old(self).board@.applied(ActionRecord::Move { pos1, pos2 }),
            final(self).board.depots@.len() == NUM_DEPOTS,
            final(self).history@ == old(self).history@.push(ActionRecord::Move { pos1, pos2 }),
            final(self).undo_stack@ == old(self).undo_stack@,
            same_settings(*old(self), *final(self)),
    {
        self.board.do_move(pos1, pos2);
        self.history.push(ActionRecord::Move { pos1, pos2 });
    }

    /// Whether the move of the cards of `pos1` and up onto `pos2` is allowed, and
    /// whether it completes the trumps.
    fn check_move(&self, pos1: BoardPos, pos2: BoardPos) -> (r: (bool, bool))
        requires
            self.board.depots@.len() == NUM_DEPOTS,
            pos1.depot_index < NUM_DEPOTS,
            pos1.card_index <= self.board@.layout.piles[pos1.depot_index as int].len(),
            pos2.depot_index < NUM_DEPOTS,
        ensures
            r.0 == move_legal(self.board@.layout, pos1, pos2),
            r.0 ==> r.1 == completes_trumps(self.board@.layout, pos1, pos2),
    {
        let ghost l = self.board@.layout;
        if pos1.depot_index == pos2.depot_index {
            return (false, false);
        }
        assert(l.piles[pos1.depot_index as int] == self.board.depots@[pos1.depot_index as int]@);
        assert(l.piles[pos2.depot_index as int] == self.board.depots@[pos2.depot_index as int]@);
        assert(l.piles[FREECELL_BLOCKS_TRUMP as int] == self.board.depots@[FREECELL_BLOCKS_TRUMP as int]@);
        assert(l.piles[FREECELL_BLOCKS_COMMON as int] == self.board.depots@[FREECELL_BLOCKS_COMMON as int]@);
        assert(l.piles[0] == self.board.depots@[0]@);
        assert(l.piles[1] == self.board.depots@[1]@);
        let len1 = self.board.depots[pos1.depot_index].len();
        let len2 = self.board.depots[pos2.depot_index].len();
        let num_moved = len1 - pos1.card_index;
        if pos2.card_index != len2 {
            return (false, false);
        }
        let role = match DepotRole::role(pos2.depot_index) {
            Some(r) => r,
            None => {
                return (false, false);
            },
        };
        if len1 == 0 {
            return (false, false);
        }
        let front_card = self.board.depots[pos1.depot_index][len1 - 1];
        match role {
            DepotRole::TrumpLow | DepotRole::TrumpHigh => {
                if !self.board.depots[FREECELL_BLOCKS_TRUMP].is_empty() {
                    return (false, false);
                }
                let ok = if len2 > 0 {
                    let c = self.board.depots[pos2.depot_index][len2 - 1];
                    if role == DepotRole::TrumpLow {
                        follows_up(c, front_card)
                    } else {
                        follows_up(front_card, c)
                    }
                } else {
                    let rank = if role == DepotRole::TrumpLow {
                        TRUMP_RANK_MIN
                    } else {
                        TRUMP_RANK_MAX
                    };
                    front_card == (Card { rank, suit: Suit::Trump })
                };
                if !ok {
                    return (false, false);
                }
                let num_trumps_sorted = self.board.depots[DepotRole::TrumpLow.id(0)].len() as u128
                    + self.board.depots[DepotRole::TrumpHigh.id(0)].len() as u128
                    + num_moved as u128;
                let completes = num_trumps_sorted == NUM_TRUMPS as u128;
                if completes && pos1.depot_index == DepotRole::TrumpLast.id(0) {
                    return (false, false);
                }
                (true, completes)
            },
            DepotRole::TrumpLast => (false, false),
            DepotRole::CommonHome => {
                if !self.board.depots[FREECELL_BLOCKS_COMMON].is_empty() {
                    return (false, false);
                }
                let ok = front_card.suit != Suit::Trump && if len2 > 0 {
                    let c = self.board.depots[pos2.depot_index][len2 - 1];
                    follows_up(c, front_card)
                } else {
                    front_card.rank == RANK_MIN
                };
                (ok, false)
            },
            DepotRole::FreeCell => {
                let from_cell = match DepotRole::role(pos1.depot_index) {
                    Some(DepotRole::FreeCell) => true,
                    _ => false,
                };
                if from_cell {
                    return (false, false);
                }
                if pos2.depot_index == FREECELL_SINGLE_USE && self.board.freecell_single_used {
                    return (false, false);
                }
                (num_moved == 1 && len2 == 0, false)
            },
            DepotRole::Tableau => {
                let ok = if len2 > 0 {
                    let c = self.board.depots[pos2.depot_index][len2 - 1];
                    self.can_stack(c, front_card)
                } else {
                    true
                };
                (ok, false)
            },
        }
    }

    /// Tries to move the cards of `pos1` and up onto `pos2`; returns whether it moved.
    #[verifier::rlimit(40)]
    fn move_intent(&mut self, pos1: BoardPos, pos2: BoardPos) -> (moved: bool)
        requires
            old(self).board.depots@.len() == NUM_DEPOTS,
            pos1.depot_index < NUM_DEPOTS,
            pos1.card_index <= old(self).board@.layout.piles[pos1.depot_index as int].len(),
            pos2.depot_index < NUM_DEPOTS,
            move_guard(old(self).board@.layout, pos1, pos2),
        ensures
            moved == move_legal(old(self).board@.layout, pos1, pos2),
            intent_outcome(*old(self), *final(self), pos1, pos2),
            final(self).board.depots@.len() == NUM_DEPOTS,
            old(self).board.wf() ==> final(self).board.wf(),
            old(self).ready() ==> final(self).ready(),
            selectable(old(self).board@.layout.piles, pos1) && old(self).wf() ==> final(self).wf(),
    {
        let ghost l = self.board@.layout;
        let ghost b0 = self.board@;
        let ghost h0 = self.history@;
        let (ok, trump_last) = self.check_move(pos1, pos2);
        if !ok {
            return false;
        }
        let history_len = self.history.len();
        assert(l.piles[pos1.depot_index as int] == self.board.depots@[pos1.depot_index as int]@);
        let mut src = pos1;
        let mut num_moved = self.board.depots[src.depot_index].len() - src.card_index;
        if trump_last {
            num_moved = num_moved - 1;
            src.card_index = src.card_index + 1;
        }
        let ghost mut recs: Seq<ActionRecord> = Seq::empty();
        assert(applied_all(b0, recs) == b0);
        assert(h0 + recs =~= h0);
        if num_moved > 0 {
            let ghost r = ActionRecord::Move { pos1: src, pos2 };
            self.do_move_raw(src, pos2);
            proof {
                assert(recs.push(r).drop_last() =~= recs);
                assert(h0 + recs.push(r) =~= (h0 + recs).push(r));
                recs = recs.push(r);
            }
        }
        assert(self.board@ == applied_all(b0, recs));
        if trump_last {
            src.card_index = src.card_index - 1;
            let dest = self.board.top_pos(DepotRole::TrumpLast.id(0));
            let ghost r = ActionRecord::Move { pos1: src, pos2: dest };
            assert(self.board@.layout.piles[2] == l.piles[2]);
            assert(src.depot_index != 2);
            assert(self.board@.layout.piles[src.depot_index as int].len() == src.card_index + 1);
            self.do_move_raw(src, dest);
            proof {
                assert(recs.push(r).drop_last() =~= recs);
                assert(h0 + recs.push(r) =~= (h0 + recs).push(r));
                recs = recs.push(r);
            }
        }
        assert(self.board@ == applied_all(b0, recs));
        assert(self.history@ == h0 + recs);
        if src.depot_index == FREECELL_SINGLE_USE {
            let ghost r = ActionRecord::FreeCellSingleUsed;
            self.board.freecell_single_used = true;
            self.history.push(ActionRecord::FreeCellSingleUsed);
            proof {
                assert(recs.push(r).drop_last() =~= recs);
                assert(h0 + recs.push(r) =~= (h0 + recs).push(r));
                recs = recs.push(r);
            }
        }
        self.undo_stack.push(history_len);
        assert(recs =~= move_records(l, pos1, pos2));
        proof {
            if selectable(l.piles, pos1) && old(self).wf() {
                assert(l.piles[2] == old(self).board.depots@[2]@);
                assert(old(self).board.depots@[2].len() <= usize::MAX);
                assert(old(self).board.depots@[pos1.depot_index as int].len() <= usize::MAX);
                lemma_move_extends_history(dealt(self.deal@), h0, b0, pos1, pos2);
                assert(self.undo_stack@[0] == 0);
            }
        }
        true
    }

    /// Handles a click on `pos`.
    pub fn onclick(&mut self, pos: BoardPos)
        requires
            old(self).busy() || (old(self).board.wf() && pos.depot_index < NUM_DEPOTS),
        ensures
            click_outcome(*old(self), *final(self), pos),
            old(self).board.wf() ==> final(self).board.wf(),
            old(self).ready() ==> final(self).ready(),
            old(self).wf() ==> final(self).wf(),
            old(self).sound() ==> final(self).sound(),
    {
        if self.is_busy() {
            return;
        }
        if let Some(src) = self.board.selected {
            if pos == src {
                self.board.selected = None;
                return;
            }
            if src.depot_index == pos.depot_index && self.can_select(pos) {
                self.board.selected = Some(pos);
                return;
            }
            let dest = BoardPos {
                depot_index: pos.depot_index,
                card_index: pos.card_index.wrapping_add(1),
            };
            let ghost g0 = *self;
            self.move_intent(src, dest);
            proof {
                if g0.sound() {
                    lemma_move_keeps_history_sound(g0, *self, src, dest);
                }
            }
        } else {
            if self.can_select(pos) {
                self.board.selected = Some(pos);
            }
        }
    }

    /// Moves the cards of `pos` onto the first of `homes` that takes them.
    fn try_sort(&mut self, pos: BoardPos, homes: &Vec<usize>)
        requires
            old(self).board.depots@.len() == NUM_DEPOTS,
            pos.depot_index < NUM_DEPOTS,
            pos.card_index <= old(self).board@.layout.piles[pos.depot_index as int].len(),
            forall|i: int| 0 <= i < homes@.len() ==> #[trigger] homes@[i] < NUM_DEPOTS,
            first_fit(old(self).board@.layout, pos, homes@) matches Some(h) ==> move_guard(
                old(self).board@.layout,
                pos,
                top_of(old(self).board@.layout, h),
            ),
        ensures
            sort_outcome(*old(self), *final(self), pos, homes@),
            final(self).board.depots@.len() == NUM_DEPOTS,
            old(self).board.wf() ==> final(self).board.wf(),
            old(self).ready() ==> final(self).ready(),
            selectable(old(self).board@.layout.piles, pos) && old(self).wf() ==> final(self).wf(),
            selectable(old(self).board@.layout.piles, pos) && old(self).sound() ==> final(self).sound(),
    {
        let ghost g0 = *self;
        let ghost l = self.board@.layout;
        let mut i: usize = 0;
        assert(homes@.skip(0) =~= homes@);
        while i < homes.len()
            invariant
                i <= homes@.len(),
                forall|j: int| 0 <= j < homes@.len() ==> #[trigger] homes@[j] < NUM_DEPOTS,
                g0 == *old(self),
                same_play(g0, *self),
                self.board.depots@.len() == NUM_DEPOTS,
                g0.board.wf() ==> self.board.wf(),
                g0.ready() ==> self.ready(),
                selectable(l.piles, pos) && g0.wf() ==> self.wf(),
                selectable(l.piles, pos) && g0.sound() ==> self.sound(),
                l == g0.board@.layout,
                l == self.board@.layout,
                pos.depot_index < NUM_DEPOTS,
                pos.card_index <= l.piles[pos.depot_index as int].len(),
                first_fit(l, pos, homes@) matches Some(h) ==> move_guard(l, pos, top_of(l, h)),
                first_fit(l, pos, homes@) == first_fit(l, pos, homes@.skip(i as int)),
            decreases homes@.len() - i,
        {
            let dest = self.board.top_pos(homes[i]);
            assert(homes@.skip(i as int)[0] == homes@[i as int]);
            assert(dest == top_of(l, homes@[i as int]));
            assert(move_guard(l, pos, dest)) by {
                if move_legal(l, pos, dest) {
                    assert(first_fit(l, pos, homes@.skip(i as int)) == Some(homes@[i as int]));
                }
            }
            let ghost before = *self;
            if self.move_intent(pos, dest) {
                assert(first_fit(l, pos, homes@.skip(i as int)) == Some(homes@[i as int]));
                assert(intent_outcome(before, *self, pos, dest));
                assert(selectable(l.piles, pos) && before.wf() ==> self.wf());
                assert(before.ready() ==> self.ready());
                proof {
                    if selectable(l.piles, pos) && before.sound() {
                        lemma_move_keeps_history_sound(before, *self, pos, dest);
                    }
                }
                return;
            }
            assert(homes@.skip(i as int).drop_first() =~= homes@.skip(i + 1));
            i = i + 1;
        }
    }

    /// Handles a double click on `pos`: sorts the cards there to a foundation.
    pub fn ondoubleclick(&mut self, pos: BoardPos)
        requires
            old(self).busy() || (old(self).board.depots@.len() == NUM_DEPOTS && pos.depot_index
                < NUM_DEPOTS),
        ensures
            double_click_outcome(*old(self), *final(self), pos),
            old(self).board.wf() ==> final(self).board.wf(),
            old(self).ready() ==> final(self).ready(),
            old(self).wf() ==> final(self).wf(),
            old(self).sound() ==> final(self).sound(),
    {
        if self.is_busy() {
            return;
        }
        if !self.can_select(pos) {
            return;
        }
        assert(self.board@.layout.piles[pos.depot_index as int] == self.board.depots@[pos.depot_index as int]@);
        let card = self.board.depots[pos.depot_index][pos.card_index];
        if card.suit == Suit::Trump {
            let homes = vec![DepotRole::TrumpLow.id(0), DepotRole::TrumpHigh.id(0)];
            assert(homes@ =~= homes_for(card));
            self.try_sort(pos, &homes);
        } else {
            let homes = vec![
                DepotRole::CommonHome.id(0),
                DepotRole::CommonHome.id(1),
                DepotRole::CommonHome.id(2),
                DepotRole::CommonHome.id(3),
            ];
            assert(homes@ =~= homes_for(card));
            self.try_sort(pos, &homes);
        }
    }

    /// Handles the end of an animation step; returns whether the state is to be saved.
    pub fn advance_animations(&mut self, key: AnimationKey) -> (saved: bool)
        requires
            key == old(self).animation_key ==> old(self).board.depots@.len() == NUM_DEPOTS,
            counts_a_win(*old(self), key) ==> old(self).num_wins < i32::MAX,
        ensures
            advance_outcome(*old(self), *final(self), key, saved),
            old(self).ready() ==> final(self).ready(),
            old(self).wf() ==> final(self).wf(),
            old(self).sound() ==> final(self).sound(),
    {
        if key != self.animation_key {
            return false;
        }
        self.animation_key = self.animation_key.wrapping_add(1);
        self.board.advance_actions();
        if self.is_won() {
            if !self.already_won {
                self.num_wins = self.num_wins + 1;
                self.already_won = true;
            }
        }
        !self.is_busy()
    }

    /// Deals the same deal again, if there is a move to undo and undo is allowed;
    /// returns whether the state is to be saved.
    pub fn restart(&mut self) -> (saved: bool)
        ensures
            restart_outcome(*old(self), *final(self), saved),
            saved ==> final(self).wf(),
            old(self).ready() ==> final(self).ready(),
            old(self).wf() ==> final(self).wf(),
            old(self).sound() ==> final(self).sound(),
    {
        if self.history.is_empty() || !self.undo_possible() {
            return false;
        }
        self.board = Board::from_deal(&self.deal);
        self.history.clear();
        self.undo_stack.clear();
        proof {
            lemma_dealt_shape(self.deal@);
            if self.deal@.to_multiset() == standard_deck().to_multiset() {
                lemma_history_sound_dealt(self.deal@);
            }
            assert(self.history@ =~= Seq::<ActionRecord>::empty());
        }
        !self.is_busy()
    }

    /// Whether an undo can be carried out now (see `undo_ok`).
    pub fn undo_is_safe(&self) -> (r: bool)
        ensures
            r == undo_ok(*self),
    {
        if self.is_busy() || !self.undo_possible() {
            return true;
        }
        if self.board.depots.len() != NUM_DEPOTS {
            return false;
        }
        let target_len = self.undo_stack[self.undo_stack.len() - 1];
        let ghost h = self.history@;
        let ghost t = target_len as nat;
        let mut b = self.board.duplicate();
        let mut k = self.history.len();
        assert(h.take(k as int) =~= h);
        while k > target_len
            invariant
                k <= h.len(),
                h == self.history@,
                t == target_len,
                target_len == self.undo_stack@.last(),
                !self.busy() && self.can_undo(),
                b.depots@.len() == NUM_DEPOTS,
                revertible(self.board@, h, t) == revertible(b@, h.take(k as int), t),
            decreases k,
        {
            let rec = self.history[k - 1];
            let ghost hk = h.take(k as int);
            assert(hk.last() == rec);
            assert(hk.drop_last() =~= h.take(k - 1));
            match rec {
                ActionRecord::Move { pos1, pos2 } => {
                    if !b.can_apply(ActionRecord::Move { pos1: pos2, pos2: pos1 }) {
                        assert(!revertible(b@, hk, t));
                        return false;
                    }
                    b.do_move(pos2, pos1);
                },
                ActionRecord::FreeCellSingleUsed => {
                    b.freecell_single_used = false;
                },
            }
            b.advance_actions();
            k = k - 1;
        }
        true
    }

    /// Takes back the moves since the last undo mark; returns whether the state is to be saved.
    pub fn undo(&mut self) -> (saved: bool)
        requires
            undo_ok(*old(self)),
        ensures
            undo_outcome(*old(self), *final(self), saved),
            old(self).ready() ==> final(self).ready(),
            old(self).wf() ==> final(self).wf(),
            old(self).sound() ==> final(self).sound(),
    {
        if self.is_busy() || !self.undo_possible() {
            return false;
        }
        let ghost g0 = *self;
        let ghost start = dealt(self.deal@);
        let target_len = self.undo_stack.pop().unwrap();
        proof {
            if g0.wf() {
                assert forall|i: int| 0 <= i < self.undo_stack@.len() implies #[trigger] self.undo_stack@[i]
                    < target_len by {
                    assert(g0.undo_stack@[i] < g0.undo_stack@[g0.undo_stack@.len() - 1]);
                }
            }
            assert(g0.history@.take(g0.history@.len() as int) =~= g0.history@);
        }
        while self.history.len() > target_len
            invariant
                g0 == *old(self),
                start == dealt(g0.deal@),
                target_len == g0.undo_stack@.last(),
                self.history@.len() <= g0.history@.len(),
                self.history@.len() == g0.history@.len() || target_len <= self.history@.len(),
                self.history@ == g0.history@.take(self.history@.len() as int),
                undone(self.board@, self.history@, target_len as nat) == undone(
                    g0.board@,
                    g0.history@,
                    target_len as nat,
                ),
                revertible(self.board@, self.history@, target_len as nat),
                self.board.depots@.len() == NUM_DEPOTS,
                same_settings(g0, *self),
                self.undo_stack@ == g0.undo_stack@.drop_last(),
                g0.wf() ==> {
                    &&& replay_ok(start, self.history@)
                    &&& self.board@.layout == replay(start, self.history@)
                    &&& target_len <= self.history@.len()
                    &&& forall|i: int|
                        0 <= i < self.undo_stack@.len() ==> #[trigger] self.undo_stack@[i] < target_len
                },
                self.board@.selected is None || (self.board@.selected == g0.board@.selected
                    && self.board@.layout.piles == g0.board@.layout.piles),
            decreases self.history@.len(),
        {
            let ghost h = self.history@;
            proof {
                if g0.wf() {
                    let prev = replay(start, h.drop_last());
                    lemma_replay_ok_cells(start, h.drop_last());
                    lemma_revert_undoes(prev, h.last());
                }
                assert(h.drop_last() =~= g0.history@.take(h.len() - 1));
            }
            let rec = self.history.pop().unwrap();
            match rec {
                ActionRecord::Move { pos1, pos2 } => {
                    self.board.do_move(pos2, pos1);
                },
                ActionRecord::FreeCellSingleUsed => {
                    self.board.freecell_single_used = false;
                },
            }
            self.board.advance_actions();
        }
        proof {
            if g0.sound() {
                lemma_history_sound_prefix(start, g0.history@, self.history@.len() as int);
            }
        }
        true
    }

    /// Whether the game is won.
    pub fn is_won(&self) -> (r: bool)
        requires
            self.board.depots@.len() == NUM_DEPOTS,
        ensures
            r == won(self.board@.layout.piles),
    {
        assert(self.board@.layout.piles[2] == self.board.depots@[2]@);
        if self.board.depots[DepotRole::TrumpLast.id(0)].is_empty() {
            return false;
        }
        let end = DepotRole::CommonHome.end();
        let mut d = DepotRole::CommonHome.first();
        while d < end
            invariant
                DepotRole::CommonHome.start_of() <= d <= end,
                end == DepotRole::CommonHome.start_of() + DepotRole::CommonHome.size_of(),
                self.board.depots@.len() == NUM_DEPOTS,
                forall|e: int|
                    DepotRole::CommonHome.start_of() <= e < d ==> #[trigger] self.board@.layout.piles[e].len()
                        == NUM_RANKS,
            decreases end - d,
        {
            assert(self.board@.layout.piles[d as int] == self.board.depots@[d as int]@);
            if self.board.depots[d].len() != NUM_RANKS {
                assert(DepotRole::CommonHome.holds(d as int));
                return false;
            }
            d = d + 1;
        }
        true
    }
}

} // verus!
