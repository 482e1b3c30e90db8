use std::collections::HashSet;

use tarot_solitaire::board::{Board, BoardPos, FREECELL_SINGLE_USE, NUM_DEPOTS};
use tarot_solitaire::card::{card_at, unshuffled_deck, Card, Suit, DECK_SIZE};
use tarot_solitaire::game::{GameState, ScreenState, Skin};

fn card(rank: u8, suit: Suit) -> Card {
    Card { rank, suit }
}

fn trump(rank: u8) -> Card {
    card(rank, Suit::Trump)
}

/// A session playing the unshuffled deck.
fn ordered_game() -> GameState {
    let deal = unshuffled_deck();
    GameState {
        board: Board::from_deal(&deal),
        deal,
        animation_key: 0,
        history: Vec::new(),
        undo_stack: Vec::new(),
        already_won: false,
        num_wins: 0,
        screen_state: ScreenState::Game,
        allow_undo: true,
        skin: Skin::Classic,
    }
}

fn settle(g: &mut GameState) {
    while g.is_busy() {
        let key = g.animation_key;
        g.advance_animations(key);
    }
}

fn all_cards(b: &Board) -> Vec<Card> {
    let mut cards: Vec<Card> = b.depots.iter().flatten().copied().collect();
    cards.sort_by_key(|c| (c.suit as u8, c.rank));
    cards
}

#[test]
fn unshuffled_deck_order() {
    assert_eq!(card_at(0), card(1, Suit::Spades));
    assert_eq!(card_at(1), card(1, Suit::Hearts));
    assert_eq!(card_at(7), card(2, Suit::Clubs));
    assert_eq!(card_at(51), card(13, Suit::Clubs));
    assert_eq!(card_at(52), trump(0));
    assert_eq!(card_at(73), trump(21));
    let deck = unshuffled_deck();
    assert_eq!(deck.len(), DECK_SIZE);
    assert_eq!(Suit::iter_common(), [Suit::Spades, Suit::Hearts, Suit::Diamonds, Suit::Clubs]);
    assert_eq!(Suit::Diamonds.common_index(), Some(2));
    assert_eq!(Suit::Trump.common_index(), None);
}

#[test]
fn new_deal_holds_every_card_once() {
    let deal = GameState::new_deal(&mut rand::rng());
    assert_eq!(deal.len(), DECK_SIZE);
    let set: HashSet<Card> = deal.iter().copied().collect();
    assert_eq!(set.len(), DECK_SIZE);
    let ordered: HashSet<Card> = unshuffled_deck().into_iter().collect();
    assert_eq!(set, ordered);
}

#[test]
fn new_deal_is_shuffled() {
    let a = GameState::new_deal(&mut rand::rng());
    let b = GameState::new_deal(&mut rand::rng());
    assert!(a != unshuffled_deck() || b != unshuffled_deck());
    assert_ne!(a, b);
}

#[test]
fn dealing_puts_aces_home_and_fills_ten_columns() {
    let g = ordered_game();
    let b = &g.board;
    assert_eq!(b.depots.len(), NUM_DEPOTS);
    assert_eq!(b.depots[3], vec![card(1, Suit::Spades)]);
    assert_eq!(b.depots[4], vec![card(1, Suit::Hearts)]);
    assert_eq!(b.depots[5], vec![card(1, Suit::Diamonds)]);
    assert_eq!(b.depots[6], vec![card(1, Suit::Clubs)]);
    for d in 0..3 {
        assert!(b.depots[d].is_empty());
    }
    for d in 7..10 {
        assert!(b.depots[d].is_empty());
    }
    assert!(b.depots[15].is_empty());
    for d in (10..21).filter(|d| *d != 15) {
        assert_eq!(b.depots[d].len(), 7);
    }
    assert_eq!(b.depots[10][0], card(2, Suit::Spades));
    assert_eq!(b.depots[16][0], card(3, Suit::Hearts));
    assert_eq!(b.depots[10][6], trump(12));
    assert_eq!(b.depots[20][6], trump(21));
    assert_eq!(b.selected, None);
    assert!(!b.freecell_single_used);
    assert!(b.animation_acts.is_empty());
    let mut deal = g.deal.clone();
    deal.sort_by_key(|c| (c.suit as u8, c.rank));
    assert_eq!(all_cards(b), deal);
}

#[test]
fn empty_board_has_empty_depots() {
    let b = Board::empty();
    assert_eq!(b.depots.len(), NUM_DEPOTS);
    assert!(b.depots.iter().all(|d| d.is_empty()));
    assert_eq!(b.top_pos(4), BoardPos::new(4, 0));
}

#[test]
fn init_starts_a_fresh_session() {
    let g = GameState::init();
    assert_eq!(g.deal.len(), DECK_SIZE);
    assert_eq!(g.board, Board::from_deal(&g.deal));
    assert!(g.history.is_empty());
    assert!(g.undo_stack.is_empty());
    assert_eq!(g.num_wins, 0);
    assert!(!g.already_won);
    assert!(g.allow_undo);
    assert_eq!(g.screen_state, ScreenState::Game);
    assert_eq!(g.skin, Skin::Classic);
    assert!(!g.is_busy());
    assert!(!g.undo_possible());
}

#[test]
fn new_game_keeps_the_record() {
    let mut g = ordered_game();
    g.num_wins = 3;
    g.already_won = true;
    g.history.push(tarot_solitaire::game::ActionRecord::FreeCellSingleUsed);
    g.undo_stack.push(0);
    g.new_game();
    assert_eq!(g.num_wins, 3);
    assert!(!g.already_won);
    assert!(g.history.is_empty());
    assert!(g.undo_stack.is_empty());
    assert_eq!(g.board, Board::from_deal(&g.deal));
}

#[test]
fn moves_and_undos_on_a_dealt_board() {
    let mut g = ordered_game();
    let start = g.board.clone();
    // the highest trump tops the last column: it opens the right trump foundation
    g.onclick(BoardPos::new(20, 6));
    g.onclick(BoardPos::new(1, !0));
    assert_eq!(g.board.depots[1], vec![trump(21)]);
    settle(&mut g);
    // trump 20 follows
    g.ondoubleclick(BoardPos::new(19, 6));
    assert_eq!(g.board.depots[1], vec![trump(21), trump(20)]);
    settle(&mut g);
    // trump 12 onto trump 13 in the tableau
    g.onclick(BoardPos::new(10, 6));
    g.onclick(BoardPos::new(11, 6));
    assert_eq!(g.board.depots[11].last(), Some(&trump(12)));
    settle(&mut g);
    assert_eq!(g.undo_stack, vec![0, 1, 2]);
    let mut count = all_cards(&g.board);
    count.dedup();
    assert_eq!(count.len(), DECK_SIZE);
    // take the last two moves back
    assert!(g.undo());
    assert_eq!(g.board.depots[11].last(), Some(&trump(13)));
    assert_eq!(g.board.depots[10].last(), Some(&trump(12)));
    assert!(g.undo());
    assert_eq!(g.board.depots[1], vec![trump(21)]);
    assert_eq!(g.history.len(), 1);
    // restart deals the same cards again
    assert!(g.restart());
    assert_eq!(g.board, start);
    assert!(g.history.is_empty());
    assert!(!g.restart());
}

#[test]
fn restart_needs_a_move_and_permission() {
    let mut g = ordered_game();
    assert!(!g.restart());
    g.onclick(BoardPos::new(20, 6));
    g.onclick(BoardPos::new(1, !0));
    settle(&mut g);
    g.allow_undo = false;
    assert!(!g.restart());
    assert_eq!(g.board.depots[1], vec![trump(21)]);
    g.allow_undo = true;
    assert!(g.restart());
    assert!(g.board.depots[1].is_empty());
}

#[test]
fn single_use_cell_in_a_dealt_game() {
    let mut g = ordered_game();
    g.onclick(BoardPos::new(10, 6));
    g.onclick(BoardPos::new(FREECELL_SINGLE_USE, !0));
    assert_eq!(g.board.depots[FREECELL_SINGLE_USE], vec![trump(12)]);
    settle(&mut g);
    g.onclick(BoardPos::new(FREECELL_SINGLE_USE, 0));
    g.onclick(BoardPos::new(11, 6));
    assert!(g.board.freecell_single_used);
    settle(&mut g);
    assert!(g.undo());
    assert!(!g.board.freecell_single_used);
    assert_eq!(g.board.depots[FREECELL_SINGLE_USE], vec![trump(12)]);
}

#[test]
fn consistency_of_played_and_tampered_states() {
    let mut g = ordered_game();
    assert!(g.is_consistent());
    g.onclick(BoardPos::new(20, 6));
    assert!(g.is_consistent());
    g.onclick(BoardPos::new(1, !0));
    assert!(g.is_consistent());
    settle(&mut g);
    assert!(g.is_consistent());

    let mut moved_card = g.clone();
    let c = moved_card.board.depots[10].pop().unwrap();
    moved_card.board.depots[12].push(c);
    assert!(!moved_card.is_consistent());

    let mut lost_history = g.clone();
    lost_history.history.clear();
    assert!(!lost_history.is_consistent());

    let mut bad_mark = g.clone();
    bad_mark.undo_stack.push(7);
    assert!(!bad_mark.is_consistent());

    let mut unordered_marks = g.clone();
    unordered_marks.undo_stack = vec![1, 0];
    assert!(!unordered_marks.is_consistent());

    let mut bad_selection = g.clone();
    bad_selection.board.selected = Some(BoardPos::new(3, 0));
    assert!(!bad_selection.is_consistent());

    let mut wrong_shape = g.clone();
    wrong_shape.board.depots.pop();
    assert!(!wrong_shape.is_consistent());

    let mut flag = g.clone();
    flag.board.freecell_single_used = true;
    assert!(!flag.is_consistent());
}

#[test]
fn consistency_needs_rising_marks_inside_the_history() {
    let mut g = ordered_game();
    g.onclick(BoardPos::new(20, 6));
    g.onclick(BoardPos::new(1, !0));
    settle(&mut g);
    assert_eq!(g.undo_stack, vec![0]);
    assert_eq!(g.history.len(), 1);
    assert!(g.is_consistent());

    let mut repeated_mark = g.clone();
    repeated_mark.undo_stack = vec![0, 0];
    assert!(!repeated_mark.is_consistent());

    let mut mark_at_the_end = g.clone();
    mark_at_the_end.undo_stack = vec![0, 1];
    assert!(!mark_at_the_end.is_consistent());
}

#[test]
fn undoing_every_move_is_a_restart() {
    let mut g = ordered_game();
    g.onclick(BoardPos::new(20, 6));
    g.onclick(BoardPos::new(1, !0));
    settle(&mut g);
    g.ondoubleclick(BoardPos::new(19, 6));
    settle(&mut g);
    g.onclick(BoardPos::new(10, 6));
    g.onclick(BoardPos::new(11, 6));
    settle(&mut g);
    let mut restarted = g.clone();
    assert!(restarted.restart());
    let marks = g.undo_stack.len();
    assert_eq!(marks, 3);
    for _ in 0..marks {
        assert!(!g.is_busy());
        assert!(g.undo());
        settle(&mut g);
    }
    assert_eq!(g.board.depots, restarted.board.depots);
    assert_eq!(g.board.freecell_single_used, restarted.board.freecell_single_used);
    assert!(g.history.is_empty());
    assert!(g.undo_stack.is_empty());
    assert!(restarted.history.is_empty());
    assert!(restarted.undo_stack.is_empty());
}

#[test]
fn undo_after_the_animation_takes_the_click_back() {
    let mut g = ordered_game();
    g.onclick(BoardPos::new(20, 6));
    g.onclick(BoardPos::new(1, !0));
    settle(&mut g);
    let before = g.clone();
    g.onclick(BoardPos::new(10, 6));
    g.onclick(BoardPos::new(11, 6));
    assert!(g.is_busy());
    settle(&mut g);
    assert!(g.undo());
    assert_eq!(g.board.depots, before.board.depots);
    assert_eq!(g.history, before.history);
    assert_eq!(g.undo_stack, before.undo_stack);
}
