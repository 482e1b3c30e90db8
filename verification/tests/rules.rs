use tarot_solitaire::board::{
    Board, BoardPos, DepotRole, FREECELL_BLOCKS_COMMON, FREECELL_BLOCKS_TRUMP,
    FREECELL_SINGLE_USE, NUM_DEPOTS,
};
use tarot_solitaire::card::{Card, Suit};
use tarot_solitaire::game::{ActionRecord, GameState, ScreenState, Skin};

fn card(rank: u8, suit: Suit) -> Card {
    Card { rank, suit }
}

fn trump(rank: u8) -> Card {
    card(rank, Suit::Trump)
}

/// A game whose board holds the given piles and nothing else.
fn state_with(piles: &[(usize, Vec<Card>)]) -> GameState {
    let mut depots: Vec<Vec<Card>> = Vec::new();
    for _ in 0..NUM_DEPOTS {
        depots.push(Vec::new());
    }
    for (d, cards) in piles {
        depots[*d] = cards.clone();
    }
    GameState {
        board: Board {
            depots,
            selected: None,
            freecell_single_used: false,
            animation_acts: Vec::new(),
        },
        deal: Vec::new(),
        animation_key: 0,
        history: Vec::new(),
        undo_stack: Vec::new(),
        already_won: false,
        num_wins: 0,
        screen_state: ScreenState::Game,
        allow_undo: true,
        skin: Skin::Classic,
    }
}

/// Lets every pending animation play.
fn settle(g: &mut GameState) {
    while g.is_busy() {
        let key = g.animation_key;
        g.advance_animations(key);
    }
}

/// Clicks the cards at `from` and then the depot `to` just above its top card.
fn click_move(g: &mut GameState, from: BoardPos, to: usize) {
    g.onclick(from);
    let top = g.board.depots[to].len();
    let target = if top == 0 { BoardPos::new(to, !0) } else { BoardPos::new(to, top - 1) };
    g.onclick(target);
}

const COL_A: usize = 10;
const COL_B: usize = 11;
const COL_C: usize = 12;

#[test]
fn can_stack_same_suit_one_apart() {
    let g = state_with(&[]);
    assert!(g.can_stack(card(5, Suit::Hearts), card(4, Suit::Hearts)));
    assert!(g.can_stack(card(4, Suit::Hearts), card(5, Suit::Hearts)));
    assert!(!g.can_stack(card(4, Suit::Hearts), card(6, Suit::Hearts)));
    assert!(!g.can_stack(card(5, Suit::Hearts), card(4, Suit::Spades)));
    assert!(!g.can_stack(card(5, Suit::Hearts), card(5, Suit::Hearts)));
    assert!(g.can_stack(trump(0), trump(1)));
}

#[test]
fn can_select_tableau_runs_and_free_cells() {
    let g = state_with(&[
        (COL_A, vec![card(9, Suit::Clubs), card(7, Suit::Hearts), card(6, Suit::Hearts), card(5, Suit::Hearts)]),
        (FREECELL_SINGLE_USE, vec![trump(3)]),
        (3, vec![card(1, Suit::Spades)]),
    ]);
    assert!(g.can_select(BoardPos::new(COL_A, 1)));
    assert!(g.can_select(BoardPos::new(COL_A, 3)));
    assert!(!g.can_select(BoardPos::new(COL_A, 0)));
    assert!(!g.can_select(BoardPos::new(COL_A, 4)));
    assert!(g.can_select(BoardPos::new(FREECELL_SINGLE_USE, 0)));
    assert!(!g.can_select(BoardPos::new(3, 0)));
    assert!(!g.can_select(BoardPos::new(COL_B, 0)));
}

#[test]
fn click_selects_and_deselects() {
    let mut g = state_with(&[(COL_A, vec![card(9, Suit::Clubs), card(8, Suit::Clubs)])]);
    g.onclick(BoardPos::new(COL_A, 1));
    assert_eq!(g.board.selected, Some(BoardPos::new(COL_A, 1)));
    g.onclick(BoardPos::new(COL_A, 0));
    assert_eq!(g.board.selected, Some(BoardPos::new(COL_A, 0)));
    g.onclick(BoardPos::new(COL_A, 0));
    assert_eq!(g.board.selected, None);
    g.onclick(BoardPos::new(COL_B, 0));
    assert_eq!(g.board.selected, None);
}

#[test]
fn tableau_move_onto_suit_neighbour() {
    let mut g = state_with(&[
        (COL_A, vec![card(9, Suit::Clubs)]),
        (COL_B, vec![card(8, Suit::Clubs)]),
    ]);
    click_move(&mut g, BoardPos::new(COL_B, 0), COL_A);
    assert_eq!(g.board.depots[COL_A], vec![card(9, Suit::Clubs), card(8, Suit::Clubs)]);
    assert!(g.board.depots[COL_B].is_empty());
    assert_eq!(g.board.selected, None);
    assert_eq!(
        g.history,
        vec![ActionRecord::Move { pos1: BoardPos::new(COL_B, 0), pos2: BoardPos::new(COL_A, 1) }]
    );
    assert_eq!(g.undo_stack, vec![0]);
    assert!(g.is_busy());
}

#[test]
fn tableau_refuses_other_suit() {
    let mut g = state_with(&[
        (COL_A, vec![card(9, Suit::Clubs)]),
        (COL_B, vec![card(8, Suit::Hearts)]),
    ]);
    let before = g.board.depots.clone();
    click_move(&mut g, BoardPos::new(COL_B, 0), COL_A);
    assert_eq!(g.board.depots, before);
    assert!(g.history.is_empty());
    assert_eq!(g.board.selected, Some(BoardPos::new(COL_B, 0)));
}

#[test]
fn supermove_lands_in_reverse_order() {
    let mut g = state_with(&[
        (COL_A, vec![card(7, Suit::Hearts), card(6, Suit::Hearts), card(5, Suit::Hearts)]),
        (COL_B, vec![card(4, Suit::Hearts)]),
    ]);
    click_move(&mut g, BoardPos::new(COL_A, 0), COL_B);
    assert_eq!(
        g.board.depots[COL_B],
        vec![card(4, Suit::Hearts), card(5, Suit::Hearts), card(6, Suit::Hearts), card(7, Suit::Hearts)]
    );
    assert!(g.board.depots[COL_A].is_empty());
}

#[test]
fn free_cell_takes_one_card() {
    let mut g = state_with(&[(COL_A, vec![card(9, Suit::Clubs), card(8, Suit::Clubs)])]);
    click_move(&mut g, BoardPos::new(COL_A, 0), FREECELL_BLOCKS_COMMON);
    assert!(g.board.depots[FREECELL_BLOCKS_COMMON].is_empty());
    g.onclick(BoardPos::new(COL_A, 0));
    click_move(&mut g, BoardPos::new(COL_A, 1), FREECELL_BLOCKS_COMMON);
    assert_eq!(g.board.depots[FREECELL_BLOCKS_COMMON], vec![card(8, Suit::Clubs)]);
    settle(&mut g);
    click_move(&mut g, BoardPos::new(COL_A, 0), FREECELL_BLOCKS_COMMON);
    assert_eq!(g.board.depots[FREECELL_BLOCKS_COMMON], vec![card(8, Suit::Clubs)]);
    assert_eq!(g.board.depots[COL_A], vec![card(9, Suit::Clubs)]);
}

#[test]
fn no_moves_between_free_cells() {
    let mut g = state_with(&[(FREECELL_BLOCKS_TRUMP, vec![card(8, Suit::Clubs)])]);
    click_move(&mut g, BoardPos::new(FREECELL_BLOCKS_TRUMP, 0), FREECELL_BLOCKS_COMMON);
    assert_eq!(g.board.depots[FREECELL_BLOCKS_TRUMP], vec![card(8, Suit::Clubs)]);
    assert!(g.board.depots[FREECELL_BLOCKS_COMMON].is_empty());
    assert!(g.history.is_empty());
}

#[test]
fn single_use_cell_is_used_up_on_leaving() {
    let mut g = state_with(&[
        (COL_A, vec![card(8, Suit::Clubs)]),
        (COL_B, vec![card(2, Suit::Spades)]),
    ]);
    click_move(&mut g, BoardPos::new(COL_A, 0), FREECELL_SINGLE_USE);
    assert_eq!(g.board.depots[FREECELL_SINGLE_USE], vec![card(8, Suit::Clubs)]);
    assert!(!g.board.freecell_single_used);
    settle(&mut g);
    click_move(&mut g, BoardPos::new(FREECELL_SINGLE_USE, 0), COL_A);
    assert!(g.board.freecell_single_used);
    assert_eq!(g.history.last(), Some(&ActionRecord::FreeCellSingleUsed));
    assert_eq!(g.undo_stack, vec![0, 1]);
    settle(&mut g);
    click_move(&mut g, BoardPos::new(COL_B, 0), FREECELL_SINGLE_USE);
    assert!(g.board.depots[FREECELL_SINGLE_USE].is_empty());
    assert_eq!(g.board.depots[COL_B], vec![card(2, Suit::Spades)]);
}

#[test]
fn undo_gives_the_single_use_cell_back() {
    let mut g = state_with(&[(FREECELL_SINGLE_USE, vec![card(8, Suit::Clubs)])]);
    g.undo_stack.clear();
    click_move(&mut g, BoardPos::new(FREECELL_SINGLE_USE, 0), COL_C);
    assert!(g.board.freecell_single_used);
    settle(&mut g);
    assert!(g.undo());
    assert!(!g.board.freecell_single_used);
    assert_eq!(g.board.depots[FREECELL_SINGLE_USE], vec![card(8, Suit::Clubs)]);
    assert!(g.board.depots[COL_C].is_empty());
    assert!(g.history.is_empty());
}

#[test]
fn left_cell_blocks_trump_foundations() {
    let mut g = state_with(&[
        (COL_A, vec![trump(0)]),
        (FREECELL_BLOCKS_TRUMP, vec![card(8, Suit::Clubs)]),
    ]);
    click_move(&mut g, BoardPos::new(COL_A, 0), 0);
    assert!(g.board.depots[0].is_empty());
    g.board.depots[FREECELL_BLOCKS_TRUMP].clear();
    g.onclick(BoardPos::new(COL_A, 0));
    click_move(&mut g, BoardPos::new(COL_A, 0), 0);
    assert_eq!(g.board.depots[0], vec![trump(0)]);
}

#[test]
fn right_cell_blocks_common_foundations() {
    let mut g = state_with(&[
        (3, vec![card(1, Suit::Spades)]),
        (COL_A, vec![card(2, Suit::Spades)]),
        (FREECELL_BLOCKS_COMMON, vec![card(8, Suit::Clubs)]),
    ]);
    click_move(&mut g, BoardPos::new(COL_A, 0), 3);
    assert_eq!(g.board.depots[3], vec![card(1, Suit::Spades)]);
    g.board.depots[FREECELL_BLOCKS_COMMON].clear();
    g.onclick(BoardPos::new(COL_A, 0));
    click_move(&mut g, BoardPos::new(COL_A, 0), 3);
    assert_eq!(g.board.depots[3], vec![card(1, Suit::Spades), card(2, Suit::Spades)]);
}

#[test]
fn trump_foundations_open_from_both_ends() {
    let mut g = state_with(&[
        (COL_A, vec![trump(21)]),
        (COL_B, vec![trump(0)]),
    ]);
    click_move(&mut g, BoardPos::new(COL_A, 0), 0);
    assert!(g.board.depots[0].is_empty());
    g.onclick(BoardPos::new(COL_A, 0));
    click_move(&mut g, BoardPos::new(COL_A, 0), 1);
    assert_eq!(g.board.depots[1], vec![trump(21)]);
    settle(&mut g);
    click_move(&mut g, BoardPos::new(COL_B, 0), 1);
    assert!(g.board.depots[COL_B].len() == 1);
    g.onclick(BoardPos::new(COL_B, 0));
    click_move(&mut g, BoardPos::new(COL_B, 0), 0);
    assert_eq!(g.board.depots[0], vec![trump(0)]);
}

#[test]
fn last_trump_goes_to_its_place() {
    let low: Vec<Card> = (0..10).map(trump).collect();
    let high: Vec<Card> = (12..22).rev().map(trump).collect();
    let mut g = state_with(&[
        (0, low),
        (1, high),
        (COL_A, vec![trump(11), trump(10)]),
    ]);
    click_move(&mut g, BoardPos::new(COL_A, 0), 0);
    assert_eq!(g.board.depots[0].len(), 11);
    assert_eq!(g.board.depots[0].last(), Some(&trump(10)));
    assert_eq!(g.board.depots[2], vec![trump(11)]);
    assert!(g.board.depots[COL_A].is_empty());
    assert_eq!(
        g.history,
        vec![
            ActionRecord::Move { pos1: BoardPos::new(COL_A, 1), pos2: BoardPos::new(0, 10) },
            ActionRecord::Move { pos1: BoardPos::new(COL_A, 0), pos2: BoardPos::new(2, 0) },
        ]
    );
    settle(&mut g);
    assert!(g.undo());
    assert!(g.board.depots[2].is_empty());
    assert_eq!(g.board.depots[0].len(), 10);
    assert_eq!(g.board.depots[COL_A], vec![trump(11), trump(10)]);
}

#[test]
fn single_last_trump_goes_straight_to_its_place() {
    let low: Vec<Card> = (0..11).map(trump).collect();
    let high: Vec<Card> = (12..22).rev().map(trump).collect();
    let mut g = state_with(&[(0, low), (1, high), (COL_A, vec![trump(11)])]);
    click_move(&mut g, BoardPos::new(COL_A, 0), 1);
    assert_eq!(g.board.depots[1].len(), 10);
    assert_eq!(g.board.depots[2], vec![trump(11)]);
    assert_eq!(
        g.history,
        vec![ActionRecord::Move { pos1: BoardPos::new(COL_A, 0), pos2: BoardPos::new(2, 0) }]
    );
}

#[test]
fn last_trump_place_takes_no_click() {
    let mut g = state_with(&[(COL_A, vec![trump(11)])]);
    click_move(&mut g, BoardPos::new(COL_A, 0), 2);
    assert!(g.board.depots[2].is_empty());
    assert!(g.history.is_empty());
}

#[test]
fn double_click_sorts_to_foundation() {
    let mut g = state_with(&[
        (3, vec![card(1, Suit::Spades)]),
        (4, vec![card(1, Suit::Hearts)]),
        (5, vec![card(1, Suit::Diamonds)]),
        (6, vec![card(1, Suit::Clubs)]),
        (COL_A, vec![card(9, Suit::Clubs), card(2, Suit::Hearts)]),
        (COL_B, vec![trump(0)]),
        (COL_C, vec![card(2, Suit::Diamonds)]),
    ]);
    g.ondoubleclick(BoardPos::new(COL_A, 1));
    assert_eq!(g.board.depots[3], vec![card(1, Suit::Spades)]);
    assert_eq!(g.board.depots[4], vec![card(1, Suit::Hearts), card(2, Suit::Hearts)]);
    settle(&mut g);
    g.ondoubleclick(BoardPos::new(COL_B, 0));
    assert_eq!(g.board.depots[0], vec![trump(0)]);
    settle(&mut g);
    g.ondoubleclick(BoardPos::new(COL_A, 0));
    assert_eq!(g.board.depots[COL_A], vec![card(9, Suit::Clubs)]);
    assert_eq!(g.history.len(), 2);
    g.ondoubleclick(BoardPos::new(COL_C, 0));
    assert_eq!(g.board.depots[5], vec![card(1, Suit::Diamonds), card(2, Suit::Diamonds)]);
    assert_eq!(g.undo_stack, vec![0, 1, 2]);
}

#[test]
fn double_click_ignores_unselectable_cards() {
    let mut g = state_with(&[
        (3, vec![card(1, Suit::Spades)]),
        (COL_A, vec![card(2, Suit::Spades), card(9, Suit::Clubs)]),
    ]);
    g.ondoubleclick(BoardPos::new(COL_A, 0));
    assert_eq!(g.board.depots[3], vec![card(1, Suit::Spades)]);
    assert!(g.history.is_empty());
}

#[test]
fn clicks_are_ignored_while_animating() {
    let mut g = state_with(&[
        (COL_A, vec![card(8, Suit::Clubs)]),
        (COL_B, vec![card(5, Suit::Hearts), card(7, Suit::Clubs)]),
    ]);
    click_move(&mut g, BoardPos::new(COL_B, 1), COL_A);
    assert!(g.is_busy());
    g.onclick(BoardPos::new(COL_B, 0));
    assert_eq!(g.board.selected, None);
    assert!(!g.undo());
    let saved = g.advance_animations(g.animation_key);
    assert!(saved);
    assert_eq!(g.animation_key, 1);
    g.onclick(BoardPos::new(COL_B, 0));
    assert_eq!(g.board.selected, Some(BoardPos::new(COL_B, 0)));
}

#[test]
fn stale_animation_key_changes_nothing() {
    let mut g = state_with(&[
        (COL_A, vec![card(9, Suit::Clubs)]),
        (COL_B, vec![card(8, Suit::Clubs)]),
    ]);
    click_move(&mut g, BoardPos::new(COL_B, 0), COL_A);
    assert!(!g.advance_animations(5));
    assert!(g.is_busy());
    assert_eq!(g.animation_key, 0);
}

#[test]
fn animation_key_wraps() {
    let mut g = state_with(&[]);
    g.animation_key = u16::MAX;
    assert!(g.advance_animations(u16::MAX));
    assert_eq!(g.animation_key, 0);
}

fn nearly_won() -> GameState {
    let mut piles: Vec<(usize, Vec<Card>)> = Vec::new();
    let suits = [Suit::Spades, Suit::Hearts, Suit::Diamonds, Suit::Clubs];
    for (i, s) in suits.iter().enumerate() {
        let cards: Vec<Card> = (1..=13).map(|r| card(r, *s)).collect();
        piles.push((3 + i, cards));
    }
    piles.push((0, (0..11).map(trump).collect()));
    piles.push((1, (12..22).rev().map(trump).collect()));
    piles.push((COL_A, vec![trump(11)]));
    state_with(&piles)
}

#[test]
fn a_win_is_counted_once() {
    let mut g = nearly_won();
    assert!(!g.is_won());
    g.ondoubleclick(BoardPos::new(COL_A, 0));
    assert_eq!(g.board.depots[2], vec![trump(11)]);
    assert!(g.is_won());
    assert!(g.advance_animations(0));
    assert_eq!(g.num_wins, 1);
    assert!(g.already_won);
    assert!(g.advance_animations(1));
    assert_eq!(g.num_wins, 1);
}

#[test]
fn is_won_needs_full_common_foundations() {
    let mut g = nearly_won();
    g.board.depots[2].push(trump(11));
    g.board.depots[COL_A].clear();
    assert!(g.is_won());
    let c = g.board.depots[6].pop().unwrap();
    g.board.depots[COL_A].push(c);
    assert!(!g.is_won());
}

#[test]
fn undo_possible_needs_marks_and_permission() {
    let mut g = state_with(&[]);
    assert!(!g.undo_possible());
    g.undo_stack.push(0);
    assert!(g.undo_possible());
    g.allow_undo = false;
    assert!(!g.undo_possible());
    assert!(!g.undo());
}

#[test]
fn depot_roles_cover_the_board() {
    assert_eq!(DepotRole::role(0), Some(DepotRole::TrumpLow));
    assert_eq!(DepotRole::role(2), Some(DepotRole::TrumpLast));
    assert_eq!(DepotRole::role(FREECELL_BLOCKS_TRUMP), Some(DepotRole::FreeCell));
    assert_eq!(DepotRole::role(20), Some(DepotRole::Tableau));
    assert_eq!(DepotRole::role(NUM_DEPOTS), None);
    assert_eq!(DepotRole::role_and_subindex(5), Some((DepotRole::CommonHome, 2)));
    assert_eq!(DepotRole::CommonHome.id(3), 6);
    assert_eq!(DepotRole::Tableau.number_of(), 11);
    let total: usize = [
        DepotRole::TrumpLow,
        DepotRole::TrumpHigh,
        DepotRole::TrumpLast,
        DepotRole::CommonHome,
        DepotRole::FreeCell,
        DepotRole::Tableau,
    ]
    .iter()
    .map(|r| r.number_of())
    .sum();
    assert_eq!(total, NUM_DEPOTS);
}

#[test]
fn common_foundations_only_build_up() {
    let mut g = state_with(&[
        (3, vec![card(1, Suit::Spades), card(2, Suit::Spades), card(3, Suit::Spades), card(4, Suit::Spades), card(5, Suit::Spades)]),
        (COL_A, vec![card(4, Suit::Hearts)]),
        (COL_B, vec![card(7, Suit::Clubs), card(6, Suit::Spades)]),
        (COL_C, vec![card(6, Suit::Hearts)]),
    ]);
    // a card of another suit, or two ranks up, is refused
    click_move(&mut g, BoardPos::new(COL_A, 0), 3);
    assert_eq!(g.board.depots[3].len(), 5);
    g.onclick(BoardPos::new(COL_A, 0));
    // one rank up in the suit goes on
    click_move(&mut g, BoardPos::new(COL_B, 1), 3);
    assert_eq!(g.board.depots[3].last(), Some(&card(6, Suit::Spades)));
}

#[test]
fn common_foundation_refuses_a_lower_card() {
    let mut g = state_with(&[
        (3, vec![card(1, Suit::Spades), card(2, Suit::Spades), card(3, Suit::Spades), card(4, Suit::Spades), card(5, Suit::Spades)]),
        (COL_A, vec![card(4, Suit::Spades)]),
    ]);
    click_move(&mut g, BoardPos::new(COL_A, 0), 3);
    assert_eq!(g.board.depots[3].len(), 5);
    assert_eq!(g.board.depots[COL_A], vec![card(4, Suit::Spades)]);
    assert!(g.history.is_empty());
}

#[test]
fn empty_common_foundation_takes_only_an_ace() {
    let mut g = state_with(&[
        (COL_A, vec![trump(7)]),
        (COL_B, vec![card(5, Suit::Hearts)]),
        (COL_C, vec![card(1, Suit::Hearts)]),
    ]);
    click_move(&mut g, BoardPos::new(COL_A, 0), 4);
    assert!(g.board.depots[4].is_empty());
    g.onclick(BoardPos::new(COL_A, 0));
    click_move(&mut g, BoardPos::new(COL_B, 0), 4);
    assert!(g.board.depots[4].is_empty());
    g.onclick(BoardPos::new(COL_B, 0));
    click_move(&mut g, BoardPos::new(COL_C, 0), 4);
    assert_eq!(g.board.depots[4], vec![card(1, Suit::Hearts)]);
}

#[test]
fn trump_foundations_build_in_their_direction() {
    let mut g = state_with(&[
        (0, (0..6).map(trump).collect()),
        (1, (15..22).rev().map(trump).collect()),
        (COL_A, vec![trump(4)]),
        (COL_B, vec![trump(16)]),
        (COL_C, vec![trump(6)]),
    ]);
    // the low pile (top 5) refuses 4; the high pile (top 15) refuses 16
    click_move(&mut g, BoardPos::new(COL_A, 0), 0);
    assert_eq!(g.board.depots[0].len(), 6);
    g.onclick(BoardPos::new(COL_A, 0));
    click_move(&mut g, BoardPos::new(COL_B, 0), 1);
    assert_eq!(g.board.depots[1].len(), 7);
    g.onclick(BoardPos::new(COL_B, 0));
    // 6 goes up on the low pile
    click_move(&mut g, BoardPos::new(COL_C, 0), 0);
    assert_eq!(g.board.depots[0].last(), Some(&trump(6)));
}

#[test]
fn undo_of_a_history_that_fits_the_board() {
    // a board and history that do not come from any deal, but can be taken back
    let mut g = state_with(&[(COL_A, vec![card(9, Suit::Clubs)]), (COL_B, vec![card(8, Suit::Clubs)])]);
    g.history = vec![ActionRecord::Move { pos1: BoardPos::new(COL_C, 0), pos2: BoardPos::new(COL_B, 0) }];
    g.undo_stack = vec![0];
    assert!(!g.is_consistent());
    assert!(g.undo_is_safe());
    assert!(g.undo());
    assert_eq!(g.board.depots[COL_C], vec![card(8, Suit::Clubs)]);
    assert!(g.board.depots[COL_B].is_empty());
    assert!(g.history.is_empty());
    assert!(g.undo_stack.is_empty());
}

#[test]
fn undo_is_unsafe_when_the_cards_are_not_there() {
    let mut g = state_with(&[(COL_A, vec![card(9, Suit::Clubs)])]);
    g.history = vec![ActionRecord::Move { pos1: BoardPos::new(COL_C, 0), pos2: BoardPos::new(COL_B, 3) }];
    g.undo_stack = vec![0];
    assert!(!g.undo_is_safe());
    g.board.animation_acts.push(tarot_solitaire::board::AnimationAct {
        from: BoardPos::new(0, 0),
        to: BoardPos::new(1, 0),
    });
    assert!(g.undo_is_safe());
    assert!(!g.undo());
}

#[test]
fn clicks_anywhere_are_ignored_while_animating() {
    let mut g = state_with(&[
        (COL_A, vec![card(9, Suit::Clubs)]),
        (COL_B, vec![card(8, Suit::Clubs)]),
    ]);
    click_move(&mut g, BoardPos::new(COL_B, 0), COL_A);
    assert!(g.is_busy());
    let before = g.clone();
    g.onclick(BoardPos::new(NUM_DEPOTS + 5, 0));
    g.ondoubleclick(BoardPos::new(NUM_DEPOTS + 5, 0));
    assert_eq!(g, before);
}

#[test]
fn a_mark_beyond_the_history_keeps_it() {
    let mut g = state_with(&[(COL_A, vec![card(9, Suit::Clubs)])]);
    g.history = vec![ActionRecord::FreeCellSingleUsed];
    g.undo_stack = vec![4];
    g.board.freecell_single_used = true;
    assert!(g.undo_is_safe());
    assert!(g.undo());
    assert_eq!(g.history, vec![ActionRecord::FreeCellSingleUsed]);
    assert!(g.undo_stack.is_empty());
    assert!(g.board.freecell_single_used);
}

#[test]
fn a_won_board_has_every_card_home() {
    let mut g = nearly_won();
    g.ondoubleclick(BoardPos::new(COL_A, 0));
    settle(&mut g);
    assert!(g.is_won());
    let trumps_home = g.board.depots[0].len() + g.board.depots[1].len() + g.board.depots[2].len();
    assert_eq!(trumps_home, 22);
    for d in 7..NUM_DEPOTS {
        assert!(g.board.depots[d].is_empty());
    }
}

#[test]
fn wins_over_a_session_count_once() {
    let mut g = nearly_won();
    g.ondoubleclick(BoardPos::new(COL_A, 0));
    settle(&mut g);
    assert_eq!(g.num_wins, 1);
    assert!(g.undo());
    settle(&mut g);
    assert!(!g.is_won());
    g.ondoubleclick(BoardPos::new(COL_A, 0));
    settle(&mut g);
    assert!(g.is_won());
    assert_eq!(g.num_wins, 1);
}

#[test]
fn no_completing_move_from_the_last_trump_place() {
    let mut g = state_with(&[
        (0, (0..11).map(trump).collect()),
        (1, (12..22).rev().map(trump).collect()),
        (2, vec![trump(11)]),
    ]);
    g.board.selected = Some(BoardPos::new(2, 0));
    let before = g.board.depots.clone();
    g.onclick(BoardPos::new(0, 10));
    assert_eq!(g.board.depots, before);
    assert!(g.history.is_empty());
    assert!(g.undo_stack.is_empty());
}

#[test]
fn every_card_home_is_a_win() {
    let mut g = nearly_won();
    g.ondoubleclick(BoardPos::new(COL_A, 0));
    settle(&mut g);
    for d in 7..NUM_DEPOTS {
        assert!(g.board.depots[d].is_empty());
    }
    assert!(g.is_won());
    assert_eq!(g.num_wins, 1);
}
