//! The board: twenty-one depots of cards, the selection, the single-use free
//! cell's flag and the queue of pending animations.
use vstd::prelude::*;

use crate::card::{Card, Suit, RANK_MIN, common_position};
use crate::game::ActionRecord;

verus! {

/// Number of depots on the board.
pub const NUM_DEPOTS: usize = 21;
/// The free cell that blocks trump cards from the foundations while it holds a card.
pub const FREECELL_BLOCKS_TRUMP: usize = 7;
/// The free cell that may be used only once per game.
pub const FREECELL_SINGLE_USE: usize = 8;
/// The free cell that blocks common cards from the foundations while it holds a card.
pub const FREECELL_BLOCKS_COMMON: usize = 9;
/// Number of tableau columns that receive cards in a deal (the middle one starts empty).
pub const NUM_DEALT_COLUMNS: usize = 10;
/// Position of the tableau column that starts empty.
pub const EMPTY_COLUMN: usize = 5;

/// What a depot is for.
#[derive(Clone, Copy, Debug, PartialEq, Eq, Structural, Hash)]
pub enum DepotRole {
    /// Trump foundation built up from the lowest trump.
    TrumpLow,
    /// Trump foundation built down from the highest trump.
    TrumpHigh,
    /// Where the last trump goes when the two trump foundations meet.
    TrumpLast,
    /// The four foundations of the common suits.
    CommonHome,
    /// The three free cells.
    FreeCell,
    /// The eleven tableau columns.
    Tableau,
}

impl DepotRole {
    /// Index of the first depot of this role.
    pub open spec fn start_of(self) -> int {
        match self {
            DepotRole::TrumpLow => 0,
            DepotRole::TrumpHigh => 1,
            DepotRole::TrumpLast => 2,
            DepotRole::CommonHome => 3,
            DepotRole::FreeCell => 7,
            DepotRole::Tableau => 10,
        }
    }

    /// Number of depots of this role.
    pub open spec fn size_of(self) -> int {
        match self {
            DepotRole::TrumpLow => 1,
            DepotRole::TrumpHigh => 1,
            DepotRole::TrumpLast => 1,
            DepotRole::CommonHome => 4,
            DepotRole::FreeCell => 3,
            DepotRole::Tableau => 11,
        }
    }

    /// Depot `d` has this role.
    pub open spec fn holds(self, d: int) -> bool {
        self.start_of() <= d < self.start_of() + self.size_of()
    }

    /// Index of the first depot of this role.
    pub fn first(self) -> (r: usize)
        ensures
            r == self.start_of(),
    {
        match self {
            DepotRole::TrumpLow => 0,
            DepotRole::TrumpHigh => 1,
            DepotRole::TrumpLast => 2,
            DepotRole::CommonHome => 3,
            DepotRole::FreeCell => 7,
            DepotRole::Tableau => 10,
        }
    }

    /// Number of depots of this role.
    pub fn number_of(self) -> (r: usize)
        ensures
            r == self.size_of(),
    {
        match self {
            DepotRole::TrumpLow => 1,
            DepotRole::TrumpHigh => 1,
            DepotRole::TrumpLast => 1,
            DepotRole::CommonHome => 4,
            DepotRole::FreeCell => 3,
            DepotRole::Tableau => 11,
        }
    }

    /// One past the index of the last depot of this role.
    pub fn end(self) -> (r: usize)
        ensures
            r == self.start_of() + self.size_of(),
    {
        self.first() + self.number_of()
    }

    /// Index of the `k`-th depot of this role.
    pub fn id(self, k: usize) -> (r: usize)
        requires
            k < self.size_of(),
        ensures
            r == self.start_of() + k,
    {
        self.first() + k
    }

    /// The role of depot `depot`, if it is on the board.
    pub fn role(depot: usize) -> (r: Option<DepotRole>)
        ensures
            r == role_of(depot as int),
    {
        if depot == 0 {
            Some(DepotRole::TrumpLow)
        } else if depot == 1 {
            Some(DepotRole::TrumpHigh)
        } else if depot == 2 {
            Some(DepotRole::TrumpLast)
        } else if depot < 7 {
            Some(DepotRole::CommonHome)
        } else if depot < 10 {
            Some(DepotRole::FreeCell)
        } else if depot < NUM_DEPOTS {
            Some(DepotRole::Tableau)
        } else {
            None
        }
    }

    /// The role of depot `depot` and its position among the depots of that role.
    pub fn role_and_subindex(depot: usize) -> (r: Option<(DepotRole, usize)>)
        ensures
            match role_of(depot as int) {
                Some(role) => r == Some((role, (depot - role.start_of()) as usize)),
                None => r is None,
            },
    {
        match DepotRole::role(depot) {
            Some(role) => Some((role, depot - role.first())),
            None => None,
        }
    }
}

/// The role of depot `d`: `None` when `d` is not a depot of the board.
pub open spec fn role_of(d: int) -> Option<DepotRole> {
    if d == 0 {
        Some(DepotRole::TrumpLow)
    } else if d == 1 {
        Some(DepotRole::TrumpHigh)
    } else if d == 2 {
        Some(DepotRole::TrumpLast)
    } else if 3 <= d < 7 {
        Some(DepotRole::CommonHome)
    } else if 7 <= d < 10 {
        Some(DepotRole::FreeCell)
    } else if 10 <= d < NUM_DEPOTS {
        Some(DepotRole::Tableau)
    } else {
        None
    }
}

/// Every depot has exactly one role, the one whose range holds it.
pub proof fn law_roles_partition_depots(d: int)
    ensures
        0 <= d < NUM_DEPOTS <==> role_of(d) is Some,
        role_of(d) matches Some(r) ==> r.holds(d),
        forall|r: DepotRole| #[trigger] r.holds(d) ==> role_of(d) == Some(r),
{
}

/// A position on the board: a depot and a card index within it.
#[derive(Clone, Copy, Debug, PartialEq, Eq, Structural, Hash)]
pub struct BoardPos {
    pub depot_index: usize,
    pub card_index: usize,
}

impl BoardPos {
    pub fn new(depot_index: usize, card_index: usize) -> (r: BoardPos)
        ensures
            r == (BoardPos { depot_index, card_index }),
    {
        BoardPos { depot_index, card_index }
    }
}

/// A pending animation: cards moving from one position to another.
#[derive(Clone, Copy, Debug, PartialEq, Eq, Structural, Hash)]
pub struct AnimationAct {
    pub from: BoardPos,
    pub to: BoardPos,
}

/// The cards on the board and the single-use free cell's flag: everything
/// that a move changes and an undo restores.
pub struct Layout {
    pub piles: Seq<Seq<Card>>,
    pub single_used: bool,
}

/// What a board holds, as mathematical values.
pub struct BoardView {
    pub layout: Layout,
    pub selected: Option<BoardPos>,
    pub acts: Seq<AnimationAct>,
}

impl Layout {
    /// The board with no cards on it.
    pub open spec fn empty() -> Layout {
        Layout { piles: Seq::new(NUM_DEPOTS as nat, |i: int| Seq::<Card>::empty()), single_used: false }
    }

    /// The cards of `from` from its card index up are taken off, top card first,
    /// and laid one by one on `to`: they land in reverse order.
    pub open spec fn moved(self, from: BoardPos, to: BoardPos) -> Layout {
        let src = self.piles[from.depot_index as int];
        let dst = self.piles[to.depot_index as int];
        Layout {
            piles: self.piles.update(from.depot_index as int, src.take(from.card_index as int)).update(
                to.depot_index as int,
                dst + src.skip(from.card_index as int).reverse(),
            ),
            single_used: self.single_used,
        }
    }

    /// The layout after the recorded action.
    pub open spec fn applied(self, rec: ActionRecord) -> Layout {
        match rec {
            ActionRecord::Move { pos1, pos2 } => self.moved(pos1, pos2),
            ActionRecord::FreeCellSingleUsed => Layout { single_used: true, ..self },
        }
    }

    /// The layout after taking the recorded action back.
    pub open spec fn reverted(self, rec: ActionRecord) -> Layout {
        match rec {
            ActionRecord::Move { pos1, pos2 } => self.moved(pos2, pos1),
            ActionRecord::FreeCellSingleUsed => Layout { single_used: false, ..self },
        }
    }

    /// The recorded action can be carried out on this layout, and taken back after.
    pub open spec fn step_ok(self, rec: ActionRecord) -> bool {
        match rec {
            ActionRecord::Move { pos1, pos2 } => {
                &&& pos1.depot_index < NUM_DEPOTS
                &&& pos2.depot_index < NUM_DEPOTS
                &&& pos1.depot_index != pos2.depot_index
                &&& pos1.card_index <= self.piles[pos1.depot_index as int].len()
                &&& pos2.card_index == self.piles[pos2.depot_index as int].len()
            },
            ActionRecord::FreeCellSingleUsed => !self.single_used,
        }
    }

    /// The layout has one pile per depot, no free cell holds more than one
    /// card, and a card in the single-use free cell means the cell is not yet used up.
    pub open spec fn cells_ok(self) -> bool {
        &&& self.piles.len() == NUM_DEPOTS
        &&& forall|d: int| #[trigger] DepotRole::FreeCell.holds(d) ==> self.piles[d].len() <= 1
        &&& self.piles[FREECELL_SINGLE_USE as int].len() > 0 ==> !self.single_used
    }
}

/// The layout after the recorded actions, in order, starting from `start`.
pub open spec fn replay(start: Layout, hist: Seq<ActionRecord>) -> Layout
    decreases hist.len(),
{
    if hist.len() == 0 {
        start
    } else {
        replay(start, hist.drop_last()).applied(hist.last())
    }
}

/// Every recorded action could be carried out where it stands in the history,
/// and every layout along the way keeps the free-cell rules.
pub open spec fn replay_ok(start: Layout, hist: Seq<ActionRecord>) -> bool
    decreases hist.len(),
{
    if hist.len() == 0 {
        start.cells_ok()
    } else {
        &&& replay_ok(start, hist.drop_last())
        &&& replay(start, hist.drop_last()).step_ok(hist.last())
        &&& replay(start, hist).cells_ok()
    }
}

/// A replayable history leaves every layout along the way within the free-cell rules.
pub proof fn lemma_replay_ok_cells(start: Layout, hist: Seq<ActionRecord>)
    requires
        replay_ok(start, hist),
    ensures
        replay(start, hist).cells_ok(),
        start.cells_ok(),
    decreases hist.len(),
{
    if hist.len() > 0 {
        lemma_replay_ok_cells(start, hist.drop_last());
    }
}

/// Replaying one more action is carrying it out on the replayed layout; the
/// history stays replayable when the action can be carried out and keeps the
/// free-cell rules.
pub proof fn lemma_replay_push(start: Layout, hist: Seq<ActionRecord>, rec: ActionRecord)
    ensures
        replay(start, hist.push(rec)) == replay(start, hist).applied(rec),
        replay_ok(start, hist) && replay(start, hist).step_ok(rec) && replay(start, hist).applied(
            rec,
        ).cells_ok() ==> replay_ok(start, hist.push(rec)),
{
    assert(hist.push(rec).drop_last() =~= hist);
}

/// Every prefix of a replayable history is replayable.
pub proof fn lemma_replay_ok_prefix(start: Layout, hist: Seq<ActionRecord>, k: int)
    requires
        replay_ok(start, hist),
        0 <= k <= hist.len(),
    ensures
        replay_ok(start, hist.take(k)),
    decreases hist.len(),
{
    if k == hist.len() {
        assert(hist.take(k) =~= hist);
    } else {
        lemma_replay_ok_prefix(start, hist.drop_last(), k);
        assert(hist.drop_last().take(k) =~= hist.take(k));
    }
}

/// Replaying `hist + more` is replaying `more` on the layout that `hist` leads to.
pub proof fn lemma_replay_concat(start: Layout, hist: Seq<ActionRecord>, more: Seq<ActionRecord>)
    ensures
        replay(start, hist + more) == replay(replay(start, hist), more),
        replay_ok(start, hist) && replay_ok(replay(start, hist), more) ==> replay_ok(
            start,
            hist + more,
        ),
    decreases more.len(),
{
    if more.len() == 0 {
        assert(hist + more =~= hist);
        if replay_ok(start, hist) {
            lemma_replay_ok_cells(start, hist);
        }
    } else {
        lemma_replay_concat(start, hist, more.drop_last());
        assert((hist + more).drop_last() =~= hist + more.drop_last());
        assert((hist + more).last() == more.last());
    }
}

/// Taking back an action that could be carried out restores the layout, and the
/// taking back can itself be carried out.
pub proof fn lemma_revert_undoes(l: Layout, rec: ActionRecord)
    requires
        l.piles.len() == NUM_DEPOTS,
        l.step_ok(rec),
    ensures
        l.applied(rec).reverted(rec) == l,
        rec matches ActionRecord::Move { pos1, pos2 } ==> l.applied(rec).step_ok(
            ActionRecord::Move { pos1: pos2, pos2: pos1 },
        ),
{
    match rec {
        ActionRecord::Move { pos1, pos2 } => {
            let a = l.applied(rec);
            let src = l.piles[pos1.depot_index as int];
            let dst = l.piles[pos2.depot_index as int];
            let moved = src.skip(pos1.card_index as int);
            assert((dst + moved.reverse()).skip(pos2.card_index as int) =~= moved.reverse());
            assert((dst + moved.reverse()).take(pos2.card_index as int) =~= dst);
            assert(moved.reverse().reverse() =~= moved);
            assert(src.take(pos1.card_index as int) + moved =~= src);
            assert(a.reverted(rec).piles =~= l.piles);
        },
        ActionRecord::FreeCellSingleUsed => {},
    }
}

/// The board views along the way as `recs` are carried out in order.
pub open spec fn applied_all(b: BoardView, recs: Seq<ActionRecord>) -> BoardView
    decreases recs.len(),
{
    if recs.len() == 0 {
        b
    } else {
        applied_all(b, recs.drop_last()).applied(recs.last())
    }
}

/// Carrying out actions on a board changes its layout as replaying them does.
pub proof fn lemma_applied_all_layout(b: BoardView, recs: Seq<ActionRecord>)
    ensures
        applied_all(b, recs).layout == replay(b.layout, recs),
    decreases recs.len(),
{
    if recs.len() > 0 {
        lemma_applied_all_layout(b, recs.drop_last());
    }
}

/// The board view after undoing: the history's last actions are taken back,
/// newest first, each followed by one animation step, until `target` remain.
pub open spec fn undone(b: BoardView, hist: Seq<ActionRecord>, target: nat) -> BoardView
    decreases hist.len(),
{
    if hist.len() <= target {
        b
    } else {
        undone(b.reverted(hist.last()).advanced(), hist.drop_last(), target)
    }
}

/// Taking back the history's newest actions, one after the other, until `target`
/// remain, can be carried out on the board: each move is taken back from where
/// its cards now lie to just above the top of the depot they came from.
pub open spec fn revertible(b: BoardView, hist: Seq<ActionRecord>, target: nat) -> bool
    decreases hist.len(),
{
    if hist.len() <= target {
        true
    } else {
        &&& match hist.last() {
            ActionRecord::Move { pos1, pos2 } => b.layout.step_ok(
                ActionRecord::Move { pos1: pos2, pos2: pos1 },
            ),
            ActionRecord::FreeCellSingleUsed => true,
        }
        &&& revertible(b.reverted(hist.last()).advanced(), hist.drop_last(), target)
    }
}

/// Undoing down to `target` actions leaves the layout that the first `target`
/// actions of the history make.
pub proof fn lemma_undone_layout(start: Layout, b: BoardView, hist: Seq<ActionRecord>, target: nat)
    requires
        replay_ok(start, hist),
        b.layout == replay(start, hist),
        target <= hist.len(),
    ensures
        undone(b, hist, target).layout == replay(start, hist.take(target as int)),
        revertible(b, hist, target),
    decreases hist.len(),
{
    if hist.len() <= target {
        assert(hist.take(target as int) =~= hist);
    } else {
        let prev = replay(start, hist.drop_last());
        lemma_replay_ok_cells(start, hist.drop_last());
        lemma_revert_undoes(prev, hist.last());
        lemma_undone_layout(start, b.reverted(hist.last()).advanced(), hist.drop_last(), target);
        assert(hist.drop_last().take(target as int) =~= hist.take(target as int));
    }
}

impl BoardView {
    /// The view after `Board::do_move(from, to)`.
    pub open spec fn moved(self, from: BoardPos, to: BoardPos) -> BoardView {
        BoardView {
            layout: self.layout.moved(from, to),
            selected: None,
            acts: self.acts.push(AnimationAct { from, to }),
        }
    }

    /// The view after the recorded action is carried out.
    pub open spec fn applied(self, rec: ActionRecord) -> BoardView {
        match rec {
            ActionRecord::Move { pos1, pos2 } => self.moved(pos1, pos2),
            ActionRecord::FreeCellSingleUsed => BoardView {
                layout: self.layout.applied(rec),
                ..self
            },
        }
    }

    /// The view after the recorded action is taken back.
    pub open spec fn reverted(self, rec: ActionRecord) -> BoardView {
        match rec {
            ActionRecord::Move { pos1, pos2 } => self.moved(pos2, pos1),
            ActionRecord::FreeCellSingleUsed => BoardView {
                layout: self.layout.reverted(rec),
                ..self
            },
        }
    }

    /// The view after the first pending animation has played.
    pub open spec fn advanced(self) -> BoardView {
        if self.acts.len() > 0 {
            BoardView { acts: self.acts.drop_first(), ..self }
        } else {
            self
        }
    }

    /// One pile per depot, and the selection (if any) points at a card.
    pub open spec fn wf(self) -> bool {
        &&& self.layout.piles.len() == NUM_DEPOTS
        &&& self.selected matches Some(p) ==> p.depot_index < NUM_DEPOTS && p.card_index
            < self.layout.piles[p.depot_index as int].len()
    }
}

/// The board.
#[derive(Clone, Debug, PartialEq, Eq)]
pub struct Board {
    pub depots: Vec<Vec<Card>>,
    pub selected: Option<BoardPos>,
    pub freecell_single_used: bool,
    pub animation_acts: Vec<AnimationAct>,
}

impl View for Board {
    type V = BoardView;

    open spec fn view(&self) -> BoardView {
        BoardView {
            layout: Layout {
                piles: self.depots@.map_values(|v: Vec<Card>| v@),
                single_used: self.freecell_single_used,
            },
            selected: self.selected,
            acts: self.animation_acts@,
        }
    }
}

/// Whether a card starts the game on its foundation: the common aces do.
pub open spec fn starts_home(c: Card) -> bool {
    c.suit != Suit::Trump && c.rank == RANK_MIN
}

/// The depot that receives `c` in a deal when `k` tableau cards were dealt before it:
/// an ace goes to the foundation of its suit; every other card to the next
/// tableau column in turn, the middle column left out.
pub open spec fn deal_target(c: Card, k: nat) -> int {
    if starts_home(c) {
        DepotRole::CommonHome.start_of() + common_position(c.suit)
    } else {
        let col = (k % NUM_DEALT_COLUMNS as nat) as int;
        DepotRole::Tableau.start_of() + if col < EMPTY_COLUMN { col } else { col + 1 }
    }
}

/// Number of cards of `deal` that are dealt to the tableau.
pub open spec fn tableau_count(deal: Seq<Card>) -> nat
    decreases deal.len(),
{
    if deal.len() == 0 {
        0
    } else {
        tableau_count(deal.drop_last()) + if starts_home(deal.last()) {
            0nat
        } else {
            1nat
        }
    }
}

/// The layout after dealing `deal` card by card onto an empty board.
pub open spec fn dealt(deal: Seq<Card>) -> Layout
    decreases deal.len(),
{
    if deal.len() == 0 {
        Layout::empty()
    } else {
        let prev = dealt(deal.drop_last());
        let t = deal_target(deal.last(), tableau_count(deal.drop_last()));
        Layout { piles: prev.piles.update(t, prev.piles[t].push(deal.last())), ..prev }
    }
}

/// A dealt board has one pile per depot, empty free cells and trump foundations,
/// and its single-use free cell not used.
pub proof fn lemma_dealt_shape(deal: Seq<Card>)
    ensures
        dealt(deal).piles.len() == NUM_DEPOTS,
        !dealt(deal).single_used,
        forall|d: int|
            0 <= d < 3 || DepotRole::FreeCell.holds(d) ==> (#[trigger] dealt(deal).piles[d]).len()
                == 0,
        dealt(deal).cells_ok(),
    decreases deal.len(),
{
    if deal.len() > 0 {
        lemma_dealt_shape(deal.drop_last());
    }
}

impl Board {
    /// One vector per depot, and the selection (if any) points at a card.
    pub open spec fn wf(&self) -> bool {
        &&& self.depots@.len() == NUM_DEPOTS
        &&& self@.wf()
    }

    /// The board with no cards.
    pub fn empty() -> (b: Board)
        ensures
            b@ == (BoardView { layout: Layout::empty(), selected: None, acts: Seq::empty() }),
            b.depots@.len() == NUM_DEPOTS,
    {
        let mut depots: Vec<Vec<Card>> = Vec::new();
        let mut i: usize = 0;
        while i < NUM_DEPOTS
            invariant
                i <= NUM_DEPOTS,
                depots@.len() == i,
                forall|j: int| 0 <= j < i ==> (#[trigger] depots@[j])@ == Seq::<Card>::empty(),
            decreases NUM_DEPOTS - i,
        {
            depots.push(Vec::new());
            i = i + 1;
        }
        let b = Board {
            depots,
            selected: None,
            freecell_single_used: false,
            animation_acts: Vec::new(),
        };
        assert(b@.layout.piles =~= Layout::empty().piles);
        b
    }

    /// The board at the start of a game dealt from `deal`.
    pub fn from_deal(deal: &Vec<Card>) -> (b: Board)
        ensures
            b@ == (BoardView { layout: dealt(deal@), selected: None, acts: Seq::empty() }),
            b.depots@.len() == NUM_DEPOTS,
    {
        let mut b = Board::empty();
        let mut k: usize = 0;
        let mut i: usize = 0;
        let ghost d = deal@;
        assert(d.take(0) =~= Seq::<Card>::empty());
        while i < deal.len()
            invariant
                i <= deal.len(),
                d == deal@,
                k == tableau_count(d.take(i as int)),
                k <= i,
                b@ == (BoardView { layout: dealt(d.take(i as int)), selected: None, acts: Seq::empty() }),
                b.depots@.len() == NUM_DEPOTS,
            decreases deal.len() - i,
        {
            let c = deal[i];
            assert(d.take(i + 1).drop_last() =~= d.take(i as int));
            proof {
                lemma_dealt_shape(d.take(i as int));
            }
            let target: usize = match c.suit.common_index() {
                Some(s) if c.rank == RANK_MIN => DepotRole::CommonHome.id(s),
                _ => {
                    let col = k % NUM_DEALT_COLUMNS;
                    let t = if col < EMPTY_COLUMN { col } else { col + 1 };
                    DepotRole::Tableau.id(t)
                },
            };
            assert(target == deal_target(c, k as nat));
            b.depots[target].push(c);
            if !(c.suit != Suit::Trump && c.rank == RANK_MIN) {
                k = k + 1;
            }
            i = i + 1;
            assert(b@.layout.piles =~= dealt(d.take(i as int)).piles);
        }
        assert(d.take(i as int) =~= d);
        b
    }

    /// The position just above the top card of `depot`.
    pub fn top_pos(&self, depot: usize) -> (p: BoardPos)
        requires
            depot < self.depots@.len(),
        ensures
            p.depot_index == depot,
            p.card_index == self@.layout.piles[depot as int].len(),
    {
        assert(self@.layout.piles[depot as int] == self.depots@[depot as int]@);
        BoardPos { depot_index: depot, card_index: self.depots[depot].len() }
    }

    /// Moves the cards of `from` from its card index up onto `to`, one by one
    /// from the top (so they land in reverse order), clears the selection and
    /// queues the animation.
    pub fn do_move(&mut self, from: BoardPos, to: BoardPos)
        requires
            old(self).depots@.len() == NUM_DEPOTS,
            old(self)@.layout.step_ok(ActionRecord::Move { pos1: from, pos2: to }),
        ensures
            final(self)@ == old(self)@.moved(from, to),
            final(self).depots@.len() == NUM_DEPOTS,
    {
        let ghost p0 = old(self)@.layout.piles;
        let ghost src = p0[from.depot_index as int];
        let ghost dst = p0[to.depot_index as int];
        while self.depots[from.depot_index].len() > from.card_index
            invariant
                self.depots@.len() == NUM_DEPOTS,
                from.depot_index < NUM_DEPOTS,
                to.depot_index < NUM_DEPOTS,
                from.depot_index != to.depot_index,
                from.card_index <= src.len(),
                from.card_index <= self@.layout.piles[from.depot_index as int].len() <= src.len(),
                self@.layout.piles[from.depot_index as int] == src.take(
                    self@.layout.piles[from.depot_index as int].len() as int,
                ),
                self@.layout.piles[to.depot_index as int] == dst + src.skip(
                    self@.layout.piles[from.depot_index as int].len() as int,
                ).reverse(),
                forall|j: int|
                    0 <= j < NUM_DEPOTS && j != from.depot_index && j != to.depot_index
                        ==> #[trigger] self@.layout.piles[j] == p0[j],
                self.selected == old(self).selected,
                self.freecell_single_used == old(self).freecell_single_used,
                self.animation_acts == old(self).animation_acts,
            decreases self.depots@[from.depot_index as int]@.len(),
        {
            let ghost n = self@.layout.piles[from.depot_index as int].len();
            let ghost before = self@.layout.piles;
            let c = self.depots[from.depot_index].pop().unwrap();
            self.depots[to.depot_index].push(c);
            assert forall|j: int|
                0 <= j < NUM_DEPOTS && j != from.depot_index && j != to.depot_index
                    implies #[trigger] self@.layout.piles[j] == p0[j] by {
                assert(self@.layout.piles[j] == before[j]);
            }
            assert(src.take(n - 1) =~= src.take(n as int).drop_last());
            assert(src.skip(n - 1).reverse() =~= src.skip(n as int).reverse().push(c));
            assert(self@.layout.piles[from.depot_index as int] =~= src.take(n - 1));
        }
        self.selected = None;
        self.animation_acts.push(AnimationAct { from, to });
        assert(self@.layout.piles =~= old(self)@.moved(from, to).layout.piles);
    }

    /// Whether the recorded action can be carried out on this board.
    pub fn can_apply(&self, rec: ActionRecord) -> (r: bool)
        requires
            self.depots@.len() == NUM_DEPOTS,
        ensures
            r == self@.layout.step_ok(rec),
    {
        match rec {
            ActionRecord::Move { pos1, pos2 } => {
                if pos1.depot_index >= NUM_DEPOTS || pos2.depot_index >= NUM_DEPOTS
                    || pos1.depot_index == pos2.depot_index {
                    return false;
                }
                assert(self@.layout.piles[pos1.depot_index as int] == self.depots@[pos1.depot_index as int]@);
                assert(self@.layout.piles[pos2.depot_index as int] == self.depots@[pos2.depot_index as int]@);
                pos1.card_index <= self.depots[pos1.depot_index].len()
                    && pos2.card_index == self.depots[pos2.depot_index].len()
            },
            ActionRecord::FreeCellSingleUsed => !self.freecell_single_used,
        }
    }

    /// Carries out the recorded action.
    pub fn apply(&mut self, rec: ActionRecord)
        requires
            old(self).depots@.len() == NUM_DEPOTS,
            old(self)@.layout.step_ok(rec),
        ensures
            final(self)@ == old(self)@.applied(rec),
            final(self).depots@.len() == NUM_DEPOTS,
    {
        match rec {
            ActionRecord::Move { pos1, pos2 } => self.do_move(pos1, pos2),
            ActionRecord::FreeCellSingleUsed => {
                self.freecell_single_used = true;
            },
        }
    }

    /// Whether the free cells each hold at most one card and a card in the
    /// single-use cell goes with the cell not used up.
    pub fn cells_ok(&self) -> (r: bool)
        requires
            self.depots@.len() == NUM_DEPOTS,
        ensures
            r == self@.layout.cells_ok(),
    {
        let mut d = DepotRole::FreeCell.first();
        while d < DepotRole::FreeCell.end()
            invariant
                DepotRole::FreeCell.start_of() <= d <= DepotRole::FreeCell.start_of()
                    + DepotRole::FreeCell.size_of(),
                self.depots@.len() == NUM_DEPOTS,
                forall|e: int|
                    DepotRole::FreeCell.start_of() <= e < d ==> #[trigger] self@.layout.piles[e].len()
                        <= 1,
            decreases DepotRole::FreeCell.start_of() + DepotRole::FreeCell.size_of() - d,
        {
            assert(self@.layout.piles[d as int] == self.depots@[d as int]@);
            if self.depots[d].len() > 1 {
                assert(DepotRole::FreeCell.holds(d as int));
                return false;
            }
            d = d + 1;
        }
        assert(self@.layout.piles[FREECELL_SINGLE_USE as int] == self.depots@[FREECELL_SINGLE_USE as int]@);
        !(self.depots[FREECELL_SINGLE_USE].len() > 0 && self.freecell_single_used)
    }

    /// Whether the two boards hold the same cards in the same places.
    pub fn same_cards(&self, other: &Board) -> (r: bool)
        requires
            self.depots@.len() == NUM_DEPOTS,
            other.depots@.len() == NUM_DEPOTS,
        ensures
            r == (self@.layout.piles == other@.layout.piles),
    {
        let mut d: usize = 0;
        while d < NUM_DEPOTS
            invariant
                d <= NUM_DEPOTS,
                self.depots@.len() == NUM_DEPOTS,
                other.depots@.len() == NUM_DEPOTS,
                forall|e: int| 0 <= e < d ==> #[trigger] self@.layout.piles[e] == other@.layout.piles[e],
            decreases NUM_DEPOTS - d,
        {
            let a = &self.depots[d];
            let b = &other.depots[d];
            assert(self@.layout.piles[d as int] == a@);
            assert(other@.layout.piles[d as int] == b@);
            if a.len() != b.len() {
                return false;
            }
            let mut i: usize = 0;
            while i < a.len()
                invariant
                    i <= a@.len(),
                    a@.len() == b@.len(),
                    d < NUM_DEPOTS,
                    self@.layout.piles[d as int] == a@,
                    other@.layout.piles[d as int] == b@,
                    forall|j: int| 0 <= j < i ==> #[trigger] a@[j] == b@[j],
                decreases a@.len() - i,
            {
                if a[i] != b[i] {
                    assert(self@.layout.piles[d as int][i as int] != other@.layout.piles[d as int][i as int]);
                    return false;
                }
                i = i + 1;
            }
            assert(a@ =~= b@);
            d = d + 1;
        }
        assert(self@.layout.piles =~= other@.layout.piles);
        true
    }

    /// A copy of the board.
    pub fn duplicate(&self) -> (r: Board)
        ensures
            r@ == self@,
            r.depots@.len() == self.depots@.len(),
    {
        let mut depots: Vec<Vec<Card>> = Vec::new();
        let mut d: usize = 0;
        while d < self.depots.len()
            invariant
                d <= self.depots@.len(),
                depots@.len() == d,
                forall|e: int| 0 <= e < d ==> #[trigger] depots@[e]@ == self.depots@[e]@,
            decreases self.depots@.len() - d,
        {
            let src = &self.depots[d];
            let mut pile: Vec<Card> = Vec::new();
            let mut i: usize = 0;
            while i < src.len()
                invariant
                    i <= src@.len(),
                    pile@ == src@.take(i as int),
                decreases src@.len() - i,
            {
                pile.push(src[i]);
                i = i + 1;
                assert(pile@ =~= src@.take(i as int));
            }
            assert(src@.take(src@.len() as int) =~= src@);
            depots.push(pile);
            d = d + 1;
        }
        let mut acts: Vec<AnimationAct> = Vec::new();
        let mut i: usize = 0;
        while i < self.animation_acts.len()
            invariant
                i <= self.animation_acts@.len(),
                acts@ == self.animation_acts@.take(i as int),
            decreases self.animation_acts@.len() - i,
        {
            acts.push(self.animation_acts[i]);
            i = i + 1;
            assert(acts@ =~= self.animation_acts@.take(i as int));
        }
        assert(self.animation_acts@.take(self.animation_acts@.len() as int) =~= self.animation_acts@);
        let r = Board {
            depots,
            selected: self.selected,
            freecell_single_used: self.freecell_single_used,
            animation_acts: acts,
        };
        assert(r@.layout.piles =~= self@.layout.piles);
        r
    }

    /// Drops the first pending animation, if there is one.
    pub fn advance_actions(&mut self)
        ensures
            final(self)@ == old(self)@.advanced(),
            final(self).depots == old(self).depots,
    {
        if self.animation_acts.len() > 0 {
            self.animation_acts.remove(0);
            assert(self.animation_acts@ =~= old(self).animation_acts@.drop_first());
        }
    }
}

} // verus!
