//! One game from the first move to its end.
//!
//! A session starts without mines. The first tile that the player opens
//! fixes them: they are placed away from that tile and its neighbourhood and
//! never change afterwards. Opening a mine loses the game; a lost session
//! takes no further moves.

use vstd::prelude::*;
use std::collections::HashSet;
use crate::board::{toggled, Board, Tile};
use crate::command::InputAction;
use crate::cascade::{
    lemma_reached_holds_no_mine, lemma_revealed_keeps_open, lemma_revealed_twice, reached,
    reveal_tiles, revealed,
};
use crate::neighbours::adjacent_mines;
use crate::placement::{generate_mine_positions, is_placement};

verus! {

broadcast use vstd::std_specs::hash::group_hash_axioms;

/// How an attempt to open a tile ended.
#[derive(Clone, Copy, Debug, PartialEq, Eq, Structural)]
pub enum Outcome {
    /// The move was applied and the game goes on.
    Continued,
    /// A mine was opened, now or before: the game is lost.
    Lost,
}

/// How a move ended.
#[derive(Clone, Copy, Debug, PartialEq, Eq, Structural)]
pub enum Turn {
    /// The move was applied and the game goes on.
    Continued,
    /// A mine was opened, now or before: the game is lost.
    Lost,
    /// The player ended the game.
    Exited,
}

/// Where a session stands.
#[derive(Clone, Copy, Debug, PartialEq, Eq, Structural)]
pub enum Phase {
    /// No tile has been opened and no mine is placed.
    Uninitialized,
    /// The mines are placed.
    Active,
    /// A mine was opened.
    Lost,
}

/// A session as the contracts see it.
pub struct SessionView {
    /// The tiles, row by row.
    pub tiles: Seq<Tile>,
    /// The mines, once they are placed.
    pub mines: Option<Set<usize>>,
    /// Whether a mine was opened.
    pub lost: bool,
    /// The number of rows.
    pub row_count: usize,
    /// The number of columns.
    pub col_count: usize,
    /// The number of mines to place.
    pub mine_count: usize,
}

impl SessionView {
    /// Where the session stands.
    pub open spec fn phase(self) -> Phase {
        if self.lost {
            Phase::Lost
        } else if self.mines is Some {
            Phase::Active
        } else {
            Phase::Uninitialized
        }
    }

    /// What holds of every session: the board has one tile for each index,
    /// no tile is open before the mines are placed, no open tile holds a
    /// mine, every open tile shows the number of mines in its neighbourhood,
    /// and only a game with mines can be lost.
    pub open spec fn wf(self) -> bool {
        &&& self.tiles.len() == self.row_count * self.col_count
        &&& self.tiles.len() <= usize::MAX
        &&& self.lost ==> self.mines is Some
        &&& forall|i: int| 0 <= i < self.tiles.len() ==> #[trigger] self.shows_truly(i)
    }

    /// Whether the tile at `i`, if open, holds no mine and shows the number
    /// of mines in its neighbourhood.
    pub open spec fn shows_truly(self, i: int) -> bool {
        match self.tiles[i] {
            Tile::Open(shown) => {
                &&& self.mines matches Some(mines)
                &&& !mines.contains(i as usize)
                &&& shown == adjacent_mines(i as usize, mines, self.row_count, self.col_count)
            },
            _ => true,
        }
    }

    /// Whether the mines are placed and the tile at `index` holds one.
    pub open spec fn holds_mine(self, index: usize) -> bool {
        self.mines matches Some(mines) && mines.contains(index)
    }

    /// The session after a flag toggle on the tile at `index`.
    pub open spec fn flagged(self, index: usize) -> SessionView {
        SessionView {
            tiles: self.tiles.update(index as int, toggled(self.tiles[index as int])),
            ..self
        }
    }

    /// The session once `fresh` is offered as its mines: they are taken
    /// where none are placed yet.
    pub open spec fn placed(self, fresh: Set<usize>) -> SessionView {
        if self.mines is None {
            SessionView { mines: Some(fresh), ..self }
        } else {
            self
        }
    }

    /// How opening the tile at `index` ends, the mines being placed.
    pub open spec fn outcome(self, index: usize) -> Outcome
        recommends
            self.mines is Some,
    {
        if self.lost || self.mines->0.contains(index) {
            Outcome::Lost
        } else {
            Outcome::Continued
        }
    }

    /// Whether opening the tile at `index` may lead to the session `after`
    /// with the outcome `outcome`. Where no mines are placed yet, any
    /// placement for that tile may be taken; the session goes on from it as
    /// [`SessionView::opened`] says.
    pub open spec fn opens_into(self, index: usize, after: SessionView, outcome: Outcome) -> bool {
        &&& after.mines matches Some(mines) && {
            &&& self.mines is None ==> is_placement(
                mines,
                self.mine_count,
                index,
                self.row_count,
                self.col_count,
            )
            &&& after == self.placed(mines).opened(index)
            &&& outcome == self.placed(mines).outcome(index)
        }
    }

    /// The session after opening the tile at `index`, the mines being
    /// placed: lost where the tile holds a mine, and else with the cascade
    /// from that tile run. A lost session stays as it is.
    pub open spec fn opened(self, index: usize) -> SessionView
        recommends
            self.mines is Some,
    {
        if self.lost {
            self
        } else if self.mines->0.contains(index) {
            SessionView { lost: true, ..self }
        } else {
            SessionView {
                tiles: revealed(
                    self.tiles,
                    self.mines->0,
                    self.row_count,
                    self.col_count,
                    set![index],
                ),
                ..self
            }
        }
    }
}

/// Flagging keeps a session well formed.
pub proof fn lemma_flagged_wf(session: SessionView, index: usize)
    requires
        session.wf(),
        index < session.tiles.len(),
    ensures
        session.flagged(index).wf(),
{
    let after = session.flagged(index);
    assert forall|i: int| 0 <= i < after.tiles.len() implies #[trigger] after.shows_truly(i) by {
        assert(session.shows_truly(i));
    }
}

/// Taking mines keeps a session well formed.
pub proof fn lemma_placed_wf(session: SessionView, fresh: Set<usize>)
    requires
        session.wf(),
    ensures
        session.placed(fresh).wf(),
{
    let after = session.placed(fresh);
    assert forall|i: int| 0 <= i < after.tiles.len() implies #[trigger] after.shows_truly(i) by {
        assert(session.shows_truly(i));
    }
}

/// Opening a tile keeps a session well formed.
pub proof fn lemma_opened_wf(session: SessionView, index: usize)
    requires
        session.wf(),
        session.mines is Some,
        index < session.tiles.len(),
    ensures
        session.opened(index).wf(),
{
    let after = session.opened(index);
    let mines = session.mines->0;
    let rows = session.row_count;
    let cols = session.col_count;
    assert(1 <= cols && 1 <= rows * cols) by (nonlinear_arith)
        requires
            index < rows * cols,
    ;
    lemma_revealed_keeps_open(session.tiles, mines, rows, cols, set![index]);
    assert forall|i: int| 0 <= i < after.tiles.len() implies #[trigger] after.shows_truly(i) by {
        assert(session.shows_truly(i));
        let at = i as usize;
        if !session.lost && !mines.contains(index) && reached(
            session.tiles,
            mines,
            rows,
            cols,
            set![index],
            at,
        ) {
            lemma_reached_holds_no_mine(session.tiles, mines, rows, cols, set![index], at);
            crate::neighbours::lemma_adjacent_mines_bound(at, mines, rows, cols);
        }
    }
}

/// Two flag toggles on one tile leave the session as it was.
pub proof fn lemma_flagged_twice(session: SessionView, index: usize)
    requires
        index < session.tiles.len(),
    ensures
        session.flagged(index).flagged(index) == session,
{
    assert(session.flagged(index).flagged(index).tiles =~= session.tiles);
}

/// Opening a tile that holds a mine loses the game and opens nothing.
pub proof fn lemma_mine_loses(session: SessionView, index: usize)
    requires
        session.holds_mine(index),
    ensures
        session.outcome(index) == Outcome::Lost,
        session.opened(index).lost,
        session.opened(index).tiles == session.tiles,
{
}

/// Opening the same tile a second time changes nothing.
pub proof fn lemma_opened_twice(session: SessionView, index: usize)
    requires
        session.wf(),
        session.mines is Some,
    ensures
        session.opened(index).opened(index) == session.opened(index),
{
    if !session.lost && !session.mines->0.contains(index) {
        lemma_revealed_twice(
            session.tiles,
            session.mines->0,
            session.row_count,
            session.col_count,
            set![index],
        );
    }
}

/// The first tile opened never holds a mine: with mines placed for it, the
/// game goes on.
pub proof fn lemma_first_move_safe(session: SessionView, index: usize, fresh: Set<usize>)
    requires
        session.wf(),
        session.mines is None,
        is_placement(fresh, session.mine_count, index, session.row_count, session.col_count),
    ensures
        session.placed(fresh).outcome(index) == Outcome::Continued,
{
    crate::placement::lemma_placement_spares_origin(
        fresh,
        session.mine_count,
        index,
        session.row_count,
        session.col_count,
    );
}

/// A game: the board, the mines once they are placed, and whether it is
/// lost.
pub struct GameSession {
    board: Board,
    mines: Option<HashSet<usize>>,
    lost: bool,
    row_count: usize,
    col_count: usize,
    mine_count: usize,
}

impl View for GameSession {
    type V = SessionView;

    closed spec fn view(&self) -> SessionView {
        SessionView {
            tiles: self.board@,
            mines: match self.mines {
                Some(mines) => Some(mines@),
                None => None,
            },
            lost: self.lost,
            row_count: self.row_count,
            col_count: self.col_count,
            mine_count: self.mine_count,
        }
    }
}

/// A new game on a board of `row_count` rows and `col_count` columns, every
/// tile concealed, in which `mine_count` mines will be placed at the first
/// move.
pub fn new_session(row_count: usize, col_count: usize, mine_count: usize) -> (session: GameSession)
    requires
        row_count * col_count <= usize::MAX,
    ensures
        session@.wf(),
        session@ == (SessionView {
            tiles: Seq::new((row_count * col_count) as nat, |i: int| Tile::Concealed),
            mines: None,
            lost: false,
            row_count,
            col_count,
            mine_count,
        }),
{
    GameSession {
        board: Board::new(row_count, col_count),
        mines: None,
        lost: false,
        row_count,
        col_count,
        mine_count,
    }
}

impl GameSession {
    /// Where the session stands.
    pub fn phase(&self) -> (phase: Phase)
        ensures
            phase == self@.phase(),
    {
        if self.lost {
            Phase::Lost
        } else if self.mines.is_some() {
            Phase::Active
        } else {
            Phase::Uninitialized
        }
    }

    /// The number of rows.
    pub fn row_count(&self) -> (rows: usize)
        ensures
            rows == self@.row_count,
    {
        self.row_count
    }

    /// The number of columns.
    pub fn col_count(&self) -> (cols: usize)
        ensures
            cols == self@.col_count,
    {
        self.col_count
    }

    /// The number of mines that the first move places.
    pub fn mine_count(&self) -> (count: usize)
        ensures
            count == self@.mine_count,
    {
        self.mine_count
    }

    /// A copy of every tile, in board order, as the player sees it.
    pub fn snapshot(&self) -> (tiles: Vec<Tile>)
        ensures
            tiles@ == self@.tiles,
    {
        self.board.snapshot()
    }

    /// Whether the mines are placed and the tile at `index` holds one.
    pub fn is_mine(&self, index: usize) -> (hit: bool)
        ensures
            hit == self@.holds_mine(index),
    {
        match &self.mines {
            Some(mines) => mines.contains(&index),
            None => false,
        }
    }

    /// Sets or removes the flag on the tile at `index`. An open tile stays
    /// as it is.
    pub fn flag(&mut self, index: usize)
        requires
            old(self)@.wf(),
            index < old(self)@.row_count * old(self)@.col_count,
        ensures
            final(self)@.wf(),
            final(self)@ == old(self)@.flagged(index),
    {
        proof {
            lemma_flagged_wf(self@, index);
        }
        self.board.toggle_flag(index);
    }

    /// Takes `fresh` as the mines of this session if none are placed yet,
    /// and says whether it did.
    pub fn place_mines(&mut self, fresh: HashSet<usize>) -> (taken: bool)
        requires
            old(self)@.wf(),
        ensures
            final(self)@.wf(),
            final(self)@ == old(self)@.placed(fresh@),
            taken == (old(self)@.mines is None),
    {
        proof {
            lemma_placed_wf(self@, fresh@);
        }
        if self.mines.is_none() {
            self.mines = Some(fresh);
            true
        } else {
            false
        }
    }

    /// Opens the tile at `index` in a session whose mines are placed. On a
    /// mine the game is lost and no tile changes. Else the tile, if
    /// concealed, is opened and the cascade runs from it.
    pub fn open_placed(&mut self, index: usize) -> (outcome: Outcome)
        requires
            old(self)@.wf(),
            old(self)@.mines is Some,
            index < old(self)@.row_count * old(self)@.col_count,
        ensures
            final(self)@.wf(),
            final(self)@ == old(self)@.opened(index),
            outcome == old(self)@.outcome(index),
            old(self)@.holds_mine(index) ==> outcome == Outcome::Lost && final(self)@.tiles == old(
                self,
            )@.tiles,
    {
        proof {
            lemma_opened_wf(self@, index);
        }
        if self.lost {
            return Outcome::Lost;
        }
        match &self.mines {
            Some(mines) => {
                if mines.contains(&index) {
                    self.lost = true;
                    Outcome::Lost
                } else {
                    reveal_tiles(&mut self.board, index, mines, self.row_count, self.col_count);
                    Outcome::Continued
                }
            },
            None => Outcome::Lost,
        }
    }

    /// Opens the tile at `index`. The first time, the mines are placed
    /// beforehand, away from that tile and its neighbourhood, so that the
    /// first move is never lost.
    pub fn open(&mut self, index: usize) -> (outcome: Outcome)
        requires
            old(self)@.wf(),
            index < old(self)@.row_count * old(self)@.col_count,
        ensures
            final(self)@.wf(),
            old(self)@.opens_into(index, final(self)@, outcome),
            old(self)@.mines is None ==> outcome == Outcome::Continued,
            old(self)@.holds_mine(index) ==> outcome == Outcome::Lost && final(self)@.tiles == old(
                self,
            )@.tiles,
    {
        if self.mines.is_none() {
            let fresh = generate_mine_positions(
                self.mine_count,
                index,
                self.row_count,
                self.col_count,
            );
            proof {
                lemma_first_move_safe(self@, index, fresh@);
            }
            self.place_mines(fresh);
        }
        self.open_placed(index)
    }

    /// Makes the move that the player asks for: a flag toggle, the opening
    /// of a tile, or the end of the game, which changes nothing.
    pub fn act(&mut self, action: InputAction) -> (turn: Turn)
        requires
            old(self)@.wf(),
            action matches InputAction::Flag(index) ==> index < old(self)@.row_count * old(
                self,
            )@.col_count,
            action matches InputAction::Open(index) ==> index < old(self)@.row_count * old(
                self,
            )@.col_count,
        ensures
            final(self)@.wf(),
            match action {
                InputAction::Flag(index) => {
                    &&& turn == Turn::Continued
                    &&& final(self)@ == old(self)@.flagged(index)
                },
                InputAction::Open(index) => {
                    &&& turn == Turn::Continued ==> old(self)@.opens_into(
                        index,
                        final(self)@,
                        Outcome::Continued,
                    )
                    &&& turn == Turn::Lost ==> old(self)@.opens_into(
                        index,
                        final(self)@,
                        Outcome::Lost,
                    )
                    &&& turn != Turn::Exited
                    &&& old(self)@.mines is None ==> turn == Turn::Continued
                    &&& old(self)@.holds_mine(index) ==> turn == Turn::Lost && final(self)@.tiles
                        == old(self)@.tiles
                },
                InputAction::Exit => {
                    &&& turn == Turn::Exited
                    &&& final(self)@ == old(self)@
                },
            },
    {
        match action {
            InputAction::Flag(index) => {
                self.flag(index);
                Turn::Continued
            },
            InputAction::Open(index) => {
                match self.open(index) {
                    Outcome::Continued => Turn::Continued,
                    Outcome::Lost => Turn::Lost,
                }
            },
            InputAction::Exit => Turn::Exited,
        }
    }

    /// Ends the session and hands out its tiles as they stand.
    pub fn exit(self) -> (tiles: Vec<Tile>)
        ensures
            tiles@ == self@.tiles,
    {
        self.board.snapshot()
    }
}

} // verus!
