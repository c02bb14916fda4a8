//! Tiles and the board that owns them.

use vstd::prelude::*;
use std::collections::HashSet;
use crate::neighbours::{adjacent_mines, count_neighbouring_mines};

verus! {

/// What the player sees of one tile.
#[derive(Clone, Copy, Debug, PartialEq, Eq, Structural)]
pub enum Tile {
    /// Marked by the player as a suspected mine.
    Flagged,
    /// Not yet opened.
    Concealed,
    /// Opened and safe, with the number of mines in its neighbourhood.
    Open(usize),
}

/// What opening one tile found.
#[derive(Clone, Copy, Debug, PartialEq, Eq, Structural)]
pub struct Opened {
    /// The number of mines in the tile's neighbourhood.
    pub count: usize,
    /// Whether the tile's neighbours are to be opened as well.
    pub cascade: bool,
}

/// The tile that a flag toggle turns `tile` into.
pub open spec fn toggled(tile: Tile) -> Tile {
    match tile {
        Tile::Flagged => Tile::Concealed,
        Tile::Concealed => Tile::Flagged,
        Tile::Open(count) => Tile::Open(count),
    }
}

/// The positions of the concealed tiles of `tiles`.
pub open spec fn concealed_cells(tiles: Seq<Tile>) -> Set<int> {
    Set::new(|i: int| 0 <= i < tiles.len() && tiles[i] == Tile::Concealed)
}

/// The number of concealed tiles of `tiles`.
pub open spec fn concealed_count(tiles: Seq<Tile>) -> nat {
    concealed_cells(tiles).len()
}

/// The concealed tiles of a board are finitely many, at most one per tile.
pub proof fn lemma_concealed_finite(tiles: Seq<Tile>)
    ensures
        concealed_cells(tiles).finite(),
        concealed_count(tiles) <= tiles.len(),
{
    vstd::set_lib::lemma_int_range(0, tiles.len() as int);
    vstd::set_lib::lemma_len_subset(
        concealed_cells(tiles),
        vstd::set_lib::set_int_range(0, tiles.len() as int),
    );
}

/// Where no tile becomes concealed, the number of concealed tiles does not
/// grow.
pub proof fn lemma_concealed_shrinks(before: Seq<Tile>, after: Seq<Tile>)
    requires
        before.len() == after.len(),
        forall|i: int|
            0 <= i < after.len() && after[i] == Tile::Concealed ==> before[i] == Tile::Concealed,
    ensures
        concealed_count(after) <= concealed_count(before),
{
    lemma_concealed_finite(before);
    vstd::set_lib::lemma_len_subset(concealed_cells(after), concealed_cells(before));
}

/// Where no tile becomes concealed and the concealed tile at `index` is
/// opened, the number of concealed tiles drops.
pub proof fn lemma_concealed_drops(before: Seq<Tile>, after: Seq<Tile>, index: int)
    requires
        before.len() == after.len(),
        forall|i: int|
            0 <= i < after.len() && after[i] == Tile::Concealed ==> before[i] == Tile::Concealed,
        0 <= index < before.len(),
        before[index] == Tile::Concealed,
        after[index] != Tile::Concealed,
    ensures
        concealed_count(after) < concealed_count(before),
{
    lemma_concealed_finite(before);
    assert(concealed_cells(before).contains(index));
    vstd::set_lib::lemma_len_subset(concealed_cells(after), concealed_cells(before).remove(index));
}

/// The grid of tiles, row by row. All changes to a tile go through
/// [`Board::toggle_flag`] and [`Board::reveal_one`].
pub struct Board {
    cells: Vec<Tile>,
}

impl View for Board {
    type V = Seq<Tile>;

    closed spec fn view(&self) -> Seq<Tile> {
        self.cells@
    }
}

impl Board {
    /// A board of `row_count` rows and `col_count` columns, every tile
    /// concealed.
    pub fn new(row_count: usize, col_count: usize) -> (board: Board)
        requires
            row_count * col_count <= usize::MAX,
        ensures
            board@ == Seq::new((row_count * col_count) as nat, |i: int| Tile::Concealed),
    {
        let total: usize = col_count * row_count;
        let mut cells: Vec<Tile> = Vec::new();
        let mut filled: usize = 0;
        while filled < total
            invariant
                filled <= total,
                cells@ == Seq::new(filled as nat, |i: int| Tile::Concealed),
            decreases total - filled,
        {
            cells.push(Tile::Concealed);
            filled = filled + 1;
            assert(cells@ =~= Seq::new(filled as nat, |i: int| Tile::Concealed));
        }
        Board { cells }
    }

    /// A board never holds more tiles than an index can address.
    pub proof fn lemma_len_fits(&self)
        ensures
            self@.len() <= usize::MAX,
    {
        assert(self.cells@.len() == self.cells.len());
    }

    /// The number of tiles.
    pub fn len(&self) -> (count: usize)
        ensures
            count == self@.len(),
    {
        self.cells.len()
    }

    /// The tile at `index`.
    pub fn tile(&self, index: usize) -> (tile: Tile)
        requires
            index < self@.len(),
        ensures
            tile == self@[index as int],
    {
        self.cells[index]
    }

    /// A copy of every tile, in board order.
    pub fn snapshot(&self) -> (tiles: Vec<Tile>)
        ensures
            tiles@ == self@,
    {
        let mut tiles: Vec<Tile> = Vec::new();
        let mut at: usize = 0;
        while at < self.cells.len()
            invariant
                at <= self.cells.len(),
                tiles@ == self.cells@.take(at as int),
            decreases self.cells.len() - at,
        {
            tiles.push(self.cells[at]);
            at = at + 1;
            assert(tiles@ =~= self.cells@.take(at as int));
        }
        assert(self.cells@.take(at as int) =~= self.cells@);
        tiles
    }

    /// Sets or removes the flag on the tile at `index`. An open tile stays
    /// as it is.
    pub fn toggle_flag(&mut self, index: usize)
        requires
            index < old(self)@.len(),
        ensures
            final(self)@ == old(self)@.update(index as int, toggled(old(self)@[index as int])),
    {
        let next = match self.cells[index] {
            Tile::Flagged => Tile::Concealed,
            Tile::Concealed => Tile::Flagged,
            Tile::Open(count) => Tile::Open(count),
        };
        self.cells[index] = next;
    }

    /// Opens the tile at `index` if it is concealed, showing the number of
    /// mines in its neighbourhood, and reports that number. A flagged or open
    /// tile stays as it is.
    pub fn reveal_one(
        &mut self,
        index: usize,
        mine_set: &HashSet<usize>,
        row_count: usize,
        col_count: usize,
    ) -> (opened: Option<Opened>)
        requires
            old(self)@.len() == row_count * col_count,
            index < row_count * col_count,
        ensures
            old(self)@[index as int] != Tile::Concealed ==> opened is None && final(self)@ == old(
                self,
            )@,
            old(self)@[index as int] == Tile::Concealed ==> {
                let count = adjacent_mines(index, mine_set@, row_count, col_count);
                &&& opened == Some(Opened { count: count as usize, cascade: count == 0 })
                &&& count <= 8
                &&& final(self)@ == old(self)@.update(index as int, Tile::Open(count as usize))
            },
    {
        assert(1 <= col_count && 1 <= row_count * col_count) by (nonlinear_arith)
            requires
                index < row_count * col_count,
        ;
        assert(row_count * col_count == self.cells.len());
        match self.cells[index] {
            Tile::Concealed => {
                let count = count_neighbouring_mines(index, mine_set, row_count, col_count);
                self.cells[index] = Tile::Open(count);
                Some(Opened { count, cascade: count == 0 })
            },
            _ => None,
        }
    }
}

/// Sets or removes the flag on the tile at `tile_idx` of `board`: a concealed
/// tile becomes flagged, a flagged one concealed, and an open one stays as
/// it is. No other tile changes.
pub fn flag_tile(board: &mut Board, tile_idx: usize)
    requires
        tile_idx < old(board)@.len(),
    ensures
        final(board)@ == old(board)@.update(tile_idx as int, toggled(old(board)@[tile_idx as int])),
        old(board)@[tile_idx as int] == Tile::Concealed ==> final(board)@[tile_idx as int]
            == Tile::Flagged,
        old(board)@[tile_idx as int] == Tile::Flagged ==> final(board)@[tile_idx as int]
            == Tile::Concealed,
        old(board)@[tile_idx as int] is Open ==> final(board)@ == old(board)@,
{
    board.toggle_flag(tile_idx);
    assert(old(board)@[tile_idx as int] is Open ==> board@ =~= old(board)@);
}

/// Two flag toggles on one tile leave the board as it was.
pub proof fn lemma_toggled_twice(tiles: Seq<Tile>, index: int)
    requires
        0 <= index < tiles.len(),
    ensures
        toggled(toggled(tiles[index])) == tiles[index],
        tiles.update(index, toggled(tiles[index])).update(
            index,
            toggled(tiles.update(index, toggled(tiles[index]))[index]),
        ) == tiles,
{
    assert(tiles.update(index, toggled(tiles[index])).update(
        index,
        toggled(tiles.update(index, toggled(tiles[index]))[index]),
    ) =~= tiles);
}

} // verus!
