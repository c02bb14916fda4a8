//! The cascading reveal.
//!
//! Opening a concealed tile shows the number of mines around it. Where that
//! number is zero, the concealed tiles of its neighbourhood are opened in
//! turn, and so on. The cascade runs wave by wave over a frontier of pending
//! tiles instead of by recursion, so its depth is not bound to the call
//! stack.

use vstd::prelude::*;
use vstd::std_specs::hash::spec_hash_keys_iter;
use vstd::std_specs::iter::IteratorSpec;
use std::collections::HashSet;
use crate::board::{
    concealed_count, lemma_concealed_drops, lemma_concealed_shrinks, Board, Tile,
};
use crate::neighbours::{
    adjacent_mines, get_neighbouring_indices, lemma_neighbour_set_bounds, lemma_prefix_members,
    neighbour_set,
};

verus! {

broadcast use vstd::std_specs::hash::group_hash_axioms;

/// Whether the tile at `index` lies on the board `tiles` and is concealed.
pub open spec fn is_concealed(tiles: Seq<Tile>, index: usize) -> bool {
    index < tiles.len() && tiles[index as int] == Tile::Concealed
}

/// Whether the cascade passes from the tile at position `k` of `path` to the
/// next one: the first has no mine around it and the second is in its
/// neighbourhood.
pub open spec fn cascade_link(
    mines: Set<usize>,
    row_count: usize,
    col_count: usize,
    path: Seq<usize>,
    k: int,
) -> bool {
    &&& adjacent_mines(path[k], mines, row_count, col_count) == 0
    &&& neighbour_set(path[k], row_count, col_count).contains(path[k + 1])
}

/// Whether `path` is a chain along which a cascade runs on `tiles`: every
/// tile of it is concealed, each one but the last has no mine around it, and
/// each next one is in the neighbourhood of the one before.
pub open spec fn cascade_path(
    tiles: Seq<Tile>,
    mines: Set<usize>,
    row_count: usize,
    col_count: usize,
    path: Seq<usize>,
) -> bool {
    &&& path.len() > 0
    &&& forall|k: int| 0 <= k < path.len() ==> is_concealed(tiles, #[trigger] path[k])
    &&& forall|k: int|
        0 <= k < path.len() - 1 ==> #[trigger] cascade_link(mines, row_count, col_count, path, k)
}

/// Whether a cascade that starts from the tiles of `frontier` opens the tile
/// at `index`.
pub open spec fn reached(
    tiles: Seq<Tile>,
    mines: Set<usize>,
    row_count: usize,
    col_count: usize,
    frontier: Set<usize>,
    index: usize,
) -> bool {
    exists|path: Seq<usize>|
        {
            &&& #[trigger] cascade_path(tiles, mines, row_count, col_count, path)
            &&& frontier.contains(path[0])
            &&& path.last() == index
        }
}

/// The board after a cascade from the tiles of `frontier`: every tile that
/// the cascade reaches is open with its number of adjacent mines, every other
/// tile is as before.
pub open spec fn revealed(
    tiles: Seq<Tile>,
    mines: Set<usize>,
    row_count: usize,
    col_count: usize,
    frontier: Set<usize>,
) -> Seq<Tile> {
    Seq::new(
        tiles.len(),
        |i: int|
            if reached(tiles, mines, row_count, col_count, frontier, i as usize) {
                Tile::Open(adjacent_mines(i as usize, mines, row_count, col_count) as usize)
            } else {
                tiles[i]
            },
    )
}

/// A concealed tile of the frontier is reached.
pub proof fn lemma_reached_root(
    tiles: Seq<Tile>,
    mines: Set<usize>,
    row_count: usize,
    col_count: usize,
    frontier: Set<usize>,
    index: usize,
)
    requires
        frontier.contains(index),
        is_concealed(tiles, index),
    ensures
        reached(tiles, mines, row_count, col_count, frontier, index),
{
    let path = seq![index];
    assert(cascade_path(tiles, mines, row_count, col_count, path));
    assert(path[0] == index && path.last() == index);
}

/// A concealed neighbour of a reached tile without adjacent mines is reached.
pub proof fn lemma_reached_step(
    tiles: Seq<Tile>,
    mines: Set<usize>,
    row_count: usize,
    col_count: usize,
    frontier: Set<usize>,
    from: usize,
    to: usize,
)
    requires
        reached(tiles, mines, row_count, col_count, frontier, from),
        adjacent_mines(from, mines, row_count, col_count) == 0,
        neighbour_set(from, row_count, col_count).contains(to),
        is_concealed(tiles, to),
    ensures
        reached(tiles, mines, row_count, col_count, frontier, to),
{
    let path = choose|path: Seq<usize>|
        {
            &&& #[trigger] cascade_path(tiles, mines, row_count, col_count, path)
            &&& frontier.contains(path[0])
            &&& path.last() == from
        };
    let longer = path.push(to);
    assert forall|k: int| 0 <= k < longer.len() implies is_concealed(
        tiles,
        #[trigger] longer[k],
    ) by {
        if k < path.len() {
            assert(longer[k] == path[k]);
        }
    }
    assert forall|k: int| 0 <= k < longer.len() - 1 implies #[trigger] cascade_link(
        mines,
        row_count,
        col_count,
        longer,
        k,
    ) by {
        assert(longer[k] == path[k]);
        if k < path.len() - 1 {
            assert(longer[k + 1] == path[k + 1]);
            assert(cascade_link(mines, row_count, col_count, path, k));
        }
    }
    assert(cascade_path(tiles, mines, row_count, col_count, longer));
    assert(longer[0] == path[0] && longer.last() == to);
}

/// A tile that is reached is concealed before the cascade.
pub proof fn lemma_reached_is_concealed(
    tiles: Seq<Tile>,
    mines: Set<usize>,
    row_count: usize,
    col_count: usize,
    frontier: Set<usize>,
    index: usize,
)
    requires
        reached(tiles, mines, row_count, col_count, frontier, index),
    ensures
        is_concealed(tiles, index),
{
    let path = choose|path: Seq<usize>|
        {
            &&& #[trigger] cascade_path(tiles, mines, row_count, col_count, path)
            &&& frontier.contains(path[0])
            &&& path.last() == index
        };
    assert(is_concealed(tiles, path[path.len() - 1]));
}

/// A cascade changes only concealed tiles: a flagged tile stays flagged, an
/// open tile stays open with the number it shows, and no tile becomes
/// concealed, so that the number of concealed tiles does not grow.
pub proof fn lemma_revealed_keeps_open(
    tiles: Seq<Tile>,
    mines: Set<usize>,
    row_count: usize,
    col_count: usize,
    frontier: Set<usize>,
)
    requires
        tiles.len() <= usize::MAX,
    ensures
        revealed(tiles, mines, row_count, col_count, frontier).len() == tiles.len(),
        forall|i: int|
            0 <= i < tiles.len() && tiles[i] != Tile::Concealed ==> #[trigger] revealed(
                tiles,
                mines,
                row_count,
                col_count,
                frontier,
            )[i] == tiles[i],
        forall|i: int|
            0 <= i < tiles.len() ==> #[trigger] revealed(
                tiles,
                mines,
                row_count,
                col_count,
                frontier,
            )[i] != Tile::Concealed || tiles[i] == Tile::Concealed,
        concealed_count(revealed(tiles, mines, row_count, col_count, frontier)) <= concealed_count(
            tiles,
        ),
{
    let after = revealed(tiles, mines, row_count, col_count, frontier);
    assert forall|i: int| 0 <= i < tiles.len() && tiles[i] != Tile::Concealed implies after[i]
        == tiles[i] by {
        if reached(tiles, mines, row_count, col_count, frontier, i as usize) {
            lemma_reached_is_concealed(tiles, mines, row_count, col_count, frontier, i as usize);
        }
    }
    lemma_concealed_shrinks(tiles, after);
}

/// A cascade opens each concealed tile that it starts from, so that the
/// number of concealed tiles drops by at least one.
pub proof fn lemma_revealed_opens_origin(
    tiles: Seq<Tile>,
    mines: Set<usize>,
    row_count: usize,
    col_count: usize,
    frontier: Set<usize>,
    origin: usize,
)
    requires
        tiles.len() <= usize::MAX,
        frontier.contains(origin),
        is_concealed(tiles, origin),
    ensures
        revealed(tiles, mines, row_count, col_count, frontier)[origin as int] == Tile::Open(
            adjacent_mines(origin, mines, row_count, col_count) as usize,
        ),
        concealed_count(revealed(tiles, mines, row_count, col_count, frontier)) < concealed_count(
            tiles,
        ),
{
    let after = revealed(tiles, mines, row_count, col_count, frontier);
    lemma_reached_root(tiles, mines, row_count, col_count, frontier, origin);
    lemma_revealed_keeps_open(tiles, mines, row_count, col_count, frontier);
    lemma_concealed_drops(tiles, after, origin as int);
}

/// A cascade from tiles of which none is concealed changes nothing.
pub proof fn lemma_revealed_nothing(
    tiles: Seq<Tile>,
    mines: Set<usize>,
    row_count: usize,
    col_count: usize,
    frontier: Set<usize>,
)
    requires
        forall|f: usize| frontier.contains(f) ==> !is_concealed(tiles, f),
    ensures
        revealed(tiles, mines, row_count, col_count, frontier) == tiles,
{
    let after = revealed(tiles, mines, row_count, col_count, frontier);
    assert forall|i: int| 0 <= i < tiles.len() implies after[i] == tiles[i] by {
        if reached(tiles, mines, row_count, col_count, frontier, i as usize) {
            let path = choose|path: Seq<usize>|
                {
                    &&& #[trigger] cascade_path(tiles, mines, row_count, col_count, path)
                    &&& frontier.contains(path[0])
                    &&& path.last() == i as usize
                };
            assert(is_concealed(tiles, path[0]));
        }
    }
    assert(after =~= tiles);
}

/// A second cascade from the same tiles changes nothing.
pub proof fn lemma_revealed_twice(
    tiles: Seq<Tile>,
    mines: Set<usize>,
    row_count: usize,
    col_count: usize,
    frontier: Set<usize>,
)
    requires
        tiles.len() <= usize::MAX,
    ensures
        revealed(
            revealed(tiles, mines, row_count, col_count, frontier),
            mines,
            row_count,
            col_count,
            frontier,
        ) == revealed(tiles, mines, row_count, col_count, frontier),
{
    let after = revealed(tiles, mines, row_count, col_count, frontier);
    assert forall|f: usize| frontier.contains(f) implies !is_concealed(after, f) by {
        if is_concealed(tiles, f) {
            lemma_revealed_opens_origin(tiles, mines, row_count, col_count, frontier, f);
        } else {
            lemma_revealed_keeps_open(tiles, mines, row_count, col_count, frontier);
        }
    }
    lemma_revealed_nothing(after, mines, row_count, col_count, frontier);
}

/// A cascade that starts from tiles without a mine opens no mine: it passes
/// only through tiles that have no mine around them.
pub proof fn lemma_reached_holds_no_mine(
    tiles: Seq<Tile>,
    mines: Set<usize>,
    row_count: usize,
    col_count: usize,
    frontier: Set<usize>,
    index: usize,
)
    requires
        1 <= col_count,
        1 <= row_count * col_count <= usize::MAX,
        forall|f: usize| frontier.contains(f) ==> !mines.contains(f),
        reached(tiles, mines, row_count, col_count, frontier, index),
    ensures
        !mines.contains(index),
{
    let path = choose|path: Seq<usize>|
        {
            &&& #[trigger] cascade_path(tiles, mines, row_count, col_count, path)
            &&& frontier.contains(path[0])
            &&& path.last() == index
        };
    if path.len() > 1 {
        let k = path.len() - 2;
        assert(cascade_link(mines, row_count, col_count, path, k));
        let around = neighbour_set(path[k], row_count, col_count);
        lemma_neighbour_set_bounds(path[k], row_count, col_count);
        assert(around.intersect(mines).len() == 0);
        if mines.contains(index) {
            assert(around.intersect(mines).contains(index));
        }
    }
}

/// The concealed tiles in the neighbourhood of `index`.
pub open spec fn concealed_around(
    tiles: Seq<Tile>,
    index: usize,
    row_count: usize,
    col_count: usize,
) -> Set<usize> {
    Set::new(
        |n: usize| neighbour_set(index, row_count, col_count).contains(n) && is_concealed(tiles, n),
    )
}

/// Whether `now` is a stage of the cascade that started on `start` from the
/// tiles of `roots`, with the tiles of `pending` still to be looked at:
/// only reached tiles have been opened, each with its number of adjacent
/// mines, and every tile that the opened ones call for is open or pending.
pub open spec fn cascade_stage(
    start: Seq<Tile>,
    now: Seq<Tile>,
    mines: Set<usize>,
    row_count: usize,
    col_count: usize,
    roots: Set<usize>,
    pending: Set<usize>,
) -> bool {
    &&& now.len() == start.len() <= usize::MAX
    &&& forall|i: int|
        0 <= i < start.len() && #[trigger] now[i] != start[i] ==> {
            &&& start[i] == Tile::Concealed
            &&& now[i] == Tile::Open(
                adjacent_mines(i as usize, mines, row_count, col_count) as usize,
            )
            &&& reached(start, mines, row_count, col_count, roots, i as usize)
        }
    &&& forall|p: usize| #[trigger]
        pending.contains(p) ==> {
            &&& p < start.len()
            &&& is_concealed(start, p) ==> reached(start, mines, row_count, col_count, roots, p)
        }
    &&& forall|r: usize|
        #[trigger] roots.contains(r) && is_concealed(start, r) ==> !is_concealed(now, r)
            || pending.contains(r)
    &&& forall|i: usize, n: usize|
        {
            &&& is_concealed(start, i)
            &&& !is_concealed(now, i)
            &&& adjacent_mines(i, mines, row_count, col_count) == 0
            &&& #[trigger] neighbour_set(i, row_count, col_count).contains(n)
            &&& is_concealed(start, n)
        } ==> !is_concealed(now, n) || pending.contains(n)
}

/// The untouched board is the first stage of a cascade, with the roots
/// pending.
proof fn lemma_stage_first(
    start: Seq<Tile>,
    mines: Set<usize>,
    row_count: usize,
    col_count: usize,
    roots: Set<usize>,
)
    requires
        start.len() <= usize::MAX,
        forall|r: usize| roots.contains(r) ==> r < start.len(),
    ensures
        cascade_stage(start, start, mines, row_count, col_count, roots, roots),
{
    assert forall|p: usize| #[trigger] roots.contains(p) && is_concealed(start, p) implies reached(
        start,
        mines,
        row_count,
        col_count,
        roots,
        p,
    ) by {
        lemma_reached_root(start, mines, row_count, col_count, roots, p);
    }
}

/// A pending tile that is not concealed can be dropped from the pending
/// tiles.
proof fn lemma_stage_skip(
    start: Seq<Tile>,
    now: Seq<Tile>,
    mines: Set<usize>,
    row_count: usize,
    col_count: usize,
    roots: Set<usize>,
    pending: Set<usize>,
    index: usize,
    rest: Set<usize>,
)
    requires
        cascade_stage(start, now, mines, row_count, col_count, roots, pending),
        !is_concealed(now, index),
        forall|q: usize| pending.contains(q) && q != index ==> rest.contains(q),
        forall|q: usize| rest.contains(q) ==> pending.contains(q),
    ensures
        cascade_stage(start, now, mines, row_count, col_count, roots, rest),
{
}

/// Opening a pending concealed tile gives the next stage, once the concealed
/// tiles around it are pending where it has no mine around it.
proof fn lemma_stage_open(
    start: Seq<Tile>,
    now: Seq<Tile>,
    mines: Set<usize>,
    row_count: usize,
    col_count: usize,
    roots: Set<usize>,
    pending: Set<usize>,
    index: usize,
    after: Seq<Tile>,
    rest: Set<usize>,
)
    requires
        cascade_stage(start, now, mines, row_count, col_count, roots, pending),
        pending.contains(index),
        is_concealed(now, index),
        after == now.update(
            index as int,
            Tile::Open(adjacent_mines(index, mines, row_count, col_count) as usize),
        ),
        forall|q: usize| pending.contains(q) && q != index ==> rest.contains(q),
        forall|q: usize|
            rest.contains(q) ==> pending.contains(q) || (adjacent_mines(
                index,
                mines,
                row_count,
                col_count,
            ) == 0 && concealed_around(after, index, row_count, col_count).contains(q)),
        adjacent_mines(index, mines, row_count, col_count) == 0 ==> forall|q: usize|
            concealed_around(after, index, row_count, col_count).contains(q) ==> rest.contains(q),
    ensures
        cascade_stage(start, after, mines, row_count, col_count, roots, rest),
{
    assert(start[index as int] == Tile::Concealed);
    assert(reached(start, mines, row_count, col_count, roots, index));
    assert forall|p: usize| #[trigger] rest.contains(p) implies {
        &&& p < start.len()
        &&& is_concealed(start, p) ==> reached(start, mines, row_count, col_count, roots, p)
    } by {
        if !pending.contains(p) {
            assert(is_concealed(after, p));
            assert(is_concealed(start, p));
            lemma_reached_step(start, mines, row_count, col_count, roots, index, p);
        }
    }
    assert forall|i: usize, n: usize|
        {
            &&& is_concealed(start, i)
            &&& !is_concealed(after, i)
            &&& adjacent_mines(i, mines, row_count, col_count) == 0
            &&& #[trigger] neighbour_set(i, row_count, col_count).contains(n)
            &&& is_concealed(start, n)
        } implies !is_concealed(after, n) || rest.contains(n) by {
        if i == index {
            if is_concealed(after, n) {
                assert(concealed_around(after, index, row_count, col_count).contains(n));
            }
        } else {
            assert(!is_concealed(now, i));
        }
    }
}

/// Once nothing is pending, the cascade is complete.
proof fn lemma_stage_last(
    start: Seq<Tile>,
    now: Seq<Tile>,
    mines: Set<usize>,
    row_count: usize,
    col_count: usize,
    roots: Set<usize>,
)
    requires
        cascade_stage(start, now, mines, row_count, col_count, roots, Set::empty()),
    ensures
        now == revealed(start, mines, row_count, col_count, roots),
{
    let target = revealed(start, mines, row_count, col_count, roots);
    assert forall|i: int| 0 <= i < start.len() implies now[i] == target[i] by {
        lemma_stage_last_at(start, now, mines, row_count, col_count, roots, i);
    }
    assert(now =~= target);
}

/// Once nothing is pending, the tile at `i` is open with its number of
/// adjacent mines if the cascade reaches it, and as at the start if not.
proof fn lemma_stage_last_at(
    start: Seq<Tile>,
    now: Seq<Tile>,
    mines: Set<usize>,
    row_count: usize,
    col_count: usize,
    roots: Set<usize>,
    i: int,
)
    requires
        cascade_stage(start, now, mines, row_count, col_count, roots, Set::empty()),
        0 <= i < start.len(),
    ensures
        now[i] == if reached(start, mines, row_count, col_count, roots, i as usize) {
            Tile::Open(adjacent_mines(i as usize, mines, row_count, col_count) as usize)
        } else {
            start[i]
        },
{
    if reached(start, mines, row_count, col_count, roots, i as usize) {
        let path = choose|path: Seq<usize>|
            {
                &&& #[trigger] cascade_path(start, mines, row_count, col_count, path)
                &&& roots.contains(path[0])
                &&& path.last() == i as usize
            };
        lemma_path_opened(start, now, mines, row_count, col_count, roots, path, path.len() - 1);
        assert(is_concealed(start, path[path.len() - 1]));
        assert(now[i] != start[i]);
    }
}

/// In a complete cascade every tile of a cascade path from a root is open.
proof fn lemma_path_opened(
    start: Seq<Tile>,
    now: Seq<Tile>,
    mines: Set<usize>,
    row_count: usize,
    col_count: usize,
    roots: Set<usize>,
    path: Seq<usize>,
    k: int,
)
    requires
        cascade_stage(start, now, mines, row_count, col_count, roots, Set::empty()),
        cascade_path(start, mines, row_count, col_count, path),
        roots.contains(path[0]),
        0 <= k < path.len(),
    ensures
        !is_concealed(now, path[k]),
    decreases k,
{
    assert(is_concealed(start, path[k]));
    if k > 0 {
        lemma_path_opened(start, now, mines, row_count, col_count, roots, path, k - 1);
        assert(is_concealed(start, path[k - 1]));
        assert(cascade_link(mines, row_count, col_count, path, k - 1));
    }
}

/// The tiles still to be looked at in the middle of a wave: those of
/// `frontier` that are not among the first `done` tiles of `walk`, the order
/// in which the frontier is walked, and those collected for the next wave.
pub open spec fn pending_tiles(
    frontier: Set<usize>,
    walk: Seq<usize>,
    done: int,
    collected: Set<usize>,
) -> Set<usize> {
    frontier.difference(walk.take(done).to_set()).union(collected)
}

/// Adds the concealed tiles in the neighbourhood of `tile_idx` to `next`.
fn enqueue_concealed_neighbours(
    board: &Board,
    tile_idx: usize,
    row_count: usize,
    col_count: usize,
    next: &mut HashSet<usize>,
)
    requires
        board@.len() == row_count * col_count,
        tile_idx < row_count * col_count,
        old(next)@.finite(),
    ensures
        final(next)@ == old(next)@.union(
            concealed_around(board@, tile_idx, row_count, col_count),
        ),
        final(next)@.finite(),
{
    assert(1 <= col_count && 1 <= row_count * col_count) by (nonlinear_arith)
        requires
            tile_idx < row_count * col_count,
    ;
    proof {
        board.lemma_len_fits();
    }
    let around = get_neighbouring_indices(tile_idx, row_count, col_count);
    assert(next@ =~= old(next)@.union(
        Set::new(
            |n: usize|
                spec_hash_keys_iter(&around).remaining().unref().take(0).to_set().contains(n)
                    && is_concealed(board@, n),
        ),
    ));
    for idx in it: around.iter()
        invariant
            it.seq() == spec_hash_keys_iter(&around).remaining(),
            around@ == neighbour_set(tile_idx, row_count, col_count),
            forall|n: usize| around@.contains(n) ==> n < board@.len(),
            next@.finite(),
            next@ == old(next)@.union(
                Set::new(
                    |n: usize|
                        it.seq().unref().take(it.index()).to_set().contains(n) && is_concealed(
                            board@,
                            n,
                        ),
                ),
            ),
    {
        assert(around@.contains(*idx)) by {
            let keys = it.seq().unref();
            assert(keys[it.index()] == *idx);
            assert(keys.to_set().contains(keys[it.index()]));
        }
        if board.tile(*idx) == Tile::Concealed {
            next.insert(*idx);
        }
        assert(next@ =~= old(next)@.union(
            Set::new(
                |n: usize|
                    it.seq().unref().take(it.index() + 1).to_set().contains(n) && is_concealed(
                        board@,
                        n,
                    ),
            ),
        )) by {
            lemma_prefix_members(it.seq().unref(), it.index());
        }
    }
    assert(next@ =~= old(next)@.union(concealed_around(board@, tile_idx, row_count, col_count)))
        by {
        spec_hash_keys_iter(&around).remaining().unref().lemma_take_len();
    }
}

/// Looks at every tile of `frontier` once: opens those that are concealed
/// and collects, for each opened one without a mine around it, the concealed
/// tiles of its neighbourhood. Returns what was collected: the next frontier.
fn open_frontier(
    board: &mut Board,
    mine_indeces: &HashSet<usize>,
    frontier: &HashSet<usize>,
    row_count: usize,
    col_count: usize,
    Ghost(start): Ghost<Seq<Tile>>,
    Ghost(roots): Ghost<Set<usize>>,
) -> (next: HashSet<usize>)
    requires
        start.len() == row_count * col_count,
        cascade_stage(
            start,
            old(board)@,
            mine_indeces@,
            row_count,
            col_count,
            roots,
            frontier@,
        ),
    ensures
        cascade_stage(start, final(board)@, mine_indeces@, row_count, col_count, roots, next@),
        next@.finite(),
        concealed_count(final(board)@) <= concealed_count(old(board)@),
        next@.len() > 0 ==> concealed_count(final(board)@) < concealed_count(old(board)@),
{
    let mut next: HashSet<usize> = HashSet::new();
    assert(pending_tiles(
        frontier@,
        spec_hash_keys_iter(frontier).remaining().unref(),
        0,
        next@,
    ) =~= frontier@);
    for idx in it: frontier.iter()
        invariant
            it.seq() == spec_hash_keys_iter(frontier).remaining(),
            start.len() == row_count * col_count,
            cascade_stage(
                start,
                board@,
                mine_indeces@,
                row_count,
                col_count,
                roots,
                pending_tiles(frontier@, it.seq().unref(), it.index(), next@),
            ),
            next@.finite(),
            concealed_count(board@) <= concealed_count(old(board)@),
            next@.len() > 0 ==> concealed_count(board@) < concealed_count(old(board)@),
    {
        let tile_idx = *idx;
        let ghost now = board@;
        let ghost collected = next@;
        assert(frontier@.contains(tile_idx) && !it.seq().unref().take(it.index()).to_set().contains(
            tile_idx,
        ) && it.seq().unref().take(it.index() + 1).to_set() == it.seq().unref().take(
            it.index(),
        ).to_set().insert(tile_idx)) by {
            let keys = it.seq().unref();
            assert(keys[it.index()] == tile_idx);
            assert(keys.to_set().contains(keys[it.index()]));
            lemma_prefix_members(keys, it.index());
        }
        assert(tile_idx < start.len()) by {
            assert(pending_tiles(frontier@, it.seq().unref(), it.index(), next@).contains(
                tile_idx,
            ));
        }
        match board.reveal_one(tile_idx, mine_indeces, row_count, col_count) {
            Some(opened) => {
                assert(board@.len() == now.len());
                if opened.cascade {
                    enqueue_concealed_neighbours(board, tile_idx, row_count, col_count, &mut next);
                }
                assert(cascade_stage(
                    start,
                    board@,
                    mine_indeces@,
                    row_count,
                    col_count,
                    roots,
                    pending_tiles(frontier@, it.seq().unref(), it.index() + 1, next@),
                )) by {
                    lemma_stage_open(
                        start,
                        now,
                        mine_indeces@,
                        row_count,
                        col_count,
                        roots,
                        pending_tiles(frontier@, it.seq().unref(), it.index(), collected),
                        tile_idx,
                        board@,
                        pending_tiles(frontier@, it.seq().unref(), it.index() + 1, next@),
                    );
                }
                proof {
                    lemma_concealed_drops(now, board@, tile_idx as int);
                }
            },
            None => {
                assert(cascade_stage(
                    start,
                    board@,
                    mine_indeces@,
                    row_count,
                    col_count,
                    roots,
                    pending_tiles(frontier@, it.seq().unref(), it.index() + 1, next@),
                )) by {
                    lemma_stage_skip(
                        start,
                        now,
                        mine_indeces@,
                        row_count,
                        col_count,
                        roots,
                        pending_tiles(frontier@, it.seq().unref(), it.index(), collected),
                        tile_idx,
                        pending_tiles(frontier@, it.seq().unref(), it.index() + 1, next@),
                    );
                }
            },
        }
    }
    assert(pending_tiles(
        frontier@,
        spec_hash_keys_iter(frontier).remaining().unref(),
        spec_hash_keys_iter(frontier).remaining().len() as int,
        next@,
    ) =~= next@) by {
        spec_hash_keys_iter(frontier).remaining().unref().lemma_take_len();
    }
    next
}

/// Runs the cascade from the tiles of `tiles_to_reveal`: opens those that are
/// concealed and, wave by wave, every concealed tile in the neighbourhood of
/// an opened tile that has no mine around it.
pub fn reveal_recoursively(
    board: &mut Board,
    mine_indeces: &HashSet<usize>,
    tiles_to_reveal: &HashSet<usize>,
    row_count: usize,
    col_count: usize,
)
    requires
        old(board)@.len() == row_count * col_count,
        forall|t: usize| tiles_to_reveal@.contains(t) ==> t < row_count * col_count,
    ensures
        final(board)@ == revealed(
            old(board)@,
            mine_indeces@,
            row_count,
            col_count,
            tiles_to_reveal@,
        ),
{
    let ghost start = board@;
    let ghost roots = tiles_to_reveal@;
    proof {
        board.lemma_len_fits();
        lemma_stage_first(start, mine_indeces@, row_count, col_count, roots);
    }
    let mut frontier = open_frontier(
        board,
        mine_indeces,
        tiles_to_reveal,
        row_count,
        col_count,
        Ghost(start),
        Ghost(roots),
    );
    while !frontier.is_empty()
        invariant
            start.len() == row_count * col_count,
            cascade_stage(start, board@, mine_indeces@, row_count, col_count, roots, frontier@),
            frontier@.finite(),
        decreases concealed_count(board@), frontier@.len(),
    {
        frontier = open_frontier(
            board,
            mine_indeces,
            &frontier,
            row_count,
            col_count,
            Ghost(start),
            Ghost(roots),
        );
    }
    proof {
        assert(frontier@ =~= Set::empty());
        lemma_stage_last(start, board@, mine_indeces@, row_count, col_count, roots);
    }
}

/// Opens the tile at `tile_idx` if it is concealed and lets the cascade run
/// from it.
pub fn reveal_tiles(
    board: &mut Board,
    tile_idx: usize,
    mine_indeces: &HashSet<usize>,
    row_count: usize,
    col_count: usize,
)
    requires
        old(board)@.len() == row_count * col_count,
        tile_idx < row_count * col_count,
    ensures
        final(board)@ == revealed(
            old(board)@,
            mine_indeces@,
            row_count,
            col_count,
            set![tile_idx],
        ),
        final(board)@.len() == old(board)@.len(),
        forall|i: int|
            0 <= i < old(board)@.len() && old(board)@[i] != Tile::Concealed ==> final(board)@[i]
                == old(board)@[i],
        concealed_count(final(board)@) <= concealed_count(old(board)@),
        old(board)@[tile_idx as int] == Tile::Concealed ==> {
            &&& final(board)@[tile_idx as int] == Tile::Open(
                adjacent_mines(tile_idx, mine_indeces@, row_count, col_count) as usize,
            )
            &&& concealed_count(final(board)@) < concealed_count(old(board)@)
        },
{
    proof {
        board.lemma_len_fits();
        lemma_revealed_keeps_open(board@, mine_indeces@, row_count, col_count, set![tile_idx]);
        if board@[tile_idx as int] == Tile::Concealed {
            lemma_revealed_opens_origin(
                board@,
                mine_indeces@,
                row_count,
                col_count,
                set![tile_idx],
                tile_idx,
            );
        }
    }
    let mut tiles_to_reveal: HashSet<usize> = HashSet::new();
    tiles_to_reveal.insert(tile_idx);
    reveal_recoursively(board, mine_indeces, &tiles_to_reveal, row_count, col_count);
}

} // verus!
