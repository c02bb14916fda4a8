//! The neighbourhood of a tile on the flattened board.
//!
//! A neighbourhood is computed by arithmetic on the linear index alone: the
//! eight offsets `1`, `col_count - 1`, `col_count` and `col_count + 1`,
//! subtracted and added, stopped at index 0 and at the board's last index.
//! On a tile away from every edge this is the usual set of eight adjacent
//! tiles. On the left and right edges the offsets reach across the row
//! boundary (the last tile of a row and the first tile of the next one count
//! as neighbours), and at the two ends of the board a stopped offset may give
//! the tile itself. This policy is applied everywhere in the crate: the mine
//! counts, the cascade and the mine-free zone of the first move all use the
//! same set.

use vstd::prelude::*;
use vstd::std_specs::hash::spec_hash_keys_iter;
use vstd::std_specs::iter::IteratorSpec;
use std::collections::HashSet;

verus! {

broadcast use vstd::std_specs::hash::group_hash_axioms;

/// The index `by` places before `index`, or 0 where there is none.
pub open spec fn step_back(index: usize, by: int) -> usize {
    if index - by < 0 {
        0
    } else {
        (index - by) as usize
    }
}

/// The index `by` places after `index`, or `last` where that lies past it.
pub open spec fn step_forward(index: usize, by: int, last: int) -> usize {
    if index + by > last {
        last as usize
    } else {
        (index + by) as usize
    }
}

/// The neighbourhood of `index` on a board of `row_count` rows and
/// `col_count` columns.
pub open spec fn neighbour_set(index: usize, row_count: usize, col_count: usize) -> Set<usize> {
    let last = row_count * col_count - 1;
    set![
        step_back(index, col_count + 1),
        step_back(index, col_count as int),
        step_back(index, col_count - 1),
        step_back(index, 1),
        step_forward(index, 1, last),
        step_forward(index, col_count - 1, last),
        step_forward(index, col_count as int, last),
        step_forward(index, col_count + 1, last),
    ]
}

/// The number of mines in the neighbourhood of `index`.
pub open spec fn adjacent_mines(
    index: usize,
    mines: Set<usize>,
    row_count: usize,
    col_count: usize,
) -> nat {
    neighbour_set(index, row_count, col_count).intersect(mines).len()
}

/// A neighbourhood is finite, has between one and eight members, and for a
/// tile of the board lies on the board.
pub proof fn lemma_neighbour_set_bounds(index: usize, row_count: usize, col_count: usize)
    requires
        1 <= col_count,
        1 <= row_count * col_count <= usize::MAX,
    ensures
        neighbour_set(index, row_count, col_count).finite(),
        1 <= neighbour_set(index, row_count, col_count).len() <= 8,
        index < row_count * col_count ==> forall|n: usize|
            neighbour_set(index, row_count, col_count).contains(n) ==> n < row_count * col_count,
{
    let last = row_count * col_count - 1;
    let s0 = Set::<usize>::empty();
    let s1 = s0.insert(step_back(index, col_count + 1));
    let s2 = s1.insert(step_back(index, col_count as int));
    let s3 = s2.insert(step_back(index, col_count - 1));
    let s4 = s3.insert(step_back(index, 1));
    let s5 = s4.insert(step_forward(index, 1, last));
    let s6 = s5.insert(step_forward(index, col_count - 1, last));
    let s7 = s6.insert(step_forward(index, col_count as int, last));
    let s8 = s7.insert(step_forward(index, col_count + 1, last));
    assert(s8 == neighbour_set(index, row_count, col_count));
    assert(s1.len() == 1);
    assert(s2.len() <= 2);
    assert(s3.len() <= 3);
    assert(s4.len() <= 4);
    assert(s5.len() <= 5);
    assert(s6.len() <= 6);
    assert(s7.len() <= 7);
    assert(1 <= s8.len() <= 8);
}

/// The number of mines next to a tile is at most eight.
pub proof fn lemma_adjacent_mines_bound(
    index: usize,
    mines: Set<usize>,
    row_count: usize,
    col_count: usize,
)
    requires
        1 <= col_count,
        1 <= row_count * col_count <= usize::MAX,
    ensures
        adjacent_mines(index, mines, row_count, col_count) <= 8,
{
    lemma_neighbour_set_bounds(index, row_count, col_count);
    vstd::set_lib::lemma_len_subset(
        neighbour_set(index, row_count, col_count).intersect(mines),
        neighbour_set(index, row_count, col_count),
    );
}

/// The row of the tile at `index`.
pub open spec fn row_of(index: usize, col_count: usize) -> int {
    index as int / col_count as int
}

/// The column of the tile at `index`.
pub open spec fn col_of(index: usize, col_count: usize) -> int {
    index as int % col_count as int
}

/// Whether the tile at `index` lies on none of the board's four edges.
pub open spec fn is_interior(index: usize, row_count: usize, col_count: usize) -> bool {
    &&& col_count > 0
    &&& 0 < row_of(index, col_count) < row_count - 1
    &&& 0 < col_of(index, col_count) < col_count - 1
}

/// Whether the tiles at `a` and `b` are two different tiles at most one row
/// and at most one column apart.
pub open spec fn touches(a: usize, b: usize, col_count: usize) -> bool {
    &&& a != b
    &&& -1 <= row_of(a, col_count) - row_of(b, col_count) <= 1
    &&& -1 <= col_of(a, col_count) - col_of(b, col_count) <= 1
}

/// The index of a tile is its row times the number of columns plus its
/// column, and no other row and column give it.
proof fn lemma_row_col(index: usize, col_count: usize, row: int, col: int)
    requires
        col_count > 0,
    ensures
        index == row_of(index, col_count) * col_count + col_of(index, col_count),
        0 <= col_of(index, col_count) < col_count,
        0 <= col < col_count && index == row * col_count + col ==> row == row_of(index, col_count)
            && col == col_of(index, col_count),
{
    vstd::arithmetic::div_mod::lemma_fundamental_div_mod(index as int, col_count as int);
    vstd::arithmetic::div_mod::lemma_mod_pos_bound(index as int, col_count as int);
    assert(col_count * row_of(index, col_count) == row_of(index, col_count) * col_count)
        by (nonlinear_arith);
    if 0 <= col < col_count && index == row * col_count + col {
        vstd::arithmetic::div_mod::lemma_fundamental_div_mod_converse(
            index as int,
            col_count as int,
            row,
            col,
        );
    }
}

/// The neighbourhood of a tile that lies on none of the board's edges: eight
/// tiles of the board, namely the tiles that touch it.
pub proof fn lemma_interior_neighbours(index: usize, row_count: usize, col_count: usize)
    requires
        row_count * col_count <= usize::MAX,
        is_interior(index, row_count, col_count),
    ensures
        neighbour_set(index, row_count, col_count).len() == 8,
        forall|n: usize|
            neighbour_set(index, row_count, col_count).contains(n) ==> n < row_count * col_count,
        forall|n: usize|
            neighbour_set(index, row_count, col_count).contains(n) <==> touches(
                index,
                n,
                col_count,
            ),
{
    let cols = col_count as int;
    let row = row_of(index, col_count);
    let col = col_of(index, col_count);
    let last = row_count * col_count - 1;
    lemma_row_col(index, col_count, row, col);
    assert(cols <= row * cols <= (row_count - 2) * cols && (row_count - 2) * cols == row_count
        * cols - 2 * cols) by (nonlinear_arith)
        requires
            1 <= row <= row_count - 2,
            cols >= 3,
    ;
    assert(cols + 1 <= index && index + cols + 1 <= last);
    let s0 = Set::<usize>::empty();
    let s1 = s0.insert((index - cols - 1) as usize);
    let s2 = s1.insert((index - cols) as usize);
    let s3 = s2.insert((index - cols + 1) as usize);
    let s4 = s3.insert((index - 1) as usize);
    let s5 = s4.insert((index + 1) as usize);
    let s6 = s5.insert((index + cols - 1) as usize);
    let s7 = s6.insert((index + cols) as usize);
    let s8 = s7.insert((index + cols + 1) as usize);
    assert(s8 == neighbour_set(index, row_count, col_count));
    assert(s1.len() == 1);
    assert(s2.len() == 2);
    assert(s3.len() == 3);
    assert(s4.len() == 4);
    assert(s5.len() == 5);
    assert(s6.len() == 6);
    assert(s7.len() == 7);
    assert(s8.len() == 8);
    assert forall|n: usize| s8.contains(n) <==> touches(index, n, col_count) by {
        if s8.contains(n) {
            let row_step: int = if n < index - 1 {
                -1
            } else if n > index + 1 {
                1
            } else {
                0
            };
            lemma_row_shift(row, row_step, cols);
            let col_step = n - index - row_step * cols;
            lemma_row_col(n, col_count, row + row_step, col + col_step);
        }
        if touches(index, n, col_count) {
            let n_row = row_of(n, col_count);
            let n_col = col_of(n, col_count);
            lemma_row_col(n, col_count, n_row, n_col);
            lemma_row_shift(row, n_row - row, cols);
        }
    }
}

/// Moving by one row moves the index by the number of columns.
proof fn lemma_row_shift(row: int, row_step: int, cols: int)
    requires
        -1 <= row_step <= 1,
    ensures
        row_step == -1 ==> row_step * cols == -cols,
        row_step == 0 ==> row_step * cols == 0,
        row_step == 1 ==> row_step * cols == cols,
        (row + row_step) * cols == row * cols + row_step * cols,
{
    assert((row + row_step) * cols == row * cols + row_step * cols) by (nonlinear_arith);
    assert(row_step == -1 ==> row_step * cols == -cols) by (nonlinear_arith);
    assert(row_step == 0 ==> row_step * cols == 0) by (nonlinear_arith);
    assert(row_step == 1 ==> row_step * cols == cols) by (nonlinear_arith);
}

/// Between two tiles that lie on none of the board's edges, being a
/// neighbour goes both ways.
pub proof fn lemma_interior_symmetry(a: usize, b: usize, row_count: usize, col_count: usize)
    requires
        row_count * col_count <= usize::MAX,
        is_interior(a, row_count, col_count),
        is_interior(b, row_count, col_count),
    ensures
        neighbour_set(a, row_count, col_count).contains(b) <==> neighbour_set(
            b,
            row_count,
            col_count,
        ).contains(a),
{
    lemma_interior_neighbours(a, row_count, col_count);
    lemma_interior_neighbours(b, row_count, col_count);
    assert(touches(a, b, col_count) <==> touches(b, a, col_count));
}

/// A tile is in its own neighbourhood exactly where an offset is stopped at
/// it or is zero: at the first and the last tile of the board, and
/// everywhere on a board of one column.
pub proof fn lemma_own_neighbour(index: usize, row_count: usize, col_count: usize)
    requires
        index < row_count * col_count <= usize::MAX,
    ensures
        neighbour_set(index, row_count, col_count).contains(index) <==> (index == 0 || index
            == row_count * col_count - 1 || col_count == 1),
{
    assert(1 <= col_count) by (nonlinear_arith)
        requires
            index < row_count * col_count,
    ;
}

/// Collects the neighbourhood of `index`.
pub fn get_neighbouring_indices(index: usize, row_count: usize, col_count: usize) -> (found:
    HashSet<usize>)
    requires
        1 <= col_count,
        1 <= row_count * col_count <= usize::MAX,
    ensures
        found@ == neighbour_set(index, row_count, col_count),
        found@.finite(),
        1 <= found@.len() <= 8,
        index < row_count * col_count ==> forall|n: usize|
            found@.contains(n) ==> n < row_count * col_count,
{
    proof {
        lemma_neighbour_set_bounds(index, row_count, col_count);
    }
    let max_index: usize = row_count * col_count - 1;
    let mut found: HashSet<usize> = HashSet::new();
    found.insert(index.saturating_sub(col_count).saturating_sub(1));
    found.insert(index.saturating_sub(col_count));
    found.insert(index.saturating_sub(col_count - 1));
    found.insert(index.saturating_sub(1));
    found.insert(stop_at(index.saturating_add(1), max_index));
    found.insert(stop_at(index.saturating_add(col_count - 1), max_index));
    found.insert(stop_at(index.saturating_add(col_count), max_index));
    found.insert(stop_at(index.saturating_add(col_count).saturating_add(1), max_index));
    found
}

/// The smaller of `value` and `limit`.
fn stop_at(value: usize, limit: usize) -> (stopped: usize)
    ensures
        stopped == if value > limit { limit } else { value },
{
    if value > limit {
        limit
    } else {
        value
    }
}

/// The members of a duplicate-free sequence up to and including position `k`
/// are those before `k` together with the one at `k`, which is new.
pub proof fn lemma_prefix_members(keys: Seq<usize>, k: int)
    requires
        0 <= k < keys.len(),
        keys.no_duplicates(),
    ensures
        keys.take(k).to_set().finite(),
        !keys.take(k).to_set().contains(keys[k]),
        keys.take(k + 1).to_set() == keys.take(k).to_set().insert(keys[k]),
{
    vstd::seq_lib::seq_to_set_is_finite(keys.take(k));
    keys.lemma_take_succ_push(k);
    keys.take(k).lemma_push_to_set_commute(keys[k]);
    if keys.take(k).contains(keys[k]) {
        let j = keys.take(k).lemma_contains_to_index(keys[k]);
        assert(keys[j] == keys[k]);
    }
}

/// Counts the mines in the neighbourhood of `tile_idx`.
pub fn count_neighbouring_mines(
    tile_idx: usize,
    bomb_indices: &HashSet<usize>,
    row_count: usize,
    col_count: usize,
) -> (count: usize)
    requires
        1 <= col_count,
        1 <= row_count * col_count <= usize::MAX,
    ensures
        count == adjacent_mines(tile_idx, bomb_indices@, row_count, col_count),
        count <= 8,
{
    let around = get_neighbouring_indices(tile_idx, row_count, col_count);
    let mut count: usize = 0;
    assert(spec_hash_keys_iter(&around).remaining().unref().take(0).to_set().intersect(
        bomb_indices@,
    ) =~= Set::empty());
    for idx in it: around.iter()
        invariant
            it.seq() == spec_hash_keys_iter(&around).remaining(),
            around@.len() <= 8,
            count <= it.index(),
            count == it.seq().unref().take(it.index()).to_set().intersect(bomb_indices@).len(),
    {
        assert(it.seq().unref().take(it.index() + 1).to_set().intersect(bomb_indices@).len()
            == count + if bomb_indices@.contains(*idx) { 1int } else { 0int }) by {
            let keys = it.seq().unref();
            let k = it.index();
            lemma_prefix_members(keys, k);
            let before = keys.take(k).to_set();
            if bomb_indices@.contains(keys[k]) {
                assert(keys.take(k + 1).to_set().intersect(bomb_indices@) == before.intersect(
                    bomb_indices@,
                ).insert(keys[k]));
            } else {
                assert(keys.take(k + 1).to_set().intersect(bomb_indices@) == before.intersect(
                    bomb_indices@,
                ));
            }
        }
        if bomb_indices.contains(idx) {
            count = count + 1;
        }
    }
    assert(count == adjacent_mines(tile_idx, bomb_indices@, row_count, col_count)) by {
        spec_hash_keys_iter(&around).remaining().unref().lemma_take_len();
    }
    count
}

} // verus!
