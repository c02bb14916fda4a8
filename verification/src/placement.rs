//! Placing the mines once the first tile to open is known.
//!
//! The mines are drawn at random, without repetition, from the tiles that
//! are neither the first tile opened nor in its neighbourhood: the first
//! move never hits a mine and never has one next to it.

use vstd::prelude::*;
use rand::rngs::ThreadRng;
use rand::seq::IteratorRandom;
use std::collections::HashSet;
use crate::neighbours::{get_neighbouring_indices, lemma_neighbour_set_bounds, neighbour_set};

verus! {

broadcast use vstd::std_specs::hash::group_hash_axioms;

/// The tiles of the board.
pub open spec fn board_cells(row_count: usize, col_count: usize) -> Set<usize> {
    Set::new(|i: usize| i < row_count * col_count)
}

/// The tiles that never hold a mine when `origin` is the first tile opened:
/// `origin` and its neighbourhood.
pub open spec fn excluded(origin: usize, row_count: usize, col_count: usize) -> Set<usize> {
    neighbour_set(origin, row_count, col_count).insert(origin)
}

/// The tiles that may hold a mine when `origin` is the first tile opened.
pub open spec fn eligible(origin: usize, row_count: usize, col_count: usize) -> Set<usize> {
    board_cells(row_count, col_count).difference(excluded(origin, row_count, col_count))
}

/// Whether `mines` is a placement of `count` mines for the first tile
/// `origin`: eligible tiles only, and `count` of them, or all of them
/// where there are fewer.
pub open spec fn is_placement(
    mines: Set<usize>,
    count: usize,
    origin: usize,
    row_count: usize,
    col_count: usize,
) -> bool {
    &&& mines.finite()
    &&& mines.subset_of(eligible(origin, row_count, col_count))
    &&& mines.len() == if count <= eligible(origin, row_count, col_count).len() {
        count as nat
    } else {
        eligible(origin, row_count, col_count).len()
    }
}

/// There are as many indices below `bound` as `bound` says.
proof fn lemma_indices_below(bound: usize)
    ensures
        Set::new(|i: usize| i < bound).finite(),
        Set::new(|i: usize| i < bound).len() == bound,
    decreases bound,
{
    let below = Set::new(|i: usize| i < bound);
    if bound == 0 {
        assert(below =~= Set::empty());
    } else {
        let fewer = (bound - 1) as usize;
        lemma_indices_below(fewer);
        assert(below =~= Set::new(|i: usize| i < fewer).insert(fewer));
    }
}

/// The eligible tiles are the tiles of the board without the excluded ones,
/// all of which lie on the board.
pub proof fn lemma_eligible_count(origin: usize, row_count: usize, col_count: usize)
    requires
        origin < row_count * col_count <= usize::MAX,
    ensures
        eligible(origin, row_count, col_count).finite(),
        excluded(origin, row_count, col_count).finite(),
        excluded(origin, row_count, col_count).len() <= row_count * col_count,
        eligible(origin, row_count, col_count).len() == row_count * col_count - excluded(
            origin,
            row_count,
            col_count,
        ).len(),
{
    assert(1 <= col_count) by (nonlinear_arith)
        requires
            origin < row_count * col_count,
    ;
    let cells = board_cells(row_count, col_count);
    let out = excluded(origin, row_count, col_count);
    lemma_neighbour_set_bounds(origin, row_count, col_count);
    lemma_indices_below((row_count * col_count) as usize);
    assert(cells =~= Set::new(|i: usize| i < (row_count * col_count) as usize));
    assert(out.subset_of(cells));
    vstd::set_lib::lemma_len_subset(out, cells);
    vstd::set_lib::lemma_set_difference_len(cells, out);
    assert(cells.intersect(out) =~= out);
}

/// Where the first tile opened is not in its own neighbourhood, the number
/// of mines placed is the number asked for, or the number of tiles left
/// beside that tile and its neighbourhood where fewer are left.
pub proof fn lemma_placement_count(
    mines: Set<usize>,
    count: usize,
    origin: usize,
    row_count: usize,
    col_count: usize,
)
    requires
        origin < row_count * col_count <= usize::MAX,
        is_placement(mines, count, origin, row_count, col_count),
        !neighbour_set(origin, row_count, col_count).contains(origin),
    ensures
        mines.len() == vstd::math::min(
            count as int,
            row_count * col_count - 1 - neighbour_set(origin, row_count, col_count).len(),
        ),
{
    assert(1 <= col_count) by (nonlinear_arith)
        requires
            origin < row_count * col_count,
    ;
    lemma_neighbour_set_bounds(origin, row_count, col_count);
    lemma_eligible_count(origin, row_count, col_count);
}

/// No mine of a placement is the first tile opened or in its neighbourhood.
pub proof fn lemma_placement_spares_origin(
    mines: Set<usize>,
    count: usize,
    origin: usize,
    row_count: usize,
    col_count: usize,
)
    requires
        is_placement(mines, count, origin, row_count, col_count),
    ensures
        !mines.contains(origin),
        mines.disjoint(neighbour_set(origin, row_count, col_count)),
        forall|m: usize| mines.contains(m) ==> m < row_count * col_count,
{
    assert forall|m: usize| mines.contains(m) implies m < row_count * col_count && m != origin
        && !neighbour_set(origin, row_count, col_count).contains(m) by {
        assert(eligible(origin, row_count, col_count).contains(m));
    }
}

/// The random number generator of the calling thread.
#[verifier::external_type_specification]
#[verifier::external_body]
pub struct ExThreadRng(ThreadRng);

/// `rand::thread_rng` hands out the generator of the calling thread. Nothing
/// is claimed of it.
pub assume_specification[ rand::thread_rng ]() -> (rng: ThreadRng)
;

/// Draws `amount` of the values of `pool` with
/// `rand::seq::IteratorRandom::choose_multiple`, which fills a reservoir with
/// the first `amount` values and then lets each later value take the place of
/// one drawn before, or of none. So each value drawn comes from a place of
/// its own in `pool`, and with no more asked for than `pool` holds, exactly
/// `amount` come back. Which ones, and in what order, is left open.
#[verifier::external_body]
fn choose_multiple(pool: &Vec<usize>, rng: &mut ThreadRng, amount: usize) -> (chosen: Vec<usize>)
    requires
        amount <= pool@.len(),
    ensures
        chosen@.len() == amount,
        chosen@.to_multiset().subset_of(pool@.to_multiset()),
{
    pool.iter().copied().choose_multiple(rng, amount)
}

/// The eligible tiles in ascending order.
fn eligible_tiles(index_to_avoid: usize, row_count: usize, col_count: usize) -> (pool: Vec<usize>)
    requires
        index_to_avoid < row_count * col_count <= usize::MAX,
    ensures
        pool@.no_duplicates(),
        pool@.to_set() == eligible(index_to_avoid, row_count, col_count),
        forall|a: int, b: int| 0 <= a < b < pool@.len() ==> pool@[a] < pool@[b],
{
    assert(1 <= col_count) by (nonlinear_arith)
        requires
            index_to_avoid < row_count * col_count,
    ;
    let indices_to_avoid = get_neighbouring_indices(index_to_avoid, row_count, col_count);
    let total: usize = row_count * col_count;
    let mut pool: Vec<usize> = Vec::new();
    let mut idx: usize = 0;
    while idx < total
        invariant
            idx <= total,
            total == row_count * col_count,
            indices_to_avoid@ == neighbour_set(index_to_avoid, row_count, col_count),
            forall|a: int| 0 <= a < pool@.len() ==> pool@[a] < idx,
            forall|a: int, b: int| 0 <= a < b < pool@.len() ==> pool@[a] < pool@[b],
            forall|a: int|
                0 <= a < pool@.len() ==> eligible(index_to_avoid, row_count, col_count).contains(
                    #[trigger] pool@[a],
                ),
            forall|i: usize|
                i < idx && eligible(index_to_avoid, row_count, col_count).contains(i)
                    ==> pool@.contains(i),
        decreases total - idx,
    {
        let ghost before = pool@;
        if !indices_to_avoid.contains(&idx) && idx != index_to_avoid {
            pool.push(idx);
            assert(pool@[pool@.len() - 1] == idx);
        }
        assert forall|i: usize|
            i < idx + 1 && eligible(index_to_avoid, row_count, col_count).contains(
                i,
            ) implies pool@.contains(i) by {
            if i < idx {
                let a = before.lemma_contains_to_index(i);
                assert(pool@[a] == i);
            } else {
                assert(pool@[pool@.len() - 1] == i);
            }
        }
        idx = idx + 1;
    }
    assert(pool@.to_set() =~= eligible(index_to_avoid, row_count, col_count));
    pool
}

/// Places `count` mines for a game whose first opened tile is
/// `index_to_avoid`: a random choice among the eligible tiles, or all of
/// them where `count` is larger than their number.
pub fn generate_mine_positions(
    count: usize,
    index_to_avoid: usize,
    row_count: usize,
    col_count: usize,
) -> (mines: HashSet<usize>)
    requires
        index_to_avoid < row_count * col_count <= usize::MAX,
    ensures
        is_placement(mines@, count, index_to_avoid, row_count, col_count),
        forall|m: usize|
            mines@.contains(m) ==> {
                &&& m < row_count * col_count
                &&& m != index_to_avoid
                &&& !neighbour_set(index_to_avoid, row_count, col_count).contains(m)
            },
{
    let mut rng = rand::thread_rng();
    let pool = eligible_tiles(index_to_avoid, row_count, col_count);
    let amount = if count <= pool.len() {
        count
    } else {
        pool.len()
    };
    let indices = choose_multiple(&pool, &mut rng, amount);
    proof {
        pool@.unique_seq_to_set();
        lemma_drawn_distinct(pool@, indices@);
        indices@.unique_seq_to_set();
    }
    let mut mines: HashSet<usize> = HashSet::new();
    let mut at: usize = 0;
    while at < indices.len()
        invariant
            at <= indices.len(),
            mines@ == indices@.take(at as int).to_set(),
        decreases indices.len() - at,
    {
        mines.insert(indices[at]);
        proof {
            indices@.lemma_take_succ_push(at as int);
            indices@.take(at as int).lemma_push_to_set_commute(indices@[at as int]);
        }
        at = at + 1;
    }
    proof {
        indices@.lemma_take_len();
        vstd::seq_lib::seq_to_set_is_finite(indices@);
    }
    mines
}

/// Values drawn from places of their own in a pool without repetitions are
/// values of the pool, and no value is drawn twice.
proof fn lemma_drawn_distinct(pool: Seq<usize>, drawn: Seq<usize>)
    requires
        pool.no_duplicates(),
        drawn.to_multiset().subset_of(pool.to_multiset()),
    ensures
        drawn.no_duplicates(),
        drawn.to_set().subset_of(pool.to_set()),
{
    broadcast use vstd::seq_lib::group_to_multiset_ensures;

    pool.lemma_multiset_has_no_duplicates();
    assert forall|x: usize| drawn.to_multiset().contains(x) implies drawn.to_multiset().count(x)
        == 1 by {
        assert(drawn.to_multiset().count(x) <= pool.to_multiset().count(x));
        assert(pool.to_multiset().contains(x));
    }
    drawn.lemma_multiset_has_no_duplicates_conv();
    assert forall|x: usize| drawn.to_set().contains(x) implies pool.to_set().contains(x) by {
        assert(drawn.contains(x));
        assert(drawn.to_multiset().count(x) > 0);
        assert(drawn.to_multiset().count(x) <= pool.to_multiset().count(x));
        assert(pool.contains(x));
    }
}

} // verus!
