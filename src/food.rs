use vstd::prelude::*;
use crate::grid::{Position, on_board, contains_cell, WIDTH_IN_TILE, HEIGHT_IN_TILE};

verus! {

/// Random draws tried before the free cells are listed outright.
pub const MAX_RANDOM_DRAWS: usize = 32;

/// `s` with every occurrence of `p` taken out, the rest in order.
pub open spec fn without(s: Seq<Position>, p: Position) -> Seq<Position>
    decreases s.len(),
{
    if s.len() == 0 {
        s
    } else {
        let rest = without(s.drop_last(), p);
        if s.last() == p {
            rest
        } else {
            rest.push(s.last())
        }
    }
}

/// A cell where food may go: on the board and not occupied.
pub open spec fn is_free(c: Position, occupied: Seq<Position>) -> bool {
    on_board(c) && !occupied.contains(c)
}

/// Every cell of the board is occupied.
pub open spec fn board_full(occupied: Seq<Position>) -> bool {
    forall|c: Position| on_board(c) ==> occupied.contains(c)
}

/// Strict row-major order of cells: by column, then by row.
pub open spec fn precedes(a: Position, b: Position) -> bool {
    a.x < b.x || (a.x == b.x && a.y < b.y)
}

/// Relies on rand::Rng::gen_range with the thread-local generator
/// (rand::thread_rng): a value drawn from the half-open range `0..bound`,
/// which panics on an empty range.
#[verifier::external_body]
fn random_below(bound: usize) -> (r: usize)
    requires
        bound > 0,
    ensures
        r < bound,
{
    rand::Rng::gen_range(&mut rand::thread_rng(), 0..bound)
}

/// Removes every food cell equal to the head cell and returns how many were
/// removed: each one is a growth signal.
pub fn check_eating(head: Position, food: &mut Vec<Position>) -> (eaten: usize)
    ensures
        final(food)@ == without(old(food)@, head),
        eaten as int == old(food)@.len() - final(food)@.len(),
        (eaten > 0) == old(food)@.contains(head),
{
    let ghost before = food@;
    let mut kept: Vec<Position> = Vec::new();
    let mut eaten: usize = 0;
    let mut i: usize = 0;
    while i < food.len()
        invariant
            food@ == before,
            0 <= i <= before.len(),
            kept@ == without(before.take(i as int), head),
            eaten as int == i - kept@.len(),
            (eaten > 0) == before.take(i as int).contains(head),
        decreases before.len() - i,
    {
        let f = food[i];
        proof {
            let t = before.take(i as int);
            let t1 = before.take(i as int + 1);
            assert(t1.drop_last() =~= t);
            assert(t1.last() == f);
            assert(t1 =~= t.push(f));
            if t.contains(head) {
                let k = choose|k: int| 0 <= k < t.len() && t[k] == head;
                assert(t1[k] == head);
            }
            if t1.contains(head) && f != head {
                let k = choose|k: int| 0 <= k < t1.len() && t1[k] == head;
                assert(t[k] == head);
            }
            if f == head {
                assert(t1[i as int] == head);
            }
        }
        if f == head {
            eaten = eaten + 1;
        } else {
            kept.push(f);
        }
        i += 1;
    }
    proof {
        assert(before.take(before.len() as int) =~= before);
    }
    *food = kept;
    eaten
}

/// Every cell of the board, in row-major order, that `occupied` does not hold.
pub fn free_cells(occupied: &Vec<Position>) -> (r: Vec<Position>)
    ensures
        forall|k: int| 0 <= k < r@.len() ==> is_free(#[trigger] r@[k], occupied@),
        forall|c: Position| is_free(c, occupied@) ==> r@.contains(c),
        forall|i: int, j: int| 0 <= i < j < r@.len() ==> precedes(r@[i], r@[j]),
{
    let mut r: Vec<Position> = Vec::new();
    let mut x: i32 = 0;
    while x < WIDTH_IN_TILE
        invariant
            0 <= x <= WIDTH_IN_TILE,
            forall|k: int| 0 <= k < r@.len() ==> is_free(#[trigger] r@[k], occupied@),
            forall|k: int| 0 <= k < r@.len() ==> (#[trigger] r@[k]).x < x,
            forall|c: Position| is_free(c, occupied@) && c.x < x ==> r@.contains(c),
            forall|i: int, j: int| 0 <= i < j < r@.len() ==> precedes(r@[i], r@[j]),
        decreases WIDTH_IN_TILE - x,
    {
        let mut y: i32 = 0;
        while y < HEIGHT_IN_TILE
            invariant
                0 <= x < WIDTH_IN_TILE,
                0 <= y <= HEIGHT_IN_TILE,
                forall|k: int| 0 <= k < r@.len() ==> is_free(#[trigger] r@[k], occupied@),
                forall|k: int| 0 <= k < r@.len() ==> precedes(#[trigger] r@[k], Position { x, y }),
                forall|c: Position| is_free(c, occupied@) && precedes(c, Position { x, y }) ==> r@.contains(c),
                forall|i: int, j: int| 0 <= i < j < r@.len() ==> precedes(r@[i], r@[j]),
            decreases HEIGHT_IN_TILE - y,
        {
            let c = Position { x, y };
            let ghost r0 = r@;
            if !contains_cell(occupied, c) {
                r.push(c);
                proof {
                    assert forall|d: Position| is_free(d, occupied@) && precedes(d, Position { x, y: (y + 1) as i32 }) implies r@.contains(d) by {
                        if d == c {
                            assert(r@[r0.len() as int] == c);
                        } else {
                            assert(precedes(d, c));
                            let k = choose|k: int| 0 <= k < r0.len() && r0[k] == d;
                            assert(r@[k] == d);
                        }
                    }
                }
            } else {
                proof {
                    assert forall|d: Position| is_free(d, occupied@) && precedes(d, Position { x, y: (y + 1) as i32 }) implies r@.contains(d) by {
                        assert(d != c);
                    }
                }
            }
            y += 1;
        }
        proof {
            assert forall|c: Position| is_free(c, occupied@) && c.x < x + 1 implies r@.contains(c) by {
                if c.x == x {
                    assert(precedes(c, Position { x, y }));
                }
            }
            assert forall|k: int| 0 <= k < r@.len() implies (#[trigger] r@[k]).x < x + 1 by {
                assert(precedes(r@[k], Position { x, y }));
            }
        }
        x += 1;
    }
    r
}

/// Picks a cell for new food: first by uniform random draws over the whole
/// board, rejecting occupied cells, and after `MAX_RANDOM_DRAWS` misses by a
/// uniform draw among the free cells. `None` only when the board is full.
pub fn place_food(occupied: &Vec<Position>) -> (r: Option<Position>)
    ensures
        r matches Some(c) ==> is_free(c, occupied@),
        r is None <==> board_full(occupied@),
        occupied@.len() < WIDTH_IN_TILE * HEIGHT_IN_TILE ==> r is Some,
{
    proof {
        if occupied@.len() < WIDTH_IN_TILE * HEIGHT_IN_TILE {
            lemma_free_cell_exists(occupied@);
        }
    }
    let mut draws: usize = 0;
    while draws < MAX_RANDOM_DRAWS
        invariant
            0 <= draws <= MAX_RANDOM_DRAWS,
        decreases MAX_RANDOM_DRAWS - draws,
    {
        let x = random_below(WIDTH_IN_TILE as usize) as i32;
        let y = random_below(HEIGHT_IN_TILE as usize) as i32;
        let c = Position { x, y };
        if !contains_cell(occupied, c) {
            proof {
                assert(on_board(c));
            }
            return Some(c);
        }
        draws += 1;
    }
    let free = free_cells(occupied);
    if free.len() == 0 {
        proof {
            assert forall|c: Position| on_board(c) implies occupied@.contains(c) by {
                if !occupied@.contains(c) {
                    assert(is_free(c, occupied@));
                    assert(free@.contains(c));
                }
            }
        }
        None
    } else {
        let k = random_below(free.len());
        let c = free[k];
        proof {
            assert(is_free(free@[k as int], occupied@));
            assert(on_board(c));
        }
        Some(c)
    }
}

/// All cells of the board, column by column.
pub open spec fn board_cells() -> Seq<Position> {
    Seq::new(
        (WIDTH_IN_TILE * HEIGHT_IN_TILE) as nat,
        |i: int| Position { x: (i / HEIGHT_IN_TILE as int) as i32, y: (i % HEIGHT_IN_TILE as int) as i32 },
    )
}

/// Fewer occupied entries than board cells leave a free cell.
pub proof fn lemma_free_cell_exists(occupied: Seq<Position>)
    requires
        occupied.len() < WIDTH_IN_TILE * HEIGHT_IN_TILE,
    ensures
        exists|c: Position| is_free(c, occupied),
{
    let b = board_cells();
    assert(b.no_duplicates()) by {
        assert forall|i: int, j: int| 0 <= i < b.len() && 0 <= j < b.len() && i != j implies b[i] != b[j] by {
            assert(i == 10 * (i / 10) + i % 10) by (nonlinear_arith)
                requires 0 <= i;
            assert(j == 10 * (j / 10) + j % 10) by (nonlinear_arith)
                requires 0 <= j;
        }
    }
    assert forall|k: int| 0 <= k < b.len() implies on_board(#[trigger] b[k]) by {
        assert(0 <= k / 10 < 10) by (nonlinear_arith)
            requires 0 <= k < 100;
    }
    if !(exists|c: Position| is_free(c, occupied)) {
        b.unique_seq_to_set();
        occupied.lemma_cardinality_of_set();
        assert(b.to_set().subset_of(occupied.to_set())) by {
            assert forall|c: Position| b.to_set().contains(c) implies occupied.to_set().contains(c) by {
                let k = choose|k: int| 0 <= k < b.len() && b[k] == c;
                assert(on_board(b[k]));
                assert(!is_free(c, occupied));
            }
        }
        vstd::set_lib::lemma_len_subset(b.to_set(), occupied.to_set());
    }
}

} // verus!
