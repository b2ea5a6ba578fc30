use vstd::prelude::*;

use crate::coord::{in_i64, Coordinate};
use crate::rules::{live_neighbors, next_alive, next_gen, occupied};

verus! {

/// Birth: a dead cell with exactly three live neighbors is alive in the next
/// generation.
pub proof fn law_birth(s: Set<Coordinate>, c: Coordinate)
    requires
        !s.contains(c),
        live_neighbors(s, c) == 3,
    ensures
        next_gen(s).contains(c),
{
}

/// Survival: a live cell stays alive in the next generation exactly when it
/// has two or three live neighbors.
pub proof fn law_survival(s: Set<Coordinate>, c: Coordinate)
    requires
        s.contains(c),
    ensures
        next_gen(s).contains(c) == (live_neighbors(s, c) == 2 || live_neighbors(s, c) == 3),
{
}

/// A lone live cell dies, and nothing is born around it.
pub proof fn law_isolated_cell(c: Coordinate)
    ensures
        next_gen(set![c]) == Set::<Coordinate>::empty(),
{
    let s = set![c];
    assert forall|d: Coordinate| !#[trigger] next_alive(s, d) by {
        let (x, y) = (d.x as int, d.y as int);
        assert(occupied(s, x, y - 1) + occupied(s, x, y + 1) <= 1);
        assert(occupied(s, x - 1, y - 1) + occupied(s, x - 1, y) + occupied(s, x - 1, y + 1) <= 1);
        assert(occupied(s, x + 1, y - 1) + occupied(s, x + 1, y) + occupied(s, x + 1, y + 1) <= 1);
        if d == c {
            assert(live_neighbors(s, d) == 0);
        }
    }
    assert(next_gen(s) =~= Set::<Coordinate>::empty());
}

/// The four cells of the 2 by 2 block whose lowest corner is `(x, y)`.
pub open spec fn block(x: int, y: int) -> Set<Coordinate> {
    set![
        Coordinate { x: x as i64, y: y as i64 },
        Coordinate { x: (x + 1) as i64, y: y as i64 },
        Coordinate { x: x as i64, y: (y + 1) as i64 },
        Coordinate { x: (x + 1) as i64, y: (y + 1) as i64 },
    ]
}

/// A 2 by 2 block is a still life: a generation leaves it as it is, so two
/// generations do too.
pub proof fn law_block_still(x: int, y: int)
    requires
        in_i64(x) && in_i64(x + 1),
        in_i64(y) && in_i64(y + 1),
    ensures
        next_gen(block(x, y)) == block(x, y),
        next_gen(next_gen(block(x, y))) == block(x, y),
{
    let b = block(x, y);
    assert forall|d: Coordinate| #[trigger] next_alive(b, d) == b.contains(d) by {
        let (u, v) = (d.x as int, d.y as int);
        if b.contains(d) {
            assert(live_neighbors(b, d) == 3);
        } else {
            assert(live_neighbors(b, d) <= 2);
        }
    }
    assert(next_gen(b) =~= b);
}

/// Three cells in a row, centred on `(x, y)`.
pub open spec fn row3(x: int, y: int) -> Set<Coordinate> {
    set![
        Coordinate { x: (x - 1) as i64, y: y as i64 },
        Coordinate { x: x as i64, y: y as i64 },
        Coordinate { x: (x + 1) as i64, y: y as i64 },
    ]
}

/// Three cells in a column, centred on `(x, y)`.
pub open spec fn column3(x: int, y: int) -> Set<Coordinate> {
    set![
        Coordinate { x: x as i64, y: (y - 1) as i64 },
        Coordinate { x: x as i64, y: y as i64 },
        Coordinate { x: x as i64, y: (y + 1) as i64 },
    ]
}

proof fn lemma_row_at(x: int, y: int, d: Coordinate)
    requires
        in_i64(x - 1) && in_i64(x + 1),
        in_i64(y - 1) && in_i64(y + 1),
    ensures
        next_alive(row3(x, y), d) == column3(x, y).contains(d),
{
    let r = row3(x, y);
    let (u, v) = (d.x as int, d.y as int);
    if v < y - 2 || v > y + 2 || u < x - 3 || u > x + 3 {
        assert(live_neighbors(r, d) == 0);
    } else if d.x == x && d.y == y {
        assert(live_neighbors(r, d) == 2);
    } else if column3(x, y).contains(d) {
        assert(live_neighbors(r, d) == 3);
    } else {
        assert(live_neighbors(r, d) != 3);
    }
}

proof fn lemma_column_at(x: int, y: int, d: Coordinate)
    requires
        in_i64(x - 1) && in_i64(x + 1),
        in_i64(y - 1) && in_i64(y + 1),
    ensures
        next_alive(column3(x, y), d) == row3(x, y).contains(d),
{
    let c = column3(x, y);
    let (u, v) = (d.x as int, d.y as int);
    if u < x - 2 || u > x + 2 || v < y - 3 || v > y + 3 {
        assert(live_neighbors(c, d) == 0);
    } else if d.x == x && d.y == y {
        assert(live_neighbors(c, d) == 2);
    } else if row3(x, y).contains(d) {
        assert(live_neighbors(c, d) == 3);
    } else {
        assert(live_neighbors(c, d) != 3);
    }
}

/// The blinker oscillates: a row of three becomes the column of three on the
/// same middle cell, and that column becomes the row again.
pub proof fn law_blinker(x: int, y: int)
    requires
        in_i64(x - 1) && in_i64(x + 1),
        in_i64(y - 1) && in_i64(y + 1),
    ensures
        next_gen(row3(x, y)) == column3(x, y),
        next_gen(column3(x, y)) == row3(x, y),
        next_gen(next_gen(row3(x, y))) == row3(x, y),
{
    assert forall|d: Coordinate| #[trigger] next_alive(row3(x, y), d) == column3(x, y).contains(d) by {
        lemma_row_at(x, y, d);
    }
    assert(next_gen(row3(x, y)) =~= column3(x, y));
    assert forall|d: Coordinate| #[trigger] next_alive(column3(x, y), d) == row3(x, y).contains(d) by {
        lemma_column_at(x, y, d);
    }
    assert(next_gen(column3(x, y)) =~= row3(x, y));
}

} // verus!
