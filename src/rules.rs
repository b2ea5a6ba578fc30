use vstd::prelude::*;

use crate::coord::{adjacent, in_i64, Coordinate};

verus! {

/// 1 where the position `(x, y)` is a coordinate of `s`, else 0. Positions
/// beyond the range of a coordinate hold no cell.
pub open spec fn occupied(s: Set<Coordinate>, x: int, y: int) -> int {
    if in_i64(x) && in_i64(y) && s.contains(Coordinate { x: x as i64, y: y as i64 }) {
        1
    } else {
        0
    }
}

/// The number of live cells among the eight around `c` (its Moore neighborhood).
pub open spec fn live_neighbors(s: Set<Coordinate>, c: Coordinate) -> int {
    let (x, y) = (c.x as int, c.y as int);
    occupied(s, x - 1, y - 1) + occupied(s, x, y - 1) + occupied(s, x + 1, y - 1)
        + occupied(s, x - 1, y) + occupied(s, x + 1, y)
        + occupied(s, x - 1, y + 1) + occupied(s, x, y + 1) + occupied(s, x + 1, y + 1)
}

/// Conway's rule: a live cell survives with 2 or 3 live neighbors, a dead
/// cell is born with exactly 3.
pub open spec fn next_alive(s: Set<Coordinate>, c: Coordinate) -> bool {
    let n = live_neighbors(s, c);
    if s.contains(c) {
        n == 2 || n == 3
    } else {
        n == 3
    }
}

/// The generation that follows the live set `s`.
pub open spec fn next_gen(s: Set<Coordinate>) -> Set<Coordinate> {
    Set::new(|c: Coordinate| next_alive(s, c))
}

/// The position, 0 to 7, of the offset `(dx, dy)` in the row-by-row walk of
/// the eight offsets around a cell.
pub open spec fn offset_rank(dx: int, dy: int) -> int {
    let t = (dy + 1) * 3 + (dx + 1);
    if t > 4 {
        t - 1
    } else {
        t
    }
}

/// The x offset of rank `k`.
pub open spec fn rank_dx(k: int) -> int {
    let t = if k >= 4 {
        k + 1
    } else {
        k
    };
    t % 3 - 1
}

/// The y offset of rank `k`.
pub open spec fn rank_dy(k: int) -> int {
    let t = if k >= 4 {
        k + 1
    } else {
        k
    };
    t / 3 - 1
}

/// A cell with at least one live neighbor lies next to some live cell.
pub proof fn lemma_live_neighbor_witness(s: Set<Coordinate>, c: Coordinate)
    requires
        live_neighbors(s, c) > 0,
    ensures
        exists|d: Coordinate| s.contains(d) && #[trigger] adjacent(d, c),
{
    let (x, y) = (c.x as int, c.y as int);
    let dx: int = if occupied(s, x - 1, y - 1) + occupied(s, x - 1, y) + occupied(s, x - 1, y + 1) > 0 {
        -1
    } else if occupied(s, x, y - 1) + occupied(s, x, y + 1) > 0 {
        0
    } else {
        1
    };
    let dy: int = if occupied(s, x + dx, y - 1) == 1 {
        -1
    } else if dx != 0 && occupied(s, x + dx, y) == 1 {
        0
    } else {
        1
    };
    let d = Coordinate { x: (x + dx) as i64, y: (y + dy) as i64 };
    assert(s.contains(d) && adjacent(d, c));
}

} // verus!
