use vstd::prelude::*;

use crate::coord::Coordinate;

verus! {

/// Width of the play field in pixels; the field is centred on the origin.
pub const FIELD_WIDTH: i64 = 1280;

/// Height of the play field in pixels.
pub const FIELD_HEIGHT: i64 = 720;

/// Side of one grid cell in pixels.
pub const CELL_SIZE: i64 = 8;

/// Whether `(px, py)` lies on the play field, edges included.
pub open spec fn in_play_field_spec(px: i64, py: i64) -> bool {
    -(FIELD_WIDTH / 2) <= px <= FIELD_WIDTH / 2 && -(FIELD_HEIGHT / 2) <= py <= FIELD_HEIGHT / 2
}

/// Whether the pixel position `(px, py)` lies on the play field, edges included.
pub fn in_play_field(px: i64, py: i64) -> (r: bool)
    ensures
        r == in_play_field_spec(px, py),
{
    let half_width: i64 = FIELD_WIDTH / 2;
    let half_height: i64 = FIELD_HEIGHT / 2;
    -half_width <= px && px <= half_width && -half_height <= py && py <= half_height
}

/// The index of the cell that holds pixel `p` along one axis: `p / CELL_SIZE`
/// rounded down.
pub fn pixel_to_cell(p: i64) -> (r: i64)
    ensures
        r as int == (p as int) / (CELL_SIZE as int),
        (r as int) * CELL_SIZE <= p < (r as int) * CELL_SIZE + CELL_SIZE,
{
    if p >= 0 {
        let q: i64 = p / CELL_SIZE;
        assert(q * 8 <= p < q * 8 + 8) by (nonlinear_arith)
            requires q == p / 8, p >= 0;
        assert(q as int == (p as int) / 8) by (nonlinear_arith)
            requires q == p / 8, p >= 0;
        q
    } else {
        let m: i64 = -(p + 1);
        let q: i64 = m / CELL_SIZE;
        assert(q * 8 <= m < q * 8 + 8) by (nonlinear_arith)
            requires q == m / 8, m >= 0;
        let r: i64 = -q - 1;
        assert(r * 8 <= p < r * 8 + 8);
        proof {
            vstd::arithmetic::div_mod::lemma_fundamental_div_mod_converse(p as int, 8, r as int, p - r * 8);
        }
        r
    }
}

/// The cell under the pixel position `(px, py)`, or `None` off the play field.
pub fn place_coordinate(px: i64, py: i64) -> (r: Option<Coordinate>)
    ensures
        match r {
            Some(c) => in_play_field_spec(px, py) && c.x == (px as int) / (CELL_SIZE as int)
                && c.y == (py as int) / (CELL_SIZE as int),
            None => !in_play_field_spec(px, py),
        },
{
    if !in_play_field(px, py) {
        return None;
    }
    Some(Coordinate::new(pixel_to_cell(px), pixel_to_cell(py)))
}

} // verus!
