use vstd::prelude::*;

verus! {

/// A cell position on the unbounded integer grid.
#[derive(Clone, Copy, Debug, PartialEq, Eq, Hash, Structural)]
pub struct Coordinate {
    pub x: i64,
    pub y: i64,
}

/// Whether an integer can be held by a coordinate component.
pub open spec fn in_i64(v: int) -> bool {
    i64::MIN <= v <= i64::MAX
}

/// Whether `b` is one of the eight cells around `a`.
pub open spec fn adjacent(a: Coordinate, b: Coordinate) -> bool {
    -1 <= b.x - a.x <= 1 && -1 <= b.y - a.y <= 1 && a != b
}

/// A one-to-one packing of both components of a coordinate into one integer.
pub open spec fn packed(c: Coordinate) -> int {
    c.x as int * 0x1_0000_0000_0000_0000 + (c.y as int + 0x8000_0000_0000_0000)
}

/// The hash-map key of a coordinate.
pub open spec fn key_of(c: Coordinate) -> i128 {
    packed(c) as i128
}

pub proof fn lemma_packed_range(c: Coordinate)
    ensures
        i128::MIN <= packed(c) <= i128::MAX,
{
    assert(c.x as int * 0x1_0000_0000_0000_0000 <= 0x7fff_ffff_ffff_ffff * 0x1_0000_0000_0000_0000)
        by (nonlinear_arith)
        requires c.x <= 0x7fff_ffff_ffff_ffff;
    assert(c.x as int * 0x1_0000_0000_0000_0000 >= -0x8000_0000_0000_0000 * 0x1_0000_0000_0000_0000)
        by (nonlinear_arith)
        requires c.x >= -0x8000_0000_0000_0000;
}

pub proof fn lemma_key_injective(a: Coordinate, b: Coordinate)
    ensures
        (key_of(a) == key_of(b)) == (a == b),
{
    lemma_packed_range(a);
    lemma_packed_range(b);
    let ua = a.y as int + 0x8000_0000_0000_0000;
    let ub = b.y as int + 0x8000_0000_0000_0000;
    if key_of(a) == key_of(b) {
        assert(packed(a) == packed(b));
        assert((a.x as int - b.x as int) * 0x1_0000_0000_0000_0000 == ub - ua) by (nonlinear_arith)
            requires
                a.x as int * 0x1_0000_0000_0000_0000 + ua == b.x as int * 0x1_0000_0000_0000_0000 + ub;
        if a.x as int > b.x as int {
            assert((a.x as int - b.x as int) * 0x1_0000_0000_0000_0000 >= 0x1_0000_0000_0000_0000)
                by (nonlinear_arith)
                requires a.x as int - b.x as int >= 1;
        } else if (a.x as int) < (b.x as int) {
            assert((b.x as int - a.x as int) * 0x1_0000_0000_0000_0000 >= 0x1_0000_0000_0000_0000)
                by (nonlinear_arith)
                requires b.x as int - a.x as int >= 1;
        }
    }
}

pub proof fn lemma_keys_distinct()
    ensures
        forall|a: Coordinate, b: Coordinate| #[trigger] key_of(a) == #[trigger] key_of(b) ==> a == b,
{
    assert forall|a: Coordinate, b: Coordinate| #[trigger] key_of(a) == #[trigger] key_of(b) implies a == b by {
        lemma_key_injective(a, b);
    }
}

impl Coordinate {
    pub fn new(x: i64, y: i64) -> (r: Coordinate)
        ensures
            r.x == x,
            r.y == y,
    {
        Coordinate { x, y }
    }

    /// The packed hash-map key of this coordinate.
    pub fn key(&self) -> (k: i128)
        ensures
            k == key_of(*self),
    {
        proof { lemma_packed_range(*self); }
        let high: i128 = (self.x as i128) * 0x1_0000_0000_0000_0000i128;
        let low: i128 = (self.y as i128) + 0x8000_0000_0000_0000i128;
        high + low
    }

    /// The cell at offset `(dx, dy)` from this one, or `None` where that
    /// position lies beyond the range of a coordinate.
    pub fn offset(&self, dx: i64, dy: i64) -> (r: Option<Coordinate>)
        requires
            -1 <= dx <= 1,
            -1 <= dy <= 1,
        ensures
            r is Some <==> (in_i64(self.x + dx) && in_i64(self.y + dy)),
            r matches Some(d) ==> d.x == self.x + dx && d.y == self.y + dy,
    {
        if (dx < 0 && self.x == i64::MIN) || (dx > 0 && self.x == i64::MAX) {
            return None;
        }
        if (dy < 0 && self.y == i64::MIN) || (dy > 0 && self.y == i64::MAX) {
            return None;
        }
        Some(Coordinate { x: self.x + dx, y: self.y + dy })
    }
}

} // verus!
