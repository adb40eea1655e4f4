//! Grid coordinates and the Moore neighborhood.

use vstd::prelude::*;

verus! {

/// An immutable 2-D integer coordinate. Always copied, compared by value.
#[derive(PartialEq, Eq, Structural, Clone, Copy, Hash, Debug)]
pub struct Loc {
    pub row: i64,
    pub col: i64,
}

/// A location whose whole Moore neighborhood stays inside the `i64` plane,
/// so the eight neighbor coordinates can be computed without overflow.
pub open spec fn loc_in_frame(l: Loc) -> bool {
    &&& i64::MIN < l.row < i64::MAX
    &&& i64::MIN < l.col < i64::MAX
}

/// The eight locations of `l`'s Moore neighborhood, in a fixed order.
pub open spec fn spec_neighbors(l: Loc) -> Seq<Loc> {
    seq![
        Loc { row: (l.row + 1) as i64, col: (l.col + 1) as i64 },
        Loc { row: (l.row + 1) as i64, col: (l.col - 1) as i64 },
        Loc { row: (l.row - 1) as i64, col: (l.col + 1) as i64 },
        Loc { row: (l.row - 1) as i64, col: (l.col - 1) as i64 },
        Loc { row: (l.row + 1) as i64, col: l.col },
        Loc { row: l.row, col: (l.col + 1) as i64 },
        Loc { row: (l.row - 1) as i64, col: l.col },
        Loc { row: l.row, col: (l.col - 1) as i64 },
    ]
}

/// Whether `n` lies in the Moore neighborhood of `l`.
pub open spec fn neighbor_of(l: Loc, n: Loc) -> bool {
    spec_neighbors(l).contains(n)
}

impl Loc {
    pub fn new(row: i64, col: i64) -> (l: Self)
        ensures
            l == (Loc { row, col }),
    {
        Loc { row, col }
    }

    /// The eight neighboring locations, in the order of `spec_neighbors`.
    pub fn neighbors(&self) -> (r: [Loc; 8])
        requires
            loc_in_frame(*self),
        ensures
            r@ == spec_neighbors(*self),
    {
        let r = [
            Loc::new(self.row + 1, self.col + 1),
            Loc::new(self.row + 1, self.col - 1),
            Loc::new(self.row - 1, self.col + 1),
            Loc::new(self.row - 1, self.col - 1),
            Loc::new(self.row + 1, self.col),
            Loc::new(self.row, self.col + 1),
            Loc::new(self.row - 1, self.col),
            Loc::new(self.row, self.col - 1),
        ];
        proof {
            assert(r@ =~= spec_neighbors(*self));
        }
        r
    }
}

/// For an in-frame location, the Moore neighborhood is exactly the set of
/// locations at Chebyshev distance one.
pub proof fn lemma_neighbor_char(k: Loc, l: Loc)
    requires
        loc_in_frame(k),
    ensures
        neighbor_of(k, l) <==> (-1 <= l.row - k.row <= 1 && -1 <= l.col - k.col <= 1 && l != k),
{
    let s = spec_neighbors(k);
    if neighbor_of(k, l) {
        let i = choose|i: int| 0 <= i < s.len() && s[i] == l;
    }
    let dr = l.row - k.row;
    let dc = l.col - k.col;
    if -1 <= dr <= 1 && -1 <= dc <= 1 && l != k {
        if dr == 1 && dc == 1 {
            assert(s[0] == l);
        } else if dr == 1 && dc == -1 {
            assert(s[1] == l);
        } else if dr == -1 && dc == 1 {
            assert(s[2] == l);
        } else if dr == -1 && dc == -1 {
            assert(s[3] == l);
        } else if dr == 1 && dc == 0 {
            assert(s[4] == l);
        } else if dr == 0 && dc == 1 {
            assert(s[5] == l);
        } else if dr == -1 && dc == 0 {
            assert(s[6] == l);
        } else {
            assert(dr == 0 && dc == -1);
            assert(s[7] == l);
        }
        assert(s.contains(l));
    }
}

} // verus!
