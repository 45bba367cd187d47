use vstd::prelude::*;

verus! {

/// Largest magnitude a board coordinate may take; keeps neighbour arithmetic in range.
pub const COORD_LIMIT: isize = 1000000;

/// A cell of the hexagonal grid in axial coordinates.
#[derive(Clone, Copy, Debug, PartialEq, Eq, Structural, Hash)]
pub struct HexCoord {
    pub q: isize,
    pub r: isize,
}

/// The axial offsets of the six neighbours, in the order `neighbors` yields them.
pub open spec fn neighbor_offset(k: int) -> (int, int) {
    if k == 0 {
        (1, 0)
    } else if k == 1 {
        (1, -1)
    } else if k == 2 {
        (0, -1)
    } else if k == 3 {
        (-1, 0)
    } else if k == 4 {
        (-1, 1)
    } else {
        (0, 1)
    }
}

/// The `k`-th neighbour of `h`, for `0 <= k < 6`.
pub open spec fn neighbor_spec(h: HexCoord, k: int) -> (int, int) {
    (h.q + neighbor_offset(k).0, h.r + neighbor_offset(k).1)
}

/// The `k`-th neighbour of `h` as a cell, for `0 <= k < 6`.
pub open spec fn neighbor_cell(h: HexCoord, k: int) -> HexCoord {
    HexCoord { q: neighbor_spec(h, k).0 as isize, r: neighbor_spec(h, k).1 as isize }
}

/// `b` shares an edge with `a`.
pub open spec fn adjacent(a: HexCoord, b: HexCoord) -> bool {
    exists|k: int| 0 <= k < 6 && #[trigger] neighbor_spec(a, k) == (b.q as int, b.r as int)
}

/// Both coordinates lie within `COORD_LIMIT` of the origin.
pub open spec fn in_bounds(h: HexCoord, limit: int) -> bool {
    -limit <= h.q <= limit && -limit <= h.r <= limit
}

impl HexCoord {
    pub fn new(q: isize, r: isize) -> (h: HexCoord)
        ensures
            h.q == q,
            h.r == r,
    {
        HexCoord { q, r }
    }

    /// The six edge-sharing neighbours, in a fixed order.
    pub fn neighbors(&self) -> (ns: Vec<HexCoord>)
        requires
            in_bounds(*self, COORD_LIMIT as int),
        ensures
            ns@.len() == 6,
            forall|k: int| 0 <= k < 6 ==> (#[trigger] ns@[k]).q == neighbor_spec(*self, k).0 && ns@[k].r
                == neighbor_spec(*self, k).1,
    {
        let q = self.q;
        let r = self.r;
        vec![
            HexCoord { q: q + 1, r },
            HexCoord { q: q + 1, r: r - 1 },
            HexCoord { q, r: r - 1 },
            HexCoord { q: q - 1, r },
            HexCoord { q: q - 1, r: r + 1 },
            HexCoord { q, r: r + 1 },
        ]
    }

    /// Whether `other` shares an edge with this cell.
    pub fn is_adjacent(&self, other: &HexCoord) -> (b: bool)
        requires
            in_bounds(*self, COORD_LIMIT as int),
        ensures
            b == adjacent(*self, *other),
    {
        let ns = self.neighbors();
        let mut k: usize = 0;
        while k < 6
            invariant
                ns@.len() == 6,
                k <= 6,
                forall|k: int| 0 <= k < 6 ==> (#[trigger] ns@[k]).q == neighbor_spec(*self, k).0
                    && ns@[k].r == neighbor_spec(*self, k).1,
                forall|j: int| 0 <= j < k ==> neighbor_spec(*self, j) != (other.q as int, other.r as int),
            decreases 6 - k,
        {
            if ns[k].q == other.q && ns[k].r == other.r {
                assert(neighbor_spec(*self, k as int) == (other.q as int, other.r as int));
                return true;
            }
            k += 1;
        }
        proof {
            assert forall|j: int| 0 <= j < 6 implies #[trigger] neighbor_spec(*self, j) != (other.q as int, other.r as int) by {
                assert(neighbor_spec(*self, j) != (other.q as int, other.r as int));
            }
        }
        false
    }
}

} // verus!
