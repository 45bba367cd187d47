use vstd::prelude::*;
use crate::hex::{adjacent, in_bounds, HexCoord, COORD_LIMIT};

verus! {

/// One territory: a connected group of cells owned by a single player.
#[derive(Clone, Debug)]
pub struct Region {
    pub id: usize,
    pub hexes: Vec<HexCoord>,
    pub owner: usize,
    pub num_dice: usize,
}

impl View for Region {
    type V = (usize, Seq<HexCoord>, usize, usize);

    /// Identifier, cells, owner and dice count.
    open spec fn view(&self) -> Self::V {
        (self.id, self.hexes@, self.owner, self.num_dice)
    }
}

/// Every cell of the sequence lies within the coordinate limit.
pub open spec fn cells_in_bounds(s: Seq<HexCoord>) -> bool {
    forall|i: int| 0 <= i < s.len() ==> in_bounds(#[trigger] s[i], COORD_LIMIT as int)
}

/// Some cell of `a` shares an edge with some cell of `b`.
pub open spec fn touches(a: Seq<HexCoord>, b: Seq<HexCoord>) -> bool {
    exists|i: int, j: int| 0 <= i < a.len() && 0 <= j < b.len() && adjacent(#[trigger] a[i], #[trigger] b[j])
}

/// `a` may attack `b` (or the other way round): different owners and a shared edge.
pub open spec fn opponents(a: Region, b: Region) -> bool {
    a.owner != b.owner && touches(a.hexes@, b.hexes@)
}

/// Sum of the `q` coordinates of the cells.
pub open spec fn sum_q(s: Seq<HexCoord>) -> int
    decreases s.len(),
{
    if s.len() == 0 {
        0
    } else {
        sum_q(s.drop_last()) + s.last().q
    }
}

/// Sum of the `r` coordinates of the cells.
pub open spec fn sum_r(s: Seq<HexCoord>) -> int
    decreases s.len(),
{
    if s.len() == 0 {
        0
    } else {
        sum_r(s.drop_last()) + s.last().r
    }
}

/// Squared distance of `h` from the centre of mass of `s`, scaled by `len(s)^2`.
pub open spec fn scaled_dist2(s: Seq<HexCoord>, h: HexCoord) -> int {
    let dq = sum_q(s) - s.len() * h.q;
    let dr = sum_r(s) - s.len() * h.r;
    dq * dq + dr * dr
}

/// `i` is the first index of a cell of `s` nearest to the centre of mass of `s`.
pub open spec fn is_first_nearest(s: Seq<HexCoord>, i: int) -> bool {
    &&& 0 <= i < s.len()
    &&& forall|j: int| 0 <= j < s.len() ==> scaled_dist2(s, s[i]) <= #[trigger] scaled_dist2(s, s[j])
    &&& forall|j: int| 0 <= j < i ==> scaled_dist2(s, s[i]) < #[trigger] scaled_dist2(s, s[j])
}

proof fn lemma_sums_bounded(s: Seq<HexCoord>)
    requires
        cells_in_bounds(s),
    ensures
        -s.len() * COORD_LIMIT <= sum_q(s) <= s.len() * COORD_LIMIT,
        -s.len() * COORD_LIMIT <= sum_r(s) <= s.len() * COORD_LIMIT,
    decreases s.len(),
{
    if s.len() > 0 {
        let t = s.drop_last();
        assert(cells_in_bounds(t)) by {
            assert forall|i: int| 0 <= i < t.len() implies in_bounds(#[trigger] t[i], COORD_LIMIT as int) by {
                assert(t[i] == s[i]);
            }
        }
        lemma_sums_bounded(t);
        assert(in_bounds(s[s.len() - 1], COORD_LIMIT as int));
        assert(-s.len() * COORD_LIMIT == -t.len() * COORD_LIMIT - COORD_LIMIT) by (nonlinear_arith)
            requires s.len() == t.len() + 1;
    }
}

/// Copies a list of cells.
pub fn copy_cells(v: &Vec<HexCoord>) -> (c: Vec<HexCoord>)
    ensures
        c@ == v@,
{
    let mut c: Vec<HexCoord> = Vec::new();
    let mut i: usize = 0;
    while i < v.len()
        invariant
            i <= v@.len(),
            c@ == v@.subrange(0, i as int),
        decreases v@.len() - i,
    {
        c.push(v[i]);
        i += 1;
    }
    assert(c@ =~= v@);
    c
}

impl Region {
    /// A copy of this region, field for field.
    pub fn snapshot(&self) -> (r: Region)
        ensures
            r@ == self@,
    {
        Region { id: self.id, hexes: copy_cells(&self.hexes), owner: self.owner, num_dice: self.num_dice }
    }

    /// Whether this region and `other` have different owners and share an edge.
    pub fn is_opponent(&self, other: &Region) -> (b: bool)
        requires
            cells_in_bounds(self.hexes@),
        ensures
            b == opponents(*self, *other),
    {
        if self.owner == other.owner {
            return false;
        }
        let mut i: usize = 0;
        while i < self.hexes.len()
            invariant
                cells_in_bounds(self.hexes@),
                self.owner != other.owner,
                i <= self.hexes@.len(),
                forall|a: int, b: int| 0 <= a < i && 0 <= b < other.hexes@.len() ==> !adjacent(
                    #[trigger] self.hexes@[a], #[trigger] other.hexes@[b]),
            decreases self.hexes@.len() - i,
        {
            let mut j: usize = 0;
            while j < other.hexes.len()
                invariant
                    cells_in_bounds(self.hexes@),
                    self.owner != other.owner,
                    i < self.hexes@.len(),
                    j <= other.hexes@.len(),
                    forall|a: int, b: int| 0 <= a < i && 0 <= b < other.hexes@.len() ==> !adjacent(
                        #[trigger] self.hexes@[a], #[trigger] other.hexes@[b]),
                    forall|b: int| 0 <= b < j ==> !adjacent(self.hexes@[i as int], #[trigger] other.hexes@[b]),
                decreases other.hexes@.len() - j,
            {
                if self.hexes[i].is_adjacent(&other.hexes[j]) {
                    assert(adjacent(self.hexes@[i as int], other.hexes@[j as int]));
                    assert(touches(self.hexes@, other.hexes@));
                    return true;
                }
                j += 1;
            }
            i += 1;
        }
        false
    }

    /// The cell of this region nearest to its centre of mass (the first such cell
    /// where several are equally near); the origin for a region without cells.
    pub fn center_hex(&self) -> (h: HexCoord)
        requires
            cells_in_bounds(self.hexes@),
            self.hexes@.len() <= u32::MAX,
        ensures
            self.hexes@.len() == 0 ==> h == (HexCoord { q: 0, r: 0 }),
            self.hexes@.len() > 0 ==> (exists|i: int| is_first_nearest(self.hexes@, i) && h == self.hexes@[i]),
    {
        let s = Ghost(self.hexes@);
        let n: usize = self.hexes.len();
        if n == 0 {
            return HexCoord { q: 0, r: 0 };
        }
        let mut total_q: i128 = 0;
        let mut total_r: i128 = 0;
        let mut i: usize = 0;
        while i < n
            invariant
                s@ == self.hexes@,
                n == s@.len(),
                n <= u32::MAX,
                cells_in_bounds(s@),
                i <= n,
                total_q == sum_q(s@.subrange(0, i as int)),
                total_r == sum_r(s@.subrange(0, i as int)),
            decreases n - i,
        {
            let ghost pre = s@.subrange(0, i as int);
            let ghost next = s@.subrange(0, i as int + 1);
            proof {
                assert(next.drop_last() =~= pre);
                assert(cells_in_bounds(pre)) by {
                    assert forall|k: int| 0 <= k < pre.len() implies in_bounds(#[trigger] pre[k], COORD_LIMIT as int) by {
                        assert(pre[k] == s@[k]);
                    }
                }
                lemma_sums_bounded(pre);
                assert(in_bounds(s@[i as int], COORD_LIMIT as int));
                assert(pre.len() * COORD_LIMIT <= 4294967295 * 1000000) by (nonlinear_arith)
                    requires pre.len() <= 4294967295;
            }
            total_q = total_q + self.hexes[i].q as i128;
            total_r = total_r + self.hexes[i].r as i128;
            i += 1;
        }
        assert(s@.subrange(0, n as int) =~= s@);
        proof {
            lemma_sums_bounded(s@);
            assert(n * COORD_LIMIT <= 4294967295 * 1000000) by (nonlinear_arith)
                requires n <= 4294967295;
        }
        let nn: i128 = n as i128;
        let mut best: usize = 0;
        let mut best_dist: i128 = 0;
        let mut k: usize = 0;
        while k < n
            invariant
                s@ == self.hexes@,
                n == s@.len(),
                n > 0,
                n <= u32::MAX,
                nn == n,
                cells_in_bounds(s@),
                total_q == sum_q(s@),
                total_r == sum_r(s@),
                -4294967295 * 1000000 <= total_q <= 4294967295 * 1000000,
                -4294967295 * 1000000 <= total_r <= 4294967295 * 1000000,
                k <= n,
                best < n,
                k == 0 ==> best == 0,
                k > 0 ==> best < k,
                k > 0 ==> best_dist == scaled_dist2(s@, s@[best as int]),
                forall|j: int| 0 <= j < k ==> best_dist <= #[trigger] scaled_dist2(s@, s@[j]),
                forall|j: int| 0 <= j < best ==> best_dist < #[trigger] scaled_dist2(s@, s@[j]),
            decreases n - k,
        {
            let h = self.hexes[k];
            proof {
                assert(in_bounds(s@[k as int], COORD_LIMIT as int));
                assert(-4294967295 * 1000000 <= nn * h.q <= 4294967295 * 1000000) by (nonlinear_arith)
                    requires 0 < nn <= 4294967295, -1000000 <= h.q <= 1000000;
                assert(-4294967295 * 1000000 <= nn * h.r <= 4294967295 * 1000000) by (nonlinear_arith)
                    requires 0 < nn <= 4294967295, -1000000 <= h.r <= 1000000;
            }
            let dq = total_q - nn * (h.q as i128);
            let dr = total_r - nn * (h.r as i128);
            proof {
                assert(0 <= dq * dq <= 8589934590000000 * 8589934590000000) by (nonlinear_arith)
                    requires -8589934590000000 <= dq <= 8589934590000000;
                assert(0 <= dr * dr <= 8589934590000000 * 8589934590000000) by (nonlinear_arith)
                    requires -8589934590000000 <= dr <= 8589934590000000;
            }
            let d = dq * dq + dr * dr;
            assert(d == scaled_dist2(s@, s@[k as int]));
            if k == 0 || d < best_dist {
                best = k;
                best_dist = d;
            }
            k += 1;
        }
        assert(is_first_nearest(s@, best as int));
        self.hexes[best]
    }
}

} // verus!
