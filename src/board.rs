use vstd::prelude::*;
use rand::rngs::StdRng;
use crate::hex::{adjacent, in_bounds, neighbor_cell, neighbor_offset, neighbor_spec, HexCoord, COORD_LIMIT};
use crate::random::{choose_cell, draw_in_range, shuffle_order};
use crate::region::{cells_in_bounds, touches, Region};
use vstd::arithmetic::div_mod::{lemma_mod_multiples_vanish, lemma_small_mod};

verus! {

/// The map: every cell taken while it was generated with the player it was
/// taken for (no cell twice), and its regions indexed by id.
#[derive(Debug)]
pub struct Board {
    pub hexes: Vec<(HexCoord, usize)>,
    pub regions: Vec<Region>,
}

/// Region `i` sits at index `i`, has at least one cell, all in bounds, at least
/// one die, and an owner below `players`.
pub open spec fn regions_wf(regions: Seq<Region>, players: int) -> bool {
    forall|i: int|
        0 <= i < regions.len() ==> {
            &&& (#[trigger] regions[i]).id == i
            &&& regions[i].hexes@.len() > 0
            &&& cells_in_bounds(regions[i].hexes@)
            &&& regions[i].num_dice >= 1
            &&& regions[i].owner < players
        }
}

/// Side length of the square in which patches are seeded.
pub const BOARD_SIZE: isize = 20;

/// Seeds are drawn from `-HALF_BOARD_SIZE..HALF_BOARD_SIZE` on both axes (one less than half the side).
pub const HALF_BOARD_SIZE: isize = 9;

/// Number of regions each player receives.
pub const NUMBER_OF_PATCHES: usize = 16;

/// Dice each player starts with, spread over their regions.
pub const DICE_PER_PLAYER: usize = 64;

/// Most dice a region receives when the board is generated.
pub const MAX_INITIAL_DICE: usize = 3;

/// Seeds tried for one patch before generation gives up.
pub const MAX_ATTEMPTS: usize = 10000;

/// Why a board could not be generated.
#[derive(Clone, Copy, Debug, PartialEq, Eq, Structural)]
pub enum GenerationError {
    /// No seed out of `MAX_ATTEMPTS` grew into a patch that could be placed.
    TooManyAttempts,
}

/// No cell occurs twice anywhere among the regions.
pub open spec fn cells_disjoint(regions: Seq<Region>) -> bool {
    forall|i: int, j: int, a: int, b: int|
        0 <= i < regions.len() && 0 <= j < regions.len() && 0 <= a < regions[i].hexes@.len() && 0 <= b
            < regions[j].hexes@.len() && (i != j || a != b) ==> #[trigger] regions[i].hexes@[a]
            != #[trigger] regions[j].hexes@[b]
}

/// Region `i` shares an edge with a region placed before it.
pub open spec fn borders_earlier(regions: Seq<Region>, i: int) -> bool {
    exists|j: int| 0 <= j < i && #[trigger] touches(regions[i].hexes@, regions[j].hexes@)
}

/// Every region after the first shares an edge with a region placed before it.
pub open spec fn placed_connected(regions: Seq<Region>) -> bool {
    forall|i: int| 1 <= i < regions.len() ==> #[trigger] borders_earlier(regions, i)
}

/// Number of regions that `player` owns.
pub open spec fn player_regions(regions: Seq<Region>, player: usize) -> int
    decreases regions.len(),
{
    if regions.len() == 0 {
        0
    } else {
        player_regions(regions.drop_last(), player) + if regions.last().owner == player { 1int } else { 0 }
    }
}

/// Dice on the regions that `player` owns.
pub open spec fn player_dice(regions: Seq<Region>, player: usize) -> int
    decreases regions.len(),
{
    if regions.len() == 0 {
        0
    } else {
        player_dice(regions.drop_last(), player) + if regions.last().owner == player {
            regions.last().num_dice as int
        } else {
            0
        }
    }
}

/// The shape of a region list before dice are given out: ids match indices,
/// each region has in-bounds cells and an owner below `players`.
pub open spec fn layout_wf(regions: Seq<Region>, players: int) -> bool {
    forall|i: int|
        0 <= i < regions.len() ==> {
            &&& (#[trigger] regions[i]).id == i
            &&& regions[i].hexes@.len() > 0
            &&& cells_in_bounds(regions[i].hexes@)
            &&& regions[i].owner < players
        }
}

/// The cells of the regions in placement order, each with its region's owner.
pub open spec fn owned_cells(regions: Seq<Region>) -> Seq<(HexCoord, usize)>
    decreases regions.len(),
{
    if regions.len() == 0 {
        Seq::empty()
    } else {
        owned_cells(regions.drop_last()) + regions.last().hexes@.map_values(
            |h: HexCoord| (h, regions.last().owner),
        )
    }
}

/// Cells a patch may grow by beyond its seed, so that the patches of all
/// players cover about half of the seeding square.
pub open spec fn patch_size_for(players: usize) -> int {
    (BOARD_SIZE * BOARD_SIZE) as int / (NUMBER_OF_PATCHES * players * 2) as int
}

/// Properties of a freshly generated board for `players` players.
pub open spec fn generated(board: Board, players: usize) -> bool {
    let regions = board.regions@;
    &&& regions_wf(regions, players as int)
    &&& regions.len() == NUMBER_OF_PATCHES * players
    &&& forall|i: int| 0 <= i < regions.len() ==> (#[trigger] regions[i]).owner == i % players as int
    &&& forall|i: int| 0 <= i < regions.len() ==> patch_shape(#[trigger] regions[i].hexes@, patch_size_for(players))
    &&& board.hexes@ == owned_cells(regions)
    &&& cells_disjoint(regions)
    &&& placed_connected(regions)
    &&& forall|i: int| 0 <= i < regions.len() ==> (#[trigger] regions[i]).num_dice <= MAX_INITIAL_DICE
    &&& forall|p: usize|
        p < players ==> #[trigger] player_regions(regions, p) == NUMBER_OF_PATCHES && player_dice(regions, p)
            <= DICE_PER_PLAYER
}

proof fn lemma_adjacent_in_bounds(a: HexCoord, b: HexCoord, limit: int)
    requires
        adjacent(a, b),
        in_bounds(a, limit),
    ensures
        in_bounds(b, limit + 1),
{
    let k = choose|k: int| 0 <= k < 6 && #[trigger] neighbor_spec(a, k) == (b.q as int, b.r as int);
    assert(neighbor_offset(k).0 <= 1 && neighbor_offset(k).0 >= -1);
}

/// Whether `h` is one of `cells`.
pub fn contains_cell(cells: &Vec<HexCoord>, h: HexCoord) -> (b: bool)
    ensures
        b == cells@.contains(h),
{
    let mut i: usize = 0;
    while i < cells.len()
        invariant
            i <= cells@.len(),
            forall|k: int| 0 <= k < i ==> cells@[k] != h,
        decreases cells@.len() - i,
    {
        if cells[i] == h {
            assert(cells@[i as int] == h);
            return true;
        }
        i += 1;
    }
    false
}

/// Whether some cell of `patch` shares an edge with some cell of `cells`.
pub fn borders(patch: &Vec<HexCoord>, cells: &Vec<HexCoord>) -> (b: bool)
    requires
        cells_in_bounds(patch@),
    ensures
        b == touches(patch@, cells@),
{
    let mut i: usize = 0;
    while i < patch.len()
        invariant
            cells_in_bounds(patch@),
            i <= patch@.len(),
            forall|a: int, c: int| 0 <= a < i && 0 <= c < cells@.len() ==> !adjacent(#[trigger] patch@[a], #[trigger] cells@[c]),
        decreases patch@.len() - i,
    {
        let mut j: usize = 0;
        while j < cells.len()
            invariant
                cells_in_bounds(patch@),
                i < patch@.len(),
                j <= cells@.len(),
                forall|a: int, c: int| 0 <= a < i && 0 <= c < cells@.len() ==> !adjacent(#[trigger] patch@[a], #[trigger] cells@[c]),
                forall|c: int| 0 <= c < j ==> !adjacent(patch@[i as int], #[trigger] cells@[c]),
            decreases cells@.len() - j,
        {
            if patch[i].is_adjacent(&cells[j]) {
                assert(adjacent(patch@[i as int], cells@[j as int]));
                return true;
            }
            j += 1;
        }
        i += 1;
    }
    false
}

/// `h` is in neither `occupied` nor `patch`.
pub open spec fn is_free(h: HexCoord, occupied: Seq<HexCoord>, patch: Seq<HexCoord>) -> bool {
    !occupied.contains(h) && !patch.contains(h)
}

/// Cell `j` of `s` shares an edge with an earlier cell of `s`.
pub open spec fn joined_to_earlier(s: Seq<HexCoord>, j: int) -> bool {
    exists|i: int| 0 <= i < j && adjacent(#[trigger] s[i], s[j])
}

/// Every cell of `s` after the first shares an edge with an earlier one.
pub open spec fn contiguous(s: Seq<HexCoord>) -> bool {
    forall|j: int| 1 <= j < s.len() ==> #[trigger] joined_to_earlier(s, j)
}

/// No cell of `patch` has a neighbour that is in neither `occupied` nor `patch`.
pub open spec fn boxed_in(patch: Seq<HexCoord>, occupied: Seq<HexCoord>) -> bool {
    forall|i: int, k: int|
        0 <= i < patch.len() && 0 <= k < 6 ==> !is_free(#[trigger] neighbor_cell(patch[i], k), occupied, patch)
}

/// `h` lies in the square from which seeds are drawn.
pub open spec fn in_seed_square(h: HexCoord) -> bool {
    -HALF_BOARD_SIZE <= h.q < HALF_BOARD_SIZE && -HALF_BOARD_SIZE <= h.r < HALF_BOARD_SIZE
}

/// The shape of a placed patch: two to `patch_size + 1` cells in bounds, the
/// first in the seeding square, each later one bordering an earlier one.
pub open spec fn patch_shape(s: Seq<HexCoord>, patch_size: int) -> bool {
    &&& 2 <= s.len() <= patch_size + 1
    &&& in_seed_square(s[0])
    &&& contiguous(s)
    &&& cells_in_bounds(s)
}

/// The neighbours of `cell` that are in neither `occupied` nor `patch`.
fn free_neighbors(cell: HexCoord, occupied: &Vec<HexCoord>, patch: &Vec<HexCoord>) -> (free: Vec<HexCoord>)
    requires
        in_bounds(cell, COORD_LIMIT as int),
    ensures
        forall|x: HexCoord| #[trigger] free@.contains(x) ==> is_free(x, occupied@, patch@) && adjacent(cell, x),
        forall|k: int|
            0 <= k < 6 && is_free(#[trigger] neighbor_cell(cell, k), occupied@, patch@) ==> free@.contains(
                neighbor_cell(cell, k),
            ),
{
    let ns = cell.neighbors();
    let mut free: Vec<HexCoord> = Vec::new();
    let mut k: usize = 0;
    while k < 6
        invariant
            ns@.len() == 6,
            k <= 6,
            forall|m: int| 0 <= m < 6 ==> (#[trigger] ns@[m]).q == neighbor_spec(cell, m).0 && ns@[m].r == neighbor_spec(cell, m).1,
            forall|x: HexCoord| #[trigger] free@.contains(x) ==> is_free(x, occupied@, patch@) && adjacent(cell, x),
            forall|m: int|
                0 <= m < k && is_free(#[trigger] neighbor_cell(cell, m), occupied@, patch@) ==> free@.contains(
                    neighbor_cell(cell, m),
                ),
        decreases 6 - k,
    {
        let nb = ns[k];
        assert(nb == neighbor_cell(cell, k as int));
        if !contains_cell(occupied, nb) && !contains_cell(patch, nb) {
            assert(neighbor_spec(cell, k as int) == (nb.q as int, nb.r as int));
            assert(adjacent(cell, nb));
            let ghost before = free@;
            free.push(nb);
            assert(free@.last() == nb);
            assert forall|x: HexCoord| #[trigger] free@.contains(x) implies is_free(x, occupied@, patch@) && adjacent(cell, x) by {
                if x != nb {
                    let j = choose|j: int| 0 <= j < free@.len() && free@[j] == x;
                    assert(before[j] == x);
                    assert(before.contains(x));
                }
            }
            assert forall|m: int|
                0 <= m < k + 1 && is_free(#[trigger] neighbor_cell(cell, m), occupied@, patch@) implies free@.contains(
                    neighbor_cell(cell, m),
                ) by {
                if m < k {
                    let j = choose|j: int| 0 <= j < before.len() && before[j] == neighbor_cell(cell, m);
                    assert(free@[j] == before[j]);
                } else {
                    assert(free@[free@.len() - 1] == nb);
                }
            }
        }
        k += 1;
    }
    free
}

/// Grows a patch from `seed` over cells that are not in `occupied`: each step
/// visits the cells of the patch in a random order, takes the first one that
/// has a free neighbour, and adds one of its free neighbours chosen at random.
/// It stops after `patch_size` steps or when no cell of the patch has a free
/// neighbour left.
pub fn grow_patch(rng: &mut StdRng, occupied: &Vec<HexCoord>, seed: HexCoord, patch_size: usize) -> (patch: Vec<HexCoord>)
    requires
        !occupied@.contains(seed),
        in_bounds(seed, BOARD_SIZE as int),
        patch_size <= 1000,
    ensures
        1 <= patch@.len() <= patch_size + 1,
        patch@[0] == seed,
        forall|a: int, b: int| 0 <= a < patch@.len() && 0 <= b < patch@.len() && a != b ==> #[trigger] patch@[a] != #[trigger] patch@[b],
        forall|x: HexCoord| #[trigger] patch@.contains(x) ==> !occupied@.contains(x),
        cells_in_bounds(patch@),
        contiguous(patch@),
        patch@.len() <= patch_size ==> boxed_in(patch@, occupied@),
{
    broadcast use vstd::seq_lib::group_to_multiset_ensures;

    let mut patch: Vec<HexCoord> = vec![seed];
    let mut step: usize = 0;
    while step < patch_size
        invariant
            patch@.len() == step + 1,
            step <= patch_size,
            patch_size <= 1000,
            patch@[0] == seed,
            forall|a: int, b: int| 0 <= a < patch@.len() && 0 <= b < patch@.len() && a != b ==> #[trigger] patch@[a] != #[trigger] patch@[b],
            forall|x: HexCoord| #[trigger] patch@.contains(x) ==> !occupied@.contains(x),
            forall|a: int| 0 <= a < patch@.len() ==> in_bounds(#[trigger] patch@[a], BOARD_SIZE + patch@.len()),
            contiguous(patch@),
        ensures
            1 <= patch@.len() <= patch_size + 1,
            patch@[0] == seed,
            forall|a: int, b: int| 0 <= a < patch@.len() && 0 <= b < patch@.len() && a != b ==> #[trigger] patch@[a] != #[trigger] patch@[b],
            forall|x: HexCoord| #[trigger] patch@.contains(x) ==> !occupied@.contains(x),
            forall|a: int| 0 <= a < patch@.len() ==> in_bounds(#[trigger] patch@[a], BOARD_SIZE + patch@.len()),
            contiguous(patch@),
            patch@.len() <= patch_size ==> boxed_in(patch@, occupied@),
        decreases patch_size - step,
    {
        let len = patch.len();
        let mut order: Vec<usize> = Vec::new();
        let mut m: usize = 0;
        while m < len
            invariant
                m <= len,
                order@.len() == m,
                forall|j: int| 0 <= j < m ==> #[trigger] order@[j] == j,
            decreases len - m,
        {
            order.push(m);
            m += 1;
        }
        let ghost ident = order@;
        shuffle_order(rng, &mut order);
        proof {
            order@.to_multiset_ensures();
            ident.to_multiset_ensures();
            assert forall|j: int| 0 <= j < order@.len() implies #[trigger] order@[j] < len by {
                assert(order@.contains(order@[j]));
                assert(order@.to_multiset().count(order@[j]) > 0);
                assert(ident.contains(order@[j]));
            }
            assert forall|i: usize| i < len implies #[trigger] order@.contains(i) by {
                assert(ident[i as int] == i);
                assert(ident.contains(i));
                assert(ident.to_multiset().count(i) > 0);
            }
        }
        let mut candidates: Vec<HexCoord> = Vec::new();
        let mut frontier: HexCoord = seed;
        let mut k: usize = 0;
        while k < order.len()
            invariant
                order@.len() == len,
                len == patch@.len(),
                forall|j: int| 0 <= j < order@.len() ==> #[trigger] order@[j] < len,
                k <= len,
                patch@.len() <= 1001,
                forall|a: int| 0 <= a < patch@.len() ==> in_bounds(#[trigger] patch@[a], BOARD_SIZE + patch@.len()),
                candidates@.len() == 0 ==> forall|j: int, d: int|
                    0 <= j < k && 0 <= d < 6 ==> !is_free(#[trigger] neighbor_cell(patch@[#[trigger] order@[j] as int], d), occupied@, patch@),
                candidates@.len() > 0 ==> patch@.contains(frontier),
                forall|x: HexCoord| #[trigger] candidates@.contains(x) ==> is_free(x, occupied@, patch@) && adjacent(frontier, x),
            ensures
                candidates@.len() == 0 ==> forall|j: int, d: int|
                    0 <= j < len && 0 <= d < 6 ==> !is_free(#[trigger] neighbor_cell(patch@[#[trigger] order@[j] as int], d), occupied@, patch@),
                candidates@.len() > 0 ==> patch@.contains(frontier),
                forall|x: HexCoord| #[trigger] candidates@.contains(x) ==> is_free(x, occupied@, patch@) && adjacent(frontier, x),
            decreases len - k,
        {
            let idx = order[k];
            let cell = patch[idx];
            assert(in_bounds(patch@[idx as int], BOARD_SIZE + patch@.len()));
            let free = free_neighbors(cell, occupied, &patch);
            if free.len() > 0 {
                candidates = free;
                frontier = cell;
                break;
            }
            proof {
                assert forall|d: int| 0 <= d < 6 implies !is_free(#[trigger] neighbor_cell(cell, d), occupied@, patch@) by {
                    if is_free(neighbor_cell(cell, d), occupied@, patch@) {
                        assert(free@.contains(neighbor_cell(cell, d)));
                    }
                }
            }
            k += 1;
        }
        if candidates.len() == 0 {
            proof {
                assert forall|i: int, d: int| 0 <= i < patch@.len() && 0 <= d < 6 implies !is_free(
                    #[trigger] neighbor_cell(patch@[i], d),
                    occupied@,
                    patch@,
                ) by {
                    assert(order@.contains(i as usize));
                    let j = choose|j: int| 0 <= j < order@.len() && order@[j] == i as usize;
                    assert(!is_free(neighbor_cell(patch@[order@[j] as int], d), occupied@, patch@));
                }
            }
            break;
        }
        match choose_cell(rng, &candidates) {
            None => {
                break;
            },
            Some(next) => {
                assert(candidates@.contains(next));
                let ghost fi = choose|fi: int| 0 <= fi < patch@.len() && patch@[fi] == frontier;
                assert(in_bounds(patch@[fi], BOARD_SIZE + patch@.len()));
                proof {
                    lemma_adjacent_in_bounds(frontier, next, BOARD_SIZE + patch@.len());
                }
                let ghost before = patch@;
                patch.push(next);
                proof {
                    assert forall|x: HexCoord| #[trigger] patch@.contains(x) implies !occupied@.contains(x) by {
                        if x != next {
                            let m = choose|m: int| 0 <= m < patch@.len() && patch@[m] == x;
                            assert(before[m] == x);
                            assert(before.contains(x));
                        }
                    }
                    assert forall|a: int, b: int| 0 <= a < patch@.len() && 0 <= b < patch@.len() && a != b implies #[trigger] patch@[a] != #[trigger] patch@[b] by {
                        if a == before.len() {
                            assert(before.contains(patch@[b]));
                        } else if b == before.len() {
                            assert(before.contains(patch@[a]));
                        }
                    }
                    assert forall|a: int| 0 <= a < patch@.len() implies in_bounds(#[trigger] patch@[a], BOARD_SIZE + patch@.len()) by {
                        if a < before.len() {
                            assert(in_bounds(before[a], BOARD_SIZE + before.len()));
                        }
                    }
                    assert forall|j: int| 1 <= j < patch@.len() implies #[trigger] joined_to_earlier(patch@, j) by {
                        if j < before.len() {
                            assert(joined_to_earlier(before, j));
                            let i = choose|i: int| 0 <= i < j && adjacent(#[trigger] before[i], before[j]);
                            assert(patch@[i] == before[i] && patch@[j] == before[j]);
                        } else {
                            assert(patch@[fi] == frontier && patch@[j] == next);
                        }
                    }
                }
            },
        }
        step += 1;
    }
    assert(cells_in_bounds(patch@)) by {
        assert forall|a: int| 0 <= a < patch@.len() implies in_bounds(#[trigger] patch@[a], COORD_LIMIT as int) by {
            assert(in_bounds(patch@[a], BOARD_SIZE + patch@.len()));
        }
    }
    patch
}

/// Cell `k` of `occupied` belongs to one of the regions.
pub open spec fn occupied_by_region(occupied: Seq<HexCoord>, regions: Seq<Region>, k: int) -> bool {
    exists|i: int, a: int| 0 <= i < regions.len() && 0 <= a < regions[i].hexes@.len() && occupied[k] == #[trigger] regions[i].hexes@[a]
}

/// What generation keeps true between placements: the layout is sound, no
/// cell is used twice, every region but the first borders an earlier one, and
/// `occupied` holds exactly the cells of the regions; each region has the
/// shape of a placed patch.
pub open spec fn placement_inv(occupied: Seq<HexCoord>, regions: Seq<Region>, players: int, patch_size: int) -> bool {
    &&& layout_wf(regions, players)
    &&& forall|i: int| 0 <= i < regions.len() ==> patch_shape(#[trigger] regions[i].hexes@, patch_size)
    &&& cells_disjoint(regions)
    &&& placed_connected(regions)
    &&& forall|i: int, a: int| 0 <= i < regions.len() && 0 <= a < regions[i].hexes@.len() ==> occupied.contains(#[trigger] regions[i].hexes@[a])
    &&& forall|k: int| 0 <= k < occupied.len() ==> #[trigger] occupied_by_region(occupied, regions, k)
}

/// Appends the cells of `src` to `dst`.
fn append_cells(dst: &mut Vec<HexCoord>, src: &Vec<HexCoord>)
    ensures
        final(dst)@ == old(dst)@ + src@,
{
    let mut i: usize = 0;
    while i < src.len()
        invariant
            i <= src@.len(),
            dst@ == old(dst)@ + src@.subrange(0, i as int),
        decreases src@.len() - i,
    {
        dst.push(src[i]);
        i += 1;
    }
    assert(src@.subrange(0, i as int) =~= src@);
}

proof fn lemma_place(
    occupied: Seq<HexCoord>,
    regions: Seq<Region>,
    players: int,
    patch_size: int,
    patch: Seq<HexCoord>,
    region: Region,
)
    requires
        placement_inv(occupied, regions, players, patch_size),
        patch_shape(patch, patch_size),
        region.hexes@ == patch,
        region.id == regions.len(),
        region.owner < players,
        patch.len() > 0,
        cells_in_bounds(patch),
        forall|a: int, b: int| 0 <= a < patch.len() && 0 <= b < patch.len() && a != b ==> #[trigger] patch[a] != #[trigger] patch[b],
        forall|x: HexCoord| #[trigger] patch.contains(x) ==> !occupied.contains(x),
        regions.len() > 0 ==> touches(patch, occupied),
    ensures
        placement_inv(occupied + patch, regions.push(region), players, patch_size),
{
    let nr = regions.push(region);
    let no = occupied + patch;
    let m = regions.len() as int;
    assert forall|i: int| 0 <= i < m implies #[trigger] nr[i] == regions[i] by {}
    assert(nr[m] == region);
    assert forall|i: int| 0 <= i < nr.len() implies patch_shape(#[trigger] nr[i].hexes@, patch_size) by {
        if i < m {
            assert(nr[i] == regions[i]);
        }
    }
    assert(layout_wf(nr, players)) by {
        assert forall|i: int| 0 <= i < nr.len() implies {
            &&& (#[trigger] nr[i]).id == i
            &&& nr[i].hexes@.len() > 0
            &&& cells_in_bounds(nr[i].hexes@)
            &&& nr[i].owner < players
        } by {
            if i < m {
                assert(nr[i] == regions[i]);
            }
        }
    }
    assert(cells_disjoint(nr)) by {
        assert forall|i: int, j: int, a: int, b: int|
            0 <= i < nr.len() && 0 <= j < nr.len() && 0 <= a < nr[i].hexes@.len() && 0 <= b < nr[j].hexes@.len() && (i != j || a
                != b) implies #[trigger] nr[i].hexes@[a] != #[trigger] nr[j].hexes@[b] by {
            if i < m && j < m {
                assert(nr[i] == regions[i] && nr[j] == regions[j]);
                assert(regions[i].hexes@[a] != regions[j].hexes@[b]);
            } else if i < m && j == m {
                assert(nr[i] == regions[i]);
                assert(occupied.contains(regions[i].hexes@[a]));
                assert(patch.contains(patch[b]));
            } else if i == m && j < m {
                assert(nr[j] == regions[j]);
                assert(occupied.contains(regions[j].hexes@[b]));
                assert(patch.contains(patch[a]));
            }
        }
    }
    assert(placed_connected(nr)) by {
        assert forall|i: int| 1 <= i < nr.len() implies #[trigger] borders_earlier(nr, i) by {
            if i < m {
                assert(borders_earlier(regions, i));
                let j = choose|j: int| 0 <= j < i && #[trigger] touches(regions[i].hexes@, regions[j].hexes@);
                assert(nr[i] == regions[i] && nr[j] == regions[j]);
                assert(touches(nr[i].hexes@, nr[j].hexes@));
            } else {
                assert(touches(patch, occupied));
                let (a0, c0) = choose|a0: int, c0: int| 0 <= a0 < patch.len() && 0 <= c0 < occupied.len() && adjacent(#[trigger] patch[a0], #[trigger] occupied[c0]);
                assert(occupied_by_region(occupied, regions, c0));
                let (j, b) = choose|j: int, b: int| 0 <= j < regions.len() && 0 <= b < regions[j].hexes@.len() && occupied[c0] == #[trigger] regions[j].hexes@[b];
                assert(nr[j] == regions[j]);
                assert(adjacent(patch[a0], nr[j].hexes@[b]));
                assert(touches(nr[i].hexes@, nr[j].hexes@));
            }
        }
    }
    assert forall|i: int, a: int| 0 <= i < nr.len() && 0 <= a < nr[i].hexes@.len() implies no.contains(#[trigger] nr[i].hexes@[a]) by {
        if i < m {
            assert(nr[i] == regions[i]);
            assert(occupied.contains(regions[i].hexes@[a]));
            let k = choose|k: int| 0 <= k < occupied.len() && occupied[k] == regions[i].hexes@[a];
            assert(no[k] == occupied[k]);
        } else {
            assert(no[occupied.len() + a] == patch[a]);
        }
    }
    assert forall|k: int| 0 <= k < no.len() implies #[trigger] occupied_by_region(no, nr, k) by {
        if k < occupied.len() {
            assert(occupied_by_region(occupied, regions, k));
            let (i, a) = choose|i: int, a: int| 0 <= i < regions.len() && 0 <= a < regions[i].hexes@.len() && occupied[k] == #[trigger] regions[i].hexes@[a];
            assert(nr[i] == regions[i]);
            assert(no[k] == nr[i].hexes@[a]);
        } else {
            assert(no[k] == nr[m].hexes@[k - occupied.len()]);
        }
    }
}

/// Whether a grown patch may be placed: it must have grown beyond its seed,
/// and border a cell already taken unless it is the first patch of the board.
pub fn accept_patch(occupied: &Vec<HexCoord>, first: bool, patch: &Vec<HexCoord>) -> (ok: bool)
    requires
        cells_in_bounds(patch@),
    ensures
        ok == (patch@.len() > 1 && (first || touches(patch@, occupied@))),
{
    if patch.len() <= 1 {
        return false;
    }
    first || borders(patch, occupied)
}

/// Places one patch for `player`, trying up to `MAX_ATTEMPTS` seeds drawn
/// from the seeding square: a seed must be free, and the patch grown from it
/// is placed when `accept_patch` accepts it. Returns whether a patch was placed.
pub fn place_patch(
    rng: &mut StdRng,
    occupied: &mut Vec<HexCoord>,
    regions: &mut Vec<Region>,
    player: usize,
    players: usize,
    patch_size: usize,
) -> (placed: bool)
    requires
        placement_inv(old(occupied)@, old(regions)@, players as int, patch_size as int),
        player < players,
        patch_size <= 1000,
    ensures
        placement_inv(final(occupied)@, final(regions)@, players as int, patch_size as int),
        placed ==> final(regions)@.len() == old(regions)@.len() + 1 && final(regions)@.drop_last() == old(regions)@
            && final(regions)@.last().owner == player,
        placed ==> final(regions)@.last().hexes@.len() > 1,
        placed ==> final(occupied)@ == old(occupied)@ + final(regions)@.last().hexes@,
        !placed ==> final(regions)@ == old(regions)@ && final(occupied)@ == old(occupied)@,
{
    let mut attempts: usize = 0;
    while attempts < MAX_ATTEMPTS
        invariant
            placement_inv(occupied@, regions@, players as int, patch_size as int),
            occupied@ == old(occupied)@,
            regions@ == old(regions)@,
            player < players,
            patch_size <= 1000,
        decreases MAX_ATTEMPTS - attempts,
    {
        attempts += 1;
        let q = draw_in_range(rng, 0, 18) as isize - HALF_BOARD_SIZE;
        let r = draw_in_range(rng, 0, 18) as isize - HALF_BOARD_SIZE;
        let seed = HexCoord { q, r };
        if contains_cell(occupied, seed) {
            continue;
        }
        let patch = grow_patch(rng, occupied, seed, patch_size);
        if accept_patch(occupied, regions.len() == 0, &patch) {
            let ghost occ0 = occupied@;
            let ghost regs0 = regions@;
            append_cells(occupied, &patch);
            let region = Region { id: regions.len(), hexes: patch, owner: player, num_dice: 0 };
            proof {
                lemma_place(occ0, regs0, players as int, patch_size as int, region.hexes@, region);
            }
            regions.push(region);
            assert(regions@.drop_last() =~= regs0);
            return true;
        }
    }
    false
}

proof fn lemma_same_owners(a: Seq<Region>, b: Seq<Region>, p: usize)
    requires
        a.len() == b.len(),
        forall|i: int| 0 <= i < a.len() ==> (#[trigger] a[i]).owner == b[i].owner,
    ensures
        player_regions(a, p) == player_regions(b, p),
    decreases a.len(),
{
    if a.len() > 0 {
        lemma_same_owners(a.drop_last(), b.drop_last(), p);
    }
}

proof fn lemma_regions_prefix_le(s: Seq<Region>, k: int, p: usize)
    requires
        0 <= k <= s.len(),
    ensures
        player_regions(s.subrange(0, k), p) <= player_regions(s, p),
    decreases s.len(),
{
    if k < s.len() {
        lemma_regions_prefix_le(s.drop_last(), k, p);
        assert(s.drop_last().subrange(0, k) =~= s.subrange(0, k));
    } else {
        assert(s.subrange(0, k) =~= s);
    }
}

/// Gives every region its dice, in placement order: each player has a budget
/// of `DICE_PER_PLAYER`, and each region draws from `1..min(4, budget)` what
/// its owner has left (one die, and nothing left over, once the budget is one
/// or less).
pub fn allocate_dice(rng: &mut StdRng, regions: &mut Vec<Region>, players: usize)
    requires
        layout_wf(old(regions)@, players as int),
        forall|p: usize| p < players ==> #[trigger] player_regions(old(regions)@, p) == NUMBER_OF_PATCHES,
    ensures
        regions_wf(final(regions)@, players as int),
        final(regions)@.len() == old(regions)@.len(),
        forall|i: int|
            0 <= i < old(regions)@.len() ==> (#[trigger] final(regions)@[i]).id == old(regions)@[i].id
                && final(regions)@[i].hexes == old(regions)@[i].hexes && final(regions)@[i].owner
                == old(regions)@[i].owner && final(regions)@[i].num_dice <= MAX_INITIAL_DICE,
        forall|p: usize|
            p < players ==> #[trigger] player_regions(final(regions)@, p) == NUMBER_OF_PATCHES && player_dice(
                final(regions)@,
                p,
            ) <= DICE_PER_PLAYER,
{
    let ghost orig = regions@;
    let mut budget: Vec<usize> = Vec::new();
    let mut p: usize = 0;
    while p < players
        invariant
            p <= players,
            budget@.len() == p,
            forall|j: int| 0 <= j < p ==> #[trigger] budget@[j] == DICE_PER_PLAYER,
        decreases players - p,
    {
        budget.push(DICE_PER_PLAYER);
        p += 1;
    }
    let mut k: usize = 0;
    while k < regions.len()
        invariant
            layout_wf(orig, players as int),
            forall|p: usize| p < players ==> #[trigger] player_regions(orig, p) == NUMBER_OF_PATCHES,
            regions@.len() == orig.len(),
            k <= regions@.len(),
            forall|i: int|
                0 <= i < orig.len() ==> (#[trigger] regions@[i]).id == orig[i].id && regions@[i].hexes == orig[i].hexes
                    && regions@[i].owner == orig[i].owner,
            forall|i: int| 0 <= i < k ==> 1 <= (#[trigger] regions@[i]).num_dice <= MAX_INITIAL_DICE,
            budget@.len() == players,
            forall|p: usize|
                p < players ==> #[trigger] budget@[p as int] + player_dice(regions@.subrange(0, k as int), p)
                    == DICE_PER_PLAYER,
            forall|p: usize|
                p < players ==> #[trigger] player_dice(regions@.subrange(0, k as int), p) <= MAX_INITIAL_DICE
                    * player_regions(regions@.subrange(0, k as int), p),
        decreases regions@.len() - k,
    {
        let ghost before = regions@;
        let owner = regions[k].owner;
        let left = budget[owner];
        proof {
            let pre = before.subrange(0, k as int);
            let next = before.subrange(0, k as int + 1);
            assert(next.drop_last() =~= pre);
            lemma_same_owners(before, orig, owner);
            lemma_regions_prefix_le(before, k as int + 1, owner);
            assert(player_regions(next, owner) == player_regions(pre, owner) + 1);
        }
        let dice: usize;
        if left <= 1 {
            dice = 1;
            budget.set(owner, 0);
        } else {
            let hi: usize = if left < 4 { left } else { 4 };
            dice = draw_in_range(rng, 1, hi);
            budget.set(owner, left - dice);
        }
        regions[k].num_dice = dice;
        proof {
            let pre = before.subrange(0, k as int);
            let next = regions@.subrange(0, k as int + 1);
            assert(next.drop_last() =~= pre);
            assert forall|p: usize| p < players implies #[trigger] budget@[p as int] + player_dice(next, p)
                == DICE_PER_PLAYER && player_dice(next, p) <= MAX_INITIAL_DICE * player_regions(next, p) by {
                assert(player_dice(next, p) == player_dice(pre, p) + if p == owner { dice as int } else { 0 });
                assert(player_regions(next, p) == player_regions(pre, p) + if p == owner { 1int } else { 0 });
            }
            assert forall|p: usize| p < players implies #[trigger] player_dice(next, p) <= MAX_INITIAL_DICE
                * player_regions(next, p) by {
                assert(budget@[p as int] + player_dice(next, p) == DICE_PER_PLAYER);
            }
        }
        k += 1;
    }
    proof {
        assert(regions@.subrange(0, k as int) =~= regions@);
        assert forall|p: usize| p < players implies #[trigger] player_regions(regions@, p) == NUMBER_OF_PATCHES
            && player_dice(regions@, p) <= DICE_PER_PLAYER by {
            lemma_same_owners(regions@, orig, p);
        }
        assert forall|i: int| 0 <= i < regions@.len() implies {
            &&& (#[trigger] regions@[i]).id == i
            &&& regions@[i].hexes@.len() > 0
            &&& cells_in_bounds(regions@[i].hexes@)
            &&& regions@[i].num_dice >= 1
            &&& regions@[i].owner < players
        } by {
            assert(orig[i].id == i);
        }
    }
}

/// The cells of all regions, each with its region's owner, in placement order.
pub fn collect_owned_cells(regions: &Vec<Region>) -> (cells: Vec<(HexCoord, usize)>)
    ensures
        cells@ == owned_cells(regions@),
{
    let mut cells: Vec<(HexCoord, usize)> = Vec::new();
    let mut i: usize = 0;
    while i < regions.len()
        invariant
            i <= regions@.len(),
            cells@ == owned_cells(regions@.subrange(0, i as int)),
        decreases regions@.len() - i,
    {
        let region = &regions[i];
        let ghost base = cells@;
        let mut j: usize = 0;
        while j < region.hexes.len()
            invariant
                region == &regions@[i as int],
                j <= region.hexes@.len(),
                cells@ == base + region.hexes@.subrange(0, j as int).map_values(|h: HexCoord| (h, region.owner)),
            decreases region.hexes@.len() - j,
        {
            cells.push((region.hexes[j], region.owner));
            j += 1;
            assert(cells@ =~= base + region.hexes@.subrange(0, j as int).map_values(|h: HexCoord| (h, region.owner)));
        }
        assert(region.hexes@.subrange(0, j as int) =~= region.hexes@);
        assert(regions@.subrange(0, i as int + 1).drop_last() =~= regions@.subrange(0, i as int));
        i += 1;
    }
    assert(regions@.subrange(0, i as int) =~= regions@);
    cells
}

/// Generates a board for `number_of_players` players: `NUMBER_OF_PATCHES`
/// rounds in which each player in turn places one patch (grown by at most
/// `patch_size` cells, which makes the patches cover about half of the
/// seeding square), then dice given out as `allocate_dice` does.
pub fn generate_board(number_of_players: usize, rng: &mut StdRng) -> (r: Result<Board, GenerationError>)
    requires
        1 <= number_of_players <= 8,
    ensures
        r matches Ok(board) ==> generated(board, number_of_players),
{
    let n = number_of_players;
    let patch_size: usize = (BOARD_SIZE * BOARD_SIZE) as usize / (NUMBER_OF_PATCHES * n * 2);
    assert(patch_size == patch_size_for(n));
    let mut occupied: Vec<HexCoord> = Vec::new();
    let mut regions: Vec<Region> = Vec::new();
    let mut round: usize = 0;
    while round < NUMBER_OF_PATCHES
        invariant
            1 <= n <= 8,
            patch_size == patch_size_for(n),
            patch_size <= 1000,
            round <= NUMBER_OF_PATCHES,
            placement_inv(occupied@, regions@, n as int, patch_size as int),
            regions@.len() == round * n,
            forall|k: int| 0 <= k < regions@.len() ==> (#[trigger] regions@[k]).owner == k % n as int,
            forall|p: usize| p < n ==> #[trigger] player_regions(regions@, p) == round,
        decreases NUMBER_OF_PATCHES - round,
    {
        let mut player: usize = 0;
        while player < n
            invariant
                1 <= n <= 8,
                patch_size == patch_size_for(n),
                patch_size <= 1000,
                round < NUMBER_OF_PATCHES,
                player <= n,
                placement_inv(occupied@, regions@, n as int, patch_size as int),
                regions@.len() == round * n + player,
                forall|k: int| 0 <= k < regions@.len() ==> (#[trigger] regions@[k]).owner == k % n as int,
                forall|p: usize| p < n ==> #[trigger] player_regions(regions@, p) == round + if p < player { 1int } else { 0 },
            decreases n - player,
        {
            let ghost before = regions@;
            if !place_patch(rng, &mut occupied, &mut regions, player, n, patch_size) {
                return Err(GenerationError::TooManyAttempts);
            }
            proof {
                assert forall|p: usize| p < n implies #[trigger] player_regions(regions@, p) == round + if p < player + 1 { 1int } else { 0 } by {
                    assert(player_regions(regions@, p) == player_regions(before, p) + if p == player { 1int } else { 0 });
                }
                let m = before.len() as int;
                assert(m == n * round + player) by (nonlinear_arith)
                    requires m == round * n + player;
                lemma_mod_multiples_vanish(round as int, player as int, n as int);
                lemma_small_mod(player as nat, n as nat);
                assert forall|k: int| 0 <= k < regions@.len() implies (#[trigger] regions@[k]).owner == k % n as int by {
                    if k < m {
                        assert(regions@[k] == regions@.drop_last()[k]);
                        assert(before[k].owner == k % n as int);
                    } else {
                        assert(regions@[k] == regions@.last());
                    }
                }
            }
            player += 1;
        }
        proof {
            assert(round * n + n == (round + 1) * n) by (nonlinear_arith);
        }
        round += 1;
    }
    proof {
        assert(regions@.len() == NUMBER_OF_PATCHES * n);
    }
    let ghost placed = regions@;
    allocate_dice(rng, &mut regions, n);
    proof {
        assert forall|i: int| 0 <= i < regions@.len() implies #[trigger] regions@[i].hexes@ == placed[i].hexes@ by {}
        assert(cells_disjoint(regions@)) by {
            assert forall|i: int, j: int, a: int, b: int|
                0 <= i < regions@.len() && 0 <= j < regions@.len() && 0 <= a < regions@[i].hexes@.len() && 0 <= b
                    < regions@[j].hexes@.len() && (i != j || a != b) implies #[trigger] regions@[i].hexes@[a]
                    != #[trigger] regions@[j].hexes@[b] by {
                assert(placed[i].hexes@[a] != placed[j].hexes@[b]);
            }
        }
        assert(placed_connected(regions@)) by {
            assert forall|i: int| 1 <= i < regions@.len() implies #[trigger] borders_earlier(regions@, i) by {
                assert(borders_earlier(placed, i));
                let j = choose|j: int| 0 <= j < i && #[trigger] touches(placed[i].hexes@, placed[j].hexes@);
                assert(regions@[j].hexes@ == placed[j].hexes@);
                assert(touches(regions@[i].hexes@, regions@[j].hexes@));
            }
        }
        assert forall|i: int| 0 <= i < regions@.len() implies (#[trigger] regions@[i]).owner == i % n as int by {
            assert(placed[i].owner == i % n as int);
        }
        assert forall|i: int| 0 <= i < regions@.len() implies patch_shape(#[trigger] regions@[i].hexes@, patch_size_for(n)) by {
            assert(patch_shape(placed[i].hexes@, patch_size as int));
        }
    }
    let hexes = collect_owned_cells(&regions);
    let board = Board { hexes, regions };
    assert(generated(board, n));
    Ok(board)
}

} // verus!
