use vstd::prelude::*;
use rand::rngs::StdRng;
use crate::board::{regions_wf, Board};
use crate::hex::HexCoord;
use crate::random::draw_in_range;
use crate::region::{opponents, Region};

verus! {

/// The record of one attack: the turn it was made in, both regions as they
/// were when it was declared, and the faces rolled for each side (empty until
/// the roll is known).
#[derive(Clone, Debug)]
pub struct GameLogEntry {
    pub turn_of_player: usize,
    pub turn_counter: usize,
    pub region_1: Region,
    pub region_2: Region,
    pub region_1_dice_result: Vec<usize>,
    pub region_2_dice_result: Vec<usize>,
}

impl View for GameLogEntry {
    type V = (usize, usize, (usize, Seq<HexCoord>, usize, usize), (usize, Seq<HexCoord>, usize, usize), Seq<usize>, Seq<usize>);

    /// Turn context, both region snapshots and both rolls.
    open spec fn view(&self) -> Self::V {
        (
            self.turn_of_player,
            self.turn_counter,
            self.region_1@,
            self.region_2@,
            self.region_1_dice_result@,
            self.region_2_dice_result@,
        )
    }
}

/// What a resolved attack changed.
#[derive(Clone, Copy, Debug, PartialEq, Eq, Structural)]
pub struct CombatOutcome {
    /// Whether the attacking region won.
    pub attacker_won: bool,
    /// The player who won the clash.
    pub winner: usize,
    /// The id of the region that changed hands.
    pub captured_region: usize,
    /// Whether the board changed and has to be drawn again.
    pub redrawn: bool,
    /// Whether the turn passed to the next player.
    pub turn_advanced: bool,
    /// The player who now owns every region, if any.
    pub game_over: Option<usize>,
}

/// The whole session: the live board, whose turn it is, the turn counter and
/// the log of every attack.
#[derive(Debug)]
pub struct GameState {
    pub board: Board,
    pub number_of_players: usize,
    pub turn_of_player: usize,
    pub turn_counter: usize,
    pub game_log: Vec<GameLogEntry>,
    pub winner: Option<usize>,
}

/// Sum of the faces of a roll.
pub open spec fn dice_total(s: Seq<usize>) -> int
    decreases s.len(),
{
    if s.len() == 0 {
        0
    } else {
        dice_total(s.drop_last()) + s.last()
    }
}

/// Every entry refers to two distinct regions of the board.
pub open spec fn log_wf(log: Seq<GameLogEntry>, num_regions: int) -> bool {
    forall|k: int|
        0 <= k < log.len() ==> {
            &&& (#[trigger] log[k]).region_1.id < num_regions
            &&& log[k].region_2.id < num_regions
            &&& log[k].region_1.id != log[k].region_2.id
        }
}

/// Region `id` already attacked during turn `counter` of `player`.
pub open spec fn moved_this_turn(log: Seq<GameLogEntry>, player: usize, counter: usize, id: usize) -> bool {
    exists|k: int|
        0 <= k < log.len() && (#[trigger] log[k]).turn_counter == counter && log[k].turn_of_player == player
            && log[k].region_1.id == id
}

/// Region `i` belongs to `player`, has not attacked this turn, and borders an opponent.
pub open spec fn can_still_attack(
    regions: Seq<Region>,
    log: Seq<GameLogEntry>,
    player: usize,
    counter: usize,
    i: int,
) -> bool {
    &&& regions[i].owner == player
    &&& !moved_this_turn(log, player, counter, regions[i].id)
    &&& exists|j: int| 0 <= j < regions.len() && opponents(#[trigger] regions[j], regions[i])
}

/// No region of `player` is left that could still attack this turn.
pub open spec fn turn_is_over(regions: Seq<Region>, log: Seq<GameLogEntry>, player: usize, counter: usize) -> bool {
    forall|i: int| 0 <= i < regions.len() ==> !#[trigger] can_still_attack(regions, log, player, counter, i)
}

/// The player after `player`, wrapping to the first.
pub open spec fn next_player(player: usize, players: usize) -> usize {
    if player + 1 >= players {
        0
    } else {
        (player + 1) as usize
    }
}

/// `player` owns every region of a non-empty board.
pub open spec fn owns_all(regions: Seq<Region>, player: usize) -> bool {
    regions.len() > 0 && forall|i: int| 0 <= i < regions.len() ==> (#[trigger] regions[i]).owner == player
}

/// The player who owns every region, if there is one.
pub open spec fn sole_owner(regions: Seq<Region>) -> Option<usize> {
    if owns_all(regions, regions[0].owner) {
        Some(regions[0].owner)
    } else {
        None
    }
}

/// What region `i` looks like once `winner` has beaten `loser`, moving
/// `captured` dice onto the conquered region when it had more than one die.
pub open spec fn after_combat(
    regions: Seq<Region>,
    winner: int,
    loser: int,
    captured: usize,
    i: int,
) -> (usize, Seq<HexCoord>, usize, usize) {
    let w = regions[winner];
    let l = regions[loser];
    if i == loser {
        (l.id, l.hexes@, w.owner, if w.num_dice > 1 { captured } else { l.num_dice })
    } else if i == winner {
        (w.id, w.hexes@, w.owner, if w.num_dice > 1 { (w.num_dice - (captured - 1)) as usize } else { w.num_dice })
    } else {
        regions[i]@
    }
}

/// Every clause of a resolved attack: the rolls logged, the regions updated as
/// `after_combat` says, the turn passed on exactly when the player is left with
/// no region that could still attack, and the game over exactly when one
/// player owns every region.
pub open spec fn combat_resolved(
    pre: GameState,
    post: GameState,
    dice_1: Seq<usize>,
    dice_2: Seq<usize>,
    captured: usize,
    r: CombatOutcome,
) -> bool {
    let w = pre.winner_of(dice_1, dice_2);
    let l = pre.loser_of(dice_1, dice_2);
    let e = pre.game_log@.last();
    let over = turn_is_over(post.board.regions@, post.game_log@, pre.turn_of_player, pre.turn_counter);
    &&& post.board.hexes@ == pre.board.hexes@
    &&& post.board.regions@.len() == pre.board.regions@.len()
    &&& forall|i: int|
        0 <= i < pre.board.regions@.len() ==> (#[trigger] post.board.regions@[i])@ == after_combat(
            pre.board.regions@,
            w,
            l,
            captured,
            i,
        )
    &&& post.game_log@.len() == pre.game_log@.len()
    &&& forall|k: int| 0 <= k < pre.game_log@.len() - 1 ==> #[trigger] post.game_log@[k] == pre.game_log@[k]
    &&& post.game_log@.last()@ == (e.turn_of_player, e.turn_counter, e.region_1@, e.region_2@, dice_1, dice_2)
    &&& post.number_of_players == pre.number_of_players
    &&& r.attacker_won == (dice_total(dice_1) > dice_total(dice_2))
    &&& r.winner == pre.board.regions@[w].owner
    &&& r.captured_region == l
    &&& r.redrawn
    &&& r.turn_advanced == over
    &&& over ==> post.turn_of_player == next_player(pre.turn_of_player, pre.number_of_players)
        && post.turn_counter == pre.turn_counter + 1
    &&& !over ==> post.turn_of_player == pre.turn_of_player && post.turn_counter == pre.turn_counter
    &&& r.game_over == sole_owner(post.board.regions@)
    &&& post.winner == r.game_over
}

proof fn lemma_prefix_total_le(s: Seq<usize>, i: int)
    requires
        0 <= i <= s.len(),
    ensures
        0 <= dice_total(s.subrange(0, i)) <= dice_total(s),
    decreases s.len(),
{
    if i == s.len() {
        assert(s.subrange(0, i) =~= s);
        lemma_total_nonneg(s);
    } else {
        lemma_prefix_total_le(s.drop_last(), i);
        assert(s.drop_last().subrange(0, i) =~= s.subrange(0, i));
    }
}

proof fn lemma_total_nonneg(s: Seq<usize>)
    ensures
        dice_total(s) >= 0,
    decreases s.len(),
{
    if s.len() > 0 {
        lemma_total_nonneg(s.drop_last());
    }
}

/// Adds up the faces of a roll.
pub fn sum_of_faces(dice: &Vec<usize>) -> (total: usize)
    requires
        dice_total(dice@) <= usize::MAX,
    ensures
        total == dice_total(dice@),
{
    let mut total: usize = 0;
    let mut i: usize = 0;
    while i < dice.len()
        invariant
            i <= dice@.len(),
            dice_total(dice@) <= usize::MAX,
            total == dice_total(dice@.subrange(0, i as int)),
        decreases dice@.len() - i,
    {
        proof {
            lemma_prefix_total_le(dice@, i as int + 1);
            assert(dice@.subrange(0, i as int + 1).drop_last() =~= dice@.subrange(0, i as int));
        }
        total = total + dice[i];
        i += 1;
    }
    assert(dice@.subrange(0, i as int) =~= dice@);
    total
}

impl GameState {
    /// The session invariant.
    pub open spec fn wf(&self) -> bool {
        &&& 1 <= self.number_of_players
        &&& self.turn_of_player < self.number_of_players
        &&& regions_wf(self.board.regions@, self.number_of_players as int)
        &&& log_wf(self.game_log@, self.board.regions@.len() as int)
    }

    /// The attack awaiting its roll: the last entry of the log, with no faces yet.
    pub open spec fn has_pending_combat(&self) -> bool {
        &&& self.game_log@.len() > 0
        &&& self.game_log@.last().region_1_dice_result@.len() == 0
        &&& self.game_log@.last().region_2_dice_result@.len() == 0
    }

    /// Index of the region that wins the pending attack with these rolls.
    pub open spec fn winner_of(&self, dice_1: Seq<usize>, dice_2: Seq<usize>) -> int {
        let e = self.game_log@.last();
        if dice_total(dice_1) > dice_total(dice_2) {
            e.region_1.id as int
        } else {
            e.region_2.id as int
        }
    }

    /// Index of the region that loses the pending attack with these rolls.
    pub open spec fn loser_of(&self, dice_1: Seq<usize>, dice_2: Seq<usize>) -> int {
        let e = self.game_log@.last();
        if dice_total(dice_1) > dice_total(dice_2) {
            e.region_2.id as int
        } else {
            e.region_1.id as int
        }
    }
}

impl GameState {
    /// A fresh session on `board`: first player to move, no turn completed, empty log.
    pub fn new(board: Board, number_of_players: usize) -> (g: GameState)
        requires
            1 <= number_of_players,
            regions_wf(board.regions@, number_of_players as int),
        ensures
            g.wf(),
            g.board == board,
            g.number_of_players == number_of_players,
            g.turn_of_player == 0,
            g.turn_counter == 0,
            g.game_log@.len() == 0,
            g.winner.is_none(),
    {
        GameState { board, number_of_players, turn_of_player: 0, turn_counter: 0, game_log: Vec::new(), winner: None }
    }

    /// Whether region `id` has already attacked during the current turn.
    pub fn has_moved(&self, id: usize) -> (b: bool)
        ensures
            b == moved_this_turn(self.game_log@, self.turn_of_player, self.turn_counter, id),
    {
        let mut k: usize = 0;
        while k < self.game_log.len()
            invariant
                k <= self.game_log@.len(),
                forall|j: int|
                    0 <= j < k ==> !((#[trigger] self.game_log@[j]).turn_counter == self.turn_counter
                        && self.game_log@[j].turn_of_player == self.turn_of_player
                        && self.game_log@[j].region_1.id == id),
            decreases self.game_log@.len() - k,
        {
            let e = &self.game_log[k];
            if e.turn_counter == self.turn_counter && e.turn_of_player == self.turn_of_player && e.region_1.id == id {
                return true;
            }
            k += 1;
        }
        false
    }

    /// Whether region `i` belongs to the player to move, has not attacked this
    /// turn and borders an opponent.
    pub fn region_can_attack(&self, i: usize) -> (b: bool)
        requires
            self.wf(),
            i < self.board.regions@.len(),
        ensures
            b == can_still_attack(self.board.regions@, self.game_log@, self.turn_of_player, self.turn_counter, i as int),
    {
        let regions = &self.board.regions;
        if regions[i].owner != self.turn_of_player {
            return false;
        }
        if self.has_moved(regions[i].id) {
            return false;
        }
        let mut j: usize = 0;
        while j < regions.len()
            invariant
                self.wf(),
                regions == &self.board.regions,
                i < regions@.len(),
                j <= regions@.len(),
                regions@[i as int].owner == self.turn_of_player,
                !moved_this_turn(self.game_log@, self.turn_of_player, self.turn_counter, regions@[i as int].id),
                forall|k: int| 0 <= k < j ==> !opponents(#[trigger] regions@[k], regions@[i as int]),
            decreases regions@.len() - j,
        {
            assert(regions_wf(regions@, self.number_of_players as int));
            assert(regions@[j as int].id == j);
            if regions[j].is_opponent(&regions[i]) {
                assert(opponents(regions@[j as int], regions@[i as int]));
                return true;
            }
            j += 1;
        }
        false
    }

    /// Whether the player to move has no region left that could still attack.
    pub fn is_turn_over(&self) -> (b: bool)
        requires
            self.wf(),
        ensures
            b == turn_is_over(self.board.regions@, self.game_log@, self.turn_of_player, self.turn_counter),
    {
        let mut i: usize = 0;
        while i < self.board.regions.len()
            invariant
                self.wf(),
                i <= self.board.regions@.len(),
                forall|k: int|
                    0 <= k < i ==> !#[trigger] can_still_attack(
                        self.board.regions@,
                        self.game_log@,
                        self.turn_of_player,
                        self.turn_counter,
                        k,
                    ),
            decreases self.board.regions@.len() - i,
        {
            if self.region_can_attack(i) {
                return false;
            }
            i += 1;
        }
        true
    }

    /// The player who owns every region, if there is one.
    pub fn find_sole_owner(&self) -> (p: Option<usize>)
        ensures
            p == sole_owner(self.board.regions@),
    {
        let regions = &self.board.regions;
        if regions.len() == 0 {
            return None;
        }
        let first = regions[0].owner;
        let mut i: usize = 0;
        while i < regions.len()
            invariant
                regions == &self.board.regions,
                regions@.len() > 0,
                first == regions@[0].owner,
                i <= regions@.len(),
                forall|k: int| 0 <= k < i ==> (#[trigger] regions@[k]).owner == first,
            decreases regions@.len() - i,
        {
            if regions[i].owner != first {
                assert(!owns_all(regions@, first));
                return None;
            }
            i += 1;
        }
        Some(first)
    }
}

impl GameLogEntry {
    /// A copy of this entry, field for field.
    pub fn snapshot(&self) -> (e: GameLogEntry)
        ensures
            e@ == self@,
    {
        GameLogEntry {
            turn_of_player: self.turn_of_player,
            turn_counter: self.turn_counter,
            region_1: self.region_1.snapshot(),
            region_2: self.region_2.snapshot(),
            region_1_dice_result: copy_faces(&self.region_1_dice_result),
            region_2_dice_result: copy_faces(&self.region_2_dice_result),
        }
    }
}

/// Copies a roll.
fn copy_faces(v: &Vec<usize>) -> (c: Vec<usize>)
    ensures
        c@ == v@,
{
    let mut c: Vec<usize> = Vec::new();
    let mut i: usize = 0;
    while i < v.len()
        invariant
            i <= v@.len(),
            c@ == v@.subrange(0, i as int),
        decreases v@.len() - i,
    {
        c.push(v[i]);
        i += 1;
    }
    assert(c@ =~= v@);
    c
}

impl GameState {
    /// Declares an attack of region `attacker` on region `defender`: logs an
    /// entry with both regions as they stand and no faces yet, and returns it.
    pub fn begin_combat(&mut self, attacker: usize, defender: usize) -> (e: GameLogEntry)
        requires
            old(self).wf(),
            old(self).winner.is_none(),
            attacker < old(self).board.regions@.len(),
            defender < old(self).board.regions@.len(),
            old(self).board.regions@[attacker as int].owner == old(self).turn_of_player,
            opponents(old(self).board.regions@[attacker as int], old(self).board.regions@[defender as int]),
        ensures
            final(self).wf(),
            final(self).has_pending_combat(),
            final(self).board == old(self).board,
            final(self).number_of_players == old(self).number_of_players,
            final(self).turn_of_player == old(self).turn_of_player,
            final(self).turn_counter == old(self).turn_counter,
            final(self).winner == old(self).winner,
            final(self).game_log@.len() == old(self).game_log@.len() + 1,
            forall|k: int| 0 <= k < old(self).game_log@.len() ==> #[trigger] final(self).game_log@[k] == old(self).game_log@[k],
            final(self).game_log@.last()@ == (
                old(self).turn_of_player,
                old(self).turn_counter,
                old(self).board.regions@[attacker as int]@,
                old(self).board.regions@[defender as int]@,
                Seq::<usize>::empty(),
                Seq::<usize>::empty(),
            ),
            e@ == final(self).game_log@.last()@,
    {
        assert(self.board.regions@[attacker as int].id == attacker);
        assert(self.board.regions@[defender as int].id == defender);
        let entry = GameLogEntry {
            turn_of_player: self.turn_of_player,
            turn_counter: self.turn_counter,
            region_1: self.board.regions[attacker].snapshot(),
            region_2: self.board.regions[defender].snapshot(),
            region_1_dice_result: Vec::new(),
            region_2_dice_result: Vec::new(),
        };
        let e = entry.snapshot();
        self.game_log.push(entry);
        proof {
            let log = self.game_log@;
            assert forall|k: int| 0 <= k < log.len() implies {
                &&& (#[trigger] log[k]).region_1.id < self.board.regions@.len()
                &&& log[k].region_2.id < self.board.regions@.len()
                &&& log[k].region_1.id != log[k].region_2.id
            } by {
                if k < log.len() - 1 {
                    assert(log[k] == old(self).game_log@[k]);
                }
            }
        }
        e
    }

    /// Resolves the pending attack with the faces rolled for each side, moving
    /// `captured` dice onto the conquered region when the winner had more than
    /// one die; then passes the turn on if the player to move has no region
    /// left that could attack, and ends the game if one player owns every region.
    pub fn resolve_combat(&mut self, dice_1: Vec<usize>, dice_2: Vec<usize>, captured: usize) -> (r: CombatOutcome)
        requires
            old(self).wf(),
            old(self).has_pending_combat(),
            old(self).winner.is_none(),
            old(self).turn_counter < usize::MAX,
            dice_total(dice_1@) <= usize::MAX,
            dice_total(dice_2@) <= usize::MAX,
            old(self).board.regions@[old(self).winner_of(dice_1@, dice_2@)].num_dice > 1 ==> 1 <= captured
                < old(self).board.regions@[old(self).winner_of(dice_1@, dice_2@)].num_dice,
        ensures
            final(self).wf(),
            combat_resolved(*old(self), *final(self), dice_1@, dice_2@, captured, r),
    {
        let ghost d1 = dice_1@;
        let ghost d2 = dice_2@;
        let ghost pre = *self;
        let last = self.game_log.len() - 1;
        let a = self.game_log[last].region_1.id;
        let b = self.game_log[last].region_2.id;
        let s1 = sum_of_faces(&dice_1);
        let s2 = sum_of_faces(&dice_2);
        let attacker_won = s1 > s2;
        let w: usize;
        let l: usize;
        if attacker_won {
            w = a;
            l = b;
        } else {
            w = b;
            l = a;
        }
        self.game_log[last].region_1_dice_result = dice_1;
        self.game_log[last].region_2_dice_result = dice_2;
        let winner_owner = self.board.regions[w].owner;
        let winner_dice = self.board.regions[w].num_dice;
        self.board.regions[l].owner = winner_owner;
        if winner_dice > 1 {
            self.board.regions[l].num_dice = captured;
            self.board.regions[w].num_dice = winner_dice - (captured - 1);
        }
        proof {
            let regs = self.board.regions@;
            assert forall|i: int| 0 <= i < regs.len() implies (#[trigger] regs[i])@ == after_combat(
                pre.board.regions@,
                w as int,
                l as int,
                captured,
                i,
            ) by {}
            assert forall|k: int| 0 <= k < pre.game_log@.len() - 1 implies #[trigger] self.game_log@[k]
                == pre.game_log@[k] by {}
            assert(regions_wf(regs, self.number_of_players as int)) by {
                assert forall|i: int| 0 <= i < regs.len() implies {
                    &&& (#[trigger] regs[i]).id == i
                    &&& regs[i].hexes@.len() > 0
                    &&& crate::region::cells_in_bounds(regs[i].hexes@)
                    &&& regs[i].num_dice >= 1
                    &&& regs[i].owner < self.number_of_players
                } by {
                    assert(pre.board.regions@[i].id == i);
                    assert(pre.board.regions@[w as int].owner < self.number_of_players);
                }
            }
            let log = self.game_log@;
            assert forall|k: int| 0 <= k < log.len() implies {
                &&& (#[trigger] log[k]).region_1.id < regs.len()
                &&& log[k].region_2.id < regs.len()
                &&& log[k].region_1.id != log[k].region_2.id
            } by {
                assert(pre.game_log@[k].region_1.id == log[k].region_1.id);
            }
        }
        let over = self.is_turn_over();
        if over {
            if self.turn_of_player + 1 >= self.number_of_players {
                self.turn_of_player = 0;
            } else {
                self.turn_of_player = self.turn_of_player + 1;
            }
            self.turn_counter = self.turn_counter + 1;
        }
        let game_over = self.find_sole_owner();
        self.winner = game_over;
        CombatOutcome { attacker_won, winner: winner_owner, captured_region: l, redrawn: true, turn_advanced: over, game_over }
    }

    /// Records the faces rolled for the pending attack and resolves it as
    /// `resolve_combat` does, drawing the number of dice moved onto the
    /// conquered region from `1..` the winner's dice.
    pub fn complete_combat(&mut self, dice_1: Vec<usize>, dice_2: Vec<usize>, rng: &mut StdRng) -> (r: CombatOutcome)
        requires
            old(self).wf(),
            old(self).has_pending_combat(),
            old(self).winner.is_none(),
            old(self).turn_counter < usize::MAX,
            dice_total(dice_1@) <= usize::MAX,
            dice_total(dice_2@) <= usize::MAX,
        ensures
            final(self).wf(),
            combat_resolved(
                *old(self),
                *final(self),
                dice_1@,
                dice_2@,
                final(self).board.regions@[old(self).loser_of(dice_1@, dice_2@)].num_dice,
                r,
            ),
            old(self).board.regions@[old(self).winner_of(dice_1@, dice_2@)].num_dice > 1 ==> 1
                <= final(self).board.regions@[old(self).loser_of(dice_1@, dice_2@)].num_dice
                < old(self).board.regions@[old(self).winner_of(dice_1@, dice_2@)].num_dice,
    {
        let last = self.game_log.len() - 1;
        let w: usize;
        if sum_of_faces(&dice_1) > sum_of_faces(&dice_2) {
            w = self.game_log[last].region_1.id;
        } else {
            w = self.game_log[last].region_2.id;
        }
        let winner_dice = self.board.regions[w].num_dice;
        let mut captured: usize = 1;
        if winner_dice > 1 {
            captured = draw_in_range(rng, 1, winner_dice);
        }
        let ghost pre = *self;
        let r = self.resolve_combat(dice_1, dice_2, captured);
        proof {
            let l = pre.loser_of(dice_1@, dice_2@);
            let wi = pre.winner_of(dice_1@, dice_2@);
            assert(self.board.regions@[l]@ == after_combat(pre.board.regions@, wi, l, captured, l));
            if pre.board.regions@[wi].num_dice <= 1 {
                assert forall|i: int| 0 <= i < pre.board.regions@.len() implies after_combat(
                    pre.board.regions@,
                    wi,
                    l,
                    captured,
                    i,
                ) == after_combat(pre.board.regions@, wi, l, self.board.regions@[l].num_dice, i) by {}
            }
        }
        r
    }
}

/// Resolving the same pending attack with the same rolls and the same number
/// of dice moved always gives the same regions, log, turn and outcome.
pub proof fn lemma_combat_deterministic(
    pre: GameState,
    post_a: GameState,
    post_b: GameState,
    dice_1: Seq<usize>,
    dice_2: Seq<usize>,
    captured: usize,
    r_a: CombatOutcome,
    r_b: CombatOutcome,
)
    requires
        pre.wf(),
        pre.has_pending_combat(),
        combat_resolved(pre, post_a, dice_1, dice_2, captured, r_a),
        combat_resolved(pre, post_b, dice_1, dice_2, captured, r_b),
    ensures
        r_a == r_b,
        post_a.board.regions@.len() == post_b.board.regions@.len(),
        forall|i: int| 0 <= i < post_a.board.regions@.len() ==> (#[trigger] post_a.board.regions@[i])@ == post_b.board.regions@[i]@,
        post_a.game_log@.len() == post_b.game_log@.len(),
        forall|k: int| 0 <= k < post_a.game_log@.len() ==> (#[trigger] post_a.game_log@[k])@ == post_b.game_log@[k]@,
        post_a.turn_of_player == post_b.turn_of_player,
        post_a.turn_counter == post_b.turn_counter,
        post_a.winner == post_b.winner,
{
    let n = pre.game_log@.len();
    assert forall|i: int| 0 <= i < post_a.board.regions@.len() implies (#[trigger] post_a.board.regions@[i])@
        == post_b.board.regions@[i]@ by {
        assert(post_b.board.regions@[i]@ == after_combat(
            pre.board.regions@,
            pre.winner_of(dice_1, dice_2),
            pre.loser_of(dice_1, dice_2),
            captured,
            i,
        ));
    }
    assert forall|k: int| 0 <= k < post_a.game_log@.len() implies (#[trigger] post_a.game_log@[k])@ == post_b.game_log@[k]@ by {
        if k < n - 1 {
            assert(post_b.game_log@[k] == pre.game_log@[k]);
        }
    }
    lemma_owners_determine(post_a.board.regions@, post_b.board.regions@, pre.turn_of_player, pre.turn_counter, post_a.game_log@, post_b.game_log@);
}

/// Whether a turn is over, and who owns everything, depends only on the
/// regions' views and the log's views.
proof fn lemma_owners_determine(
    a: Seq<Region>,
    b: Seq<Region>,
    player: usize,
    counter: usize,
    log_a: Seq<GameLogEntry>,
    log_b: Seq<GameLogEntry>,
)
    requires
        a.len() == b.len(),
        forall|i: int| 0 <= i < a.len() ==> (#[trigger] a[i])@ == b[i]@,
        log_a.len() == log_b.len(),
        forall|k: int| 0 <= k < log_a.len() ==> (#[trigger] log_a[k])@ == log_b[k]@,
    ensures
        sole_owner(a) == sole_owner(b),
        turn_is_over(a, log_a, player, counter) == turn_is_over(b, log_b, player, counter),
{
    if a.len() > 0 {
        assert(a[0]@ == b[0]@);
        if owns_all(a, a[0].owner) {
            assert forall|i: int| 0 <= i < b.len() implies (#[trigger] b[i]).owner == b[0].owner by {
                assert(a[i]@ == b[i]@);
            }
        }
        if owns_all(b, b[0].owner) {
            assert forall|i: int| 0 <= i < a.len() implies (#[trigger] a[i]).owner == a[0].owner by {
                assert(a[i]@ == b[i]@);
            }
        }
    }
    assert forall|id: usize| moved_this_turn(log_a, player, counter, id) == moved_this_turn(log_b, player, counter, id) by {
        if moved_this_turn(log_a, player, counter, id) {
            let k = choose|k: int| 0 <= k < log_a.len() && (#[trigger] log_a[k]).turn_counter == counter && log_a[k].turn_of_player == player && log_a[k].region_1.id == id;
            assert(log_a[k]@ == log_b[k]@);
        }
        if moved_this_turn(log_b, player, counter, id) {
            let k = choose|k: int| 0 <= k < log_b.len() && (#[trigger] log_b[k]).turn_counter == counter && log_b[k].turn_of_player == player && log_b[k].region_1.id == id;
            assert(log_a[k]@ == log_b[k]@);
        }
    }
    assert forall|i: int| 0 <= i < a.len() implies #[trigger] can_still_attack(a, log_a, player, counter, i) == can_still_attack(b, log_b, player, counter, i) by {
        assert(a[i]@ == b[i]@);
        if exists|j: int| 0 <= j < a.len() && opponents(#[trigger] a[j], a[i]) {
            let j = choose|j: int| 0 <= j < a.len() && opponents(#[trigger] a[j], a[i]);
            assert(a[j]@ == b[j]@);
            assert(opponents(b[j], b[i]));
        }
        if exists|j: int| 0 <= j < b.len() && opponents(#[trigger] b[j], b[i]) {
            let j = choose|j: int| 0 <= j < b.len() && opponents(#[trigger] b[j], b[i]);
            assert(a[j]@ == b[j]@);
            assert(opponents(a[j], a[i]));
        }
    }
    if turn_is_over(a, log_a, player, counter) {
        assert forall|i: int| 0 <= i < b.len() implies !#[trigger] can_still_attack(b, log_b, player, counter, i) by {
            assert(!can_still_attack(a, log_a, player, counter, i));
        }
    }
    if turn_is_over(b, log_b, player, counter) {
        assert forall|i: int| 0 <= i < a.len() implies !#[trigger] can_still_attack(a, log_a, player, counter, i) by {
            assert(!can_still_attack(b, log_b, player, counter, i));
        }
    }
}

/// After a resolved attack the winning and the conquered region both hold at
/// least one die and the conquered region belongs to the winner's owner. When
/// the winner had more than one die the pair ends with one die more than the
/// winner had (the loser's dice are lost); otherwise both keep their dice.
pub proof fn lemma_reinforcement(
    pre: GameState,
    post: GameState,
    dice_1: Seq<usize>,
    dice_2: Seq<usize>,
    captured: usize,
    r: CombatOutcome,
)
    requires
        pre.wf(),
        pre.has_pending_combat(),
        combat_resolved(pre, post, dice_1, dice_2, captured, r),
        pre.board.regions@[pre.winner_of(dice_1, dice_2)].num_dice > 1 ==> 1 <= captured
            < pre.board.regions@[pre.winner_of(dice_1, dice_2)].num_dice,
    ensures
        ({
            let w = pre.winner_of(dice_1, dice_2);
            let l = pre.loser_of(dice_1, dice_2);
            let before_w = pre.board.regions@[w].num_dice as int;
            let before_l = pre.board.regions@[l].num_dice as int;
            let after_w = post.board.regions@[w].num_dice as int;
            let after_l = post.board.regions@[l].num_dice as int;
            &&& after_w >= 1
            &&& after_l >= 1
            &&& post.board.regions@[l].owner == pre.board.regions@[w].owner
            &&& before_w > 1 ==> after_w + after_l == before_w + 1 && after_l == captured
            &&& before_w <= 1 ==> after_w == before_w && after_l == before_l
        }),
{
    let w = pre.winner_of(dice_1, dice_2);
    let l = pre.loser_of(dice_1, dice_2);
    let e = pre.game_log@.last();
    assert(e == pre.game_log@[pre.game_log@.len() - 1]);
    assert(w != l);
    assert(post.board.regions@[w]@ == after_combat(pre.board.regions@, w, l, captured, w));
    assert(post.board.regions@[l]@ == after_combat(pre.board.regions@, w, l, captured, l));
}

/// The turn passes on only when the player to move has no region left that
/// has not attacked this turn and borders an opponent, and the turn counter
/// then goes up by exactly one; otherwise both stay as they were.
pub proof fn lemma_turn_advance(
    pre: GameState,
    post: GameState,
    dice_1: Seq<usize>,
    dice_2: Seq<usize>,
    captured: usize,
    r: CombatOutcome,
)
    requires
        combat_resolved(pre, post, dice_1, dice_2, captured, r),
    ensures
        post.turn_of_player != pre.turn_of_player || post.turn_counter != pre.turn_counter ==> turn_is_over(
            post.board.regions@,
            post.game_log@,
            pre.turn_of_player,
            pre.turn_counter,
        ) && post.turn_counter == pre.turn_counter + 1,
        r.turn_advanced ==> post.turn_of_player == next_player(pre.turn_of_player, pre.number_of_players),
        !r.turn_advanced ==> post.turn_of_player == pre.turn_of_player && post.turn_counter == pre.turn_counter,
{
}

/// The game ends after an attack exactly when one player owns every region,
/// and names that player; the winner is then recorded, and since attacks can
/// only be declared and resolved while no winner is recorded, it ends once.
pub proof fn lemma_game_over(
    pre: GameState,
    post: GameState,
    dice_1: Seq<usize>,
    dice_2: Seq<usize>,
    captured: usize,
    r: CombatOutcome,
)
    requires
        combat_resolved(pre, post, dice_1, dice_2, captured, r),
    ensures
        forall|p: usize| r.game_over == Some(p) <==> owns_all(post.board.regions@, p),
        forall|p: usize, q: usize| owns_all(post.board.regions@, p) && owns_all(post.board.regions@, q) ==> p == q,
        post.winner == r.game_over,
{
    let regs = post.board.regions@;
    assert forall|p: usize| r.game_over == Some(p) <==> owns_all(regs, p) by {
        if owns_all(regs, p) {
            assert(regs[0].owner == p);
        }
    }
    assert forall|p: usize, q: usize| owns_all(regs, p) && owns_all(regs, q) implies p == q by {
        assert(regs[0].owner == p);
    }
}

} // verus!
