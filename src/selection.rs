use vstd::prelude::*;
use crate::game::{dice_total, sum_of_faces, GameState};
use crate::region::{cells_in_bounds, opponents, Region};

verus! {

/// The region the player to move has picked as the source of an attack, and
/// the handle of the on-screen element that was picked.
#[derive(Debug)]
pub struct SelectedRegion {
    pub entity: Option<u64>,
    pub region: Option<Region>,
}

/// An attack declared by picking an own region and then a bordering enemy one.
#[derive(Debug)]
pub struct RegionClashEventStart {
    pub region_1: Region,
    pub region_2: Region,
}

/// An attack whose roll is known: both regions as logged and each side's total.
#[derive(Debug)]
pub struct RegionClashEventEnd {
    pub region1: Region,
    pub region2: Region,
    pub dice_1_sum: usize,
    pub dice_2_sum: usize,
}

impl SelectedRegion {
    /// Nothing selected.
    pub fn new() -> (s: SelectedRegion)
        ensures
            s.entity.is_none(),
            s.region.is_none(),
    {
        SelectedRegion { entity: None, region: None }
    }

    /// Makes `region`, shown by `entity`, the selected source.
    pub fn select(&mut self, entity: u64, region: Region)
        ensures
            final(self).entity == Some(entity),
            final(self).region == Some(region),
    {
        self.entity = Some(entity);
        self.region = Some(region);
    }

    /// Clears the selection.
    pub fn deselect(&mut self)
        ensures
            final(self).entity.is_none(),
            final(self).region.is_none(),
    {
        self.entity = None;
        self.region = None;
    }

    /// Handles a pick of `region` (shown by `entity`) while `player` is to move.
    /// An own region becomes the selection. Any other region clears the
    /// selection and, when a region was selected and borders it, declares an
    /// attack of the selected region on it.
    pub fn pick(&mut self, entity: u64, region: &Region, player: usize) -> (attack: Option<RegionClashEventStart>)
        requires
            old(self).region matches Some(r) ==> cells_in_bounds(r.hexes@),
        ensures
            region.owner == player ==> final(self).entity == Some(entity) && attack.is_none(),
            region.owner == player ==> (final(self).region matches Some(r) && r@ == region@),
            region.owner != player ==> final(self).entity.is_none() && final(self).region.is_none(),
            region.owner != player ==> (attack.is_some() <==> (old(self).region matches Some(r) && opponents(
                r,
                *region,
            ))),
            attack matches Some(a) ==> old(self).region == Some(a.region_1) && a.region_2@ == region@,
    {
        if region.owner == player {
            self.select(entity, region.snapshot());
            return None;
        }
        let mut attack: Option<RegionClashEventStart> = None;
        match self.region.take() {
            Some(source) => {
                if source.is_opponent(region) {
                    attack = Some(RegionClashEventStart { region_1: source, region_2: region.snapshot() });
                }
            },
            None => {},
        }
        self.deselect();
        attack
    }
}

impl GameState {
    /// The latest attack as a finished clash: both logged regions and each
    /// side's total; `None` while nothing has been logged.
    pub fn clash_end_event(&self) -> (e: Option<RegionClashEventEnd>)
        requires
            self.game_log@.len() > 0 ==> dice_total(self.game_log@.last().region_1_dice_result@) <= usize::MAX
                && dice_total(self.game_log@.last().region_2_dice_result@) <= usize::MAX,
        ensures
            self.game_log@.len() == 0 <==> e.is_none(),
            e matches Some(c) ==> (c.region1@ == self.game_log@.last().region_1@ && c.region2@
                == self.game_log@.last().region_2@),
            e matches Some(c) ==> (c.dice_1_sum == dice_total(self.game_log@.last().region_1_dice_result@)
                && c.dice_2_sum == dice_total(self.game_log@.last().region_2_dice_result@)),
    {
        if self.game_log.len() == 0 {
            return None;
        }
        let last = &self.game_log[self.game_log.len() - 1];
        Some(
            RegionClashEventEnd {
                region1: last.region_1.snapshot(),
                region2: last.region_2.snapshot(),
                dice_1_sum: sum_of_faces(&last.region_1_dice_result),
                dice_2_sum: sum_of_faces(&last.region_2_dice_result),
            },
        )
    }
}

} // verus!
