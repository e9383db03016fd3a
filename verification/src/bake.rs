//! Baking an imposter: what is drawn when, how large, and what comes back.

pub mod part_baked;
pub mod pipeline;
pub mod progress;
pub mod queue;
pub mod readback;
pub mod views;

use vstd::prelude::*;

pub use crate::bake::part_baked::PartBaked;
pub use crate::bake::queue::queue_imposter_material_meshes;
pub use crate::bake::readback::{align_byte_size, copy_back, get_aligned_size};
pub use crate::bake::views::{
    check_imposter_visibility, extract_imposter_cameras, prepare_imposter_textures, BakeDims,
    BlitUniform, ExtractedImposterBakeCamera,
};
use crate::grid::GridMode;

verus! {

/// How far a bake is.
#[derive(Clone, Copy, PartialEq, Eq, Structural, Debug)]
pub enum BakeState {
    Rendering,
    RunningCallback,
    Finished,
}

/// What is baked, and how.
#[derive(Clone, Copy, PartialEq, Eq, Structural, Debug)]
pub struct ImposterBakeCamera {
    /// Tiles to a side.
    pub grid_size: u32,
    /// Texels to a side of a tile.
    pub tile_size: u32,
    /// Samples to a side of a texel.
    pub multisample: u32,
    /// The directions that the tiles are seen from.
    pub grid_mode: GridMode,
    /// When the camera renders among the cameras.
    pub order: isize,
    /// Whether to bake in every frame and not just once.
    pub continuous: bool,
    /// Whether to wait until all that is seen can be drawn.
    pub wait_for_render: bool,
    /// How many tiles a frame may bake.
    pub max_tiles_per_frame: usize,
    /// How far the bake is, unless it is continuous.
    pub state: BakeState,
    /// How many camera positions are given by hand, where they are.
    pub manual_views: Option<usize>,
}

impl Default for ImposterBakeCamera {
    fn default() -> (camera: Self)
        ensures
            camera == (ImposterBakeCamera {
                grid_size: 8,
                tile_size: 64,
                multisample: 8,
                grid_mode: GridMode::Spherical,
                order: (-99int) as isize,
                continuous: false,
                wait_for_render: true,
                max_tiles_per_frame: usize::MAX,
                state: BakeState::Rendering,
                manual_views: None,
            }),
    {
        ImposterBakeCamera {
            grid_size: 8,
            tile_size: 64,
            multisample: 8,
            grid_mode: GridMode::Spherical,
            order: -99,
            continuous: false,
            wait_for_render: true,
            max_tiles_per_frame: usize::MAX,
            state: BakeState::Rendering,
            manual_views: None,
        }
    }
}

impl ImposterBakeCamera {
    /// Nothing is left to bake.
    pub open spec fn is_done(self) -> bool {
        !self.continuous && self.state == BakeState::Finished
    }

    /// The camera after reports of states, oldest first.
    pub open spec fn after_reports(self, reports: Seq<BakeState>) -> Self {
        ImposterBakeCamera {
            state: if self.continuous || reports.len() == 0 {
                self.state
            } else {
                reports.last()
            },
            ..self
        }
    }

    /// The image of all tiles has this many texels to a side.
    pub fn target_size(&self) -> (size: u32)
        requires
            self.tile_size * self.grid_size <= u32::MAX,
        ensures
            size == self.tile_size * self.grid_size,
    {
        self.tile_size * self.grid_size
    }

    /// Takes in the states that were reported since the last look, oldest first,
    /// and says whether the end was among them, after which no more are awaited.
    pub fn check_finished(&mut self, reports: &Vec<BakeState>) -> (closed: bool)
        ensures
            *final(self) == old(self).after_reports(reports@),
            closed <==> !old(self).continuous && reports@.contains(BakeState::Finished),
    {
        let mut closed: bool = false;
        let mut i: usize = 0;
        while i < reports.len()
            invariant
                i <= reports@.len(),
                *self == old(self).after_reports(reports@.take(i as int)),
                closed <==> !old(self).continuous && reports@.take(i as int).contains(
                    BakeState::Finished,
                ),
            decreases reports@.len() - i,
        {
            proof {
                assert(reports@.take(i + 1) =~= reports@.take(i as int).push(reports@[i as int]));
                assert forall|s: BakeState|
                    reports@.take(i + 1).contains(s) <==> reports@.take(i as int).contains(s)
                        || s == reports@[i as int] by {
                    let before = reports@.take(i as int);
                    if before.contains(s) {
                        let k = choose|k: int| 0 <= k < before.len() && before[k] == s;
                        assert(reports@.take(i + 1)[k] == s);
                    }
                    assert(reports@.take(i + 1)[i as int] == reports@[i as int]);
                }
            }
            if !self.continuous {
                self.state = reports[i];
                if self.state == BakeState::Finished {
                    closed = true;
                }
            }
            i += 1;
        }
        proof {
            assert(reports@.take(i as int) =~= reports@);
        }
        closed
    }
}

/// Reports are taken in one after the other: of several only the last one shows, and
/// it makes no difference whether they are looked at together or in turn. A camera
/// that is continuous stays as it is, and nothing but the state ever changes.
pub proof fn law_the_last_report_counts(
    camera: ImposterBakeCamera,
    reports: Seq<BakeState>,
    more: Seq<BakeState>,
    last: BakeState,
)
    ensures
        camera.after_reports(reports + more) == camera.after_reports(reports).after_reports(more),
        camera.after_reports(Seq::empty()) == camera,
        camera.continuous ==> camera.after_reports(reports) == camera,
        !camera.continuous ==> camera.after_reports(reports.push(last)) == (ImposterBakeCamera {
            state: last,
            ..camera
        }),
{
    if more.len() > 0 {
        assert((reports + more).last() == more.last());
    } else {
        assert(reports + more =~= reports);
    }
    assert(reports.push(last).last() == last);
}

/// Nothing is left to bake for a camera once the end was reported last, unless it is
/// continuous.
pub proof fn law_done_after_the_last_report(
    camera: ImposterBakeCamera,
    reports: Seq<BakeState>,
    last: BakeState,
)
    ensures
        camera.after_reports(reports.push(last)).is_done() <==> !camera.continuous && last
            == BakeState::Finished,
{
    assert(reports.push(last).last() == last);
}

} // verus!
