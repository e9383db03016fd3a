//! The cameras that bake, what they see, and one view for each of their tiles.

use vstd::prelude::*;

use crate::bake::part_baked::{BakingCameras, PartBaked};
use crate::bake::{BakeState, ImposterBakeCamera};

verus! {

/// What becomes of the list of what a camera sees.
#[derive(Clone, Copy, PartialEq, Eq, Structural, Debug)]
pub enum ListChange {
    /// It stays as it is.
    Kept,
    /// It is emptied.
    Cleared,
    /// It is made anew, and the count of what to expect starts from zero.
    Filled,
}

/// What becomes of the list of camera `i`: the first camera that is done ends the
/// round for the cameras behind it.
pub open spec fn change_of(cameras: Seq<ImposterBakeCamera>, i: int) -> ListChange {
    if exists|j: int| 0 <= j < i && (#[trigger] cameras[j]).is_done() {
        ListChange::Kept
    } else if cameras[i].is_done() {
        ListChange::Cleared
    } else {
        ListChange::Filled
    }
}

/// What becomes of the lists of what the cameras see.
pub fn check_imposter_visibility(cameras: &Vec<ImposterBakeCamera>) -> (changes: Vec<ListChange>)
    ensures
        changes@.len() == cameras@.len(),
        forall|i: int| 0 <= i < cameras@.len() ==> #[trigger] changes@[i] == change_of(cameras@, i),
{
    let mut changes: Vec<ListChange> = Vec::new();
    let mut over: bool = false;
    let mut i: usize = 0;
    while i < cameras.len()
        invariant
            i <= cameras@.len(),
            changes@.len() == i,
            over <==> exists|j: int| 0 <= j < i && (#[trigger] cameras@[j]).is_done(),
            forall|k: int| 0 <= k < i ==> #[trigger] changes@[k] == change_of(cameras@, k),
        decreases cameras@.len() - i,
    {
        let done: bool = !cameras[i].continuous && cameras[i].state == BakeState::Finished;
        if over {
            changes.push(ListChange::Kept);
        } else if done {
            changes.push(ListChange::Cleared);
            over = true;
        } else {
            changes.push(ListChange::Filled);
        }
        proof {
            assert(cameras@[i as int].is_done() == done);
        }
        i += 1;
    }
    changes
}

/// How an entity lies to a camera.
#[derive(Clone, Copy, PartialEq, Eq, Structural, Debug)]
pub struct Sighting {
    /// The entity is not hidden.
    pub shown: bool,
    /// The camera and the entity share a layer.
    pub shares_layer: bool,
    /// The entity is never left out for where it lies.
    pub never_culled: bool,
    /// The camera leaves out nothing for where it lies.
    pub sees_everywhere: bool,
    /// Whether the entity lies out of reach, where its bounds are known.
    pub out_of_reach: Option<bool>,
}

/// Whether the camera sees the entity.
pub fn is_seen(sighting: &Sighting) -> (seen: bool)
    ensures
        seen == (sighting.shown && sighting.shares_layer && (sighting.never_culled
            || sighting.sees_everywhere || sighting.out_of_reach != Some(true))),
{
    if !sighting.shown {
        return false;
    }
    if !sighting.shares_layer {
        return false;
    }
    if !sighting.never_culled && !sighting.sees_everywhere {
        if let Some(out) = sighting.out_of_reach {
            if out {
                return false;
            }
        }
    }
    true
}

/// How many of the entities that a camera sees have a material.
pub open spec fn count_true(with_material: Seq<bool>) -> nat
    decreases with_material.len(),
{
    if with_material.len() == 0 {
        0
    } else {
        count_true(with_material.drop_last()) + if with_material.last() {
            1nat
        } else {
            0
        }
    }
}

/// Adds the entities that have one more material to the count of what to expect.
pub fn count_expected_imposter_materials(count: usize, with_material: &Vec<bool>) -> (total: usize)
    requires
        count + with_material@.len() <= usize::MAX,
    ensures
        total == count + count_true(with_material@),
{
    let mut total: usize = count;
    let mut i: usize = 0;
    while i < with_material.len()
        invariant
            i <= with_material@.len(),
            count + with_material@.len() <= usize::MAX,
            total == count + count_true(with_material@.take(i as int)),
            total <= count + i,
        decreases with_material@.len() - i,
    {
        proof {
            assert(with_material@.take(i + 1).drop_last() =~= with_material@.take(i as int));
        }
        if with_material[i] {
            total += 1;
        }
        i += 1;
    }
    proof {
        assert(with_material@.take(i as int) =~= with_material@);
    }
    total
}

/// Where the camera of a tile stands.
#[derive(Clone, Copy, PartialEq, Eq, Structural, Debug)]
pub enum ViewPlace {
    /// Where the given position of this number says.
    Manual(usize),
    /// Where the grid says.
    Grid,
}

/// The view of one tile.
#[derive(Clone, Copy, PartialEq, Eq, Structural, Debug)]
pub struct Subview {
    pub x: u32,
    pub y: u32,
    pub index: u32,
    pub place: ViewPlace,
}

/// The view of tile `k`, counted row by row.
pub open spec fn subview(grid_size: u32, manual: bool, k: int) -> Subview {
    Subview {
        x: (k % grid_size as int) as u32,
        y: (k / grid_size as int) as u32,
        index: k as u32,
        place: if manual {
            ViewPlace::Manual(k as usize)
        } else {
            ViewPlace::Grid
        },
    }
}

/// One view for each tile, row by row.
pub open spec fn subviews_of(grid_size: u32, manual: bool) -> Seq<Subview> {
    Seq::new((grid_size * grid_size) as nat, |k: int| subview(grid_size, manual, k))
}

/// One view for each tile, row by row.
pub fn make_subviews(grid_size: u32, manual: bool) -> (views: Vec<Subview>)
    requires
        grid_size * grid_size <= u32::MAX,
    ensures
        views@ == subviews_of(grid_size, manual),
{
    let mut views: Vec<Subview> = Vec::new();
    let mut y: u32 = 0;
    while y < grid_size
        invariant
            y <= grid_size,
            grid_size * grid_size <= u32::MAX,
            views@.len() == y * grid_size,
            forall|k: int|
                0 <= k < y * grid_size ==> #[trigger] views@[k] == subview(grid_size, manual, k),
        decreases grid_size - y,
    {
        let mut x: u32 = 0;
        proof {
            assert(y * grid_size + grid_size <= grid_size * grid_size) by (nonlinear_arith)
                requires
                    y + 1 <= grid_size,
            ;
        }
        while x < grid_size
            invariant
                x <= grid_size,
                y < grid_size,
                y * grid_size + grid_size <= grid_size * grid_size <= u32::MAX,
                0 <= y * grid_size,
                views@.len() == y * grid_size + x,
                forall|k: int|
                    0 <= k < y * grid_size + x ==> #[trigger] views@[k] == subview(
                        grid_size,
                        manual,
                        k,
                    ),
            decreases grid_size - x,
        {
            let index: u32 = y * grid_size + x;
            proof {
                assert(index as int / grid_size as int == y && index as int % grid_size as int == x)
                    by (nonlinear_arith)
                    requires
                        index == y * grid_size + x,
                        0 <= x < grid_size,
                ;
            }
            let place: ViewPlace = if manual {
                ViewPlace::Manual(index as usize)
            } else {
                ViewPlace::Grid
            };
            views.push(Subview { x, y, index, place });
            x += 1;
        }
        proof {
            assert((y + 1) * grid_size == y * grid_size + grid_size) by (nonlinear_arith);
        }
        y += 1;
    }
    proof {
        assert(views@ =~= subviews_of(grid_size, manual));
    }
    views
}

/// A camera, and what is known of it besides.
#[derive(Clone, Copy, PartialEq, Eq, Structural, Debug)]
pub struct BakeCandidate {
    /// The number of the camera.
    pub id: u64,
    pub camera: ImposterBakeCamera,
    /// How many items its tiles are expected to draw.
    pub expected_count: usize,
    /// A reported state was not yet looked at.
    pub report_waiting: bool,
    /// The image is to be handed to a callback.
    pub has_callback: bool,
}

impl BakeCandidate {
    /// The camera bakes in this frame.
    pub open spec fn bakes(self) -> bool {
        self.camera.state == BakeState::Rendering && !self.report_waiting
    }

    /// The tiles can be numbered, the image fits the limits, and the positions
    /// that are given by hand suffice.
    pub open spec fn fits(self) -> bool {
        &&& self.camera.grid_size * self.camera.grid_size <= u32::MAX
        &&& self.camera.tile_size * self.camera.grid_size <= u32::MAX
        &&& self.camera.manual_views matches Some(given) ==> given >= self.camera.grid_size
            * self.camera.grid_size
    }
}

/// What a camera that bakes hands to the renderer.
pub struct ExtractedImposterBakeCamera {
    pub id: u64,
    pub grid_size: u32,
    pub tile_size: u32,
    pub multisample: u32,
    /// Texels to a side of the image of all tiles.
    pub viewport: u32,
    pub order: isize,
    pub subviews: Vec<Subview>,
    pub expected_count: usize,
    pub wait_for_render: bool,
    pub max_tiles_per_frame: usize,
    pub has_callback: bool,
}

impl ExtractedImposterBakeCamera {
    /// There is one view for each tile, row by row, and the image fits the limits.
    pub open spec fn wf(self) -> bool {
        &&& self.grid_size * self.grid_size <= u32::MAX
        &&& self.viewport == self.tile_size * self.grid_size
        &&& self.subviews@ == subviews_of(self.grid_size, false) || self.subviews@ == subviews_of(
            self.grid_size,
            true,
        )
    }

    /// The number of tiles.
    pub open spec fn tile_count(self) -> int {
        self.grid_size * self.grid_size
    }

    /// What the renderer is handed for a camera.
    pub open spec fn is_of(self, candidate: BakeCandidate) -> bool {
        &&& self.id == candidate.id
        &&& self.grid_size == candidate.camera.grid_size
        &&& self.tile_size == candidate.camera.tile_size
        &&& self.multisample == candidate.camera.multisample
        &&& self.viewport == candidate.camera.tile_size * candidate.camera.grid_size
        &&& self.order == candidate.camera.order
        &&& self.subviews@ == subviews_of(
            candidate.camera.grid_size,
            candidate.camera.manual_views is Some,
        )
        &&& self.expected_count == candidate.expected_count
        &&& self.wait_for_render == candidate.camera.wait_for_render
        &&& self.max_tiles_per_frame == candidate.camera.max_tiles_per_frame
        &&& self.has_callback == candidate.has_callback
    }
}

/// The cameras that bake, in order.
pub open spec fn baking(candidates: Seq<BakeCandidate>) -> Seq<BakeCandidate> {
    candidates.filter(|c: BakeCandidate| c.bakes())
}

/// What the cameras that bake hand to the renderer, and which cameras they are.
/// What was baked for the others is forgotten.
pub fn extract_imposter_cameras(candidates: &Vec<BakeCandidate>, part: &mut PartBaked) -> (r: (
    Vec<ExtractedImposterBakeCamera>,
    BakingCameras,
))
    requires
        forall|i: int|
            0 <= i < candidates@.len() && (#[trigger] candidates@[i]).bakes()
                ==> candidates@[i].fits(),
    ensures
        r.0@.len() == baking(candidates@).len(),
        forall|i: int|
            0 <= i < r.0@.len() ==> (#[trigger] r.0@[i]).wf() && r.0@[i].is_of(
                baking(candidates@)[i],
            ),
        forall|id: u64| #[trigger]
            r.1@.contains(id) <==> exists|i: int|
                0 <= i < candidates@.len() && (#[trigger] candidates@[i]).bakes()
                    && candidates@[i].id == id,
        final(part)@ == old(part)@.restrict(r.1@),
{
    let mut extracted: Vec<ExtractedImposterBakeCamera> = Vec::new();
    let mut cameras: BakingCameras = BakingCameras::new();
    let mut i: usize = 0;
    proof {
        reveal(Seq::filter);
        assert(baking(candidates@.take(0)).len() == 0);
    }
    while i < candidates.len()
        invariant
            i <= candidates@.len(),
            forall|k: int|
                0 <= k < candidates@.len() && (#[trigger] candidates@[k]).bakes()
                    ==> candidates@[k].fits(),
            extracted@.len() == baking(candidates@.take(i as int)).len(),
            forall|k: int|
                0 <= k < extracted@.len() ==> (#[trigger] extracted@[k]).wf()
                    && extracted@[k].is_of(baking(candidates@.take(i as int))[k]),
            forall|id: u64| #[trigger]
                cameras@.contains(id) <==> exists|k: int|
                    0 <= k < i && (#[trigger] candidates@[k]).bakes() && candidates@[k].id == id,
        decreases candidates@.len() - i,
    {
        let ghost before = baking(candidates@.take(i as int));
        let ghost seen = cameras@;
        proof {
            reveal(Seq::filter);
            assert(candidates@.take(i + 1).drop_last() =~= candidates@.take(i as int));
            assert(baking(candidates@.take(i + 1)) == if candidates@[i as int].bakes() {
                before.push(candidates@[i as int])
            } else {
                before
            });
        }
        let candidate: BakeCandidate = candidates[i];
        if candidate.camera.state == BakeState::Rendering && !candidate.report_waiting {
            cameras.insert(candidate.id);
            let camera: ImposterBakeCamera = candidate.camera;
            extracted.push(
                ExtractedImposterBakeCamera {
                    id: candidate.id,
                    grid_size: camera.grid_size,
                    tile_size: camera.tile_size,
                    multisample: camera.multisample,
                    viewport: camera.target_size(),
                    order: camera.order,
                    subviews: make_subviews(camera.grid_size, camera.manual_views.is_some()),
                    expected_count: candidate.expected_count,
                    wait_for_render: camera.wait_for_render,
                    max_tiles_per_frame: camera.max_tiles_per_frame,
                    has_callback: candidate.has_callback,
                },
            );
        }
        proof {
            assert forall|id: u64| #[trigger] cameras@.contains(id) <==> exists|k: int|
                0 <= k < i + 1 && (#[trigger] candidates@[k]).bakes() && candidates@[k].id == id by {
                assert(seen.contains(id) <==> exists|k: int|
                    0 <= k < i && (#[trigger] candidates@[k]).bakes() && candidates@[k].id == id);
                if candidates@[i as int].bakes() && candidates@[i as int].id == id {
                    assert(cameras@.contains(id));
                }
            }
        }
        i += 1;
    }
    proof {
        assert(candidates@.take(i as int) =~= candidates@);
    }
    part.retain(&cameras);
    (extracted, cameras)
}

/// The width that bake shaders count rows by.
#[derive(Clone, Copy, PartialEq, Eq, Structural, Debug)]
pub struct BakeDims {
    pub width: u32,
}

/// How many samples to a side the blit averages over.
#[derive(Clone, Copy, PartialEq, Eq, Structural, Debug)]
pub struct BlitUniform {
    pub samples: u32,
    pub pad_0: u32,
    pub pad_1: u32,
    pub pad_2: u32,
}

/// How large the textures and the buffer of a bake are.
#[derive(Clone, Copy, PartialEq, Eq, Structural, Debug)]
pub struct BakeSizes {
    /// Texels to a side of the image of all tiles.
    pub output: u32,
    /// Samples to a side of one tile.
    pub tile_render: u32,
    /// Bytes of the buffer that one tile is drawn to.
    pub buffer_bytes: u64,
    pub dims: BakeDims,
    pub blit: BlitUniform,
}

/// How large the textures and the buffer of a bake are.
pub fn prepare_imposter_textures(camera: &ExtractedImposterBakeCamera) -> (sizes: BakeSizes)
    requires
        camera.wf(),
        camera.tile_size * camera.multisample <= u32::MAX,
        (camera.tile_size * camera.multisample) * (camera.tile_size * camera.multisample)
            <= u32::MAX,
    ensures
        sizes.output == camera.tile_size * camera.grid_size,
        sizes.tile_render == camera.tile_size * camera.multisample,
        sizes.buffer_bytes == sizes.tile_render * sizes.tile_render * 8,
        sizes.dims.width == sizes.tile_render,
        sizes.blit == (BlitUniform { samples: camera.multisample, pad_0: 0, pad_1: 0, pad_2: 0 }),
{
    let tile_render: u32 = camera.tile_size * camera.multisample;
    let pixels: u64 = (tile_render * tile_render) as u64;
    BakeSizes {
        output: camera.viewport,
        tile_render,
        buffer_bytes: pixels * 8,
        dims: BakeDims { width: tile_render },
        blit: BlitUniform { samples: camera.multisample, pad_0: 0, pad_1: 0, pad_2: 0 },
    }
}

/// A camera bakes again after the report that all tiles are there, or that its
/// callback is done, only if it is continuous.
pub proof fn law_bakes_once_unless_continuous(
    camera: ImposterBakeCamera,
    reports: Seq<BakeState>,
    candidate: BakeCandidate,
)
    requires
        camera.state == BakeState::Rendering,
        reports.len() > 0,
        reports.last() != BakeState::Rendering,
        candidate.camera == camera.after_reports(reports),
    ensures
        candidate.report_waiting ==> !candidate.bakes(),
        !candidate.report_waiting ==> (candidate.bakes() <==> camera.continuous),
{
}

/// Every tile of the grid has exactly one view.
pub proof fn law_each_tile_has_one_view(grid_size: u32, manual: bool, x: int, y: int)
    requires
        grid_size * grid_size <= u32::MAX,
        0 <= x < grid_size,
        0 <= y < grid_size,
    ensures
        0 <= y * grid_size + x < subviews_of(grid_size, manual).len(),
        forall|k: int|
            0 <= k < subviews_of(grid_size, manual).len() ==> ((#[trigger] subviews_of(
                grid_size,
                manual,
            )[k]).x == x && subviews_of(grid_size, manual)[k].y == y <==> k == y * grid_size + x),
{
    let g = grid_size as int;
    assert(0 <= y * g + x < g * g) by (nonlinear_arith)
        requires
            0 <= x < g,
            0 <= y < g,
    ;
    assert forall|k: int| 0 <= k < subviews_of(grid_size, manual).len() implies ((
    #[trigger] subviews_of(grid_size, manual)[k]).x == x && subviews_of(grid_size, manual)[k].y
        == y <==> k == y * grid_size + x) by {
        assert(0 <= k % g < g && 0 <= k / g < g && (k % g == x && k / g == y <==> k == y * g + x))
            by (nonlinear_arith)
            requires
                0 <= x < g,
                0 <= y < g,
                0 <= k < g * g,
        ;
    }
}

/// The lists of the cameras before the first one that is done are filled, the list of
/// that one is cleared, and the lists behind it are kept.
pub proof fn law_the_first_done_ends_the_round(
    cameras: Vec<ImposterBakeCamera>,
    changes: Vec<ListChange>,
    first: int,
    i: int,
)
    requires
        call_ensures(check_imposter_visibility, (&cameras,), changes),
        0 <= first <= cameras@.len(),
        forall|j: int|
            0 <= j < first ==> (#[trigger] cameras@[j]).continuous || cameras@[j].state
                != BakeState::Finished,
        first < cameras@.len() ==> !cameras@[first].continuous && cameras@[first].state
            == BakeState::Finished,
        0 <= i < cameras@.len(),
    ensures
        changes@.len() == cameras@.len(),
        i < first ==> changes@[i] == ListChange::Filled,
        i == first ==> changes@[i] == ListChange::Cleared,
        i > first ==> changes@[i] == ListChange::Kept,
{
    assert(changes@[i] == change_of(cameras@, i));
    if i > first {
        assert(cameras@[first].is_done());
    }
}

/// A camera sees nothing that is hidden or on no layer of its own. Of the rest it sees
/// all that is not out of reach; what is never left out, or a camera that leaves out
/// nothing, only adds to that.
pub proof fn law_reach_limits_what_is_seen(sighting: Sighting, seen: bool)
    requires
        call_ensures(is_seen, (&sighting,), seen),
    ensures
        !sighting.shown || !sighting.shares_layer ==> !seen,
        sighting.shown && sighting.shares_layer ==> {
            &&& sighting.never_culled ==> seen
            &&& sighting.sees_everywhere ==> seen
            &&& sighting.out_of_reach is None ==> seen
            &&& sighting.out_of_reach == Some(false) ==> seen
            &&& !sighting.never_culled && !sighting.sees_everywhere && sighting.out_of_reach
                == Some(true) ==> !seen
        },
{
}

/// The count grows by the number of entities that have the material, however they are
/// shared out over several counts.
pub proof fn law_materials_are_counted(
    count: usize,
    a: Vec<bool>,
    b: Vec<bool>,
    first: usize,
    total: usize,
)
    requires
        call_ensures(count_expected_imposter_materials, (count, &a), first),
        call_ensures(count_expected_imposter_materials, (first, &b), total),
    ensures
        first == count + a@.filter(|with: bool| with).len(),
        total == count + (a@ + b@).filter(|with: bool| with).len(),
{
    lemma_count_filtered(a@);
    lemma_count_filtered(b@);
    Seq::filter_distributes_over_add(a@, b@, |with: bool| with);
}

proof fn lemma_count_filtered(with_material: Seq<bool>)
    ensures
        count_true(with_material) == with_material.filter(|with: bool| with).len(),
    decreases with_material.len(),
{
    reveal(Seq::filter);
    if with_material.len() > 0 {
        lemma_count_filtered(with_material.drop_last());
    }
}

/// The tile in column `x` of row `y` has its own view, numbered row by row, and the
/// position given by hand for it is that of the same number.
pub proof fn law_views_are_numbered_by_row(
    grid_size: u32,
    manual: bool,
    views: Vec<Subview>,
    x: int,
    y: int,
)
    requires
        grid_size * grid_size <= u32::MAX,
        call_ensures(make_subviews, (grid_size, manual), views),
        0 <= x < grid_size,
        0 <= y < grid_size,
    ensures
        views@.len() == grid_size * grid_size,
        0 <= y * grid_size + x < views@.len(),
        ({
            let view = views@[y * grid_size + x];
            &&& view.x == x
            &&& view.y == y
            &&& view.index == y * grid_size + x
            &&& view.place is Grid <==> !manual
            &&& view.place matches ViewPlace::Manual(n) ==> n == y * grid_size + x
        }),
{
    law_each_tile_has_one_view(grid_size, manual, x, y);
    let k = y * grid_size + x;
    assert(views@[k].x == x && views@[k].y == y);
}

/// Every camera that is rendering, with no report waiting, is handed on, and no other.
/// What is handed on is what the camera and its entity say, with the side of the whole
/// image and one view for each tile.
pub proof fn law_cameras_are_handed_on(
    candidates: Seq<BakeCandidate>,
    extracted: Seq<ExtractedImposterBakeCamera>,
)
    requires
        extracted.len() == baking(candidates).len(),
        forall|i: int|
            0 <= i < extracted.len() ==> (#[trigger] extracted[i]).is_of(baking(candidates)[i]),
    ensures
        forall|i: int|
            0 <= i < candidates.len() && (#[trigger] candidates[i]).camera.state
                == BakeState::Rendering && !candidates[i].report_waiting ==> exists|j: int|
                0 <= j < extracted.len() && hands_on(candidates[i], #[trigger] extracted[j]),
        forall|j: int|
            0 <= j < extracted.len() ==> is_handed_on(candidates, #[trigger] extracted[j]),
{
    broadcast use vstd::seq_lib::group_filter_ensures;

    let chosen = |c: BakeCandidate| c.bakes();
    let kept = baking(candidates);
    assert forall|i: int|
        0 <= i < candidates.len() && (#[trigger] candidates[i]).camera.state
            == BakeState::Rendering && !candidates[i].report_waiting implies exists|j: int|
        0 <= j < extracted.len() && hands_on(candidates[i], #[trigger] extracted[j]) by {
        assert(chosen(candidates[i]));
        assert(kept.contains(candidates[i]));
        let j = choose|j: int| 0 <= j < kept.len() && kept[j] == candidates[i];
        lemma_hands_on(candidates[i], extracted[j]);
    }
    assert forall|j: int| 0 <= j < extracted.len() implies is_handed_on(
        candidates,
        #[trigger] extracted[j],
    ) by {
        assert(chosen(kept[j]));
        lemma_filter_source(candidates, chosen, j);
        let i = choose|i: int| 0 <= i < candidates.len() && candidates[i] == kept[j];
        lemma_hands_on(candidates[i], extracted[j]);
    }
}

proof fn lemma_hands_on(from: BakeCandidate, to: ExtractedImposterBakeCamera)
    requires
        to.is_of(from),
    ensures
        hands_on(from, to),
{
    let g = from.camera.grid_size as int;
    let t = from.camera.tile_size as int;
    assert(t * g == g * t && 0 <= g * g) by (nonlinear_arith);
}

proof fn lemma_filter_source(
    candidates: Seq<BakeCandidate>,
    chosen: spec_fn(BakeCandidate) -> bool,
    j: int,
)
    requires
        0 <= j < candidates.filter(chosen).len(),
    ensures
        candidates.contains(candidates.filter(chosen)[j]),
    decreases candidates.len(),
{
    reveal(Seq::filter);
    if candidates.len() > 0 {
        let rest = candidates.drop_last();
        let x = candidates.filter(chosen)[j];
        if j < rest.filter(chosen).len() {
            lemma_filter_source(rest, chosen, j);
            let i = choose|i: int| 0 <= i < rest.len() && rest[i] == x;
            assert(candidates[i] == x);
        } else {
            assert(candidates[candidates.len() - 1] == x);
        }
    }
}

/// One of the cameras is rendering, with no report waiting, and hands this on.
pub open spec fn is_handed_on(
    candidates: Seq<BakeCandidate>,
    to: ExtractedImposterBakeCamera,
) -> bool {
    exists|i: int|
        0 <= i < candidates.len() && (#[trigger] candidates[i]).camera.state == BakeState::Rendering
            && !candidates[i].report_waiting && hands_on(candidates[i], to)
}

/// What the renderer is handed says the same as the camera, part by part.
pub open spec fn hands_on(from: BakeCandidate, to: ExtractedImposterBakeCamera) -> bool {
    &&& to.id == from.id
    &&& to.grid_size == from.camera.grid_size
    &&& to.tile_size == from.camera.tile_size
    &&& to.multisample == from.camera.multisample
    &&& to.viewport == from.camera.grid_size * from.camera.tile_size
    &&& to.order == from.camera.order
    &&& to.max_tiles_per_frame == from.camera.max_tiles_per_frame
    &&& to.wait_for_render <==> from.camera.wait_for_render
    &&& to.expected_count == from.expected_count
    &&& to.has_callback <==> from.has_callback
    &&& to.subviews@.len() == from.camera.grid_size * from.camera.grid_size
    &&& forall|k: int|
        0 <= k < to.subviews@.len() ==> ((#[trigger] to.subviews@[k]).place is Manual
            <==> from.camera.manual_views is Some)
}

/// The image of all tiles has as many texels to a side as its tiles together. A tile is
/// drawn with as many samples to a side as the blit averages over for each texel, into a
/// buffer of eight bytes for each sample whose rows are as wide as the tile.
pub proof fn law_sizes_of_a_bake(camera: ExtractedImposterBakeCamera, sizes: BakeSizes)
    requires
        camera.wf(),
        call_ensures(prepare_imposter_textures, (&camera,), sizes),
    ensures
        sizes.output == camera.grid_size * camera.tile_size,
        sizes.blit.samples == camera.multisample,
        sizes.tile_render == camera.tile_size * sizes.blit.samples,
        sizes.dims.width == sizes.tile_render,
        sizes.buffer_bytes == 8 * (sizes.dims.width * sizes.tile_render),
        sizes.blit.pad_0 == 0 && sizes.blit.pad_1 == 0 && sizes.blit.pad_2 == 0,
{
    assert(camera.tile_size * camera.grid_size == camera.grid_size * camera.tile_size)
        by (nonlinear_arith);
}

} // verus!
