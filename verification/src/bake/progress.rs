//! The course of a bake: which tiles a frame bakes, and what happens when all of
//! them are there.

use vstd::prelude::*;

use crate::bake::part_baked::PartBaked;
use crate::bake::readback;
use crate::bake::readback::{get_aligned_size, pixel_size};
use crate::bake::views;
use crate::bake::views::{ExtractedImposterBakeCamera, Subview};
use crate::bake::BakeState;

verus! {

/// How far a camera is within a frame.
#[derive(Clone, Copy, PartialEq, Eq, Structural, Debug)]
pub struct BakeRun {
    /// How many tiles are baked.
    pub rendered: usize,
    /// How many more this frame may bake.
    pub budget: usize,
}

/// How many tiles a frame may bake: the first frame does no more than find out
/// whether all can be drawn.
pub open spec fn budget_of(rendered: usize, max_tiles_per_frame: usize) -> usize {
    if rendered == 0 && max_tiles_per_frame > 1 {
        1
    } else {
        max_tiles_per_frame
    }
}

/// Some of what is to be seen was not drawn, and the camera waits for it.
pub open spec fn must_wait(
    camera: ExtractedImposterBakeCamera,
    rendered: usize,
    drawn: usize,
) -> bool {
    rendered == 0 && drawn != camera.expected_count && camera.wait_for_render
}

/// The frame has a tile to bake.
pub open spec fn goes_on(camera: ExtractedImposterBakeCamera, run: BakeRun) -> bool {
    run.budget > 0 && run.rendered < camera.tile_count()
}

/// Where the camera is after a tile of which `drawn` items were drawn.
pub open spec fn after_tile(camera: ExtractedImposterBakeCamera, run: BakeRun, drawn: usize) -> BakeRun {
    if must_wait(camera, run.rendered, drawn) {
        BakeRun { rendered: run.rendered, budget: 0 }
    } else {
        BakeRun { rendered: (run.rendered + 1) as usize, budget: (run.budget - 1) as usize }
    }
}

/// Where the camera is at the beginning of a frame.
pub fn begin_frame(camera: &ExtractedImposterBakeCamera, part: &PartBaked) -> (run: BakeRun)
    ensures
        run.rendered == part.baked(camera.id),
        run.budget == budget_of(run.rendered, camera.max_tiles_per_frame),
{
    let rendered: usize = part.get(camera.id);
    let budget: usize = if rendered == 0 && camera.max_tiles_per_frame > 1 {
        1
    } else {
        camera.max_tiles_per_frame
    };
    BakeRun { rendered, budget }
}

/// The tile to bake next, unless the frame has none left.
pub fn next_tile(camera: &ExtractedImposterBakeCamera, run: &BakeRun) -> (tile: Option<Subview>)
    requires
        camera.wf(),
    ensures
        tile == (if goes_on(*camera, *run) {
            Some(camera.subviews@[run.rendered as int])
        } else {
            None
        }),
{
    if run.budget > 0 && run.rendered < camera.subviews.len() {
        Some(camera.subviews[run.rendered])
    } else {
        None
    }
}

/// A square of the image of all tiles, in texels.
#[derive(Clone, Copy, PartialEq, Eq, Structural, Debug)]
pub struct Viewport {
    pub x: u32,
    pub y: u32,
    pub size: u32,
}

/// Where a tile goes.
pub open spec fn is_viewport(camera: ExtractedImposterBakeCamera, tile: Subview, v: Viewport) -> bool {
    v.x == tile.x * camera.tile_size && v.y == tile.y * camera.tile_size && v.size
        == camera.tile_size
}

/// Takes in that `drawn` items were drawn of the next tile, and says where the
/// tile goes, unless the camera waits.
pub fn tile_drawn(
    camera: &ExtractedImposterBakeCamera,
    run: &mut BakeRun,
    drawn: usize,
) -> (viewport: Option<Viewport>)
    requires
        camera.wf(),
        goes_on(*camera, *old(run)),
    ensures
        *final(run) == after_tile(*camera, *old(run), drawn),
        viewport is None <==> must_wait(*camera, old(run).rendered, drawn),
        viewport matches Some(v) ==> is_viewport(
            *camera,
            camera.subviews@[old(run).rendered as int],
            v,
        ),
{
    if run.rendered == 0 {
        let success: bool = drawn == camera.expected_count;
        if !success && camera.wait_for_render {
            run.budget = 0;
            return None;
        }
    }
    let tile: Subview = camera.subviews[run.rendered];
    proof {
        let g = camera.grid_size as int;
        let k = run.rendered as int;
        let t = camera.tile_size as int;
        assert(0 < g && 0 <= k % g < g && 0 <= k / g < g) by (nonlinear_arith)
            requires
                0 <= k < g * g,
                0 <= g,
        ;
        assert(tile.x < g && tile.y < g);
        assert(tile.x * t <= t * g && tile.y * t <= t * g) by (nonlinear_arith)
            requires
                tile.x < g,
                tile.y < g,
                0 <= t,
        ;
    }
    run.rendered += 1;
    run.budget -= 1;
    Some(
        Viewport {
            x: tile.x * camera.tile_size,
            y: tile.y * camera.tile_size,
            size: camera.tile_size,
        },
    )
}

/// The buffer that a finished image is copied to.
#[derive(Clone, Copy, PartialEq, Eq, Structural, Debug)]
pub struct Transfer {
    pub bytes: u32,
    pub bytes_per_row: u32,
}

/// What happens when all tiles are there.
#[derive(Clone, Copy, PartialEq, Eq, Structural, Debug)]
pub struct Completion {
    /// Texels to a side of the image.
    pub size: u32,
    /// The state that is reported.
    pub report: BakeState,
    /// The copy for the callback, where there is one.
    pub transfer: Option<Transfer>,
}

/// All tiles are there.
pub open spec fn is_complete(camera: ExtractedImposterBakeCamera, rendered: usize) -> bool {
    rendered as u32 == camera.tile_count()
}

/// The image fits a buffer.
pub open spec fn fits_buffer(camera: ExtractedImposterBakeCamera) -> bool {
    let stride = readback::aligned(camera.viewport * readback::texel_bytes());
    stride <= u32::MAX && camera.viewport * stride <= u32::MAX
}

/// What happens when all tiles of a camera are there.
pub open spec fn completion_of(camera: ExtractedImposterBakeCamera) -> Completion {
    let stride = readback::aligned(camera.viewport * readback::texel_bytes());
    Completion {
        size: camera.viewport,
        report: if camera.has_callback {
            BakeState::RunningCallback
        } else {
            BakeState::Finished
        },
        transfer: if camera.has_callback {
            Some(
                Transfer {
                    bytes: (camera.viewport * stride) as u32,
                    bytes_per_row: stride as u32,
                },
            )
        } else {
            None
        },
    }
}

/// Notes how far the camera is at the end of a frame, or forgets it and says what
/// happens when all tiles are there.
pub fn end_frame(
    camera: &ExtractedImposterBakeCamera,
    run: &BakeRun,
    part: &mut PartBaked,
) -> (completion: Option<Completion>)
    requires
        camera.wf(),
        camera.has_callback ==> fits_buffer(*camera),
    ensures
        is_complete(*camera, run.rendered) ==> {
            &&& completion == Some(completion_of(*camera))
            &&& final(part)@ == old(part)@.remove(camera.id)
        },
        !is_complete(*camera, run.rendered) ==> {
            &&& completion is None
            &&& final(part)@ == old(part)@.insert(camera.id, run.rendered)
        },
{
    part.insert(camera.id, run.rendered);
    if run.rendered as u32 != camera.grid_size * camera.grid_size {
        return None;
    }
    part.remove(camera.id);
    proof {
        assert(part@ =~= old(part)@.remove(camera.id));
    }
    let size: u32 = camera.viewport;
    if camera.has_callback {
        proof {
            assert(1 * readback::aligned(size * 8) == readback::aligned(size * 8));
        }
        let texel: u32 = pixel_size() as u32;
        let transfer: Transfer = Transfer {
            bytes: get_aligned_size(size, size, texel),
            bytes_per_row: get_aligned_size(size, 1, texel),
        };
        Some(Completion { size, report: BakeState::RunningCallback, transfer: Some(transfer) })
    } else {
        Some(Completion { size, report: BakeState::Finished, transfer: None })
    }
}

/// Where the camera is at the end of a frame, where `drawn` gives for each tile
/// how many items are drawn of it.
pub open spec fn frame_end(
    camera: ExtractedImposterBakeCamera,
    run: BakeRun,
    drawn: spec_fn(int) -> usize,
) -> BakeRun
    decreases run.budget,
{
    if goes_on(camera, run) {
        frame_end(camera, after_tile(camera, run, drawn(run.rendered as int)), drawn)
    } else {
        run
    }
}

/// How many tiles are baked at the end of a frame that begins with `rendered`.
pub open spec fn baked_by_frame(
    camera: ExtractedImposterBakeCamera,
    rendered: usize,
    drawn: spec_fn(int) -> usize,
) -> usize {
    let run = BakeRun { rendered, budget: budget_of(rendered, camera.max_tiles_per_frame) };
    frame_end(camera, run, drawn).rendered
}

/// The lesser of two numbers.
pub open spec fn lesser(a: int, b: int) -> int {
    if a <= b {
        a
    } else {
        b
    }
}

/// A frame bakes as many tiles as it may, unless the camera waits.
proof fn lemma_frame_end(
    camera: ExtractedImposterBakeCamera,
    run: BakeRun,
    drawn: spec_fn(int) -> usize,
)
    requires
        camera.wf(),
        run.rendered <= camera.tile_count(),
    ensures
        frame_end(camera, run, drawn).rendered == if must_wait(camera, run.rendered, drawn(0)) {
            run.rendered as int
        } else {
            lesser(run.rendered + run.budget, camera.tile_count())
        },
    decreases run.budget,
{
    if goes_on(camera, run) {
        let next = after_tile(camera, run, drawn(run.rendered as int));
        assert(camera.subviews@.len() == camera.tile_count());
        lemma_frame_end(camera, next, drawn);
    } else if run.rendered == 0 {
        assert(frame_end(camera, run, drawn).rendered == 0);
    }
}

/// A frame bakes no tile twice, none that does not exist, and no more than the
/// camera allows.
pub proof fn law_frame_stays_within_its_budget(
    camera: ExtractedImposterBakeCamera,
    rendered: usize,
    drawn: spec_fn(int) -> usize,
)
    requires
        camera.wf(),
        rendered <= camera.tile_count(),
    ensures
        rendered <= baked_by_frame(camera, rendered, drawn) <= camera.tile_count(),
        baked_by_frame(camera, rendered, drawn) <= rendered + camera.max_tiles_per_frame,
        rendered == 0 ==> baked_by_frame(camera, rendered, drawn) <= 1,
{
    let run = BakeRun { rendered, budget: budget_of(rendered, camera.max_tiles_per_frame) };
    lemma_frame_end(camera, run, drawn);
}

/// A camera that waits bakes nothing, and is not complete, while the first tile
/// lacks some of what is to be seen.
pub proof fn law_waits_until_all_is_drawn(
    camera: ExtractedImposterBakeCamera,
    drawn: spec_fn(int) -> usize,
)
    requires
        camera.wf(),
        camera.wait_for_render,
        drawn(0) != camera.expected_count,
        camera.grid_size > 0,
    ensures
        baked_by_frame(camera, 0, drawn) == 0,
        !is_complete(camera, 0),
{
    let run = BakeRun { rendered: 0, budget: budget_of(0, camera.max_tiles_per_frame) };
    lemma_frame_end(camera, run, drawn);
    let g = camera.grid_size as int;
    assert(g * g > 0) by (nonlinear_arith)
        requires
            g > 0,
    ;
}

/// How many tiles are baked after some frames.
pub open spec fn baked_after(
    camera: ExtractedImposterBakeCamera,
    frames: nat,
    drawn: spec_fn(int) -> usize,
) -> usize
    decreases frames,
{
    if frames == 0 {
        0
    } else {
        baked_by_frame(camera, baked_after(camera, (frames - 1) as nat, drawn), drawn)
    }
}

/// Once all can be drawn, the first frame bakes one tile and each later frame as
/// many as the camera allows, until all are there.
pub proof fn law_bake_takes_so_many_frames(
    camera: ExtractedImposterBakeCamera,
    frames: nat,
    drawn: spec_fn(int) -> usize,
)
    requires
        camera.wf(),
        camera.max_tiles_per_frame >= 1,
        !must_wait(camera, 0, drawn(0)),
        frames >= 1,
    ensures
        baked_after(camera, frames, drawn) == lesser(
            camera.tile_count(),
            1 + (frames - 1) * camera.max_tiles_per_frame,
        ),
        is_complete(camera, baked_after(camera, frames, drawn)) <==> 1 + (frames - 1)
            * camera.max_tiles_per_frame >= camera.tile_count(),
    decreases frames,
{
    let n = camera.tile_count();
    let m = camera.max_tiles_per_frame as int;
    let g = camera.grid_size as int;
    assert(0 <= g * g) by (nonlinear_arith);
    let before = baked_after(camera, (frames - 1) as nat, drawn);
    let run = BakeRun { rendered: before, budget: budget_of(before, camera.max_tiles_per_frame) };
    if frames == 1 {
        lemma_frame_end(camera, run, drawn);
        assert((frames - 1) * m == 0) by (nonlinear_arith)
            requires
                frames == 1,
        ;
    } else {
        law_bake_takes_so_many_frames(camera, (frames - 1) as nat, drawn);
        lemma_frame_end(camera, run, drawn);
        assert((frames - 1) * m == (frames - 2) * m + m && (frames - 2) * m >= 0)
            by (nonlinear_arith)
            requires
                frames >= 2,
                m >= 1,
        ;
    }
}

/// Every texel of the image of all tiles belongs to exactly one tile.
pub proof fn law_tiles_cover_the_image(camera: ExtractedImposterBakeCamera, px: int, py: int)
    requires
        camera.wf(),
        0 <= px < camera.viewport,
        0 <= py < camera.viewport,
    ensures
        exists|k: int|
            0 <= k < camera.tile_count() && #[trigger] holds_texel(
                camera,
                camera.subviews@[k],
                px,
                py,
            ),
        forall|j: int, k: int|
            0 <= j < camera.tile_count() && 0 <= k < camera.tile_count() && #[trigger] holds_texel(
                camera,
                camera.subviews@[j],
                px,
                py,
            ) && #[trigger] holds_texel(camera, camera.subviews@[k], px, py) ==> j == k,
{
    let g = camera.grid_size as int;
    let t = camera.tile_size as int;
    assert(t > 0) by (nonlinear_arith)
        requires
            0 <= px < t * g,
            0 <= t,
            0 <= g,
    ;
    let x = px / t;
    let y = py / t;
    assert(0 <= x < g && 0 <= y < g && x * t <= px < x * t + t && y * t <= py < y * t + t)
        by (nonlinear_arith)
        requires
            0 <= px < t * g,
            0 <= py < t * g,
            t > 0,
            x == px / t,
            y == py / t,
    ;
    let k = y * g + x;
    views::law_each_tile_has_one_view(camera.grid_size, false, x, y);
    views::law_each_tile_has_one_view(camera.grid_size, true, x, y);
    assert(camera.subviews@[k].x == x && camera.subviews@[k].y == y);
    assert(holds_texel(camera, camera.subviews@[k], px, py));
    assert forall|j: int| 0 <= j < camera.tile_count() && #[trigger] holds_texel(
        camera,
        camera.subviews@[j],
        px,
        py,
    ) implies j == k by {
        let a = camera.subviews@[j].x as int;
        let b = camera.subviews@[j].y as int;
        assert(a == x && b == y) by (nonlinear_arith)
            requires
                t > 0,
                a * t <= px < a * t + t,
                b * t <= py < b * t + t,
                x * t <= px < x * t + t,
                y * t <= py < y * t + t,
        ;
    }
}

/// The texel lies where the tile goes.
pub open spec fn holds_texel(
    camera: ExtractedImposterBakeCamera,
    tile: Subview,
    px: int,
    py: int,
) -> bool {
    &&& tile.x * camera.tile_size <= px < tile.x * camera.tile_size + camera.tile_size
    &&& tile.y * camera.tile_size <= py < tile.y * camera.tile_size + camera.tile_size
}

/// Once all that is to be seen is drawn of the first tile, or where the camera does not
/// wait for it, the bake goes through: its first frame bakes one tile, and each later
/// frame as many as the camera allows, whatever is drawn of the other tiles.
pub proof fn law_goes_through_once_all_is_drawn(
    camera: ExtractedImposterBakeCamera,
    frames: nat,
    drawn: spec_fn(int) -> usize,
)
    requires
        camera.wf(),
        camera.max_tiles_per_frame >= 1,
        drawn(0) == camera.expected_count || !camera.wait_for_render,
        frames >= 1,
    ensures
        baked_after(camera, frames, drawn) == lesser(
            camera.grid_size * camera.grid_size,
            1 + (frames - 1) * camera.max_tiles_per_frame,
        ),
{
    law_bake_takes_so_many_frames(camera, frames, drawn);
}

/// The texels that tile `k` goes to are those whose column and row of tiles, counted
/// row by row, give the number of the tile.
pub proof fn law_tiles_go_where_they_are_counted(
    camera: ExtractedImposterBakeCamera,
    k: int,
    v: Viewport,
    px: int,
    py: int,
)
    requires
        camera.wf(),
        0 <= k < camera.tile_count(),
        is_viewport(camera, camera.subviews@[k], v),
        0 <= px < camera.grid_size * camera.tile_size,
        0 <= py < camera.grid_size * camera.tile_size,
    ensures
        v.size == camera.tile_size,
        v.x <= px < v.x + v.size && v.y <= py < v.y + v.size <==> k == (py
            / camera.tile_size as int) * camera.grid_size + px / camera.tile_size as int,
{
    let g = camera.grid_size as int;
    let t = camera.tile_size as int;
    let x = px / t;
    let y = py / t;
    assert(t * g == g * t) by (nonlinear_arith);
    assert(t > 0) by (nonlinear_arith)
        requires
            0 <= px < g * t,
            0 <= t,
            0 <= g,
    ;
    assert(0 <= x < g && 0 <= y < g && x * t <= px < x * t + t && y * t <= py < y * t + t)
        by (nonlinear_arith)
        requires
            0 <= px < g * t,
            0 <= py < g * t,
            t > 0,
            x == px / t,
            y == py / t,
    ;
    views::law_each_tile_has_one_view(camera.grid_size, false, x, y);
    views::law_each_tile_has_one_view(camera.grid_size, true, x, y);
    let a = camera.subviews@[k].x as int;
    let b = camera.subviews@[k].y as int;
    if v.x <= px < v.x + v.size && v.y <= py < v.y + v.size {
        assert(a == x && b == y) by (nonlinear_arith)
            requires
                t > 0,
                a * t <= px < a * t + t,
                b * t <= py < b * t + t,
                x * t <= px < x * t + t,
                y * t <= py < y * t + t,
        ;
    }
}

/// When all tiles are there, the image is as large as all of them. With a callback the
/// bake goes on to run it, and the image is copied row by row to a buffer whose rows hold
/// eight bytes for each texel and start at multiples of 256; without one it is finished.
pub proof fn law_completion_of_a_bake(camera: ExtractedImposterBakeCamera)
    requires
        camera.wf(),
        camera.has_callback ==> fits_buffer(camera),
    ensures
        ({
            let done = completion_of(camera);
            &&& done.size == camera.grid_size * camera.tile_size
            &&& camera.has_callback <==> done.transfer is Some
            &&& camera.has_callback ==> done.report == BakeState::RunningCallback
            &&& !camera.has_callback ==> done.report == BakeState::Finished
            &&& done.transfer matches Some(t) ==> {
                &&& t.bytes == done.size * t.bytes_per_row
                &&& t.bytes_per_row % 256 == 0
                &&& 8 * done.size < t.bytes_per_row <= 8 * done.size + 256
            }
        }),
{
    assert(camera.tile_size * camera.grid_size == camera.grid_size * camera.tile_size)
        by (nonlinear_arith);
}

/// A frame knows what the last one left: the tiles that were there when it ended are
/// there when the next one begins. After the last tile the count starts anew.
pub proof fn law_frames_take_up_where_the_last_ended(
    camera: ExtractedImposterBakeCamera,
    rendered: usize,
    part: PartBaked,
    run: BakeRun,
)
    requires
        camera.wf(),
        rendered <= u32::MAX,
        call_ensures(begin_frame, (&camera, &part), run),
    ensures
        rendered != camera.grid_size * camera.grid_size && part@.contains_key(camera.id)
            && part@[camera.id] == rendered ==> run.rendered == rendered && !is_complete(
            camera,
            rendered,
        ),
        rendered == camera.grid_size * camera.grid_size ==> is_complete(camera, rendered),
        !part@.contains_key(camera.id) ==> run.rendered == 0,
        run.rendered > 0 ==> run.budget == camera.max_tiles_per_frame,
        run.rendered == 0 ==> run.budget == lesser(1, camera.max_tiles_per_frame as int),
{
}

} // verus!
