use boimp::bake::part_baked::{BakingCameras, PartBaked};
use boimp::bake::pipeline::{specialize, ShaderDef, VertexAttribute};
use boimp::bake::progress::{
    begin_frame, end_frame, next_tile, tile_drawn, BakeRun, Completion, Transfer, Viewport,
};
use boimp::bake::queue::{
    bake_key, phase_of, queue_imposter_material_meshes, AlphaMode, MeshCandidate, Phase, QueuedMesh,
};
use boimp::bake::views::{
    count_expected_imposter_materials, is_seen, make_subviews, BakeCandidate, ListChange, Sighting,
    Subview, ViewPlace,
};
use boimp::bake::{
    align_byte_size, check_imposter_visibility, copy_back, extract_imposter_cameras,
    get_aligned_size, prepare_imposter_textures, BakeDims, BakeState, BlitUniform,
    ExtractedImposterBakeCamera, ImposterBakeCamera,
};
use boimp::grid::GridMode;

use bevy::pbr::MeshPipelineKey;

fn candidate(id: u64, grid_size: u32, tile_size: u32) -> BakeCandidate {
    BakeCandidate {
        id,
        camera: ImposterBakeCamera { grid_size, tile_size, ..Default::default() },
        expected_count: 3,
        report_waiting: false,
        has_callback: false,
    }
}

fn extract_one(c: BakeCandidate) -> ExtractedImposterBakeCamera {
    let mut part = PartBaked::new();
    let (mut cameras, _) = extract_imposter_cameras(&vec![c], &mut part);
    assert_eq!(cameras.len(), 1);
    cameras.remove(0)
}

#[test]
fn default_camera() {
    let camera = ImposterBakeCamera::default();
    assert_eq!(camera.grid_size, 8);
    assert_eq!(camera.tile_size, 64);
    assert_eq!(camera.multisample, 8);
    assert_eq!(camera.grid_mode, GridMode::Spherical);
    assert_eq!(camera.order, -99);
    assert!(!camera.continuous);
    assert!(camera.wait_for_render);
    assert_eq!(camera.max_tiles_per_frame, usize::MAX);
    assert_eq!(camera.state, BakeState::Rendering);
    assert_eq!(camera.manual_views, None);
    assert_eq!(camera.target_size(), 512);
}

#[test]
fn reports_move_the_state_unless_continuous() {
    let mut camera = ImposterBakeCamera::default();
    assert!(!camera.check_finished(&vec![]));
    assert_eq!(camera.state, BakeState::Rendering);
    assert!(!camera.check_finished(&vec![BakeState::RunningCallback]));
    assert_eq!(camera.state, BakeState::RunningCallback);
    assert!(camera.check_finished(&vec![BakeState::RunningCallback, BakeState::Finished]));
    assert_eq!(camera.state, BakeState::Finished);

    let mut camera = ImposterBakeCamera { continuous: true, ..Default::default() };
    assert!(!camera.check_finished(&vec![BakeState::Finished]));
    assert_eq!(camera.state, BakeState::Rendering);
}

#[test]
fn a_finished_camera_ends_the_round() {
    let fresh = ImposterBakeCamera::default();
    let done = ImposterBakeCamera { state: BakeState::Finished, ..fresh };
    let again = ImposterBakeCamera { continuous: true, ..done };
    assert_eq!(
        check_imposter_visibility(&vec![fresh, again, done, fresh, done]),
        vec![
            ListChange::Filled,
            ListChange::Filled,
            ListChange::Cleared,
            ListChange::Kept,
            ListChange::Kept,
        ]
    );
}

#[test]
fn what_a_camera_sees() {
    let near = Sighting {
        shown: true,
        shares_layer: true,
        never_culled: false,
        sees_everywhere: false,
        out_of_reach: Some(false),
    };
    assert!(is_seen(&near));
    assert!(!is_seen(&Sighting { shown: false, ..near }));
    assert!(!is_seen(&Sighting { shares_layer: false, ..near }));
    let far = Sighting { out_of_reach: Some(true), ..near };
    assert!(!is_seen(&far));
    assert!(is_seen(&Sighting { never_culled: true, ..far }));
    assert!(is_seen(&Sighting { sees_everywhere: true, ..far }));
    assert!(is_seen(&Sighting { out_of_reach: None, ..near }));
}

#[test]
fn expected_materials_add_up() {
    let total = count_expected_imposter_materials(0, &vec![true, false, true]);
    assert_eq!(total, 2);
    assert_eq!(count_expected_imposter_materials(total, &vec![false, true, false]), 3);
    assert_eq!(count_expected_imposter_materials(5, &vec![]), 5);
}

#[test]
fn one_view_for_each_tile() {
    let views = make_subviews(2, false);
    let at = |x, y, index| Subview { x, y, index, place: ViewPlace::Grid };
    assert_eq!(views, vec![at(0, 0, 0), at(1, 0, 1), at(0, 1, 2), at(1, 1, 3)]);
    let views = make_subviews(3, true);
    assert_eq!(views.len(), 9);
    assert_eq!(views[5], Subview { x: 2, y: 1, index: 5, place: ViewPlace::Manual(5) });
    assert!(make_subviews(0, false).is_empty());
}

#[test]
fn cameras_that_bake_are_extracted() {
    let wanted = BakeCandidate { has_callback: true, ..candidate(7, 2, 16) };
    let mut callback = candidate(8, 2, 16);
    callback.camera.state = BakeState::RunningCallback;
    let waiting = BakeCandidate { report_waiting: true, ..candidate(9, 2, 16) };
    let mut manual = candidate(10, 1, 8);
    manual.camera.manual_views = Some(1);

    let mut part = PartBaked::new();
    part.insert(7, 3);
    part.insert(8, 2);
    part.insert(9, 1);
    let (extracted, cameras) =
        extract_imposter_cameras(&vec![wanted, callback, waiting, manual], &mut part);

    assert_eq!(extracted.len(), 2);
    assert_eq!(extracted[0].id, 7);
    assert_eq!(extracted[0].viewport, 32);
    assert_eq!(extracted[0].multisample, 8);
    assert_eq!(extracted[0].order, -99);
    assert_eq!(extracted[0].subviews.len(), 4);
    assert_eq!(extracted[0].expected_count, 3);
    assert!(extracted[0].has_callback);
    assert_eq!(extracted[1].id, 10);
    assert_eq!(extracted[1].subviews[0].place, ViewPlace::Manual(0));
    assert!(cameras.contains(7) && cameras.contains(10));
    assert!(!cameras.contains(8) && !cameras.contains(9));
    assert_eq!((part.get(7), part.get(8), part.get(9)), (3, 0, 0));
}

#[test]
fn part_baked_remembers_by_camera() {
    let mut part = PartBaked::default();
    assert_eq!(part.get(1), 0);
    part.insert(1, 4);
    part.insert(2, 5);
    part.insert(1, 6);
    assert_eq!((part.get(1), part.get(2)), (6, 5));
    let mut cameras = BakingCameras::new();
    cameras.insert(2);
    part.retain(&cameras);
    assert_eq!((part.get(1), part.get(2)), (0, 5));
    part.remove(2);
    assert_eq!(part.get(2), 0);
}

#[test]
fn bake_sizes() {
    let sizes = prepare_imposter_textures(&extract_one(candidate(1, 4, 16)));
    assert_eq!(sizes.output, 64);
    assert_eq!(sizes.tile_render, 128);
    assert_eq!(sizes.buffer_bytes, 131072);
    assert_eq!(sizes.dims, BakeDims { width: 128 });
    assert_eq!(sizes.blit, BlitUniform { samples: 8, pad_0: 0, pad_1: 0, pad_2: 0 });
}

/// Runs one frame in which every tile draws `drawn` items.
fn frame(
    camera: &ExtractedImposterBakeCamera,
    part: &mut PartBaked,
    drawn: usize,
) -> (Vec<Viewport>, Option<Completion>) {
    let mut run = begin_frame(camera, part);
    let mut tiles = Vec::new();
    while next_tile(camera, &run).is_some() {
        if let Some(viewport) = tile_drawn(camera, &mut run, drawn) {
            tiles.push(viewport);
        }
    }
    (tiles, end_frame(camera, &run, part))
}

#[test]
fn a_bake_waits_until_all_is_drawn() {
    let camera = extract_one(candidate(1, 2, 16));
    let mut part = PartBaked::new();
    for _ in 0..3 {
        assert_eq!(frame(&camera, &mut part, 2), (vec![], None));
        assert_eq!(part.get(1), 0);
    }
    let (tiles, done) = frame(&camera, &mut part, 3);
    assert_eq!(tiles, vec![Viewport { x: 0, y: 0, size: 16 }]);
    assert_eq!(done, None);
    // Later tiles may draw less.
    let (tiles, done) = frame(&camera, &mut part, 0);
    assert_eq!(
        tiles,
        vec![
            Viewport { x: 16, y: 0, size: 16 },
            Viewport { x: 0, y: 16, size: 16 },
            Viewport { x: 16, y: 16, size: 16 },
        ]
    );
    assert_eq!(
        done,
        Some(Completion { size: 32, report: BakeState::Finished, transfer: None })
    );
    assert_eq!(part.get(1), 0);
}

#[test]
fn a_bake_that_does_not_wait_begins_at_once() {
    let mut c = candidate(1, 1, 16);
    c.camera.wait_for_render = false;
    c.has_callback = true;
    let (tiles, done) = frame(&extract_one(c), &mut PartBaked::new(), 0);
    assert_eq!(tiles.len(), 1);
    assert_eq!(
        done,
        Some(Completion {
            size: 16,
            report: BakeState::RunningCallback,
            transfer: Some(Transfer { bytes: 16 * 256, bytes_per_row: 256 }),
        })
    );
}

#[test]
fn a_bake_takes_as_many_frames_as_its_budget_asks() {
    let mut c = candidate(1, 4, 8);
    c.camera.max_tiles_per_frame = 4;
    let camera = extract_one(c);
    let mut part = PartBaked::new();
    let mut counts = Vec::new();
    loop {
        let (tiles, done) = frame(&camera, &mut part, 3);
        counts.push(tiles.len());
        if done.is_some() {
            break;
        }
    }
    assert_eq!(counts, vec![1, 4, 4, 4, 3]);
}

#[test]
fn a_budget_of_nothing_bakes_nothing() {
    let mut c = candidate(1, 2, 8);
    c.camera.max_tiles_per_frame = 0;
    let camera = extract_one(c);
    let part = PartBaked::new();
    let run = begin_frame(&camera, &part);
    assert_eq!(run, BakeRun { rendered: 0, budget: 0 });
    assert_eq!(next_tile(&camera, &run), None);
}

#[test]
fn every_texel_has_one_tile() {
    let mut c = candidate(1, 3, 4);
    c.camera.wait_for_render = false;
    let camera = extract_one(c);
    let mut part = PartBaked::new();
    let mut hits = vec![0; 144];
    loop {
        let (tiles, done) = frame(&camera, &mut part, 0);
        for v in tiles {
            for y in v.y..v.y + v.size {
                for x in v.x..v.x + v.size {
                    hits[(y * 12 + x) as usize] += 1;
                }
            }
        }
        if done.is_some() {
            break;
        }
    }
    assert_eq!(hits, vec![1; 144]);
}

#[test]
fn rows_are_padded() {
    assert_eq!(align_byte_size(0), 256);
    assert_eq!(align_byte_size(1), 256);
    assert_eq!(align_byte_size(255), 256);
    assert_eq!(align_byte_size(256), 512);
    assert_eq!(align_byte_size(300), 512);
    assert_eq!(get_aligned_size(10, 3, 8), 768);
    assert_eq!(get_aligned_size(32, 2, 8), 1024);
    assert_eq!(align_byte_size(100) % wgpu::COPY_BYTES_PER_ROW_ALIGNMENT, 0);
}

#[test]
fn padding_is_taken_out() {
    let size = 3u32;
    let image: Vec<u8> = (0..72).collect();
    let stride = get_aligned_size(size, 1, 8) as usize;
    let mut buffer = vec![255u8; get_aligned_size(size, size, 8) as usize];
    for y in 0..3 {
        buffer[y * stride..y * stride + 24].copy_from_slice(&image[y * 24..y * 24 + 24]);
    }
    let back = copy_back(buffer, size);
    assert_eq!((back.width, back.height), (3, 3));
    assert_eq!(back.data, image);
}

#[test]
fn a_dense_buffer_is_taken_as_it_is() {
    let image: Vec<u8> = (0..32).collect();
    assert_eq!(copy_back(image.clone(), 2).data, image);
    assert!(copy_back(vec![], 0).data.is_empty());
}

fn names(defs: &[ShaderDef]) -> Vec<&str> {
    defs.iter()
        .map(|d| match d {
            ShaderDef::Bool(name, true) => name.as_str(),
            ShaderDef::Bool(_, false) => "(off)",
            ShaderDef::Int(name, _) => name.as_str(),
            ShaderDef::UInt(name, _) => name.as_str(),
        })
        .collect()
}

const COMMON: [&str; 7] = [
    "IMPOSTER_BAKE_PIPELINE",
    "PREPASS_FRAGMENT",
    "DEFERRED_PREPASS",
    "NORMAL_PREPASS_OR_DEFERRED_PREPASS",
    "VIEW_PROJECTION_ORTHOGRAPHIC",
    "VERTEX_OUTPUT_INSTANCE_INDEX",
    "VERTEX_NORMALS",
];

#[test]
fn prepass_definitions_are_replaced() {
    let vertex = vec![
        ShaderDef::Bool("DEPTH_PREPASS".to_string(), true),
        ShaderDef::Bool("SKINNED".to_string(), true),
        ShaderDef::Int("DEPTH_PREPASS".to_string(), 1),
        ShaderDef::Bool("NORMAL_PREPASS".to_string(), false),
    ];
    let fragment = vec![
        ShaderDef::Bool("MOTION_VECTOR_PREPASS".to_string(), true),
        ShaderDef::UInt("MAX".to_string(), 4),
    ];
    let shaders = specialize(vertex, Some(fragment), true);
    let mut expected = vec!["SKINNED", "DEPTH_PREPASS"];
    expected.extend(COMMON);
    expected.extend(["VERTEX_TANGENTS", "VERTEX_TANGENTS"]);
    assert_eq!(names(&shaders.vertex_defs), expected);
    let mut expected = vec!["MAX"];
    expected.extend(COMMON);
    assert_eq!(names(&shaders.fragment_defs), expected);
    assert_eq!(
        shaders.attributes,
        vec![(VertexAttribute::Normal, 3), (VertexAttribute::Tangent, 4)]
    );
}

#[test]
fn a_pipeline_without_fragment_shader_gets_one() {
    let shaders = specialize(vec![], None, false);
    assert_eq!(names(&shaders.vertex_defs), COMMON);
    assert_eq!(names(&shaders.fragment_defs), COMMON);
    assert_eq!(shaders.attributes, vec![(VertexAttribute::Normal, 3)]);
}

fn mesh(alpha: AlphaMode) -> MeshCandidate {
    MeshCandidate {
        has_material: true,
        has_mesh: true,
        mesh_bits: Some(MeshPipelineKey::MORPH_TARGETS.bits()),
        same_type: true,
        alpha: Some(alpha),
        resident: true,
    }
}

#[test]
fn pipeline_keys_are_those_of_the_renderer() {
    let base = MeshPipelineKey::MORPH_TARGETS;
    let cases = [
        (AlphaMode::Opaque, MeshPipelineKey::NONE),
        (AlphaMode::Mask, MeshPipelineKey::MAY_DISCARD),
        (AlphaMode::Blend, MeshPipelineKey::BLEND_ALPHA),
        (AlphaMode::Premultiplied, MeshPipelineKey::BLEND_PREMULTIPLIED_ALPHA),
        (AlphaMode::AlphaToCoverage, MeshPipelineKey::MAY_DISCARD),
        (AlphaMode::Add, MeshPipelineKey::BLEND_PREMULTIPLIED_ALPHA),
        (AlphaMode::Multiply, MeshPipelineKey::BLEND_MULTIPLY),
    ];
    for (alpha, bits) in cases {
        assert_eq!(mesh(alpha).pipeline_key(), Some((base | bits).bits()));
    }
}

#[test]
fn phases_follow_the_key() {
    let of = |key: MeshPipelineKey| phase_of(key.bits());
    assert_eq!(of(MeshPipelineKey::HDR), Phase::Opaque);
    assert_eq!(of(MeshPipelineKey::BLEND_ALPHA_TO_COVERAGE), Phase::Opaque);
    assert_eq!(of(MeshPipelineKey::MAY_DISCARD | MeshPipelineKey::HDR), Phase::AlphaMask);
    assert_eq!(of(MeshPipelineKey::BLEND_ALPHA), Phase::Transparent);
    assert_eq!(of(MeshPipelineKey::BLEND_MULTIPLY), Phase::Transparent);
    assert_eq!(
        of(MeshPipelineKey::BLEND_ALPHA_TO_COVERAGE | MeshPipelineKey::MAY_DISCARD),
        Phase::Transparent
    );
    assert_eq!(bake_key(1), (MeshPipelineKey::HDR | MeshPipelineKey::MAY_DISCARD).bits());
}

#[test]
fn meshes_that_are_ready_are_queued() {
    let ready = mesh(AlphaMode::Blend);
    let candidates = vec![
        mesh(AlphaMode::Opaque),
        MeshCandidate { has_material: false, ..ready },
        MeshCandidate { has_mesh: false, ..ready },
        MeshCandidate { mesh_bits: None, ..ready },
        MeshCandidate { same_type: false, ..ready },
        MeshCandidate { alpha: None, ..ready },
        MeshCandidate { resident: false, ..ready },
        mesh(AlphaMode::Mask),
        ready,
        ready,
    ];
    // The last pipeline does not compile.
    let queue = queue_imposter_material_meshes(&candidates, |i, _| {
        if i < 9 {
            Some(100 + i)
        } else {
            None
        }
    });
    assert_eq!(
        queue,
        vec![
            QueuedMesh { entity: 0, pipeline: 100, phase: Phase::Opaque },
            QueuedMesh { entity: 7, pipeline: 107, phase: Phase::AlphaMask },
            QueuedMesh { entity: 8, pipeline: 108, phase: Phase::Transparent },
        ]
    );
}
