//! Which meshes a bake draws, and in which phase.

use bevy::pbr::{alpha_mode_pipeline_key, MeshPipelineKey};
use bevy::prelude::Msaa;
use vstd::prelude::*;

verus! {

/// How a material treats its alpha.
#[derive(Clone, Copy, PartialEq, Eq, Structural, Debug)]
pub enum AlphaMode {
    Opaque,
    Mask,
    Blend,
    Premultiplied,
    AlphaToCoverage,
    Add,
    Multiply,
}

/// The bit of a pipeline key for fragments that may be dropped.
pub open spec fn may_discard() -> u64 {
    0x80
}

/// The bits of a pipeline key that say how fragments are blended.
pub open spec fn blend_reserved() -> u64 {
    0x0e00_0000
}

/// Fragments are not blended.
pub open spec fn blend_opaque() -> u64 {
    0
}

/// Fragments cover as many samples as their alpha says.
pub open spec fn blend_alpha_to_coverage() -> u64 {
    0x0800_0000
}

/// The bits of a pipeline key that a material without multisampling asks for.
pub open spec fn alpha_bits(mode: AlphaMode) -> u64 {
    match mode {
        AlphaMode::Opaque => 0,
        AlphaMode::Mask => 0x80,
        AlphaMode::Blend => 0x0600_0000,
        AlphaMode::Premultiplied => 0x0200_0000,
        AlphaMode::AlphaToCoverage => 0x80,
        AlphaMode::Add => 0x0200_0000,
        AlphaMode::Multiply => 0x0400_0000,
    }
}

/// `MeshPipelineKey::MAY_DISCARD`, bit 7.
#[verifier::external_body]
fn may_discard_bit() -> (bits: u64)
    ensures
        bits == may_discard(),
{
    MeshPipelineKey::MAY_DISCARD.bits()
}

/// `MeshPipelineKey::BLEND_RESERVED_BITS`, bits 25 to 27.
#[verifier::external_body]
fn blend_reserved_bits() -> (bits: u64)
    ensures
        bits == blend_reserved(),
{
    MeshPipelineKey::BLEND_RESERVED_BITS.bits()
}

/// `MeshPipelineKey::BLEND_OPAQUE`, no bit.
#[verifier::external_body]
fn blend_opaque_bits() -> (bits: u64)
    ensures
        bits == blend_opaque(),
{
    MeshPipelineKey::BLEND_OPAQUE.bits()
}

/// `MeshPipelineKey::BLEND_ALPHA_TO_COVERAGE`, bit 27.
#[verifier::external_body]
fn blend_alpha_to_coverage_bits() -> (bits: u64)
    ensures
        bits == blend_alpha_to_coverage(),
{
    MeshPipelineKey::BLEND_ALPHA_TO_COVERAGE.bits()
}

/// `MeshPipelineKey::from_msaa_samples` of one sample: the logarithm of the
/// number of samples, shifted, which is no bit.
#[verifier::external_body]
fn single_sample_bits() -> (bits: u64)
    ensures
        bits == 0,
{
    MeshPipelineKey::from_msaa_samples(1).bits()
}

/// `alpha_mode_pipeline_key` without multisampling. The threshold of a mask does
/// not matter to it.
#[verifier::external_body]
fn alpha_mode_bits(mode: AlphaMode) -> (bits: u64)
    ensures
        bits == alpha_bits(mode),
{
    let mode = match mode {
        AlphaMode::Opaque => bevy::prelude::AlphaMode::Opaque,
        AlphaMode::Mask => bevy::prelude::AlphaMode::Mask(Default::default()),
        AlphaMode::Blend => bevy::prelude::AlphaMode::Blend,
        AlphaMode::Premultiplied => bevy::prelude::AlphaMode::Premultiplied,
        AlphaMode::AlphaToCoverage => bevy::prelude::AlphaMode::AlphaToCoverage,
        AlphaMode::Add => bevy::prelude::AlphaMode::Add,
        AlphaMode::Multiply => bevy::prelude::AlphaMode::Multiply,
    };
    alpha_mode_pipeline_key(mode, &Msaa::Off).bits()
}

/// When a mesh is drawn.
#[derive(Clone, Copy, PartialEq, Eq, Structural, Debug)]
pub enum Phase {
    Opaque,
    AlphaMask,
    Transparent,
}

/// When a mesh with this pipeline key is drawn.
pub open spec fn phase_spec(key: u64) -> Phase {
    let pass = key & (blend_reserved() | may_discard());
    if pass == blend_opaque() || pass == blend_alpha_to_coverage() {
        Phase::Opaque
    } else if pass == may_discard() {
        Phase::AlphaMask
    } else {
        Phase::Transparent
    }
}

/// When a mesh with this pipeline key is drawn.
pub fn phase_of(key: u64) -> (phase: Phase)
    ensures
        phase == phase_spec(key),
{
    let pass: u64 = key & (blend_reserved_bits() | may_discard_bit());
    if pass == blend_opaque_bits() || pass == blend_alpha_to_coverage_bits() {
        Phase::Opaque
    } else if pass == may_discard_bit() {
        Phase::AlphaMask
    } else {
        Phase::Transparent
    }
}

/// The key that a pipeline is asked for with: fragments may always be dropped, so
/// that there is always a fragment shader.
pub fn bake_key(key: u64) -> (forced: u64)
    ensures
        forced == key | may_discard(),
{
    key | may_discard_bit()
}

/// What is known of an entity that a camera sees.
#[derive(Clone, Copy, PartialEq, Eq, Structural, Debug)]
pub struct MeshCandidate {
    /// The entity has a material.
    pub has_material: bool,
    /// The entity has a mesh.
    pub has_mesh: bool,
    /// The bits of the pipeline key that its mesh asks for, once the mesh is there.
    pub mesh_bits: Option<u64>,
    /// The material is of the type that is dealt with.
    pub same_type: bool,
    /// How the material treats its alpha, once it is prepared.
    pub alpha: Option<AlphaMode>,
    /// What the material binds is there.
    pub resident: bool,
}

impl MeshCandidate {
    /// The mesh and the material are there.
    pub open spec fn is_ready(self) -> bool {
        self.has_material && self.has_mesh && self.mesh_bits is Some && self.same_type
            && self.alpha is Some && self.resident
    }

    /// The pipeline key of a mesh that is ready.
    pub open spec fn key(self) -> u64 {
        self.mesh_bits->0 | alpha_bits(self.alpha->0)
    }

    /// The pipeline key, where the mesh and the material are there.
    pub fn pipeline_key(&self) -> (key: Option<u64>)
        ensures
            key == (if self.is_ready() {
                Some(self.key())
            } else {
                None
            }),
    {
        if !self.has_material || !self.has_mesh {
            return None;
        }
        let mesh_bits: u64 = match self.mesh_bits {
            Some(bits) => bits,
            None => {
                return None;
            },
        };
        if !self.same_type {
            return None;
        }
        let alpha: AlphaMode = match self.alpha {
            Some(alpha) => alpha,
            None => {
                return None;
            },
        };
        if !self.resident {
            return None;
        }
        let view_bits: u64 = single_sample_bits();
        proof {
            assert(0u64 | mesh_bits == mesh_bits) by (bit_vector);
        }
        Some(view_bits | mesh_bits | alpha_mode_bits(alpha))
    }
}

/// A mesh to draw.
#[derive(Clone, Copy, PartialEq, Eq, Structural, Debug)]
pub struct QueuedMesh {
    /// Which of the entities it is.
    pub entity: usize,
    /// The pipeline that draws it.
    pub pipeline: usize,
    pub phase: Phase,
}

/// The meshes to draw, where `pipelines` gives the pipeline of each entity that
/// is ready and has one.
pub open spec fn queue_of(
    candidates: Seq<MeshCandidate>,
    pipelines: Seq<Option<usize>>,
) -> Seq<QueuedMesh>
    decreases candidates.len(),
{
    if candidates.len() == 0 {
        seq![]
    } else {
        let last = candidates.last();
        let before = queue_of(candidates.drop_last(), pipelines.drop_last());
        match pipelines.last() {
            Some(pipeline) if last.is_ready() => before.push(
                QueuedMesh {
                    entity: (candidates.len() - 1) as usize,
                    pipeline,
                    phase: phase_spec(last.key()),
                },
            ),
            _ => before,
        }
    }
}

/// `pipelines` holds what `specialize` gave for each entity that is ready.
pub open spec fn are_pipelines<S: Fn(usize, u64) -> Option<usize>>(
    candidates: Seq<MeshCandidate>,
    specialize: S,
    pipelines: Seq<Option<usize>>,
) -> bool {
    &&& pipelines.len() == candidates.len()
    &&& forall|i: int|
        0 <= i < candidates.len() && (#[trigger] candidates[i]).is_ready() ==> call_ensures(
            specialize,
            (i as usize, candidates[i].key()),
            pipelines[i],
        )
}

/// The meshes to draw: those that are ready and for which `specialize` has a
/// pipeline, in order.
pub fn queue_imposter_material_meshes<S: Fn(usize, u64) -> Option<usize>>(
    candidates: &Vec<MeshCandidate>,
    specialize: S,
) -> (queue: Vec<QueuedMesh>)
    requires
        forall|i: usize, key: u64| #[trigger] call_requires(specialize, (i, key)),
    ensures
        exists|pipelines: Seq<Option<usize>>| #[trigger]
            are_pipelines(candidates@, specialize, pipelines) && queue@ == queue_of(
                candidates@,
                pipelines,
            ),
{
    let mut queue: Vec<QueuedMesh> = Vec::new();
    let ghost mut pipelines: Seq<Option<usize>> = seq![];
    let mut i: usize = 0;
    while i < candidates.len()
        invariant
            i <= candidates@.len(),
            forall|j: usize, key: u64| #[trigger] call_requires(specialize, (j, key)),
            are_pipelines(candidates@.take(i as int), specialize, pipelines),
            queue@ == queue_of(candidates@.take(i as int), pipelines),
        decreases candidates@.len() - i,
    {
        let ghost before = pipelines;
        let ghost seen = candidates@.take(i as int);
        let ghost next = candidates@.take(i + 1);
        proof {
            assert(next.drop_last() =~= seen);
            assert(next.last() == candidates@[i as int]);
        }
        let mut pipeline: Option<usize> = None;
        if let Some(key) = candidates[i].pipeline_key() {
            pipeline = specialize(i, key);
            if let Some(id) = pipeline {
                queue.push(QueuedMesh { entity: i, pipeline: id, phase: phase_of(key) });
            }
        }
        proof {
            pipelines = before.push(pipeline);
            assert(pipelines.drop_last() =~= before);
            assert forall|k: int| 0 <= k < next.len() && (#[trigger] next[k]).is_ready() implies
                call_ensures(specialize, (k as usize, next[k].key()), pipelines[k]) by {
                if k < i {
                    assert(seen[k] == next[k]);
                    assert(seen[k].is_ready());
                }
            }
        }
        i += 1;
    }
    proof {
        assert(candidates@.take(i as int) =~= candidates@);
    }
    queue
}

/// Without multisampling, a mesh whose own bits say nothing of blending is drawn
/// in the phase that the alpha of its material asks for.
pub proof fn law_alpha_decides_the_phase(mesh_bits: u64, mode: AlphaMode)
    requires
        mesh_bits & (blend_reserved() | may_discard()) == 0,
    ensures
        phase_spec(mesh_bits | alpha_bits(mode)) == match mode {
            AlphaMode::Opaque => Phase::Opaque,
            AlphaMode::Mask => Phase::AlphaMask,
            AlphaMode::AlphaToCoverage => Phase::AlphaMask,
            _ => Phase::Transparent,
        },
{
    let mode_bits = alpha_bits(mode);
    assert((mesh_bits | mode_bits) & (0x0e00_0000u64 | 0x80) == mode_bits & (0x0e00_0000u64 | 0x80))
        by (bit_vector)
        requires
            mesh_bits & (0x0e00_0000u64 | 0x80) == 0,
    ;
    assert(0u64 & (0x0e00_0000u64 | 0x80) == 0 && 0x80u64 & (0x0e00_0000u64 | 0x80) == 0x80
        && 0x0600_0000u64 & (0x0e00_0000u64 | 0x80) == 0x0600_0000 && 0x0200_0000u64 & (
    0x0e00_0000u64 | 0x80) == 0x0200_0000 && 0x0400_0000u64 & (0x0e00_0000u64 | 0x80)
        == 0x0400_0000) by (bit_vector);
}

/// A mesh in the queue is one that is ready and has a pipeline, drawn by it in the phase
/// that its key asks for; and each such mesh is in the queue, once, in the order of the
/// entities.
pub proof fn law_the_queue_holds_what_is_ready(
    candidates: Seq<MeshCandidate>,
    pipelines: Seq<Option<usize>>,
)
    requires
        pipelines.len() == candidates.len(),
        candidates.len() <= usize::MAX,
    ensures
        forall|q: int|
            0 <= q < queue_of(candidates, pipelines).len() ==> is_queued(
                candidates,
                pipelines,
                #[trigger] queue_of(candidates, pipelines)[q],
            ),
        forall|p: int, q: int|
            0 <= p < q < queue_of(candidates, pipelines).len() ==> (#[trigger] queue_of(
                candidates,
                pipelines,
            )[p]).entity < (#[trigger] queue_of(candidates, pipelines)[q]).entity,
        forall|i: int|
            0 <= i < candidates.len() && (#[trigger] candidates[i]).is_ready() && pipelines[i] is Some
                ==> exists|q: int|
                0 <= q < queue_of(candidates, pipelines).len() && (#[trigger] queue_of(
                    candidates,
                    pipelines,
                )[q]).entity == i,
    decreases candidates.len(),
{
    if candidates.len() > 0 {
        let n = candidates.len() - 1;
        let c = candidates.drop_last();
        let p = pipelines.drop_last();
        assert(0x0e00_0000u64 | 0x80 == 0x0e00_0080) by (bit_vector);
        law_the_queue_holds_what_is_ready(c, p);
        let before = queue_of(c, p);
        let now = queue_of(candidates, pipelines);
        assert(candidates[n] == candidates.last() && pipelines[n] == pipelines.last());
        assert forall|q: int| 0 <= q < before.len() implies now[q] == before[q] by {}
        assert forall|q: int| 0 <= q < now.len() implies is_queued(
            candidates,
            pipelines,
            #[trigger] now[q],
        ) by {
            if q < before.len() {
                assert(is_queued(c, p, before[q]));
                let e = before[q].entity as int;
                assert(c[e] == candidates[e] && p[e] == pipelines[e]);
            }
        }
        assert forall|a: int, b: int| 0 <= a < b < now.len() implies (#[trigger] now[a]).entity < (
        #[trigger] now[b]).entity by {
            assert(is_queued(c, p, before[a]));
        }
        assert forall|i: int|
            0 <= i < candidates.len() && (#[trigger] candidates[i]).is_ready() && pipelines[i] is Some
            implies exists|q: int| 0 <= q < now.len() && (#[trigger] now[q]).entity == i by {
            if i < n {
                assert(c[i] == candidates[i] && p[i] == pipelines[i]);
                let q = choose|q: int| 0 <= q < before.len() && (#[trigger] before[q]).entity == i;
                assert(now[q].entity == i);
            } else {
                assert(now[now.len() - 1].entity == i);
            }
        }
    }
}

/// The mesh is one of an entity that is ready, with the entity's pipeline, in the phase
/// of its key.
pub open spec fn is_queued(
    candidates: Seq<MeshCandidate>,
    pipelines: Seq<Option<usize>>,
    mesh: QueuedMesh,
) -> bool {
    &&& mesh.entity < candidates.len()
    &&& candidates[mesh.entity as int].is_ready()
    &&& pipelines[mesh.entity as int] == Some(mesh.pipeline)
    &&& is_phase(candidates[mesh.entity as int].key(), mesh.phase)
}

/// The phase is the one that bits 7 (fragments may be dropped) and 25 to 27 (how they are
/// blended) of a pipeline key ask for: opaque where they are clear, or bit 27 alone is set;
/// masked where bit 7 alone is; transparent otherwise.
pub open spec fn is_phase(key: u64, phase: Phase) -> bool {
    let bits = key & 0x0e00_0080;
    &&& phase == Phase::Opaque <==> bits == 0 || bits == 0x0800_0000
    &&& phase == Phase::AlphaMask <==> bits == 0x80
    &&& phase == Phase::Transparent <==> bits != 0 && bits != 0x80 && bits != 0x0800_0000
}

/// A mesh is drawn in the phase that the bits of its pipeline key ask for, and in no
/// other.
pub proof fn law_key_decides_the_phase(key: u64, phase: Phase)
    requires
        call_ensures(phase_of, (key,), phase),
    ensures
        is_phase(key, phase),
{
    assert(0x0e00_0000u64 | 0x80 == 0x0e00_0080) by (bit_vector);
}

/// A pipeline key holds all bits that the mesh asks for, and those that the alpha of the
/// material asks for, and no others; the key that a pipeline is asked for with may always
/// drop fragments and is otherwise the same.
pub proof fn law_keys_hold_what_is_asked_for(
    mesh: MeshCandidate,
    key: Option<u64>,
    forced: u64,
)
    requires
        call_ensures(MeshCandidate::pipeline_key, (&mesh,), key),
        key matches Some(k) ==> call_ensures(bake_key, (k,), forced),
    ensures
        key is Some <==> mesh.has_material && mesh.has_mesh && mesh.same_type && mesh.resident
            && mesh.mesh_bits is Some && mesh.alpha is Some,
        key matches Some(k) ==> {
            &&& k & mesh.mesh_bits->0 == mesh.mesh_bits->0
            &&& k & !(mesh.mesh_bits->0) == alpha_bits(mesh.alpha->0) & !(mesh.mesh_bits->0)
            &&& forced & 0x80 != 0
            &&& forced & !0x80u64 == k & !0x80u64
        },
{
    if mesh.is_ready() {
        let a = mesh.mesh_bits->0;
        let b = alpha_bits(mesh.alpha->0);
        let k = a | b;
        assert((a | b) & a == a && (a | b) & !a == b & !a && (k | 0x80) & 0x80 != 0 && (k | 0x80)
            & !0x80u64 == k & !0x80u64) by (bit_vector);
    }
}

} // verus!
