//! What the shaders of a bake are told.

use vstd::prelude::*;

verus! {

/// A definition that a shader is compiled with.
pub enum ShaderDef {
    Bool(String, bool),
    Int(String, i32),
    UInt(String, u32),
}

impl ShaderDef {
    /// A definition that is just there.
    pub open spec fn is_named(self, name: Seq<char>) -> bool {
        self matches ShaderDef::Bool(own, value) && own@ == name && value
    }

    /// A definition that belongs to prepasses, which a bake is not.
    pub open spec fn is_prepass(self) -> bool {
        self matches ShaderDef::Bool(own, _) && (own@ == "DEPTH_PREPASS"@ || own@
            == "NORMAL_PREPASS"@ || own@ == "MOTION_VECTOR_PREPASS"@)
    }
}

/// The definition of a name that is just there.
fn named(name: &'static str) -> (def: ShaderDef)
    ensures
        def.is_named(name@),
{
    ShaderDef::Bool(name.to_owned(), true)
}

/// Whether a definition belongs to prepasses.
fn check_prepass(def: &ShaderDef) -> (prepass: bool)
    ensures
        prepass == def.is_prepass(),
{
    match def {
        ShaderDef::Bool(own, _) => {
            *own == "DEPTH_PREPASS".to_owned() || *own == "NORMAL_PREPASS".to_owned() || *own
                == "MOTION_VECTOR_PREPASS".to_owned()
        },
        _ => false,
    }
}

/// The definitions that stay.
pub open spec fn kept(defs: Seq<ShaderDef>) -> Seq<ShaderDef> {
    defs.filter(|d: ShaderDef| !d.is_prepass())
}

/// `defs` goes on after its first `from` definitions with these names, and then
/// ends.
pub open spec fn ends_with(defs: Seq<ShaderDef>, from: int, names: Seq<Seq<char>>) -> bool {
    &&& defs.len() == from + names.len()
    &&& forall|i: int| 0 <= i < names.len() ==> (#[trigger] defs[from + i]).is_named(names[i])
}

/// What every shader of a bake is told.
pub open spec fn common_names() -> Seq<Seq<char>> {
    seq![
        "IMPOSTER_BAKE_PIPELINE"@,
        "PREPASS_FRAGMENT"@,
        "DEFERRED_PREPASS"@,
        "NORMAL_PREPASS_OR_DEFERRED_PREPASS"@,
        "VIEW_PROJECTION_ORTHOGRAPHIC"@,
        "VERTEX_OUTPUT_INSTANCE_INDEX"@,
        "VERTEX_NORMALS"@,
    ]
}

/// What the vertex shader is told besides: of tangents it hears twice.
pub open spec fn vertex_names(tangents: bool) -> Seq<Seq<char>> {
    common_names() + if tangents {
        seq!["VERTEX_TANGENTS"@, "VERTEX_TANGENTS"@]
    } else {
        seq![]
    }
}

/// Takes the definitions of prepasses out, and adds what every shader of a bake
/// is told.
fn retarget(defs: Vec<ShaderDef>) -> (out: Vec<ShaderDef>)
    ensures
        kept(defs@).is_prefix_of(out@),
        ends_with(out@, kept(defs@).len() as int, common_names()),
{
    let ghost all = defs@;
    let mut out: Vec<ShaderDef> = Vec::new();
    let mut rest: Vec<ShaderDef> = defs;
    let ghost mut done: int = 0;
    proof {
        reveal(Seq::filter);
        assert(all.skip(0) =~= all);
    }
    while rest.len() > 0
        invariant
            0 <= done <= all.len(),
            rest@ == all.skip(done),
            out@ == kept(all.take(done)),
        decreases rest@.len(),
    {
        let def: ShaderDef = rest.remove(0);
        proof {
            reveal(Seq::filter);
            assert(all.take(done + 1).drop_last() =~= all.take(done));
            assert(all.take(done + 1).last() == all[done]);
            assert(rest@ =~= all.skip(done + 1));
            done = done + 1;
        }
        if !check_prepass(&def) {
            out.push(def);
        }
    }
    proof {
        assert(all.take(done) =~= all);
    }
    out.push(named("IMPOSTER_BAKE_PIPELINE"));
    out.push(named("PREPASS_FRAGMENT"));
    out.push(named("DEFERRED_PREPASS"));
    out.push(named("NORMAL_PREPASS_OR_DEFERRED_PREPASS"));
    out.push(named("VIEW_PROJECTION_ORTHOGRAPHIC"));
    out.push(named("VERTEX_OUTPUT_INSTANCE_INDEX"));
    out.push(named("VERTEX_NORMALS"));
    out
}

/// What the vertex shader reads of a vertex besides what a prepass reads.
#[derive(Clone, Copy, PartialEq, Eq, Structural, Debug)]
pub enum VertexAttribute {
    Normal,
    Tangent,
}

/// What a pipeline of a prepass becomes for a bake.
pub struct BakeShaders {
    pub vertex_defs: Vec<ShaderDef>,
    pub fragment_defs: Vec<ShaderDef>,
    /// What the vertex shader reads besides, and at which locations.
    pub attributes: Vec<(VertexAttribute, u32)>,
}

/// What the definitions of a prepass become for a bake of a mesh that has
/// tangents or has none.
pub fn specialize(
    vertex: Vec<ShaderDef>,
    fragment: Option<Vec<ShaderDef>>,
    tangents: bool,
) -> (shaders: BakeShaders)
    ensures
        kept(vertex@).is_prefix_of(shaders.vertex_defs@),
        ends_with(shaders.vertex_defs@, kept(vertex@).len() as int, vertex_names(tangents)),
        fragment matches Some(defs) ==> {
            &&& kept(defs@).is_prefix_of(shaders.fragment_defs@)
            &&& ends_with(shaders.fragment_defs@, kept(defs@).len() as int, common_names())
        },
        fragment is None ==> ends_with(shaders.fragment_defs@, 0, common_names()),
        shaders.attributes@ == (if tangents {
            seq![(VertexAttribute::Normal, 3u32), (VertexAttribute::Tangent, 4u32)]
        } else {
            seq![(VertexAttribute::Normal, 3u32)]
        }),
{
    let mut vertex_defs: Vec<ShaderDef> = retarget(vertex);
    let ghost common = vertex_defs@;
    let mut attributes: Vec<(VertexAttribute, u32)> = Vec::new();
    attributes.push((VertexAttribute::Normal, 3));
    if tangents {
        vertex_defs.push(named("VERTEX_TANGENTS"));
        vertex_defs.push(named("VERTEX_TANGENTS"));
        attributes.push((VertexAttribute::Tangent, 4));
    }
    proof {
        let from = kept(vertex@).len() as int;
        let names = vertex_names(tangents);
        assert forall|i: int| 0 <= i < names.len() implies (#[trigger] vertex_defs@[from
            + i]).is_named(names[i]) by {
            if i < common_names().len() {
                assert(common[from + i].is_named(common_names()[i]));
            }
        }
        assert(kept(vertex@).is_prefix_of(vertex_defs@)) by {
            assert(vertex_defs@.subrange(0, from) =~= common.subrange(0, from));
        }
    }
    let fragment_defs: Vec<ShaderDef> = match fragment {
        Some(defs) => retarget(defs),
        None => {
            let none: Vec<ShaderDef> = Vec::new();
            let out: Vec<ShaderDef> = retarget(none);
            proof {
                reveal(Seq::filter);
                assert(kept(none@).len() == 0);
            }
            out
        },
    };
    BakeShaders { vertex_defs, fragment_defs, attributes }
}

/// No shader of a bake is told that it belongs to a depth, normal or motion
/// vector prepass.
pub proof fn law_no_prepass_is_left(defs: Seq<ShaderDef>, out: Seq<ShaderDef>, tangents: bool)
    requires
        kept(defs).is_prefix_of(out),
        ends_with(out, kept(defs).len() as int, vertex_names(tangents)) || ends_with(
            out,
            kept(defs).len() as int,
            common_names(),
        ),
    ensures
        forall|i: int| 0 <= i < out.len() ==> !(#[trigger] out[i]).is_prepass(),
{
    let from = kept(defs).len() as int;
    reveal_strlit("DEPTH_PREPASS");
    reveal_strlit("NORMAL_PREPASS");
    reveal_strlit("MOTION_VECTOR_PREPASS");
    reveal_strlit("IMPOSTER_BAKE_PIPELINE");
    reveal_strlit("PREPASS_FRAGMENT");
    reveal_strlit("DEFERRED_PREPASS");
    reveal_strlit("NORMAL_PREPASS_OR_DEFERRED_PREPASS");
    reveal_strlit("VIEW_PROJECTION_ORTHOGRAPHIC");
    reveal_strlit("VERTEX_OUTPUT_INSTANCE_INDEX");
    reveal_strlit("VERTEX_NORMALS");
    reveal_strlit("VERTEX_TANGENTS");
    assert forall|i: int| 0 <= i < out.len() implies !(#[trigger] out[i]).is_prepass() by {
        if i < from {
            assert(out[i] == kept(defs)[i]);
            lemma_kept(defs, i);
        } else {
            let name = vertex_names(tangents)[i - from];
            assert(out[from + (i - from)].is_named(name));
            assert(name.len() != 13 && name.len() != 21 && (name.len() == 14 ==> name[0] == 'V'));
        }
    }
}

/// What stays does not belong to prepasses.
proof fn lemma_kept(defs: Seq<ShaderDef>, i: int)
    requires
        0 <= i < kept(defs).len(),
    ensures
        !kept(defs)[i].is_prepass(),
    decreases defs.len(),
{
    reveal(Seq::filter);
    if defs.len() > 0 && i < kept(defs.drop_last()).len() {
        lemma_kept(defs.drop_last(), i);
    }
}

/// A shader of a bake keeps every definition that it had, in order, but those by which
/// depth, normal and motion vector prepasses are told. After them it is told of the bake,
/// and the vertex shader of the tangents of the mesh where there are any.
pub proof fn law_other_definitions_stay(
    vertex: Vec<ShaderDef>,
    fragment: Vec<ShaderDef>,
    tangents: bool,
    shaders: BakeShaders,
    i: int,
)
    requires
        call_ensures(specialize, (vertex, Some(fragment), tangents), shaders),
    ensures
        0 <= i < vertex@.len() && !is_left_out(vertex@[i]) ==> shaders.vertex_defs@.contains(
            vertex@[i],
        ),
        0 <= i < fragment@.len() && !is_left_out(fragment@[i]) ==> shaders.fragment_defs@.contains(
            fragment@[i],
        ),
        shaders.vertex_defs@.len() >= if tangents {
            9int
        } else {
            7
        },
        shaders.fragment_defs@.len() >= 7,
        ({
            let n = shaders.vertex_defs@.len() - if tangents {
                2int
            } else {
                0
            };
            &&& tells_of_the_bake(shaders.vertex_defs@, n - 7)
            &&& tangents ==> shaders.vertex_defs@[n].is_named("VERTEX_TANGENTS"@)
                && shaders.vertex_defs@[n + 1].is_named("VERTEX_TANGENTS"@)
        }),
        tells_of_the_bake(shaders.fragment_defs@, shaders.fragment_defs@.len() - 7),
{
    broadcast use vstd::seq_lib::group_filter_ensures;

    let stays = |d: ShaderDef| !d.is_prepass();
    let a = kept(vertex@);
    let b = kept(fragment@);
    if 0 <= i < vertex@.len() && !is_left_out(vertex@[i]) {
        assert(stays(vertex@[i]));
        assert(a.contains(vertex@[i]));
        let j = choose|j: int| 0 <= j < a.len() && a[j] == vertex@[i];
        assert(shaders.vertex_defs@[j] == vertex@[i]);
    }
    if 0 <= i < fragment@.len() && !is_left_out(fragment@[i]) {
        assert(stays(fragment@[i]));
        assert(b.contains(fragment@[i]));
        let j = choose|j: int| 0 <= j < b.len() && b[j] == fragment@[i];
        assert(shaders.fragment_defs@[j] == fragment@[i]);
    }
    let from = a.len() as int;
    let names = vertex_names(tangents);
    assert forall|j: int| 0 <= j < names.len() implies (#[trigger] shaders.vertex_defs@[from
        + j]).is_named(names[j]) by {}
    lemma_tells(shaders.vertex_defs@, from, names);
    if tangents {
        assert(shaders.vertex_defs@[from + 7].is_named(names[7]));
        assert(shaders.vertex_defs@[from + 8].is_named(names[8]));
    }
    lemma_tells(shaders.fragment_defs@, b.len() as int, common_names());
}

/// The definition is one by which a depth, normal or motion vector prepass is told.
pub open spec fn is_left_out(d: ShaderDef) -> bool {
    match d {
        ShaderDef::Bool(name, _) => name@ == "DEPTH_PREPASS"@ || name@ == "NORMAL_PREPASS"@ || name@
            == "MOTION_VECTOR_PREPASS"@,
        _ => false,
    }
}

/// The seven definitions from `from` on are those of a bake.
pub open spec fn tells_of_the_bake(defs: Seq<ShaderDef>, from: int) -> bool {
    &&& defs[from].is_named("IMPOSTER_BAKE_PIPELINE"@)
    &&& defs[from + 1].is_named("PREPASS_FRAGMENT"@)
    &&& defs[from + 2].is_named("DEFERRED_PREPASS"@)
    &&& defs[from + 3].is_named("NORMAL_PREPASS_OR_DEFERRED_PREPASS"@)
    &&& defs[from + 4].is_named("VIEW_PROJECTION_ORTHOGRAPHIC"@)
    &&& defs[from + 5].is_named("VERTEX_OUTPUT_INSTANCE_INDEX"@)
    &&& defs[from + 6].is_named("VERTEX_NORMALS"@)
}

proof fn lemma_tells(defs: Seq<ShaderDef>, from: int, names: Seq<Seq<char>>)
    requires
        ends_with(defs, from, names),
        common_names().is_prefix_of(names),
    ensures
        tells_of_the_bake(defs, from),
{
    let c = common_names();
    assert forall|j: int| 0 <= j < 7 implies names[j] == c[j] by {
        assert(names.subrange(0, 7)[j] == names[j]);
    }
    assert(defs[from + 0].is_named(names[0]));
    assert(defs[from + 1].is_named(names[1]));
    assert(defs[from + 2].is_named(names[2]));
    assert(defs[from + 3].is_named(names[3]));
    assert(defs[from + 4].is_named(names[4]));
    assert(defs[from + 5].is_named(names[5]));
    assert(defs[from + 6].is_named(names[6]));
}

/// The vertex shader reads normals at location 3, and tangents at location 4 where the mesh
/// has any.
pub proof fn law_attributes_of_a_bake(
    vertex: Vec<ShaderDef>,
    fragment: Option<Vec<ShaderDef>>,
    tangents: bool,
    shaders: BakeShaders,
)
    requires
        call_ensures(specialize, (vertex, fragment, tangents), shaders),
    ensures
        shaders.attributes@.contains((VertexAttribute::Normal, 3u32)),
        shaders.attributes@.contains((VertexAttribute::Tangent, 4u32)) <==> tangents,
        shaders.attributes@.len() == if tangents {
            2int
        } else {
            1
        },
{
    assert(shaders.attributes@[0] == (VertexAttribute::Normal, 3u32));
    if tangents {
        assert(shaders.attributes@[1] == (VertexAttribute::Tangent, 4u32));
    }
}

} // verus!
