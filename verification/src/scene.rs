//! The scene: objects with a base pose, a kind, named animations and
//! free-form properties; meshes and their materials.

use crate::animation::{
    advance_spec, hold, pose_spec, rounds, Animation, AnimationSet, AnimationState,
    AnimationStateView,
    AnimationView, Blend,
};
use crate::geometry::{mean3, third, Point3, UnitQuaternion, Vector3};
use crate::error::Error;
use crate::json::{
    clone_properties, is_null, is_properties_of, json_parsed, outcome, parse_properties,
    properties_from,
};
use crate::navmesh::{
    get_navmesh, is_navmesh, navmesh_error, navmesh_source_ok, source_indices, source_vertices,
    MeshSource, NavNode, NavNodeView, PrimitiveSource,
};
use crate::text::{ends_with, starts_with};
use vstd::prelude::*;

verus! {

/// Which shading a material asks for.
#[derive(Clone, Copy, Debug, PartialEq, Eq, Structural)]
pub enum MaterialKind {
    Static,
    Dynamic,
    Fullbright,
}

impl MaterialKind {
    /// The number the shaders know the kind by.
    pub open spec fn tag_spec(self) -> i32 {
        match self {
            MaterialKind::Static => 0,
            MaterialKind::Dynamic => 1,
            MaterialKind::Fullbright => 2,
        }
    }

    pub fn tag(&self) -> (t: i32)
        ensures
            t == self.tag_spec(),
    {
        match self {
            MaterialKind::Static => 0,
            MaterialKind::Dynamic => 1,
            MaterialKind::Fullbright => 2,
        }
    }
}

/// A colour with four channels.
#[derive(Clone, Copy, Debug, PartialEq, Eq, Structural)]
pub struct Color {
    pub r: u8,
    pub g: u8,
    pub b: u8,
    pub a: u8,
}

/// How a material is to be drawn: its texture, and for a texture that holds
/// several frames, how long each shows and how far the next one lies.
#[derive(Debug)]
pub struct MaterialDesc {
    pub texture: String,
    pub lightmap: String,
    pub material_kind: MaterialKind,
    pub two_sided: bool,
    pub additive: bool,
    pub frame_ms: i32,
    pub num_frames: i32,
    pub frame_dx: i32,
    pub frame_dy: i32,
}

pub struct MaterialDescView {
    pub texture: Seq<char>,
    pub lightmap: Seq<char>,
    pub material_kind: MaterialKind,
    pub two_sided: bool,
    pub additive: bool,
    pub frame_ms: i32,
    pub num_frames: i32,
    pub frame_dx: i32,
    pub frame_dy: i32,
}

impl View for MaterialDesc {
    type V = MaterialDescView;

    open spec fn view(&self) -> MaterialDescView {
        MaterialDescView {
            texture: self.texture@,
            lightmap: self.lightmap@,
            material_kind: self.material_kind,
            two_sided: self.two_sided,
            additive: self.additive,
            frame_ms: self.frame_ms,
            num_frames: self.num_frames,
            frame_dx: self.frame_dx,
            frame_dy: self.frame_dy,
        }
    }
}

/// The frame time a description has where none is given.
pub fn default_frame_ms() -> (ms: i32)
    ensures
        ms == 1,
{
    1
}

/// The frame count a description has where none is given.
pub fn default_num_frames() -> (n: i32)
    ensures
        n == 1,
{
    1
}

impl MaterialDesc {
    /// A description with every optional part at its default.
    pub fn new(texture: String, material_kind: MaterialKind) -> (d: Self)
        ensures
            d@ == (MaterialDescView {
                texture: texture@,
                lightmap: Seq::empty(),
                material_kind: material_kind,
                two_sided: false,
                additive: false,
                frame_ms: 1,
                num_frames: 1,
                frame_dx: 0,
                frame_dy: 0,
            }),
    {
        Self {
            texture: texture,
            lightmap: String::new(),
            material_kind: material_kind,
            two_sided: false,
            additive: false,
            frame_ms: default_frame_ms(),
            num_frames: default_num_frames(),
            frame_dx: 0,
            frame_dy: 0,
        }
    }

    pub fn duplicate(&self) -> (d: Self)
        ensures
            d@ == self@,
    {
        Self {
            texture: self.texture.clone(),
            lightmap: self.lightmap.clone(),
            material_kind: self.material_kind,
            two_sided: self.two_sided,
            additive: self.additive,
            frame_ms: self.frame_ms,
            num_frames: self.num_frames,
            frame_dx: self.frame_dx,
            frame_dy: self.frame_dy,
        }
    }
}

/// A named material.
#[derive(Debug)]
pub struct Material {
    pub name: String,
    pub desc: MaterialDesc,
}

pub struct MaterialView {
    pub name: Seq<char>,
    pub desc: MaterialDescView,
}

impl View for Material {
    type V = MaterialView;

    open spec fn view(&self) -> MaterialView {
        MaterialView { name: self.name@, desc: self.desc@ }
    }
}

impl Material {
    pub fn duplicate(&self) -> (m: Self)
        ensures
            m@ == self@,
    {
        Self { name: self.name.clone(), desc: self.desc.duplicate() }
    }
}

/// A mesh vertex: position, two texture coordinates, normal and colour.
#[derive(Clone, Copy, Debug, PartialEq, Eq, Structural)]
pub struct MeshVertex {
    pub x: i32,
    pub y: i32,
    pub z: i32,
    pub u: i32,
    pub v: i32,
    pub u2: i32,
    pub v2: i32,
    pub nx: i32,
    pub ny: i32,
    pub nz: i32,
    pub color: Color,
}

/// Triangles over a list of vertices, three indices each, and the material
/// they are drawn with.
#[derive(Debug)]
pub struct Mesh {
    pub vtxs: Vec<MeshVertex>,
    pub idxs: Vec<u32>,
    pub material: Option<Material>,
}

pub struct MeshView {
    pub vtxs: Seq<MeshVertex>,
    pub idxs: Seq<u32>,
    pub material: Option<MaterialView>,
}

impl View for Mesh {
    type V = MeshView;

    open spec fn view(&self) -> MeshView {
        MeshView {
            vtxs: self.vtxs@,
            idxs: self.idxs@,
            material: match self.material {
                Some(m) => Some(m@),
                None => None,
            },
        }
    }
}

impl MeshView {
    /// The indices come in threes and each names a vertex.
    pub open spec fn wf(self) -> bool {
        &&& self.idxs.len() % 3 == 0
        &&& forall|i: int| 0 <= i < self.idxs.len() ==> (#[trigger] self.idxs[i]) < self.vtxs.len()
    }

    /// The vertex at corner `c` of triangle `t`.
    pub open spec fn corner(self, t: int, c: int) -> MeshVertex {
        self.vtxs[self.idxs[3 * t + c] as int]
    }

    /// The mean of the three corners of triangle `t`, each coordinate rounded
    /// toward zero.
    pub open spec fn centre(self, t: int) -> Vector3 {
        let a = self.corner(t, 0);
        let b = self.corner(t, 1);
        let c = self.corner(t, 2);
        Vector3 {
            x: third(a.x + b.x + c.x) as i32,
            y: third(a.y + b.y + c.y) as i32,
            z: third(a.z + b.z + c.z) as i32,
        }
    }
}

/// The indices of those among the first `count` triangles that `keep` marks,
/// in their order.
pub open spec fn kept(idxs: Seq<u32>, keep: Seq<bool>, count: nat) -> Seq<u32>
    decreases count,
{
    if count == 0 {
        Seq::empty()
    } else {
        let before = kept(idxs, keep, (count - 1) as nat);
        if keep[count - 1] {
            before + idxs.subrange(3 * (count - 1), 3 * (count as int))
        } else {
            before
        }
    }
}

/// `clipped` is `mesh` without the triangles whose centre `keep_fn` turns
/// down.
pub open spec fn is_clipped<F: Fn(Vector3) -> bool>(mesh: MeshView, keep_fn: F, clipped: MeshView) -> bool {
    &&& clipped.vtxs == mesh.vtxs
    &&& clipped.material == mesh.material
    &&& exists|keep: Seq<bool>|
        {
            &&& keep.len() == mesh.idxs.len() / 3
            &&& forall|t: int|
                0 <= t < keep.len() ==> call_ensures(keep_fn, (mesh.centre(t),), #[trigger] keep[t])
            &&& clipped.idxs == kept(mesh.idxs, keep, keep.len())
        }
}

impl Mesh {
    /// A copy of the mesh.
    pub fn duplicate(&self) -> (m: Self)
        ensures
            m@ == self@,
    {
        Self {
            vtxs: copy_vertices(&self.vtxs),
            idxs: copy_indices(&self.idxs),
            material: match &self.material {
                Some(m) => Some(m.duplicate()),
                None => None,
            },
        }
    }

    /// The mesh with only the triangles whose centre `keep_triangle_fn`
    /// keeps.
    pub fn clip<F: Fn(Vector3) -> bool>(&self, keep_triangle_fn: &F) -> (m: Self)
        requires
            self@.wf(),
            forall|v: Vector3| #[trigger] call_requires(*keep_triangle_fn, (v,)),
        ensures
            is_clipped(self@, *keep_triangle_fn, m@),
    {
        let count: usize = self.idxs.len() / 3;
        let mut new_indices: Vec<u32> = Vec::new();
        let ghost mut keep: Seq<bool> = Seq::empty();
        let mut t: usize = 0;
        while t < count
            invariant
                self@.wf(),
                forall|v: Vector3| #[trigger] call_requires(*keep_triangle_fn, (v,)),
                count == self.idxs.len() / 3,
                t <= count,
                keep.len() == t,
                forall|u: int|
                    0 <= u < t ==> call_ensures(*keep_triangle_fn, (self@.centre(u),), #[trigger] keep[u]),
                new_indices@ == kept(self.idxs@, keep, t as nat),
            decreases count - t,
        {
            let i1: u32 = self.idxs[3 * t];
            let i2: u32 = self.idxs[3 * t + 1];
            let i3: u32 = self.idxs[3 * t + 2];
            let v1: &MeshVertex = &self.vtxs[i1 as usize];
            let v2: &MeshVertex = &self.vtxs[i2 as usize];
            let v3: &MeshVertex = &self.vtxs[i3 as usize];
            let centre: Vector3 = Vector3 {
                x: mean3(v1.x, v2.x, v3.x),
                y: mean3(v1.y, v2.y, v3.y),
                z: mean3(v1.z, v2.z, v3.z),
            };
            assert(centre == self@.centre(t as int));
            let keep_it: bool = keep_triangle_fn(centre);
            let ghost keep_before = keep;
            let ghost indices_before = new_indices@;
            if keep_it {
                new_indices.push(i1);
                new_indices.push(i2);
                new_indices.push(i3);
            }
            proof {
                keep = keep.push(keep_it);
                lemma_kept_ignores_later(self.idxs@, keep_before, keep, t as nat);
                if keep_it {
                    assert(new_indices@ =~= indices_before + self.idxs@.subrange(3 * t, 3 * (t + 1)));
                }
            }
            t += 1;
        }
        Self {
            vtxs: copy_vertices(&self.vtxs),
            idxs: new_indices,
            material: match &self.material {
                Some(m) => Some(m.duplicate()),
                None => None,
            },
        }
    }
}

/// `kept` looks only at the marks of the triangles it counts.
proof fn lemma_kept_ignores_later(idxs: Seq<u32>, keep1: Seq<bool>, keep2: Seq<bool>, count: nat)
    requires
        count <= keep1.len(),
        count <= keep2.len(),
        forall|t: int| 0 <= t < count ==> keep1[t] == keep2[t],
    ensures
        kept(idxs, keep1, count) == kept(idxs, keep2, count),
    decreases count,
{
    if count > 0 {
        lemma_kept_ignores_later(idxs, keep1, keep2, (count - 1) as nat);
    }
}

fn copy_vertices(v: &Vec<MeshVertex>) -> (r: Vec<MeshVertex>)
    ensures
        r@ == v@,
{
    let mut r: Vec<MeshVertex> = Vec::new();
    let mut i: usize = 0;
    while i < v.len()
        invariant
            i <= v.len(),
            r@ == v@.take(i as int),
        decreases v.len() - i,
    {
        r.push(v[i]);
        assert(v@.take(i + 1) =~= v@.take(i as int).push(v[i as int]));
        i += 1;
    }
    assert(v@.take(v.len() as int) =~= v@);
    r
}

fn copy_indices(v: &Vec<u32>) -> (r: Vec<u32>)
    ensures
        r@ == v@,
{
    let mut r: Vec<u32> = Vec::new();
    let mut i: usize = 0;
    while i < v.len()
        invariant
            i <= v.len(),
            r@ == v@.take(i as int),
        decreases v.len() - i,
    {
        r.push(v[i]);
        assert(v@.take(i + 1) =~= v@.take(i as int).push(v[i as int]));
        i += 1;
    }
    assert(v@.take(v.len() as int) =~= v@);
    r
}

/// A pose: where something stands, how it is turned and how it is scaled.
#[derive(Clone, Copy, Debug, PartialEq, Eq, Structural)]
pub struct Position {
    pub pos: Point3,
    pub rot: UnitQuaternion,
    pub scale: Vector3,
}

/// What an object is.
#[derive(Debug)]
pub enum ObjectKind {
    MultiMesh { meshes: Vec<Mesh> },
    CollisionMesh { meshes: Vec<Mesh> },
    NavMesh { nodes: Vec<NavNode> },
    Light { intensity: i32, color: Color },
    Empty,
}

/// The meshes of a list, as plain values.
pub open spec fn mesh_views(meshes: Seq<Mesh>) -> Seq<MeshView> {
    Seq::new(meshes.len(), |i: int| meshes[i]@)
}

/// The nodes of a list, as plain values.
pub open spec fn node_views(nodes: Seq<NavNode>) -> Seq<NavNodeView> {
    Seq::new(nodes.len(), |i: int| nodes[i]@)
}

pub enum ObjectKindView {
    MultiMesh { meshes: Seq<MeshView> },
    CollisionMesh { meshes: Seq<MeshView> },
    NavMesh { nodes: Seq<NavNodeView> },
    Light { intensity: i32, color: Color },
    Empty,
}

impl View for ObjectKind {
    type V = ObjectKindView;

    open spec fn view(&self) -> ObjectKindView {
        match self {
            ObjectKind::MultiMesh { meshes } => ObjectKindView::MultiMesh { meshes: mesh_views(meshes@) },
            ObjectKind::CollisionMesh { meshes } => ObjectKindView::CollisionMesh {
                meshes: mesh_views(meshes@),
            },
            ObjectKind::NavMesh { nodes } => ObjectKindView::NavMesh { nodes: node_views(nodes@) },
            ObjectKind::Light { intensity, color } => ObjectKindView::Light {
                intensity: *intensity,
                color: *color,
            },
            ObjectKind::Empty => ObjectKindView::Empty,
        }
    }
}

/// A copy of a list of meshes.
fn copy_meshes(meshes: &Vec<Mesh>) -> (r: Vec<Mesh>)
    ensures
        mesh_views(r@) == mesh_views(meshes@),
{
    let mut r: Vec<Mesh> = Vec::new();
    let mut i: usize = 0;
    while i < meshes.len()
        invariant
            i <= meshes.len(),
            r.len() == i,
            forall|j: int| 0 <= j < i ==> (#[trigger] r[j])@ == meshes[j]@,
        decreases meshes.len() - i,
    {
        r.push(meshes[i].duplicate());
        i += 1;
    }
    assert(mesh_views(r@) =~= mesh_views(meshes@));
    r
}

/// A copy of a list of nodes.
fn copy_nodes(nodes: &Vec<NavNode>) -> (r: Vec<NavNode>)
    ensures
        node_views(r@) == node_views(nodes@),
{
    let mut r: Vec<NavNode> = Vec::new();
    let mut i: usize = 0;
    while i < nodes.len()
        invariant
            i <= nodes.len(),
            r.len() == i,
            forall|j: int| 0 <= j < i ==> (#[trigger] r[j])@ == nodes[j]@,
        decreases nodes.len() - i,
    {
        r.push(nodes[i].duplicate());
        i += 1;
    }
    assert(node_views(r@) =~= node_views(nodes@));
    r
}

impl ObjectKind {
    /// A copy of the kind with all it holds.
    pub fn duplicate(&self) -> (k: Self)
        ensures
            k@ == self@,
    {
        match self {
            ObjectKind::Empty => ObjectKind::Empty,
            ObjectKind::Light { intensity, color } => ObjectKind::Light {
                intensity: *intensity,
                color: *color,
            },
            ObjectKind::NavMesh { nodes } => ObjectKind::NavMesh { nodes: copy_nodes(nodes) },
            ObjectKind::CollisionMesh { meshes } => ObjectKind::CollisionMesh {
                meshes: copy_meshes(meshes),
            },
            ObjectKind::MultiMesh { meshes } => ObjectKind::MultiMesh { meshes: copy_meshes(meshes) },
        }
    }
}

/// What an object holds, as plain values.
pub struct ObjectView {
    pub name: Seq<char>,
    pub pos: Point3,
    pub rot: UnitQuaternion,
    pub scale: Vector3,
    pub kind: ObjectKindView,
    pub animations: Map<Seq<char>, AnimationView>,
    pub properties: serde_json::Value,
}

/// One thing in a scene.
#[derive(Debug)]
pub struct Object {
    pub name: String,
    pub pos: Point3,
    pub rot: UnitQuaternion,
    pub scale: Vector3,
    pub kind: ObjectKind,
    pub animations: AnimationSet,
    pub properties: serde_json::Value,
}

impl View for Object {
    type V = ObjectView;

    open spec fn view(&self) -> ObjectView {
        ObjectView {
            name: self.name@,
            pos: self.pos,
            rot: self.rot,
            scale: self.scale,
            kind: self.kind@,
            animations: self.animations@,
            properties: self.properties,
        }
    }
}

impl Object {
    /// The object's parts are well formed.
    pub open spec fn wf(&self) -> bool {
        self.animations.wf()
    }

    /// A copy of the object with all it holds.
    pub fn create_clone(&self) -> (r: Self)
        requires
            self.wf(),
        ensures
            r.wf(),
            r@ == self@,
    {
        Self {
            name: self.name.clone(),
            pos: self.pos,
            rot: self.rot,
            scale: self.scale,
            kind: self.kind.duplicate(),
            animations: self.animations.duplicate(),
            properties: clone_properties(&self.properties),
        }
    }

    /// The pose of the object for a playback state of one of its animations.
    pub fn get_animation_position(&self, state: &AnimationState) -> (r: (
        Point3,
        Blend<UnitQuaternion>,
        Vector3,
    ))
        requires
            self.wf(),
            self.animations@.contains_key(state@.animation_name),
        ensures
            r == pose_spec(
                self.animations@[state@.animation_name],
                state@,
                (self.pos, self.rot, self.scale),
            ),
    {
        let animation: &Animation = self.animations.get(state.animation_name()).unwrap();
        state.pose(animation, self.pos, self.rot, self.scale)
    }

    /// Lets time `amount` pass for a playback state of one of the object's
    /// animations: the one the state asks for.
    pub fn advance_state(&self, state: &mut AnimationState, amount: u64)
        requires
            self.wf(),
            self.animations@.contains_key(old(state)@.new_animation_name),
            old(state)@.base_progress() + amount <= u64::MAX,
            old(state)@.num_loops + rounds(
                self.animations@[old(state)@.new_animation_name],
                old(state)@,
                amount as nat,
            ) <= u64::MAX,
        ensures
            final(state)@ == advance_spec(
                self.animations@[old(state)@.new_animation_name],
                old(state)@,
                amount as nat,
            ),
    {
        let animation: &Animation = self.animations.get(state.new_animation_name()).unwrap();
        state.advance(animation, amount);
    }
}

/// The objects of a scene, in the order they were put in.
#[derive(Debug)]
pub struct Scene {
    pub objects: Vec<Object>,
}


/// The kind `out` is `kind` with every mesh of a `MultiMesh` clipped by
/// `keep_fn`; any other kind is unchanged.
pub open spec fn is_clipped_kind<F: Fn(Vector3) -> bool>(
    kind: ObjectKindView,
    keep_fn: F,
    out: ObjectKindView,
) -> bool {
    match kind {
        ObjectKindView::MultiMesh { meshes } => {
            &&& out is MultiMesh
            &&& out->MultiMesh_meshes.len() == meshes.len()
            &&& forall|j: int|
                0 <= j < meshes.len() ==> is_clipped(
                    meshes[j],
                    keep_fn,
                    #[trigger] out->MultiMesh_meshes[j],
                )
        },
        _ => out == kind,
    }
}

/// The kind can be clipped: it is no collision mesh, and the indices of
/// every mesh to clip describe triangles over its vertices.
pub open spec fn clippable(kind: ObjectKindView) -> bool {
    match kind {
        ObjectKindView::CollisionMesh { .. } => false,
        ObjectKindView::MultiMesh { meshes } => forall|j: int|
            0 <= j < meshes.len() ==> (#[trigger] meshes[j]).wf(),
        _ => true,
    }
}

impl Object {
    /// The object with the meshes of a `MultiMesh` clipped to the triangles
    /// whose centre `keep_triangle_fn` keeps.
    pub fn clip_meshes<F: Fn(Vector3) -> bool>(&self, keep_triangle_fn: &F) -> (r: Self)
        requires
            self.wf(),
            clippable(self@.kind),
            forall|v: Vector3| #[trigger] call_requires(*keep_triangle_fn, (v,)),
        ensures
            r.wf(),
            r@ == (ObjectView { kind: r@.kind, ..self@ }),
            is_clipped_kind(self@.kind, *keep_triangle_fn, r@.kind),
    {
        let kind: ObjectKind = match &self.kind {
            ObjectKind::MultiMesh { meshes } => {
                let mut new_meshes: Vec<Mesh> = Vec::new();
                let mut j: usize = 0;
                while j < meshes.len()
                    invariant
                        j <= meshes.len(),
                        new_meshes.len() == j,
                        forall|v: Vector3| #[trigger] call_requires(*keep_triangle_fn, (v,)),
                        forall|i: int| 0 <= i < meshes.len() ==> (#[trigger] mesh_views(meshes@)[i]).wf(),
                        forall|i: int|
                            0 <= i < j ==> is_clipped(
                                meshes[i]@,
                                *keep_triangle_fn,
                                (#[trigger] new_meshes[i])@,
                            ),
                    decreases meshes.len() - j,
                {
                    assert(mesh_views(meshes@)[j as int].wf());
                    new_meshes.push(meshes[j].clip(keep_triangle_fn));
                    j += 1;
                }
                proof {
                    assert forall|i: int| 0 <= i < meshes.len() implies is_clipped(
                        mesh_views(meshes@)[i],
                        *keep_triangle_fn,
                        #[trigger] mesh_views(new_meshes@)[i],
                    ) by {
                        assert(is_clipped(meshes[i]@, *keep_triangle_fn, new_meshes[i]@));
                    }
                }
                ObjectKind::MultiMesh { meshes: new_meshes }
            },
            other => other.duplicate(),
        };
        Self {
            name: self.name.clone(),
            pos: self.pos,
            rot: self.rot,
            scale: self.scale,
            kind: kind,
            animations: self.animations.duplicate(),
            properties: clone_properties(&self.properties),
        }
    }
}

impl Scene {
    /// Every object is well formed.
    pub open spec fn wf(&self) -> bool {
        forall|i: int| 0 <= i < self.objects.len() ==> (#[trigger] self.objects[i]).wf()
    }

    /// A scene of the same objects, with the meshes of every `MultiMesh`
    /// clipped to the triangles whose centre `keep_triangle_fn` keeps.
    pub fn clip_meshes<F: Fn(Vector3) -> bool>(&self, keep_triangle_fn: F) -> (r: Scene)
        requires
            self.wf(),
            forall|i: int| 0 <= i < self.objects.len() ==> clippable((#[trigger] self.objects[i])@.kind),
            forall|v: Vector3| #[trigger] call_requires(keep_triangle_fn, (v,)),
        ensures
            r.wf(),
            r.objects.len() == self.objects.len(),
            forall|i: int|
                0 <= i < self.objects.len() ==> {
                    &&& (#[trigger] r.objects[i])@ == (ObjectView {
                        kind: r.objects[i]@.kind,
                        ..self.objects[i]@
                    })
                    &&& is_clipped_kind(self.objects[i]@.kind, keep_triangle_fn, r.objects[i]@.kind)
                },
    {
        let mut objects: Vec<Object> = Vec::new();
        let mut i: usize = 0;
        while i < self.objects.len()
            invariant
                self.wf(),
                forall|k: int|
                    0 <= k < self.objects.len() ==> clippable((#[trigger] self.objects[k])@.kind),
                forall|v: Vector3| #[trigger] call_requires(keep_triangle_fn, (v,)),
                i <= self.objects.len(),
                objects.len() == i,
                forall|k: int|
                    0 <= k < i ==> {
                        &&& (#[trigger] objects[k]).wf()
                        &&& objects[k]@ == (ObjectView { kind: objects[k]@.kind, ..self.objects[k]@ })
                        &&& is_clipped_kind(self.objects[k]@.kind, keep_triangle_fn, objects[k]@.kind)
                    },
            decreases self.objects.len() - i,
        {
            assert(self.objects[i as int].wf());
            objects.push(self.objects[i].clip_meshes(&keep_triangle_fn));
            i += 1;
        }
        Scene { objects: objects }
    }
}


/// A texture as the drawing code needs it: a handle to find it by, and its
/// size in pixels.
#[derive(Clone, Copy, Debug, PartialEq, Eq, Structural)]
pub struct TextureInfo {
    pub id: u32,
    pub width: i32,
    pub height: i32,
}

/// One step of drawing an object.
#[derive(Clone, Copy, Debug, PartialEq, Eq, Structural)]
pub enum DrawCommand {
    /// Hand the object's pose to whoever places it.
    SetTransform { pos: Point3, rot: Blend<UnitQuaternion>, scale: Vector3 },
    /// Set the shader's `material` to the material kind's number.
    SetMaterial { kind: i32 },
    /// Set the shader's `tex_size`, `frame_ms`, `num_frames` and `frame_dxy`.
    SetTexture {
        width: i32,
        height: i32,
        frame_ms: i32,
        num_frames: i32,
        frame_dx: i32,
        frame_dy: i32,
    },
    /// Draw the first `count` indices of mesh `mesh` as a list of triangles,
    /// with texture `texture` bound if there is one.
    DrawMesh { mesh: usize, texture: Option<u32>, count: usize },
}

/// The commands that draw mesh number `j`, for which the texture lookup gave
/// `tex`.
pub open spec fn mesh_commands(mesh: MeshView, j: int, tex: Option<TextureInfo>) -> Seq<DrawCommand> {
    let kind = match mesh.material {
        Some(m) => m.desc.material_kind.tag_spec(),
        None => 0i32,
    };
    let draw = DrawCommand::DrawMesh {
        mesh: j as usize,
        texture: match tex {
            Some(t) => Some(t.id),
            None => None,
        },
        count: mesh.idxs.len() as usize,
    };
    match (tex, mesh.material) {
        (Some(t), Some(m)) => seq![
            DrawCommand::SetMaterial { kind },
            DrawCommand::SetTexture {
                width: t.width,
                height: t.height,
                frame_ms: m.desc.frame_ms,
                num_frames: m.desc.num_frames,
                frame_dx: m.desc.frame_dx,
                frame_dy: m.desc.frame_dy,
            },
            draw,
        ],
        _ => seq![DrawCommand::SetMaterial { kind }, draw],
    }
}

/// The commands that draw the first `count` meshes, one after the other.
pub open spec fn meshes_commands(
    meshes: Seq<MeshView>,
    texs: Seq<Option<TextureInfo>>,
    count: nat,
) -> Seq<DrawCommand>
    decreases count,
{
    if count == 0 {
        Seq::empty()
    } else {
        meshes_commands(meshes, texs, (count - 1) as nat) + mesh_commands(
            meshes[count - 1],
            count - 1,
            texs[count - 1],
        )
    }
}

/// The pose an object is drawn in: the one its playback state selects, or,
/// without a state, its base pose.
pub open spec fn object_pose(obj: ObjectView, state: Option<AnimationStateView>) -> (
    Point3,
    Blend<UnitQuaternion>,
    Vector3,
) {
    match state {
        Some(s) => pose_spec(obj.animations[s.animation_name], s, (obj.pos, obj.rot, obj.scale)),
        None => (obj.pos, hold(obj.rot), obj.scale),
    }
}

/// The commands that draw an object: its pose first, then, for a
/// `MultiMesh`, its meshes in order.
pub open spec fn object_commands(
    obj: ObjectView,
    state: Option<AnimationStateView>,
    texs: Seq<Option<TextureInfo>>,
) -> Seq<DrawCommand> {
    let pose = object_pose(obj, state);
    seq![DrawCommand::SetTransform { pos: pose.0, rot: pose.1, scale: pose.2 }] + match obj.kind {
        ObjectKindView::MultiMesh { meshes } => meshes_commands(meshes, texs, meshes.len()),
        _ => Seq::empty(),
    }
}

/// `tex` is what the lookup gives for the mesh: nothing for a mesh without a
/// material, and else what `bitmap_fn` returns for the material and the name
/// of its texture.
pub open spec fn texture_found<F: Fn(&Material, &str) -> Option<TextureInfo>>(
    bitmap_fn: F,
    mesh: Mesh,
    tex: Option<TextureInfo>,
) -> bool {
    match mesh.material {
        None => tex is None,
        Some(m) => exists|name: &str|
            name@ == m.desc.texture@ && #[trigger] call_ensures(bitmap_fn, (&m, name), tex),
    }
}

/// `cmds` draws the object in the given playback state with the textures
/// that `bitmap_fn` finds.
pub open spec fn is_object_draw<F: Fn(&Material, &str) -> Option<TextureInfo>>(
    obj: Object,
    state: Option<AnimationStateView>,
    bitmap_fn: F,
    cmds: Seq<DrawCommand>,
) -> bool {
    exists|texs: Seq<Option<TextureInfo>>|
        {
            &&& obj.kind matches ObjectKind::MultiMesh { meshes } ==> {
                &&& texs.len() == meshes.len()
                &&& forall|j: int|
                    0 <= j < meshes.len() ==> texture_found(bitmap_fn, meshes[j], #[trigger] texs[j])
            }
            &&& cmds == object_commands(obj@, state, texs)
        }
}

/// The view of a playback state that may be missing.
pub open spec fn state_view(state: Option<&AnimationState>) -> Option<AnimationStateView> {
    match state {
        Some(s) => Some(s@),
        None => None,
    }
}

impl Object {
    /// The commands that draw the object: in the pose that `animation_state`
    /// selects, or its base pose if there is none, and with the textures
    /// that `bitmap_fn` finds.
    pub fn draw<BitmapFn: Fn(&Material, &str) -> Option<TextureInfo>>(
        &self,
        animation_state: Option<&AnimationState>,
        bitmap_fn: &BitmapFn,
    ) -> (cmds: Vec<DrawCommand>)
        requires
            self.wf(),
            animation_state matches Some(s) ==> self.animations@.contains_key(s@.animation_name),
            forall|m: &Material, name: &str| #[trigger] call_requires(*bitmap_fn, (m, name)),
        ensures
            is_object_draw(*self, state_view(animation_state), *bitmap_fn, cmds@),
    {
        let mut cmds: Vec<DrawCommand> = Vec::new();
        match animation_state {
            Some(state) => {
                let (pos, rot, scale) = self.get_animation_position(state);
                cmds.push(DrawCommand::SetTransform { pos: pos, rot: rot, scale: scale });
            },
            None => {
                cmds.push(
                    DrawCommand::SetTransform {
                        pos: self.pos,
                        rot: Blend { from: self.rot, to: self.rot, num: 0, den: 1 },
                        scale: self.scale,
                    },
                );
            },
        }
        let ghost mut texs: Seq<Option<TextureInfo>> = Seq::empty();
        let ghost head = cmds@;
        if let ObjectKind::MultiMesh { meshes } = &self.kind {
            let mut j: usize = 0;
            while j < meshes.len()
                invariant
                    forall|m: &Material, name: &str| #[trigger] call_requires(*bitmap_fn, (m, name)),
                    j <= meshes.len(),
                    texs.len() == j,
                    forall|i: int|
                        0 <= i < j ==> texture_found(*bitmap_fn, meshes[i], #[trigger] texs[i]),
                    cmds@ == head + meshes_commands(mesh_views(meshes@), texs, j as nat),
                decreases meshes.len() - j,
            {
                let mesh: &Mesh = &meshes[j];
                let kind: i32 = match &mesh.material {
                    Some(m) => m.desc.material_kind.tag(),
                    None => 0,
                };
                let bitmap: Option<TextureInfo> = match &mesh.material {
                    Some(m) => bitmap_fn(m, m.desc.texture.as_str()),
                    None => None,
                };
                let ghost before = cmds@;
                let ghost texs_before = texs;
                cmds.push(DrawCommand::SetMaterial { kind: kind });
                if let Some(bitmap) = bitmap {
                    match &mesh.material {
                        Some(material) => {
                            cmds.push(
                                DrawCommand::SetTexture {
                                    width: bitmap.width,
                                    height: bitmap.height,
                                    frame_ms: material.desc.frame_ms,
                                    num_frames: material.desc.num_frames,
                                    frame_dx: material.desc.frame_dx,
                                    frame_dy: material.desc.frame_dy,
                                },
                            );
                        },
                        None => {},
                    }
                }
                cmds.push(
                    DrawCommand::DrawMesh {
                        mesh: j,
                        texture: match bitmap {
                            Some(t) => Some(t.id),
                            None => None,
                        },
                        count: mesh.idxs.len(),
                    },
                );
                proof {
                    texs = texs.push(bitmap);
                    lemma_meshes_commands_prefix(mesh_views(meshes@), texs_before, texs, j as nat);
                    assert(cmds@ =~= before + mesh_commands(meshes[j as int]@, j as int, bitmap));
                    assert(cmds@ =~= head + meshes_commands(mesh_views(meshes@), texs, (j + 1) as nat));
                }
                j += 1;
            }
        }
        proof {
            assert(cmds@ =~= object_commands(self@, state_view(animation_state), texs));
        }
        cmds
    }
}

/// `meshes_commands` looks only at the textures of the meshes it counts.
proof fn lemma_meshes_commands_prefix(
    meshes: Seq<MeshView>,
    texs1: Seq<Option<TextureInfo>>,
    texs2: Seq<Option<TextureInfo>>,
    count: nat,
)
    requires
        count <= texs1.len(),
        count <= texs2.len(),
        forall|j: int| 0 <= j < count ==> texs1[j] == texs2[j],
    ensures
        meshes_commands(meshes, texs1, count) == meshes_commands(meshes, texs2, count),
    decreases count,
{
    if count > 0 {
        lemma_meshes_commands_prefix(meshes, texs1, texs2, (count - 1) as nat);
    }
}


/// The commands of the first `count` objects, each with the number of its
/// object, one object after the other.
pub open spec fn tagged(parts: Seq<Seq<DrawCommand>>, count: nat) -> Seq<(usize, DrawCommand)>
    decreases count,
{
    if count == 0 {
        Seq::empty()
    } else {
        tagged(parts, (count - 1) as nat) + Seq::new(
            parts[count - 1].len(),
            |k: int| ((count - 1) as usize, parts[count - 1][k]),
        )
    }
}

/// `part` draws object number `i`, in the playback state that
/// `animation_state_fn` gives for it.
pub open spec fn is_scene_part<
    'l,
    AnimationFn: Fn(usize, &Object) -> Option<&'l AnimationState>,
    BitmapFn: Fn(&Material, &str) -> Option<TextureInfo>,
>(
    objects: Seq<Object>,
    animation_state_fn: AnimationFn,
    bitmap_fn: BitmapFn,
    i: int,
    part: Seq<DrawCommand>,
) -> bool {
    exists|state: Option<&'l AnimationState>|
        #[trigger] call_ensures(animation_state_fn, (i as usize, &objects[i]), state)
            && is_object_draw(objects[i], state_view(state), bitmap_fn, part)
}

/// `cmds` draws the objects in their order, each in the playback state that
/// `animation_state_fn` gives for it.
pub open spec fn is_scene_draw<
    'l,
    AnimationFn: Fn(usize, &Object) -> Option<&'l AnimationState>,
    BitmapFn: Fn(&Material, &str) -> Option<TextureInfo>,
>(
    objects: Seq<Object>,
    animation_state_fn: AnimationFn,
    bitmap_fn: BitmapFn,
    cmds: Seq<(usize, DrawCommand)>,
) -> bool {
    exists|parts: Seq<Seq<DrawCommand>>|
        {
            &&& parts.len() == objects.len()
            &&& forall|i: int|
                0 <= i < objects.len() ==> is_scene_part(
                    objects,
                    animation_state_fn,
                    bitmap_fn,
                    i,
                    #[trigger] parts[i],
                )
            &&& cmds == tagged(parts, parts.len())
        }
}

/// `tagged` looks only at the parts it counts.
proof fn lemma_tagged_prefix(parts1: Seq<Seq<DrawCommand>>, parts2: Seq<Seq<DrawCommand>>, count: nat)
    requires
        count <= parts1.len(),
        count <= parts2.len(),
        forall|i: int| 0 <= i < count ==> parts1[i] == parts2[i],
    ensures
        tagged(parts1, count) == tagged(parts2, count),
    decreases count,
{
    if count > 0 {
        lemma_tagged_prefix(parts1, parts2, (count - 1) as nat);
    }
}

impl Scene {
    /// The commands that draw the scene: every object in the order the
    /// objects were put in, each command with the number of its object.
    pub fn draw<
        'l,
        AnimationFn: Fn(usize, &Object) -> Option<&'l AnimationState>,
        BitmapFn: Fn(&Material, &str) -> Option<TextureInfo>,
    >(&self, animation_state_fn: AnimationFn, bitmap_fn: BitmapFn) -> (cmds: Vec<(usize, DrawCommand)>)
        requires
            self.wf(),
            forall|i: usize, obj: &Object| #[trigger] call_requires(animation_state_fn, (i, obj)),
            forall|m: &Material, name: &str| #[trigger] call_requires(bitmap_fn, (m, name)),
            forall|i: usize, state: Option<&'l AnimationState>|
                i < self.objects.len() && #[trigger] call_ensures(
                    animation_state_fn,
                    (i, &self.objects[i as int]),
                    state,
                ) && state is Some ==> self.objects[i as int].animations@.contains_key(
                    state.unwrap()@.animation_name,
                ),
        ensures
            is_scene_draw(self.objects@, animation_state_fn, bitmap_fn, cmds@),
    {
        let mut cmds: Vec<(usize, DrawCommand)> = Vec::new();
        let ghost mut parts: Seq<Seq<DrawCommand>> = Seq::empty();
        let mut idx: usize = 0;
        while idx < self.objects.len()
            invariant
                self.wf(),
                forall|i: usize, obj: &Object| #[trigger] call_requires(animation_state_fn, (i, obj)),
                forall|m: &Material, name: &str| #[trigger] call_requires(bitmap_fn, (m, name)),
                forall|i: usize, state: Option<&'l AnimationState>|
                    i < self.objects.len() && #[trigger] call_ensures(
                        animation_state_fn,
                        (i, &self.objects[i as int]),
                        state,
                    ) && state is Some ==> self.objects[i as int].animations@.contains_key(
                        state.unwrap()@.animation_name,
                    ),
                idx <= self.objects.len(),
                parts.len() == idx,
                forall|i: int|
                    0 <= i < idx ==> is_scene_part(
                        self.objects@,
                        animation_state_fn,
                        bitmap_fn,
                        i,
                        #[trigger] parts[i],
                    ),
                cmds@ == tagged(parts, idx as nat),
            decreases self.objects.len() - idx,
        {
            let object: &Object = &self.objects[idx];
            assert(object.wf());
            let state: Option<&'l AnimationState> = animation_state_fn(idx, object);
            let part: Vec<DrawCommand> = object.draw(state, &bitmap_fn);
            let ghost before = cmds@;
            let ghost parts_before = parts;
            let mut k: usize = 0;
            while k < part.len()
                invariant
                    k <= part.len(),
                    cmds@ == before + Seq::new(k as nat, |j: int| (idx, part@[j])),
                decreases part.len() - k,
            {
                cmds.push((idx, part[k]));
                assert(cmds@ =~= before + Seq::new((k + 1) as nat, |j: int| (idx, part@[j])));
                k += 1;
            }
            proof {
                parts = parts.push(part@);
                lemma_tagged_prefix(parts_before, parts, idx as nat);
                assert(Seq::new(part@.len(), |j: int| (idx, part@[j])) =~= Seq::new(
                    parts[idx as int].len(),
                    |j: int| (idx, parts[idx as int][j]),
                ));
                assert(is_scene_part(self.objects@, animation_state_fn, bitmap_fn, idx as int, part@));
            }
            idx += 1;
        }
        cmds
    }
}


/// A light as an imported node describes it.
#[derive(Clone, Copy, Debug, PartialEq, Eq, Structural)]
pub struct LightSource {
    pub intensity: i32,
    pub color: Color,
}

/// A node of an imported scene, as plain values: its name, its pose, the
/// text of its extra data, its light and its mesh, if it has them, and the
/// animations that move it.
#[derive(Debug)]
pub struct NodeSource {
    pub name: Option<String>,
    pub pos: Point3,
    pub rot: UnitQuaternion,
    pub scale: Vector3,
    pub extras: Option<String>,
    pub light: Option<LightSource>,
    pub mesh: Option<MeshSource>,
    pub animations: AnimationSet,
}

/// The mesh that a primitive is drawn as.
pub open spec fn mesh_of(prim: PrimitiveSource) -> MeshView {
    MeshView {
        vtxs: prim.vertices@,
        idxs: source_indices(prim),
        material: match prim.material {
            Some(m) => Some(m@),
            None => None,
        },
    }
}

/// The meshes that the primitives of a mesh are drawn as.
pub open spec fn meshes_of(mesh: MeshSource) -> Seq<MeshView> {
    Seq::new(mesh.primitives@.len(), |i: int| mesh_of(mesh.primitives@[i]))
}

impl NodeSource {
    /// The node's name; a node without a name has the empty name.
    pub open spec fn name_spec(&self) -> Seq<char> {
        match self.name {
            Some(n) => n@,
            None => Seq::empty(),
        }
    }

    /// The node is the navigation mesh of its scene: it bears that name.
    pub open spec fn is_navmesh_node(&self) -> bool {
        self.name_spec() == "Navmesh"@
    }

    /// The kind of the object that a node becomes, for a node that is no
    /// navigation mesh: a light if it has a light, else its meshes if it has
    /// a mesh, for collision if its name begins so and else for drawing,
    /// and else nothing.
    pub open spec fn plain_kind(&self) -> ObjectKindView {
        match (self.light, self.mesh) {
            (Some(light), _) => ObjectKindView::Light { intensity: light.intensity, color: light.color },
            (None, Some(mesh)) => if "Collision"@.is_prefix_of(self.name_spec()) {
                ObjectKindView::CollisionMesh { meshes: meshes_of(mesh) }
            } else {
                ObjectKindView::MultiMesh { meshes: meshes_of(mesh) }
            },
            (None, None) => ObjectKindView::Empty,
        }
    }

    /// The mesh of the node, if it has one.
    pub open spec fn mesh_ref(&self) -> Option<&MeshSource> {
        match &self.mesh {
            Some(m) => Some(m),
            None => None,
        }
    }
}

/// `r` is what importing `node` gives when parsing its extra data gave
/// `parsed`: an error if the extra data did not parse, or if the node is the
/// navigation mesh and no graph can be built from its mesh; and else the
/// object with the node's name, pose and animations, the parsed extra data
/// as its properties, and the kind that the node's name and parts call for.
pub open spec fn is_import_of(
    node: &NodeSource,
    parsed: Option<Result<serde_json::Value, Seq<char>>>,
    r: Result<Object, Error>,
) -> bool {
    match parsed {
        Some(Err(complaint)) => r matches Err(e) && e.wraps_outside(complaint),
        _ => if node.is_navmesh_node() && !navmesh_source_ok(node.mesh_ref()) {
            r matches Err(e) && e.message@ == navmesh_error(node.mesh_ref()) && e.inner is None
        } else {
            &&& r matches Ok(obj)
            &&& obj.wf()
            &&& obj.name@ == node.name_spec()
            &&& obj.pos == node.pos
            &&& obj.rot == node.rot
            &&& obj.scale == node.scale
            &&& obj.animations@ == node.animations@
            &&& match parsed {
                Some(Ok(v)) => obj.properties == v,
                _ => is_null(obj.properties),
            }
            &&& if node.is_navmesh_node() {
                &&& obj.kind matches ObjectKind::NavMesh { nodes }
                &&& is_navmesh(
                    source_vertices(node.mesh.unwrap().primitives[0]),
                    source_indices(node.mesh.unwrap().primitives[0]),
                    nodes@,
                )
            } else {
                obj@.kind == node.plain_kind()
            }
        },
    }
}

/// The text of a node's extra data, as plain values.
pub open spec fn extras_text(node: &NodeSource) -> Option<Seq<char>> {
    match node.extras {
        Some(text) => Some(text@),
        None => None,
    }
}

/// What parsing gave, as plain values.
pub open spec fn parsed_view(parsed: Option<Result<serde_json::Value, String>>) -> Option<
    Result<serde_json::Value, Seq<char>>,
> {
    match parsed {
        Some(r) => Some(outcome(r)),
        None => None,
    }
}

/// What parsing the extra data of a node gives, if it has any.
pub open spec fn parsed_extras(node: &NodeSource) -> Option<Result<serde_json::Value, Seq<char>>> {
    match node.extras {
        Some(text) => Some(json_parsed(text@)),
        None => None,
    }
}

/// The meshes that the primitives of an imported mesh are drawn as.
fn import_meshes(mesh: &MeshSource) -> (r: Vec<Mesh>)
    ensures
        mesh_views(r@) == meshes_of(*mesh),
{
    let mut meshes: Vec<Mesh> = Vec::new();
    let mut i: usize = 0;
    while i < mesh.primitives.len()
        invariant
            i <= mesh.primitives.len(),
            meshes.len() == i,
            forall|j: int| 0 <= j < i ==> (#[trigger] meshes[j])@ == mesh_of(mesh.primitives[j]),
        decreases mesh.primitives.len() - i,
    {
        let prim: &PrimitiveSource = &mesh.primitives[i];
        let idxs: Vec<u32> = match &prim.indices {
            Some(v) => copy_indices(v),
            None => Vec::new(),
        };
        meshes.push(
            Mesh {
                vtxs: copy_vertices(&prim.vertices),
                idxs: idxs,
                material: match &prim.material {
                    Some(m) => Some(m.duplicate()),
                    None => None,
                },
            },
        );
        i += 1;
    }
    assert(mesh_views(meshes@) =~= meshes_of(*mesh));
    meshes
}

impl Object {
    /// The object that an imported node becomes. Its extra data is parsed as
    /// JSON.
    pub fn from_node(node: &NodeSource) -> (r: Result<Object, Error>)
        requires
            node.animations.wf(),
        ensures
            is_import_of(node, parsed_extras(node), r),
    {
        let properties: Result<serde_json::Value, Error> = match &node.extras {
            Some(text) => parse_properties(Some(text.as_str())),
            None => parse_properties(None),
        };
        Object::with_properties(node, properties)
    }

    /// The object that an imported node becomes, given what parsing its
    /// extra data gave.
    pub fn from_parsed_node(node: &NodeSource, parsed: Option<Result<serde_json::Value, String>>) -> (r:
        Result<Object, Error>)
        requires
            node.animations.wf(),
        ensures
            is_import_of(node, parsed_view(parsed), r),
    {
        Object::with_properties(node, properties_from(parsed))
    }

    /// The object that an imported node becomes, given its properties or
    /// the error that reading them gave.
    fn with_properties(node: &NodeSource, properties: Result<serde_json::Value, Error>) -> (r:
        Result<Object, Error>)
        requires
            node.animations.wf(),
        ensures
            forall|parsed: Option<Result<serde_json::Value, Seq<char>>>|
                is_properties_of(parsed, properties) ==> is_import_of(node, parsed, r),
    {
        let name: String = match &node.name {
            Some(n) => n.clone(),
            None => String::new(),
        };
        let properties: serde_json::Value = match properties {
            Ok(v) => v,
            Err(e) => {
                return Err(e);
            },
        };
        let target: String = "Navmesh".to_string();
        let mesh: Option<&MeshSource> = match &node.mesh {
            Some(m) => Some(m),
            None => None,
        };
        let kind: ObjectKind = if name == target {
            match get_navmesh(mesh) {
                Ok(nodes) => ObjectKind::NavMesh { nodes: nodes },
                Err(e) => {
                    return Err(e);
                },
            }
        } else {
            match (&node.light, mesh) {
                (Some(light), _) => ObjectKind::Light { intensity: light.intensity, color: light.color },
                (None, Some(m)) => {
                    let meshes: Vec<Mesh> = import_meshes(m);
                    if starts_with(name.as_str(), "Collision") {
                        ObjectKind::CollisionMesh { meshes: meshes }
                    } else {
                        ObjectKind::MultiMesh { meshes: meshes }
                    }
                },
                (None, None) => ObjectKind::Empty,
            }
        };
        Ok(
            Object {
                name: name,
                pos: node.pos,
                rot: node.rot,
                scale: node.scale,
                kind: kind,
                animations: node.animations.duplicate(),
                properties: properties,
            },
        )
    }
}

/// The format a scene file is read as.
#[derive(Clone, Copy, Debug, PartialEq, Eq, Structural)]
pub enum SceneFormat {
    Obj,
    Gltf,
}

/// Importing the node fails: its extra data does not parse, or it is the
/// navigation mesh and no graph can be built from its mesh.
pub open spec fn import_fails(node: &NodeSource) -> bool {
    ||| parsed_extras(node) matches Some(Err(_))
    ||| node.is_navmesh_node() && !navmesh_source_ok(node.mesh_ref())
}

impl Scene {
    /// A file whose name ends in `obj` is read as OBJ, any other as glTF.
    pub fn format_of(file: &str) -> (f: SceneFormat)
        ensures
            f == if "obj"@.is_suffix_of(file@) {
                SceneFormat::Obj
            } else {
                SceneFormat::Gltf
            },
    {
        if ends_with(file, "obj") {
            SceneFormat::Obj
        } else {
            SceneFormat::Gltf
        }
    }

    /// The scene of the objects that the imported nodes become, in the
    /// nodes' order; or the error of the first node that cannot be imported.
    pub fn from_nodes(nodes: &Vec<NodeSource>) -> (r: Result<Scene, Error>)
        requires
            forall|i: int| 0 <= i < nodes.len() ==> (#[trigger] nodes[i]).animations.wf(),
        ensures
            r is Ok <==> forall|i: int| 0 <= i < nodes.len() ==> !import_fails(#[trigger] &nodes[i]),
            r matches Ok(scene) ==> {
                &&& scene.wf()
                &&& scene.objects.len() == nodes.len()
                &&& forall|i: int|
                    0 <= i < nodes.len() ==> is_import_of(
                        &nodes[i],
                        parsed_extras(&nodes[i]),
                        Ok::<Object, Error>(#[trigger] scene.objects[i]),
                    )
            },
            r matches Err(e) ==> exists|i: int|
                {
                    &&& 0 <= i < nodes.len()
                    &&& forall|j: int| 0 <= j < i ==> !import_fails(#[trigger] &nodes[j])
                    &&& #[trigger] import_fails(&nodes[i])
                    &&& is_import_of(&nodes[i], parsed_extras(&nodes[i]), Err::<Object, Error>(e))
                },
    {
        let mut objects: Vec<Object> = Vec::new();
        let mut i: usize = 0;
        while i < nodes.len()
            invariant
                forall|k: int| 0 <= k < nodes.len() ==> (#[trigger] nodes[k]).animations.wf(),
                i <= nodes.len(),
                objects.len() == i,
                forall|k: int| 0 <= k < i ==> !import_fails(#[trigger] &nodes[k]),
                forall|k: int| 0 <= k < i ==> (#[trigger] objects[k]).wf(),
                forall|k: int|
                    0 <= k < i ==> is_import_of(
                        &nodes[k],
                        parsed_extras(&nodes[k]),
                        Ok::<Object, Error>(#[trigger] objects[k]),
                    ),
            decreases nodes.len() - i,
        {
            match Object::from_node(&nodes[i]) {
                Ok(object) => {
                    objects.push(object);
                },
                Err(e) => {
                    assert(import_fails(&nodes[i as int]));
                    return Err(e);
                },
            }
            i += 1;
        }
        Ok(Scene { objects: objects })
    }
}

} // verus!
