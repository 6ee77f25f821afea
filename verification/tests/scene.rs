use slhack::animation::{Animation, AnimationSet, AnimationState, Blend};
use slhack::geometry::{Point3, UnitQuaternion, Vector3};
use slhack::json::parse_properties;
use slhack::navmesh::{MeshSource, NavNode, PrimitiveSource};
use slhack::scene::{
    default_frame_ms, default_num_frames, Color, DrawCommand, LightSource, Material, MaterialDesc,
    MaterialKind, Mesh, MeshVertex, NodeSource, Object, ObjectKind, Scene, SceneFormat, TextureInfo,
};
use slhack::text::{ends_with, starts_with};

const ROT: UnitQuaternion = UnitQuaternion { i: 0, j: 0, k: 0, w: 1000 };
const SCALE: Vector3 = Vector3 { x: 1000, y: 1000, z: 1000 };
const WHITE: Color = Color { r: 255, g: 255, b: 255, a: 255 };

fn vertex(x: i32, y: i32, z: i32) -> MeshVertex {
    MeshVertex { x, y, z, u: 0, v: 0, u2: 0, v2: 0, nx: 0, ny: 0, nz: 1000, color: WHITE }
}

fn material(name: &str, texture: &str, kind: MaterialKind) -> Material {
    Material { name: name.to_string(), desc: MaterialDesc::new(texture.to_string(), kind) }
}

/// A strip of three triangles along the x axis.
fn strip(material: Option<Material>) -> Mesh {
    Mesh {
        vtxs: vec![vertex(0, 0, 0), vertex(30, 0, 0), vertex(0, 30, 0), vertex(60, 0, 0), vertex(90, 30, 0)],
        idxs: vec![0, 1, 2, 1, 3, 2, 3, 4, 2],
        material,
    }
}

fn object(name: &str, kind: ObjectKind) -> Object {
    Object {
        name: name.to_string(),
        pos: Point3::new(1, 2, 3),
        rot: ROT,
        scale: SCALE,
        kind,
        animations: AnimationSet::new(),
        properties: serde_json::Value::Null,
    }
}

fn no_texture(_m: &Material, _name: &str) -> Option<TextureInfo> {
    None
}

fn by_name(_m: &Material, name: &str) -> Option<TextureInfo> {
    if name == "wall" {
        Some(TextureInfo { id: 4, width: 64, height: 32 })
    } else {
        None
    }
}

fn base_transform() -> DrawCommand {
    DrawCommand::SetTransform {
        pos: Point3::new(1, 2, 3),
        rot: Blend { from: ROT, to: ROT, num: 0, den: 1 },
        scale: SCALE,
    }
}

#[test]
fn material_kinds_have_their_numbers() {
    assert_eq!(MaterialKind::Static.tag(), 0);
    assert_eq!(MaterialKind::Dynamic.tag(), 1);
    assert_eq!(MaterialKind::Fullbright.tag(), 2);
}

#[test]
fn material_description_defaults() {
    let d = MaterialDesc::new("wall".to_string(), MaterialKind::Dynamic);
    assert_eq!(d.texture, "wall");
    assert_eq!(d.lightmap, "");
    assert_eq!(d.material_kind, MaterialKind::Dynamic);
    assert!(!d.two_sided && !d.additive);
    assert_eq!((d.frame_ms, d.num_frames, d.frame_dx, d.frame_dy), (1, 1, 0, 0));
    assert_eq!(default_frame_ms(), 1);
    assert_eq!(default_num_frames(), 1);
}

#[test]
fn an_object_without_meshes_draws_only_its_pose() {
    for kind in [ObjectKind::Empty, ObjectKind::Light { intensity: 5, color: WHITE }] {
        let cmds = object("o", kind).draw(None, &no_texture);
        assert_eq!(cmds, vec![base_transform()]);
    }
    let hidden = object("Collision", ObjectKind::CollisionMesh { meshes: vec![strip(None)] });
    assert_eq!(hidden.draw(None, &no_texture), vec![base_transform()]);
}

#[test]
fn meshes_are_drawn_in_order_with_their_material_and_texture() {
    let mut animated = material("m", "wall", MaterialKind::Fullbright);
    animated.desc.frame_ms = 120;
    animated.desc.num_frames = 4;
    animated.desc.frame_dx = 16;
    animated.desc.frame_dy = 0;
    let o = object(
        "o",
        ObjectKind::MultiMesh {
            meshes: vec![
                strip(None),
                strip(Some(animated)),
                strip(Some(material("n", "floor", MaterialKind::Dynamic))),
            ],
        },
    );
    let cmds = o.draw(None, &by_name);
    assert_eq!(
        cmds,
        vec![
            base_transform(),
            DrawCommand::SetMaterial { kind: 0 },
            DrawCommand::DrawMesh { mesh: 0, texture: None, count: 9 },
            DrawCommand::SetMaterial { kind: 2 },
            DrawCommand::SetTexture {
                width: 64,
                height: 32,
                frame_ms: 120,
                num_frames: 4,
                frame_dx: 16,
                frame_dy: 0,
            },
            DrawCommand::DrawMesh { mesh: 1, texture: Some(4), count: 9 },
            DrawCommand::SetMaterial { kind: 1 },
            DrawCommand::DrawMesh { mesh: 2, texture: None, count: 9 },
        ]
    );
}

#[test]
fn an_animated_object_is_drawn_in_its_pose() {
    let mut o = object("o", ObjectKind::Empty);
    let mut a = Animation::new(vec![(0, Point3::new(0, 0, 0)), (10, Point3::new(100, 0, 0))], vec![], vec![]);
    a.compute_start_end();
    o.animations.insert("slide".to_string(), a);
    let mut state = AnimationState::new("slide", true);
    o.advance_state(&mut state, 3);
    let cmds = o.draw(Some(&state), &no_texture);
    assert_eq!(
        cmds,
        vec![DrawCommand::SetTransform {
            pos: Point3::new(30, 0, 0),
            rot: Blend { from: ROT, to: ROT, num: 0, den: 1 },
            scale: SCALE,
        }]
    );
}

#[test]
fn a_scene_is_drawn_object_by_object() {
    let mut moving = object("b", ObjectKind::MultiMesh { meshes: vec![strip(None)] });
    let mut a = Animation::new(vec![], vec![], vec![(0, Vector3::new(1, 1, 1)), (4, Vector3::new(5, 5, 5))]);
    a.compute_start_end();
    moving.animations.insert("grow".to_string(), a);
    let scene = Scene { objects: vec![object("a", ObjectKind::Empty), moving] };
    let mut state = AnimationState::new("grow", false);
    scene.objects[1].advance_state(&mut state, 2);
    let cmds = scene.draw(
        |idx: usize, _o: &Object| -> Option<&AnimationState> {
            if idx == 1 {
                Some(&state)
            } else {
                None
            }
        },
        no_texture,
    );
    assert_eq!(
        cmds,
        vec![
            (0, base_transform()),
            (
                1,
                DrawCommand::SetTransform {
                    pos: Point3::new(1, 2, 3),
                    rot: Blend { from: ROT, to: ROT, num: 0, den: 1 },
                    scale: Vector3::new(3, 3, 3),
                }
            ),
            (1, DrawCommand::SetMaterial { kind: 0 }),
            (1, DrawCommand::DrawMesh { mesh: 0, texture: None, count: 9 }),
        ]
    );
}

#[test]
fn clipping_keeps_whole_triangles_by_their_centre() {
    let scene = Scene {
        objects: vec![
            object("a", ObjectKind::MultiMesh { meshes: vec![strip(None), strip(None)] }),
            object("l", ObjectKind::Light { intensity: 9, color: WHITE }),
        ],
    };
    // Centres: (10, 10, 0), (30, 10, 0), (50, 20, 0).
    let clipped = scene.clip_meshes(|centre: Vector3| centre.x != 30);
    assert_eq!(clipped.objects.len(), 2);
    match &clipped.objects[0].kind {
        ObjectKind::MultiMesh { meshes } => {
            assert_eq!(meshes.len(), 2);
            for mesh in meshes {
                assert_eq!(mesh.idxs, vec![0, 1, 2, 3, 4, 2]);
                assert_eq!(mesh.vtxs, strip(None).vtxs);
            }
        }
        _ => panic!("a mesh object stays a mesh object"),
    }
    assert!(matches!(clipped.objects[1].kind, ObjectKind::Light { intensity: 9, .. }));
    assert_eq!(clipped.objects[0].name, "a");
    // The scene it was clipped from is as it was.
    match &scene.objects[0].kind {
        ObjectKind::MultiMesh { meshes } => assert_eq!(meshes[0].idxs.len(), 9),
        _ => panic!("unchanged"),
    }
}

#[test]
fn triangle_centres_round_toward_zero() {
    let mesh = Mesh {
        vtxs: vec![vertex(-1, 1, 0), vertex(-1, 1, 0), vertex(-2, 2, 0)],
        idxs: vec![0, 1, 2],
        material: None,
    };
    let kept = mesh.clip(&|c: Vector3| c == Vector3::new(-1, 1, 0));
    assert_eq!(kept.idxs, vec![0, 1, 2]);
    let dropped = mesh.clip(&|c: Vector3| c != Vector3::new(-1, 1, 0));
    assert!(dropped.idxs.is_empty());
}

#[test]
fn clone_copies_all_of_an_object() {
    let mut o = object(
        "o",
        ObjectKind::MultiMesh { meshes: vec![strip(Some(material("m", "wall", MaterialKind::Static)))] },
    );
    o.animations.set_pos_track("a", vec![(1, Point3::new(1, 1, 1))]);
    o.properties = parse_properties(Some("{\"hp\": 3}")).expect("json");
    assert_eq!(o.properties["hp"], 3);
    let c = o.create_clone();
    assert_eq!(c.name, "o");
    assert_eq!((c.pos, c.rot, c.scale), (o.pos, o.rot, o.scale));
    assert_eq!(c.properties, o.properties);
    assert_eq!(c.animations.get("a").expect("a").pos_track, vec![(1, Point3::new(1, 1, 1))]);
    match (&c.kind, &o.kind) {
        (ObjectKind::MultiMesh { meshes: a }, ObjectKind::MultiMesh { meshes: b }) => {
            assert_eq!(a[0].vtxs, b[0].vtxs);
            assert_eq!(a[0].idxs, b[0].idxs);
            let (ma, mb) = (a[0].material.as_ref().unwrap(), b[0].material.as_ref().unwrap());
            assert_eq!(ma.name, mb.name);
            assert_eq!(ma.desc.texture, mb.desc.texture);
            assert_eq!(ma.desc.material_kind, mb.desc.material_kind);
        }
        _ => panic!("kinds differ"),
    }
    let nav = object(
        "n",
        ObjectKind::NavMesh { nodes: vec![NavNode { pos: Point3::new(1, 1, 1), neighbours: vec![0] }] },
    );
    match nav.create_clone().kind {
        ObjectKind::NavMesh { nodes } => assert_eq!(nodes[0].neighbours, vec![0]),
        _ => panic!("kinds differ"),
    }
}

fn node(name: Option<&str>) -> NodeSource {
    NodeSource {
        name: name.map(|n| n.to_string()),
        pos: Point3::new(4, 5, 6),
        rot: ROT,
        scale: SCALE,
        extras: None,
        light: None,
        mesh: None,
        animations: AnimationSet::new(),
    }
}

fn mesh_source() -> MeshSource {
    MeshSource {
        primitives: vec![PrimitiveSource {
            positions: Some(vec![Point3::new(0, 0, 0), Point3::new(1, 0, 0), Point3::new(0, 1, 0)]),
            indices: Some(vec![0, 1, 2]),
            vertices: vec![vertex(0, 0, 0), vertex(1, 0, 0), vertex(0, 1, 0)],
            material: Some(material("m", "wall", MaterialKind::Static)),
        }],
    }
}

#[test]
fn a_bare_node_becomes_an_empty_object() {
    let o = Object::from_node(&node(None)).expect("object");
    assert_eq!(o.name, "");
    assert_eq!(o.pos, Point3::new(4, 5, 6));
    assert!(matches!(o.kind, ObjectKind::Empty));
    assert!(o.properties.is_null());
}

#[test]
fn a_light_wins_over_a_mesh() {
    let mut n = node(Some("Lamp"));
    n.light = Some(LightSource { intensity: 800, color: WHITE });
    n.mesh = Some(mesh_source());
    let o = Object::from_node(&n).expect("object");
    assert!(matches!(o.kind, ObjectKind::Light { intensity: 800, color: WHITE }));
}

#[test]
fn a_mesh_is_for_drawing_unless_its_name_says_collision() {
    let mut n = node(Some("Wall"));
    n.mesh = Some(mesh_source());
    match Object::from_node(&n).expect("object").kind {
        ObjectKind::MultiMesh { meshes } => {
            assert_eq!(meshes.len(), 1);
            assert_eq!(meshes[0].idxs, vec![0, 1, 2]);
            assert_eq!(meshes[0].vtxs.len(), 3);
            assert_eq!(meshes[0].material.as_ref().unwrap().desc.texture, "wall");
        }
        _ => panic!("expected a mesh for drawing"),
    }
    n.name = Some("CollisionWall".to_string());
    assert!(matches!(Object::from_node(&n).expect("object").kind, ObjectKind::CollisionMesh { .. }));
    n.name = Some("WallCollision".to_string());
    assert!(matches!(Object::from_node(&n).expect("object").kind, ObjectKind::MultiMesh { .. }));
}

#[test]
fn the_navmesh_node_becomes_a_graph() {
    let mut n = node(Some("Navmesh"));
    n.mesh = Some(mesh_source());
    n.light = Some(LightSource { intensity: 1, color: WHITE });
    match Object::from_node(&n).expect("object").kind {
        ObjectKind::NavMesh { nodes } => {
            assert_eq!(nodes.len(), 3);
            assert_eq!(nodes[0].neighbours, vec![1, 2]);
        }
        _ => panic!("expected a navigation mesh"),
    }
    n.mesh = None;
    assert_eq!(Object::from_node(&n).err().expect("error").message, "No mesh in navmesh");
}

#[test]
fn extra_data_is_parsed_as_json() {
    let mut n = node(Some("Chest"));
    n.extras = Some("{\"gold\": 12, \"locked\": true}".to_string());
    let o = Object::from_node(&n).expect("object");
    assert_eq!(o.properties["gold"], 12);
    assert_eq!(o.properties["locked"], true);
    n.extras = Some("{\"gold\": ".to_string());
    let e = Object::from_node(&n).err().expect("error");
    assert_eq!(e.message, "EOF while parsing a value at line 1 column 9");
    let cause = e.source().expect("the parser's error");
    assert_eq!(cause.message, "EOF while parsing a value at line 1 column 9");
    assert!(cause.inner.is_none() && cause.backtrace.is_none());
}

#[test]
fn bad_extra_data_is_reported_before_a_bad_navmesh() {
    let mut n = node(Some("Navmesh"));
    n.extras = Some("nope".to_string());
    let e = Object::from_node(&n).err().expect("error");
    assert_eq!(e.message, "expected ident at line 1 column 2");
}

#[test]
fn parsed_node_takes_what_the_parser_gave() {
    let n = node(Some("x"));
    let e = Object::from_parsed_node(&n, Some(Err("broken".to_string()))).err().expect("error");
    assert_eq!(e.message, "broken");
    let value = parse_properties(Some("[1, 2]")).expect("json");
    let o = Object::from_parsed_node(&n, Some(Ok(value.clone()))).expect("object");
    assert_eq!(o.properties, value);
    let o = Object::from_parsed_node(&n, None).expect("object");
    assert_eq!(o.properties, parse_properties(Some("null")).expect("json"));
}

#[test]
fn a_scene_is_imported_node_by_node() {
    let mut lamp = node(Some("Lamp"));
    lamp.light = Some(LightSource { intensity: 3, color: WHITE });
    let mut animated = node(Some("Door"));
    animated.animations.set_rot_track("open", vec![(0, ROT), (500, ROT)]);
    animated.animations.compute_start_end();
    let scene = Scene::from_nodes(&vec![node(None), lamp, animated]).expect("scene");
    assert_eq!(scene.objects.len(), 3);
    assert!(matches!(scene.objects[0].kind, ObjectKind::Empty));
    assert!(matches!(scene.objects[1].kind, ObjectKind::Light { .. }));
    assert_eq!(scene.objects[2].animations.get("open").expect("open").end, 500);
}

#[test]
fn the_first_node_that_fails_gives_the_error() {
    let mut bad_json = node(Some("a"));
    bad_json.extras = Some("[".to_string());
    let bad_nav = node(Some("Navmesh"));
    let e = Scene::from_nodes(&vec![node(None), bad_nav, bad_json]).err().expect("error");
    assert_eq!(e.message, "No mesh in navmesh");
    assert!(Scene::from_nodes(&vec![]).expect("scene").objects.is_empty());
}

#[test]
fn files_ending_in_obj_are_read_as_obj() {
    assert_eq!(Scene::format_of("data/level.obj"), SceneFormat::Obj);
    assert_eq!(Scene::format_of("obj"), SceneFormat::Obj);
    assert_eq!(Scene::format_of("data/level.gltf"), SceneFormat::Gltf);
    assert_eq!(Scene::format_of("data/level.glb"), SceneFormat::Gltf);
    assert_eq!(Scene::format_of("data/level.OBJ"), SceneFormat::Gltf);
    assert_eq!(Scene::format_of(""), SceneFormat::Gltf);
}

#[test]
fn prefixes_and_suffixes() {
    assert!(starts_with("Collision01", "Collision"));
    assert!(starts_with("Collision", "Collision"));
    assert!(!starts_with("Collisio", "Collision"));
    assert!(!starts_with("xCollision", "Collision"));
    assert!(starts_with("anything", ""));
    assert!(starts_with("", ""));
    assert!(ends_with("naïve.obj", "obj"));
    assert!(ends_with("übung", "übung"));
    assert!(!ends_with("bj", "obj"));
    assert!(!ends_with("objx", "obj"));
    assert!(starts_with("übung macht", "übung"));
}

#[test]
fn properties_are_parsed_or_null() {
    let absent = parse_properties(None).expect("nothing");
    assert!(absent.is_null());
    assert_eq!(absent, parse_properties(Some("null")).expect("json"));
    let list = parse_properties(Some(" [1, {\"a\": \"b\"}] ")).expect("json");
    assert_eq!(list[1]["a"], "b");
    let e = parse_properties(Some("")).expect_err("empty text");
    assert_eq!(e.message, "EOF while parsing a value at line 1 column 0");
    assert_eq!(e.source().expect("a cause").message, e.message);
    assert!(e.backtrace.is_some());
}
