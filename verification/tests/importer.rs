use scene_tools::clip_targets::{gather, node_name_paths, transcode_animclip, Keys, Sample};
use scene_tools::collider::write_collider;
use scene_tools::document::{
    parse_document, pick_roots, positions_resolve, AlphaMode, Document, Number,
};
use scene_tools::extras::{bsn_proxy, collides, proxy_path};
use scene_tools::groups::{check_images, kit_manifest, name_images, plan_groups, KitEntry};
use scene_tools::lint::{dim_warning, is_default_white, lint_materials, Dimness};
use scene_tools::material::{
    emissive_source, material_fields, plain_material_fields, Assets, EmissiveSource, Fixups,
};
use scene_tools::mesh::{bakes, env_u32, first_triangles, primitive_parts, submesh_parts};
use scene_tools::repairs::{Cutout, Repairs};
use scene_tools::scene::{label_node, mesh_stem, write_entity_trs, Stage};
use scene_tools::tree::{grow_all, group_nodes, SceneNode};
use scene_tools::walk::{bake_order, NodeCounts};

const SCENE: &str = r#"{
  "asset": {"version": "2.0"},
  "scene": 0,
  "scenes": [{"nodes": [0]}],
  "nodes": [
    {"name": "root", "children": [1, 2, 3]},
    {"name": "chair \"one\"", "mesh": 0, "translation": [1, 2.5, -3]},
    {"name": "lamp", "mesh": 0, "extras": {"bsn": "props/\"lamp\".bsn"}},
    {"mesh": 0, "extras": {"collide": 0}, "skin": 0}
  ],
  "skins": [{"joints": [1, 3]}],
  "meshes": [{"primitives": [
    {"attributes": {"POSITION": 0}, "mode": 1},
    {"attributes": {"POSITION": 0}, "material": 0},
    {"attributes": {"POSITION": 0}}
  ]}],
  "buffers": [{"byteLength": 36}],
  "bufferViews": [{"buffer": 0, "byteLength": 36}],
  "accessors": [{"bufferView": 0, "componentType": 5126, "count": 3, "type": "VEC3", "min": [0, 0, 0], "max": [1, 1, 1]}],
  "materials": [{
    "name": "wood",
    "alphaMode": "MASK",
    "alphaCutoff": 0.4,
    "pbrMetallicRoughness": {
      "baseColorFactor": [0.5, 0.25, 1, 1],
      "baseColorTexture": {"index": 0},
      "metallicFactor": 0.75
    },
    "emissiveFactor": [0, 0.5, 0]
  }],
  "textures": [{"source": 0}],
  "images": [{"uri": "wood%20grain.png"}]
}"#;

fn scene() -> Document {
    match parse_document(&SCENE.as_bytes().to_vec()) {
        Ok(d) => d,
        Err(e) => panic!("{e}"),
    }
}

fn assets() -> Assets {
    Assets {
        asset_prefix: "kit".to_string(),
        image_files: vec!["wood grain.png".to_string()],
        fixups: Fixups { tints: Vec::new(), textures: Vec::new() },
    }
}

fn stage(doc: Document, colliders: bool) -> Stage {
    Stage {
        doc,
        fields: vec![" wood,".to_string()],
        default_fields: " plain,".to_string(),
        asset_prefix: "kit".to_string(),
        colliders,
        baked: vec![vec![false, true, true]],
        collided: vec![vec![false, true, true]],
    }
}

fn roots(doc: &Document) -> Vec<SceneNode> {
    grow_all(&doc.nodes, doc.roots.as_ref().unwrap()).unwrap()
}

#[test]
fn documents_are_read() {
    let d = scene();
    assert_eq!(d.roots, Some(vec![0]));
    assert_eq!(d.nodes[0].children, vec![1, 2, 3]);
    assert_eq!(d.nodes[1].transform[1], "2.5");
    assert_eq!(d.nodes[1].transform[2], "-3.0");
    assert_eq!(d.nodes[1].transform[6], "1.0");
    assert_eq!(d.nodes[3].name, None);
    assert_eq!(d.skins, vec![vec![1, 3]]);
    assert_eq!(d.meshes[0].len(), 3);
    assert!(!d.meshes[0][0].triangles && d.meshes[0][1].triangles);
    assert_eq!(d.meshes[0][1].material, Some(0));
    assert_eq!(d.images[0].uri.as_deref(), Some("wood%20grain.png"));
    let m = d.material(Some(0));
    assert_eq!(m.name.as_deref(), Some("wood"));
    assert_eq!(m.alpha, AlphaMode::Mask);
    assert_eq!(m.base_color[1].text, "0.25");
    assert_eq!(m.base_color[1].bits, 0.25f32.to_bits());
    assert_eq!(m.metallic.text, "0.75");
    assert_eq!(m.alpha_cutoff.as_ref().map(|n| n.text.as_str()), Some("0.4"));
    assert!(m.ior.is_none() && m.transmission.is_none());
    assert_eq!(m.images.base_color, Some(0));
    assert_eq!(d.material(None).roughness.text, "1.0");
}

#[test]
fn bad_documents_are_refused() {
    assert!(parse_document(&b"{}".to_vec()).is_err());
    assert!(parse_document(&b"not json".to_vec()).is_err());
    let mut short = b"glTF".to_vec();
    short.extend([2, 0, 0, 0, 4, 0, 0, 0]);
    match parse_document(&short) {
        Err(e) => assert_eq!(e, "could not completely read the object"),
        Ok(_) => unreachable!(),
    }
    let lost = SCENE.replace(r#"{"POSITION": 0}, "mode": 1"#, r#"{"POSITION": 9}, "mode": 1"#);
    match parse_document(&lost.into_bytes()) {
        Err(e) => assert_eq!(e, "a primitive names an accessor that the document lacks"),
        Ok(_) => unreachable!(),
    }
    assert!(positions_resolve(1, &vec![Some(0), None]));
    assert!(!positions_resolve(1, &vec![None, Some(1)]));
}

#[test]
fn roots_are_the_default_scenes() {
    let scenes = vec![vec![4, 5], vec![6]];
    assert_eq!(pick_roots(Some(1), &scenes), Some(vec![6]));
    assert_eq!(pick_roots(None, &scenes), Some(vec![4, 5]));
    assert_eq!(pick_roots(None, &Vec::new()), None);
    let second = SCENE.replace(
        r#""scene": 0,
  "scenes": [{"nodes": [0]}]"#,
        r#""scene": 1,
  "scenes": [{"nodes": [0]}, {"nodes": [1, 2]}]"#,
    );
    let d = parse_document(&second.into_bytes()).unwrap_or_else(|e| panic!("{e}"));
    assert_eq!(d.roots, Some(vec![1, 2]));
}

#[test]
fn extras_mark_proxies_and_collision() {
    let d = scene();
    assert_eq!(bsn_proxy(&d.nodes[2].extras).as_deref(), Some("props/'lamp'.bsn"));
    assert_eq!(bsn_proxy(&d.nodes[1].extras), None);
    assert!(collides(&d.nodes[2].extras));
    assert!(!collides(&d.nodes[3].extras));
    assert!(!collides(&Some("{\"collide\": false}".to_string())));
    assert!(collides(&Some("{\"collide\": -1.5}".to_string())));
    assert!(!collides(&Some("{\"collide\": -0.0}".to_string())));
    assert!(collides(&Some("broken".to_string())));
    assert_eq!(proxy_path(Some("")), None);
}

#[test]
fn materials_are_written() {
    let d = scene();
    let m = d.material(Some(0));
    assert_eq!(
        material_fields(&m, &assets(), &None, &Some("0.4".to_string())),
        " base_color: bevy_color::color::Color::LinearRgba(bevy_color::linear_rgba::LinearRgba { red: 0.5, green: 0.25, blue: 1.0, alpha: 1.0 }), perceptual_roughness: 1.0, base_color_texture: \"kit/textures/wood grain.png\", alpha_mode: bevy_aurora::material::AlphaMode::Mask(0.4),"
    );
    let glow = Some(["0.0".to_string(), "0.5".to_string(), "0.0".to_string()]);
    assert_eq!(
        material_fields(&d.material(None), &assets(), &glow, &None),
        " perceptual_roughness: 1.0, emissive: bevy_color::linear_rgba::LinearRgba { red: 0.0, green: 0.5, blue: 0.0, alpha: 1.0 },"
    );
    assert_eq!(
        plain_material_fields(&m, &assets()),
        " base_color_texture: \"kit/textures/wood grain.png\", alpha_mode: bevy_material::alpha::AlphaMode::Mask(0.4),"
    );
    assert!(matches!(emissive_source(&m, false), EmissiveSource::Factor));
    assert!(matches!(emissive_source(&d.material(None), false), EmissiveSource::Dark));
}

#[test]
fn a_hierarchy_becomes_a_scene() {
    let d = scene();
    let trees = roots(&d);
    let text = stage(d, true).emit_nodes(&trees);
    let still = "rotation: glam::Quat { x: 0.0, y: 0.0, z: 0.0, w: 1.0 }, scale: glam::Vec3 { x: 1.0, y: 1.0, z: 1.0 } }\n";
    let zero = format!("bevy_transform::components::transform::Transform {{ translation: glam::Vec3 {{ x: 0.0, y: 0.0, z: 0.0 }}, {still}");
    let moved = format!("bevy_transform::components::transform::Transform {{ translation: glam::Vec3 {{ x: 1.0, y: 2.5, z: -3.0 }}, {still}");
    let p = "    ";
    let pp = "        ";
    let ppp = "            ";
    let mut want = format!("{p}bevy_ecs::name::Name(\"root\")\n{p}{zero}{p}bevy_ecs::hierarchy::Children [\n");
    want += &format!("{pp}bevy_ecs::name::Name(\"chair 'one'\")\n{pp}{moved}");
    want += &format!("{pp}bevy_mesh::components::Mesh3d(\"kit/meshes/mesh0_1.cluster_mesh\")\n{pp}bevy_aurora::material::AuroraMaterial3d(bevy_aurora::material::AuroraMaterial {{ wood,}})\n");
    want += &format!("{pp}bevy_aurora::collision::CollisionMesh(\"kit/meshes/mesh0_1.collider\")\n");
    want += &format!("{pp}bevy_ecs::hierarchy::Children [\n{ppp}bevy_ecs::name::Name(\"chair 'one'#1\")\n{ppp}{zero}");
    want += &format!("{ppp}bevy_mesh::components::Mesh3d(\"kit/meshes/mesh0_2.cluster_mesh\")\n{ppp}bevy_aurora::material::AuroraMaterial3d(bevy_aurora::material::AuroraMaterial {{ wood,}})\n");
    want += &format!("{ppp}bevy_aurora::collision::CollisionMesh(\"kit/meshes/mesh0_2.collider\")\n{ppp},\n{pp}]\n{pp},\n");
    want += &format!("{pp}bevy_ecs::name::Name(\"lamp\")\n{pp}{zero}{pp}bevy_scene::scene_patch::ScenePatchInstance(\"props/'lamp'.bsn\"),\n\n");
    want += &format!("{pp}bevy_ecs::name::Name(\"node3\")\n{pp}{zero}");
    want += &format!("{pp}bevy_mesh::components::Mesh3d(\"kit/meshes/mesh0_1.cluster_mesh\")\n{pp}bevy_aurora::material::AuroraMaterial3d(bevy_aurora::material::AuroraMaterial {{ wood,}})\n");
    want += &format!("{pp}bevy_aurora::skinning::SkinJointsByName([\"chair 'one'\", \"node3\"])\n");
    want += &format!("{pp}bevy_ecs::hierarchy::Children [\n{ppp}bevy_ecs::name::Name(\"node3#1\")\n{ppp}{zero}");
    want += &format!("{ppp}bevy_mesh::components::Mesh3d(\"kit/meshes/mesh0_2.cluster_mesh\")\n{ppp}bevy_aurora::material::AuroraMaterial3d(bevy_aurora::material::AuroraMaterial {{ wood,}})\n");
    want += &format!("{ppp}bevy_aurora::skinning::SkinJointsByName([\"chair 'one'\", \"node3\"])\n{ppp},\n{pp}]\n{pp},\n");
    want += &format!("{p}]\n{p},\n");
    assert_eq!(text, want);
    let d = scene();
    let trees = roots(&d);
    let s = stage(d, true);
    assert_eq!(s.collider_order(&trees), vec![(0, 1), (0, 2)]);
    assert_eq!(s.surface_order(&trees), vec![(0, 1)]);
    assert_eq!(s.count_nodes(&trees), NodeCounts { entities: 5, proxies: 1 });
}

#[test]
fn each_primitive_is_baked_once() {
    let d = scene();
    let trees = roots(&d);
    assert_eq!(bake_order(&d, &trees, true), vec![(0, 1), (0, 2)]);
    assert_eq!(mesh_stem(0, 2), "mesh0_2");
    assert_eq!(label_node(&d, 3), "node3");
    let s = stage(d, true);
    let mut placed = Vec::new();
    s.walk(&trees[0], &mut placed);
    let nodes: Vec<(usize, usize)> = placed.iter().map(|p| (p.node, p.prim)).collect();
    assert_eq!(nodes, vec![(1, 1), (1, 2), (2, 1), (2, 2), (3, 1), (3, 2)]);
    assert!(s.placement_collides(&placed[0]));
    assert!(!s.placement_collides(&placed[4]));
}

#[test]
fn groups_become_props() {
    let d = scene();
    assert_eq!(group_nodes(&d.nodes, &vec![0], 0), vec![0]);
    assert_eq!(group_nodes(&d.nodes, &vec![0], 1), vec![0]);
    assert_eq!(group_nodes(&d.nodes, &vec![0], 2), vec![1, 2, 3]);
    assert_eq!(group_nodes(&d.nodes, &vec![0], 9), vec![1, 2, 3]);
    let groups = grow_all(&d.nodes, &vec![1, 3]).unwrap();
    let plans = plan_groups(&stage(d, false), "kit", &groups);
    let stems: Vec<&str> = plans.iter().map(|g| g.stem.as_str()).collect();
    assert_eq!(stems, vec!["chair__one_", "group_3"]);
    let taken = plan_groups(&stage(scene(), false), "group_3", &groups);
    assert_eq!(taken[1].stem, "group_3_1");
    let three = |s: &str| [s.to_string(), s.to_string(), s.to_string()];
    let kit = kit_manifest(
        "kit",
        &vec![
            KitEntry { stem: "b".to_string(), min: three("0.0"), max: three("1.0") },
            KitEntry { stem: "a".to_string(), min: three("-1.0"), max: three("2.0") },
        ],
    );
    assert!(kit.contains("(name: \"a\", bsn: \"kit/a.bsn\", min: (-1.0, -1.0, -1.0), max: (2.0, 2.0, 2.0)),\n        (name: \"b\""));
}

#[test]
fn images_keep_their_names() {
    let d = scene();
    assert!(check_images(&d.images));
    assert_eq!(
        name_images(&d.images, &vec![Some("wood grain.png".to_string())]),
        vec!["wood grain.png".to_string()]
    );
    let twice = parse_document(
        &SCENE
            .replace(r#"[{"uri": "wood%20grain.png"}]"#, r#"[{"uri": "a/x.png"}, {"uri": "b/x.png"}]"#)
            .into_bytes(),
    );
    let images = twice.unwrap_or_else(|e| panic!("{e}")).images;
    let file = Some("x.png".to_string());
    assert_eq!(name_images(&images, &vec![file.clone(), file]), vec!["x.png", "x_1.png"]);
}

#[test]
fn cutouts_are_learnt_once() {
    let d = scene();
    let mut r = Repairs::new();
    assert!(matches!(r.alpha_cutout(&d.material(Some(0)), &assets()), Cutout::At(n) if n.text == "0.4"));
    assert!(matches!(r.alpha_cutout(&d.material(None), &assets()), Cutout::Solid));
    let mut leaf = d.material(Some(0));
    leaf.alpha = AlphaMode::Opaque;
    assert!(matches!(r.alpha_cutout(&leaf, &assets()), Cutout::Ask(f) if f == "wood grain.png"));
    assert!(matches!(r.learn(&leaf, "wood grain.png", true), Cutout::At(n) if n.text == "0.5"));
    assert!(matches!(r.alpha_cutout(&leaf, &assets()), Cutout::At(_)));
    assert_eq!(r.promoted, vec!["wood".to_string()]);
    r.note_zeroed(&leaf);
    r.note_zeroed(&leaf);
    assert_eq!(r.zeroed.len(), 1);
    let mut fresh = Repairs::new();
    fresh.write_fields(&leaf, &assets(), &None, &None);
    assert!(fresh.zeroed.is_empty());
    for channel in &mut leaf.base_color {
        *channel = Number { bits: 0, text: "0.0".to_string() };
    }
    let text = fresh.write_fields(&leaf, &assets(), &None, &None);
    assert_eq!(fresh.zeroed, vec!["wood".to_string()]);
    assert!(!text.contains("base_color:"));
    assert!(r.report().iter().any(|l| l.contains("wood")));
}

#[test]
fn materials_are_linted() {
    let d = scene();
    let one = 1.0f32.to_bits();
    assert!(is_default_white([one; 4], false));
    assert!(!is_default_white([one; 4], true));
    assert!(!is_default_white([0, one, one, one], false));
    let report = lint_materials(
        &vec![d.material(Some(0)), d.material(None)],
        &vec![Some("wood is dim".to_string()), None],
    );
    assert_eq!(report.emitters, 1);
    assert_eq!(report.warnings, vec!["wood is dim".to_string()]);
    assert_eq!(report.white_plastic.len(), 1);
    assert!(!report.print().is_empty());
}

#[test]
fn colliders_have_a_header() {
    let one = 1.0f32.to_bits();
    let positions = vec![0, 0, 0, one, 0, 0, 0, one, 0];
    let (bytes, triangles) = write_collider(&positions, &Some(vec![0, 1, 2])).unwrap();
    assert_eq!(triangles, 1);
    assert_eq!(&bytes[0..4], b"ACOL");
    assert_eq!(bytes.len(), 16 + 9 * 4 + 3 * 4);
    assert_eq!(&bytes[8..16], [3, 0, 0, 0, 1, 0, 0, 0]);
    assert!(write_collider(&Vec::new(), &None).is_none());
}

#[test]
fn clips_are_transcoded_by_name_path() {
    let d = scene();
    let trees = roots(&d);
    let paths = node_name_paths(&d, &trees);
    assert_eq!(paths[1], Some(vec!["root".to_string(), "chair \"one\"".to_string()]));
    let sample = |node: usize, linear: bool| Sample {
        node,
        linear,
        times: Some(vec![0]),
        keys: Keys::Translations(vec![1, 2, 3]),
    };
    let samples = vec![sample(1, true), sample(0, true), sample(2, false)];
    let (kept, skipped) = gather(&samples);
    assert_eq!((kept.len(), skipped), (2, 1));
    let clip = transcode_animclip(&d, &trees, &samples);
    assert_eq!((clip.targets, clip.skipped), (2, 1));
    let again = transcode_animclip(&d, &trees, &vec![sample(0, true), sample(1, true)]);
    assert_eq!(clip.bytes, again.bytes);
    let other = transcode_animclip(&d, &trees, &vec![sample(0, true)]);
    assert_ne!(clip.bytes, other.bytes);
}

#[test]
fn meshes_take_what_covers_them() {
    assert_eq!(env_u32(Some("7"), 2), 7);
    assert_eq!(env_u32(Some("-7"), 2), 2);
    assert_eq!(env_u32(None, 2), 2);
    let p = submesh_parts(9, 6, 3).unwrap();
    assert!(p.vertices == 3 && p.uvs && !p.normals);
    assert!(submesh_parts(0, 0, 0).is_none());
    let q = primitive_parts(Some(3), Some(3), Some(2), Some(3), Some(3)).unwrap();
    assert!(q.normals && !q.uvs && q.skin);
    assert!(!primitive_parts(Some(3), None, Some(3), Some(3), None).unwrap().skin);
    assert!(primitive_parts(Some(0), None, None, None, None).is_none());
    assert!(primitive_parts(None, None, None, None, None).is_none());
    assert_eq!(first_triangles(&scene().meshes), Ok((0, 1)));
    assert_eq!(first_triangles(&Vec::new()), Err("no triangle primitive".to_string()));
    assert!(bakes(false, false) && bakes(true, true) && !bakes(true, false));
}

#[test]
fn flat_entities_are_placed() {
    let d = scene();
    let mut out = String::new();
    write_entity_trs(&mut out, "kit", "mesh0_1", " wood,", "chair", &d.nodes[1].transform, None);
    assert!(!out.contains("CollisionMesh"));
    write_entity_trs(&mut out, "kit", "a", "", "b", &d.nodes[1].transform, Some("hull"));
    assert!(out.contains("CollisionMesh(\"kit/meshes/hull.collider\")"));
    assert!(out.contains("Name(\"chair\")"));
    assert!(out.contains("translation: glam::Vec3 { x: 1.0, y: 2.5, z: -3.0 }"));
    assert!(out.contains("kit/meshes/mesh0_1.cluster_mesh"));
    let n = Number { bits: 0, text: "0.0".to_string() };
    assert_eq!(n.text, "0.0");
}

#[test]
fn dim_emitters_are_told_why() {
    let text = |s: &str| s.to_string();
    let mut d = Dimness {
        exposure: 0.00036f32.to_bits(),
        brightest: 0.5f32.to_bits(),
        peak: text("0.500"),
        luminance: text("0.36"),
        black: text("0.00036"),
        exposed: text("0.0004"),
        needed: text("100"),
    };
    assert_eq!(
        dim_warning("neon", &d).unwrap(),
        "neon: emissive peak 0.500 <= 1.0 — looks like a glTF [0,1] FACTOR, not radiance. \
         Exposed at EV100 9.7 it renders 0.00036 (black). Scale to nits (>= 100) or set \
         `emissive_nits` for this material."
    );
    d.brightest = (1.0f32 + f32::EPSILON).to_bits();
    assert!(dim_warning("neon", &d).unwrap().contains("FACTOR"));
    d.brightest = 1.001f32.to_bits();
    assert_eq!(
        dim_warning("neon", &d).unwrap(),
        "neon: emissive luminance 0.36 nits exposes to 0.0004, under 0.1 of the white point — \
         visible as near-black. Authored in scene-relative units? (>= 100 nits reads as a dim \
         emitter; ~1000 is white.)"
    );
    for (v, dim) in [(0.1f32, false), (0.099999, true), (-1.0, true), (f32::NAN, false), (5.0, false)] {
        d.exposure = v.to_bits();
        assert_eq!(dim_warning("neon", &d).is_some(), dim, "{v}");
    }
}
