use scene_tools::img::{
    classify_cutmask, displacement_base, displacement_index, invert_depth, map_output,
    material_is_cutmask, normalize_depth_map, texture_is_cutmask, CutmaskAnswer, MapOutput, Picture,
    Rgba, Samples,
};
use scene_tools::islands::{despeckle_alpha, despeckle_report, find_islands, largest_area};
use scene_tools::mask::erode_alpha;
use scene_tools::names::{
    ext_for_mime, group_scene_name, looks_like_height_name, match_displacement, percent_decode,
    safe, unique_name,
};
use scene_tools::obj::{
    assign_owners, diffuse_key, find_references, keep_submeshes, list_textures, mesh_stem,
    plan_bakes, plan_entities, submesh_kept, texture_copy, ObjMaterial, ObjModel, SubmeshInfo,
};
use scene_tools::omm::{
    check_shape, choose_format, globalise_indices, index_format_bytes, judge_bake,
    read_omm_indices, BakeShape, ClusterSpan, OmmBake, OmmOutcome,
};
use scene_tools::speedtree::{
    is_leaf_material, leaf_file,    choose_bake, clump_draws, clump_name, clump_stem, merge_indices, TreeBake, TreeKey,
};
use scene_tools::text::{decimal_text, parse_number, trim};

fn mask(rows: &[&str]) -> Vec<bool> {
    rows.iter().flat_map(|r| r.chars().map(|c| c == '#')).collect()
}

#[test]
fn erosion_peels_the_edge() {
    let m = mask(&[".....", ".###.", ".###.", ".###.", "....."]);
    assert_eq!(erode_alpha(&m, 5, 5, 1), mask(&[".....", ".....", "..#..", ".....", "....."]));
    assert_eq!(erode_alpha(&m, 5, 5, 0), m);
    let twice = erode_alpha(&erode_alpha(&m, 5, 5, 1), 5, 5, 1);
    assert_eq!(erode_alpha(&m, 5, 5, 2), twice);
    assert_eq!(erode_alpha(&vec![true; 4], 2, 2, 1), vec![false; 4]);
}

#[test]
fn small_islands_go_whole() {
    let m = mask(&["##..#", "##...", "...#.", "#...."]);
    let islands = find_islands(&m, 5, 4);
    assert_eq!(largest_area(&islands, &m, 5), 4);
    let d = despeckle_alpha(&m, 5, &islands, 2);
    assert_eq!(d.mask, mask(&["##...", "##...", ".....", "....."]));
    assert_eq!((d.kept_islands, d.removed_islands, d.removed_texels), (1, 3, 3));
    assert_eq!(
        despeckle_report("leaf.png", &d, 2).as_deref(),
        Some("  despeckle leaf.png: kept 1 island(s), dropped 3 (<2px) = 3 texels")
    );
    let diagonal = mask(&["#.", ".#"]);
    assert_eq!(largest_area(&find_islands(&diagonal, 2, 2), &diagonal, 2), 2);
}

#[test]
fn micromap_indices_are_read() {
    assert_eq!(read_omm_indices(&vec![255, 1, 254], 3, 1), vec![-1, 1, -2]);
    assert_eq!(read_omm_indices(&vec![0xff, 0xff, 2, 1], 2, 2), vec![-1, 258]);
    assert_eq!(read_omm_indices(&vec![0xfc, 0xff, 0xff, 0xff], 1, 4), vec![-4]);
    assert_ne!(choose_format(4), choose_format(2));
    assert_eq!(choose_format(7), choose_format(2));
    assert!(index_format_bytes(0) > 0);
    let spans = vec![
        ClusterSpan { index_offset: 0, triangle_count: 1, vertex_offset: 0 },
        ClusterSpan { index_offset: 3, triangle_count: 1, vertex_offset: 10 },
    ];
    assert_eq!(globalise_indices(&spans, &vec![0, 1, 2, 0, 1, 2]), vec![0, 1, 2, 10, 11, 12]);
    assert!(check_shape(&BakeShape { alpha_len: 4, width: 2, height: 2, uvs_len: 6, indices_len: 3 }));
    assert!(!check_shape(&BakeShape { alpha_len: 3, width: 2, height: 2, uvs_len: 6, indices_len: 3 }));
}

fn bake(descs: usize, indices: usize) -> OmmBake {
    OmmBake {
        array_data: vec![0; 5],
        descs: vec![(0, 1, 1); descs],
        desc_histogram: Vec::new(),
        indices: vec![0; indices],
        index_format_bytes: 4,
        index_histogram: Vec::new(),
        stat_opaque: 0,
        stat_transparent: 0,
        stat_unknown_opaque: 0,
        stat_unknown_transparent: 0,
    }
}

#[test]
fn bakes_are_judged() {
    assert!(matches!(judge_bake(&bake(2, 3), 9), OmmOutcome::Attach { omms: 2, bytes: 5 }));
    assert!(matches!(judge_bake(&bake(0, 3), 9), OmmOutcome::Uniform));
    assert!(matches!(
        judge_bake(&bake(1, 2), 9),
        OmmOutcome::Mismatch { indices: 2, triangles: 3 }
    ));
}

#[test]
fn names_are_kept_apart() {
    let mut used = Vec::new();
    assert_eq!(unique_name(Some("oak bark"), 3, "png", &mut used), "oak_bark.png");
    assert_eq!(unique_name(Some("oak bark"), 4, "png", &mut used), "oak_bark_1.png");
    assert_eq!(unique_name(None, 5, "jpg", &mut used), "image_5.jpg");
    let mut groups = Vec::new();
    assert_eq!(group_scene_name(Some("cart"), 0, &mut groups), "cart");
    assert_eq!(group_scene_name(Some("cart"), 1, &mut groups), "cart_1");
    assert_eq!(group_scene_name(None, 2, &mut groups), "group_2");
    assert_eq!(group_scene_name(Some("mesh"), 7, &mut groups), "mesh");
    assert_eq!(group_scene_name(Some(""), 7, &mut groups), "group_7");
    assert_eq!(ext_for_mime("image/jpeg"), "jpg");
    assert_eq!(percent_decode("a%20b%C3%A9%zz"), "a bé%zz");
    assert_eq!(percent_decode("%ff"), "\u{fffd}");
    assert_eq!(safe("Bark Oak (Image)-x", 2), "Bark_Oak");
    assert_eq!(safe("()", 2), "img2");
}

#[test]
fn height_maps_find_their_diffuse() {
    assert!(looks_like_height_name("wood_disp.png"));
    assert!(!looks_like_height_name("wood_INV.png"));
    let maps = vec![
        ("wood".to_string(), "wood_disp.png".to_string()),
        ("wood_old".to_string(), "wood_old_disp.png".to_string()),
    ];
    assert_eq!(match_displacement("wood_old_diff.png", &maps), Some("wood_old_disp.png"));
    assert_eq!(match_displacement("stone.png", &maps), None);
    assert!(displacement_base("Wood_Displace.png").as_deref() == Some("wood"));
    assert_eq!(displacement_base("wood.png"), None);
    let index = displacement_index(&vec!["wood.png".to_string(), "wood_displace.png".to_string()]);
    assert_eq!(index.len(), 1);
}

fn rgba(alpha: &[u8]) -> Rgba {
    Rgba {
        width: alpha.len() as u32,
        height: 1,
        data: alpha.iter().flat_map(|a| [9, 9, 9, *a]).collect(),
    }
}

#[test]
fn cutmasks_have_both_ends() {
    assert!(classify_cutmask(&rgba(&[0, 255, 0, 255])));
    assert!(!classify_cutmask(&rgba(&[255, 255, 255, 255])));
    assert!(!classify_cutmask(&rgba(&[100, 120, 130, 140])));
    assert!(!texture_is_cutmask(&None));
    assert!(texture_is_cutmask(&Some(rgba(&[0, 255, 0, 255]))));
    assert!(!texture_is_cutmask(&Some(rgba(&[255, 255]))));
    assert!(!texture_is_cutmask(&Some(Rgba { width: 2, height: 1, data: vec![1, 2, 3] })));
    assert!(matches!(material_is_cutmask(None, &None, &Vec::new()), CutmaskAnswer::Known(false)));
    let tex = Some("a\\leaf.png".to_string());
    assert!(matches!(material_is_cutmask(None, &tex, &Vec::new()), CutmaskAnswer::Look(_)));
}

fn picture(channels: usize, samples: Samples) -> Picture {
    Picture { width: 2, height: 1, channels, samples }
}

fn bytes_of(p: &Picture) -> Vec<u8> {
    match &p.samples {
        Samples::Eight(v) => v.clone(),
        Samples::Sixteen(_) => unreachable!(),
    }
}

#[test]
fn depth_maps_are_inverted() {
    let luma = picture(1, Samples::Eight(vec![10, 200]));
    assert_eq!(bytes_of(&invert_depth(&luma)), vec![245, 55]);
    assert_eq!(bytes_of(&invert_depth(&invert_depth(&luma))), vec![10, 200]);
    let clear = picture(2, Samples::Eight(vec![0, 7, 255, 9]));
    assert_eq!(bytes_of(&invert_depth(&clear)), vec![255, 7, 0, 9]);
    let rgba = picture(4, Samples::Eight(vec![1, 2, 3, 4, 5, 6, 7, 8]));
    assert_eq!(bytes_of(&invert_depth(&rgba)), vec![254, 253, 252, 4, 250, 249, 248, 8]);
    match invert_depth(&picture(1, Samples::Sixteen(vec![0, 1000]))).samples {
        Samples::Sixteen(v) => assert_eq!(v, vec![65535, 64535]),
        Samples::Eight(_) => unreachable!(),
    }
    assert_eq!(bytes_of(&normalize_depth_map(&luma, true)), vec![245, 55]);
    assert_eq!(bytes_of(&normalize_depth_map(&luma, false)), vec![10, 200]);
    assert!(matches!(map_output(true, &None), MapOutput::Copy));
    assert!(matches!(map_output(false, &Some(luma)), MapOutput::Copy));
    match map_output(true, &Some(picture(1, Samples::Eight(vec![0])))) {
        MapOutput::Write(p) => assert_eq!(bytes_of(&p), vec![255]),
        MapOutput::Copy => unreachable!(),
    }
}

fn model(name: &str, positions: usize, material: Option<usize>) -> ObjModel {
    ObjModel {
        name: name.to_string(),
        positions_len: positions,
        indices_len: positions,
        material_id: material,
    }
}

#[test]
fn submeshes_are_shared_with_their_owner() {
    let materials = vec![ObjMaterial {
        diffuse_texture: Some("t\\leaf.png".to_string()),
        normal_texture: None,
        illumination_model: None,
    }];
    let models = vec![model("a", 9, Some(0)), model("b", 9, Some(0)), model("c", 6, None)];
    assert_eq!(diffuse_key(&models[0], &materials), "leaf.png");
    assert_eq!(diffuse_key(&models[2], &materials), "<none>");
    let refs = find_references(&models, &materials, true);
    assert_eq!(refs, vec![0, 0, 2]);
    assert_eq!(find_references(&models, &materials, false), vec![0, 1, 2]);
    let (owner, shared) = assign_owners(&refs, &vec![true, true, true]);
    assert_eq!((owner.clone(), shared), (vec![0, 0, 2], 1));
    let (own, none) = assign_owners(&refs, &vec![true, false, true]);
    assert_eq!((own, none), (vec![0, 1, 2], 0));
    assert_eq!(plan_bakes(&owner, &vec![false, true, true]), vec![0, 2]);
    assert_eq!(
        plan_entities(&owner, &vec![true, true, true], &vec![true, false, false]),
        vec![2]
    );
    let filter = Some(|s: &SubmeshInfo| s.name != "a");
    assert!(!submesh_kept(&filter, &models, &materials, &vec![false], 0));
    assert!(submesh_kept(&filter, &models, &materials, &vec![false], 1));
    let more = vec![model("a", 9, None), model("b", 9, None), model("c", 2, None)];
    assert_eq!(keep_submeshes(&filter, &more, &materials, &vec![]), vec![false, true, false]);
    let unfiltered: Option<fn(&SubmeshInfo) -> bool> = None;
    assert_eq!(keep_submeshes(&unfiltered, &more, &materials, &vec![]), vec![true, true, false]);
    assert_eq!(list_textures(&models, &materials), vec!["t\\leaf.png".to_string()]);
    assert_eq!(texture_copy("t\\leaf.png"), ("t/leaf.png".to_string(), "leaf.png".to_string()));
    assert!(mesh_stem(&models[1], 1).contains('b'));
}

#[test]
fn trees_are_baked_per_world() {
    let key = |w: u32| TreeKey { mesh: 1, prim: 0, world: [w; 16] };
    assert!(matches!(choose_bake("oak", &Vec::new(), &key(1)), TreeBake::New(s) if s == "oak_m1p0"));
    let done = vec![key(1)];
    assert!(matches!(choose_bake("oak", &done, &key(1)), TreeBake::Shared(0)));
    assert!(matches!(choose_bake("oak", &done, &key(2)), TreeBake::New(s) if s == "oak_m1p0_w1"));
    assert_eq!(merge_indices(&vec![0, 2, 1], 3, 2), vec![0, 2, 1, 3, 5, 4]);
    assert_eq!(clump_draws("oak", 3).len(), 3);
    assert_ne!(clump_draws("oak", 3), clump_draws("elm", 3));
    assert_ne!(clump_name("oak", 4), clump_stem("oak", 4, 0));
}

fn reference_draws(seed: &str, k: u32) -> Vec<[u32; 3]> {
    let mut h: u32 = 2166136261;
    for b in seed.bytes() {
        h = (h ^ b as u32).wrapping_mul(16777619);
    }
    let mut next = move || {
        h = h.wrapping_mul(747796405).wrapping_add(2891336453);
        let w = ((h >> ((h >> 28) + 4)) ^ h).wrapping_mul(277803737);
        (w >> 22) ^ w
    };
    (0..k).map(|_| [next(), next(), next()]).collect()
}

#[test]
fn clumps_are_seeded_by_name() {
    assert_eq!(clump_draws("White_Oak", 5), reference_draws("White_Oak", 5));
}

#[test]
fn texts_are_trimmed_and_counted() {
    assert_eq!(trim("\u{a0} a b\t\n"), "a b");
    assert_eq!(parse_number("+42", 100), Some(42));
    assert_eq!(parse_number("101", 100), None);
    assert_eq!(parse_number("", 100), None);
    assert_eq!(decimal_text(1200), "1200");
}

#[test]
fn erosion_and_despeckling_settle() {
    let mask = vec![true; 49];
    let once = erode_alpha(&erode_alpha(&mask, 7, 7, 1), 7, 7, 2);
    assert_eq!(once, erode_alpha(&mask, 7, 7, 3));
    assert_eq!(once.iter().filter(|x| **x).count(), 1);
    let spotty = vec![true, true, false, false, false, true];
    let left = despeckle_alpha(&spotty, 6, &find_islands(&spotty, 6, 1), 2).mask;
    assert_eq!(left, vec![true, true, false, false, false, false]);
    let again = despeckle_alpha(&left, 6, &find_islands(&left, 6, 1), 2);
    assert_eq!((again.mask, again.removed_islands), (left, 0));
}

#[test]
fn leaves_are_cut_against_their_texture() {
    let d = scene_tools::document::parse_document(
        &br#"{"asset": {"version": "2.0"}, "materials": [
          {"pbrMetallicRoughness": {"baseColorTexture": {"index": 0}}},
          {"pbrMetallicRoughness": {"baseColorTexture": {"index": 1}}}, {}],
          "textures": [{"source": 0}, {"source": 1}],
          "images": [{"uri": "a.png"}, {"uri": "b.png"}]}"#
            .to_vec(),
    )
    .unwrap_or_else(|e| panic!("{e}"));
    let files = vec![Some("oak_a.png".to_string()), Some("oak_b.png".to_string())];
    let cut = vec![true, false];
    let leaf = |i: usize| leaf_file(&d.material(Some(i)), &cut, &files);
    assert_eq!(leaf(0).as_deref(), Some("oak_a.png"));
    assert_eq!((leaf(1), leaf(2)), (None, None));
    assert!(is_leaf_material(&d.material(Some(0)), &cut));
}
