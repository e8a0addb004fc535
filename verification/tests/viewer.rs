use scene_tools::viewer::{
    grid_texture, normalize, parks, parse_preset, parse_vec3, split_vector, viewer_title, Preset,
    SkyCycle,
};

#[test]
fn presets_have_three_names() {
    assert_eq!(parse_preset("default"), Ok(Preset::Default));
    assert_eq!(parse_preset("e"), Ok(Preset::E));
    assert_eq!(parse_preset("E"), Err("expected default|d|e".to_string()));
}

#[test]
fn vectors_have_three_parts() {
    assert_eq!(split_vector(" 1, -2.5 ,3"), ["1", "-2.5", "3"]);
    assert_eq!(split_vector(""), [""]);
    assert_eq!(parse_vec3(&vec![1, 2, 3]), Ok((1, 2, 3)));
    assert_eq!(parse_vec3(&vec![1, 2]), Err("expected x,y,z".to_string()));
}

fn names(v: &[&str]) -> Vec<String> {
    v.iter().map(|s| s.to_string()).collect()
}

#[test]
fn skies_cycle_both_ways() {
    let mut c = SkyCycle::discover(&names(&["b.hdr", "x.txt", "a.EXR", "hdr"]), None);
    let list: Vec<Option<&str>> = c.entries.iter().map(|e| e.as_deref()).collect();
    assert_eq!(list, vec![None, Some("sky/a.EXR"), Some("sky/b.hdr"), Some("sky/hdr")]);
    assert_eq!(c.sky_line(), "sky 1/4: procedural");
    c.step(false);
    assert_eq!(c.index, 3);
    c.step(true);
    assert_eq!(c.current(), None);
    c.step(true);
    assert_eq!(c.current().as_deref(), Some("sky/a.EXR"));
    assert_eq!(c.sky_line(), "sky 2/4: sky/a.EXR");
}

#[test]
fn the_start_sky_is_found_or_added() {
    let c = SkyCycle::discover(&names(&["b.hdr"]), Some("sky/b.hdr"));
    assert_eq!((c.entries.len(), c.index), (2, 1));
    let d = SkyCycle::discover(&names(&["b.hdr"]), Some("other/c.hdr"));
    assert_eq!((d.entries.len(), d.index), (3, 2));
    let mut e = SkyCycle::discover(&Vec::new(), None);
    e.step(true);
    assert_eq!(e.index, 0);
}

#[test]
fn scene_arguments_are_reduced() {
    assert_eq!(normalize("assets/a/b.bsn", None).as_deref(), Some("a/b.bsn"));
    assert_eq!(normalize("/x/assets/a.bsn", Some("a.bsn")).as_deref(), Some("a.bsn"));
    assert_eq!(normalize("a.bsn", None).as_deref(), Some("a.bsn"));
    assert_eq!(normalize("assets/dir", Some("dir")), None);
    assert_eq!(viewer_title(&names(&["a.bsn"])), "bsn — a.bsn");
    assert_eq!(viewer_title(&names(&["a", "b"])), "bsn — 2 scenes");
}

#[test]
fn the_camera_parks_over_panels() {
    assert!(parks(&vec![vec![], vec![false, true]]));
    assert!(!parks(&vec![vec![false]]));
    assert!(!parks(&Vec::new()));
}

#[test]
fn the_floor_is_ruled() {
    let t = grid_texture();
    assert_eq!(t.len(), 256 * 256 * 4);
    let texel = |x: usize, y: usize| &t[(y * 256 + x) * 4..(y * 256 + x) * 4 + 4];
    assert_eq!(texel(1, 100), [66, 71, 81, 255]);
    assert_eq!(texel(64, 100), [30, 33, 38, 255]);
    assert_eq!(texel(100, 100), [14, 14, 16, 255]);
    let channel = |c: f32| (c * 255.0) as u8;
    assert_eq!(
        [0.055, 0.058, 0.065, 0.12, 0.13, 0.15, 0.26, 0.28, 0.32].map(channel),
        [14, 14, 16, 30, 33, 38, 66, 71, 81]
    );
}

#[test]
fn the_floor_is_grey() {
    let tile = grid_texture();
    assert_eq!(&tile[0..4], [66, 71, 81, 255]);
    assert!(tile.chunks_exact(4).all(|t| t[..3].iter().all(|&c| 0 < c && c < 255)));
}
