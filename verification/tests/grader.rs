use scene_tools::exam::{announce_window, fingerprint_line};
use scene_tools::grader::{
    dump_dims, furnace_args, ladder, launch_args, must_bake, png_dims, scope_of, select_configs,
    strip_ansi, truth_args, truth_files, uses_nrc, FurnaceRun, Protocol, Scope,
};

#[test]
fn scopes_follow_the_config_text() {
    assert_eq!(scope_of("(mode: Reference((gi : None)))"), Scope::NoGi);
    assert_eq!(scope_of("(gi: Some((only: true)))"), Scope::GiOnly);
    assert_eq!(scope_of("(mode: Realtime(()))"), Scope::Full);
    for scope in [Scope::Full, Scope::NoGi, Scope::GiOnly] {
        assert_eq!(scope_of(scope.truth_camera()), scope);
    }
    assert_eq!(Scope::GiOnly.prefix(), "truth-gionly");
}

#[test]
fn configs_are_selected_by_text() {
    assert_eq!(select_configs(Some("(x)"), Some("y")), vec!["(x)".to_string()]);
    assert_eq!(select_configs(None, None), ladder());
    let some = select_configs(None, Some("Realtime"));
    assert!(some.iter().all(|c| c.contains("Realtime")));
    assert!(select_configs(None, Some("no such thing")).is_empty());
    assert!(uses_nrc("(nrc: true)"));
    assert!(uses_nrc("(mode: Realtime (()))"));
    assert!(!uses_nrc("(nrc: false)"));
}

#[test]
fn launches_get_their_arguments() {
    let p = Protocol { accum: false, no_dlss: false, shots: 0, orbit: Some(600) };
    let extra = vec!["--lamp-law".to_string()];
    assert_eq!(
        furnace_args("(c)", &p, "12", &extra),
        [
            "--camera", "(c)", "--no-ui", "--spp", "1", "--shot-at-secs", "12", "--shot-frames", "1",
            "--dlss", "--orbit", "600", "--fps", "--lamp-law"
        ]
    );
    let a = Protocol { accum: true, no_dlss: true, shots: 4, orbit: None };
    assert_eq!(
        furnace_args("(c)", &a, "20", &Vec::new()),
        ["--camera", "(c)", "--no-ui", "--accum", "--spp", "16", "--dump-at-secs", "20", "--fps"]
    );
    assert_eq!(
        truth_args(Scope::NoGi, 64),
        [
            "--camera", "(mode: Reference((gi: None)))", "--accum", "--spp", "32", "--dump-at-spp",
            "64", "--shot-on-dump", "--no-ui"
        ]
    );
    assert_eq!(
        launch_args("room", "24", &extra),
        ["run", "--release", "-p", "solari_furnace", "--", "--scene", "room", "-t", "24", "--lamp-law"]
    );
}

#[test]
fn truth_is_cached_under_its_scope() {
    let f = truth_files(Scope::NoGi, 8192);
    assert_eq!(f.exr, "truth-nogi-8192spp.exr");
    assert_eq!(f.shot, "truth-nogi-8192spp.shot.png");
    assert_eq!(f.render, "truth-nogi-8192spp.render.png");
    assert_eq!(f.dims, "truth-nogi.dims");
    assert_eq!(f.fp, "truth-nogi.fp");
    assert!(must_bake(false, true, false, true));
    assert!(must_bake(true, true, true, true));
    assert!(!must_bake(false, true, true, true));
}

#[test]
fn colours_are_dropped_from_lines() {
    assert_eq!(strip_ansi("\u{1b}[32m INFO\u{1b}[0m: ok"), " INFO: ok");
    assert_eq!(strip_ansi("plain"), "plain");
    assert_eq!(strip_ansi("end\u{1b}[3"), "end");
}

#[test]
fn dimensions_are_read() {
    assert_eq!(dump_dims("solari-1600x900-64spp-1.exr").as_deref(), Some("1600x900"));
    assert_eq!(dump_dims("other.exr"), None);
    let mut bytes: Vec<u8> = Vec::new();
    {
        let mut e = png::Encoder::new(&mut bytes, 3, 2);
        e.set_color(png::ColorType::Grayscale);
        e.set_depth(png::BitDepth::Eight);
        let mut w = e.write_header().unwrap();
        w.write_image_data(&[0u8; 6]).unwrap();
    }
    assert_eq!(png_dims(&bytes).as_deref(), Some("3x2"));
    assert_eq!(png_dims(&vec![1, 2, 3]), None);
}

#[test]
fn a_run_is_read_line_by_line() {
    let mut run = FurnaceRun::new();
    let news = run.feed("solari_camera_name: fast ", true, true);
    assert!(!news.done && news.frame_time.is_none() && !news.alarm);
    run.feed("solari_camera: (a: 1)", true, true);
    run.feed("solari_default: D", true, true);
    run.feed("solari_scene_fp: 00ff-Room", true, true);
    run.feed("\u{1b}[32mINFO\u{1b}[0m solari window: 1600x900", true, true);
    let dumped = run.feed("solari dump: wrote target/tmp/a.exr (64 spp)", true, true);
    assert!(!dumped.done);
    let shot = run.feed("solari shot: wrote target/tmp/s.png", true, true);
    assert!(shot.done);
    assert_eq!(run.camera_name.as_deref(), Some("fast"));
    assert_eq!(run.camera_ron.as_deref(), Some("(a: 1)"));
    assert_eq!(run.default_config.as_deref(), Some("D"));
    assert_eq!(run.scene_fp.as_deref(), Some("00ff-Room"));
    assert_eq!(run.window_dims, "1600x900");
    assert_eq!(run.dump.as_deref(), Some("target/tmp/a.exr"));
    assert_eq!(run.dump_spp, Some(64));
    assert_eq!(run.shots, vec!["target/tmp/s.png".to_string()]);
    let t = run.feed("frame_time : 8.1ms (avg 8.25ms)", false, false);
    assert_eq!(t.frame_time.as_deref(), Some("8.25"));
    assert!(run.feed("thread panicked at", false, false).alarm);
}

#[test]
fn a_wrong_window_ends_the_run_once() {
    let mut run = FurnaceRun::new();
    assert!(!run.tick(1, Some("8x6")));
    run.feed("solari window: 4x3", false, false);
    assert!(!run.tick(2, None));
    assert!(run.tick(3, Some("8x6")));
    assert!(run.wrong_size);
    assert!(!run.tick(4, Some("8x6")));
    assert_eq!(run.frame_ms, vec![1, 2, 3, 4]);
}

#[test]
fn what_a_run_tells_reads_back() {
    let mut run = FurnaceRun::new();
    let told = fingerprint_line(0x1f, "room");
    run.feed(&format!("\u{1b}[32m INFO\u{1b}[0m furnace: {told} "), false, false);
    assert_eq!(run.scene_fp.as_deref(), Some("000000000000001f-room"));
    let mut last = (0, 0);
    let size = announce_window(&mut last, (1920, 1080)).unwrap();
    run.feed(&format!("INFO {size}"), false, false);
    assert_eq!(run.window_dims, "1920x1080");
    assert_eq!(dump_dims("solari-1920x1080-16spp-3.exr").as_deref(), Some("1920x1080"));
}
