use scene_tools::grader::{Protocol, Scope};
use scene_tools::report::{
    escape, flip_args, flip_mean, flip_mean_args, judge_capture, median, name_record, needed_scopes,
    needs_warmup, order_rows, protocol_label, protocol_name, relaunches, row_name, shown_scope,
    table_head, table_row, table_title, truth_is_stale, write_csv, write_json, CaptureVerdict,
    Measure, Row, RunHead,
};

fn measure(v: f64, short: &str) -> Option<Measure> {
    Some(Measure { bits: v.to_bits(), text: v.to_string(), short: short.to_string() })
}

fn row(name: &str, flip: Option<Measure>, flicker: Option<Measure>) -> Row {
    Row {
        recipe: name.to_string(),
        flip,
        frame_ms: measure(8.5, "8.50"),
        product: None,
        spp: None,
        map: None,
        render: Some(format!("{name}.render.png")),
        camera: Some("(a: \"b\\c\")".to_string()),
        flicker,
    }
}

fn protocol(accum: bool, no_dlss: bool, orbit: Option<u32>) -> Protocol {
    Protocol { accum, no_dlss, shots: 1, orbit }
}

fn head(label: &str) -> RunHead {
    RunHead {
        scene: "room".to_string(),
        label: label.to_string(),
        protocol: protocol(true, false, None),
        time_secs: "20".to_string(),
        truth_spp: 64,
        timestamp: 1700000000,
        default_config: "\"x\"".to_string(),
        scope: Scope::NoGi,
    }
}

fn bits(v: &[f64]) -> Vec<u64> {
    v.iter().map(|x| x.to_bits()).collect()
}

#[test]
fn median_skips_the_warmup_half() {
    assert_eq!(median(&bits(&[9.0, 9.0, 3.0, 1.0, 2.0])), Some(2.0f64.to_bits()));
    assert_eq!(median(&bits(&[4.0])), Some(4.0f64.to_bits()));
    assert_eq!(median(&bits(&[-1.0, 5.0])), Some(5.0f64.to_bits()));
    assert_eq!(median(&bits(&[0.0, 0.0, -2.0, -3.0])), Some((-2.0f64).to_bits()));
    assert_eq!(median(&Vec::new()), None);
}

#[test]
fn the_mean_is_found_in_the_output() {
    assert_eq!(flip_mean("Invoking\n\tMean:  0.125 \r\nMean: 9\n").as_deref(), Some("0.125"));
    assert_eq!(flip_mean("Median: 1\n"), None);
    assert_eq!(flip_mean(""), None);
}

#[test]
fn rows_are_ordered_by_error_then_flicker() {
    let rows = vec![
        row("none", None, None),
        row("flick", None, measure(0.2, "0.2000")),
        row("good", measure(0.1, "0.1000"), None),
        row("bad", measure(0.3, "0.3000"), measure(0.0, "0.0000")),
        row("tie", None, measure(0.2, "0.2000")),
    ];
    assert_eq!(order_rows(&rows), vec![2, 1, 4, 3, 0]);
}

#[test]
fn the_table_lines_up() {
    assert_eq!(
        table_head(),
        "config                   FLIP   flicker    avg ms   FLIP·ms     spp"
    );
    let mut r = row("good", measure(0.1, "0.1000"), None);
    r.spp = Some(16);
    r.product = measure(0.85, "0.850");
    assert_eq!(
        table_row(&r),
        "good                   0.1000         -      8.50     0.850      16"
    );
    assert_eq!(
        table_title(&head("")),
        "scene room | 20s equal-time exam | truth 64 spp | FLIP·ms = error × cost (lower is better on every column)"
    );
}

#[test]
fn csv_lists_the_rows_in_order() {
    let mut a = row("a", measure(0.5, "0.5"), None);
    a.spp = Some(3);
    let b = row("b", None, measure(0.25, "0.25"));
    assert_eq!(
        write_csv(&vec![a, b], &vec![1, 0]),
        "config,flip_mean,flicker,avg_frame_ms,flip_x_ms,spp\nb,,0.25,8.5,,\na,0.5,,8.5,,3\n"
    );
}

#[test]
fn json_records_the_run() {
    let rows = vec![row("a", measure(0.5, "0.5"), None), row("b", None, None)];
    let text = write_json(&head("my \"label\""), &rows, &vec![0, 1]);
    assert_eq!(
        text,
        "{\n  \"scene\": \"room\",\n  \"label\": \"my label\",\n  \"protocol\": \"exam\",\n  \"time_secs\": 20,\n  \"truth_spp\": 64,\n  \"timestamp\": 1700000000,\n  \"default_config\": \"\\\"x\\\"\",\n  \"truth_render\": \"truth-nogi-64spp.render.png\",\n  \"rows\": [\n    {\"recipe\": \"a\", \"flip\": 0.5, \"flicker\": null, \"frame_ms\": 8.5, \"spp\": null, \"map\": null, \"render\": \"a.render.png\", \"camera\": \"(a: \\\"b\\\\c\\\")\"},\n    {\"recipe\": \"b\", \"flip\": null, \"flicker\": null, \"frame_ms\": 8.5, \"spp\": null, \"map\": null, \"render\": \"b.render.png\", \"camera\": \"(a: \\\"b\\\\c\\\")\"}\n  ]\n}\n"
    );
    assert_eq!(escape("a\\\"b"), "a\\\\\\\"b");
}

#[test]
fn records_are_named_by_time_and_label() {
    assert_eq!(name_record(17, ""), "17.json");
    assert_eq!(name_record(17, "a/b c-d"), "17-a_b_c-d.json");
}

#[test]
fn protocols_have_names() {
    assert_eq!(protocol_label(&protocol(true, true, None)), "equal-time exam");
    assert_eq!(protocol_name(&protocol(true, true, None)), "exam");
    assert_eq!(protocol_name(&protocol(false, true, None)), "per-frame");
    assert_eq!(protocol_name(&protocol(false, true, Some(3))), "per-frame+motion");
    assert_eq!(protocol_name(&protocol(false, false, None)), "per-frame+dlss");
    assert_eq!(protocol_label(&protocol(false, false, Some(1))), "per-frame+dlss+motion");
}

#[test]
fn captures_must_match_the_truth() {
    assert_eq!(judge_capture(false, "", ""), CaptureVerdict::Missing);
    assert_eq!(judge_capture(true, "8x6", "8x9"), CaptureVerdict::Mismatched);
    assert_eq!(judge_capture(true, "8x6", ""), CaptureVerdict::Usable);
    assert_eq!(judge_capture(true, "8x6", "8x6"), CaptureVerdict::Usable);
    assert!(truth_is_stale(&Some("a".to_string()), "b"));
    assert!(!truth_is_stale(&Some("a".to_string()), ""));
    assert!(!truth_is_stale(&Some("a".to_string()), "a"));
    assert!(!truth_is_stale(&None, "b"));
}

#[test]
fn scopes_are_baked_once_each() {
    let configs: Vec<String> = ["(gi: None)", "(x)", "( gi : None )"].iter().map(|s| s.to_string()).collect();
    assert_eq!(needed_scopes(&configs), vec![Scope::NoGi, Scope::Full]);
    assert_eq!(shown_scope(&vec![Scope::NoGi, Scope::Full]), Some(Scope::Full));
    assert_eq!(shown_scope(&vec![Scope::GiOnly, Scope::NoGi]), Some(Scope::NoGi));
    assert_eq!(shown_scope(&Vec::new()), None);
}

#[test]
fn runs_are_launched_up_to_three_times() {
    assert!(relaunches(2, true));
    assert!(!relaunches(3, true));
    assert!(!relaunches(1, false));
    assert!(needs_warmup(false, "(nrc : true)"));
    assert!(!needs_warmup(true, "(nrc: true)"));
    assert_eq!(row_name(&None), "unnamed");
    assert_eq!(row_name(&Some("x".to_string())), "x");
}

#[test]
fn comparisons_get_their_arguments() {
    assert_eq!(
        flip_args("r", "t", "b", "d"),
        ["-r", "r", "-t", "t", "-v", "1", "-b", "b", "--no-exposure-map", "-d", "d"]
    );
    assert_eq!(
        flip_mean_args("r", "t"),
        ["-r", "r", "-t", "t", "-v", "1", "--no-error-map", "--no-exposure-map"]
    );
}
