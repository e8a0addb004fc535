use scene_tools::tasks::{
    list_run, next_truth, removal_line, report_fate, runs_head, soak_args, tool_args, truth,
    ReportFate, TruthStep,
};

fn list(v: &[&str]) -> Vec<String> {
    v.iter().map(|s| s.to_string()).collect()
}

#[test]
fn tools_run_in_release() {
    assert_eq!(
        tool_args("bsn", &list(&["a.bsn"])),
        list(&["run", "--release", "-p", "bsn", "--", "a.bsn"])
    );
    assert_eq!(soak_args(&list(&["10"])), list(&["scripts/solari_soak.sh", "10"]));
}

#[test]
fn truth_bakes_every_scene_by_default() {
    let runs = truth(&list(&["--truth-spp", "64"]));
    let scenes: Vec<&str> = runs.iter().map(|r| r.scene.as_deref().unwrap()).collect();
    assert_eq!(scenes, vec!["furnace", "room", "yard", "bistro"]);
    assert_eq!(runs[2].args, list(&["--truth-only", "--scene", "yard", "--truth-spp", "64"]));
}

#[test]
fn truth_stops_at_the_first_failure() {
    assert_eq!(next_truth(4, 0, None), TruthStep::Run(0));
    assert_eq!(next_truth(4, 2, Some(0)), TruthStep::Run(2));
    assert_eq!(next_truth(4, 2, Some(3)), TruthStep::Done(3));
    assert_eq!(next_truth(4, 4, Some(-1)), TruthStep::Done(-1));
    assert_eq!(next_truth(4, 4, Some(0)), TruthStep::Done(0));
}

#[test]
fn truth_bakes_the_scene_that_is_named() {
    let runs = truth(&list(&["--scene", "lamps"]));
    assert_eq!(runs.len(), 1);
    assert_eq!(runs[0].scene, None);
    assert_eq!(runs[0].args, list(&["--truth-only", "--scene", "lamps"]));
}

#[test]
fn runs_are_listed_with_their_time() {
    assert_eq!(runs_head(), "scene      label                when (utc)        path");
    let r = list_run("room", "1700000000-base-line", "x/1700000000-base-line.json", None);
    assert_eq!(
        r.line,
        "room       base-line            2023-11-14 22:13  x/1700000000-base-line.json"
    );
    assert!(!r.matched);
    let odd = list_run("?", "latest", "p", None);
    assert_eq!(odd.line, "?                               ?                 p");
}

#[test]
fn runs_match_by_scene_label_or_name() {
    assert!(list_run("room", "17-a", "p", Some("all")).matched);
    assert!(list_run("room", "17-a", "p", Some("oo")).matched);
    assert!(list_run("room", "17-abc", "p", Some("bc")).matched);
    assert!(list_run("room", "17-a", "p", Some("7-a")).matched);
    assert!(!list_run("room", "17-a", "p", Some("yard")).matched);
    assert!(list_run("room", "17-a", "p", Some("")).matched);
}

#[test]
fn the_report_follows_the_runs() {
    assert_eq!(report_fate(0, 3), ReportFate::Stays);
    assert_eq!(report_fate(3, 3), ReportFate::Retired);
    assert_eq!(report_fate(2, 3), ReportFate::Refreshed);
    assert_eq!(removal_line(2), "removed 2 run(s); truth caches kept");
}
