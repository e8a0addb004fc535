use scene_tools::exam::{
    announce_window, find_sky, fingerprint_line, fnv1a, implies_accum, is_judged, orbit_phase,
    probe_patch, reads_probes, report_probes, run_title, Burst, FreezeDiff, OrbitPhase, Ratio,
    Reading, Verdict,
};
use scene_tools::furnace::Expect;

#[test]
fn fnv1a_has_its_published_values() {
    assert_eq!(fnv1a(b""), 0xcbf29ce484222325);
    assert_eq!(fnv1a(b"a"), 0xaf63dc4c8601ec8c);
    assert_eq!(fnv1a(b"foobar"), 0x85944171f73967e8);
}

#[test]
fn one_byte_changes_the_fingerprint() {
    assert_ne!(fnv1a(b"scene a"), fnv1a(b"scene b"));
    assert_eq!(fingerprint_line(0xab, "Room"), "solari_scene_fp: 00000000000000ab-Room");
}

#[test]
fn runs_announce_themselves() {
    assert!(implies_accum(1, false));
    assert!(!implies_accum(1, true));
    assert!(!implies_accum(0, false));
    assert_eq!(run_title("fast", false), "Furnace — fast");
    assert_eq!(run_title("fast", true), "Furnace — fast +DLSS");
    assert!(reads_probes(480, 1));
    assert!(!reads_probes(481, 1));
    assert!(!reads_probes(480, 0));
    let mut last = (0, 0);
    assert_eq!(announce_window(&mut last, (0, 5)), None);
    assert_eq!(announce_window(&mut last, (16, 9)).as_deref(), Some("solari window: 16x9"));
    assert_eq!(announce_window(&mut last, (16, 9)), None);
}

#[test]
fn patches_stay_in_view() {
    assert_eq!(probe_patch(50, 50, 100, 100).len(), 81);
    let corner = probe_patch(0, 0, 100, 100);
    assert_eq!(corner.len(), 25);
    assert_eq!(corner[0], 0);
    assert_eq!(corner[24], 404);
    assert!(probe_patch(i64::MAX, 0, 100, 100).is_empty());
    assert!(probe_patch(0, i64::MIN, 100, 100).is_empty());
}

fn reading(name: &str, ratio: Option<(&str, bool)>) -> Reading {
    Reading {
        name: name.to_string(),
        mean: ("1.0000".to_string(), "2.0000".to_string(), "3.0000".to_string()),
        ratio: ratio.map(|(text, off)| Ratio { text: text.to_string(), off }),
    }
}

#[test]
fn verdicts_wait_for_samples() {
    let rs = vec![reading("sky", None), reading("ball", Some(("0.9800", true)))];
    let early = report_probes(&rs, 4095);
    assert_eq!(
        early.line,
        "probes @ 4095 spp: | sky mean=(1.0000,2.0000,3.0000) | ball r=0.9800"
    );
    assert!(matches!(early.verdict, Verdict::Pending));
    let late = report_probes(&rs, 4096);
    assert!(late.line.ends_with("| ball r=0.9800 FAIL"));
    assert!(matches!(late.verdict, Verdict::Fail(ref s) if s == "furnace: 1 probe(s) FAILED"));
    let good = report_probes(&vec![reading("ball", Some(("1.0000", false)))], 9000);
    assert!(good.line.ends_with(" ok"));
    assert!(matches!(good.verdict, Verdict::Pass(ref s) if s == "furnace: PASS (1 probes)"));
}

#[test]
fn probes_are_held_to_a_bright_sky() {
    let rs = vec![reading("a", None), reading("sky", None), reading("sky", None)];
    assert_eq!(find_sky(&rs), Some(1));
    assert_eq!(find_sky(&Vec::new()), None);
    assert!(is_judged(Some(true), Expect::Sky));
    assert!(!is_judged(Some(true), Expect::Anything));
    assert!(!is_judged(Some(false), Expect::Sky));
    assert!(!is_judged(None, Expect::TintedSky));
}

#[test]
fn orbits_settle_before_they_end() {
    assert_eq!(orbit_phase(0, 5), OrbitPhase::Still);
    assert_eq!(orbit_phase(10, 9), OrbitPhase::Moving(9));
    assert_eq!(orbit_phase(10, 10), OrbitPhase::Settling);
    assert_eq!(orbit_phase(10, 69), OrbitPhase::Settling);
    assert_eq!(orbit_phase(10, 70), OrbitPhase::Home);
    assert_eq!(orbit_phase(u32::MAX, 100), OrbitPhase::Moving(100));
}

#[test]
fn keys_and_bursts_count() {
    let mut fd = FreezeDiff { freeze_epoch: 0, diff: false, dump_epoch: 4 };
    fd.keys(true, true, false);
    assert_eq!(fd, FreezeDiff { freeze_epoch: 1, diff: true, dump_epoch: 4 });
    fd.keys(false, true, true);
    assert_eq!(fd, FreezeDiff { freeze_epoch: 1, diff: false, dump_epoch: 5 });
    let mut full = FreezeDiff { freeze_epoch: u32::MAX, diff: false, dump_epoch: u32::MAX };
    full.keys(false, true, false);
    assert_eq!(full, FreezeDiff { freeze_epoch: u32::MAX, diff: true, dump_epoch: u32::MAX });
    let mut b = Burst::new(2);
    let shots: Vec<bool> = [false, true, true, true].iter().map(|d| b.frame(*d)).collect();
    assert_eq!(shots, vec![false, true, true, false]);
    assert_eq!(Burst::new(0).wanted, 1);
}
