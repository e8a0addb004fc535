//! The repo task runner: what each task runs, and the list of recorded grader runs.

use vstd::prelude::*;
use crate::calendar;
use crate::grader;
use crate::text;

verus! {

/// The arguments of `cargo run --release -p <package> -- <args>`.
pub fn tool_args(package: &str, args: &Vec<String>) -> (r: Vec<String>)
    ensures
        text::texts(r@) == seq!["run"@, "--release"@, "-p"@, package@, "--"@] + text::texts(args@),
{
    let mut out: Vec<String> = Vec::new();
    grader::add_arg(&mut out, "run");
    grader::add_arg(&mut out, "--release");
    grader::add_arg(&mut out, "-p");
    grader::add_arg(&mut out, package);
    grader::add_arg(&mut out, "--");
    grader::add_args(&mut out, args);
    assert(text::texts(out@) =~= seq!["run"@, "--release"@, "-p"@, package@, "--"@] + text::texts(
        args@,
    ));
    out
}

/// The arguments of a soak: the script, then what is passed through.
pub fn soak_args(args: &Vec<String>) -> (r: Vec<String>)
    ensures
        text::texts(r@) == seq!["scripts/solari_soak.sh"@] + text::texts(args@),
{
    let mut out: Vec<String> = Vec::new();
    grader::add_arg(&mut out, "scripts/solari_soak.sh");
    grader::add_args(&mut out, args);
    assert(text::texts(out@) =~= seq!["scripts/solari_soak.sh"@] + text::texts(args@));
    out
}

/// The arguments of the grader that bake one scene's truth; no scene where the arguments that
/// are passed on name one.
pub open spec fn truth_run(scene: Option<Seq<char>>, args: Seq<Seq<char>>) -> Seq<Seq<char>> {
    match scene {
        Some(s) => seq!["--truth-only"@, "--scene"@, s] + args,
        None => seq!["--truth-only"@] + args,
    }
}

/// The grader runs that bake truth caches: one for the scene that the arguments name, else one
/// for every furnace scene.
pub open spec fn truth_runs(args: Seq<Seq<char>>) -> Seq<Seq<Seq<char>>> {
    if args.contains("--scene"@) {
        seq![truth_run(None, args)]
    } else {
        seq![
            truth_run(Some("furnace"@), args),
            truth_run(Some("room"@), args),
            truth_run(Some("yard"@), args),
            truth_run(Some("bistro"@), args),
        ]
    }
}

/// One grader run that bakes truth.
pub struct TruthRun {
    /// The scene to announce.
    pub scene: Option<String>,
    pub args: Vec<String>,
}

fn scene_run(scene: &str, args: &Vec<String>) -> (r: TruthRun)
    ensures
        r.scene matches Some(s) && s@ == scene@,
        text::texts(r.args@) == truth_run(Some(scene@), text::texts(args@)),
{
    let mut out: Vec<String> = Vec::new();
    grader::add_arg(&mut out, "--truth-only");
    grader::add_arg(&mut out, "--scene");
    grader::add_arg(&mut out, scene);
    grader::add_args(&mut out, args);
    assert(text::texts(out@) =~= truth_run(Some(scene@), text::texts(args@)));
    TruthRun { scene: Some(scene.to_owned()), args: out }
}

/// The arguments of runs.
pub open spec fn run_args(runs: Seq<TruthRun>) -> Seq<Seq<Seq<char>>> {
    runs.map_values(|r: TruthRun| text::texts(r.args@))
}

/// Bake truth caches: one grader `--truth-only` run per scene. A `--scene` in the forwarded
/// args bakes just that one; otherwise every furnace scene.
pub fn truth(args: &Vec<String>) -> (r: Vec<TruthRun>)
    ensures
        run_args(r@) == truth_runs(text::texts(args@)),
        text::texts(args@).contains("--scene"@) ==> r@[0].scene is None,
        !text::texts(args@).contains("--scene"@) ==> text::texts(
            Seq::new(r@.len(), |k: int| r@[k].scene->0),
        ) == seq!["furnace"@, "room"@, "yard"@, "bistro"@] && forall|k: int|
            0 <= k < r@.len() ==> (#[trigger] r@[k]).scene is Some,
{
    let mut out: Vec<TruthRun> = Vec::new();
    if text::list_contains(args, "--scene") {
        let mut only: Vec<String> = Vec::new();
        grader::add_arg(&mut only, "--truth-only");
        grader::add_args(&mut only, args);
        assert(text::texts(only@) =~= truth_run(None, text::texts(args@)));
        out.push(TruthRun { scene: None, args: only });
    } else {
        out.push(scene_run("furnace", args));
        out.push(scene_run("room", args));
        out.push(scene_run("yard", args));
        out.push(scene_run("bistro", args));
        assert(text::texts(Seq::new(out@.len(), |k: int| out@[k].scene->0)) =~= seq![
            "furnace"@,
            "room"@,
            "yard"@,
            "bistro"@,
        ]);
    }
    assert(run_args(out@) =~= truth_runs(text::texts(args@)));
    out
}

/// What baking truths does next.
#[derive(Clone, Copy, Debug, PartialEq, Eq, Structural)]
pub enum TruthStep {
    /// Start the run with this number.
    Run(usize),
    /// Stop with this exit code.
    Done(i32),
}

/// What baking truths does after `finished` of `runs` runs, the last of which ended with `code`: it
/// stops at the first run that fails, with that run's code.
pub open spec fn truth_step(runs: usize, finished: usize, code: Option<i32>) -> TruthStep {
    match code {
        Some(c) if c != 0 => TruthStep::Done(c),
        _ => if finished < runs {
            TruthStep::Run(finished)
        } else {
            TruthStep::Done(0)
        },
    }
}

/// Decides what baking truths does after `finished` of `runs` runs, the last of which ended with
/// `code`.
pub fn next_truth(runs: usize, finished: usize, code: Option<i32>) -> (r: TruthStep)
    ensures
        r == truth_step(runs, finished, code),
{
    if let Some(c) = code {
        if c != 0 {
            return TruthStep::Done(c);
        }
    }
    if finished < runs {
        TruthStep::Run(finished)
    } else {
        TruthStep::Done(0)
    }
}

/// The exit code of baking truths by `codes.len()` runs that would end with `codes`, of which
/// `finished` are done.
pub open spec fn truth_code(codes: Seq<i32>, finished: nat) -> i32
    decreases codes.len() - finished,
{
    let code = if 0 < finished <= codes.len() {
        Some(codes[finished - 1])
    } else {
        None
    };
    match truth_step(codes.len() as usize, finished as usize, code) {
        TruthStep::Done(c) => c,
        TruthStep::Run(_) => if finished < codes.len() {
            truth_code(codes, finished + 1)
        } else {
            0
        },
    }
}

/// Baking truths ends with the code of the first run that fails, and with zero where none does.
pub proof fn truths_stop_at_failure(codes: Seq<i32>, finished: nat)
    requires
        finished <= codes.len() <= usize::MAX,
    ensures
        finished > 0 && codes[finished - 1] != 0 ==> truth_code(codes, finished)
            == codes[finished - 1],
        (forall|k: int| 0 <= k < codes.len() ==> #[trigger] codes[k] == 0) ==> truth_code(
            codes,
            finished,
        ) == 0,
        forall|k: int|
            #![trigger codes[k]]
            finished <= k < codes.len() && codes[k] != 0 && (finished > 0 ==> codes[finished - 1]
                == 0) && (forall|j: int| finished <= j < k ==> #[trigger] codes[j] == 0)
                ==> truth_code(codes, finished) == codes[k],
    decreases codes.len() - finished,
{
    if finished < codes.len() {
        truths_stop_at_failure(codes, finished + 1);
        assert forall|k: int|
            #![trigger codes[k]]
            finished <= k < codes.len() && codes[k] != 0 && (finished > 0 ==> codes[finished - 1]
                == 0) && (forall|j: int| finished <= j < k ==> #[trigger] codes[j] == 0) implies
            truth_code(codes, finished) == codes[k] by {
            assert(truth_code(codes, finished) == truth_code(codes, finished + 1));
            if k > finished {
                assert(codes[finished as int] == 0);
            }
        }
    }
}

/// The label in the name of a record: what follows the first dash.
pub open spec fn label_in(stem: Seq<char>) -> Seq<char> {
    match text::following(stem, '-') {
        Some(label) => label,
        None => seq![],
    }
}

/// The time in the name of a record.
pub open spec fn time_in(stem: Seq<char>) -> Option<nat> {
    text::number_in(text::up_to(stem, '-'), u64::MAX as nat)
}

/// Whether `when` says when a record was made: its time as a date, or a question mark.
pub open spec fn says_when(stem: Seq<char>, when: Seq<char>) -> bool {
    match time_in(stem) {
        Some(ts) => calendar::is_stamp_of(ts as u64, when),
        None => when == "?"@,
    }
}

/// The name of a record says when the run was and how it was labelled.
pub proof fn record_names_read_back(timestamp: u64, label: Seq<char>)
    ensures
        ({
            let stem = crate::report::record_stem(timestamp as nat, label);
            &&& time_in(stem) == Some(timestamp as nat)
            &&& label_in(stem) == crate::report::file_label(label)
        }),
{
    let d = text::decimal(timestamp as nat);
    text::lemma_decimal_digits(timestamp as nat);
    text::decimal_reads_back(timestamp as nat, u64::MAX as nat);
    assert(!d.contains('-')) by {
        if d.contains('-') {
            let i = choose|i: int| 0 <= i < d.len() && d[i] == '-';
            assert('0' <= d[i] <= '9');
        }
    }
    reveal_strlit("-");
    if label.len() == 0 {
        text::whole_text_stays(d, '-');
        assert(label_in(d) =~= crate::report::file_label(label));
    } else {
        assert("-"@ =~= seq!['-']);
        text::joined_texts_split(d, '-', crate::report::file_label(label));
    }
}

/// Whether a run is to go.
pub open spec fn goes(rm: Option<Seq<char>>, scene: Seq<char>, stem: Seq<char>) -> bool {
    match rm {
        Some(m) => m == "all"@ || text::contains_text(scene, m) || text::contains_text(
            label_in(stem),
            m,
        ) || text::contains_text(stem, m),
        None => false,
    }
}

/// A line of the list of runs.
pub open spec fn run_line(
    scene: Seq<char>,
    label: Seq<char>,
    when: Seq<char>,
    path: Seq<char>,
) -> Seq<char> {
    text::padded_right(scene, 10) + " "@ + text::padded_right(label, 20) + " "@
        + text::padded_right(when, 17) + " "@ + path
}

fn write_run_line(scene: &str, label: &str, when: &str, path: &str) -> (r: String)
    ensures
        r@ == run_line(scene@, label@, when@, path@),
{
    let mut out = String::new();
    text::push_padded_right(&mut out, scene, 10);
    assert(out@ =~= text::padded_right(scene@, 10));
    out.append(" ");
    text::push_padded_right(&mut out, label, 20);
    out.append(" ");
    text::push_padded_right(&mut out, when, 17);
    out.append(" ");
    out.append(path);
    out
}

/// The head of the list of runs.
pub fn runs_head() -> (r: String)
    ensures
        r@ == run_line("scene"@, "label"@, "when (utc)"@, "path"@),
{
    write_run_line("scene", "label", "when (utc)", "path")
}

/// A recorded run in the list.
pub struct RunRow {
    pub line: String,
    /// Whether the run is to be deleted.
    pub matched: bool,
}

/// One recorded grader run (scene / label / when / path), and whether a match string picks it.
pub fn list_run(scene: &str, stem: &str, path: &str, rm: Option<&str>) -> (r: RunRow)
    ensures
        exists|when: Seq<char>| #[trigger]
            says_when(stem@, when) && r.line@ == run_line(scene@, label_in(stem@), when, path@),
        r.matched == goes(crate::names::optional(rm), scene@, stem@),
{
    let (ts, tail) = text::split_at_char(stem, '-');
    let label = match tail {
        Some(l) => l,
        None => String::new(),
    };
    assert(label@ =~= label_in(stem@));
    let when = match text::parse_number(ts.as_str(), u64::MAX) {
        Some(n) => calendar::utc(n),
        None => "?".to_owned(),
    };
    assert(says_when(stem@, when@));
    let matched = match rm {
        Some(m) => text::same_text(m, "all") || text::contains(scene, m) || text::contains(
            label.as_str(),
            m,
        ) || text::contains(stem, m),
        None => false,
    };
    RunRow { line: write_run_line(scene, label.as_str(), when.as_str(), path), matched }
}

/// What becomes of the report once runs were deleted.
#[derive(Clone, Copy, Debug, PartialEq, Eq, Structural)]
pub enum ReportFate {
    /// It stays as it is.
    Stays,
    /// It goes, as every run did.
    Retired,
    /// It is written again.
    Refreshed,
}

/// Refresh (or retire) the report so it reflects what's left.
pub fn report_fate(removed: usize, total: usize) -> (r: ReportFate)
    ensures
        r == (if removed == 0 {
            ReportFate::Stays
        } else if removed == total {
            ReportFate::Retired
        } else {
            ReportFate::Refreshed
        }),
        r == fate_of(removed, total),
{
    if removed == 0 {
        ReportFate::Stays
    } else if removed == total {
        ReportFate::Retired
    } else {
        ReportFate::Refreshed
    }
}

/// The last line of a list that deleted runs.
pub fn removal_line(removed: usize) -> (r: String)
    ensures
        r@ == "removed "@ + text::decimal(removed as nat) + " run(s); truth caches kept"@,
{
    let mut out = "removed ".to_owned();
    text::push_decimal(&mut out, removed as u64);
    out.append(" run(s); truth caches kept");
    out
}

/// A search deletes the runs whose scene, label or name holds its text, or all of them; without a
/// search nothing goes.
pub proof fn searches_pick_runs(m: Seq<char>, scene: Seq<char>, time: Seq<char>, label: Seq<char>)
    requires
        !time.contains('-'),
    ensures
        ({
            let stem = time + seq!['-'] + label;
            &&& !goes(None, scene, stem)
            &&& goes(Some("all"@), scene, stem)
            &&& text::contains_text(scene, m) ==> goes(Some(m), scene, stem)
            &&& text::contains_text(label, m) ==> goes(Some(m), scene, stem)
            &&& text::contains_text(stem, m) ==> goes(Some(m), scene, stem)
            &&& goes(Some(m), scene, stem) ==> m == "all"@ || text::contains_text(scene, m)
                || text::contains_text(label, m) || text::contains_text(stem, m)
            &&& label_in(stem) == label
        }),
{
    text::joined_texts_split(time, '-', label);
}

/// A run's line has its scene, label, time and path, in this order, each column at its own place.
pub proof fn runs_line_up(scene: Seq<char>, label: Seq<char>, date: Seq<char>, path: Seq<char>)
    requires
        scene.len() <= 10,
        label.len() <= 20,
        date.len() <= 17,
    ensures
        ({
            let t = run_line(scene, label, date, path);
            &&& t.subrange(0, scene.len() as int) == scene
            &&& t.subrange(11, 11int + label.len()) == label
            &&& t.subrange(32, 32int + date.len()) == date
            &&& t.skip(50) == path
        }),
{
    reveal_strlit(" ");
    let t = run_line(scene, label, date, path);
    assert(t.subrange(0, scene.len() as int) =~= scene);
    assert(t.subrange(11, 11int + label.len()) =~= label);
    assert(t.subrange(32, 32int + date.len()) =~= date);
    assert(t.skip(50) =~= path);
}

/// Truths are baked for the scene that is named, by the arguments as they are, and else for each
/// furnace scene, in order, with the arguments passed on behind.
pub proof fn truths_are_baked_for_each_scene(args: Seq<Seq<char>>)
    ensures
        args.contains("--scene"@) ==> truth_runs(args) == seq![seq!["--truth-only"@] + args],
        !args.contains("--scene"@) ==> {
            let one = |scene: Seq<char>| seq!["--truth-only"@, "--scene"@, scene] + args;
            truth_runs(args) == seq![one("furnace"@), one("room"@), one("yard"@), one("bistro"@)]
        },
{
}

/// What becomes of the report once runs were deleted.
pub open spec fn fate_of(removed: usize, total: usize) -> ReportFate {
    if removed == 0 {
        ReportFate::Stays
    } else if removed == total {
        ReportFate::Retired
    } else {
        ReportFate::Refreshed
    }
}

/// The report stays where no run went, goes where all did, and is written again where some are left.
pub proof fn reports_follow_their_runs(removed: usize, total: usize)
    requires
        removed <= total,
    ensures
        fate_of(removed, total) is Stays <==> removed == 0,
        fate_of(removed, total) is Retired <==> removed > 0 && removed == total,
        fate_of(removed, total) is Refreshed <==> 0 < removed < total,
{
}

} // verus!
