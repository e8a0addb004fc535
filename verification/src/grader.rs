//! Grading runs: which camera configurations are graded, how the renderer is launched for each,
//! and what its output says.

use vstd::prelude::*;
use crate::exam;
use crate::text;

verus! {

/// The estimator ladder: every rung as a complete camera configuration.
pub open spec fn ladder_texts() -> Seq<Seq<char>> {
    seq![
        "(mode: Reference(()))"@,
        "(mode: Reference((di: Restir(()))))"@,
        "(mode: Reference((di: Restir((spatial: Some(()))))))"@,
        "(mode: Reference((di: Restir(()), gi: Some((estimator: Restir(()))))))"@,
        "(mode: Reference((di: Restir((spatial: Some(()))), gi: Some((estimator: Restir((spatial: Some(()))))))))"@,
        "(mode: Reference((gi: Some((nrc: true)))))"@,
        "(mode: Realtime(()))"@,
    ]
}

/// The estimator ladder: plain reference, then reused direct light, reused indirect light, both,
/// the cache, and the stack as shipped.
pub fn ladder() -> (r: Vec<String>)
    ensures
        text::texts(r@) == ladder_texts(),
{
    let r = vec![
        "(mode: Reference(()))".to_owned(),
        "(mode: Reference((di: Restir(()))))".to_owned(),
        "(mode: Reference((di: Restir((spatial: Some(()))))))".to_owned(),
        "(mode: Reference((di: Restir(()), gi: Some((estimator: Restir(()))))))".to_owned(),
        "(mode: Reference((di: Restir((spatial: Some(()))), gi: Some((estimator: Restir((spatial: Some(()))))))))".to_owned(),
        "(mode: Reference((gi: Some((nrc: true)))))".to_owned(),
        "(mode: Realtime(()))".to_owned(),
    ];
    assert(text::texts(r@) =~= ladder_texts());
    r
}

/// The texts that hold a part, in order.
pub open spec fn those_with(list: Seq<Seq<char>>, part: Seq<char>) -> Seq<Seq<char>> {
    list.filter(|s: Seq<char>| text::contains_text(s, part))
}

/// The configurations to grade: the one given, else the ladder, or its rungs that hold `only`.
pub open spec fn configs_for(camera: Option<Seq<char>>, only: Option<Seq<char>>) -> Seq<Seq<char>> {
    match camera {
        Some(c) => seq![c],
        None => match only {
            Some(f) => those_with(ladder_texts(), f),
            None => ladder_texts(),
        },
    }
}

fn keep_with(list: &Vec<String>, part: &str) -> (r: Vec<String>)
    ensures
        text::texts(r@) == those_with(text::texts(list@), part@),
{
    let mut out: Vec<String> = Vec::new();
    let ghost all = text::texts(list@);
    let ghost p = |s: Seq<char>| text::contains_text(s, part@);
    assert(text::texts(out@) =~= all.take(0).filter(p));
    for i in 0..list.len()
        invariant
            all == text::texts(list@),
            p == (|s: Seq<char>| text::contains_text(s, part@)),
            text::texts(out@) == all.take(i as int).filter(p),
    {
        assert(all.take(i + 1).drop_last() =~= all.take(i as int));
        assert(all.take(i + 1).last() == list@[i as int]@);
        reveal(Seq::filter);
        if text::contains(list[i].as_str(), part) {
            let copy = list[i].clone();
            proof {
                text::lemma_texts_push(out@, copy);
            }
            out.push(copy);
        }
    }
    assert(all.take(all.len() as int) =~= all);
    out
}

/// The configurations to grade.
pub fn select_configs(camera: Option<&str>, only: Option<&str>) -> (r: Vec<String>)
    ensures
        text::texts(r@) == configs_for(
            crate::names::optional(camera),
            crate::names::optional(only),
        ),
{
    match camera {
        Some(c) => {
            let mut out: Vec<String> = Vec::new();
            out.push(c.to_owned());
            assert(text::texts(out@) =~= seq![c@]);
            out
        },
        None => match only {
            Some(f) => keep_with(&ladder(), f),
            None => ladder(),
        },
    }
}

/// A text without its blanks.
pub open spec fn flattened(s: Seq<char>) -> Seq<char>
    decreases s.len(),
{
    if s.len() == 0 {
        seq![]
    } else if s.last() == ' ' {
        flattened(s.drop_last())
    } else {
        flattened(s.drop_last()).push(s.last())
    }
}

fn flatten(s: &str) -> (r: String)
    ensures
        r@ == flattened(s@),
{
    let c = text::chars_of(s);
    let mut out = String::new();
    for i in 0..c.len()
        invariant
            c@ == s@,
            out@ == flattened(c@.take(i as int)),
    {
        assert(c@.take(i + 1).drop_last() =~= c@.take(i as int));
        if c[i] != ' ' {
            out.push(c[i]);
        }
    }
    assert(c@.take(c@.len() as int) =~= c@);
    out
}

/// Whether a configuration uses the radiance cache, which needs a longer settling time.
pub open spec fn carries_cache(config: Seq<char>) -> bool {
    let flat = flattened(config);
    text::contains_text(flat, "nrc:true"@) || text::contains_text(flat, "nrc_gi:true"@)
        || text::contains_text(flat, "Realtime("@)
}

/// Whether a configuration uses the radiance cache.
pub fn uses_nrc(config: &str) -> (r: bool)
    ensures
        r == carries_cache(config@),
{
    let flat = flatten(config);
    text::contains(flat.as_str(), "nrc:true") || text::contains(flat.as_str(), "nrc_gi:true")
        || text::contains(flat.as_str(), "Realtime(")
}

/// The light-transport scope of a config: which converged truth it can be graded against.
#[derive(Clone, Copy, Debug, PartialEq, Eq, Structural)]
pub enum Scope {
    Full,
    NoGi,
    GiOnly,
}

/// The scope that a configuration's text tells.
pub open spec fn scope_in(config: Seq<char>) -> Scope {
    let flat = flattened(config);
    if text::contains_text(flat, "gi:None"@) {
        Scope::NoGi
    } else if text::contains_text(flat, "only:true"@) {
        Scope::GiOnly
    } else {
        Scope::Full
    }
}

/// Scope from the configuration's text.
pub fn scope_of(config: &str) -> (r: Scope)
    ensures
        r == scope_in(config@),
{
    let flat = flatten(config);
    if text::contains(flat.as_str(), "gi:None") {
        Scope::NoGi
    } else if text::contains(flat.as_str(), "only:true") {
        Scope::GiOnly
    } else {
        Scope::Full
    }
}

/// The truth camera of a scope.
pub open spec fn truth_camera_text(scope: Scope) -> Seq<char> {
    match scope {
        Scope::Full => "(mode: Reference((gi: Some((bounces: 32)))))"@,
        Scope::NoGi => "(mode: Reference((gi: None)))"@,
        Scope::GiOnly => "(mode: Reference((gi: Some((only: true, bounces: 32)))))"@,
    }
}

/// The file-name prefix of a scope's truth.
pub open spec fn prefix_text(scope: Scope) -> Seq<char> {
    match scope {
        Scope::Full => "truth"@,
        Scope::NoGi => "truth-nogi"@,
        Scope::GiOnly => "truth-gionly"@,
    }
}

impl Scope {
    /// The truth camera: plain reference accumulation at matching scope.
    pub fn truth_camera(self) -> (r: &'static str)
        ensures
            r@ == truth_camera_text(self),
    {
        match self {
            Scope::Full => "(mode: Reference((gi: Some((bounces: 32)))))",
            Scope::NoGi => "(mode: Reference((gi: None)))",
            Scope::GiOnly => "(mode: Reference((gi: Some((only: true, bounces: 32)))))",
        }
    }

    /// Truth filename prefix; full transport keeps the plain `truth` name.
    pub fn prefix(self) -> (r: &'static str)
        ensures
            r@ == prefix_text(self),
    {
        match self {
            Scope::Full => "truth",
            Scope::NoGi => "truth-nogi",
            Scope::GiOnly => "truth-gionly",
        }
    }
}

/// Appends one argument.
pub(crate) fn add_arg(out: &mut Vec<String>, s: &str)
    ensures
        text::texts(final(out)@) == text::texts(old(out)@).push(s@),
{
    let copy = s.to_owned();
    proof {
        text::lemma_texts_push(out@, copy);
    }
    out.push(copy);
}

/// Appends a list of arguments.
pub(crate) fn add_args(out: &mut Vec<String>, more: &Vec<String>)
    ensures
        text::texts(final(out)@) == text::texts(old(out)@) + text::texts(more@),
{
    let ghost before = text::texts(out@);
    for i in 0..more.len()
        invariant
            text::texts(out@) == before + text::texts(more@).take(i as int),
    {
        add_arg(out, more[i].as_str());
        assert(text::texts(out@) =~= before + text::texts(more@).take(i + 1));
    }
    assert(text::texts(more@).take(more@.len() as int) =~= text::texts(more@));
}

/// How a run is captured.
#[derive(Clone, Copy, Debug)]
pub struct Protocol {
    /// Accumulate for the whole time instead of capturing single frames.
    pub accum: bool,
    /// Without the denoiser.
    pub no_dlss: bool,
    /// Consecutive frames captured.
    pub shots: u32,
    /// Camera motion, in frames per sweep.
    pub orbit: Option<u32>,
}

/// The arguments that capture a run.
pub open spec fn capture_args(p: Protocol, secs: Seq<char>) -> Seq<Seq<char>> {
    if p.accum {
        seq!["--accum"@, "--spp"@, "16"@, "--dump-at-secs"@, secs]
    } else {
        seq![
            "--spp"@,
            "1"@,
            "--shot-at-secs"@,
            secs,
            "--shot-frames"@,
            text::decimal(
                if p.shots > 1 {
                    p.shots as nat
                } else {
                    1
                },
            ),
        ] + (if p.no_dlss {
            seq![]
        } else {
            seq!["--dlss"@]
        }) + (match p.orbit {
            Some(n) => seq!["--orbit"@, text::decimal(n as nat)],
            None => seq![],
        })
    }
}

/// The arguments of a graded run.
pub open spec fn graded_args(
    config: Seq<char>,
    p: Protocol,
    secs: Seq<char>,
    extra: Seq<Seq<char>>,
) -> Seq<Seq<char>> {
    seq!["--camera"@, config, "--no-ui"@] + capture_args(p, secs) + seq!["--fps"@] + extra
}

/// The renderer's arguments for one graded run. The configuration carries the estimator's
/// identity; the protocol owns how it is sampled and captured.
pub fn furnace_args(config: &str, p: &Protocol, dump_secs: &str, extra: &Vec<String>) -> (r: Vec<
    String,
>)
    ensures
        text::texts(r@) == seq!["--camera"@, config@, "--no-ui"@] + capture_args(*p, dump_secs@)
            + seq!["--fps"@] + text::texts(extra@),
        text::texts(r@) == graded_args(config@, *p, dump_secs@, text::texts(extra@)),
{
    let mut out: Vec<String> = Vec::new();
    add_arg(&mut out, "--camera");
    add_arg(&mut out, config);
    add_arg(&mut out, "--no-ui");
    let ghost head = text::texts(out@);
    assert(head =~= seq!["--camera"@, config@, "--no-ui"@]);
    if p.accum {
        add_arg(&mut out, "--accum");
        add_arg(&mut out, "--spp");
        add_arg(&mut out, "16");
        add_arg(&mut out, "--dump-at-secs");
        add_arg(&mut out, dump_secs);
    } else {
        add_arg(&mut out, "--spp");
        add_arg(&mut out, "1");
        add_arg(&mut out, "--shot-at-secs");
        add_arg(&mut out, dump_secs);
        add_arg(&mut out, "--shot-frames");
        let shots: u32 = if p.shots > 1 {
            p.shots
        } else {
            1
        };
        let frames = text::decimal_text(shots as u64);
        add_arg(&mut out, frames.as_str());
        if !p.no_dlss {
            add_arg(&mut out, "--dlss");
        }
        if let Some(n) = p.orbit {
            add_arg(&mut out, "--orbit");
            let sweep = text::decimal_text(n as u64);
            add_arg(&mut out, sweep.as_str());
        }
    }
    assert(text::texts(out@) =~= head + capture_args(*p, dump_secs@));
    add_arg(&mut out, "--fps");
    assert(text::texts(out@) =~= head + capture_args(*p, dump_secs@) + seq!["--fps"@]);
    add_args(&mut out, extra);
    out
}

/// The arguments that bake a scope's truth.
pub open spec fn baking_args(scope: Scope, spp: nat) -> Seq<Seq<char>> {
    seq![
        "--camera"@,
        truth_camera_text(scope),
        "--accum"@,
        "--spp"@,
        "32"@,
        "--dump-at-spp"@,
        text::decimal(spp),
        "--shot-on-dump"@,
        "--no-ui"@,
    ]
}

/// The renderer's arguments for baking a scope's truth.
pub fn truth_args(scope: Scope, truth_spp: u32) -> (r: Vec<String>)
    ensures
        text::texts(r@) == seq![
            "--camera"@,
            truth_camera_text(scope),
            "--accum"@,
            "--spp"@,
            "32"@,
            "--dump-at-spp"@,
            text::decimal(truth_spp as nat),
            "--shot-on-dump"@,
            "--no-ui"@,
        ],
        text::texts(r@) == baking_args(scope, truth_spp as nat),
{
    let mut out: Vec<String> = Vec::new();
    add_arg(&mut out, "--camera");
    add_arg(&mut out, scope.truth_camera());
    add_arg(&mut out, "--accum");
    add_arg(&mut out, "--spp");
    add_arg(&mut out, "32");
    add_arg(&mut out, "--dump-at-spp");
    let spp = text::decimal_text(truth_spp as u64);
    add_arg(&mut out, spp.as_str());
    add_arg(&mut out, "--shot-on-dump");
    add_arg(&mut out, "--no-ui");
    assert(text::texts(out@) =~= baking_args(scope, truth_spp as nat));
    out
}

/// The command line of a launch.
pub open spec fn launch_line(scene: Seq<char>, timeout: Seq<char>, extra: Seq<Seq<char>>) -> Seq<
    Seq<char>,
> {
    seq![
        "run"@,
        "--release"@,
        "-p"@,
        "solari_furnace"@,
        "--"@,
        "--scene"@,
        scene,
        "-t"@,
        timeout,
    ] + extra
}

/// The whole command line of a launch: through cargo, with the scene and the time limit before
/// the run's own arguments.
pub fn launch_args(scene: &str, timeout: &str, extra: &Vec<String>) -> (r: Vec<String>)
    ensures
        text::texts(r@) == seq![
            "run"@,
            "--release"@,
            "-p"@,
            "solari_furnace"@,
            "--"@,
            "--scene"@,
            scene@,
            "-t"@,
            timeout@,
        ] + text::texts(extra@),
        text::texts(r@) == launch_line(scene@, timeout@, text::texts(extra@)),
{
    let mut out: Vec<String> = Vec::new();
    add_arg(&mut out, "run");
    add_arg(&mut out, "--release");
    add_arg(&mut out, "-p");
    add_arg(&mut out, "solari_furnace");
    add_arg(&mut out, "--");
    add_arg(&mut out, "--scene");
    add_arg(&mut out, scene);
    add_arg(&mut out, "-t");
    add_arg(&mut out, timeout);
    assert(text::texts(out@) =~= seq![
        "run"@,
        "--release"@,
        "-p"@,
        "solari_furnace"@,
        "--"@,
        "--scene"@,
        scene@,
        "-t"@,
        timeout@,
    ]);
    add_args(&mut out, extra);
    out
}

/// The files of a scope's truth: the image, its screenshot, its size and its fingerprint.
pub struct TruthFiles {
    pub exr: String,
    pub shot: String,
    pub render: String,
    pub dims: String,
    pub fp: String,
}

/// The name of a truth file with its sample count.
pub open spec fn truth_file(scope: Scope, spp: nat, tail: Seq<char>) -> Seq<char> {
    prefix_text(scope) + "-"@ + text::decimal(spp) + tail
}

fn name_truth(scope: Scope, spp: u32, tail: &str) -> (r: String)
    ensures
        r@ == truth_file(scope, spp as nat, tail@),
{
    let mut out = scope.prefix().to_owned();
    out.append("-");
    text::push_decimal(&mut out, spp as u64);
    out.append(tail);
    out
}

/// Names the files of a scope's truth.
pub fn truth_files(scope: Scope, truth_spp: u32) -> (r: TruthFiles)
    ensures
        r.exr@ == truth_file(scope, truth_spp as nat, "spp.exr"@),
        r.shot@ == truth_file(scope, truth_spp as nat, "spp.shot.png"@),
        r.render@ == truth_file(scope, truth_spp as nat, "spp.render.png"@),
        r.dims@ == prefix_text(scope) + ".dims"@,
        r.fp@ == prefix_text(scope) + ".fp"@,
{
    let mut dims = scope.prefix().to_owned();
    dims.append(".dims");
    let mut fp = scope.prefix().to_owned();
    fp.append(".fp");
    TruthFiles {
        exr: name_truth(scope, truth_spp, "spp.exr"),
        shot: name_truth(scope, truth_spp, "spp.shot.png"),
        render: name_truth(scope, truth_spp, "spp.render.png"),
        dims,
        fp,
    }
}

/// Whether a truth must be baked: it is asked for, or a part of the cache is missing.
pub fn must_bake(rebake: bool, has_exr: bool, has_shot: bool, has_dims: bool) -> (r: bool)
    ensures
        r == (rebake || !(has_exr && has_shot && has_dims)),
        r == needs_bake(rebake, has_exr, has_shot, has_dims),
{
    rebake || !(has_exr && has_shot && has_dims)
}

/// What follows the first ASCII letter; nothing where there is none.
pub open spec fn past_letter(s: Seq<char>) -> Seq<char>
    decreases s.len(),
{
    if s.len() == 0 {
        seq![]
    } else if 'a' <= s[0] <= 'z' || 'A' <= s[0] <= 'Z' {
        s.skip(1)
    } else {
        past_letter(s.skip(1))
    }
}

pub proof fn lemma_past_letter_len(s: Seq<char>)
    ensures
        past_letter(s).len() <= s.len(),
    decreases s.len(),
{
    if s.len() > 0 {
        lemma_past_letter_len(s.skip(1));
    }
}

/// A line without its colour escapes: from each escape character up to and with the letter that
/// ends it.
pub open spec fn without_escapes(s: Seq<char>) -> Seq<char>
    decreases s.len(),
{
    if s.len() == 0 {
        seq![]
    } else if s[0] == '\u{1b}' {
        proof {
            lemma_past_letter_len(s.skip(1));
        }
        without_escapes(past_letter(s.skip(1)))
    } else {
        seq![s[0]] + without_escapes(s.skip(1))
    }
}

/// Drop colour escape sequences (log output keeps them when piped).
pub fn strip_ansi(line: &str) -> (r: String)
    ensures
        r@ == without_escapes(line@),
{
    let c = text::chars_of(line);
    let mut out = String::new();
    let mut i: usize = 0;
    assert(c@.skip(0) =~= c@);
    while i < c.len()
        invariant
            c@ == line@,
            i <= c@.len(),
            without_escapes(line@) == out@ + without_escapes(c@.skip(i as int)),
        decreases c@.len() - i,
    {
        let ghost rest = c@.skip(i as int);
        let ghost before = out@;
        assert(rest.skip(1) =~= c@.skip(i + 1));
        if c[i] == '\u{1b}' {
            let ghost begun = i;
            i = i + 1;
            let ghost tail = c@.skip(i as int);
            let mut ended = false;
            while i < c.len() && !ended
                invariant
                    begun < i <= c@.len(),
                    past_letter(tail) == (if ended {
                        c@.skip(i as int)
                    } else {
                        past_letter(c@.skip(i as int))
                    }),
                decreases c@.len() - i,
            {
                let ch = c[i];
                assert(c@.skip(i as int).skip(1) =~= c@.skip(i + 1));
                if ('a' <= ch && ch <= 'z') || ('A' <= ch && ch <= 'Z') {
                    ended = true;
                }
                i = i + 1;
            }
            assert(past_letter(tail) =~= c@.skip(i as int));
        } else {
            out.push(c[i]);
            assert(before + without_escapes(rest) =~= out@ + without_escapes(rest.skip(1)));
            i = i + 1;
        }
    }
    assert(c@.skip(i as int) =~= Seq::<char>::empty());
    assert(out@ =~= without_escapes(line@));
    out
}

/// A line without escapes is left as it is.
pub proof fn plain_lines_are_kept(s: Seq<char>)
    requires
        forall|i: int| 0 <= i < s.len() ==> s[i] != '\u{1b}',
    ensures
        without_escapes(s) == s,
    decreases s.len(),
{
    if s.len() > 0 {
        plain_lines_are_kept(s.skip(1));
        assert(without_escapes(s) =~= s);
    }
}

/// The size in a capture's file name: what follows `solari-`, up to the next `-`.
pub open spec fn dims_in(name: Seq<char>) -> Option<Seq<char>> {
    if text::begins_with(name, "solari-"@) {
        Some(text::up_to(name.skip("solari-"@.len() as int), '-'))
    } else {
        None
    }
}

/// The `{w}x{h}` token of a dump filename (`solari-WxH-Nspp-E.exr`).
pub fn dump_dims(file_name: &str) -> (r: Option<String>)
    ensures
        crate::document::opt_text(r) == dims_in(file_name@),
{
    if !text::starts_with(file_name, "solari-") {
        return None;
    }
    let from: usize = "solari-".unicode_len();
    let all: usize = file_name.unicode_len();
    let rest = file_name.substring_char(from, all);
    assert(rest@ =~= file_name@.skip(from as int));
    Some(text::split_at_char(rest, '-').0)
}

/// The size in a PNG's header.
pub uninterp spec fn png_size(bytes: Seq<u8>) -> Option<(u32, u32)>;

/// Reads a PNG's header with `png::Decoder::read_info` and takes `Info::size`; nothing where it
/// cannot be read. The result depends on the bytes alone.
#[verifier::external_body]
fn read_png_size(bytes: &Vec<u8>) -> (r: Option<(u32, u32)>)
    ensures
        r == png_size(bytes@),
{
    let reader = png::Decoder::new(std::io::Cursor::new(bytes)).read_info().ok()?;
    Some(reader.info().size())
}

/// A size as `{w}x{h}`.
pub open spec fn size_text(size: (u32, u32)) -> Seq<char> {
    text::decimal(size.0 as nat) + "x"@ + text::decimal(size.1 as nat)
}

/// Writes a size as `{w}x{h}`.
pub fn format_size(size: (u32, u32)) -> (r: String)
    ensures
        r@ == size_text(size),
{
    let mut out = text::decimal_text(size.0 as u64);
    out.append("x");
    text::push_decimal(&mut out, size.1 as u64);
    out
}

/// A PNG's "WxH", from its header.
pub fn png_dims(bytes: &Vec<u8>) -> (r: Option<String>)
    ensures
        match r {
            Some(t) => png_size(bytes@) is Some && t@ == size_text(png_size(bytes@)->0),
            None => png_size(bytes@) is None,
        },
{
    match read_png_size(bytes) {
        Some(size) => Some(format_size(size)),
        None => None,
    }
}

/// What a run of the renderer has said so far.
pub struct FurnaceRun {
    /// The default configuration, as the run printed it.
    pub default_config: Option<String>,
    /// Path of the image the run dumped, if any.
    pub dump: Option<String>,
    /// Accumulated samples at dump time.
    pub dump_spp: Option<u32>,
    /// Screenshots the run captured, in order.
    pub shots: Vec<String>,
    /// The effective configuration.
    pub camera_ron: Option<String>,
    /// The name derived from the configuration: row/file identity.
    pub camera_name: Option<String>,
    /// The scene's fingerprint.
    pub scene_fp: Option<String>,
    /// Per-second frame times, as float bits.
    pub frame_ms: Vec<u64>,
    /// The run was ended early: the window settled at a size other than the truth's.
    pub wrong_size: bool,
    /// The latest size that the window announced.
    pub window_dims: String,
}

/// What a [`FurnaceRun`] holds.
pub ghost struct RunView {
    pub default_config: Option<Seq<char>>,
    pub dump: Option<Seq<char>>,
    pub dump_spp: Option<nat>,
    pub shots: Seq<Seq<char>>,
    pub camera_ron: Option<Seq<char>>,
    pub camera_name: Option<Seq<char>>,
    pub scene_fp: Option<Seq<char>>,
    pub frame_ms: Seq<u64>,
    pub wrong_size: bool,
    pub window_dims: Seq<char>,
}

impl View for FurnaceRun {
    type V = RunView;

    open spec fn view(&self) -> RunView {
        RunView {
            default_config: crate::document::opt_text(self.default_config),
            dump: crate::document::opt_text(self.dump),
            dump_spp: match self.dump_spp {
                Some(n) => Some(n as nat),
                None => None,
            },
            shots: text::texts(self.shots@),
            camera_ron: crate::document::opt_text(self.camera_ron),
            camera_name: crate::document::opt_text(self.camera_name),
            scene_fp: crate::document::opt_text(self.scene_fp),
            frame_ms: self.frame_ms@,
            wrong_size: self.wrong_size,
            window_dims: self.window_dims@,
        }
    }
}

/// What stands between the first `marker` of a line and the next, or the line's end.
pub open spec fn said(line: Seq<char>, marker: Seq<char>) -> Option<Seq<char>> {
    if text::contains_text(line, marker) {
        Some(choose|p: Seq<char>| text::is_second_part(line, marker, Some(p)))
    } else {
        None
    }
}

/// There is one text between two markers.
proof fn lemma_said(line: Seq<char>, marker: Seq<char>, p: Option<Seq<char>>)
    requires
        text::is_second_part(line, marker, p),
    ensures
        said(line, marker) == p,
{
    if let Some(x) = p {
        let (i, j) = choose|i: int, j: int|
            #![trigger line.subrange(i, j)]
            text::first_at(line, marker, i - marker.len()) && x == line.subrange(i, j)
                && text::is_next_at(line, marker, i, j);
        assert(text::occurs_at(line, marker, i - marker.len()));
        let y = said(line, marker)->0;
        let (a, b) = choose|a: int, b: int|
            #![trigger line.subrange(a, b)]
            text::first_at(line, marker, a - marker.len()) && y == line.subrange(a, b)
                && text::is_next_at(line, marker, a, b);
        assert(i == a) by {
            if i < a {
                assert(!text::occurs_at(line, marker, i - marker.len()));
            } else if a < i {
                assert(!text::occurs_at(line, marker, a - marker.len()));
            }
        }
        if j < b {
            assert(!text::occurs_at(line, marker, j));
        } else if b < j {
            assert(!text::occurs_at(line, marker, b));
        }
    }
}

fn hear(line: &str, marker: &str) -> (r: Option<String>)
    requires
        marker@.len() > 0,
    ensures
        crate::document::opt_text(r) == said(line@, marker@),
{
    let r = text::second_part(line, marker);
    proof {
        lemma_said(line@, marker@, crate::document::opt_text(r));
    }
    r
}

/// What a line says after a marker, trimmed; what was known where it says nothing.
pub open spec fn updated(line: Seq<char>, marker: Seq<char>, known: Option<Seq<char>>) -> Option<
    Seq<char>,
> {
    match said(line, marker) {
        Some(p) => Some(text::trimmed(p)),
        None => known,
    }
}

/// The sample count in the text after a dump's marker: the first word in the first round bracket.
pub open spec fn spp_in(rest: Seq<char>) -> Option<nat> {
    match text::following(rest, '(') {
        Some(t) => text::number_in(text::up_to(text::up_to(t, '('), ' '), u32::MAX as nat),
        None => None,
    }
}

/// A run after one more line of its output.
pub open spec fn run_after(run: RunView, line: Seq<char>) -> RunView {
    let dumped = said(line, "solari dump: wrote "@);
    let shot = said(line, "solari shot: wrote "@);
    let window = said(line, "solari window: "@);
    RunView {
        default_config: updated(line, "solari_default: "@, run.default_config),
        camera_ron: updated(line, "solari_camera: "@, run.camera_ron),
        camera_name: updated(line, "solari_camera_name: "@, run.camera_name),
        scene_fp: updated(line, "solari_scene_fp: "@, run.scene_fp),
        window_dims: match window {
            Some(p) => text::trimmed(p),
            None => run.window_dims,
        },
        dump: match dumped {
            Some(rest) => Some(text::up_to(rest, ' ')),
            None => run.dump,
        },
        dump_spp: match dumped {
            Some(rest) => spp_in(rest),
            None => run.dump_spp,
        },
        shots: match shot {
            Some(p) => run.shots.push(text::trimmed(p)),
            None => run.shots,
        },
        frame_ms: run.frame_ms,
        wrong_size: run.wrong_size,
    }
}

/// What a line asks for beside what it tells.
pub struct LineNews {
    /// The captures have landed: the run can end.
    pub done: bool,
    /// The text of a frame time, where the line has one.
    pub frame_time: Option<String>,
    /// The line is worth showing.
    pub alarm: bool,
}

/// The text of a frame time in a line: what follows `(avg `, up to `ms`.
pub open spec fn is_frame_time(line: Seq<char>, t: Option<Seq<char>>) -> bool {
    if !text::contains_text(line, "frame_time"@) {
        t is None
    } else {
        match said(line, "(avg "@) {
            None => t is None,
            Some(avg) => t == Some(text::trimmed(before_text(avg, "ms"@))),
        }
    }
}

/// A text up to the first of another, or all of it.
pub open spec fn before_text(s: Seq<char>, mark: Seq<char>) -> Seq<char> {
    if text::contains_text(s, mark) {
        s.take(choose|i: int| text::first_at(s, mark, i))
    } else {
        s
    }
}

fn take_before(s: &str, mark: &str) -> (r: String)
    ensures
        r@ == before_text(s@, mark@),
{
    let c = text::chars_of(s);
    let m = text::chars_of(mark);
    match text::find_text(&c, &m) {
        Some(i) => {
            proof {
                assert(text::occurs_at(s@, mark@, i as int));
                let k = choose|k: int| text::first_at(s@, mark@, k);
                assert(text::first_at(s@, mark@, i as int));
                if k < i {
                    assert(!text::occurs_at(s@, mark@, k));
                } else if i < k {
                    assert(!text::occurs_at(s@, mark@, i as int));
                }
            }
            let r = text::slice_text(&c, 0, i);
            assert(r@ =~= s@.take(i as int));
            r
        },
        None => s.to_owned(),
    }
}

fn update(slot: &mut Option<String>, line: &str, marker: &str)
    requires
        marker@.len() > 0,
    ensures
        crate::document::opt_text(*final(slot)) == updated(
            line@,
            marker@,
            crate::document::opt_text(*old(slot)),
        ),
{
    if let Some(p) = hear(line, marker) {
        *slot = Some(text::trim(p.as_str()));
    }
}

fn read_spp(rest: &str) -> (r: Option<u32>)
    ensures
        match r {
            Some(n) => spp_in(rest@) == Some(n as nat),
            None => spp_in(rest@) is None,
        },
{
    let (_, after) = text::split_at_char(rest, '(');
    match after {
        Some(t) => {
            let inside = text::split_at_char(t.as_str(), '(').0;
            let word = text::split_at_char(inside.as_str(), ' ').0;
            match text::parse_number(word.as_str(), u32::MAX as u64) {
                Some(n) => Some(n as u32),
                None => None,
            }
        },
        None => None,
    }
}

impl FurnaceRun {
    pub fn new() -> (r: FurnaceRun)
        ensures
            r@ == (RunView {
                default_config: None,
                dump: None,
                dump_spp: None,
                shots: seq![],
                camera_ron: None,
                camera_name: None,
                scene_fp: None,
                frame_ms: seq![],
                wrong_size: false,
                window_dims: seq![],
            }),
    {
        let r = FurnaceRun {
            default_config: None,
            dump: None,
            dump_spp: None,
            shots: Vec::new(),
            camera_ron: None,
            camera_name: None,
            scene_fp: None,
            frame_ms: Vec::new(),
            wrong_size: false,
            window_dims: String::new(),
        };
        assert(text::texts(r.shots@) =~= seq![]);
        r
    }

    /// Hears one line of the run's output. `kill_on_dump` ends the run once its captures have
    /// landed: the dump, and the screenshot where one is awaited.
    pub fn feed(&mut self, raw: &str, kill_on_dump: bool, awaits_shot: bool) -> (r: LineNews)
        ensures
            final(self)@ == run_after(old(self)@, without_escapes(raw@)),
            r.done == (kill_on_dump && final(self)@.dump is Some && (final(self)@.shots.len() > 0
                || !awaits_shot)),
            is_frame_time(without_escapes(raw@), crate::document::opt_text(r.frame_time)),
            r.alarm == (text::contains_text(without_escapes(raw@), "panicked"@)
                || text::contains_text(without_escapes(raw@), "DEVICE_LOST"@)),
            r.alarm == is_alarming(without_escapes(raw@)),
            r.done == has_landed(final(self)@, kill_on_dump, awaits_shot),
    {
        let line = strip_ansi(raw);
        let l = line.as_str();
        proof {
            reveal_strlit("solari_default: ");
            reveal_strlit("solari_camera: ");
            reveal_strlit("solari_camera_name: ");
            reveal_strlit("solari_scene_fp: ");
            reveal_strlit("solari window: ");
            reveal_strlit("solari dump: wrote ");
            reveal_strlit("solari shot: wrote ");
            reveal_strlit("(avg ");
        }
        update(&mut self.default_config, l, "solari_default: ");
        update(&mut self.camera_ron, l, "solari_camera: ");
        update(&mut self.camera_name, l, "solari_camera_name: ");
        update(&mut self.scene_fp, l, "solari_scene_fp: ");
        if let Some(p) = hear(l, "solari window: ") {
            self.window_dims = text::trim(p.as_str());
        }
        if let Some(rest) = hear(l, "solari dump: wrote ") {
            self.dump = Some(text::split_at_char(rest.as_str(), ' ').0);
            self.dump_spp = read_spp(rest.as_str());
        }
        if let Some(p) = hear(l, "solari shot: wrote ") {
            let shot = text::trim(p.as_str());
            proof {
                text::lemma_texts_push(self.shots@, shot);
            }
            self.shots.push(shot);
        }
        let done = kill_on_dump && self.dump.is_some() && (self.shots.len() > 0 || !awaits_shot);
        let mut frame_time: Option<String> = None;
        if text::contains(l, "frame_time") {
            if let Some(avg) = hear(l, "(avg ") {
                let ms = take_before(avg.as_str(), "ms");
                frame_time = Some(text::trim(ms.as_str()));
            }
        }
        let alarm = text::contains(l, "panicked") || text::contains(l, "DEVICE_LOST");
        assert(self.shots@.len() == text::texts(self.shots@).len());
        LineNews { done, frame_time, alarm }
    }

    /// Records a frame time, by its float bits. By then the window has settled: where its size is
    /// not the one expected, the run is ended for another try.
    pub fn tick(&mut self, frame_ms: u64, expect_dims: Option<&str>) -> (r: bool)
        ensures
            r == (match crate::names::optional(expect_dims) {
                Some(e) => old(self)@.window_dims.len() > 0 && old(self)@.window_dims != e && !old(
                    self,
                )@.wrong_size,
                None => false,
            }),
            r == ends_early(old(self)@, crate::names::optional(expect_dims)),
            final(self)@ == (RunView {
                frame_ms: old(self)@.frame_ms.push(frame_ms),
                wrong_size: old(self)@.wrong_size || r,
                ..old(self)@
            }),
    {
        self.frame_ms.push(frame_ms);
        let abort = match expect_dims {
            Some(e) => !self.window_dims.as_str().is_empty() && !text::same_text(
                self.window_dims.as_str(),
                e,
            ) && !self.wrong_size,
            None => false,
        };
        if abort {
            self.wrong_size = true;
        }
        abort
    }
}

/// Whether a text neither begins nor ends with white space.
pub open spec fn is_trim(s: Seq<char>) -> bool {
    s.len() > 0 && !text::white_space(s[0]) && !text::white_space(s.last())
}

proof fn lemma_trim(s: Seq<char>)
    requires
        is_trim(s),
    ensures
        text::trimmed(s) == s,
{
}

/// A line that tells `told` after its first marker, which `told` does not hold, says just that.
proof fn lemma_told(prefix: Seq<char>, marker: Seq<char>, told: Seq<char>)
    requires
        marker.len() > 0,
        text::first_at(prefix + marker + told, marker, prefix.len() as int),
        !text::contains_text(told, marker),
    ensures
        said(prefix + marker + told, marker) == Some(told),
{
    let line = prefix + marker + told;
    let i = prefix.len() + marker.len();
    let j = line.len() as int;
    assert(line.subrange(i as int, j) =~= told);
    assert forall|k: int| i <= k < j implies !text::occurs_at(line, marker, k) by {
        if text::occurs_at(line, marker, k) {
            assert(told.subrange(k - i, k - i + marker.len()) =~= line.subrange(
                k,
                k + marker.len(),
            ));
            assert(text::occurs_at(told, marker, k - i));
        }
    }
    assert(text::is_next_at(line, marker, i as int, j));
    assert(text::is_second_part(line, marker, Some(told)));
    lemma_said(line, marker, Some(told));
}

/// A scene's fingerprint comes back out of the line that tells it, whatever the log writes before
/// it. The scene's name holds no marker and does not end in white space.
pub proof fn fingerprints_read_back(run: RunView, prefix: Seq<char>, hash: u64, scene: Seq<char>)
    requires
        text::first_at(
            prefix + "solari_scene_fp: "@ + exam::fingerprint(hash, scene),
            "solari_scene_fp: "@,
            prefix.len() as int,
        ),
        !text::contains_text(scene, "solari_scene_fp: "@),
        scene.len() > 0 ==> !text::white_space(scene.last()),
    ensures
        ({
            let told = exam::fingerprint(hash, scene);
            run_after(run, prefix + "solari_scene_fp: "@ + told).scene_fp == Some(told)
        }),
{
    reveal_strlit("solari_scene_fp: ");
    reveal_strlit("-");
    let told = exam::fingerprint(hash, scene);
    let marker = "solari_scene_fp: "@;
    let digits = exam::hex_digits(hash as nat, 16);
    exam::lemma_hex_digits(hash as nat, 16);
    assert(told[0] == digits[0]);
    assert(told[16] == '-');
    assert(scene.len() == 0 ==> told.last() == '-');
    assert(scene.len() > 0 ==> told.last() == scene.last());
    assert(!text::contains_text(told, marker)) by {
        if text::contains_text(told, marker) {
            let k = choose|k: int| text::occurs_at(told, marker, k);
            assert(told.subrange(k, k + marker.len())[0] == marker[0]);
            assert(told[k] == 's');
            if k < 16 {
                assert(told[k] == digits[k]);
            } else {
                assert(scene.subrange(k - 17, k - 17 + marker.len()) =~= told.subrange(
                    k,
                    k + marker.len(),
                ));
                assert(text::occurs_at(scene, marker, k - 17));
            }
        }
    }
    lemma_told(prefix, marker, told);
    lemma_trim(told);
}

/// A window's size comes back out of the line that announces it, whatever the log writes before
/// it.
pub proof fn announced_sizes_read_back(run: RunView, prefix: Seq<char>, size: (u32, u32))
    requires
        text::first_at(
            prefix + exam::window_text(size.0 as nat, size.1 as nat),
            "solari window: "@,
            prefix.len() as int,
        ),
    ensures
        run_after(run, prefix + exam::window_text(size.0 as nat, size.1 as nat)).window_dims
            == size_text(size),
{
    reveal_strlit("solari window: ");
    reveal_strlit("x");
    let told = size_text(size);
    let marker = "solari window: "@;
    let (w, h) = (text::decimal(size.0 as nat), text::decimal(size.1 as nat));
    text::lemma_decimal_digits(size.0 as nat);
    text::lemma_decimal_digits(size.1 as nat);
    assert(told[0] == w[0]);
    assert(told.last() == h[h.len() - 1]);
    assert(!text::contains_text(told, marker)) by {
        if text::contains_text(told, marker) {
            let k = choose|k: int| text::occurs_at(told, marker, k);
            assert(told.subrange(k, k + marker.len())[0] == marker[0]);
            assert(told[k] == 's');
            if k < w.len() {
                assert(told[k] == w[k]);
            } else if k > w.len() {
                assert(told[k] == h[k - w.len() - 1]);
            }
        }
    }
    assert(prefix + exam::window_text(size.0 as nat, size.1 as nat) =~= prefix + marker + told);
    lemma_told(prefix, marker, told);
    lemma_trim(told);
}

/// The size in a dump's file name is the one it was named with.
pub proof fn dump_names_read_back(size: (u32, u32), rest: Seq<char>)
    ensures
        dims_in("solari-"@ + size_text(size) + ("-"@ + rest)) == Some(size_text(size)),
{
    reveal_strlit("solari-");
    reveal_strlit("-");
    reveal_strlit("x");
    let told = size_text(size);
    let name = "solari-"@ + told + ("-"@ + rest);
    let (w, h) = (text::decimal(size.0 as nat), text::decimal(size.1 as nat));
    text::lemma_decimal_digits(size.0 as nat);
    text::lemma_decimal_digits(size.1 as nat);
    assert forall|k: int| 0 <= k < told.len() implies #[trigger] told[k] != '-' by {
        if k < w.len() {
            assert(told[k] == w[k]);
        } else if k > w.len() {
            assert(told[k] == h[k - w.len() - 1]);
        }
    }
    assert(!told.contains('-'));
    assert(name.subrange(0, "solari-"@.len() as int) =~= "solari-"@);
    assert(name.skip("solari-"@.len() as int) =~= told + seq!['-'] + rest);
    text::joined_texts_split(told, '-', rest);
}

proof fn lemma_flat_concat(a: Seq<char>, b: Seq<char>)
    ensures
        flattened(a + b) == flattened(a) + flattened(b),
    decreases b.len(),
{
    if b.len() == 0 {
        assert(a + b =~= a);
        assert(flattened(a) + flattened(b) =~= flattened(a));
    } else {
        lemma_flat_concat(a, b.drop_last());
        assert((a + b).drop_last() =~= a + b.drop_last());
        assert(flattened(a + b) =~= flattened(a) + flattened(b));
    }
}

proof fn lemma_flat_plain(s: Seq<char>)
    requires
        !s.contains(' '),
    ensures
        flattened(s) == s,
    decreases s.len(),
{
    if s.len() > 0 {
        assert(s.contains(s.last()));
        assert forall|i: int| 0 <= i < s.len() - 1 implies s.drop_last()[i] != ' ' by {
            assert(s.contains(s[i]));
        }
        lemma_flat_plain(s.drop_last());
        assert(flattened(s) =~= s);
    }
}

/// A character that a text lacks is in no text found in it flattened.
proof fn lemma_flat_lacks(s: Seq<char>, c: char, mark: Seq<char>)
    requires
        !s.contains(c),
        mark.contains(c),
    ensures
        !text::contains_text(flattened(s), mark),
{
    if text::contains_text(flattened(s), mark) {
        let i = choose|i: int| text::occurs_at(flattened(s), mark, i);
        let k = choose|k: int| 0 <= k < mark.len() && mark[k] == c;
        assert(flattened(s).subrange(i, i + mark.len())[k] == c);
        assert(flattened(s)[i + k] == c);
        lemma_flat_chars(s, i + k);
    }
}

proof fn lemma_flat_chars(s: Seq<char>, i: int)
    requires
        0 <= i < flattened(s).len(),
    ensures
        s.contains(flattened(s)[i]),
    decreases s.len(),
{
    let rest = s.drop_last();
    if i < flattened(rest).len() {
        lemma_flat_chars(rest, i);
        let k = choose|k: int| 0 <= k < rest.len() && rest[k] == flattened(rest)[i];
        assert(s[k] == flattened(s)[i]);
    } else {
        assert(s[s.len() - 1] == flattened(s)[i]);
    }
}

/// Two words with a blank between them stand together once the blank is gone.
proof fn lemma_flat_joins(s: Seq<char>, at: int, left: Seq<char>, right: Seq<char>)
    requires
        0 <= at,
        at + left.len() + 1 + right.len() <= s.len(),
        s.subrange(at, at + left.len() + 1 + right.len()) == left + seq![' '] + right,
        !left.contains(' '),
        !right.contains(' '),
    ensures
        text::contains_text(flattened(s), left + right),
{
    let end = at + left.len() + 1 + right.len();
    let (pre, post) = (s.take(at), s.skip(end));
    let word = left + seq![' '] + right;
    assert(s =~= pre + word + post);
    lemma_flat_concat(pre + word, post);
    lemma_flat_concat(pre, word);
    lemma_flat_concat(left + seq![' '], right);
    lemma_flat_concat(left, seq![' ']);
    lemma_flat_plain(left);
    lemma_flat_plain(right);
    let blank = seq![' '];
    assert(blank.drop_last() =~= Seq::<char>::empty());
    assert(flattened(blank.drop_last()) =~= Seq::<char>::empty());
    assert(blank.last() == ' ');
    assert(flattened(word) =~= left + right);
    let n = flattened(pre).len() as int;
    assert(flattened(s).subrange(n, n + (left + right).len()) =~= left + right);
    assert(text::occurs_at(flattened(s), left + right, n));
}

/// A scope's truth is rendered at that scope.
pub proof fn truths_have_their_scope(scope: Scope)
    ensures
        scope_in(truth_camera_text(scope)) == scope,
{
    reveal_strlit("gi:None");
    reveal_strlit("only:true");
    assert("gi:None"@[3] == 'N');
    assert("only:true"@[3] == 'y');
    let config = truth_camera_text(scope);
    match scope {
        Scope::Full => {
            reveal_strlit("(mode: Reference((gi: Some((bounces: 32)))))");
            lemma_flat_lacks(config, 'N', "gi:None"@);
            lemma_flat_lacks(config, 'y', "only:true"@);
        },
        Scope::NoGi => {
            reveal_strlit("(mode: Reference((gi: None)))");
            let (left, right) = (seq!['g', 'i', ':'], seq!['N', 'o', 'n', 'e']);
            assert(config.subrange(18, 26) =~= left + seq![' '] + right);
            lemma_flat_joins(config, 18, left, right);
            assert(left + right =~= "gi:None"@);
        },
        Scope::GiOnly => {
            reveal_strlit("(mode: Reference((gi: Some((only: true, bounces: 32)))))");
            lemma_flat_lacks(config, 'N', "gi:None"@);
            let (left, right) = (seq!['o', 'n', 'l', 'y', ':'], seq!['t', 'r', 'u', 'e']);
            assert(config.subrange(28, 38) =~= left + seq![' '] + right);
            lemma_flat_joins(config, 28, left, right);
            assert(left + right =~= "only:true"@);
        },
    }
}

/// Every truth is plain reference accumulation, never an estimator that is graded: its camera
/// begins as a reference with its indirect light said, uses no radiance cache and no reuse, and
/// follows thirty-two bounces wherever it has indirect light.
pub proof fn truths_are_plain_references(scope: Scope)
    ensures
        text::begins_with(truth_camera_text(scope), "(mode: Reference((gi: "@),
        !carries_cache(truth_camera_text(scope)),
        !truth_camera_text(scope).contains('R') || truth_camera_text(scope).take(22)
            == "(mode: Reference((gi: "@ && !truth_camera_text(scope).skip(22).contains('R'),
        scope != Scope::NoGi ==> text::contains_text(truth_camera_text(scope), "bounces: 32)"@),
        scope == Scope::NoGi ==> text::contains_text(truth_camera_text(scope), "gi: None)"@),
        scope == Scope::GiOnly <==> text::contains_text(truth_camera_text(scope), "only: true"@),
{
    reveal_strlit("(mode: Reference((gi: ");
    reveal_strlit("bounces: 32)");
    reveal_strlit("gi: None)");
    reveal_strlit("only: true");
    reveal_strlit("nrc:true");
    reveal_strlit("nrc_gi:true");
    reveal_strlit("Realtime(");
    let config = truth_camera_text(scope);
    let front = "(mode: Reference((gi: "@;
    match scope {
        Scope::Full => {
            reveal_strlit("(mode: Reference((gi: Some((bounces: 32)))))");
            assert("nrc:true"@[4] == 't');
            assert("nrc_gi:true"@[7] == 't');
            assert("Realtime("@[4] == 't');
            lemma_flat_lacks(config, 't', "nrc:true"@);
            lemma_flat_lacks(config, 't', "nrc_gi:true"@);
            lemma_flat_lacks(config, 't', "Realtime("@);
            assert(config.subrange(28, 40) =~= "bounces: 32)"@);
            assert(text::occurs_at(config, "bounces: 32)"@, 28));
            assert("only: true"@[3] == 'y');
            lemma_lacks(config, 'y', "only: true"@);
        },
        Scope::NoGi => {
            reveal_strlit("(mode: Reference((gi: None)))");
            assert("nrc:true"@[4] == 't');
            assert("nrc_gi:true"@[7] == 't');
            assert("Realtime("@[4] == 't');
            lemma_flat_lacks(config, 't', "nrc:true"@);
            lemma_flat_lacks(config, 't', "nrc_gi:true"@);
            lemma_flat_lacks(config, 't', "Realtime("@);
            assert(config.subrange(18, 27) =~= "gi: None)"@);
            assert(text::occurs_at(config, "gi: None)"@, 18));
            assert("only: true"@[3] == 'y');
            lemma_lacks(config, 'y', "only: true"@);
        },
        Scope::GiOnly => {
            reveal_strlit("(mode: Reference((gi: Some((only: true, bounces: 32)))))");
            assert("nrc_gi:true"@[3] == '_');
            assert("Realtime("@[2] == 'a');
            lemma_flat_lacks(config, '_', "nrc_gi:true"@);
            lemma_flat_lacks(config, 'a', "Realtime("@);
            lemma_gi_only_has_no_cache(config);
            assert(config.subrange(40, 52) =~= "bounces: 32)"@);
            assert(text::occurs_at(config, "bounces: 32)"@, 40));
            assert(config.subrange(28, 38) =~= "only: true"@);
            assert(text::occurs_at(config, "only: true"@, 28));
        },
    }
    assert(config.subrange(0, 22) =~= front);
    assert(config.take(22) =~= front);
}

proof fn lemma_gi_only_has_no_cache(config: Seq<char>)
    requires
        config == "(mode: Reference((gi: Some((only: true, bounces: 32)))))"@,
    ensures
        !text::contains_text(flattened(config), "nrc:true"@),
{
    reveal_strlit("(mode: Reference((gi: Some((only: true, bounces: 32)))))");
    reveal_strlit("nrc:true");
    let cut = 33int;
    let (pre, post) = (config.take(cut), config.skip(cut));
    assert(config =~= pre + post);
    lemma_flat_concat(pre, post);
    let mark = "nrc:true"@;
    let flat = flattened(config);
    if text::contains_text(flat, mark) {
        let i = choose|i: int| text::occurs_at(flat, mark, i);
        let n = flattened(pre).len();
        let hit = flat.subrange(i, i + 8);
        assert(hit == mark);
        assert(hit[4] == 't' && hit[2] == 'c' && hit[3] == ':');
        assert(flat[i + 4] == 't' && flat[i + 3] == ':' && flat[i + 2] == 'c');
        assert(!pre.contains('t'));
        if i + 4 < n {
            lemma_flat_chars(pre, i + 4);
            assert(flattened(pre)[i + 4] == 't');
        }
        let end = post.skip(6);
        let mid = post.take(6);
        assert(post =~= mid + end);
        lemma_flat_concat(mid, end);
        assert(mid =~= seq![' ', 't', 'r', 'u', 'e', ',']);
        let blank = seq![' '];
        let word = seq!['t', 'r', 'u', 'e', ','];
        assert(mid =~= blank + word);
        lemma_flat_concat(blank, word);
        lemma_flat_plain(word);
        assert(blank.drop_last() =~= Seq::<char>::empty());
        assert(flattened(blank.drop_last()) =~= Seq::<char>::empty());
        assert(blank.last() == ' ');
        assert(flattened(mid) =~= word);
        assert(!end.contains('t'));
        if i + 4 >= n + 5 {
            lemma_flat_chars(end, i + 4 - n - 5);
            assert(flattened(end)[i + 4 - n - 5] == 't');
        } else {
            assert(word[i + 4 - n] == 't');
            assert(i + 4 == n);
            let head = pre.take(28);
            let tail = pre.skip(28);
            assert(pre =~= head + tail);
            lemma_flat_concat(head, tail);
            assert(tail =~= seq!['o', 'n', 'l', 'y', ':']);
            lemma_flat_plain(tail);
            assert(flattened(pre)[n - 2] == 'y');
        }
    }
}

/// A character that a text lacks is in no text found in it.
proof fn lemma_lacks(s: Seq<char>, c: char, mark: Seq<char>)
    requires
        !s.contains(c),
        mark.contains(c),
    ensures
        !text::contains_text(s, mark),
{
    if text::contains_text(s, mark) {
        let i = choose|i: int| text::occurs_at(s, mark, i);
        let k = choose|k: int| 0 <= k < mark.len() && mark[k] == c;
        assert(s.subrange(i, i + mark.len())[k] == c);
        assert(s[i + k] == c);
    }
}

/// Blanks do not tell configurations apart, wherever they stand.
pub proof fn blanks_do_not_count(a: Seq<char>, b: Seq<char>)
    ensures
        carries_cache(a + seq![' '] + b) == carries_cache(a + b),
        scope_in(a + seq![' '] + b) == scope_in(a + b),
{
    let blank = seq![' '];
    lemma_flat_concat(a + blank, b);
    lemma_flat_concat(a, blank);
    lemma_flat_concat(a, b);
    assert(blank.drop_last() =~= Seq::<char>::empty());
    assert(flattened(blank.drop_last()) =~= Seq::<char>::empty());
    assert(blank.last() == ' ');
    assert(flattened(a) + Seq::<char>::empty() =~= flattened(a));
}

/// A configuration that switches the radiance cache on, for all light or for indirect light, or
/// that runs the shipped stack, carries it; one that says neither `true` nor `Realtime` does not.
pub proof fn caches_are_told(a: Seq<char>, b: Seq<char>)
    ensures
        carries_cache(a + "nrc: true"@ + b),
        carries_cache(a + "nrc_gi: true"@ + b),
        carries_cache(a + "Realtime("@ + b),
        !a.contains('t') ==> !carries_cache(a),
{
    reveal_strlit("nrc: true");
    reveal_strlit("nrc_gi: true");
    reveal_strlit("nrc:true");
    reveal_strlit("nrc_gi:true");
    reveal_strlit("Realtime(");
    let n = a.len() as int;
    let whole = a + "nrc: true"@ + b;
    let (l, r) = (seq!['n', 'r', 'c', ':'], seq!['t', 'r', 'u', 'e']);
    assert(whole.subrange(n, n + 9) =~= l + seq![' '] + r);
    lemma_flat_joins(whole, n, l, r);
    assert(l + r =~= "nrc:true"@);
    let whole = a + "nrc_gi: true"@ + b;
    let l = seq!['n', 'r', 'c', '_', 'g', 'i', ':'];
    assert(whole.subrange(n, n + 12) =~= l + seq![' '] + r);
    lemma_flat_joins(whole, n, l, r);
    assert(l + r =~= "nrc_gi:true"@);
    lemma_flat_concat(a + "Realtime("@, b);
    lemma_flat_concat(a, "Realtime("@);
    lemma_flat_plain("Realtime("@);
    let flat = flattened(a + "Realtime("@ + b);
    let k = flattened(a).len() as int;
    assert(flat.subrange(k, k + 9) =~= "Realtime("@);
    assert(text::occurs_at(flat, "Realtime("@, k));
    if !a.contains('t') {
        assert("nrc:true"@[4] == 't');
        assert("nrc_gi:true"@[7] == 't');
        assert("Realtime("@[4] == 't');
        lemma_flat_lacks(a, 't', "nrc:true"@);
        lemma_flat_lacks(a, 't', "nrc_gi:true"@);
        lemma_flat_lacks(a, 't', "Realtime("@);
    }
}

/// A configuration without indirect light is graded against the truth without it; one with
/// indirect light only against that truth; one that says neither against the full one.
pub proof fn scopes_are_told(a: Seq<char>, b: Seq<char>)
    ensures
        scope_in(a + "gi: None"@ + b) == Scope::NoGi,
        !a.contains('N') && !b.contains('N') ==> scope_in(a + "only: true"@ + b) == Scope::GiOnly,
        !a.contains('N') && !a.contains('y') ==> scope_in(a) == Scope::Full,
{
    reveal_strlit("gi: None");
    reveal_strlit("gi:None");
    reveal_strlit("only: true");
    reveal_strlit("only:true");
    let n = a.len() as int;
    let whole = a + "gi: None"@ + b;
    let (l, r) = (seq!['g', 'i', ':'], seq!['N', 'o', 'n', 'e']);
    assert(whole.subrange(n, n + 8) =~= l + seq![' '] + r);
    lemma_flat_joins(whole, n, l, r);
    assert(l + r =~= "gi:None"@);
    let whole = a + "only: true"@ + b;
    let (l, r) = (seq!['o', 'n', 'l', 'y', ':'], seq!['t', 'r', 'u', 'e']);
    assert(whole.subrange(n, n + 10) =~= l + seq![' '] + r);
    lemma_flat_joins(whole, n, l, r);
    assert(l + r =~= "only:true"@);
    assert("gi:None"@[3] == 'N');
    assert("only:true"@[3] == 'y');
    if !a.contains('N') && !b.contains('N') {
        assert(!whole.contains('N')) by {
            if whole.contains('N') {
                let k = choose|k: int| 0 <= k < whole.len() && whole[k] == 'N';
                if k < n {
                    assert(a[k] == 'N');
                } else if k >= n + 10 {
                    assert(b[k - n - 10] == 'N');
                } else {
                    assert("only: true"@[k - n] == 'N');
                }
            }
        }
        lemma_flat_lacks(whole, 'N', "gi:None"@);
    }
    if !a.contains('N') && !a.contains('y') {
        lemma_flat_lacks(a, 'N', "gi:None"@);
        lemma_flat_lacks(a, 'y', "only:true"@);
    }
}

/// Whether a flag stands among arguments with a value behind it.
pub open spec fn has_value(args: Seq<Seq<char>>, flag: Seq<char>, value: Seq<char>) -> bool {
    exists|i: int|
        0 <= i < args.len() - 1 && (#[trigger] args[i]) == flag && args[i + 1] == value
}

/// A graded run renders its configuration. Accumulation takes sixteen samples a frame and dumps at
/// its time, without the denoiser or motion. Single frames take one sample, shoot at their time as
/// many frames as asked for and at least one, are denoised unless that is off, and move where asked.
pub proof fn runs_are_captured(
    config: Seq<char>,
    p: Protocol,
    secs: Seq<char>,
    extra: Seq<Seq<char>>,
)
    ensures
        ({
            let args = graded_args(config, p, secs, extra);
            &&& has_value(args, "--camera"@, config)
            &&& args.contains("--no-ui"@) && args.contains("--fps"@)
            &&& p.accum ==> args.contains("--accum"@) && has_value(args, "--spp"@, "16"@)
                && has_value(args, "--dump-at-secs"@, secs)
            &&& !p.accum ==> has_value(args, "--spp"@, "1"@) && has_value(
                args,
                "--shot-at-secs"@,
                secs,
            )
            &&& !p.accum && p.shots >= 1 ==> has_value(
                args,
                "--shot-frames"@,
                text::decimal(p.shots as nat),
            )
            &&& !p.accum && p.shots == 0 ==> has_value(args, "--shot-frames"@, text::decimal(1))
            &&& !p.accum && !p.no_dlss ==> args.contains("--dlss"@)
            &&& !p.accum ==> (p.orbit matches Some(n) ==> has_value(
                args,
                "--orbit"@,
                text::decimal(n as nat),
            ))
            &&& args.len() == 4 + extra.len() + (if p.accum {
                5int
            } else {
                6 + (if p.no_dlss {
                    0int
                } else {
                    1
                }) + (if p.orbit is Some {
                    2int
                } else {
                    0
                })
            })
            &&& forall|k: int|
                0 <= k < extra.len() ==> #[trigger] extra[k] == args[args.len() - extra.len() + k]
        }),
{
    let args = graded_args(config, p, secs, extra);
    let c = capture_args(p, secs);
    assert(args[0] == "--camera"@ && args[1] == config);
    assert(args[2] == "--no-ui"@);
    assert(args[3 + c.len() as int] == "--fps"@);
    assert forall|k: int| 0 <= k < c.len() implies args[3 + k] == #[trigger] c[k] by {}
    if p.accum {
        assert(args[3] == c[0] && args[4] == c[1] && args[5] == c[2] && args[6] == c[3] && args[7]
            == c[4]);
        assert(has_value(args, "--spp"@, "16"@));
        assert(has_value(args, "--dump-at-secs"@, secs));
    } else {
        assert(args[3] == c[0] && args[4] == c[1] && args[5] == c[2] && args[6] == c[3] && args[7]
            == c[4] && args[8] == c[5]);
        assert(has_value(args, "--spp"@, "1"@));
        assert(has_value(args, "--shot-at-secs"@, secs));
        if !p.no_dlss {
            assert(args[9] == c[6]);
        }
        if let Some(n) = p.orbit {
            let at = if p.no_dlss {
                6int
            } else {
                7
            };
            assert(args[3 + at] == c[at] && args[4 + at] == c[at + 1]);
        }
    }
}

/// A truth is baked by its scope's camera, accumulating thirty-two samples a frame up to the
/// samples asked for, and dumped with a screenshot.
pub proof fn truths_converge(scope: Scope, spp: nat)
    ensures
        has_value(baking_args(scope, spp), "--camera"@, truth_camera_text(scope)),
        has_value(baking_args(scope, spp), "--spp"@, "32"@),
        has_value(baking_args(scope, spp), "--dump-at-spp"@, text::decimal(spp)),
        baking_args(scope, spp).contains("--accum"@),
        baking_args(scope, spp).contains("--shot-on-dump"@),
        baking_args(scope, spp).contains("--no-ui"@),
        baking_args(scope, spp).len() == 9,
{
    let args = baking_args(scope, spp);
    assert(args[0] == "--camera"@ && args[1] == truth_camera_text(scope));
    assert(args[2] == "--accum"@);
    assert(args[3] == "--spp"@ && args[4] == "32"@);
    assert(args[5] == "--dump-at-spp"@ && args[6] == text::decimal(spp));
    assert(args[7] == "--shot-on-dump"@);
    assert(args[8] == "--no-ui"@);
}

/// A launch hands the run its scene, its time limit and every argument of its own, all of them
/// behind the mark that ends cargo's.
pub proof fn launches_pass_arguments_on(scene: Seq<char>, timeout: Seq<char>, extra: Seq<Seq<char>>)
    ensures
        ({
            let line = launch_line(scene, timeout, extra);
            &&& line.len() == 9 + extra.len()
            &&& line[0] == "run"@
            &&& has_value(line.take(4), "-p"@, "solari_furnace"@)
            &&& line[4] == "--"@
            &&& has_value(line.skip(5), "--scene"@, scene)
            &&& has_value(line.skip(5), "-t"@, timeout)
            &&& line.skip(9) == extra
        }),
{
    let line = launch_line(scene, timeout, extra);
    assert(line.take(4)[2] == "-p"@ && line.take(4)[3] == "solari_furnace"@);
    assert(line.skip(5)[0] == "--scene"@ && line.skip(5)[1] == scene);
    assert(line.skip(5)[2] == "-t"@ && line.skip(5)[3] == timeout);
    assert(line.skip(9) =~= extra);
}

/// Truths of different scopes never share a file, nor do those of different sample counts.
pub proof fn truths_have_files_of_their_own(a: Scope, b: Scope, m: nat, n: nat, tail: Seq<char>)
    requires
        a != b || m != n,
    ensures
        truth_file(a, m, tail) != truth_file(b, n, tail),
        a != b ==> prefix_text(a) != prefix_text(b),
        truth_file(Scope::Full, m, tail) == "truth-"@ + text::decimal(m) + tail,
{
    reveal_strlit("truth");
    reveal_strlit("truth-");
    reveal_strlit("truth-nogi");
    reveal_strlit("truth-gionly");
    reveal_strlit("-");
    assert("truth"@ + "-"@ =~= "truth-"@);
    text::lemma_decimal_digits(m);
    text::lemma_decimal_digits(n);
    let (s, t) = (truth_file(a, m, tail), truth_file(b, n, tail));
    if s == t {
        let (p, q) = (prefix_text(a) + "-"@, prefix_text(b) + "-"@);
        let (x, y) = (text::decimal(m) + tail, text::decimal(n) + tail);
        assert(s =~= p + x);
        assert(t =~= q + y);
        if a == b {
            assert(s.skip(p.len() as int) =~= x);
            assert(t.skip(q.len() as int) =~= y);
            assert(x.len() == y.len());
            assert(x.take(x.len() - tail.len()) =~= text::decimal(m));
            assert(y.take(y.len() - tail.len()) =~= text::decimal(n));
            text::decimal_is_injective(m, n);
        } else {
            assert(s[6] == t[6]);
            assert(a == Scope::Full ==> s[6] == text::decimal(m)[0]);
            assert(b == Scope::Full ==> t[6] == text::decimal(n)[0]);
        }
    }
    if prefix_text(a) == prefix_text(b) && a != b {
        assert(prefix_text(a).len() == prefix_text(b).len());
    }
}

/// Each line of a log tells what its marker stands for: the default configuration, the camera, its
/// name, the scene's fingerprint, the window's size, the dump or one more screenshot. What follows
/// the marker is taken, whatever the log writes before it.
pub proof fn lines_tell_their_field(run: RunView, prefix: Seq<char>, told: Seq<char>)
    ensures
        text::first_at(prefix + "solari_default: "@ + told, "solari_default: "@, prefix.len() as int)
            && !text::contains_text(told, "solari_default: "@) ==> run_after(
            run,
            prefix + "solari_default: "@ + told,
        ).default_config == Some(text::trimmed(told)),
        text::first_at(prefix + "solari_camera: "@ + told, "solari_camera: "@, prefix.len() as int)
            && !text::contains_text(told, "solari_camera: "@) ==> run_after(
            run,
            prefix + "solari_camera: "@ + told,
        ).camera_ron == Some(text::trimmed(told)),
        text::first_at(prefix + "solari_camera_name: "@ + told, "solari_camera_name: "@, prefix.len() as int)
            && !text::contains_text(told, "solari_camera_name: "@) ==> run_after(
            run,
            prefix + "solari_camera_name: "@ + told,
        ).camera_name == Some(text::trimmed(told)),
        text::first_at(prefix + "solari_scene_fp: "@ + told, "solari_scene_fp: "@, prefix.len() as int)
            && !text::contains_text(told, "solari_scene_fp: "@) ==> run_after(
            run,
            prefix + "solari_scene_fp: "@ + told,
        ).scene_fp == Some(text::trimmed(told)),
        text::first_at(prefix + "solari window: "@ + told, "solari window: "@, prefix.len() as int)
            && !text::contains_text(told, "solari window: "@) ==> run_after(
            run,
            prefix + "solari window: "@ + told,
        ).window_dims == text::trimmed(told),
        text::first_at(prefix + "solari dump: wrote "@ + told, "solari dump: wrote "@, prefix.len() as int)
            && !text::contains_text(told, "solari dump: wrote "@) ==> run_after(
            run,
            prefix + "solari dump: wrote "@ + told,
        ).dump == Some(text::up_to(told, ' ')),
        text::first_at(prefix + "solari shot: wrote "@ + told, "solari shot: wrote "@, prefix.len() as int)
            && !text::contains_text(told, "solari shot: wrote "@) ==> run_after(
            run,
            prefix + "solari shot: wrote "@ + told,
        ).shots == run.shots.push(text::trimmed(told)),
{
    if text::first_at(prefix + "solari_default: "@ + told, "solari_default: "@, prefix.len() as int)
        && !text::contains_text(told, "solari_default: "@) {
        reveal_strlit("solari_default: ");
        lemma_told(prefix, "solari_default: "@, told);
    }
    if text::first_at(prefix + "solari_camera: "@ + told, "solari_camera: "@, prefix.len() as int)
        && !text::contains_text(told, "solari_camera: "@) {
        reveal_strlit("solari_camera: ");
        lemma_told(prefix, "solari_camera: "@, told);
    }
    if text::first_at(prefix + "solari_camera_name: "@ + told, "solari_camera_name: "@, prefix.len() as int)
        && !text::contains_text(told, "solari_camera_name: "@) {
        reveal_strlit("solari_camera_name: ");
        lemma_told(prefix, "solari_camera_name: "@, told);
    }
    if text::first_at(prefix + "solari_scene_fp: "@ + told, "solari_scene_fp: "@, prefix.len() as int)
        && !text::contains_text(told, "solari_scene_fp: "@) {
        reveal_strlit("solari_scene_fp: ");
        lemma_told(prefix, "solari_scene_fp: "@, told);
    }
    if text::first_at(prefix + "solari window: "@ + told, "solari window: "@, prefix.len() as int)
        && !text::contains_text(told, "solari window: "@) {
        reveal_strlit("solari window: ");
        lemma_told(prefix, "solari window: "@, told);
    }
    if text::first_at(prefix + "solari dump: wrote "@ + told, "solari dump: wrote "@, prefix.len() as int)
        && !text::contains_text(told, "solari dump: wrote "@) {
        reveal_strlit("solari dump: wrote ");
        lemma_told(prefix, "solari dump: wrote "@, told);
    }
    if text::first_at(prefix + "solari shot: wrote "@ + told, "solari shot: wrote "@, prefix.len() as int)
        && !text::contains_text(told, "solari shot: wrote "@) {
        reveal_strlit("solari shot: wrote ");
        lemma_told(prefix, "solari shot: wrote "@, told);
    }
}

/// A line without a marker leaves what the marker stands for as it was; frame times and the window's
/// verdict are no line's to tell.
pub proof fn other_lines_tell_nothing(run: RunView, line: Seq<char>)
    ensures
        !text::contains_text(line, "solari_default: "@) ==> run_after(run, line).default_config == run.default_config,
        !text::contains_text(line, "solari_camera: "@) ==> run_after(run, line).camera_ron == run.camera_ron,
        !text::contains_text(line, "solari_camera_name: "@) ==> run_after(run, line).camera_name == run.camera_name,
        !text::contains_text(line, "solari_scene_fp: "@) ==> run_after(run, line).scene_fp == run.scene_fp,
        !text::contains_text(line, "solari window: "@) ==> run_after(run, line).window_dims == run.window_dims,
        !text::contains_text(line, "solari dump: wrote "@) ==> run_after(run, line).dump == run.dump,
        !text::contains_text(line, "solari shot: wrote "@) ==> run_after(run, line).shots == run.shots,
        !text::contains_text(line, "solari dump: wrote "@) ==> run_after(run, line).dump_spp
            == run.dump_spp,
        run_after(run, line).frame_ms == run.frame_ms,
        run_after(run, line).wrong_size == run.wrong_size,
{
}

/// The samples of a dump are the number that follows the first bracket of its line.
pub proof fn dumps_tell_their_samples(file: Seq<char>, n: u32, rest: Seq<char>)
    requires
        !file.contains('('),
        !rest.contains('('),
    ensures
        spp_in(file + seq!['('] + (text::decimal(n as nat) + seq![' '] + rest)) == Some(n as nat),
{
    let digits = text::decimal(n as nat);
    let inner = digits + seq![' '] + rest;
    text::joined_texts_split(file, '(', inner);
    text::lemma_decimal_digits(n as nat);
    assert forall|i: int| 0 <= i < inner.len() implies inner[i] != '(' by {
        if i < digits.len() {
            assert(inner[i] == digits[i]);
        } else if i > digits.len() {
            assert(inner[i] == rest[i - digits.len() - 1]);
            assert(rest.contains(rest[i - digits.len() - 1]));
        }
    }
    text::whole_text_stays(inner, '(');
    assert forall|i: int| 0 <= i < digits.len() implies digits[i] != ' ' by {}
    text::joined_texts_split(digits, ' ', rest);
    text::decimal_reads_back(n as nat, u32::MAX as nat);
}

/// The configurations to grade are the one that is given, or the rungs of the ladder that hold the
/// text asked for, in the ladder's order, or all of them.
pub proof fn rungs_are_picked_by_text(camera: Seq<char>, only: Option<Seq<char>>, part: Seq<char>, k: int)
    ensures
        configs_for(Some(camera), only) == seq![camera],
        configs_for(None, None) == ladder_texts(),
        0 <= k < configs_for(None, Some(part)).len() ==> text::contains_text(
            configs_for(None, Some(part))[k],
            part,
        ) && ladder_texts().contains(configs_for(None, Some(part))[k]),
        0 <= k < ladder_texts().len() && text::contains_text(ladder_texts()[k], part) ==> configs_for(
            None,
            Some(part),
        ).contains(ladder_texts()[k]),
{
    let keeps = |s: Seq<char>| text::contains_text(s, part);
    let picked = ladder_texts().filter(keeps);
    assert(configs_for(None, Some(part)) =~= picked);
    if 0 <= k < picked.len() {
        ladder_texts().lemma_filter_pred(keeps, k);
        assert(picked.contains(picked[k]));
        ladder_texts().lemma_filter_contains_rev(keeps, picked[k]);
    }
    if 0 <= k < ladder_texts().len() && text::contains_text(ladder_texts()[k], part) {
        ladder_texts().lemma_filter_contains(keeps, k);
    }
}

/// The ladder's rungs are all references, but for the last, which is real-time; each names a
/// complete mode.
pub proof fn rungs_name_their_mode(k: int)
    ensures
        ladder_texts().len() == 7,
        0 <= k < 6 ==> text::begins_with(ladder_texts()[k], "(mode: Reference(("@),
        ladder_texts()[6] == "(mode: Realtime(()))"@,
{
    reveal_strlit("(mode: Reference((");
    reveal_strlit("(mode: Reference(()))");
    reveal_strlit("(mode: Reference((di: Restir(()))))");
    reveal_strlit("(mode: Reference((di: Restir((spatial: Some(()))))))");
    reveal_strlit("(mode: Reference((di: Restir(()), gi: Some((estimator: Restir(()))))))");
    reveal_strlit(
        "(mode: Reference((di: Restir((spatial: Some(()))), gi: Some((estimator: Restir((spatial: Some(()))))))))",
    );
    reveal_strlit("(mode: Reference((gi: Some((nrc: true)))))");
    if 0 <= k < 6 {
        assert(ladder_texts()[k].subrange(0, 18) =~= "(mode: Reference(("@);
    }
}

/// A run's record keeps each of its fields.
pub proof fn runs_keep_their_fields(r: FurnaceRun)
    ensures
        r@.default_config == crate::document::opt_text(r.default_config),
        r@.dump == crate::document::opt_text(r.dump),
        r.dump_spp is None <==> r@.dump_spp is None,
        r.dump_spp is Some ==> r@.dump_spp == Some(r.dump_spp->0 as nat),
        r@.shots == text::texts(r.shots@),
        r@.camera_ron == crate::document::opt_text(r.camera_ron),
        r@.camera_name == crate::document::opt_text(r.camera_name),
        r@.scene_fp == crate::document::opt_text(r.scene_fp),
        r@.frame_ms == r.frame_ms@,
        r@.wrong_size == r.wrong_size,
        r@.window_dims == r.window_dims@,
{
}

/// Whether a line is worth showing.
pub open spec fn is_alarming(line: Seq<char>) -> bool {
    text::contains_text(line, "panicked"@) || text::contains_text(line, "DEVICE_LOST"@)
}

/// Whether a run's captures have landed.
pub open spec fn has_landed(run: RunView, kill_on_dump: bool, awaits_shot: bool) -> bool {
    kill_on_dump && run.dump is Some && (run.shots.len() > 0 || !awaits_shot)
}

/// A line that tells of a panic or of a lost device is shown. A run ends once its dump has landed,
/// and a screenshot where one is awaited; never where it is to go on.
pub proof fn runs_end_when_captured(run: RunView, a: Seq<char>, b: Seq<char>)
    ensures
        is_alarming(a + "panicked"@ + b),
        is_alarming(a + "DEVICE_LOST"@ + b),
        !has_landed(run, false, true) && !has_landed(run, false, false),
        run.dump is None ==> !has_landed(run, true, true) && !has_landed(run, true, false),
        run.dump is Some ==> has_landed(run, true, false),
        run.dump is Some ==> (has_landed(run, true, true) <==> run.shots.len() > 0),
{
    let n = a.len() as int;
    let (p, q) = (a + "panicked"@ + b, a + "DEVICE_LOST"@ + b);
    assert(p.subrange(n, n + "panicked"@.len()) =~= "panicked"@);
    assert(text::occurs_at(p, "panicked"@, n));
    assert(q.subrange(n, n + "DEVICE_LOST"@.len()) =~= "DEVICE_LOST"@);
    assert(text::occurs_at(q, "DEVICE_LOST"@, n));
}

/// An escape is dropped with what follows it up to its letter, and nothing else of a line is.
pub proof fn escapes_are_dropped(a: Seq<char>, code: Seq<char>, letter: char, b: Seq<char>)
    requires
        !a.contains('\u{1b}'),
        'a' <= letter <= 'z' || 'A' <= letter <= 'Z',
        forall|i: int|
            0 <= i < code.len() ==> !('a' <= #[trigger] code[i] <= 'z' || 'A' <= code[i] <= 'Z'),
    ensures
        without_escapes(a + (seq!['\u{1b}'] + code + seq![letter] + b)) == a + without_escapes(b),
    decreases a.len(),
{
    let escape = seq!['\u{1b}'] + code + seq![letter] + b;
    let all = a + escape;
    if a.len() == 0 {
        assert(all =~= escape);
        assert(escape[0] == '\u{1b}');
        assert(escape.skip(1) =~= code + seq![letter] + b);
        lemma_past_code(code, letter, b);
        assert(a + without_escapes(b) =~= without_escapes(b));
    } else {
        let less = a.skip(1);
        assert(a.contains(a[0]));
        assert forall|c: char| less.contains(c) implies a.contains(c) by {
            let k = choose|k: int| 0 <= k < less.len() && less[k] == c;
            assert(a[k + 1] == c);
        }
        escapes_are_dropped(less, code, letter, b);
        assert(all.skip(1) =~= less + escape);
        assert(all[0] == a[0]);
        assert(seq![a[0]] + (less + without_escapes(b)) =~= a + without_escapes(b));
    }
}

proof fn lemma_past_code(code: Seq<char>, letter: char, b: Seq<char>)
    requires
        'a' <= letter <= 'z' || 'A' <= letter <= 'Z',
        forall|i: int|
            0 <= i < code.len() ==> !('a' <= #[trigger] code[i] <= 'z' || 'A' <= code[i] <= 'Z'),
    ensures
        past_letter(code + seq![letter] + b) == b,
    decreases code.len(),
{
    let all = code + seq![letter] + b;
    if code.len() == 0 {
        assert(all[0] == letter);
        assert(all.skip(1) =~= b);
    } else {
        let less = code.skip(1);
        assert(all[0] == code[0]);
        assert(!('a' <= code[0] <= 'z' || 'A' <= code[0] <= 'Z'));
        assert forall|i: int| 0 <= i < less.len() implies !('a' <= #[trigger] less[i] <= 'z' || 'A'
            <= less[i] <= 'Z') by {
            assert(less[i] == code[i + 1]);
        }
        lemma_past_code(less, letter, b);
        assert(all.skip(1) =~= less + seq![letter] + b);
    }
}

/// A frame time is what a line that tells of one has between its average's mark and the unit.
pub proof fn frame_times_are_read(
    prefix: Seq<char>,
    average: Seq<char>,
    rest: Seq<char>,
    t: Option<Seq<char>>,
)
    requires
        ({
            let told = average + "ms"@ + rest;
            &&& text::first_at(prefix + "(avg "@ + told, "(avg "@, prefix.len() as int)
            &&& !text::contains_text(told, "(avg "@)
            &&& text::first_at(told, "ms"@, average.len() as int)
            &&& text::contains_text(prefix + "(avg "@ + told, "frame_time"@)
            &&& is_frame_time(prefix + "(avg "@ + told, t)
        }),
    ensures
        t == Some(text::trimmed(average)),
{
    reveal_strlit("(avg ");
    let told = average + "ms"@ + rest;
    lemma_told(prefix, "(avg "@, told);
    let n = average.len() as int;
    assert(text::occurs_at(told, "ms"@, n));
    let i = choose|i: int| text::first_at(told, "ms"@, i);
    assert(text::first_at(told, "ms"@, n));
    assert(text::first_at(told, "ms"@, i));
    assert(i == n) by {
        if i < n {
            assert(!text::occurs_at(told, "ms"@, i));
        } else if n < i {
            assert(!text::occurs_at(told, "ms"@, n));
        }
    }
    assert(told.take(n) =~= average);
}

/// Whether a truth must be baked.
pub open spec fn needs_bake(rebake: bool, has_exr: bool, has_shot: bool, has_dims: bool) -> bool {
    rebake || !(has_exr && has_shot && has_dims)
}

/// A truth is baked where it is asked for, and where any part of it is missing; a whole one is kept.
pub proof fn whole_truths_are_kept(exr: bool, shot: bool, dims: bool)
    ensures
        needs_bake(true, exr, shot, dims),
        !needs_bake(false, true, true, true),
        !exr || !shot || !dims ==> needs_bake(false, exr, shot, dims),
{
}

/// Whether a run is ended as its window settled at another size than expected.
pub open spec fn ends_early(run: RunView, expected: Option<Seq<char>>) -> bool {
    match expected {
        Some(e) => run.window_dims.len() > 0 && run.window_dims != e && !run.wrong_size,
        None => false,
    }
}

/// A run is ended early once, where its window announced a size, and not the one that is expected.
pub proof fn runs_end_early_once(run: RunView, e: Seq<char>)
    ensures
        !ends_early(run, None),
        run.wrong_size ==> !ends_early(run, Some(e)),
        run.window_dims == e ==> !ends_early(run, Some(e)),
        run.window_dims.len() == 0 ==> !ends_early(run, Some(e)),
        !run.wrong_size && run.window_dims.len() > 0 && run.window_dims != e ==> ends_early(run, Some(e)),
{
}

/// The ladder climbs from the plain reference over resampled direct light, then resampled indirect
/// light, then a radiance cache, to real time.
pub proof fn the_ladder_climbs()
    ensures
        ladder_texts() == seq![
            "(mode: Reference(()))"@,
            "(mode: Reference((di: Restir(()))))"@,
            "(mode: Reference((di: Restir((spatial: Some(()))))))"@,
            "(mode: Reference((di: Restir(()), gi: Some((estimator: Restir(()))))))"@,
            "(mode: Reference((di: Restir((spatial: Some(()))), gi: Some((estimator: Restir((spatial: Some(()))))))))"@,
            "(mode: Reference((gi: Some((nrc: true)))))"@,
            "(mode: Realtime(()))"@,
        ],
{
}

} // verus!
