//! The exam harness: probe readings and their verdict, the fingerprint of a scene, and what each
//! frame of a run decides.

use vstd::prelude::*;
use crate::furnace::Expect;
use crate::text;

verus! {

/// The hash of bytes after one more byte.
pub open spec fn fnv_step(hash: u64, b: u8) -> u64 {
    (hash ^ (b as u64)).wrapping_mul(0x0000_0100_0000_01b3)
}

/// The 64-bit FNV-1a hash of bytes.
pub open spec fn fnv_hash(bytes: Seq<u8>) -> u64
    decreases bytes.len(),
{
    if bytes.len() == 0 {
        0xcbf2_9ce4_8422_2325
    } else {
        fnv_step(fnv_hash(bytes.drop_last()), bytes.last())
    }
}

/// The 64-bit FNV-1a hash of bytes: the fingerprint of a scene's source.
pub fn fnv1a(bytes: &[u8]) -> (r: u64)
    ensures
        r == fnv_hash(bytes@),
{
    let mut hash: u64 = 0xcbf2_9ce4_8422_2325;
    let mut i: usize = 0;
    assert(bytes@.take(0) =~= seq![]);
    while i < bytes.len()
        invariant
            i <= bytes@.len(),
            hash == fnv_hash(bytes@.take(i as int)),
        decreases bytes@.len() - i,
    {
        assert(bytes@.take(i + 1).drop_last() =~= bytes@.take(i as int));
        hash = hash ^ (bytes[i] as u64);
        hash = hash.wrapping_mul(0x0000_0100_0000_01b3);
        i = i + 1;
    }
    assert(bytes@.take(bytes@.len() as int) =~= bytes@);
    hash
}

/// A source with one byte changed has another fingerprint.
pub proof fn one_byte_edits_show(bytes: Seq<u8>, i: int, b: u8)
    requires
        0 <= i < bytes.len(),
        b != bytes[i],
    ensures
        fnv_hash(bytes.update(i, b)) != fnv_hash(bytes),
    decreases bytes.len(),
{
    let edited = bytes.update(i, b);
    let short = bytes.drop_last();
    if i == bytes.len() - 1 {
        assert(edited.drop_last() =~= short);
        lemma_step_injective(fnv_hash(short), fnv_hash(short), b, bytes[i]);
    } else {
        one_byte_edits_show(short, i, b);
        assert(edited.drop_last() =~= short.update(i, b));
        let last = bytes.last();
        lemma_step_injective(fnv_hash(short.update(i, b)), fnv_hash(short), last, last);
    }
}

/// A step tells hashes apart for one byte, and bytes apart for one hash.
proof fn lemma_step_injective(g: u64, h: u64, a: u8, b: u8)
    requires
        (g == h && a != b) || (g != h && a == b),
    ensures
        fnv_step(g, a) != fnv_step(h, b),
{
    let x = g ^ (a as u64);
    let y = h ^ (b as u64);
    assert(x != y) by (bit_vector)
        requires
            x == g ^ (a as u64),
            y == h ^ (b as u64),
            (g == h && a != b) || (g != h && a == b),
    ;
    lemma_prime_odd(x, y);
}

/// Multiplying by the FNV prime, which is odd, loses nothing.
proof fn lemma_prime_odd(x: u64, y: u64)
    requires
        x != y,
    ensures
        x.wrapping_mul(0x0000_0100_0000_01b3) != y.wrapping_mul(0x0000_0100_0000_01b3),
{
    let p: int = 0x0000_0100_0000_01b3;
    let m: int = 0x1_0000_0000_0000_0000;
    if x.wrapping_mul(0x0000_0100_0000_01b3) == y.wrapping_mul(0x0000_0100_0000_01b3) {
        assert((x * p) % m == (y * p) % m);
        let inverse: int = 0xce96_5057_aff6_957b;
        assert((p * inverse) % m == 1);
        assert((x * p * inverse) % m == (y * p * inverse) % m) by {
            vstd::arithmetic::div_mod::lemma_mul_mod_noop_left(x * p, inverse, m);
            vstd::arithmetic::div_mod::lemma_mul_mod_noop_left(y * p, inverse, m);
        }
        assert(x * p * inverse == x * (p * inverse)) by (nonlinear_arith);
        assert(y * p * inverse == y * (p * inverse)) by (nonlinear_arith);
        vstd::arithmetic::div_mod::lemma_mul_mod_noop_right(x as int, p * inverse, m);
        vstd::arithmetic::div_mod::lemma_mul_mod_noop_right(y as int, p * inverse, m);
        assert(x * 1 == x && y * 1 == y);
        vstd::arithmetic::div_mod::lemma_small_mod(x as nat, m as nat);
        vstd::arithmetic::div_mod::lemma_small_mod(y as nat, m as nat);
    }
}

/// A digit of the hexadecimal notation.
pub open spec fn hex_char(d: int) -> char {
    if d < 10 {
        ('0' as u32 + d) as char
    } else {
        ('a' as u32 + (d - 10)) as char
    }
}

/// The last `width` digits of a number's hexadecimal notation.
pub open spec fn hex_digits(n: nat, width: nat) -> Seq<char>
    decreases width,
{
    if width == 0 {
        seq![]
    } else {
        hex_digits(n / 16, (width - 1) as nat).push(hex_char((n % 16) as int))
    }
}

/// Hexadecimal digits are digits or letters up to `f`, as many as asked for.
pub proof fn lemma_hex_digits(n: nat, width: nat)
    ensures
        hex_digits(n, width).len() == width,
        forall|k: int|
            0 <= k < width ==> 48 <= (#[trigger] hex_digits(n, width)[k]) as int <= 102,
    decreases width,
{
    if width > 0 {
        lemma_hex_digits(n / 16, (width - 1) as nat);
    }
}

pub(crate) fn push_hex(out: &mut String, n: u64, width: usize)
    ensures
        final(out)@ == old(out)@ + hex_digits(n as nat, width as nat),
    decreases width,
{
    if width > 0 {
        push_hex(out, n / 16, width - 1);
        let d: u8 = (n % 16) as u8;
        let c: u8 = if d < 10 {
            48 + d
        } else {
            87 + d
        };
        out.push(c as char);
    }
    assert(final(out)@ =~= old(out)@ + hex_digits(n as nat, width as nat));
}

/// A scene's fingerprint: its hash in sixteen digits, and the scene.
pub open spec fn fingerprint(hash: u64, scene: Seq<char>) -> Seq<char> {
    hex_digits(hash as nat, 16) + "-"@ + scene
}

/// The line that tells a run's scene fingerprint.
pub fn fingerprint_line(hash: u64, scene: &str) -> (r: String)
    ensures
        r@ == "solari_scene_fp: "@ + fingerprint(hash, scene@),
{
    let mut out = "solari_scene_fp: ".to_owned();
    push_hex(&mut out, hash, 16);
    out.append("-");
    out.append(scene);
    assert(out@ =~= "solari_scene_fp: "@ + fingerprint(hash, scene@));
    out
}

/// Whether a dump at a sample count switches accumulation on: it can never fire on fresh frames.
pub fn implies_accum(dump_at_spp: u32, accum: bool) -> (r: bool)
    ensures
        r == (dump_at_spp > 0 && !accum),
        r == switches_accum(dump_at_spp, accum),
{
    dump_at_spp > 0 && !accum
}

/// The window title of a run.
pub fn run_title(camera: &str, dlss: bool) -> (r: String)
    ensures
        r@ == "Furnace — "@ + camera@ + (if dlss {
            " +DLSS"@
        } else {
            seq![]
        }),
{
    let mut out = "Furnace — ".to_owned();
    out.append(camera);
    if dlss {
        out.append(" +DLSS");
    }
    assert(out@ =~= "Furnace — "@ + camera@ + (if dlss {
        " +DLSS"@
    } else {
        seq![]
    }));
    out
}

/// The probes are read on every 240th tick, where there are any.
pub fn reads_probes(tick: u32, probes: usize) -> (r: bool)
    ensures
        r == (tick % 240 == 0 && probes > 0),
        r == is_reading_tick(tick, probes),
{
    tick % 240 == 0 && probes > 0
}

/// Cell `k` of the nine by nine patch around a pixel, row by row.
pub open spec fn patch_cell(px: int, py: int, k: int) -> (int, int) {
    (px + k % 9 - 4, py + k / 9 - 4)
}

/// Whether a pixel lies in a view.
pub open spec fn in_view(cell: (int, int), w: int, h: int) -> bool {
    0 <= cell.0 < w && 0 <= cell.1 < h
}

/// The places, in a row-by-row image, of those of the first `upto` cells of a patch that lie in
/// view.
pub open spec fn patch_places(px: int, py: int, w: int, h: int, upto: nat) -> Seq<u64>
    decreases upto,
{
    if upto == 0 {
        seq![]
    } else {
        let most = patch_places(px, py, w, h, (upto - 1) as nat);
        let cell = patch_cell(px, py, upto - 1);
        if in_view(cell, w, h) {
            most.push((cell.1 * w + cell.0) as u64)
        } else {
            most
        }
    }
}

/// The pixels of the nine by nine patch around a pixel that lie in view, as places in a
/// row-by-row image.
pub fn probe_patch(px: i64, py: i64, w: u32, h: u32) -> (r: Vec<u64>)
    ensures
        r@ == patch_places(px as int, py as int, w as int, h as int, 81),
{
    let mut out: Vec<u64> = Vec::new();
    for k in 0i128..81
        invariant
            out@ == patch_places(px as int, py as int, w as int, h as int, k as nat),
    {
        let x: i128 = px as i128 + k % 9 - 4;
        let y: i128 = py as i128 + k / 9 - 4;
        if 0 <= x && 0 <= y && x < w as i128 && y < h as i128 {
            proof {
                lemma_place(x as int, y as int, w as int, h as int);
            }
            out.push((y as u64) * (w as u64) + x as u64);
        }
    }
    out
}

proof fn lemma_place(x: int, y: int, w: int, h: int)
    requires
        0 <= x < w,
        0 <= y < h,
        w <= u32::MAX,
        h <= u32::MAX,
    ensures
        0 <= y * w,
        y * w + x < w * h,
        y * w + x <= u64::MAX,
{
    assert(0 <= y * w && y * w + x < w * h && w * h <= 0xffff_ffff * 0xffff_ffff)
        by (nonlinear_arith)
        requires
            0 <= x < w,
            0 <= y < h,
            w <= 0xffff_ffff,
            h <= 0xffff_ffff,
    ;
}

/// Every pixel of a patch lies in the image.
pub proof fn patches_lie_in_view(px: int, py: int, w: u32, h: u32, upto: nat, i: int)
    requires
        upto <= 81,
        0 <= i < patch_places(px, py, w as int, h as int, upto).len(),
    ensures
        patch_places(px, py, w as int, h as int, upto)[i] < w * h,
    decreases upto,
{
    let most = patch_places(px, py, w as int, h as int, (upto - 1) as nat);
    if i < most.len() {
        patches_lie_in_view(px, py, w, h, (upto - 1) as nat, i);
    } else {
        let cell = patch_cell(px, py, upto - 1);
        lemma_place(cell.0, cell.1, w as int, h as int);
    }
}

/// A patch that lies in view as a whole has all its pixels.
pub proof fn whole_patches_are_full(px: int, py: int, w: int, h: int, upto: nat)
    requires
        4 <= px < w - 4,
        4 <= py < h - 4,
        upto <= 81,
    ensures
        patch_places(px, py, w, h, upto).len() == upto,
    decreases upto,
{
    if upto > 0 {
        whole_patches_are_full(px, py, w, h, (upto - 1) as nat);
    }
}

/// What a probe read: its notation as a mean colour and, where it is held to a ratio, that ratio
/// and whether it is off.
pub struct Reading {
    pub name: String,
    pub mean: (String, String, String),
    pub ratio: Option<Ratio>,
}

/// A ratio to the sky.
pub struct Ratio {
    pub text: String,
    /// Whether it is further than a hundredth from what is expected.
    pub off: bool,
}

/// Whether a probe is held to a ratio: it expects something, and the sky was seen and is bright.
pub fn is_judged(sky_positive: Option<bool>, expect: Expect) -> (r: bool)
    ensures
        r == (sky_positive == Some(true) && expect != Expect::Anything),
        r == holds_to_ratio(sky_positive, expect),
{
    match sky_positive {
        Some(p) => p && expect != Expect::Anything,
        None => false,
    }
}

/// The first reading that is the sky's.
pub fn find_sky(readings: &Vec<Reading>) -> (r: Option<usize>)
    ensures
        match r {
            Some(i) => i < readings@.len() && readings@[i as int].name@ == "sky"@ && forall|k: int|
                0 <= k < i ==> (#[trigger] readings@[k]).name@ != "sky"@,
            None => forall|k: int|
                0 <= k < readings@.len() ==> (#[trigger] readings@[k]).name@ != "sky"@,
        },
{
    for i in 0..readings.len()
        invariant
            forall|k: int| 0 <= k < i ==> (#[trigger] readings@[k]).name@ != "sky"@,
    {
        if text::same_text(readings[i].name.as_str(), "sky") {
            return Some(i);
        }
    }
    None
}

/// What a reading adds to the log line. The verdict comes once enough samples are in.
pub open spec fn reading_text(r: Reading, spp: nat) -> Seq<char> {
    match r.ratio {
        Some(q) => " | "@ + r.name@ + " r="@ + q.text@ + (if spp >= 4096 {
            if q.off {
                " FAIL"@
            } else {
                " ok"@
            }
        } else {
            seq![]
        }),
        None => " | "@ + r.name@ + " mean=("@ + r.mean.0@ + ","@ + r.mean.1@ + ","@ + r.mean.2@
            + ")"@,
    }
}

/// What readings add to the log line.
pub open spec fn readings_text(rs: Seq<Reading>, spp: nat) -> Seq<char>
    decreases rs.len(),
{
    if rs.len() == 0 {
        seq![]
    } else {
        readings_text(rs.drop_last(), spp) + reading_text(rs.last(), spp)
    }
}

/// How many readings are off.
pub open spec fn failures(rs: Seq<Reading>) -> nat
    decreases rs.len(),
{
    if rs.len() == 0 {
        0
    } else {
        failures(rs.drop_last()) + (match rs.last().ratio {
            Some(q) => if q.off {
                1nat
            } else {
                0
            },
            None => 0,
        })
    }
}

/// The verdict of an exam.
pub enum Verdict {
    /// Too few samples to tell.
    Pending,
    Pass(String),
    Fail(String),
}

/// The log line of a reading, and its verdict once past 4096 samples.
pub struct ProbeReport {
    pub line: String,
    pub verdict: Verdict,
}

fn write_reading(out: &mut String, r: &Reading, spp: u32)
    ensures
        final(out)@ == old(out)@ + reading_text(*r, spp as nat),
{
    let mut part = " | ".to_owned();
    part.append(r.name.as_str());
    match &r.ratio {
        Some(q) => {
            part.append(" r=");
            part.append(q.text.as_str());
            if spp >= 4096 {
                if q.off {
                    part.append(" FAIL");
                } else {
                    part.append(" ok");
                }
            }
            assert(part@ =~= reading_text(*r, spp as nat));
        },
        None => {
            part.append(" mean=(");
            part.append(r.mean.0.as_str());
            part.append(",");
            part.append(r.mean.1.as_str());
            part.append(",");
            part.append(r.mean.2.as_str());
            part.append(")");
            assert(part@ == reading_text(*r, spp as nat));
        },
    }
    out.append(part.as_str());
}

/// Writes the log line of readings at a sample count, and judges them.
pub fn report_probes(readings: &Vec<Reading>, spp: u32) -> (r: ProbeReport)
    ensures
        r.line@ == "probes @ "@ + text::decimal(spp as nat) + " spp:"@ + readings_text(
            readings@,
            spp as nat,
        ),
        match r.verdict {
            Verdict::Pending => spp < 4096,
            Verdict::Pass(s) => spp >= 4096 && failures(readings@) == 0 && s@
                == "furnace: PASS ("@ + text::decimal(readings@.len()) + " probes)"@,
            Verdict::Fail(s) => spp >= 4096 && failures(readings@) > 0 && s@ == "furnace: "@
                + text::decimal(failures(readings@)) + " probe(s) FAILED"@,
        },
{
    let mut line = "probes @ ".to_owned();
    text::push_decimal(&mut line, spp as u64);
    line.append(" spp:");
    let ghost head = line@;
    let mut off: usize = 0;
    assert(line@ =~= head + readings_text(readings@.take(0), spp as nat));
    for i in 0..readings.len()
        invariant
            line@ == head + readings_text(readings@.take(i as int), spp as nat),
            off == failures(readings@.take(i as int)),
            off <= i,
    {
        assert(readings@.take(i + 1).drop_last() =~= readings@.take(i as int));
        write_reading(&mut line, &readings[i], spp);
        if let Some(q) = &readings[i].ratio {
            if q.off {
                off = off + 1;
            }
        }
        assert(line@ =~= head + readings_text(readings@.take(i + 1), spp as nat));
    }
    assert(readings@.take(readings@.len() as int) =~= readings@);
    let verdict = if spp < 4096 {
        Verdict::Pending
    } else if off == 0 {
        let mut s = "furnace: PASS (".to_owned();
        text::push_decimal(&mut s, readings.len() as u64);
        s.append(" probes)");
        Verdict::Pass(s)
    } else {
        let mut s = "furnace: ".to_owned();
        text::push_decimal(&mut s, off as u64);
        s.append(" probe(s) FAILED");
        Verdict::Fail(s)
    };
    ProbeReport { line, verdict }
}

/// Where an orbiting camera is: swaying, settling next to its start, or back at it.
#[derive(Clone, Copy, Debug, PartialEq, Eq, Structural)]
pub enum OrbitPhase {
    /// No orbit was asked for.
    Still,
    /// Swaying, at a pose that is a function of the frame number.
    Moving(u32),
    /// Next to the start, while history heals.
    Settling,
    /// At the start again.
    Home,
}

/// The phase of an orbit of `frames` frames at frame `f`; settling takes sixty frames.
pub fn orbit_phase(frames: u32, f: u32) -> (r: OrbitPhase)
    ensures
        r == (if frames == 0 {
            OrbitPhase::Still
        } else if f < frames {
            OrbitPhase::Moving(f)
        } else if f < frames + 60 {
            OrbitPhase::Settling
        } else {
            OrbitPhase::Home
        }),
        r == phase_at(frames, f),
{
    if frames == 0 {
        OrbitPhase::Still
    } else if f < frames {
        OrbitPhase::Moving(f)
    } else if f - frames < 60 {
        OrbitPhase::Settling
    } else {
        OrbitPhase::Home
    }
}

/// The snapshot, the difference view and the dumps of a run.
#[derive(Clone, Copy, Debug, PartialEq, Eq)]
pub struct FreezeDiff {
    pub freeze_epoch: u32,
    pub diff: bool,
    pub dump_epoch: u32,
}

impl FreezeDiff {
    /// What the keys do: F freezes a snapshot, V toggles the difference view, P dumps.
    pub fn keys(&mut self, f: bool, v: bool, p: bool)
        requires
            f ==> old(self).freeze_epoch < u32::MAX,
            p ==> old(self).dump_epoch < u32::MAX,
        ensures
            final(self).freeze_epoch == old(self).freeze_epoch + (if f {
                1int
            } else {
                0
            }),
            final(self).diff == (old(self).diff != v),
            final(self).dump_epoch == old(self).dump_epoch + (if p {
                1int
            } else {
                0
            }),
    {
        if f {
            self.freeze_epoch = self.freeze_epoch + 1;
        }
        if v {
            self.diff = !self.diff;
        }
        if p {
            self.dump_epoch = self.dump_epoch + 1;
        }
    }
}

/// A burst of screenshots, one per frame.
#[derive(Clone, Copy, Debug, PartialEq, Eq)]
pub struct Burst {
    pub taken: u32,
    pub wanted: u32,
}

impl Burst {
    /// A burst of as many frames as asked for, at least one.
    pub fn new(frames: u32) -> (r: Burst)
        ensures
            r.taken == 0,
            r.wanted == (if frames == 0 {
                1
            } else {
                frames
            }),
    {
        Burst {
            taken: 0,
            wanted: if frames == 0 {
                1
            } else {
                frames
            },
        }
    }

    /// Whether a frame is captured: the time has come, and the burst is not complete.
    pub fn frame(&mut self, due: bool) -> (r: bool)
        requires
            old(self).taken <= old(self).wanted,
        ensures
            r == (due && old(self).taken < old(self).wanted),
            final(self).wanted == old(self).wanted,
            final(self).taken == old(self).taken + (if r {
                1int
            } else {
                0
            }),
            final(self).taken <= final(self).wanted,
    {
        if self.taken < self.wanted && due {
            self.taken = self.taken + 1;
            true
        } else {
            false
        }
    }
}

/// The line that announces a window's size.
pub open spec fn window_text(w: nat, h: nat) -> Seq<char> {
    "solari window: "@ + (text::decimal(w) + "x"@ + text::decimal(h))
}

/// Announces a window's size whenever it changes to one that is not empty.
pub fn announce_window(last: &mut (u32, u32), size: (u32, u32)) -> (r: Option<String>)
    ensures
        match r {
            Some(s) => *old(last) != size && size.0 > 0 && s@ == window_text(
                size.0 as nat,
                size.1 as nat,
            ) && *final(last) == size,
            None => (*old(last) == size || size.0 == 0) && *final(last) == *old(last),
        },
{
    if (last.0 != size.0 || last.1 != size.1) && size.0 > 0 {
        *last = size;
        let mut out = "solari window: ".to_owned();
        text::push_decimal(&mut out, size.0 as u64);
        out.append("x");
        text::push_decimal(&mut out, size.1 as u64);
        Some(out)
    } else {
        None
    }
}

/// A patch is the nine by nine pixels around its middle: a pixel of the view is in it exactly where
/// it lies at most four columns and four rows away.
pub proof fn patches_surround_their_pixel(px: int, py: int, w: u32, h: u32, x: int, y: int)
    requires
        0 <= x < w,
        0 <= y < h,
    ensures
        patch_places(px, py, w as int, h as int, 81).contains((y * w + x) as u64) <==> (px - 4 <= x <= px
            + 4 && py - 4 <= y <= py + 4),
{
    let places = patch_places(px, py, w as int, h as int, 81);
    let place = (y * w + x) as u64;
    assert(0 <= y * w + x < w * h && w * h <= u64::MAX) by (nonlinear_arith)
        requires
            0 <= x < w,
            0 <= y < h,
            w <= u32::MAX,
            h <= u32::MAX,
    ;
    if px - 4 <= x <= px + 4 && py - 4 <= y <= py + 4 {
        let k = 9 * (y - py + 4) + (x - px + 4);
        assert(k % 9 == x - px + 4 && k / 9 == y - py + 4);
        lemma_patch_holds(px, py, w as int, h as int, 81, k);
    }
    if places.contains(place) {
        let i = choose|i: int| 0 <= i < places.len() && places[i] == place;
        lemma_patch_cell(px, py, w, h, 81, i);
        let k = choose|k: int|
            0 <= k < 81 && in_view(#[trigger] patch_cell(px, py, k), w as int, h as int) && places[i]
                == patch_cell(px, py, k).1 * w + patch_cell(px, py, k).0;
        let c = patch_cell(px, py, k);
        assert(c.0 == x && c.1 == y) by (nonlinear_arith)
            requires
                0 <= x < w,
                0 <= c.0 < w,
                y * w + x == c.1 * w + c.0,
        ;
        assert(0 <= k % 9 <= 8 && 0 <= k / 9 <= 8);
    }
}

proof fn lemma_patch_holds(px: int, py: int, w: int, h: int, upto: nat, k: int)
    requires
        0 <= k < upto,
        in_view(patch_cell(px, py, k), w, h),
    ensures
        patch_places(px, py, w, h, upto).contains(
            (patch_cell(px, py, k).1 * w + patch_cell(px, py, k).0) as u64,
        ),
    decreases upto,
{
    let place = (patch_cell(px, py, k).1 * w + patch_cell(px, py, k).0) as u64;
    let most = patch_places(px, py, w, h, (upto - 1) as nat);
    let all = patch_places(px, py, w, h, upto);
    if k < upto - 1 {
        lemma_patch_holds(px, py, w, h, (upto - 1) as nat, k);
        let i = choose|i: int| 0 <= i < most.len() && most[i] == place;
        assert(all[i] == place);
    } else {
        assert(all[most.len() as int] == place);
    }
}

proof fn lemma_patch_cell(px: int, py: int, w: u32, h: u32, upto: nat, i: int)
    requires
        0 <= i < patch_places(px, py, w as int, h as int, upto).len(),
    ensures
        exists|k: int|
            0 <= k < upto && in_view(#[trigger] patch_cell(px, py, k), w as int, h as int)
                && patch_places(px, py, w as int, h as int, upto)[i] == patch_cell(px, py, k).1 * w
                + patch_cell(px, py, k).0,
    decreases upto,
{
    let most = patch_places(px, py, w as int, h as int, (upto - 1) as nat);
    let cell = patch_cell(px, py, upto - 1);
    if i < most.len() {
        lemma_patch_cell(px, py, w, h, (upto - 1) as nat, i);
        let k = choose|k: int|
            0 <= k < upto - 1 && in_view(#[trigger] patch_cell(px, py, k), w as int, h as int)
                && most[i] == patch_cell(px, py, k).1 * w + patch_cell(px, py, k).0;
        assert(in_view(patch_cell(px, py, k), w as int, h as int));
    } else {
        assert(in_view(cell, w as int, h as int));
        let (x, y) = (cell.0, cell.1);
        assert(0 <= y * w + x && y * w + x <= u64::MAX) by (nonlinear_arith)
            requires
                0 <= x < w,
                0 <= y < h,
                w <= u32::MAX,
                h <= u32::MAX,
        ;
    }
}

/// The readings that are off are counted, those without a ratio never.
pub proof fn failures_are_counted(rs: Seq<Reading>)
    ensures
        failures(rs) == rs.filter(|r: Reading| r.ratio is Some && r.ratio->0.off).len(),
    decreases rs.len(),
{
    reveal(Seq::filter);
    if rs.len() > 0 {
        failures_are_counted(rs.drop_last());
    }
}

/// Readings follow each other in the log line. One with a ratio tells it, and whether it is off once
/// 4096 samples are in; any other tells its mean, red first.
pub proof fn readings_are_told(rs: Seq<Reading>, r: Reading, q: Ratio, spp: nat)
    ensures
        readings_text(rs.push(r), spp) == readings_text(rs, spp) + reading_text(r, spp),
        r.ratio is None ==> reading_text(r, spp) == " | "@ + r.name@ + " mean=("@ + r.mean.0@ + ","@
            + r.mean.1@ + ","@ + r.mean.2@ + ")"@,
        r.ratio == Some(q) && spp < 4096 ==> reading_text(r, spp) == " | "@ + r.name@ + " r="@ + q.text@,
        r.ratio == Some(q) && spp >= 4096 && q.off ==> reading_text(r, spp) == " | "@ + r.name@ + " r="@
            + q.text@ + " FAIL"@,
        r.ratio == Some(q) && spp >= 4096 && !q.off ==> reading_text(r, spp) == " | "@ + r.name@ + " r="@
            + q.text@ + " ok"@,
{
    assert(rs.push(r).drop_last() =~= rs);
    if r.ratio == Some(q) && spp < 4096 {
        assert(reading_text(r, spp) =~= " | "@ + r.name@ + " r="@ + q.text@);
    }
}

/// A hexadecimal notation writes the number it is of: each digit counts sixteen times the one after
/// it.
pub proof fn hex_digits_go_down(n: nat, width: nat)
    requires
        width > 0,
    ensures
        hex_digits(n, width).drop_last() == hex_digits(n / 16, (width - 1) as nat),
        n % 16 < 10 ==> hex_digits(n, width).last() as int == 48 + n % 16,
        n % 16 >= 10 ==> hex_digits(n, width).last() as int == 87 + n % 16,
{
    assert(hex_digits(n, width).drop_last() =~= hex_digits(n / 16, (width - 1) as nat));
}

/// The phase of an orbit of `frames` frames at frame `f`.
pub open spec fn phase_at(frames: u32, f: u32) -> OrbitPhase {
    if frames == 0 {
        OrbitPhase::Still
    } else if f < frames {
        OrbitPhase::Moving(f)
    } else if f < frames + 60 {
        OrbitPhase::Settling
    } else {
        OrbitPhase::Home
    }
}

/// An orbit moves for as many frames as asked for, settles for sixty more, and then stays home; none
/// moves where none was asked for.
pub proof fn orbits_move_settle_and_stay(frames: u32, f: u32)
    ensures
        phase_at(0, f) is Still,
        frames > 0 ==> (phase_at(frames, f) == OrbitPhase::Moving(f) <==> f < frames),
        frames > 0 ==> (phase_at(frames, f) is Settling <==> frames <= f < frames + 60),
        frames > 0 ==> (phase_at(frames, f) is Home <==> f >= frames + 60),
{
}

/// A fingerprint's hash is the 64-bit FNV-1a one: it starts from the offset basis, and each byte is
/// mixed in before the product with the prime.
#[verifier::rlimit(40)]
pub proof fn fingerprints_hash_byte_by_byte(bytes: Seq<u8>, b: u8)
    ensures
        fnv_hash(Seq::<u8>::empty()) == 14695981039346656037u64,
        fnv_hash(bytes.push(b)) == ((fnv_hash(bytes) ^ (b as u64)) * 1099511628211) % 0x1_0000_0000_0000_0000,
{
    assert(bytes.push(b).drop_last() =~= bytes);
}

/// Whether probes are read on a tick.
pub open spec fn is_reading_tick(tick: u32, probes: usize) -> bool {
    tick % 240 == 0 && probes > 0
}

/// Probes are read on every 240th tick and no other, and never where there are none.
pub proof fn probes_are_read_now_and_then(k: u32, d: u32, probes: usize)
    requires
        probes > 0,
        240 * k + d <= u32::MAX,
        0 < d < 240,
    ensures
        is_reading_tick((240 * k) as u32, probes),
        !is_reading_tick((240 * k + d) as u32, probes),
        !is_reading_tick((240 * k) as u32, 0),
{
}

/// Whether a probe is held to a ratio.
pub open spec fn holds_to_ratio(sky_positive: Option<bool>, expect: Expect) -> bool {
    sky_positive == Some(true) && expect != Expect::Anything
}

/// A probe is held to a ratio where it expects one and a bright sky was seen.
pub proof fn ratios_need_a_bright_sky(expect: Expect)
    ensures
        !holds_to_ratio(None, expect),
        !holds_to_ratio(Some(false), expect),
        holds_to_ratio(Some(true), expect) <==> expect == Expect::Sky || expect == Expect::TintedSky,
{
}

/// Whether a dump at a sample count switches accumulation on.
pub open spec fn switches_accum(dump_at_spp: u32, accum: bool) -> bool {
    dump_at_spp > 0 && !accum
}

/// A dump at any sample count switches accumulation on where it is off.
pub proof fn dumps_need_accumulation(n: u32, accum: bool)
    ensures
        !switches_accum(0, accum),
        !switches_accum(n, true),
        n > 0 ==> switches_accum(n, false),
{
}

} // verus!
