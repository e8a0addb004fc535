//! The grading report: rows in order of quality, as a table, a CSV file and a JSON record.

use vstd::prelude::*;
use crate::grader::{Protocol, Scope};
use crate::order;
use crate::text;

verus! {

/// A measured number: the bits of its 64-bit float, its notation, and its rounded notation.
pub struct Measure {
    pub bits: u64,
    pub text: String,
    pub short: String,
}

/// A graded configuration.
pub struct Row {
    pub recipe: String,
    /// Error against the truth.
    pub flip: Option<Measure>,
    pub frame_ms: Option<Measure>,
    /// Error times cost.
    pub product: Option<Measure>,
    pub spp: Option<u32>,
    /// Error-map filename in the scene dir.
    pub map: Option<String>,
    /// Render filename in the scene dir.
    pub render: Option<String>,
    /// The exact configuration graded.
    pub camera: Option<String>,
    /// Mean difference between consecutive frames.
    pub flicker: Option<Measure>,
}

/// The place of a float in the total order of floats, from its bits.
pub open spec fn float_rank(bits: u64) -> int {
    if bits < 0x8000_0000_0000_0000 {
        bits as int
    } else {
        0x7fff_ffff_ffff_ffff - bits
    }
}

fn is_float_le(a: u64, b: u64) -> (r: bool)
    ensures
        r == (float_rank(a) <= float_rank(b)),
{
    let limit: u64 = 0x8000_0000_0000_0000;
    if a < limit {
        if b < limit {
            a <= b
        } else {
            false
        }
    } else if b < limit {
        true
    } else {
        b <= a
    }
}

/// The order of a list of floats.
pub open spec fn floats_le(v: Seq<u64>) -> spec_fn(int, int) -> bool {
    |a: int, b: int| float_rank(v[a]) <= float_rank(v[b])
}

fn order_floats(v: &Vec<u64>) -> (r: Vec<usize>)
    ensures
        order::is_stable_order(r@, floats_le(v@), v@.len()),
{
    let le = |a: usize, b: usize| -> (x: bool)
        requires
            a < v@.len(),
            b < v@.len(),
        ensures
            x == floats_le(v@)(a as int, b as int),
        { is_float_le(v[a], v[b]) };
    order::stable_order(v.len(), le, Ghost(floats_le(v@)))
}

/// Whether `m` is the upper median of a list of floats.
pub open spec fn is_median(v: Seq<u64>, m: u64) -> bool {
    exists|at: Seq<usize>| #[trigger]
        order::is_stable_order(at, floats_le(v), v.len()) && m == v[at[(v.len() / 2) as int] as int]
}

/// Median of the steady-state half (skips warmup seconds), of float bits; nothing where there are
/// no samples.
pub fn median(samples: &Vec<u64>) -> (r: Option<u64>)
    ensures
        match r {
            Some(m) => samples@.len() > 0 && is_median(
                samples@.skip((samples@.len() / 2) as int),
                m,
            ),
            None => samples@.len() == 0,
        },
{
    let from: usize = samples.len() / 2;
    let mut tail: Vec<u64> = Vec::new();
    let mut i: usize = from;
    while i < samples.len()
        invariant
            from <= i <= samples@.len(),
            tail@ == samples@.subrange(from as int, i as int),
        decreases samples@.len() - i,
    {
        tail.push(samples[i]);
        assert(tail@ =~= samples@.subrange(from as int, i + 1));
        i = i + 1;
    }
    assert(tail@ =~= samples@.skip(from as int));
    if tail.len() == 0 {
        return None;
    }
    let at = order_floats(&tail);
    let m: u64 = tail[at[tail.len() / 2]];
    assert(order::is_stable_order(at@, floats_le(tail@), tail@.len()));
    Some(m)
}

/// The number that a comparison of images prints after `Mean: `, as text: that of the first line
/// that has one.
pub open spec fn mean_in(s: Seq<char>) -> Option<Seq<char>>
    decreases s.len(),
    via mean_in_ends
{
    let line = text::trimmed(text::up_to(s, '\n'));
    if text::begins_with(line, "Mean: "@) {
        Some(text::trimmed(line.skip("Mean: "@.len() as int)))
    } else {
        match text::following(s, '\n') {
            Some(rest) => mean_in(rest),
            None => None,
        }
    }
}

#[via_fn]
proof fn mean_in_ends(s: Seq<char>) {
    text::lemma_following_shorter(s, '\n');
}

/// Finds the number that a comparison of images prints after `Mean: `.
pub fn flip_mean(stdout: &str) -> (r: Option<String>)
    ensures
        crate::document::opt_text(r) == mean_in(stdout@),
{
    let mut rest = stdout.to_owned();
    let mut more = true;
    while more
        invariant
            more ==> mean_in(stdout@) == mean_in(rest@),
            !more ==> mean_in(stdout@) is None,
        decreases (if more {
            rest@.len() + 1
        } else {
            0
        }),
    {
        let (head, tail) = text::split_at_char(rest.as_str(), '\n');
        let line = text::trim(head.as_str());
        proof {
            text::lemma_following_shorter(rest@, '\n');
        }
        if text::starts_with(line.as_str(), "Mean: ") {
            let from: usize = "Mean: ".unicode_len();
            let all: usize = line.as_str().unicode_len();
            let value = line.as_str().substring_char(from, all);
            assert(value@ =~= line@.skip(from as int));
            return Some(text::trim(value));
        }
        match tail {
            Some(t) => rest = t,
            None => more = false,
        }
    }
    None
}

/// The float that a row is ordered by: its error, else its flicker, else infinity.
pub open spec fn quality(r: Row) -> u64 {
    match r.flip {
        Some(m) => m.bits,
        None => match r.flicker {
            Some(m) => m.bits,
            None => 0x7ff0_0000_0000_0000,
        },
    }
}

/// The floats that rows are ordered by.
pub open spec fn qualities(rows: Seq<Row>) -> Seq<u64> {
    rows.map_values(|r: Row| quality(r))
}

/// The rows' places, best first.
pub fn order_rows(rows: &Vec<Row>) -> (r: Vec<usize>)
    ensures
        order::is_stable_order(r@, floats_le(qualities(rows@)), rows@.len()),
{
    let mut keys: Vec<u64> = Vec::new();
    for i in 0..rows.len()
        invariant
            keys@ == qualities(rows@).take(i as int),
    {
        let key: u64 = match &rows[i].flip {
            Some(m) => m.bits,
            None => match &rows[i].flicker {
                Some(m) => m.bits,
                None => 0x7ff0_0000_0000_0000,
            },
        };
        keys.push(key);
        assert(keys@ =~= qualities(rows@).take(i + 1));
    }
    assert(keys@ =~= qualities(rows@));
    order_floats(&keys)
}

/// The name of a protocol in the table.
pub open spec fn protocol_title(p: Protocol) -> Seq<char> {
    if p.accum {
        "equal-time exam"@
    } else {
        protocol_text(p)
    }
}

/// The name of a protocol in the record.
pub open spec fn protocol_text(p: Protocol) -> Seq<char> {
    if p.accum {
        "exam"@
    } else if p.no_dlss {
        if p.orbit is Some {
            "per-frame+motion"@
        } else {
            "per-frame"@
        }
    } else if p.orbit is Some {
        "per-frame+dlss+motion"@
    } else {
        "per-frame+dlss"@
    }
}

/// The name of a protocol in the record.
pub fn protocol_name(p: &Protocol) -> (r: &'static str)
    ensures
        r@ == protocol_text(*p),
{
    if p.accum {
        "exam"
    } else if p.no_dlss {
        if p.orbit.is_some() {
            "per-frame+motion"
        } else {
            "per-frame"
        }
    } else if p.orbit.is_some() {
        "per-frame+dlss+motion"
    } else {
        "per-frame+dlss"
    }
}

/// The name of a protocol in the table.
pub fn protocol_label(p: &Protocol) -> (r: &'static str)
    ensures
        r@ == protocol_title(*p),
{
    if p.accum {
        "equal-time exam"
    } else {
        protocol_name(p)
    }
}

/// The rounded notation of a measure; a dash where there is none.
pub open spec fn short_of(m: Option<Measure>) -> Seq<char> {
    match m {
        Some(v) => v.short@,
        None => "-"@,
    }
}

/// The notation of a measure; nothing where there is none.
pub open spec fn text_of(m: Option<Measure>) -> Seq<char> {
    match m {
        Some(v) => v.text@,
        None => seq![],
    }
}

/// The notation of a measure; `null` where there is none.
pub open spec fn json_of(m: Option<Measure>) -> Seq<char> {
    match m {
        Some(v) => v.text@,
        None => "null"@,
    }
}

/// A line of the table: a name and five columns.
pub open spec fn table_cells(c: Seq<Seq<char>>) -> Seq<char> {
    text::padded_right(c[0], 20) + " "@ + text::padded_left(c[1], 8) + " "@ + text::padded_left(
        c[2],
        9,
    ) + " "@ + text::padded_left(c[3], 9) + " "@ + text::padded_left(c[4], 9) + " "@
        + text::padded_left(c[5], 7)
}

fn write_cells(a: &str, b: &str, c: &str, d: &str, e: &str, f: &str) -> (r: String)
    ensures
        r@ == table_cells(seq![a@, b@, c@, d@, e@, f@]),
{
    let mut out = String::new();
    text::push_padded_right(&mut out, a, 20);
    assert(out@ =~= text::padded_right(a@, 20));
    out.append(" ");
    text::push_padded_left(&mut out, b, 8);
    out.append(" ");
    text::push_padded_left(&mut out, c, 9);
    out.append(" ");
    text::push_padded_left(&mut out, d, 9);
    out.append(" ");
    text::push_padded_left(&mut out, e, 9);
    out.append(" ");
    text::push_padded_left(&mut out, f, 7);
    out
}

/// The head of the table.
pub fn table_head() -> (r: String)
    ensures
        r@ == table_cells(seq!["config"@, "FLIP"@, "flicker"@, "avg ms"@, "FLIP·ms"@, "spp"@]),
{
    write_cells("config", "FLIP", "flicker", "avg ms", "FLIP·ms", "spp")
}

/// A sample count; a dash where there is none.
pub open spec fn spp_cell(spp: Option<u32>) -> Seq<char> {
    match spp {
        Some(n) => text::decimal(n as nat),
        None => "-"@,
    }
}

fn short_text(m: &Option<Measure>) -> (r: String)
    ensures
        r@ == short_of(*m),
{
    match m {
        Some(v) => v.short.clone(),
        None => "-".to_owned(),
    }
}

/// A row of the table.
pub fn table_row(row: &Row) -> (r: String)
    ensures
        r@ == table_cells(
            seq![
                row.recipe@,
                short_of(row.flip),
                short_of(row.flicker),
                short_of(row.frame_ms),
                short_of(row.product),
                spp_cell(row.spp),
            ],
        ),
        r@ == table_cells(row_cells(*row)),
{
    let spp = match row.spp {
        Some(n) => text::decimal_text(n as u64),
        None => "-".to_owned(),
    };
    write_cells(
        row.recipe.as_str(),
        short_text(&row.flip).as_str(),
        short_text(&row.flicker).as_str(),
        short_text(&row.frame_ms).as_str(),
        short_text(&row.product).as_str(),
        spp.as_str(),
    )
}

/// A line of the CSV file.
pub open spec fn csv_line(r: Row) -> Seq<char> {
    r.recipe@ + ","@ + text_of(r.flip) + ","@ + text_of(r.flicker) + ","@ + text_of(r.frame_ms)
        + ","@ + text_of(r.product) + ","@ + (match r.spp {
        Some(n) => text::decimal(n as nat),
        None => seq![],
    }) + "\n"@
}

/// The lines of the CSV file, in the order `at` gives.
pub open spec fn csv_lines(rows: Seq<Row>, at: Seq<usize>) -> Seq<char>
    decreases at.len(),
{
    if at.len() == 0 {
        seq![]
    } else {
        csv_lines(rows, at.drop_last()) + csv_line(rows[at.last() as int])
    }
}

/// The CSV file.
pub open spec fn csv_file(rows: Seq<Row>, at: Seq<usize>) -> Seq<char> {
    "config,flip_mean,flicker,avg_frame_ms,flip_x_ms,spp\n"@ + csv_lines(rows, at)
}

fn write_measure(out: &mut String, m: &Option<Measure>)
    ensures
        final(out)@ == old(out)@ + text_of(*m),
{
    if let Some(v) = m {
        out.append(v.text.as_str());
    }
    assert(final(out)@ =~= old(out)@ + text_of(*m));
}

fn write_csv_line(out: &mut String, r: &Row)
    ensures
        final(out)@ == old(out)@ + csv_line(*r),
{
    out.append(r.recipe.as_str());
    out.append(",");
    write_measure(out, &r.flip);
    out.append(",");
    write_measure(out, &r.flicker);
    out.append(",");
    write_measure(out, &r.frame_ms);
    out.append(",");
    write_measure(out, &r.product);
    out.append(",");
    if let Some(n) = r.spp {
        text::push_decimal(out, n as u64);
    }
    out.append("\n");
    assert(final(out)@ =~= old(out)@ + csv_line(*r));
}

/// Writes the CSV file, with the rows in the order `at` gives.
pub fn write_csv(rows: &Vec<Row>, at: &Vec<usize>) -> (r: String)
    requires
        forall|k: int| 0 <= k < at@.len() ==> #[trigger] at@[k] < rows@.len(),
    ensures
        r@ == csv_file(rows@, at@),
{
    let mut out = "config,flip_mean,flicker,avg_frame_ms,flip_x_ms,spp\n".to_owned();
    let ghost head = out@;
    assert(out@ =~= head + csv_lines(rows@, at@.take(0)));
    for i in 0..at.len()
        invariant
            forall|k: int| 0 <= k < at@.len() ==> #[trigger] at@[k] < rows@.len(),
            out@ == head + csv_lines(rows@, at@.take(i as int)),
    {
        assert(at@.take(i + 1).drop_last() =~= at@.take(i as int));
        write_csv_line(&mut out, &rows[at[i]]);
        assert(out@ =~= head + csv_lines(rows@, at@.take(i + 1)));
    }
    assert(at@.take(at@.len() as int) =~= at@);
    out
}

/// A character as it stands in a JSON string: a backslash before a backslash and a double quote.
pub open spec fn escaped_char(c: char) -> Seq<char> {
    if c == '\\' {
        seq!['\\', '\\']
    } else if c == '"' {
        seq!['\\', '"']
    } else {
        seq![c]
    }
}

/// A text as it stands in a JSON string.
pub open spec fn escaped(s: Seq<char>) -> Seq<char>
    decreases s.len(),
{
    if s.len() == 0 {
        seq![]
    } else {
        escaped(s.drop_last()) + escaped_char(s.last())
    }
}

/// Writes a text as it stands in a JSON string.
pub fn escape(s: &str) -> (r: String)
    ensures
        r@ == escaped(s@),
{
    let c = text::chars_of(s);
    let mut out = String::new();
    for i in 0..c.len()
        invariant
            c@ == s@,
            out@ == escaped(c@.take(i as int)),
    {
        assert(c@.take(i + 1).drop_last() =~= c@.take(i as int));
        let ghost before = out@;
        if c[i] == '\\' || c[i] == '"' {
            out.push('\\');
        }
        out.push(c[i]);
        assert(out@ =~= before + escaped_char(c@[i as int]));
    }
    assert(c@.take(c@.len() as int) =~= c@);
    out
}

/// What a JSON string's backslashes and double quotes stand for.
pub open spec fn unescaped(s: Seq<char>) -> Seq<char>
    decreases s.len(),
{
    if s.len() == 0 {
        seq![]
    } else if s[0] == '\\' && s.len() > 1 {
        seq![s[1]] + unescaped(s.skip(2))
    } else {
        seq![s[0]] + unescaped(s.skip(1))
    }
}

proof fn lemma_escaped_first(s: Seq<char>)
    requires
        s.len() > 0,
    ensures
        escaped(s) == escaped_char(s[0]) + escaped(s.skip(1)),
    decreases s.len(),
{
    if s.len() == 1 {
        assert(s.drop_last() =~= Seq::<char>::empty());
        assert(s.skip(1) =~= Seq::<char>::empty());
        assert(escaped(s) =~= escaped_char(s[0]) + escaped(s.skip(1)));
    } else {
        lemma_escaped_first(s.drop_last());
        assert(s.drop_last().skip(1) =~= s.skip(1).drop_last());
        assert(escaped(s) =~= escaped_char(s[0]) + escaped(s.skip(1)));
    }
}

/// A text that is escaped reads back.
pub proof fn escaped_texts_read_back(s: Seq<char>)
    ensures
        unescaped(escaped(s)) == s,
    decreases s.len(),
{
    if s.len() > 0 {
        lemma_escaped_first(s);
        escaped_texts_read_back(s.skip(1));
        let e = escaped(s);
        if s[0] == '\\' || s[0] == '"' {
            assert(e.skip(2) =~= escaped(s.skip(1)));
        } else {
            assert(e.skip(1) =~= escaped(s.skip(1)));
        }
        assert(unescaped(e) =~= s);
    } else {
        assert(unescaped(escaped(s)) =~= s);
    }
}

/// A text without its double quotes.
pub open spec fn unquoted(s: Seq<char>) -> Seq<char>
    decreases s.len(),
{
    if s.len() == 0 {
        seq![]
    } else if s.last() == '"' {
        unquoted(s.drop_last())
    } else {
        unquoted(s.drop_last()).push(s.last())
    }
}

fn unquote(s: &str) -> (r: String)
    ensures
        r@ == unquoted(s@),
{
    let c = text::chars_of(s);
    let mut out = String::new();
    for i in 0..c.len()
        invariant
            c@ == s@,
            out@ == unquoted(c@.take(i as int)),
    {
        assert(c@.take(i + 1).drop_last() =~= c@.take(i as int));
        if c[i] != '"' {
            out.push(c[i]);
        }
    }
    assert(c@.take(c@.len() as int) =~= c@);
    out
}

/// A file name in the record; `null` where there is none.
pub open spec fn json_name(n: Option<String>) -> Seq<char> {
    match n {
        Some(s) => "\""@ + s@ + "\""@,
        None => "null"@,
    }
}

/// A configuration in the record; `null` where there is none.
pub open spec fn json_camera(n: Option<String>) -> Seq<char> {
    match n {
        Some(s) => "\""@ + escaped(s@) + "\""@,
        None => "null"@,
    }
}

/// A row of the record.
pub open spec fn json_row(r: Row) -> Seq<char> {
    "\n    {\"recipe\": \""@ + r.recipe@ + "\", \"flip\": "@ + json_of(r.flip)
        + ", \"flicker\": "@ + json_of(r.flicker) + ", \"frame_ms\": "@ + json_of(r.frame_ms)
        + ", \"spp\": "@ + (match r.spp {
        Some(n) => text::decimal(n as nat),
        None => "null"@,
    }) + ", \"map\": "@ + json_name(r.map) + ", \"render\": "@ + json_name(r.render)
        + ", \"camera\": "@ + json_camera(r.camera) + "}"@
}

/// The rows of the record, in the order `at` gives, with a comma between each two.
pub open spec fn json_rows(rows: Seq<Row>, at: Seq<usize>) -> Seq<char>
    decreases at.len(),
{
    if at.len() == 0 {
        seq![]
    } else {
        json_rows(rows, at.drop_last()) + (if at.len() > 1 {
            ","@
        } else {
            seq![]
        }) + json_row(rows[at.last() as int])
    }
}

fn write_json_measure(out: &mut String, m: &Option<Measure>)
    ensures
        final(out)@ == old(out)@ + json_of(*m),
{
    match m {
        Some(v) => out.append(v.text.as_str()),
        None => out.append("null"),
    }
}

fn write_json_name(out: &mut String, n: &Option<String>)
    ensures
        final(out)@ == old(out)@ + json_name(*n),
{
    match n {
        Some(s) => {
            out.append("\"");
            out.append(s.as_str());
            out.append("\"");
        },
        None => out.append("null"),
    }
    assert(final(out)@ =~= old(out)@ + json_name(*n));
}

fn write_json_camera(out: &mut String, n: &Option<String>)
    ensures
        final(out)@ == old(out)@ + json_camera(*n),
{
    match n {
        Some(s) => {
            let e = escape(s.as_str());
            out.append("\"");
            out.append(e.as_str());
            out.append("\"");
        },
        None => out.append("null"),
    }
    assert(final(out)@ =~= old(out)@ + json_camera(*n));
}

#[verifier::rlimit(40)]
fn write_json_row(out: &mut String, r: &Row)
    ensures
        final(out)@ == old(out)@ + json_row(*r),
{
    let mut row = "\n    {\"recipe\": \"".to_owned();
    row.append(r.recipe.as_str());
    row.append("\", \"flip\": ");
    write_json_measure(&mut row, &r.flip);
    row.append(", \"flicker\": ");
    write_json_measure(&mut row, &r.flicker);
    row.append(", \"frame_ms\": ");
    write_json_measure(&mut row, &r.frame_ms);
    row.append(", \"spp\": ");
    match r.spp {
        Some(n) => text::push_decimal(&mut row, n as u64),
        None => row.append("null"),
    }
    row.append(", \"map\": ");
    write_json_name(&mut row, &r.map);
    row.append(", \"render\": ");
    write_json_name(&mut row, &r.render);
    row.append(", \"camera\": ");
    write_json_camera(&mut row, &r.camera);
    row.append("}");
    assert(row@ == json_row(*r));
    out.append(row.as_str());
}

/// What a record says beside its rows.
pub struct RunHead {
    pub scene: String,
    pub label: String,
    pub protocol: Protocol,
    pub time_secs: String,
    pub truth_spp: u32,
    pub timestamp: u64,
    pub default_config: String,
    pub scope: Scope,
}

/// The image of the truth that a run shows: the render for an exam, else the screenshot.
pub open spec fn truth_render(h: RunHead) -> Seq<char> {
    crate::grader::truth_file(
        h.scope,
        h.truth_spp as nat,
        if h.protocol.accum {
            "spp.render.png"@
        } else {
            "spp.shot.png"@
        },
    )
}

/// What a record begins with.
pub open spec fn json_head(h: RunHead) -> Seq<char> {
    "{\n  \"scene\": \""@ + h.scene@ + "\",\n  \"label\": \""@ + unquoted(h.label@)
        + "\",\n  \"protocol\": \""@ + protocol_text(h.protocol) + "\",\n  \"time_secs\": "@
        + h.time_secs@ + ",\n  \"truth_spp\": "@ + text::decimal(h.truth_spp as nat)
        + ",\n  \"timestamp\": "@ + text::decimal(h.timestamp as nat)
        + ",\n  \"default_config\": \""@ + escaped(h.default_config@)
        + "\",\n  \"truth_render\": \""@ + truth_render(h) + "\",\n  \"rows\": ["@
}

#[verifier::rlimit(40)]
fn write_json_head(h: &RunHead) -> (r: String)
    ensures
        r@ == json_head(*h),
{
    let mut out = "{\n  \"scene\": \"".to_owned();
    out.append(h.scene.as_str());
    out.append("\",\n  \"label\": \"");
    out.append(unquote(h.label.as_str()).as_str());
    out.append("\",\n  \"protocol\": \"");
    out.append(protocol_name(&h.protocol));
    out.append("\",\n  \"time_secs\": ");
    out.append(h.time_secs.as_str());
    out.append(",\n  \"truth_spp\": ");
    text::push_decimal(&mut out, h.truth_spp as u64);
    out.append(",\n  \"timestamp\": ");
    text::push_decimal(&mut out, h.timestamp);
    out.append(",\n  \"default_config\": \"");
    out.append(escape(h.default_config.as_str()).as_str());
    out.append("\",\n  \"truth_render\": \"");
    let files = crate::grader::truth_files(h.scope, h.truth_spp);
    if h.protocol.accum {
        out.append(files.render.as_str());
    } else {
        out.append(files.shot.as_str());
    }
    out.append("\",\n  \"rows\": [");
    out
}

/// The machine record of a run, with the rows in the order `at` gives.
pub fn write_json(h: &RunHead, rows: &Vec<Row>, at: &Vec<usize>) -> (r: String)
    requires
        forall|k: int| 0 <= k < at@.len() ==> #[trigger] at@[k] < rows@.len(),
    ensures
        r@ == json_head(*h) + json_rows(rows@, at@) + "\n  ]\n}\n"@,
{
    let mut out = write_json_head(h);
    let ghost head = out@;
    assert(out@ =~= head + json_rows(rows@, at@.take(0)));
    for i in 0..at.len()
        invariant
            forall|k: int| 0 <= k < at@.len() ==> #[trigger] at@[k] < rows@.len(),
            out@ == head + json_rows(rows@, at@.take(i as int)),
    {
        assert(at@.take(i + 1).drop_last() =~= at@.take(i as int));
        if i > 0 {
            out.append(",");
        }
        write_json_row(&mut out, &rows[at[i]]);
        assert(out@ =~= head + json_rows(rows@, at@.take(i + 1)));
    }
    assert(at@.take(at@.len() as int) =~= at@);
    out.append("\n  ]\n}\n");
    out
}

/// A label in file characters.
pub open spec fn file_label(label: Seq<char>) -> Seq<char> {
    text::replaced(text::replaced(label, '/', '_'), ' ', '_')
}

/// The name of a record: the time and, where the run has one, its label in file characters.
pub open spec fn record_stem(timestamp: nat, label: Seq<char>) -> Seq<char> {
    if label.len() == 0 {
        text::decimal(timestamp)
    } else {
        text::decimal(timestamp) + "-"@ + file_label(label)
    }
}

/// Names the file of a run's record.
pub fn name_record(timestamp: u64, label: &str) -> (r: String)
    ensures
        r@ == record_stem(timestamp as nat, label@) + ".json"@,
{
    let mut out = text::decimal_text(timestamp);
    if !label.is_empty() {
        out.append("-");
        let slashes = text::replace_char(label, '/', '_');
        let safe = text::replace_char(slashes.as_str(), ' ', '_');
        out.append(safe.as_str());
    }
    out.append(".json");
    out
}

/// The line above the table.
pub fn table_title(h: &RunHead) -> (r: String)
    ensures
        r@ == "scene "@ + h.scene@ + " | "@ + h.time_secs@ + "s "@ + protocol_title(h.protocol)
            + " | truth "@ + text::decimal(h.truth_spp as nat)
            + " spp | FLIP·ms = error × cost (lower is better on every column)"@,
{
    let mut out = "scene ".to_owned();
    out.append(h.scene.as_str());
    out.append(" | ");
    out.append(h.time_secs.as_str());
    out.append("s ");
    out.append(protocol_label(&h.protocol));
    out.append(" | truth ");
    text::push_decimal(&mut out, h.truth_spp as u64);
    out.append(" spp | FLIP·ms = error × cost (lower is better on every column)");
    out
}

/// What becomes of a run's capture.
#[derive(Clone, Copy, Debug, PartialEq, Eq, Structural)]
pub enum CaptureVerdict {
    /// There is none.
    Missing,
    /// Its size is not the truth's.
    Mismatched,
    /// It can be graded.
    Usable,
}

/// Judges a capture: it needs the truth's size, where that is known.
pub fn judge_capture(captured: bool, dims: &str, truth_dims: &str) -> (r: CaptureVerdict)
    ensures
        r == (if !captured {
            CaptureVerdict::Missing
        } else if truth_dims@.len() > 0 && dims@ != truth_dims@ {
            CaptureVerdict::Mismatched
        } else {
            CaptureVerdict::Usable
        }),
        r == verdict_on(captured, dims@, truth_dims@),
{
    if !captured {
        CaptureVerdict::Missing
    } else if !truth_dims.is_empty() && !text::same_text(dims, truth_dims) {
        CaptureVerdict::Mismatched
    } else {
        CaptureVerdict::Usable
    }
}

/// Whether the scene changed since its truth was baked: both fingerprints are known and differ.
pub fn truth_is_stale(scene_fp: &Option<String>, truth_fp: &str) -> (r: bool)
    ensures
        r == (match crate::document::opt_text(*scene_fp) {
            Some(fp) => truth_fp@.len() > 0 && fp != truth_fp@,
            None => false,
        }),
{
    match scene_fp {
        Some(fp) => !truth_fp.is_empty() && !text::same_text(fp.as_str(), truth_fp),
        None => false,
    }
}

/// The scopes of configurations.
pub open spec fn scopes_in(configs: Seq<String>) -> Seq<Scope> {
    configs.map_values(|c: String| crate::grader::scope_in(c@))
}

/// The scopes that configurations are graded in, each once, in order of first need.
pub fn needed_scopes(configs: &Vec<String>) -> (r: Vec<Scope>)
    ensures
        r@ == crate::walk::add_new(seq![], scopes_in(configs@)),
{
    let mut out: Vec<Scope> = Vec::new();
    for i in 0..configs.len()
        invariant
            out@ == crate::walk::add_new(seq![], scopes_in(configs@).take(i as int)),
    {
        assert(scopes_in(configs@).take(i + 1).drop_last() =~= scopes_in(configs@).take(i as int));
        let scope = crate::grader::scope_of(configs[i].as_str());
        if !holds_scope(&out, scope) {
            out.push(scope);
        }
    }
    assert(scopes_in(configs@).take(configs@.len() as int) =~= scopes_in(configs@));
    out
}

fn holds_scope(list: &Vec<Scope>, scope: Scope) -> (r: bool)
    ensures
        r == list@.contains(scope),
{
    for i in 0..list.len()
        invariant
            forall|k: int| 0 <= k < i ==> list@[k] != scope,
    {
        if list[i] == scope {
            return true;
        }
    }
    false
}

/// The scope whose truth a record shows: full transport where it was graded, else the first
/// other.
pub fn shown_scope(scopes: &Vec<Scope>) -> (r: Option<Scope>)
    ensures
        r == (if scopes@.contains(Scope::Full) {
            Some(Scope::Full)
        } else if scopes@.contains(Scope::NoGi) {
            Some(Scope::NoGi)
        } else if scopes@.contains(Scope::GiOnly) {
            Some(Scope::GiOnly)
        } else {
            None
        }),
        r == scope_shown(scopes@),
{
    if holds_scope(scopes, Scope::Full) {
        Some(Scope::Full)
    } else if holds_scope(scopes, Scope::NoGi) {
        Some(Scope::NoGi)
    } else if holds_scope(scopes, Scope::GiOnly) {
        Some(Scope::GiOnly)
    } else {
        None
    }
}

/// Whether a run is settled for longer, as its radiance cache is a training outcome.
pub fn needs_warmup(accum: bool, config: &str) -> (r: bool)
    ensures
        r == (!accum && crate::grader::carries_cache(config@)),
        r == warms_up(accum, config@),
{
    !accum && crate::grader::uses_nrc(config)
}

/// Whether a run whose window had the wrong size is launched again: up to three launches.
pub fn relaunches(launches: u32, wrong_size: bool) -> (r: bool)
    ensures
        r == (wrong_size && launches < 3),
        r == launches_again(launches, wrong_size),
{
    wrong_size && launches < 3
}

/// The name of a graded row: what the run derived from its configuration.
pub fn row_name(camera_name: &Option<String>) -> (r: String)
    ensures
        r@ == (match crate::document::opt_text(*camera_name) {
            Some(n) => n,
            None => "unnamed"@,
        }),
{
    match camera_name {
        Some(n) => n.clone(),
        None => "unnamed".to_owned(),
    }
}

/// The arguments of an image comparison that writes an error map named `base` into `dir`.
pub fn flip_args(reference: &str, test: &str, base: &str, dir: &str) -> (r: Vec<String>)
    ensures
        text::texts(r@) == seq![
            "-r"@,
            reference@,
            "-t"@,
            test@,
            "-v"@,
            "1"@,
            "-b"@,
            base@,
            "--no-exposure-map"@,
            "-d"@,
            dir@,
        ],
{
    let mut out: Vec<String> = Vec::new();
    crate::grader::add_arg(&mut out, "-r");
    crate::grader::add_arg(&mut out, reference);
    crate::grader::add_arg(&mut out, "-t");
    crate::grader::add_arg(&mut out, test);
    crate::grader::add_arg(&mut out, "-v");
    crate::grader::add_arg(&mut out, "1");
    crate::grader::add_arg(&mut out, "-b");
    crate::grader::add_arg(&mut out, base);
    crate::grader::add_arg(&mut out, "--no-exposure-map");
    crate::grader::add_arg(&mut out, "-d");
    crate::grader::add_arg(&mut out, dir);
    out
}

/// The arguments of an image comparison that writes no map.
pub fn flip_mean_args(reference: &str, test: &str) -> (r: Vec<String>)
    ensures
        text::texts(r@) == seq![
            "-r"@,
            reference@,
            "-t"@,
            test@,
            "-v"@,
            "1"@,
            "--no-error-map"@,
            "--no-exposure-map"@,
        ],
{
    let mut out: Vec<String> = Vec::new();
    crate::grader::add_arg(&mut out, "-r");
    crate::grader::add_arg(&mut out, reference);
    crate::grader::add_arg(&mut out, "-t");
    crate::grader::add_arg(&mut out, test);
    crate::grader::add_arg(&mut out, "-v");
    crate::grader::add_arg(&mut out, "1");
    crate::grader::add_arg(&mut out, "--no-error-map");
    crate::grader::add_arg(&mut out, "--no-exposure-map");
    out
}

/// Floats are ranked as they are ordered: a negative one under a positive one, of two positive ones
/// the one with larger bits above, of two negative ones below.
pub proof fn ranks_order_floats(a: u64, b: u64)
    ensures
        a < 0x8000_0000_0000_0000 <= b ==> float_rank(b) < float_rank(a),
        a < b < 0x8000_0000_0000_0000 ==> float_rank(a) < float_rank(b),
        0x8000_0000_0000_0000 <= a < b ==> float_rank(b) < float_rank(a),
        float_rank(a) == float_rank(b) ==> a == b,
{
}

/// A row is ordered by its error; one without by its flicker, and one without either comes last.
pub proof fn rows_are_ordered_by_error(r: Row, m: Measure)
    ensures
        r.flip == Some(m) ==> quality(r) == m.bits,
        r.flip is None && r.flicker == Some(m) ==> quality(r) == m.bits,
        r.flip is None && r.flicker is None ==> quality(r) == 0x7ff0_0000_0000_0000,
{
}

/// A table's name column is twenty characters wide and filled on its right; the others are eight,
/// nine, nine, nine and seven wide and filled on their left, with a blank between each two.
pub proof fn tables_line_up(c: Seq<Seq<char>>)
    requires
        c.len() == 6,
        c[0].len() <= 20,
        c[1].len() <= 8,
        c[2].len() <= 9,
        c[3].len() <= 9,
        c[4].len() <= 9,
        c[5].len() <= 7,
    ensures
        ({
            let t = table_cells(c);
            &&& t.len() == 67
            &&& t.subrange(0, c[0].len() as int) == c[0]
            &&& t.subrange(29 - c[1].len(), 29) == c[1]
            &&& t.subrange(39 - c[2].len(), 39) == c[2]
            &&& t.subrange(49 - c[3].len(), 49) == c[3]
            &&& t.subrange(59 - c[4].len(), 59) == c[4]
            &&& t.subrange(67 - c[5].len(), 67) == c[5]
        }),
{
    reveal_strlit(" ");
    let t = table_cells(c);
    let a0 = text::padded_right(c[0], 20);
    let a1 = a0 + " "@ + text::padded_left(c[1], 8);
    let a2 = a1 + " "@ + text::padded_left(c[2], 9);
    let a3 = a2 + " "@ + text::padded_left(c[3], 9);
    let a4 = a3 + " "@ + text::padded_left(c[4], 9);
    assert(a0.len() == 20);
    assert(a1.len() == 29);
    assert(a2.len() == 39);
    assert(a3.len() == 49);
    assert(a4.len() == 59);
    assert(a0.subrange(0, c[0].len() as int) =~= c[0]);
    assert(a1.subrange(29 - c[1].len(), 29) =~= c[1]);
    assert(a2.subrange(39 - c[2].len(), 39) =~= c[2]);
    assert(a3.subrange(49 - c[3].len(), 49) =~= c[3]);
    assert(a4.subrange(59 - c[4].len(), 59) =~= c[4]);
    assert(a1.subrange(0, 20) =~= a0);
    assert(a2.subrange(0, 29) =~= a1);
    assert(a3.subrange(0, 39) =~= a2);
    assert(a4.subrange(0, 49) =~= a3);
    assert(t.subrange(0, 59) =~= a4);
    assert(t.subrange(67 - c[5].len(), 67) =~= c[5]);
    assert(t.subrange(59 - c[4].len(), 59) =~= a4.subrange(59 - c[4].len(), 59));
    assert(t.subrange(49 - c[3].len(), 49) =~= a3.subrange(49 - c[3].len(), 49)) by {
        assert forall|i: int| 0 <= i < 49 implies t[i] == a3[i] by {
            assert(t.subrange(0, 59)[i] == a4[i]);
            assert(a4.subrange(0, 49)[i] == a3[i]);
        }
    }
    assert(t.subrange(39 - c[2].len(), 39) =~= a2.subrange(39 - c[2].len(), 39)) by {
        assert forall|i: int| 0 <= i < 39 implies t[i] == a2[i] by {
            assert(t.subrange(0, 59)[i] == a4[i]);
            assert(a4.subrange(0, 49)[i] == a3[i]);
            assert(a3.subrange(0, 39)[i] == a2[i]);
        }
    }
    assert(t.subrange(29 - c[1].len(), 29) =~= a1.subrange(29 - c[1].len(), 29)) by {
        assert forall|i: int| 0 <= i < 29 implies t[i] == a1[i] by {
            assert(t.subrange(0, 59)[i] == a4[i]);
            assert(a4.subrange(0, 49)[i] == a3[i]);
            assert(a3.subrange(0, 39)[i] == a2[i]);
            assert(a2.subrange(0, 29)[i] == a1[i]);
        }
    }
    assert(t.subrange(0, c[0].len() as int) =~= a0.subrange(0, c[0].len() as int)) by {
        assert forall|i: int| 0 <= i < 20 implies t[i] == a0[i] by {
            assert(t.subrange(0, 59)[i] == a4[i]);
            assert(a4.subrange(0, 49)[i] == a3[i]);
            assert(a3.subrange(0, 39)[i] == a2[i]);
            assert(a2.subrange(0, 29)[i] == a1[i]);
            assert(a1.subrange(0, 20)[i] == a0[i]);
        }
    }
}

/// The cells of a row's line: its name, error, flicker, frame time, their product and its samples,
/// in the order of the table's head.
pub open spec fn row_cells(row: Row) -> Seq<Seq<char>> {
    seq![
        row.recipe@,
        short_of(row.flip),
        short_of(row.flicker),
        short_of(row.frame_ms),
        short_of(row.product),
        spp_cell(row.spp),
    ]
}

/// Each measure stands in its own column, rounded, and a dash where there is none.
pub proof fn measures_stand_in_their_columns(r: Row, m: Measure, n: u32)
    ensures
        row_cells(r).len() == 6,
        row_cells(r)[0] == r.recipe@,
        r.flip == Some(m) ==> row_cells(r)[1] == m.short@,
        r.flicker == Some(m) ==> row_cells(r)[2] == m.short@,
        r.frame_ms == Some(m) ==> row_cells(r)[3] == m.short@,
        r.product == Some(m) ==> row_cells(r)[4] == m.short@,
        r.spp == Some(n) ==> row_cells(r)[5] == text::decimal(n as nat),
        r.flip is None ==> row_cells(r)[1] == "-"@,
        r.flicker is None ==> row_cells(r)[2] == "-"@,
        r.frame_ms is None ==> row_cells(r)[3] == "-"@,
        r.product is None ==> row_cells(r)[4] == "-"@,
        r.spp is None ==> row_cells(r)[5] == "-"@,
{
}

/// A line of the CSV file has a row's name, error, flicker, frame time, product and samples between
/// its commas, each in full, and nothing for what there is none of.
pub proof fn csv_lines_tell_each_measure(r: Row, a: Measure, b: Measure, c: Measure, d: Measure, n: u32)
    requires
        r.flip == Some(a),
        r.flicker == Some(b),
        r.frame_ms == Some(c),
        r.product == Some(d),
        r.spp == Some(n),
    ensures
        csv_line(r) == r.recipe@ + ","@ + a.text@ + ","@ + b.text@ + ","@ + c.text@ + ","@ + d.text@ + ","@
            + text::decimal(n as nat) + "\n"@,
        csv_line(Row { flip: None, ..r }) == r.recipe@ + ","@ + Seq::<char>::empty() + ","@ + b.text@ + ","@
            + c.text@ + ","@ + d.text@ + ","@ + text::decimal(n as nat) + "\n"@,
        csv_line(Row { spp: None, ..r }) == r.recipe@ + ","@ + a.text@ + ","@ + b.text@ + ","@ + c.text@
            + ","@ + d.text@ + ","@ + Seq::<char>::empty() + "\n"@,
{
}

/// Rows follow each other in the CSV file as they are ordered, below the names of the columns.
pub proof fn csv_rows_follow_in_order(rows: Seq<Row>, at: Seq<usize>, i: usize)
    ensures
        csv_file(rows, at.push(i)) == csv_file(rows, at) + csv_line(rows[i as int]),
        csv_file(rows, Seq::<usize>::empty())
            == "config,flip_mean,flicker,avg_frame_ms,flip_x_ms,spp\n"@,
{
    assert(at.push(i).drop_last() =~= at);
    let head = "config,flip_mean,flicker,avg_frame_ms,flip_x_ms,spp\n"@;
    assert(head + (csv_lines(rows, at) + csv_line(rows[i as int])) =~= head + csv_lines(rows, at)
        + csv_line(rows[i as int]));
    assert(head + Seq::<char>::empty() =~= head);
}

/// A row of the record names each of its values.
pub proof fn records_name_each_value(
    r: Row,
    a: Measure,
    b: Measure,
    c: Measure,
    n: u32,
    map: String,
    render: String,
    camera: String,
)
    requires
        r.flip == Some(a),
        r.flicker == Some(b),
        r.frame_ms == Some(c),
        r.spp == Some(n),
        r.map == Some(map),
        r.render == Some(render),
        r.camera == Some(camera),
    ensures
        json_row(r) == "\n    {\"recipe\": \""@ + r.recipe@ + "\", \"flip\": "@ + a.text@
            + ", \"flicker\": "@ + b.text@ + ", \"frame_ms\": "@ + c.text@ + ", \"spp\": "@
            + text::decimal(n as nat) + ", \"map\": "@ + ("\""@ + map@ + "\""@) + ", \"render\": "@ + (
        "\""@ + render@ + "\""@) + ", \"camera\": "@ + ("\""@ + escaped(camera@) + "\""@) + "}"@,
        json_of(None) == "null"@,
        json_name(None) == "null"@,
        json_camera(None) == "null"@,
{
}

/// The rows of a record follow each other as they are ordered, with a comma between each two.
pub proof fn records_list_rows_in_order(rows: Seq<Row>, at: Seq<usize>, i: usize)
    ensures
        at.len() > 0 ==> json_rows(rows, at.push(i)) == json_rows(rows, at) + ","@ + json_row(
            rows[i as int],
        ),
        json_rows(rows, seq![i]) == json_row(rows[i as int]),
        json_rows(rows, Seq::<usize>::empty()).len() == 0,
{
    assert(at.push(i).drop_last() =~= at);
    let one = seq![i];
    assert(one.drop_last() =~= Seq::<usize>::empty());
    assert(json_rows(rows, Seq::<usize>::empty()) =~= Seq::<char>::empty());
    assert(json_rows(rows, one) =~= json_row(rows[i as int]));
}

/// An exam shows the truth's render, and a run of frames its screenshot, each of its own scope and
/// sample count.
pub proof fn records_show_their_truth(h: RunHead)
    ensures
        h.protocol.accum ==> truth_render(h) == crate::grader::truth_file(
            h.scope,
            h.truth_spp as nat,
            "spp.render.png"@,
        ),
        !h.protocol.accum ==> truth_render(h) == crate::grader::truth_file(
            h.scope,
            h.truth_spp as nat,
            "spp.shot.png"@,
        ),
{
}

/// A record begins with its scene, its label without quotes, its protocol, time, samples, timestamp
/// and configuration, each under its own name.
pub proof fn records_begin_with_their_run(h: RunHead)
    ensures
        json_head(h) == "{\n  \"scene\": \""@ + h.scene@ + "\",\n  \"label\": \""@ + unquoted(h.label@)
            + "\",\n  \"protocol\": \""@ + protocol_text(h.protocol) + "\",\n  \"time_secs\": "@
            + h.time_secs@ + ",\n  \"truth_spp\": "@ + text::decimal(h.truth_spp as nat)
            + ",\n  \"timestamp\": "@ + text::decimal(h.timestamp as nat)
            + ",\n  \"default_config\": \""@ + escaped(h.default_config@)
            + "\",\n  \"truth_render\": \""@ + truth_render(h) + "\",\n  \"rows\": ["@,
{
}

/// A label loses its double quotes and nothing else.
pub proof fn labels_lose_their_quotes(s: Seq<char>)
    ensures
        unquoted(s) == s.filter(|c: char| c != '"'),
    decreases s.len(),
{
    reveal(Seq::filter);
    if s.len() > 0 {
        labels_lose_their_quotes(s.drop_last());
    }
}

/// A protocol is an exam where samples accumulate; else it is told by frames, with the denoiser
/// where that is not off, and with motion where the camera orbits.
pub proof fn protocols_are_told(p: Protocol)
    ensures
        p.accum ==> protocol_text(p) == "exam"@ && protocol_title(p) == "equal-time exam"@,
        !p.accum ==> protocol_title(p) == protocol_text(p),
        !p.accum && p.no_dlss && p.orbit is None ==> protocol_text(p) == "per-frame"@,
        !p.accum && p.no_dlss && p.orbit is Some ==> protocol_text(p) == "per-frame+motion"@,
        !p.accum && !p.no_dlss && p.orbit is None ==> protocol_text(p) == "per-frame+dlss"@,
        !p.accum && !p.no_dlss && p.orbit is Some ==> protocol_text(p) == "per-frame+dlss+motion"@,
{
}

/// The verdict on a capture.
pub open spec fn verdict_on(captured: bool, dims: Seq<char>, truth_dims: Seq<char>) -> CaptureVerdict {
    if !captured {
        CaptureVerdict::Missing
    } else if truth_dims.len() > 0 && dims != truth_dims {
        CaptureVerdict::Mismatched
    } else {
        CaptureVerdict::Usable
    }
}

/// A capture is usable where it is there and has the truth's size, or that is not known.
pub proof fn captures_need_the_truths_size(captured: bool, dims: Seq<char>, truth_dims: Seq<char>)
    ensures
        verdict_on(captured, dims, truth_dims) is Missing <==> !captured,
        captured ==> (verdict_on(captured, dims, truth_dims) is Usable <==> truth_dims.len() == 0 || dims
            == truth_dims),
{
}

/// The scope whose truth a record shows.
pub open spec fn scope_shown(scopes: Seq<Scope>) -> Option<Scope> {
    if scopes.contains(Scope::Full) {
        Some(Scope::Full)
    } else if scopes.contains(Scope::NoGi) {
        Some(Scope::NoGi)
    } else if scopes.contains(Scope::GiOnly) {
        Some(Scope::GiOnly)
    } else {
        None
    }
}

/// A record shows a scope that was graded, and full transport before any other.
pub proof fn records_show_a_graded_scope(scopes: Seq<Scope>)
    ensures
        scope_shown(scopes) matches Some(s) ==> scopes.contains(s),
        scope_shown(scopes) is None ==> scopes.len() == 0,
        scopes.contains(Scope::Full) ==> scope_shown(scopes) == Some(Scope::Full),
        scopes.contains(Scope::NoGi) && !scopes.contains(Scope::Full) ==> scope_shown(scopes) == Some(
            Scope::NoGi,
        ),
{
    if scope_shown(scopes) is None && scopes.len() > 0 {
        assert(scopes.contains(scopes[0]));
    }
}

/// The mean of a comparison is what its first line that begins so tells, without the blanks around
/// it.
pub proof fn means_are_read(told: Seq<char>, rest: Seq<char>)
    requires
        !told.contains('\n'),
        told.len() > 0,
        !text::white_space(told[0]),
        !text::white_space(told.last()),
    ensures
        mean_in("Mean: "@ + told + seq!['\n'] + rest) == Some(told),
        mean_in(seq!['\n'] + ("Mean: "@ + told + seq!['\n'] + rest)) == Some(told),
{
    reveal_strlit("Mean: ");
    let line = "Mean: "@ + told;
    let all = line + seq!['\n'] + rest;
    assert forall|i: int| 0 <= i < line.len() implies line[i] != '\n' by {
        if i >= 6 {
            assert(line[i] == told[i - 6]);
            assert(told.contains(told[i - 6]));
        }
    }
    text::joined_texts_split(line, '\n', rest);
    assert(line.last() == told.last());
    assert(text::trimmed_start(line) == line);
    assert(text::trimmed_end(line) == line);
    assert(text::trimmed_start(told) == told);
    assert(text::trimmed_end(told) == told);
    assert(line.subrange(0, 6) =~= "Mean: "@);
    assert(line.skip(6) =~= told);
    let none = Seq::<char>::empty();
    let more = seq!['\n'] + all;
    assert(more =~= none + seq!['\n'] + all);
    text::joined_texts_split(none, '\n', all);
    assert(text::trimmed(none) =~= none);
    assert(!text::begins_with(none, "Mean: "@));
}

/// A median is one of the samples, and as many samples are on either side of it: at least half of
/// them are not below it, and more than half are not above it.
pub proof fn medians_stand_in_the_middle(v: Seq<u64>, m: u64)
    requires
        is_median(v, m),
        v.len() > 0,
    ensures
        v.contains(m),
        exists|at: Seq<usize>|
            #![trigger order::is_stable_order(at, floats_le(v), v.len())]
            order::is_stable_order(at, floats_le(v), v.len()) && (forall|k: int|
                0 <= k <= v.len() / 2 ==> float_rank(v[#[trigger] at[k] as int]) <= float_rank(m)) && (
            forall|k: int|
                v.len() / 2 <= k < v.len() ==> float_rank(m) <= float_rank(v[#[trigger] at[k] as int])),
{
    let at = choose|at: Seq<usize>| #[trigger]
        order::is_stable_order(at, floats_le(v), v.len()) && m == v[at[(v.len() / 2) as int] as int];
    let h = (v.len() / 2) as int;
    let le = floats_le(v);
    assert(v[at[h] as int] == m);
    assert forall|k: int| 0 <= k <= v.len() / 2 implies float_rank(v[#[trigger] at[k] as int])
        <= float_rank(m) by {
        if k < h {
            assert(le(at[k] as int, at[h] as int));
        }
    }
    assert forall|k: int| v.len() / 2 <= k < v.len() implies float_rank(m) <= float_rank(
        v[#[trigger] at[k] as int],
    ) by {
        if h < k {
            assert(le(at[h] as int, at[k] as int));
        }
    }
}

/// Whether a run is launched again.
pub open spec fn launches_again(launches: u32, wrong_size: bool) -> bool {
    wrong_size && launches < 3
}

/// Whether a run is settled for longer.
pub open spec fn warms_up(accum: bool, config: Seq<char>) -> bool {
    !accum && crate::grader::carries_cache(config)
}

/// A run is launched three times at most, and again only where its window had the wrong size. One of
/// frames is settled for longer where its configuration carries a cache; an exam never is.
pub proof fn launches_are_few(launches: u32, config: Seq<char>)
    ensures
        !launches_again(launches, false),
        launches >= 3 ==> !launches_again(launches, true),
        launches_again(1, true) && launches_again(2, true),
        !warms_up(true, config),
        warms_up(false, config) <==> crate::grader::carries_cache(config),
{
}

} // verus!
