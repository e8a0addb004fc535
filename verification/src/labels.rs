//! Short texts of the graph editor: pin names, titles, parameter lines and file headers.

use vstd::prelude::*;
use crate::text;

verus! {

/// The name in a pin's notation: what stands between its first and its last double quote.
pub open spec fn quoted_name(notation: Seq<char>) -> Seq<char> {
    match text::following(notation, '"') {
        Some(rest) => match text::before_last(rest, '"') {
            Some(name) => name,
            None => notation,
        },
        None => notation,
    }
}

/// A graph input's notation is `Passthrough("speed")`; the pin name is what belongs on a slider.
pub fn pin_name(notation: &str) -> (r: String)
    ensures
        r@ == quoted_name(notation@),
{
    match text::split_at_char(notation, '"').1 {
        Some(rest) => match text::cut_at_last(rest.as_str(), '"') {
            Some(name) => name,
            None => notation.to_owned(),
        },
        None => notation.to_owned(),
    }
}

/// A name between double quotes is read back from the notation of its pin.
pub proof fn quoted_names_read_back(variant: Seq<char>, name: Seq<char>, tail: Seq<char>)
    requires
        !variant.contains('"'),
        !tail.contains('"'),
    ensures
        quoted_name(variant + seq!['"'] + (name + seq!['"'] + tail)) == name,
{
    text::joined_texts_split(variant, '"', name + seq!['"'] + tail);
    lemma_cut(name, tail);
}

proof fn lemma_cut(name: Seq<char>, tail: Seq<char>)
    requires
        !tail.contains('"'),
    ensures
        text::before_last(name + seq!['"'] + tail, '"') == Some(name),
    decreases tail.len(),
{
    let all = name + seq!['"'] + tail;
    if tail.len() == 0 {
        assert(all.drop_last() =~= name);
    } else {
        assert(tail.contains(tail.last()));
        assert(all.last() == tail.last());
        assert(all.drop_last() =~= name + seq!['"'] + tail.drop_last());
        assert forall|x: char| tail.drop_last().contains(x) implies tail.contains(x) by {
            let i = choose|i: int| 0 <= i < tail.drop_last().len() && tail.drop_last()[i] == x;
            assert(tail[i] == x);
        }
        lemma_cut(name, tail.drop_last());
    }
}

/// Whether a character is plain: visible ASCII, or a blank.
pub open spec fn plain(c: char) -> bool {
    ' ' <= c <= '~'
}

/// The plain characters of a text.
pub open spec fn plain_only(s: Seq<char>) -> Seq<char>
    decreases s.len(),
{
    if s.len() == 0 {
        seq![]
    } else if plain(s.last()) {
        plain_only(s.drop_last()).push(s.last())
    } else {
        plain_only(s.drop_last())
    }
}

/// A text without the characters that the editor's font lacks, trimmed.
pub fn ascii(s: &str) -> (r: String)
    ensures
        r@ == text::trimmed(plain_only(s@)),
{
    let c = text::chars_of(s);
    let mut out = String::new();
    for i in 0..c.len()
        invariant
            c@ == s@,
            out@ == plain_only(c@.take(i as int)),
    {
        assert(c@.take(i + 1).drop_last() =~= c@.take(i as int));
        if ' ' <= c[i] && c[i] <= '~' {
            out.push(c[i]);
        }
    }
    assert(c@.take(c@.len() as int) =~= c@);
    text::trim(out.as_str())
}

/// The title of a node's box: its name, where it has one, and what it does.
pub open spec fn box_title(name: Seq<char>, display: Seq<char>) -> Seq<char> {
    let what = text::trimmed(plain_only(display));
    if name.len() == 0 {
        what
    } else {
        name + "  ("@ + what + ")"@
    }
}

/// The title of a node's box.
pub fn title_box(name: &str, display: &str) -> (r: String)
    ensures
        r@ == box_title(name@, display@),
{
    let what = ascii(display);
    if name.is_empty() {
        what
    } else {
        let mut out = name.to_owned();
        out.append("  (");
        out.append(what.as_str());
        out.append(")");
        out
    }
}

/// The lines that list a node's parameters: its title, then one line per field.
pub open spec fn param_lines(
    name: Seq<char>,
    display: Seq<char>,
    fields: Seq<(String, String)>,
) -> Seq<Seq<char>> {
    seq![name + "  ["@ + text::trimmed(plain_only(display)) + "]"@] + fields.map_values(
        |f: (String, String)| "  "@ + f.0@ + ": "@ + f.1@,
    )
}

/// Lists a node's parameters.
pub fn list_params(name: &str, display: &str, fields: &Vec<(String, String)>) -> (r: Vec<String>)
    ensures
        text::texts(r@) == param_lines(name@, display@, fields@),
{
    let mut out: Vec<String> = Vec::new();
    let mut title = name.to_owned();
    title.append("  [");
    title.append(ascii(display).as_str());
    title.append("]");
    out.push(title);
    assert(text::texts(out@) =~= param_lines(name@, display@, fields@).take(1));
    for i in 0..fields.len()
        invariant
            text::texts(out@) == param_lines(name@, display@, fields@).take(1 + i as int),
    {
        let mut line = "  ".to_owned();
        line.append(fields[i].0.as_str());
        line.append(": ");
        line.append(fields[i].1.as_str());
        proof {
            text::lemma_texts_push(out@, line);
        }
        out.push(line);
        assert(text::texts(out@) =~= param_lines(name@, display@, fields@).take(2 + i as int));
    }
    assert(param_lines(name@, display@, fields@).take(1 + fields@.len() as int) =~= param_lines(
        name@,
        display@,
        fields@,
    ));
    out
}

/// A notation on one short line: line feeds become blanks, and what is past 72 characters is cut.
pub open spec fn short_line(s: Seq<char>) -> Seq<char> {
    let line = text::replaced(s, '\n', ' ');
    if line.len() > 72 {
        line.take(69) + "..."@
    } else {
        line
    }
}

/// A value's notation as one short line.
pub fn one_line(notation: &str) -> (r: String)
    ensures
        r@ == short_line(notation@),
{
    let line = text::replace_char(notation, '\n', ' ');
    if line.as_str().unicode_len() > 72 {
        let mut out = line.as_str().substring_char(0, 69).to_owned();
        assert(out@ =~= line@.take(69));
        out.append("...");
        out
    } else {
        line
    }
}

/// A short line is short, and one line.
pub proof fn short_lines_are_short(s: Seq<char>)
    ensures
        short_line(s).len() <= 72,
        !short_line(s).contains('\n'),
{
    reveal_strlit("...");
    let line = text::replaced(s, '\n', ' ');
    assert forall|i: int| 0 <= i < line.len() implies line[i] != '\n' by {}
}

/// The path of a handle; a handle without one is unsaved.
pub fn handle_path(path: Option<&str>) -> (r: String)
    ensures
        r@ == (match crate::names::optional(path) {
            Some(p) => p,
            None => "<unsaved>"@,
        }),
{
    match path {
        Some(p) => p.to_owned(),
        None => "<unsaved>".to_owned(),
    }
}

/// Whether a line is part of a file's header: a comment, or blank.
pub open spec fn header_line(line: Seq<char>) -> bool {
    text::begins_with(text::trimmed_start(line), "//"@) || text::trimmed(line).len() == 0
}

/// The lines of the header: those before the first line that is no part of it.
pub open spec fn header_lines(lines: Seq<Seq<char>>) -> Seq<Seq<char>>
    decreases lines.len(),
{
    if lines.len() == 0 || !header_line(lines[0]) {
        seq![]
    } else {
        seq![lines[0]] + header_lines(lines.skip(1))
    }
}

/// Whether every line is blank.
pub open spec fn all_blank(lines: Seq<Seq<char>>) -> bool {
    forall|i: int| 0 <= i < lines.len() ==> text::trimmed(#[trigger] lines[i]).len() == 0
}

/// The header block of a file, with a line feed after it; nothing where it holds no comment.
pub open spec fn header_block(file: Seq<char>) -> Seq<char> {
    let header = header_lines(text::lines_of(file));
    if all_blank(header) {
        seq![]
    } else {
        text::joined(header, "\n"@) + "\n"@
    }
}

/// The header block is where an authored graph keeps its design record; it is carried across a
/// save.
pub fn leading_comment(existing: &str) -> (r: String)
    ensures
        r@ == header_block(existing@),
{
    let lines = text::lines(existing);
    let mut header: Vec<String> = Vec::new();
    let mut i: usize = 0;
    let mut blank = true;
    let ghost all = text::texts(lines@);
    assert(all.skip(0) =~= all);
    assert(text::texts(header@) + header_lines(all.skip(0)) =~= header_lines(all));
    let mut more = true;
    while more && i < lines.len()
        invariant
            all == text::texts(lines@),
            i <= lines@.len(),
            more ==> text::texts(header@) + header_lines(all.skip(i as int)) == header_lines(all),
            !more ==> text::texts(header@) == header_lines(all),
            blank == all_blank(text::texts(header@)),
        decreases lines@.len() - i, (if more {
            1int
        } else {
            0
        }),
    {
        let line = lines[i].as_str();
        assert(line@ == all[i as int]);
        assert(all.skip(i as int)[0] == line@);
        assert(all.skip(i as int).skip(1) =~= all.skip(i + 1));
        let empty = text::trim(line).as_str().is_empty();
        let start = text::trim_start(line);
        let ghost before = header@;
        if text::starts_with(start.as_str(), "//") || empty {
            header.push(line.to_owned());
            proof {
                text::lemma_texts_push(before, header@.last());
                lemma_blank_push(text::texts(before), line@);
            }
            assert(text::texts(header@) + header_lines(all.skip(i + 1)) =~= text::texts(before)
                + header_lines(all.skip(i as int)));
            blank = blank && empty;
            i = i + 1;
        } else {
            assert(text::texts(header@) =~= header_lines(all));
            more = false;
        }
    }
    assert(text::texts(header@) =~= header_lines(all));
    if blank {
        String::new()
    } else {
        let mut out = text::join(&header, "\n");
        out.append("\n");
        out
    }
}

proof fn lemma_blank_push(lines: Seq<Seq<char>>, line: Seq<char>)
    ensures
        all_blank(lines.push(line)) == (all_blank(lines) && text::trimmed(line).len() == 0),
{
    if all_blank(lines.push(line)) {
        assert forall|i: int| 0 <= i < lines.len() implies text::trimmed(#[trigger] lines[i]).len()
            == 0 by {
            assert(lines.push(line)[i] == lines[i]);
        }
        assert(lines.push(line)[lines.len() as int] == line);
    }
}

/// Whether no line holds a line feed.
spec fn unbroken(lines: Seq<Seq<char>>) -> bool {
    forall|i: int| 0 <= i < lines.len() ==> !(#[trigger] lines[i]).contains('\n')
}

/// Whether no line ends in a carriage return.
pub open spec fn unreturned(lines: Seq<Seq<char>>) -> bool {
    forall|i: int| 0 <= i < lines.len() ==> !text::ends_in(#[trigger] lines[i], "\r"@)
}

/// Lines, each with a line feed behind it.
spec fn ended(lines: Seq<Seq<char>>) -> Seq<char>
    decreases lines.len(),
{
    if lines.len() == 0 {
        seq![]
    } else {
        lines[0] + seq!['\n'] + ended(lines.skip(1))
    }
}

proof fn lemma_ended_push(lines: Seq<Seq<char>>, line: Seq<char>)
    ensures
        ended(lines.push(line)) == ended(lines) + line + seq!['\n'],
    decreases lines.len(),
{
    let all = lines.push(line);
    if lines.len() == 0 {
        assert(ended(all.skip(1)) =~= seq![]);
        assert(ended(all) =~= ended(lines) + line + seq!['\n']);
    } else {
        lemma_ended_push(lines.skip(1), line);
        assert(all.skip(1) =~= lines.skip(1).push(line));
        assert(ended(all) =~= ended(lines) + line + seq!['\n']);
    }
}

proof fn lemma_joined_ended(lines: Seq<Seq<char>>)
    requires
        lines.len() > 0,
    ensures
        text::joined(lines, "\n"@) + "\n"@ == ended(lines),
    decreases lines.len(),
{
    reveal_strlit("\n");
    assert("\n"@ =~= seq!['\n']);
    reveal_with_fuel(text::joined, 2);
    assert(lines =~= lines.drop_last().push(lines.last()));
    lemma_ended_push(lines.drop_last(), lines.last());
    if lines.len() > 1 {
        lemma_joined_ended(lines.drop_last());
        assert(text::joined(lines, "\n"@) + "\n"@ =~= ended(lines));
    } else {
        assert(lines.drop_last() =~= seq![]);
        assert(text::joined(lines, "\n"@) + "\n"@ =~= ended(lines));
    }
}

proof fn lemma_split_parts(s: Seq<char>, c: char)
    ensures
        forall|x: char| #[trigger] text::up_to(s, c).contains(x) ==> s.contains(x) && x != c,
        text::following(s, c) matches Some(t) ==> forall|x: char| #[trigger]
            t.contains(x) ==> s.contains(x),
    decreases s.len(),
{
    if s.len() > 0 {
        assert forall|x: char| #[trigger] s.skip(1).contains(x) implies s.contains(x) by {
            let i = choose|i: int| 0 <= i < s.skip(1).len() && s.skip(1)[i] == x;
            assert(s[i + 1] == x);
        }
        if s[0] != c {
            lemma_split_parts(s.skip(1), c);
            assert forall|x: char| #[trigger] text::up_to(s, c).contains(x) implies s.contains(x)
                && x != c by {
                let i = choose|i: int| 0 <= i < text::up_to(s, c).len() && text::up_to(s, c)[i] == x;
                assert(text::up_to(s, c) == seq![s[0]] + text::up_to(s.skip(1), c));
                if i == 0 {
                    assert(s[0] == x);
                } else {
                    assert(text::up_to(s.skip(1), c)[i - 1] == x);
                    assert(text::up_to(s.skip(1), c).contains(x));
                    assert(s.skip(1).contains(x));
                }
            }
        }
    }
}

proof fn lemma_lines_unbroken(s: Seq<char>)
    ensures
        unbroken(text::lines_of(s)),
    decreases s.len(),
{
    if s.len() > 0 {
        lemma_split_parts(s, '\n');
        match text::following(s, '\n') {
            Some(rest) => {
                text::lemma_following_shorter(s, '\n');
                lemma_lines_unbroken(rest);
                let head = text::up_to(s, '\n');
                let kept = text::without_suffix(head, "\r"@);
                let lines = text::lines_of(s);
                assert(lines[0] == kept);
                assert(!kept.contains('\n')) by {
                    if kept.contains('\n') {
                        let k = choose|k: int| 0 <= k < kept.len() && kept[k] == '\n';
                        assert(head[k] == '\n');
                        assert(head.contains('\n'));
                    }
                }
                let below = text::lines_of(rest);
                assert forall|i: int| 0 <= i < lines.len() implies !(#[trigger] lines[i]).contains(
                    '\n',
                ) by {
                    if i > 0 {
                        assert(lines[i] == below[i - 1]);
                    }
                }
            },
            None => {
                lemma_no_feed(s);
                assert(text::lines_of(s)[0] == s);
            },
        }
    }
}

proof fn lemma_no_feed(s: Seq<char>)
    requires
        text::following(s, '\n') is None,
    ensures
        !s.contains('\n'),
    decreases s.len(),
{
    if s.len() > 0 {
        lemma_no_feed(s.skip(1));
        if s.contains('\n') {
            let i = choose|i: int| 0 <= i < s.len() && s[i] == '\n';
            assert(s.skip(1)[i - 1] == '\n');
        }
    }
}

proof fn lemma_lines_ended(lines: Seq<Seq<char>>, body: Seq<char>)
    requires
        unbroken(lines),
        unreturned(lines),
    ensures
        text::lines_of(ended(lines) + body) == lines + text::lines_of(body),
    decreases lines.len(),
{
    if lines.len() == 0 {
        assert(ended(lines) + body =~= body);
        assert(lines + text::lines_of(body) =~= text::lines_of(body));
    } else {
        let rest = ended(lines.skip(1)) + body;
        let all = ended(lines) + body;
        assert(all =~= lines[0] + seq!['\n'] + rest);
        text::joined_texts_split(lines[0], '\n', rest);
        assert forall|i: int| 0 <= i < lines.skip(1).len() implies !(#[trigger] lines.skip(
            1,
        )[i]).contains('\n') && !text::ends_in(lines.skip(1)[i], "\r"@) by {
            assert(lines.skip(1)[i] == lines[i + 1]);
        }
        lemma_lines_ended(lines.skip(1), body);
        assert(text::lines_of(all) =~= seq![lines[0]] + text::lines_of(rest));
        assert(lines + text::lines_of(body) =~= seq![lines[0]] + (lines.skip(1) + text::lines_of(
            body,
        )));
    }
}

proof fn lemma_headers(lines: Seq<Seq<char>>)
    ensures
        header_lines(lines).len() <= lines.len(),
        header_lines(lines) == lines.take(header_lines(lines).len() as int),
        forall|i: int|
            0 <= i < header_lines(lines).len() ==> header_line(#[trigger] header_lines(lines)[i]),
    decreases lines.len(),
{
    if lines.len() > 0 && header_line(lines[0]) {
        lemma_headers(lines.skip(1));
        let h = header_lines(lines);
        let r = header_lines(lines.skip(1));
        assert(h =~= lines.take(h.len() as int)) by {
            assert forall|i: int| 0 <= i < h.len() implies h[i] == lines[i] by {
                if i > 0 {
                    assert(r[i - 1] == lines.skip(1)[i - 1]);
                }
            }
        }
        assert forall|i: int| 0 <= i < h.len() implies header_line(#[trigger] h[i]) by {
            if i > 0 {
                assert(h[i] == r[i - 1]);
            }
        }
    } else {
        assert(header_lines(lines) =~= lines.take(0));
    }
}

proof fn lemma_headers_kept(header: Seq<Seq<char>>, rest: Seq<Seq<char>>)
    requires
        forall|i: int| 0 <= i < header.len() ==> header_line(#[trigger] header[i]),
        rest.len() == 0 || !header_line(rest[0]),
    ensures
        header_lines(header + rest) == header,
    decreases header.len(),
{
    if header.len() == 0 {
        assert(header + rest =~= rest);
        assert(header_lines(rest) =~= header);
    } else {
        assert((header + rest).skip(1) =~= header.skip(1) + rest);
        assert forall|i: int| 0 <= i < header.skip(1).len() implies header_line(
            #[trigger] header.skip(1)[i],
        ) by {
            assert(header.skip(1)[i] == header[i + 1]);
        }
        lemma_headers_kept(header.skip(1), rest);
        assert(header_lines(header + rest) =~= header);
    }
}

/// The header that a save carries across is the header of the saved file, so the next save
/// carries it too: for a graph whose first line is no comment, and a header without a line that
/// still ends in a carriage return once its own line break is off.
pub proof fn saved_headers_stay(existing: Seq<char>, graph: Seq<char>)
    requires
        header_block(existing).len() > 0 ==> unreturned(header_lines(text::lines_of(existing))),
        text::lines_of(graph).len() == 0 || !header_line(text::lines_of(graph)[0]),
    ensures
        header_block(header_block(existing) + graph) == header_block(existing),
{
    let lines = text::lines_of(existing);
    let header = header_lines(lines);
    if all_blank(header) {
        assert(header_block(existing) + graph =~= graph);
        lemma_headers_kept(seq![], text::lines_of(graph));
        assert(Seq::<Seq<char>>::empty() + text::lines_of(graph) =~= text::lines_of(graph));
        assert(all_blank(header_lines(text::lines_of(graph))));
    } else {
        lemma_headers(lines);
        lemma_lines_unbroken(existing);
        assert forall|i: int| 0 <= i < header.len() implies !(#[trigger] header[i]).contains(
            '\n',
        ) by {
            assert(header[i] == lines[i]);
        }
        lemma_joined_ended(header);
        lemma_lines_ended(header, graph);
        lemma_headers_kept(header, text::lines_of(graph));
    }
}

/// The plain characters of a text, in order: those from the blank to the tilde.
pub proof fn plain_characters_stay(s: Seq<char>)
    ensures
        plain_only(s) == s.filter(|c: char| ' ' <= c <= '~'),
    decreases s.len(),
{
    reveal(Seq::filter);
    if s.len() > 0 {
        plain_characters_stay(s.drop_last());
    }
}

/// A short notation stays, but for its line feeds; of a long one the first sixty-nine characters
/// stay, and three dots follow.
pub proof fn long_notations_are_cut(s: Seq<char>)
    requires
        !s.contains('\n'),
    ensures
        s.len() <= 72 ==> short_line(s) == s,
        s.len() > 72 ==> short_line(s).len() == 72 && short_line(s).take(69) == s.take(69)
            && short_line(s).skip(69) == "..."@,
{
    let line = text::replaced(s, '\n', ' ');
    assert forall|i: int| 0 <= i < s.len() implies line[i] == s[i] by {
        assert(s.contains(s[i]));
    }
    assert(line =~= s);
    reveal_strlit("...");
    if s.len() > 72 {
        assert(short_line(s).take(69) =~= s.take(69));
        assert(short_line(s).skip(69) =~= "..."@);
    }
}

/// The header of a file is its comment and blank lines up to the first line that is neither.
pub proof fn headers_end_at_the_first_line(
    head: Seq<Seq<char>>,
    line: Seq<char>,
    rest: Seq<Seq<char>>,
)
    requires
        forall|i: int| 0 <= i < head.len() ==> header_line(#[trigger] head[i]),
        !header_line(line),
    ensures
        header_lines(head) == head,
        header_lines(head + seq![line] + rest) == head,
    decreases head.len(),
{
    let all = head + seq![line] + rest;
    if head.len() == 0 {
        assert(all[0] == line);
        assert(head =~= Seq::<Seq<char>>::empty());
    } else {
        let less = head.skip(1);
        assert(header_line(head[0]));
        assert forall|i: int| 0 <= i < less.len() implies header_line(#[trigger] less[i]) by {
            assert(less[i] == head[i + 1]);
        }
        headers_end_at_the_first_line(less, line, rest);
        assert(all.skip(1) =~= less + seq![line] + rest);
        assert(all[0] == head[0]);
        assert(seq![head[0]] + less =~= head);
    }
}

/// A line that begins with two slashes is part of a header, and one that begins with a letter is not.
pub proof fn comments_are_headers(line: Seq<char>, c: char)
    requires
        'a' <= c <= 'z',
    ensures
        header_line("//"@ + line),
        !header_line(seq![c] + line),
        header_line(Seq::<char>::empty()),
{
    reveal_strlit("//");
    let comment = "//"@ + line;
    assert(comment[0] == '/');
    assert(text::trimmed_start(comment) == comment);
    assert(comment.subrange(0, 2) =~= "//"@);
    let code = seq![c] + line;
    assert(code[0] == c);
    assert(text::trimmed_start(code) == code);
    assert(code.subrange(0, 2)[0] == c || code.len() < 2);
    if text::begins_with(code, "//"@) {
        assert(code.subrange(0, 2)[0] == '/');
    }
    lemma_trimmed_keeps_first(code);
}

proof fn lemma_trimmed_keeps_first(s: Seq<char>)
    requires
        s.len() > 0,
        !text::white_space(s[0]),
    ensures
        text::trimmed_end(s).len() > 0,
    decreases s.len(),
{
    if text::white_space(s.last()) {
        assert(s.len() > 1);
        lemma_trimmed_keeps_first(s.drop_last());
    }
}

/// A node's parameters are listed below its title, one line each, in order.
pub proof fn parameters_are_listed(
    name: Seq<char>,
    display: Seq<char>,
    fields: Seq<(String, String)>,
    k: int,
)
    requires
        0 <= k < fields.len(),
    ensures
        param_lines(name, display, fields).len() == fields.len() + 1,
        param_lines(name, display, fields)[0] == name + "  ["@ + text::trimmed(plain_only(display)) + "]"@,
        param_lines(name, display, fields)[k + 1] == "  "@ + fields[k].0@ + ": "@ + fields[k].1@,
{
}

/// A box is titled by its node's name and what it does; one without a name by what it does alone.
pub proof fn boxes_are_titled(name: Seq<char>, display: Seq<char>)
    requires
        name.len() > 0,
    ensures
        box_title(name, display) == name + "  ("@ + text::trimmed(plain_only(display)) + ")"@,
        box_title(Seq::<char>::empty(), display) == text::trimmed(plain_only(display)),
{
}

} // verus!
