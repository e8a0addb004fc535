//! The scene viewer: its arguments, the skies it cycles through, and the floor it stands scenes on.

use vstd::prelude::*;
use crate::order;
use crate::text;

verus! {

/// A model preset of the denoiser.
#[derive(Clone, Copy, Debug, PartialEq, Eq, Structural)]
pub enum Preset {
    Default,
    D,
    E,
}

/// The preset that a text names.
pub open spec fn preset_named(s: Seq<char>) -> Option<Preset> {
    if s == "default"@ {
        Some(Preset::Default)
    } else if s == "d"@ {
        Some(Preset::D)
    } else if s == "e"@ {
        Some(Preset::E)
    } else {
        None
    }
}

/// Reads a preset.
pub fn parse_preset(s: &str) -> (r: Result<Preset, String>)
    ensures
        match r {
            Ok(p) => preset_named(s@) == Some(p),
            Err(e) => preset_named(s@) is None && e@ == "expected default|d|e"@,
        },
{
    if text::same_text(s, "default") {
        Ok(Preset::Default)
    } else if text::same_text(s, "d") {
        Ok(Preset::D)
    } else if text::same_text(s, "e") {
        Ok(Preset::E)
    } else {
        Err("expected default|d|e".to_owned())
    }
}

/// The numbers' texts in `x,y,z`: the parts between commas, trimmed.
pub open spec fn vector_parts(s: Seq<char>) -> Seq<Seq<char>> {
    text::parts_of(s, ',').map_values(|p: Seq<char>| text::trimmed(p))
}

/// Splits `x,y,z` into its numbers' texts.
pub fn split_vector(s: &str) -> (r: Vec<String>)
    ensures
        text::texts(r@) == vector_parts(s@),
{
    let parts = text::parts(s, ',');
    let mut out: Vec<String> = Vec::new();
    let ghost all = vector_parts(s@);
    for i in 0..parts.len()
        invariant
            text::texts(parts@) == text::parts_of(s@, ','),
            all == vector_parts(s@),
            text::texts(out@) == all.take(i as int),
    {
        let ghost before = out@;
        let part = text::trim(parts[i].as_str());
        assert(parts@[i as int]@ == text::texts(parts@)[i as int]);
        out.push(part);
        proof {
            text::lemma_texts_push(before, out@.last());
        }
        assert(text::texts(out@) =~= all.take(i + 1));
    }
    assert(text::texts(out@) =~= all);
    out
}

/// Takes three numbers of a vector, by their bits; there must be three.
pub fn parse_vec3(parts: &Vec<u32>) -> (r: Result<(u32, u32, u32), String>)
    ensures
        match r {
            Ok(v) => parts@ == seq![v.0, v.1, v.2],
            Err(e) => parts@.len() != 3 && e@ == "expected x,y,z"@,
        },
{
    if parts.len() == 3 {
        assert(parts@ =~= seq![parts@[0], parts@[1], parts@[2]]);
        Ok((parts[0], parts[1], parts[2]))
    } else {
        Err("expected x,y,z".to_owned())
    }
}

/// A letter in lower case, where it is one of the upper-case ASCII letters.
pub open spec fn lower_ascii(c: char) -> char {
    if 'A' <= c <= 'Z' {
        (c as u32 + 32) as char
    } else {
        c
    }
}

/// A text with its ASCII letters in lower case.
pub open spec fn lower_ascii_text(s: Seq<char>) -> Seq<char> {
    s.map_values(|c: char| lower_ascii(c))
}

fn lower(s: &str) -> (r: String)
    ensures
        r@ == lower_ascii_text(s@),
{
    let c = text::chars_of(s);
    let mut out = String::new();
    for i in 0..c.len()
        invariant
            c@ == s@,
            out@ == lower_ascii_text(s@).take(i as int),
    {
        let x = c[i];
        if 'A' <= x && x <= 'Z' {
            out.push(((x as u8) + 32) as char);
        } else {
            out.push(x);
        }
        assert(out@ =~= lower_ascii_text(s@).take(i + 1));
    }
    assert(out@ =~= lower_ascii_text(s@));
    out
}

/// Whether a file is a sky: its extension says so, letter case aside.
pub open spec fn is_sky(name: Seq<char>) -> bool {
    let ext = lower_ascii_text(text::parts_of(name, '.').last());
    ext == "hdr"@ || ext == "exr"@
}

/// The skies among files, as asset paths.
pub open spec fn sky_paths(names: Seq<Seq<char>>) -> Seq<Seq<char>>
    decreases names.len(),
{
    if names.len() == 0 {
        seq![]
    } else {
        let most = sky_paths(names.drop_last());
        if is_sky(names.last()) {
            most.push("sky/"@ + names.last())
        } else {
            most
        }
    }
}

fn list_skies(names: &Vec<String>) -> (r: Vec<String>)
    ensures
        text::texts(r@) == sky_paths(text::texts(names@)),
{
    let mut out: Vec<String> = Vec::new();
    let ghost all = text::texts(names@);
    assert(text::texts(out@) =~= sky_paths(all.take(0)));
    for i in 0..names.len()
        invariant
            all == text::texts(names@),
            text::texts(out@) == sky_paths(all.take(i as int)),
    {
        assert(all.take(i + 1).drop_last() =~= all.take(i as int));
        let name = names[i].as_str();
        assert(all.take(i + 1).last() == name@);
        let parts = text::parts(name, '.');
        assert(text::texts(parts@).len() > 0);
        let ext = lower(parts[parts.len() - 1].as_str());
        if text::same_text(ext.as_str(), "hdr") || text::same_text(ext.as_str(), "exr") {
            let mut path = "sky/".to_owned();
            path.append(name);
            proof {
                text::lemma_texts_push(out@, path);
            }
            out.push(path);
        }
    }
    assert(all.take(names@.len() as int) =~= all);
    out
}

/// The skies that keys cycle through: no path is the procedural sky.
pub struct SkyCycle {
    pub entries: Vec<Option<String>>,
    pub index: usize,
}

/// The paths of skies.
pub open spec fn entry_texts(entries: Seq<Option<String>>) -> Seq<Option<Seq<char>>> {
    entries.map_values(|e: Option<String>| crate::document::opt_text(e))
}

/// The procedural sky, then those of a list, in the order `at`.
pub open spec fn cycle_of(paths: Seq<Seq<char>>, at: Seq<usize>) -> Seq<Option<Seq<char>>> {
    seq![None] + at.map_values(|i: usize| Some(paths[i as int]))
}

/// Whether a cycle starts at a sky: the first that has its path, or that path behind the others.
pub open spec fn starts_at(
    known: Seq<Option<Seq<char>>>,
    start: Option<Seq<char>>,
    entries: Seq<Option<Seq<char>>>,
    index: int,
) -> bool {
    if known.contains(start) {
        entries == known && 0 <= index < known.len() && known[index] == start && forall|k: int|
            0 <= k < index ==> #[trigger] known[k] != start
    } else {
        entries == known.push(start) && index == known.len()
    }
}

/// Whether a cycle is over paths, sorted, and starts at a sky.
pub open spec fn is_cycle(
    paths: Seq<Seq<char>>,
    start: Option<Seq<char>>,
    entries: Seq<Option<Seq<char>>>,
    index: int,
) -> bool {
    exists|at: Seq<usize>| #[trigger]
        order::is_stable_order(at, order::texts_le(paths), paths.len()) && starts_at(
            cycle_of(paths, at),
            start,
            entries,
            index,
        )
}

impl SkyCycle {
    /// Whether the index is that of an entry.
    pub open spec fn well_formed(&self) -> bool {
        self.index < self.entries@.len()
    }

    /// The cycle over the skies among files, sorted by path, behind the procedural one, at the
    /// sky to start with.
    pub fn discover(names: &Vec<String>, start: Option<&str>) -> (r: SkyCycle)
        requires
            names@.len() < usize::MAX - 1,
        ensures
            r.well_formed(),
            is_cycle(
                sky_paths(text::texts(names@)),
                crate::names::optional(start),
                entry_texts(r.entries@),
                r.index as int,
            ),
    {
        let paths = list_skies(names);
        let ghost all = text::texts(paths@);
        let at = order::order_texts(&paths);
        let ghost cycle = cycle_of(all, at@);
        let mut entries: Vec<Option<String>> = Vec::new();
        entries.push(None);
        assert(entry_texts(entries@) =~= cycle.take(1));
        for k in 0..at.len()
            invariant
                all == text::texts(paths@),
                cycle == cycle_of(all, at@),
                forall|k: int| 0 <= k < at@.len() ==> #[trigger] at@[k] < paths@.len(),
                entry_texts(entries@) == cycle.take(1 + k as int),
        {
            let ghost before = entries@;
            entries.push(Some(paths[at[k]].clone()));
            assert(entry_texts(entries@) =~= entry_texts(before).push(
                Some(all[at@[k as int] as int]),
            ));
            assert(entry_texts(entries@) =~= cycle.take(2 + k as int));
        }
        assert(entry_texts(entries@) =~= cycle);
        let mut i: usize = 0;
        let ghost want = crate::names::optional(start);
        while i < entries.len()
            invariant
                i <= entries@.len(),
                all == sky_paths(text::texts(names@)),
                order::is_stable_order(at@, order::texts_le(all), all.len()),
                cycle == cycle_of(all, at@),
                entry_texts(entries@) == cycle,
                want == crate::names::optional(start),
                forall|k: int| 0 <= k < i ==> #[trigger] cycle[k] != want,
            decreases entries@.len() - i,
        {
            assert(cycle[i as int] == crate::document::opt_text(entries@[i as int]));
            let found = match (&entries[i], start) {
                (Some(e), Some(s)) => text::same_text(e.as_str(), s),
                (None, None) => true,
                _ => false,
            };
            if found {
                assert(cycle[i as int] == want);
                assert(cycle.contains(want));
                assert(starts_at(cycle, want, entry_texts(entries@), i as int));
                return SkyCycle { entries, index: i };
            }
            i = i + 1;
        }
        assert(!cycle.contains(want));
        let index: usize = entries.len();
        match start {
            Some(s) => {
                entries.push(Some(s.to_owned()));
                assert(entry_texts(entries@) =~= cycle.push(want));
            },
            None => {
                assert(cycle[0] == want);
            },
        }
        assert(starts_at(cycle, want, entry_texts(entries@), index as int));
        SkyCycle { entries, index }
    }

    /// The path of the current sky; none for the procedural one.
    pub fn current(&self) -> (r: Option<String>)
        requires
            self.well_formed(),
        ensures
            crate::document::opt_text(r) == entry_texts(self.entries@)[self.index as int],
    {
        match &self.entries[self.index] {
            Some(p) => Some(p.clone()),
            None => None,
        }
    }

    /// Goes on to the next sky, or back to the one before; a single sky stays.
    pub fn step(&mut self, forward: bool)
        requires
            old(self).well_formed(),
        ensures
            final(self).well_formed(),
            final(self).entries@ == old(self).entries@,
            final(self).index == stepped(old(self).entries@.len(), old(self).index as int, forward),
    {
        let n: usize = self.entries.len();
        proof {
            lemma_stepped(n as nat, self.index as int, forward);
        }
        if forward {
            if self.index + 1 < n {
                self.index = self.index + 1;
            } else {
                self.index = 0;
            }
        } else if self.index == 0 {
            self.index = n - 1;
        } else {
            self.index = self.index - 1;
        }
    }

    /// The line that tells which sky it is.
    pub fn sky_line(&self) -> (r: String)
        requires
            self.well_formed(),
        ensures
            r@ == "sky "@ + text::decimal((self.index + 1) as nat) + "/"@ + text::decimal(
                self.entries@.len(),
            ) + ": "@ + (match entry_texts(self.entries@)[self.index as int] {
                Some(p) => p,
                None => "procedural"@,
            }),
    {
        let n: usize = self.entries.len();
        let number: usize = self.index + 1;
        let mut out = "sky ".to_owned();
        text::push_decimal(&mut out, number as u64);
        out.append("/");
        text::push_decimal(&mut out, n as u64);
        out.append(": ");
        match &self.entries[self.index] {
            Some(p) => out.append(p.as_str()),
            None => out.append("procedural"),
        }
        out
    }
}

/// The place after or before another, around a cycle of `n`.
pub open spec fn stepped(n: nat, index: int, forward: bool) -> int {
    if forward {
        (index + 1) % (n as int)
    } else {
        (index + n - 1) % (n as int)
    }
}

/// A step forward and a step back lead back.
pub proof fn steps_undo_each_other(n: nat, index: int, forward: bool)
    requires
        0 <= index < n,
    ensures
        stepped(n, stepped(n, index, forward), !forward) == index,
{
    lemma_stepped(n, index, forward);
    lemma_stepped(n, stepped(n, index, forward), !forward);
}

/// A step, without the remainder.
proof fn lemma_stepped(n: nat, index: int, forward: bool)
    requires
        0 <= index < n,
    ensures
        stepped(n, index, forward) == (if forward {
            if index + 1 < n {
                index + 1
            } else {
                0
            }
        } else if index == 0 {
            n - 1
        } else {
            index - 1
        }),
{
    if forward {
        if index + 1 < n {
            vstd::arithmetic::div_mod::lemma_small_mod((index + 1) as nat, n);
        } else {
            vstd::arithmetic::div_mod::lemma_mod_self_0(n as int);
        }
    } else if index == 0 {
        vstd::arithmetic::div_mod::lemma_small_mod((n - 1) as nat, n);
    } else {
        vstd::arithmetic::div_mod::lemma_mod_add_multiples_vanish(index - 1, n as int);
        vstd::arithmetic::div_mod::lemma_small_mod((index - 1) as nat, n);
    }
}

/// A scene argument, as the asset root wants it: nothing for what is no scene; the path below the
/// root where the file lies there; else the argument without a leading `assets/`.
pub open spec fn scene_path(raw: Seq<char>, below_root: Option<Seq<char>>) -> Option<Seq<char>> {
    if !text::ends_in(raw, ".bsn"@) {
        None
    } else {
        match below_root {
            Some(p) => Some(p),
            None => if text::begins_with(raw, "assets/"@) {
                Some(raw.skip("assets/"@.len() as int))
            } else {
                Some(raw)
            },
        }
    }
}

/// A scene argument, as the asset root wants it. `below_root` is the file's path from the asset
/// root, where it lies there.
pub fn normalize(raw: &str, below_root: Option<&str>) -> (r: Option<String>)
    ensures
        crate::document::opt_text(r) == scene_path(raw@, crate::names::optional(below_root)),
{
    if !text::ends_with(raw, ".bsn") {
        return None;
    }
    match below_root {
        Some(p) => Some(p.to_owned()),
        None => {
            if text::starts_with(raw, "assets/") {
                let from: usize = "assets/".unicode_len();
                let all: usize = raw.unicode_len();
                let rest = raw.substring_char(from, all).to_owned();
                assert(rest@ =~= raw@.skip(from as int));
                Some(rest)
            } else {
                Some(raw.to_owned())
            }
        },
    }
}

/// The window title of the viewer.
pub fn viewer_title(scenes: &Vec<String>) -> (r: String)
    ensures
        r@ == (if scenes@.len() == 1 {
            "bsn — "@ + scenes@[0]@
        } else {
            "bsn — "@ + text::decimal(scenes@.len()) + " scenes"@
        }),
{
    let mut out = "bsn — ".to_owned();
    if scenes.len() == 1 {
        out.append(scenes[0].as_str());
    } else {
        text::push_decimal(&mut out, scenes.len() as u64);
        out.append(" scenes");
    }
    out
}

/// Whether the free camera parks: a pointer is over some interface node. Each pointer is given by
/// whether the things it hovers are interface nodes.
pub fn parks(pointers: &Vec<Vec<bool>>) -> (r: bool)
    ensures
        r == exists|p: int, h: int|
            #![trigger pointers@[p]@[h]]
            0 <= p < pointers@.len() && 0 <= h < pointers@[p]@.len() && pointers@[p]@[h],
{
    for p in 0..pointers.len()
        invariant
            forall|q: int, h: int|
                #![trigger pointers@[q]@[h]]
                0 <= q < p && 0 <= h < pointers@[q]@.len() ==> !pointers@[q]@[h],
    {
        let hovered = &pointers[p];
        for h in 0..hovered.len()
            invariant
                p < pointers@.len(),
                hovered@ == pointers@[p as int]@,
                forall|k: int| 0 <= k < h ==> !(#[trigger] pointers@[p as int]@[k]),
        {
            if hovered[h] {
                assert(pointers@[p as int]@[h as int]);
                return true;
            }
        }
    }
    false
}

/// One channel colours of the floor's lines, as sRGB bytes.
pub open spec fn floor_color(x: int, y: int) -> (u8, u8, u8) {
    if x < 2 || y < 2 {
        (66, 71, 81)
    } else if x % 32 == 0 || y % 32 == 0 {
        (30, 33, 38)
    } else {
        (14, 14, 16)
    }
}

/// The bytes of texel `k` of the floor's tile, 256 to a row.
pub open spec fn floor_texel(k: int) -> Seq<u8> {
    let c = floor_color(k % 256, k / 256);
    seq![c.0, c.1, c.2, 255]
}

/// The bytes of the first `n` texels of the floor's tile.
pub open spec fn floor_bytes(n: nat) -> Seq<u8>
    decreases n,
{
    if n == 0 {
        seq![]
    } else {
        floor_bytes((n - 1) as nat) + floor_texel(n - 1)
    }
}

/// One tile of the floor's grid: eight cells square, with a heavier line on the tile boundary. A
/// line sits on the low edge of a cell; the heavy one is two pixels wide.
pub fn grid_texture() -> (r: Vec<u8>)
    ensures
        r@ == floor_bytes(256 * 256),
{
    let mut data: Vec<u8> = Vec::new();
    for k in 0u32..65536
        invariant
            data@ == floor_bytes(k as nat),
    {
        let x: u32 = k % 256;
        let y: u32 = k / 256;
        let (r, g, b): (u8, u8, u8) = if x < 2 || y < 2 {
            (66, 71, 81)
        } else if x % 32 == 0 || y % 32 == 0 {
            (30, 33, 38)
        } else {
            (14, 14, 16)
        };
        data.push(r);
        data.push(g);
        data.push(b);
        data.push(255);
        assert(data@ =~= floor_bytes(k as nat) + floor_texel(k as int));
    }
    data
}

/// The tile has four bytes per texel.
pub proof fn floor_length(n: nat)
    ensures
        floor_bytes(n).len() == 4 * n,
    decreases n,
{
    if n > 0 {
        floor_length((n - 1) as nat);
    }
}

/// The tile's left and top edges are heavy lines all along.
pub proof fn tile_edges_are_heavy(k: int)
    requires
        0 <= k < 256,
    ensures
        floor_color(0, k) == (66u8, 71u8, 81u8),
        floor_color(k, 0) == (66u8, 71u8, 81u8),
{
}

/// The floor reflects some light and swallows some, wherever it is lit.
pub proof fn floor_is_neither_black_nor_white(x: int, y: int)
    ensures
        0 < floor_color(x, y).0 < 255,
        0 < floor_color(x, y).1 < 255,
        0 < floor_color(x, y).2 < 255,
{
}

/// The floor's tile has a heavy line two pixels wide along its low edges, a light one along the low
/// edge of each of its eight cells, and is plain in between; every pixel is opaque.
pub proof fn floor_lines_bound_cells(x: int, y: int, n: nat)
    requires
        0 <= x < 256,
        0 <= y < 256,
        256 * y + x < n,
    ensures
        ({
            let at = 4 * (256 * y + x);
            let f = floor_bytes(n);
            let pixel = |r: u8, g: u8, b: u8| f.subrange(at, at + 4) == seq![r, g, b, 255u8];
            &&& x < 2 || y < 2 ==> pixel(66, 71, 81)
            &&& x >= 2 && y >= 2 && (exists|c: int| 1 <= c < 8 && (x == #[trigger] (32 * c) || y == 32
                * c)) ==> pixel(30, 33, 38)
            &&& x >= 2 && y >= 2 && (forall|c: int| 1 <= c < 8 ==> x != #[trigger] (32 * c) && y != 32
                * c) ==> pixel(14, 14, 16)
        }),
{
    let k = 256 * y + x;
    assert(k % 256 == x && k / 256 == y);
    lemma_floor_at(n, k);
    if x >= 2 && y >= 2 && forall|c: int| 1 <= c < 8 ==> x != #[trigger] (32 * c) && y != 32 * c {
        assert(x == 32 * (x / 32) + x % 32);
        assert(y == 32 * (y / 32) + y % 32);
        let (c, d) = (x / 32, y / 32);
        assert(1 <= c < 8 ==> x != 32 * c && y != 32 * c);
        assert(1 <= d < 8 ==> x != 32 * d && y != 32 * d);
    }
    if x >= 2 && y >= 2 && exists|c: int| 1 <= c < 8 && (x == #[trigger] (32 * c) || y == 32 * c) {
        let c = choose|c: int| 1 <= c < 8 && (x == #[trigger] (32 * c) || y == 32 * c);
        assert(x % 32 == 0 || y % 32 == 0);
    }
}

proof fn lemma_floor_at(n: nat, k: int)
    requires
        0 <= k < n,
    ensures
        floor_bytes(n).subrange(4 * k, 4 * k + 4) == floor_texel(k),
    decreases n,
{
    floor_length(n);
    floor_length((n - 1) as nat);
    let less = floor_bytes((n - 1) as nat);
    if k < n - 1 {
        lemma_floor_at((n - 1) as nat, k);
        assert(floor_bytes(n).subrange(4 * k, 4 * k + 4) =~= less.subrange(4 * k, 4 * k + 4));
    } else {
        assert(floor_bytes(n).subrange(4 * k, 4 * k + 4) =~= floor_texel(k));
    }
}

/// A vector's numbers are what stands between its commas, without the blanks around them.
pub proof fn vectors_split_at_commas(x: Seq<char>, y: Seq<char>, z: Seq<char>)
    requires
        !x.contains(','),
        !y.contains(','),
        !z.contains(','),
    ensures
        vector_parts(x + seq![','] + (y + seq![','] + z)) == seq![
            text::trimmed(x),
            text::trimmed(y),
            text::trimmed(z),
        ],
{
    let rest = y + seq![','] + z;
    text::joined_texts_split(x, ',', rest);
    text::joined_texts_split(y, ',', z);
    text::whole_text_stays(z, ',');
    let all = x + seq![','] + rest;
    assert(text::parts_of(z, ',') =~= seq![z]);
    assert(text::parts_of(rest, ',') =~= seq![y, z]);
    assert(text::parts_of(all, ',') =~= seq![x, y, z]);
    assert(vector_parts(all) =~= seq![text::trimmed(x), text::trimmed(y), text::trimmed(z)]);
}

/// The skies are the files that end in `.hdr` or `.exr`, in either letter case, each below `sky/`
/// and in order.
pub proof fn skies_are_known_by_their_ending(names: Seq<Seq<char>>, stem: Seq<char>)
    ensures
        sky_paths(names.push(stem + ".hdr"@)) == sky_paths(names).push("sky/"@ + stem + ".hdr"@),
        sky_paths(names.push(stem + ".EXR"@)) == sky_paths(names).push("sky/"@ + stem + ".EXR"@),
        sky_paths(names.push(stem + ".png"@)) == sky_paths(names),
        sky_paths(names.push(stem + ".ktx2"@)) == sky_paths(names),
        sky_paths(Seq::<Seq<char>>::empty()).len() == 0,
{
    reveal_strlit(".hdr");
    reveal_strlit(".EXR");
    reveal_strlit(".png");
    reveal_strlit(".ktx2");
    reveal_strlit("hdr");
    reveal_strlit("exr");
    assert(".hdr"@ =~= seq!['.'] + seq!['h', 'd', 'r']);
    assert(".EXR"@ =~= seq!['.'] + seq!['E', 'X', 'R']);
    assert(".png"@ =~= seq!['.'] + seq!['p', 'n', 'g']);
    assert(".ktx2"@ =~= seq!['.'] + seq!['k', 't', 'x', '2']);
    lemma_last_part(stem, seq!['h', 'd', 'r']);
    lemma_last_part(stem, seq!['E', 'X', 'R']);
    lemma_last_part(stem, seq!['p', 'n', 'g']);
    lemma_last_part(stem, seq!['k', 't', 'x', '2']);
    assert(lower_ascii_text(seq!['h', 'd', 'r']) =~= "hdr"@);
    assert(lower_ascii_text(seq!['E', 'X', 'R']) =~= "exr"@);
    assert(lower_ascii_text(seq!['p', 'n', 'g'])[0] == 'p');
    assert(lower_ascii_text(seq!['k', 't', 'x', '2']).len() == 4);
    assert(stem + ".hdr"@ =~= stem + seq!['.'] + seq!['h', 'd', 'r']);
    assert(stem + ".EXR"@ =~= stem + seq!['.'] + seq!['E', 'X', 'R']);
    assert(stem + ".png"@ =~= stem + seq!['.'] + seq!['p', 'n', 'g']);
    assert(stem + ".ktx2"@ =~= stem + seq!['.'] + seq!['k', 't', 'x', '2']);
    assert(names.push(stem + ".hdr"@).drop_last() =~= names);
    assert(names.push(stem + ".EXR"@).drop_last() =~= names);
    assert(names.push(stem + ".png"@).drop_last() =~= names);
    assert(names.push(stem + ".ktx2"@).drop_last() =~= names);
    assert("sky/"@ + (stem + ".hdr"@) =~= "sky/"@ + stem + ".hdr"@);
    assert("sky/"@ + (stem + ".EXR"@) =~= "sky/"@ + stem + ".EXR"@);
}

proof fn lemma_last_part(stem: Seq<char>, ending: Seq<char>)
    requires
        !ending.contains('.'),
    ensures
        text::parts_of(stem + seq!['.'] + ending, '.').last() == ending,
    decreases stem.len(),
{
    let all = stem + seq!['.'] + ending;
    if stem.contains('.') {
        lemma_split_first(stem);
        let a = text::up_to(stem, '.');
        let b = text::following(stem, '.')->0;
        assert(all =~= a + seq!['.'] + (b + seq!['.'] + ending));
        text::joined_texts_split(a, '.', b + seq!['.'] + ending);
        lemma_last_part(b, ending);
        assert(text::parts_of(all, '.') =~= seq![a] + text::parts_of(b + seq!['.'] + ending, '.'));
        lemma_parts_some(b + seq!['.'] + ending);
    } else {
        text::joined_texts_split(stem, '.', ending);
        text::whole_text_stays(ending, '.');
        assert(text::parts_of(ending, '.') =~= seq![ending]);
        assert(text::parts_of(all, '.') =~= seq![stem] + seq![ending]);
    }
}

proof fn lemma_parts_some(s: Seq<char>)
    ensures
        text::parts_of(s, '.').len() > 0,
{
}

proof fn lemma_split_first(s: Seq<char>)
    requires
        s.contains('.'),
    ensures
        text::following(s, '.') is Some,
        text::following(s, '.')->0.len() < s.len(),
        !text::up_to(s, '.').contains('.'),
        s == text::up_to(s, '.') + seq!['.'] + text::following(s, '.')->0,
    decreases s.len(),
{
    if s[0] == '.' {
        assert(s =~= Seq::<char>::empty() + seq!['.'] + s.skip(1));
    } else {
        let k = choose|k: int| 0 <= k < s.len() && s[k] == '.';
        assert(s.skip(1)[k - 1] == '.');
        lemma_split_first(s.skip(1));
        let a = text::up_to(s.skip(1), '.');
        let all = seq![s[0]] + a;
        assert forall|i: int| 0 <= i < all.len() implies all[i] != '.' by {
            if i > 0 {
                assert(a.contains(a[i - 1]));
            }
        }
        assert(s =~= seq![s[0]] + s.skip(1));
        assert(s =~= text::up_to(s, '.') + seq!['.'] + text::following(s, '.')->0);
    }
}

/// A scene below the asset root is told by its path from there; one outside it by its own, without
/// the root's name before it. What is no scene is none.
pub proof fn scenes_are_told_from_the_root(path: Seq<char>, below: Seq<char>)
    ensures
        scene_path(path + ".bsn"@, Some(below)) == Some(below),
        scene_path("assets/"@ + path + ".bsn"@, None) == Some(path + ".bsn"@),
        !text::begins_with(path + ".bsn"@, "assets/"@) ==> scene_path(path + ".bsn"@, None) == Some(
            path + ".bsn"@,
        ),
        scene_path(path + ".glb"@, Some(below)) is None,
{
    reveal_strlit(".bsn");
    reveal_strlit(".glb");
    let a = path + ".bsn"@;
    assert(a.subrange(a.len() - 4, a.len() as int) =~= ".bsn"@);
    let b = "assets/"@ + path + ".bsn"@;
    assert(b.subrange(b.len() - 4, b.len() as int) =~= ".bsn"@);
    assert(b.subrange(0, "assets/"@.len() as int) =~= "assets/"@);
    assert(b.skip("assets/"@.len() as int) =~= a);
    let c = path + ".glb"@;
    assert(c.subrange(c.len() - 4, c.len() as int)[1] == 'g');
    assert(".bsn"@[1] == 'b');
}

/// A cycle over skies begins with the procedural one, and every sky found stands in it.
pub proof fn cycles_hold_every_sky(
    paths: Seq<Seq<char>>,
    start: Option<Seq<char>>,
    entries: Seq<Option<Seq<char>>>,
    index: int,
    i: int,
)
    requires
        is_cycle(paths, start, entries, index),
        0 <= i < paths.len(),
    ensures
        entries.len() > 0,
        entries[0] is None,
        entries.contains(Some(paths[i])),
        0 <= index < entries.len(),
        entries[index] == start,
{
    let at = choose|at: Seq<usize>| #[trigger]
        order::is_stable_order(at, order::texts_le(paths), paths.len()) && starts_at(
            cycle_of(paths, at),
            start,
            entries,
            index,
        );
    let known = cycle_of(paths, at);
    order::stable_order_lists_all(at, order::texts_le(paths), paths.len(), i);
    let k = choose|k: int| 0 <= k < at.len() && at[k] == i;
    assert(known[k + 1] == Some(paths[i]));
    assert(entries[k + 1] == known[k + 1]);
}

/// A step goes on by one, from the last sky to the first, and back by one, from the first to the
/// last.
pub proof fn steps_go_by_one(n: nat, index: int)
    requires
        0 <= index < n,
    ensures
        stepped(n, index, true) == if index + 1 < n {
            index + 1
        } else {
            0
        },
        stepped(n, index, false) == if index > 0 {
            index - 1
        } else {
            n - 1
        },
{
    let m = n as int;
    if index + 1 < n {
        vstd::arithmetic::div_mod::lemma_small_mod((index + 1) as nat, n);
    } else {
        vstd::arithmetic::div_mod::lemma_mod_self_0(m);
    }
    if index > 0 {
        vstd::arithmetic::div_mod::lemma_small_mod((index - 1) as nat, n);
        vstd::arithmetic::div_mod::lemma_mod_add_multiples_vanish(index - 1, m);
        assert(index + n - 1 == m + (index - 1));
    } else {
        vstd::arithmetic::div_mod::lemma_small_mod((n - 1) as nat, n);
    }
}

/// Letters of a sky's ending count in either case.
pub proof fn endings_count_in_either_case(c: char)
    ensures
        'A' <= c <= 'Z' ==> lower_ascii(c) as int == c as int + 32,
        !('A' <= c <= 'Z') ==> lower_ascii(c) == c,
{
}

} // verus!
