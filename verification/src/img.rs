//! Textures: which are alpha cutouts, which are raw height maps, and what becomes of those.

use vstd::prelude::*;
use crate::text;

verus! {

/// Alpha below this counts as a hole (cut away).
pub const ALPHA_HOLE: u8 = 128;

/// Alpha at/above this counts as solid.
pub const ALPHA_SOLID: u8 = 200;

/// A decoded image: four bytes (red, green, blue, alpha) per pixel, row by row.
pub struct Rgba {
    pub width: u32,
    pub height: u32,
    pub data: Vec<u8>,
}

/// What an [`Rgba`] holds.
pub type RgbaView = (u32, u32, Seq<u8>);

/// What an optional image holds.
pub open spec fn opt_rgba(i: Option<Rgba>) -> Option<RgbaView> {
    match i {
        Some(v) => Some((v.width, v.height, v.data@)),
        None => None,
    }
}

/// How many of the first `n` pixels have an alpha below the hole limit.
pub open spec fn hole_count(data: Seq<u8>, n: nat) -> nat
    decreases n,
{
    if n == 0 {
        0
    } else {
        hole_count(data, (n - 1) as nat) + if data[4 * (n - 1) + 3] < ALPHA_HOLE {
            1nat
        } else {
            0nat
        }
    }
}

/// How many of the first `n` pixels have an alpha at or above the solid limit.
pub open spec fn solid_count(data: Seq<u8>, n: nat) -> nat
    decreases n,
{
    if n == 0 {
        0
    } else {
        solid_count(data, (n - 1) as nat) + if data[4 * (n - 1) + 3] >= ALPHA_SOLID {
            1nat
        } else {
            0nat
        }
    }
}

/// Whether an image is a genuine binary alpha cutmask: at least one pixel in a hundred is a hole,
/// and at least one in twenty is solid.
pub open spec fn is_cutmask(data: Seq<u8>) -> bool {
    let n = data.len() / 4;
    n > 0 && 100 * hole_count(data, n) >= n && 20 * solid_count(data, n) >= n
}

/// Whether a decoded base-color image is a genuine binary alpha cutmask (the foliage heuristic).
pub fn classify_cutmask(rgba: &Rgba) -> (r: bool)
    requires
        rgba.data@.len() == 4 * (rgba.width * rgba.height),
    ensures
        r == is_cutmask(rgba.data@),
{
    let n: usize = rgba.data.len() / 4;
    let mut holes: usize = 0;
    let mut solid: usize = 0;
    for i in 0..n
        invariant
            4 * n <= rgba.data@.len(),
            n == rgba.data@.len() / 4,
            holes <= i,
            solid <= i,
            holes == hole_count(rgba.data@, i as nat),
            solid == solid_count(rgba.data@, i as nat),
    {
        assert(4 * i + 3 < rgba.data.len());
        let a: u8 = rgba.data[4 * i + 3];
        if a < ALPHA_HOLE {
            holes = holes + 1;
        }
        if a >= ALPHA_SOLID {
            solid = solid + 1;
        }
    }
    n > 0 && 100 * (holes as u128) >= n as u128 && 20 * (solid as u128) >= n as u128
}

/// Whether decoded pixels are those of a cutmask; an image that did not decode is not.
pub open spec fn pixels_are_cutmask(pixels: Option<RgbaView>) -> bool {
    match pixels {
        Some((w, h, data)) => data.len() == 4 * (w * h) && is_cutmask(data),
        None => false,
    }
}

/// Tests the alpha histogram of a decoded base-color texture for a genuine binary cutmask. A
/// texture that could not be read or decoded is treated as opaque.
pub fn texture_is_cutmask(pixels: &Option<Rgba>) -> (r: bool)
    ensures
        r == pixels_are_cutmask(opt_rgba(*pixels)),
{
    match pixels {
        Some(rgba) => {
            assert(rgba.width * rgba.height <= 0xffff_ffff * 0xffff_ffff) by (nonlinear_arith)
                requires
                    rgba.width <= 0xffff_ffff,
                    rgba.height <= 0xffff_ffff,
            ;
            let area: u64 = rgba.width as u64 * rgba.height as u64;
            if rgba.data.len() as u128 == 4 * (area as u128) {
                classify_cutmask(rgba)
            } else {
                false
            }
        },
        None => false,
    }
}

/// The samples of a picture, at the depth they are stored in.
pub enum Samples {
    Eight(Vec<u8>),
    Sixteen(Vec<u16>),
}

/// A decoded picture: `channels` samples for each pixel, row by row. With two or four channels the
/// last one is alpha.
pub struct Picture {
    pub width: u32,
    pub height: u32,
    pub channels: usize,
    pub samples: Samples,
}

/// What a [`Picture`] holds, with the largest value that a sample can have.
pub ghost struct PictureView {
    pub width: u32,
    pub height: u32,
    pub channels: usize,
    pub top: int,
    pub samples: Seq<int>,
}

impl View for Picture {
    type V = PictureView;

    open spec fn view(&self) -> PictureView {
        PictureView {
            width: self.width,
            height: self.height,
            channels: self.channels,
            top: match self.samples {
                Samples::Eight(_) => 255,
                Samples::Sixteen(_) => 65535,
            },
            samples: match self.samples {
                Samples::Eight(v) => v@.map_values(|x: u8| x as int),
                Samples::Sixteen(v) => v@.map_values(|x: u16| x as int),
            },
        }
    }
}

/// Whether sample `i` of a picture is an alpha.
pub open spec fn is_alpha(channels: usize, i: int) -> bool {
    (channels == 2 && i % 2 == 1) || (channels == 4 && i % 4 == 3)
}

/// A picture with its colours inverted: each is as far from the largest value as it was from zero.
pub open spec fn inverted(p: PictureView) -> PictureView {
    PictureView {
        samples: Seq::new(
            p.samples.len(),
            |i: int|
                if is_alpha(p.channels, i) {
                    p.samples[i]
                } else {
                    p.top - p.samples[i]
                },
        ),
        ..p
    }
}

fn sample_is_alpha(channels: usize, i: usize) -> (r: bool)
    ensures
        r == is_alpha(channels, i as int),
{
    (channels == 2 && i % 2 == 1) || (channels == 4 && i % 4 == 3)
}

/// Invert a depth/height map: `max - v` per colour channel, leaving alpha untouched, at the depth
/// it has.
pub fn invert_depth(img: &Picture) -> (r: Picture)
    ensures
        r@ == inverted(img@),
{
    let samples = match &img.samples {
        Samples::Eight(v) => {
            let mut out: Vec<u8> = Vec::new();
            for i in 0..v.len()
                invariant
                    out@.len() == i,
                    forall|k: int|
                        0 <= k < i ==> #[trigger] out@[k] == (if is_alpha(img.channels, k) {
                            v@[k] as int
                        } else {
                            255 - v@[k]
                        }),
            {
                let x: u8 = if sample_is_alpha(img.channels, i) {
                    v[i]
                } else {
                    255 - v[i]
                };
                out.push(x);
            }
            Samples::Eight(out)
        },
        Samples::Sixteen(v) => {
            let mut out: Vec<u16> = Vec::new();
            for i in 0..v.len()
                invariant
                    out@.len() == i,
                    forall|k: int|
                        0 <= k < i ==> #[trigger] out@[k] == (if is_alpha(img.channels, k) {
                            v@[k] as int
                        } else {
                            65535 - v@[k]
                        }),
            {
                let x: u16 = if sample_is_alpha(img.channels, i) {
                    v[i]
                } else {
                    65535 - v[i]
                };
                out.push(x);
            }
            Samples::Sixteen(out)
        },
    };
    let r = Picture { width: img.width, height: img.height, channels: img.channels, samples };
    assert(r@.samples =~= inverted(img@).samples);
    r
}

fn copy_picture(img: &Picture) -> (r: Picture)
    ensures
        r@ == img@,
{
    let samples = match &img.samples {
        Samples::Eight(v) => Samples::Eight(v.clone()),
        Samples::Sixteen(v) => Samples::Sixteen(v.clone()),
    };
    let r = Picture { width: img.width, height: img.height, channels: img.channels, samples };
    assert(r@.samples =~= img@.samples);
    r
}

/// Canonicalize a displacement map to the brighter-is-deeper convention: invert it when the source
/// is a raw height map, otherwise pass it through unchanged. The source is never changed, so
/// doing it again gives the same.
pub fn normalize_depth_map(src: &Picture, looks_like_height: bool) -> (r: Picture)
    ensures
        r@ == (if looks_like_height {
            inverted(src@)
        } else {
            src@
        }),
        r@ == as_depth(src@, looks_like_height),
{
    if looks_like_height {
        invert_depth(src)
    } else {
        copy_picture(src)
    }
}

/// Inverting twice gives the picture back.
pub proof fn inverting_twice_changes_nothing(p: PictureView)
    ensures
        inverted(inverted(p)) == p,
{
    assert(inverted(inverted(p)).samples =~= p.samples);
}

/// What becomes of a displacement map.
pub enum MapOutput {
    /// Its exact bytes are copied.
    Copy,
    /// This picture is written in its place.
    Write(Picture),
}

/// Decides what becomes of a displacement map: a raw height map that could be decoded is written
/// inverted; one in depth convention already is copied, and so is one that could not be decoded.
pub fn map_output(looks_like_height: bool, decoded: &Option<Picture>) -> (r: MapOutput)
    ensures
        match *decoded {
            Some(p) if looks_like_height => r is Write && r->Write_0@ == inverted(p@),
            _ => r is Copy,
        },
{
    match decoded {
        Some(p) => if looks_like_height {
            MapOutput::Write(normalize_depth_map(p, true))
        } else {
            MapOutput::Copy
        },
        None => MapOutput::Copy,
    }
}

/// The base key of a displacement map's file: what stands before `_displace` in its lowercase
/// name. Files with an `n_` before are normal maps and have none.
pub open spec fn displacement_key(lower: Seq<char>, key: Option<Seq<char>>) -> bool {
    if text::begins_with(lower, "n_"@) {
        key is None
    } else {
        match key {
            Some(k) => exists|i: int|
                text::first_at(lower, "_displace"@, i) && k == #[trigger] lower.take(i),
            None => !text::contains_text(lower, "_displace"@),
        }
    }
}

/// The base key of a displacement map's file, if it is one.
pub fn displacement_base(file: &str) -> (r: Option<String>)
    ensures
        displacement_key(text::lowercased(file@), crate::document::opt_text(r)),
{
    let lower = text::to_lower(file);
    if text::starts_with(lower.as_str(), "n_") {
        return None;
    }
    let chars = text::chars_of(lower.as_str());
    match text::find_text(&chars, &text::chars_of("_displace")) {
        Some(i) => {
            let key = lower.as_str().substring_char(0, i);
            assert(key@ =~= lower@.take(i as int));
            Some(key.to_owned())
        },
        None => None,
    }
}

/// Whether `maps` are the displacement maps among `files`, in order: the base key and the file.
pub open spec fn indexes(files: Seq<String>, maps: Seq<(String, String)>) -> bool
    decreases files.len(),
{
    if files.len() == 0 {
        maps.len() == 0
    } else if displacement_key(text::lowercased(files.last()@), None) {
        indexes(files.drop_last(), maps)
    } else {
        &&& maps.len() > 0
        &&& displacement_key(text::lowercased(files.last()@), Some(maps.last().0@))
        &&& maps.last().1@ == files.last()@
        &&& indexes(files.drop_last(), maps.drop_last())
    }
}

/// Finds the displacement maps among a directory's files: `(base_key, filename)` for each.
pub fn displacement_index(files: &Vec<String>) -> (r: Vec<(String, String)>)
    ensures
        indexes(files@, r@),
{
    let mut maps: Vec<(String, String)> = Vec::new();
    for i in 0..files.len()
        invariant
            indexes(files@.take(i as int), maps@),
    {
        let ghost now = files@.take(i + 1);
        assert(now.drop_last() =~= files@.take(i as int));
        assert(now.last() == files@[i as int]);
        let ghost lower = text::lowercased(files@[i as int]@);
        let ghost before = maps@;
        match displacement_base(files[i].as_str()) {
            Some(k) => {
                assert(!displacement_key(lower, None)) by {
                    let at = choose|at: int|
                        text::first_at(lower, "_displace"@, at) && k@ == #[trigger] lower.take(at);
                    assert(text::occurs_at(lower, "_displace"@, at));
                }
                maps.push((k, files[i].clone()));
                assert(maps@.drop_last() =~= before);
            },
            None => {},
        }
    }
    assert(files@.take(files@.len() as int) =~= files@);
    maps
}

/// What is known of a material's alpha cutout.
pub enum CutmaskAnswer {
    /// It is or is not one.
    Known(bool),
    /// The texture at this path must be looked at.
    Look(String),
}

/// What a [`CutmaskAnswer`] holds.
pub ghost enum CutmaskView {
    Known(bool),
    Look(Seq<char>),
}

impl View for CutmaskAnswer {
    type V = CutmaskView;

    open spec fn view(&self) -> CutmaskView {
        match *self {
            CutmaskAnswer::Known(b) => CutmaskView::Known(b),
            CutmaskAnswer::Look(p) => CutmaskView::Look(p@),
        }
    }
}

/// What is known of a material's alpha cutout: glass is none, nor is a material without a
/// texture; a texture seen before is what it was; any other must be looked at, with its
/// separators turned.
pub open spec fn cutmask_answer(
    illumination: Option<u8>,
    texture: Option<Seq<char>>,
    cache: Seq<(String, bool)>,
) -> CutmaskView {
    if illumination == Some(4u8) {
        CutmaskView::Known(false)
    } else {
        match texture {
            None => CutmaskView::Known(false),
            Some(t) => match crate::repairs::known_cutmask(cache, t) {
                Some(c) => CutmaskView::Known(c),
                None => CutmaskView::Look(text::replaced(t, '\\', '/')),
            },
        }
    }
}

fn cached(cache: &Vec<(String, bool)>, tex: &str) -> (r: Option<bool>)
    ensures
        r == crate::repairs::known_cutmask(cache@, tex@),
{
    assert(cache@.skip(0) =~= cache@);
    for i in 0..cache.len()
        invariant
            crate::repairs::known_cutmask(cache@, tex@) == crate::repairs::known_cutmask(
                cache@.skip(i as int),
                tex@,
            ),
    {
        assert(cache@.skip(i as int).skip(1) =~= cache@.skip(i + 1));
        if text::same_text(cache[i].0.as_str(), tex) {
            return Some(cache[i].1);
        }
    }
    None
}

/// Whether a material is a genuine alpha cutout, as far as the textures seen so far tell.
pub fn material_is_cutmask(
    illumination: Option<u8>,
    texture: &Option<String>,
    cache: &Vec<(String, bool)>,
) -> (r: CutmaskAnswer)
    ensures
        r@ == cutmask_answer(illumination, crate::document::opt_text(*texture), cache@),
{
    if let Some(4) = illumination {
        return CutmaskAnswer::Known(false);
    }
    match texture {
        None => CutmaskAnswer::Known(false),
        Some(t) => match cached(cache, t.as_str()) {
            Some(c) => CutmaskAnswer::Known(c),
            None => CutmaskAnswer::Look(text::replace_char(t.as_str(), '\\', '/')),
        },
    }
}

/// The pixels of an image whose alpha is below 128.
pub open spec fn holes(data: Seq<u8>) -> Set<int> {
    Set::new(|i: int| 0 <= i < data.len() / 4 && data[4 * i + 3] < 128)
}

/// The pixels of an image whose alpha is 200 or more.
pub open spec fn solids(data: Seq<u8>) -> Set<int> {
    Set::new(|i: int| 0 <= i < data.len() / 4 && data[4 * i + 3] >= 200)
}

proof fn lemma_holes(data: Seq<u8>, n: nat)
    requires
        n <= data.len() / 4,
    ensures
        ({
            let s = Set::new(|i: int| 0 <= i < n && data[4 * i + 3] < 128);
            s.finite() && s.len() == hole_count(data, n)
        }),
        ({
            let s = Set::new(|i: int| 0 <= i < n && data[4 * i + 3] >= 200);
            s.finite() && s.len() == solid_count(data, n)
        }),
    decreases n,
{
    let s = Set::new(|i: int| 0 <= i < n && data[4 * i + 3] < 128);
    let t = Set::new(|i: int| 0 <= i < n && data[4 * i + 3] >= 200);
    if n == 0 {
        assert(s =~= Set::empty());
        assert(t =~= Set::empty());
    } else {
        let m = (n - 1) as nat;
        lemma_holes(data, m);
        let s0 = Set::new(|i: int| 0 <= i < m && data[4 * i + 3] < 128);
        let t0 = Set::new(|i: int| 0 <= i < m && data[4 * i + 3] >= 200);
        if data[4 * (n - 1) + 3] < 128 {
            assert(s =~= s0.insert(m as int));
        } else {
            assert(s =~= s0);
        }
        if data[4 * (n - 1) + 3] >= 200 {
            assert(t =~= t0.insert(m as int));
        } else {
            assert(t =~= t0);
        }
    }
}

/// An image is a cutmask exactly where it has pixels, at least one in a hundred of them has an
/// alpha below 128, and at least one in twenty has an alpha of 200 or more.
pub proof fn cutmasks_have_holes_and_solids(data: Seq<u8>)
    ensures
        holes(data).finite(),
        solids(data).finite(),
        is_cutmask(data) <==> data.len() >= 4 && data.len() / 4 <= 100 * holes(data).len()
            && data.len() / 4 <= 20 * solids(data).len(),
{
    lemma_holes(data, data.len() / 4);
}

/// Cutting away or filling in a pixel that is neither a hole nor solid keeps a cutmask one.
pub proof fn clearer_cutmasks_stay(data: Seq<u8>, i: int, alpha: u8)
    requires
        is_cutmask(data),
        0 <= i < data.len() / 4,
        128 <= data[4 * i + 3] < 200,
        alpha < 128 || alpha >= 200,
    ensures
        is_cutmask(data.update(4 * i + 3, alpha)),
{
    let other = data.update(4 * i + 3, alpha);
    cutmasks_have_holes_and_solids(data);
    cutmasks_have_holes_and_solids(other);
    assert(holes(data).subset_of(holes(other))) by {
        assert forall|k: int| holes(data).contains(k) implies holes(other).contains(k) by {
            assert(4 * k + 3 != 4 * i + 3);
        }
    }
    assert(solids(data).subset_of(solids(other))) by {
        assert forall|k: int| solids(data).contains(k) implies solids(other).contains(k) by {
            assert(4 * k + 3 != 4 * i + 3);
        }
    }
    vstd::set_lib::lemma_len_subset(holes(data), holes(other));
    vstd::set_lib::lemma_len_subset(solids(data), solids(other));
}

/// Only the alpha of a pixel counts: images with the same alphas are both cutmasks or neither.
pub proof fn colors_do_not_cut(data: Seq<u8>, other: Seq<u8>)
    requires
        data.len() == other.len(),
        forall|i: int|
            0 <= i < data.len() && i % 4 == 3 ==> #[trigger] data[i] == other[i],
    ensures
        is_cutmask(data) == is_cutmask(other),
{
    cutmasks_have_holes_and_solids(data);
    cutmasks_have_holes_and_solids(other);
    assert forall|k: int| 0 <= k < data.len() / 4 implies #[trigger] data[4 * k + 3] == other[4 * k
        + 3] by {
        assert((4 * k + 3) % 4 == 3);
    }
    assert(holes(data) =~= holes(other));
    assert(solids(data) =~= solids(other));
}

/// A height turned into a depth is as far from the top as it was from the bottom, for eight bits
/// and for sixteen, at every colour sample; the alpha of two or four channels stays, and so does
/// the size.
pub proof fn heights_become_depths(p: Picture, q: Picture, i: int)
    requires
        q@ == inverted(p@),
        0 <= i < p@.samples.len(),
    ensures
        q.width == p.width && q.height == p.height && q.channels == p.channels,
        q@.samples.len() == p@.samples.len(),
        (p.channels == 2 && i % 2 == 1) || (p.channels == 4 && i % 4 == 3) ==> q@.samples[i]
            == p@.samples[i],
        p.channels == 1 || p.channels == 3 || (p.channels == 2 && i % 2 == 0) || (p.channels == 4
            && i % 4 != 3) ==> q@.samples[i] + p@.samples[i] == (match p.samples {
            Samples::Eight(_) => 255int,
            Samples::Sixteen(_) => 65535,
        }),
{
}

/// A material whose texture was not seen is looked at under a path with forward slashes, glass
/// never, and a texture seen before keeps its verdict.
pub proof fn glass_is_no_cutout(texture: Option<Seq<char>>, cache: Seq<(String, bool)>)
    ensures
        cutmask_answer(Some(4u8), texture, cache) == CutmaskView::Known(false),
        forall|illumination: Option<u8>| #[trigger]
            cutmask_answer(illumination, None, cache) == CutmaskView::Known(false),
        texture matches Some(t) ==> cache.len() > 0 && cache[0].0@ == t ==> cutmask_answer(
            None,
            texture,
            cache,
        ) == CutmaskView::Known(cache[0].1),
        texture matches Some(t) ==> cache.len() == 0 ==> (cutmask_answer(None, texture, cache)
            matches CutmaskView::Look(p) && p.len() == t.len() && forall|i: int|
            0 <= i < p.len() ==> #[trigger] p[i] == (if t[i] == '\\' {
                '/'
            } else {
                t[i]
            })),
{
}

/// A picture's largest value is that of its samples' width, and its samples are its own.
pub proof fn pictures_keep_their_samples(p: Picture, i: int)
    ensures
        p@.width == p.width,
        p@.height == p.height,
        p@.channels == p.channels,
        match p.samples {
            Samples::Eight(v) => p@.top == 255 && p@.samples.len() == v@.len() && (0 <= i < v@.len()
                ==> p@.samples[i] == v@[i]),
            Samples::Sixteen(v) => p@.top == 65535 && p@.samples.len() == v@.len() && (0 <= i < v@.len()
                ==> p@.samples[i] == v@[i]),
        },
{
}

/// An image is a cutmask where its pixels are all there and are those of one; one that did not
/// decode is none.
pub proof fn images_are_judged_by_their_pixels(w: u32, h: u32, data: Seq<u8>)
    ensures
        !pixels_are_cutmask(None),
        data.len() == 4 * (w * h) && is_cutmask(data) ==> pixels_are_cutmask(Some((w, h, data))),
        pixels_are_cutmask(Some((w, h, data))) ==> is_cutmask(data),
{
}

/// A displacement map's key is what its name begins with, up to the mark; a normal map has none.
pub proof fn displacement_keys_precede_the_mark(lower: Seq<char>, key: Seq<char>)
    requires
        displacement_key(lower, Some(key)),
    ensures
        !text::begins_with(lower, "n_"@),
        text::begins_with(lower, key + "_displace"@),
        forall|j: int| 0 <= j < key.len() ==> !#[trigger] text::occurs_at(lower, "_displace"@, j),
{
    let i = choose|i: int| text::first_at(lower, "_displace"@, i) && key == #[trigger] lower.take(i);
    let n = "_displace"@;
    assert(text::occurs_at(lower, n, i));
    assert(lower.subrange(0, i + n.len()) =~= key + lower.subrange(i, i + n.len()));
}

/// The displacement maps are those of the files, in order: one more file adds itself under its key,
/// or nothing where it is no displacement map.
pub proof fn displacement_maps_follow_files(
    files: Seq<String>,
    f: String,
    maps: Seq<(String, String)>,
)
    requires
        indexes(files.push(f), maps),
    ensures
        displacement_key(text::lowercased(f@), None) ==> indexes(files, maps),
        !displacement_key(text::lowercased(f@), None) ==> maps.len() > 0 && maps.last().1@ == f@
            && displacement_key(text::lowercased(f@), Some(maps.last().0@)) && indexes(
            files,
            maps.drop_last(),
        ),
        displacement_key(text::lowercased(f@), None) <==> text::begins_with(text::lowercased(f@), "n_"@)
            || !text::contains_text(text::lowercased(f@), "_displace"@),
{
    assert(files.push(f).drop_last() =~= files);
}

/// A displacement map in the brighter-is-deeper convention.
pub open spec fn as_depth(p: PictureView, looks_like_height: bool) -> PictureView {
    if looks_like_height {
        inverted(p)
    } else {
        p
    }
}

/// A height map's samples are turned over, but for an alpha's, and a depth map's are not; neither
/// changes its size.
pub proof fn only_heights_are_turned_over(p: PictureView, i: int)
    requires
        0 <= i < p.samples.len(),
    ensures
        as_depth(p, false) == p,
        as_depth(p, true).width == p.width && as_depth(p, true).height == p.height,
        as_depth(p, true).samples.len() == p.samples.len(),
        p.channels == 1 || p.channels == 3 ==> as_depth(p, true).samples[i] == p.top - p.samples[i],
        p.channels == 4 && i % 4 != 3 ==> as_depth(p, true).samples[i] == p.top - p.samples[i],
        p.channels == 4 && i % 4 == 3 ==> as_depth(p, true).samples[i] == p.samples[i],
{
}

/// Only the illumination of glass counts: under any other a material is judged as under none. A
/// texture seen before is judged by the first verdict on it, wherever that stands.
pub proof fn other_illuminations_do_not_count(
    illumination: Option<u8>,
    t: Seq<char>,
    cache: Seq<(String, bool)>,
    k: int,
)
    requires
        illumination != Some(4u8),
    ensures
        cutmask_answer(illumination, Some(t), cache) == cutmask_answer(None, Some(t), cache),
        0 <= k < cache.len() && cache[k].0@ == t && (forall|j: int|
            0 <= j < k ==> (#[trigger] cache[j]).0@ != t) ==> cutmask_answer(illumination, Some(t), cache)
            == CutmaskView::Known(cache[k].1),
{
    if 0 <= k < cache.len() && cache[k].0@ == t && forall|j: int|
        0 <= j < k ==> (#[trigger] cache[j]).0@ != t {
        crate::repairs::textures_are_known_by_their_file(cache, t, k);
    }
}

/// An answer keeps what it says.
pub proof fn answers_keep_their_words(a: CutmaskAnswer)
    ensures
        match a {
            CutmaskAnswer::Known(b) => a@ == CutmaskView::Known(b),
            CutmaskAnswer::Look(p) => a@ == CutmaskView::Look(p@),
        },
{
}

} // verus!
