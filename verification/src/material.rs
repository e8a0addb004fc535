//! Material fields of a scene: factors, textures, emission, alpha cutout and glass, with the
//! repairs for what an export lost.

use vstd::prelude::*;
use crate::document::{AlphaMode, Material, Number};
use crate::text;

verus! {

/// What an export lost, supplied per material because it cannot be derived from the file. Each
/// list holds a material name at most once.
pub struct Fixups {
    /// Base-colour tint by material name, linear, overriding the material's own factor.
    pub tints: Vec<(String, [Number; 4])>,
    /// Base-colour texture file name by material name, for a material whose reference was lost.
    pub textures: Vec<(String, String)>,
}

/// Where baked assets lie: the prefix of their paths, and the file of each extracted image.
pub struct Assets {
    pub asset_prefix: String,
    pub image_files: Vec<String>,
    pub fixups: Fixups,
}

/// The first texture that the fixups give a material.
pub open spec fn fixup_texture(list: Seq<(String, String)>, name: Seq<char>) -> Option<Seq<char>>
    decreases list.len(),
{
    if list.len() == 0 {
        None
    } else if list[0].0@ == name {
        Some(list[0].1@)
    } else {
        fixup_texture(list.skip(1), name)
    }
}

/// The first tint that the fixups give a material.
pub open spec fn fixup_tint(
    list: Seq<(String, [Number; 4])>,
    name: Seq<char>,
) -> Option<Seq<crate::document::NumberView>>
    decreases list.len(),
{
    if list.len() == 0 {
        None
    } else if list[0].0@ == name {
        Some(list[0].1@.map_values(|n: Number| n@))
    } else {
        fixup_tint(list.skip(1), name)
    }
}

/// The file of an image, where it was extracted.
pub open spec fn image_file(a: Assets, image: Option<usize>) -> Option<Seq<char>> {
    match image {
        Some(i) if i < a.image_files@.len() => Some(a.image_files@[i as int]@),
        _ => None,
    }
}

/// The base-colour texture file of a material: the fixup's, else that of the image it samples.
pub open spec fn base_color_file_of(
    m: crate::document::MaterialView,
    a: Assets,
) -> Option<Seq<char>> {
    let fixed = match m.name {
        Some(n) => fixup_texture(a.fixups.textures@, n),
        None => None,
    };
    match fixed {
        Some(f) => Some(f),
        None => image_file(a, m.images.base_color),
    }
}

fn find_texture(list: &Vec<(String, String)>, name: &str) -> (r: Option<String>)
    ensures
        crate::document::opt_text(r) == fixup_texture(list@, name@),
{
    assert(list@.skip(0) =~= list@);
    for i in 0..list.len()
        invariant
            fixup_texture(list@, name@) == fixup_texture(list@.skip(i as int), name@),
    {
        assert(list@.skip(i as int).skip(1) =~= list@.skip(i + 1));
        if text::same_text(list[i].0.as_str(), name) {
            return Some(list[i].1.clone());
        }
    }
    None
}

fn find_tint(list: &Vec<(String, [Number; 4])>, name: &str) -> (r: Option<usize>)
    ensures
        match r {
            Some(i) => i < list@.len() && fixup_tint(list@, name@) == Some(
                list@[i as int].1@.map_values(|n: Number| n@),
            ),
            None => fixup_tint(list@, name@) is None,
        },
{
    assert(list@.skip(0) =~= list@);
    for i in 0..list.len()
        invariant
            fixup_tint(list@, name@) == fixup_tint(list@.skip(i as int), name@),
    {
        assert(list@.skip(i as int).skip(1) =~= list@.skip(i + 1));
        if text::same_text(list[i].0.as_str(), name) {
            return Some(i);
        }
    }
    None
}

impl Assets {
    fn file_of(&self, image: Option<usize>) -> (r: Option<String>)
        ensures
            crate::document::opt_text(r) == image_file(*self, image),
    {
        match image {
            Some(i) => if i < self.image_files.len() {
                Some(self.image_files[i].clone())
            } else {
                None
            },
            None => None,
        }
    }

    /// The base-colour texture file name for a material, fixup first.
    ///
    /// Every consumer goes through here (the emitted fields, the cutmask test and the micromap
    /// bake), so they cannot disagree about which image they are talking about.
    pub fn base_color_file(&self, material: &Material) -> (r: Option<String>)
        ensures
            crate::document::opt_text(r) == base_color_file_of(material@, *self),
    {
        if let Some(name) = &material.name {
            let fixed = find_texture(&self.fixups.textures, name.as_str());
            if fixed.is_some() {
                return fixed;
            }
        }
        self.file_of(material.images.base_color)
    }
}

/// Whether float bits stand for zero, of either sign.
pub open spec fn is_zero(bits: u32) -> bool {
    bits == 0 || bits == 0x8000_0000
}

/// Whether float bits stand for a number above zero.
pub open spec fn is_positive(bits: u32) -> bool {
    0 < bits <= 0x7f80_0000
}

/// Whether a base colour is written: it is when any channel is not one.
pub open spec fn is_tinted(c: Seq<crate::document::NumberView>) -> bool {
    c[0].0 != 0x3f80_0000 || c[1].0 != 0x3f80_0000 || c[2].0 != 0x3f80_0000 || c[3].0
        != 0x3f80_0000
}

/// The tint that the fixups give a material.
pub open spec fn tint_of(
    m: crate::document::MaterialView,
    a: Assets,
) -> Option<Seq<crate::document::NumberView>> {
    match m.name {
        Some(n) => fixup_tint(a.fixups.tints@, n),
        None => None,
    }
}

/// Whether a material's base colour was zeroed beside a texture: an export slip, not a colour.
pub open spec fn zeroed_by_export(m: crate::document::MaterialView, a: Assets) -> bool {
    tint_of(m, a) is None && m.images.base_color is Some && is_zero(m.base_color[0].0) && is_zero(
        m.base_color[1].0,
    ) && is_zero(m.base_color[2].0)
}

/// The base colour of a material, as it is written: a tint wins, a zeroed factor is dropped.
pub open spec fn color_part(m: crate::document::MaterialView, a: Assets) -> Seq<char> {
    let c = match tint_of(m, a) {
        Some(t) => t,
        None => m.base_color,
    };
    if zeroed_by_export(m, a) || !is_tinted(c) {
        seq![]
    } else {
        " base_color: bevy_color::color::Color::LinearRgba(bevy_color::linear_rgba::LinearRgba { red: "@
            + c[0].1 + ", green: "@ + c[1].1 + ", blue: "@ + c[2].1 + ", alpha: "@ + c[3].1
            + " }),"@
    }
}

/// The metallic, roughness and refraction factors, each where it is not the renderer's default.
/// The metallic factor counts only beside a texture to scale.
pub open spec fn factor_part(m: crate::document::MaterialView) -> Seq<char> {
    let metallic = if m.images.metallic_roughness is Some && !is_zero(m.metallic.0) {
        " metallic: "@ + m.metallic.1 + ","@
    } else {
        seq![]
    };
    let roughness = if m.roughness.0 != 0x3f00_0000 {
        " perceptual_roughness: "@ + m.roughness.1 + ","@
    } else {
        seq![]
    };
    let ior = match m.ior {
        Some(n) if n.0 != 0x3fc0_0000 => " ior: "@ + n.1 + ","@,
        _ => seq![],
    };
    metallic + roughness + ior
}

/// A texture field, where its image was extracted.
pub open spec fn texture_field(
    a: Assets,
    label: Seq<char>,
    file: Option<Seq<char>>,
) -> Seq<char> {
    match file {
        Some(f) => label + a.asset_prefix@ + "/textures/"@ + f + "\","@,
        None => seq![],
    }
}

/// The base-colour, metallic-roughness and normal textures.
pub open spec fn texture_part(m: crate::document::MaterialView, a: Assets) -> Seq<char> {
    texture_field(a, " base_color_texture: \""@, base_color_file_of(m, a)) + texture_field(
        a,
        " metallic_roughness_texture: \""@,
        image_file(a, m.images.metallic_roughness),
    ) + texture_field(a, " normal_map_texture: \""@, image_file(a, m.images.normal))
}

/// The emission: the radiance and, beside it, the emissive texture.
pub open spec fn emissive_part(
    m: crate::document::MaterialView,
    a: Assets,
    radiance: Option<Seq<Seq<char>>>,
) -> Seq<char> {
    match radiance {
        Some(c) => " emissive: bevy_color::linear_rgba::LinearRgba { red: "@ + c[0] + ", green: "@
            + c[1] + ", blue: "@ + c[2] + ", alpha: 1.0 },"@ + texture_field(
            a,
            " emissive_texture: \""@,
            image_file(a, m.images.emissive),
        ),
        None => seq![],
    }
}

/// The alpha cutout.
pub open spec fn cutout_part(cutoff: Option<Seq<char>>) -> Seq<char> {
    match cutoff {
        Some(c) => " alpha_mode: bevy_aurora::material::AlphaMode::Mask("@ + c + "),"@,
        None => seq![],
    }
}

/// Glass and liquids: the transmission, where there is any, with the refraction that owns it.
pub open spec fn glass_part(m: crate::document::MaterialView) -> Seq<char> {
    match m.transmission {
        Some(t) if is_positive(t.0) => " specular_transmission: "@ + t.1 + ", ior: "@ + (
        match m.ior {
            Some(n) => n.1,
            None => "1.5"@,
        }) + ","@,
        _ => seq![],
    }
}

/// The inline field list of a material.
pub open spec fn fields_text(
    m: crate::document::MaterialView,
    a: Assets,
    radiance: Option<Seq<Seq<char>>>,
    cutoff: Option<Seq<char>>,
) -> Seq<char> {
    color_part(m, a) + factor_part(m) + texture_part(m, a) + emissive_part(m, a, radiance)
        + cutout_part(cutoff) + glass_part(m)
}

fn zero_bits(bits: u32) -> (r: bool)
    ensures
        r == is_zero(bits),
{
    bits == 0 || bits == 0x8000_0000
}

fn write_color(out: &mut String, c: &[Number; 4])
    ensures
        final(out)@ == old(out)@ + (if is_tinted(c@.map_values(|n: Number| n@)) {
            " base_color: bevy_color::color::Color::LinearRgba(bevy_color::linear_rgba::LinearRgba { red: "@
                + c@[0].text@ + ", green: "@ + c@[1].text@ + ", blue: "@ + c@[2].text@
                + ", alpha: "@ + c@[3].text@ + " }),"@
        } else {
            seq![]
        }),
{
    let ghost v = c@.map_values(|n: Number| n@);
    assert(v[0].0 == c@[0].bits && v[1].0 == c@[1].bits && v[2].0 == c@[2].bits && v[3].0
        == c@[3].bits);
    if c[0].bits != 0x3f80_0000 || c[1].bits != 0x3f80_0000 || c[2].bits != 0x3f80_0000
        || c[3].bits != 0x3f80_0000 {
        out.append(
            " base_color: bevy_color::color::Color::LinearRgba(bevy_color::linear_rgba::LinearRgba { red: ",
        );
        out.append(c[0].text.as_str());
        out.append(", green: ");
        out.append(c[1].text.as_str());
        out.append(", blue: ");
        out.append(c[2].text.as_str());
        out.append(", alpha: ");
        out.append(c[3].text.as_str());
        out.append(" }),");
    }
}

fn write_texture(out: &mut String, a: &Assets, label: &str, file: &Option<String>)
    ensures
        final(out)@ == old(out)@ + texture_field(*a, label@, crate::document::opt_text(*file)),
{
    if let Some(f) = file {
        out.append(label);
        out.append(a.asset_prefix.as_str());
        out.append("/textures/");
        out.append(f.as_str());
        out.append("\",");
    }
}

fn write_factors(out: &mut String, m: &Material)
    ensures
        final(out)@ == old(out)@ + factor_part(m@),
{
    if m.images.metallic_roughness.is_some() && !zero_bits(m.metallic.bits) {
        out.append(" metallic: ");
        out.append(m.metallic.text.as_str());
        out.append(",");
    }
    if m.roughness.bits != 0x3f00_0000 {
        out.append(" perceptual_roughness: ");
        out.append(m.roughness.text.as_str());
        out.append(",");
    }
    if let Some(n) = &m.ior {
        if n.bits != 0x3fc0_0000 {
            out.append(" ior: ");
            out.append(n.text.as_str());
            out.append(",");
        }
    }
    assert(final(out)@ =~= old(out)@ + factor_part(m@));
}

/// Tests whether a material's base colour was zeroed beside a texture.
pub fn is_zeroed(m: &Material, a: &Assets) -> (r: bool)
    ensures
        r == zeroed_by_export(m@, *a),
{
    let tint = match &m.name {
        Some(n) => find_tint(&a.fixups.tints, n.as_str()),
        None => None,
    };
    tint.is_none() && m.images.base_color.is_some() && zero_bits(m.base_color[0].bits) && zero_bits(
        m.base_color[1].bits,
    ) && zero_bits(m.base_color[2].bits)
}

fn write_base_color(out: &mut String, m: &Material, a: &Assets)
    ensures
        final(out)@ == old(out)@ + color_part(m@, *a),
{
    let tint = match &m.name {
        Some(n) => find_tint(&a.fixups.tints, n.as_str()),
        None => None,
    };
    match tint {
        Some(i) => write_color(out, &a.fixups.tints[i].1),
        None => {
            if !is_zeroed(m, a) {
                write_color(out, &m.base_color);
            }
        },
    }
    assert(final(out)@ =~= old(out)@ + color_part(m@, *a));
}

fn write_textures(out: &mut String, m: &Material, a: &Assets)
    ensures
        final(out)@ == old(out)@ + texture_part(m@, *a),
{
    write_texture(out, a, " base_color_texture: \"", &a.base_color_file(m));
    write_texture(
        out,
        a,
        " metallic_roughness_texture: \"",
        &a.file_of(m.images.metallic_roughness),
    );
    write_texture(out, a, " normal_map_texture: \"", &a.file_of(m.images.normal));
    assert(final(out)@ =~= old(out)@ + texture_part(m@, *a));
}

/// The texts of an optional colour.
pub open spec fn opt_color(c: Option<[String; 3]>) -> Option<Seq<Seq<char>>> {
    match c {
        Some(v) => Some(text::texts(v@)),
        None => None,
    }
}

fn write_emissive(out: &mut String, m: &Material, a: &Assets, radiance: &Option<[String; 3]>)
    ensures
        final(out)@ == old(out)@ + emissive_part(m@, *a, opt_color(*radiance)),
{
    if let Some(c) = radiance {
        out.append(" emissive: bevy_color::linear_rgba::LinearRgba { red: ");
        out.append(c[0].as_str());
        out.append(", green: ");
        out.append(c[1].as_str());
        out.append(", blue: ");
        out.append(c[2].as_str());
        out.append(", alpha: 1.0 },");
        write_texture(out, a, " emissive_texture: \"", &a.file_of(m.images.emissive));
    }
    assert(final(out)@ =~= old(out)@ + emissive_part(m@, *a, opt_color(*radiance)));
}

fn write_glass(out: &mut String, m: &Material)
    ensures
        final(out)@ == old(out)@ + glass_part(m@),
{
    if let Some(t) = &m.transmission {
        if 0 < t.bits && t.bits <= 0x7f80_0000 {
            out.append(" specular_transmission: ");
            out.append(t.text.as_str());
            out.append(", ior: ");
            match &m.ior {
                Some(n) => out.append(n.text.as_str()),
                None => out.append("1.5"),
            }
            out.append(",");
        }
    }
    assert(final(out)@ =~= old(out)@ + glass_part(m@));
}

fn write_cutout(out: &mut String, cutoff: &Option<String>)
    ensures
        final(out)@ == old(out)@ + cutout_part(crate::document::opt_text(*cutoff)),
{
    if let Some(c) = cutoff {
        out.append(" alpha_mode: bevy_aurora::material::AlphaMode::Mask(");
        out.append(c.as_str());
        out.append("),");
    }
    assert(final(out)@ =~= old(out)@ + cutout_part(crate::document::opt_text(*cutoff)));
}

/// Inline field list for a material: the scalar/colour factors, textures (by extracted file
/// path), emission (`radiance`, red, green and blue), alpha cutoff and glass transmission.
pub fn material_fields(
    m: &Material,
    a: &Assets,
    radiance: &Option<[String; 3]>,
    cutoff: &Option<String>,
) -> (r: String)
    ensures
        r@ == fields_text(m@, *a, opt_color(*radiance), crate::document::opt_text(*cutoff)),
{
    let mut out = String::new();
    write_base_color(&mut out, m, a);
    assert(out@ =~= color_part(m@, *a));
    write_factors(&mut out, m);
    write_textures(&mut out, m, a);
    write_emissive(&mut out, m, a, radiance);
    write_cutout(&mut out, cutoff);
    write_glass(&mut out, m);
    out
}

/// The fields of a material for a renderer that knows textures, alpha masks and glass only.
pub open spec fn plain_fields_text(m: crate::document::MaterialView, a: Assets) -> Seq<char> {
    texture_field(a, " base_color_texture: \""@, image_file(a, m.images.base_color))
        + texture_field(
        a,
        " metallic_roughness_texture: \""@,
        image_file(a, m.images.metallic_roughness),
    ) + texture_field(a, " normal_map_texture: \""@, image_file(a, m.images.normal)) + (
    if m.alpha == AlphaMode::Mask {
        " alpha_mode: bevy_material::alpha::AlphaMode::Mask("@ + (match m.alpha_cutoff {
            Some(c) => c.1,
            None => "0.5"@,
        }) + "),"@
    } else {
        seq![]
    }) + glass_part(m)
}

/// Inline field list for a renderer that knows textures, alpha masks and glass only: a mask is
/// taken at its word, and no repair is made.
pub fn plain_material_fields(m: &Material, a: &Assets) -> (r: String)
    ensures
        r@ == plain_fields_text(m@, *a),
{
    let mut out = String::new();
    write_texture(&mut out, a, " base_color_texture: \"", &a.file_of(m.images.base_color));
    assert(out@ =~= texture_field(
        *a,
        " base_color_texture: \""@,
        image_file(*a, m.images.base_color),
    ));
    write_texture(
        &mut out,
        a,
        " metallic_roughness_texture: \"",
        &a.file_of(m.images.metallic_roughness),
    );
    write_texture(&mut out, a, " normal_map_texture: \"", &a.file_of(m.images.normal));
    let ghost so_far = out@;
    if m.alpha == AlphaMode::Mask {
        out.append(" alpha_mode: bevy_material::alpha::AlphaMode::Mask(");
        match &m.alpha_cutoff {
            Some(c) => out.append(c.text.as_str()),
            None => out.append("0.5"),
        }
        out.append("),");
        assert(out@ =~= so_far + (" alpha_mode: bevy_material::alpha::AlphaMode::Mask("@ + (
        match m@.alpha_cutoff {
            Some(c) => c.1,
            None => "0.5"@,
        }) + "),"@));
    } else {
        assert(out@ =~= so_far + seq![]);
    }
    write_glass(&mut out, m);
    out
}

/// What a material's emission is made of, before its strength.
#[derive(Clone, Copy, Debug, PartialEq, Eq, Structural)]
pub enum EmissiveSource {
    /// It does not emit.
    Dark,
    /// White: the texture alone says what shows.
    Unit,
    /// Its own factor.
    Factor,
}

/// Whether a material's emissive factor is black.
pub open spec fn factor_is_black(m: crate::document::MaterialView) -> bool {
    is_zero(m.emissive[0].0) && is_zero(m.emissive[1].0) && is_zero(m.emissive[2].0)
}

/// What a material's emission is made of: nothing where the factor is black and there is no
/// texture, white where a texture has a black factor, else the factor.
pub open spec fn emissive_source_of(m: crate::document::MaterialView, textured: bool) -> EmissiveSource {
    if !factor_is_black(m) {
        EmissiveSource::Factor
    } else if textured {
        EmissiveSource::Unit
    } else {
        EmissiveSource::Dark
    }
}

/// What a material's emission is made of.
pub fn emissive_source(m: &Material, textured: bool) -> (r: EmissiveSource)
    ensures
        r == emissive_source_of(m@, textured),
{
    let black = zero_bits(m.emissive[0].bits) && zero_bits(m.emissive[1].bits) && zero_bits(
        m.emissive[2].bits,
    );
    if !black {
        EmissiveSource::Factor
    } else if textured {
        EmissiveSource::Unit
    } else {
        EmissiveSource::Dark
    }
}

/// Whether a text is another one with a part put in somewhere.
pub open spec fn has_inserted(whole: Seq<char>, without: Seq<char>, part: Seq<char>) -> bool {
    exists|i: int|
        0 <= i <= without.len() && whole == #[trigger] without.take(i) + part + without.skip(i)
}

/// Whether two texts differ in one place only, where the one has `p` and the other `q`, each
/// after `before`.
pub open spec fn differ_after(
    s: Seq<char>,
    t: Seq<char>,
    before: Seq<char>,
    p: Seq<char>,
    q: Seq<char>,
) -> bool {
    exists|a: Seq<char>, b: Seq<char>|
        s == #[trigger] (a + before + p + b) && t == a + before + q + b
}

proof fn lemma_inserted(whole: Seq<char>, without: Seq<char>, a: Seq<char>, p: Seq<char>, b: Seq<char>)
    requires
        whole == a + p + b,
        without == a + b,
    ensures
        has_inserted(whole, without, p),
{
    let i = a.len() as int;
    assert(without.take(i) =~= a);
    assert(without.skip(i) =~= b);
}

proof fn lemma_shape(
    c: Seq<char>,
    f: Seq<char>,
    b: Seq<char>,
    r: Seq<char>,
    n: Seq<char>,
    e: Seq<char>,
    k: Seq<char>,
    g: Seq<char>,
)
    ensures
        c + f + (b + r + n) + e + k + g == (c + f) + b + (r + n + e + k + g),
        c + f + (b + r + n) + e + k + g == (c + f + b) + r + (n + e + k + g),
        c + f + (b + r + n) + e + k + g == (c + f + b + r) + n + (e + k + g),
        c + f + (b + r + n) + e + k + g == (c + f + (b + r + n)) + e + (k + g),
{
    let all = c + f + (b + r + n) + e + k + g;
    assert(all =~= (c + f) + b + (r + n + e + k + g));
    assert(all =~= (c + f + b) + r + (n + e + k + g));
    assert(all =~= (c + f + b + r) + n + (e + k + g));
    assert(all =~= (c + f + (b + r + n)) + e + (k + g));
}

proof fn lemma_empty_part(a: Seq<char>, b: Seq<char>)
    ensures
        a + Seq::<char>::empty() + b == a + b,
{
    assert(a + Seq::<char>::empty() + b =~= a + b);
}

proof fn lemma_field_shape(
    head: Seq<char>,
    label: Seq<char>,
    p: Seq<char>,
    end: Seq<char>,
    tail: Seq<char>,
)
    ensures
        head + (label + p + end) + tail == head + label + p + (end + tail),
{
    assert(head + (label + p + end) + tail =~= head + label + p + (end + tail));
}

/// A material that samples another image in one place.
pub open spec fn with_normal(
    m: crate::document::MaterialView,
    image: Option<usize>,
) -> crate::document::MaterialView {
    crate::document::MaterialView {
        images: crate::document::MaterialImages { normal: image, ..m.images },
        ..m
    }
}

/// A material that samples another image for its metalness and roughness.
pub open spec fn with_metallic(
    m: crate::document::MaterialView,
    image: Option<usize>,
) -> crate::document::MaterialView {
    crate::document::MaterialView {
        images: crate::document::MaterialImages { metallic_roughness: image, ..m.images },
        ..m
    }
}

/// A material that samples another image for its base colour.
pub open spec fn with_base_color(
    m: crate::document::MaterialView,
    image: Option<usize>,
) -> crate::document::MaterialView {
    crate::document::MaterialView {
        images: crate::document::MaterialImages { base_color: image, ..m.images },
        ..m
    }
}

/// A material that samples another image for its emission.
pub open spec fn with_emissive(
    m: crate::document::MaterialView,
    image: Option<usize>,
) -> crate::document::MaterialView {
    crate::document::MaterialView {
        images: crate::document::MaterialImages { emissive: image, ..m.images },
        ..m
    }
}

/// A normal texture adds the path of its image's file, and nothing else; so do two materials that
/// differ only in their normal image differ in that file only.
pub proof fn normal_maps_are_named(
    m: crate::document::MaterialView,
    a: Assets,
    radiance: Option<Seq<Seq<char>>>,
    cutoff: Option<Seq<char>>,
    i: usize,
)
    requires
        i < a.image_files@.len(),
    ensures
        has_inserted(
            fields_text(with_normal(m, Some(i)), a, radiance, cutoff),
            fields_text(with_normal(m, None), a, radiance, cutoff),
            " normal_map_texture: \""@ + a.asset_prefix@ + "/textures/"@
                + a.image_files@[i as int]@ + "\","@,
        ),
{
    let (n, o) = (with_normal(m, Some(i)), with_normal(m, None));
    let (c, f) = (color_part(n, a), factor_part(n));
    let b = texture_field(a, " base_color_texture: \""@, base_color_file_of(n, a));
    let r = texture_field(
        a,
        " metallic_roughness_texture: \""@,
        image_file(a, n.images.metallic_roughness),
    );
    let p = " normal_map_texture: \""@ + a.asset_prefix@ + "/textures/"@ + a.image_files@[i as int]@
        + "\","@;
    let (e, k, g) = (emissive_part(n, a, radiance), cutout_part(cutoff), glass_part(n));
    assert(c == color_part(o, a));
    lemma_shape(c, f, b, r, p, e, k, g);
    lemma_shape(c, f, b, r, Seq::<char>::empty(), e, k, g);
    lemma_empty_part(c + f + b + r, e + k + g);
    lemma_inserted(
        fields_text(n, a, radiance, cutoff),
        fields_text(o, a, radiance, cutoff),
        c + f + b + r,
        p,
        e + k + g,
    );
}

/// Two materials that differ only in the image of their metalness and roughness differ in that
/// image's file only, after its label; and the label is there exactly where the image is.
pub proof fn metallic_maps_are_named(
    m: crate::document::MaterialView,
    a: Assets,
    radiance: Option<Seq<Seq<char>>>,
    cutoff: Option<Seq<char>>,
    i: usize,
    j: usize,
)
    requires
        i < a.image_files@.len(),
        j < a.image_files@.len(),
    ensures
        differ_after(
            fields_text(with_metallic(m, Some(i)), a, radiance, cutoff),
            fields_text(with_metallic(m, Some(j)), a, radiance, cutoff),
            " metallic_roughness_texture: \""@ + a.asset_prefix@ + "/textures/"@,
            a.image_files@[i as int]@,
            a.image_files@[j as int]@,
        ),
        m.metallic.0 == 0 ==> has_inserted(
            fields_text(with_metallic(m, Some(i)), a, radiance, cutoff),
            fields_text(with_metallic(m, None), a, radiance, cutoff),
            " metallic_roughness_texture: \""@ + a.asset_prefix@ + "/textures/"@
                + a.image_files@[i as int]@ + "\","@,
        ),
{
    let (n, o, z) = (with_metallic(m, Some(i)), with_metallic(m, Some(j)), with_metallic(m, None));
    let label = " metallic_roughness_texture: \""@ + a.asset_prefix@ + "/textures/"@;
    let (p, q) = (a.image_files@[i as int]@, a.image_files@[j as int]@);
    let (c, f) = (color_part(n, a), factor_part(n));
    let b = texture_field(a, " base_color_texture: \""@, base_color_file_of(n, a));
    let t = texture_field(a, " normal_map_texture: \""@, image_file(a, n.images.normal));
    let (e, k, g) = (emissive_part(n, a, radiance), cutout_part(cutoff), glass_part(n));
    let (head, tail) = (c + f + b, t + e + k + g);
    assert(c == color_part(o, a) && f == factor_part(o));
    lemma_shape(c, f, b, label + p + "\","@, t, e, k, g);
    lemma_shape(c, f, b, label + q + "\","@, t, e, k, g);
    lemma_field_shape(head, label, p, "\","@, tail);
    lemma_field_shape(head, label, q, "\","@, tail);
    assert(fields_text(n, a, radiance, cutoff) == head + label + p + ("\","@ + tail));
    assert(fields_text(o, a, radiance, cutoff) == head + label + q + ("\","@ + tail));
    if m.metallic.0 == 0 {
        assert(f == factor_part(z));
        lemma_shape(c, f, b, Seq::<char>::empty(), t, e, k, g);
        lemma_empty_part(head, tail);
        lemma_inserted(
            fields_text(n, a, radiance, cutoff),
            fields_text(z, a, radiance, cutoff),
            head,
            label + p + "\","@,
            tail,
        );
    }
}

/// Two materials that differ only in their base-colour image differ in that image's file only,
/// after its label, where no fixup names another file for them. One that has a colour left, or
/// that a tint colours, gains exactly that field over one without an image.
pub proof fn base_colors_are_named(
    m: crate::document::MaterialView,
    a: Assets,
    radiance: Option<Seq<Seq<char>>>,
    cutoff: Option<Seq<char>>,
    i: usize,
    j: usize,
)
    requires
        i < a.image_files@.len(),
        j < a.image_files@.len(),
        m.name is Some ==> forall|k: int|
            0 <= k < a.fixups.textures@.len() ==> (#[trigger] a.fixups.textures@[k]).0@
                != m.name->Some_0,
    ensures
        differ_after(
            fields_text(with_base_color(m, Some(i)), a, radiance, cutoff),
            fields_text(with_base_color(m, Some(j)), a, radiance, cutoff),
            " base_color_texture: \""@ + a.asset_prefix@ + "/textures/"@,
            a.image_files@[i as int]@,
            a.image_files@[j as int]@,
        ),
        m.base_color[0].0 == 0x3f80_0000 ==> has_inserted(
            fields_text(with_base_color(m, Some(i)), a, radiance, cutoff),
            fields_text(with_base_color(m, None), a, radiance, cutoff),
            " base_color_texture: \""@ + a.asset_prefix@ + "/textures/"@
                + a.image_files@[i as int]@ + "\","@,
        ),
{
    if m.name is Some {
        lemma_no_fixup(a.fixups.textures@, m.name->Some_0);
    }
    let (n, o, z) = (
        with_base_color(m, Some(i)),
        with_base_color(m, Some(j)),
        with_base_color(m, None),
    );
    let label = " base_color_texture: \""@ + a.asset_prefix@ + "/textures/"@;
    let (p, q) = (a.image_files@[i as int]@, a.image_files@[j as int]@);
    let (c, f) = (color_part(n, a), factor_part(n));
    let r = texture_field(
        a,
        " metallic_roughness_texture: \""@,
        image_file(a, n.images.metallic_roughness),
    );
    let t = texture_field(a, " normal_map_texture: \""@, image_file(a, n.images.normal));
    let (e, k, g) = (emissive_part(n, a, radiance), cutout_part(cutoff), glass_part(n));
    let (head, tail) = (c + f, r + t + e + k + g);
    assert(c == color_part(o, a));
    lemma_shape(c, f, label + p + "\","@, r, t, e, k, g);
    lemma_shape(c, f, label + q + "\","@, r, t, e, k, g);
    lemma_field_shape(head, label, p, "\","@, tail);
    lemma_field_shape(head, label, q, "\","@, tail);
    assert(fields_text(n, a, radiance, cutoff) == head + label + p + ("\","@ + tail));
    assert(fields_text(o, a, radiance, cutoff) == head + label + q + ("\","@ + tail));
    if m.base_color[0].0 == 0x3f80_0000 {
        assert(c == color_part(z, a));
        lemma_shape(c, f, Seq::<char>::empty(), r, t, e, k, g);
        lemma_empty_part(head, tail);
        lemma_inserted(
            fields_text(n, a, radiance, cutoff),
            fields_text(z, a, radiance, cutoff),
            head,
            label + p + "\","@,
            tail,
        );
    }
}

proof fn lemma_no_fixup(list: Seq<(String, String)>, name: Seq<char>)
    requires
        forall|k: int| 0 <= k < list.len() ==> (#[trigger] list[k]).0@ != name,
    ensures
        fixup_texture(list, name) is None,
    decreases list.len(),
{
    if list.len() > 0 {
        assert forall|k: int| 0 <= k < list.skip(1).len() implies (#[trigger] list.skip(1)[k]).0@
            != name by {
            assert(list[k + 1].0@ != name);
        }
        assert(list[0].0@ != name);
        lemma_no_fixup(list.skip(1), name);
    }
}

/// A fixup's texture is the base colour of the material it names, whatever image that samples.
pub proof fn fixups_come_first(m: crate::document::MaterialView, a: Assets, k: int)
    requires
        0 <= k < a.fixups.textures@.len(),
        m.name == Some(a.fixups.textures@[k].0@),
        forall|j: int|
            0 <= j < k ==> (#[trigger] a.fixups.textures@[j]).0@ != a.fixups.textures@[k].0@,
    ensures
        base_color_file_of(m, a) == Some(a.fixups.textures@[k].1@),
{
    lemma_fixup_at(a.fixups.textures@, k);
}

proof fn lemma_fixup_at(list: Seq<(String, String)>, k: int)
    requires
        0 <= k < list.len(),
        forall|j: int| 0 <= j < k ==> (#[trigger] list[j]).0@ != list[k].0@,
    ensures
        fixup_texture(list, list[k].0@) == Some(list[k].1@),
    decreases k,
{
    if k > 0 {
        assert(list[0].0@ != list[k].0@);
        assert forall|j: int| 0 <= j < k - 1 implies (#[trigger] list.skip(1)[j]).0@ != list.skip(
            1,
        )[k - 1].0@ by {
            assert(list[j + 1].0@ != list[k].0@);
        }
        lemma_fixup_at(list.skip(1), k - 1);
    }
}

/// An emissive texture is named beside the radiance it scales, and only there.
pub proof fn emissive_maps_are_named(
    m: crate::document::MaterialView,
    a: Assets,
    radiance: Option<Seq<Seq<char>>>,
    cutoff: Option<Seq<char>>,
    i: usize,
)
    requires
        i < a.image_files@.len(),
    ensures
        radiance is Some ==> has_inserted(
            fields_text(with_emissive(m, Some(i)), a, radiance, cutoff),
            fields_text(with_emissive(m, None), a, radiance, cutoff),
            " emissive_texture: \""@ + a.asset_prefix@ + "/textures/"@ + a.image_files@[i as int]@
                + "\","@,
        ),
        radiance is None ==> fields_text(with_emissive(m, Some(i)), a, radiance, cutoff)
            == fields_text(with_emissive(m, None), a, radiance, cutoff),
{
    let (n, o) = (with_emissive(m, Some(i)), with_emissive(m, None));
    let (c, f, t) = (color_part(n, a), factor_part(n), texture_part(n, a));
    let (k, g) = (cutout_part(cutoff), glass_part(n));
    assert(c == color_part(o, a));
    assert(t == texture_part(o, a));
    if let Some(v) = radiance {
        let p = " emissive_texture: \""@ + a.asset_prefix@ + "/textures/"@
            + a.image_files@[i as int]@ + "\","@;
        let e = emissive_part(o, a, radiance);
        let none = Seq::<char>::empty();
        assert(emissive_part(n, a, radiance) == e + p) by {
            let glow = " emissive: bevy_color::linear_rgba::LinearRgba { red: "@ + v[0]
                + ", green: "@ + v[1] + ", blue: "@ + v[2] + ", alpha: 1.0 },"@;
            assert(emissive_part(o, a, radiance) == glow + none);
            assert(glow + none =~= glow);
        }
        lemma_emissive_shape(c + f + t, e, p, k, g);
        lemma_inserted(
            fields_text(n, a, radiance, cutoff),
            fields_text(o, a, radiance, cutoff),
            c + f + t + e,
            p,
            k + g,
        );
    }
}

proof fn lemma_emissive_shape(h: Seq<char>, e: Seq<char>, p: Seq<char>, k: Seq<char>, g: Seq<char>)
    ensures
        h + (e + p) + k + g == (h + e) + p + (k + g),
        h + e + k + g == (h + e) + (k + g),
{
    assert(h + (e + p) + k + g =~= (h + e) + p + (k + g));
    assert(h + e + k + g =~= (h + e) + (k + g));
}

proof fn lemma_six(
    c: Seq<char>,
    f: Seq<char>,
    t: Seq<char>,
    e: Seq<char>,
    k: Seq<char>,
    g: Seq<char>,
)
    ensures
        c + f + t + e + k + g == Seq::<char>::empty() + c + (f + t + e + k + g),
        c + f + t + e + k + g == c + f + (t + e + k + g),
        c + f + t + e + k + g == (c + f + t) + e + (k + g),
        c + f + t + e + k + g == (c + f + t + e) + k + g,
        c + f + t + e + k + g == (c + f + t + e + k) + g + Seq::<char>::empty(),
{
    let all = c + f + t + e + k + g;
    assert(all =~= Seq::<char>::empty() + c + (f + t + e + k + g));
    assert(all =~= c + f + (t + e + k + g));
    assert(all =~= (c + f + t) + e + (k + g));
    assert(all =~= (c + f + t + e + k) + g + Seq::<char>::empty());
}

proof fn lemma_factor_shape(
    c: Seq<char>,
    x: Seq<char>,
    y: Seq<char>,
    z: Seq<char>,
    r: Seq<char>,
)
    ensures
        c + (x + y + z) + r == c + x + (y + z + r),
        c + (x + y + z) + r == (c + x) + y + (z + r),
        c + (x + y + z) + r == (c + x + y) + z + r,
{
    let all = c + (x + y + z) + r;
    assert(all =~= c + x + (y + z + r));
    assert(all =~= (c + x) + y + (z + r));
    assert(all =~= (c + x + y) + z + r);
}

/// The number one, as it is written.
pub open spec fn one() -> crate::document::NumberView {
    (0x3f80_0000, "1.0"@)
}

/// A colour that is not white is written channel by channel, and adds nothing else; white adds
/// nothing. A tint is written in place of the material's own colour.
pub proof fn colors_are_written(
    m: crate::document::MaterialView,
    a: Assets,
    radiance: Option<Seq<Seq<char>>>,
    cutoff: Option<Seq<char>>,
    white: crate::document::MaterialView,
    c: Seq<crate::document::NumberView>,
)
    requires
        white == (crate::document::MaterialView {
            base_color: seq![one(), one(), one(), one()],
            name: None,
            ..m
        }),
        m.base_color.len() == 4,
        c == (match m.name {
            Some(n) => match fixup_tint(a.fixups.tints@, n) {
                Some(t) => t,
                None => m.base_color,
            },
            None => m.base_color,
        }),
        m.name is Some ==> fixup_texture(a.fixups.textures@, m.name->Some_0) is None,
        !(m.images.base_color is Some && c[0].0 == 0 && c[1].0 == 0 && c[2].0 == 0),
        c[0].0 != 0x8000_0000 && c[1].0 != 0x8000_0000 && c[2].0 != 0x8000_0000,
    ensures
        c[0].0 != 0x3f80_0000 || c[1].0 != 0x3f80_0000 || c[2].0 != 0x3f80_0000 || c[3].0
            != 0x3f80_0000 ==> has_inserted(
            fields_text(m, a, radiance, cutoff),
            fields_text(white, a, radiance, cutoff),
            " base_color: bevy_color::color::Color::LinearRgba(bevy_color::linear_rgba::LinearRgba { red: "@
                + c[0].1 + ", green: "@ + c[1].1 + ", blue: "@ + c[2].1 + ", alpha: "@ + c[3].1
                + " }),"@,
        ),
        c[0].0 == 0x3f80_0000 && c[1].0 == 0x3f80_0000 && c[2].0 == 0x3f80_0000 && c[3].0
            == 0x3f80_0000 ==> fields_text(m, a, radiance, cutoff) == fields_text(
            white,
            a,
            radiance,
            cutoff,
        ),
{
    let (f, t) = (factor_part(m), texture_part(m, a));
    let (e, k, g) = (emissive_part(m, a, radiance), cutout_part(cutoff), glass_part(m));
    assert(texture_part(white, a) == t);
    let p = color_part(m, a);
    lemma_six(p, f, t, e, k, g);
    lemma_six(Seq::<char>::empty(), f, t, e, k, g);
    lemma_empty_part(Seq::<char>::empty(), f + t + e + k + g);
    assert(color_part(white, a) == Seq::<char>::empty());
    if !(c[0].0 == 0x3f80_0000 && c[1].0 == 0x3f80_0000 && c[2].0 == 0x3f80_0000 && c[3].0
        == 0x3f80_0000) {
        lemma_inserted(
            fields_text(m, a, radiance, cutoff),
            fields_text(white, a, radiance, cutoff),
            Seq::<char>::empty(),
            p,
            f + t + e + k + g,
        );
    }
}

/// A colour that an export zeroed beside a texture is dropped: the fields are those of a white
/// material.
pub proof fn zeroed_colors_are_dropped(
    m: crate::document::MaterialView,
    a: Assets,
    radiance: Option<Seq<Seq<char>>>,
    cutoff: Option<Seq<char>>,
)
    requires
        m.name is None,
        m.images.base_color is Some,
        m.base_color.len() == 4,
        m.base_color[0].0 == 0 && m.base_color[1].0 == 0 && m.base_color[2].0 == 0,
    ensures
        fields_text(m, a, radiance, cutoff) == fields_text(
            (crate::document::MaterialView { base_color: seq![one(), one(), one(), one()], ..m }),
            a,
            radiance,
            cutoff,
        ),
{
    let white = crate::document::MaterialView {
        base_color: seq![one(), one(), one(), one()],
        ..m
    };
    assert(texture_part(white, a) == texture_part(m, a));
}

/// A roughness that is not one half is written, and adds nothing else; one half adds nothing. So
/// is a metalness that is not zero, where there is a texture to scale.
pub proof fn factors_are_written(
    m: crate::document::MaterialView,
    a: Assets,
    radiance: Option<Seq<Seq<char>>>,
    cutoff: Option<Seq<char>>,
    half: Seq<char>,
    zero: Seq<char>,
)
    ensures
        m.roughness.0 != 0x3f00_0000 ==> has_inserted(
            fields_text(m, a, radiance, cutoff),
            fields_text(
                (crate::document::MaterialView { roughness: (0x3f00_0000u32, half), ..m }),
                a,
                radiance,
                cutoff,
            ),
            " perceptual_roughness: "@ + m.roughness.1 + ","@,
        ),
        m.roughness.0 == 0x3f00_0000 ==> fields_text(m, a, radiance, cutoff) == fields_text(
            (crate::document::MaterialView { roughness: (0x3f00_0000u32, half), ..m }),
            a,
            radiance,
            cutoff,
        ),
        m.images.metallic_roughness is Some && m.metallic.0 != 0 && m.metallic.0 != 0x8000_0000
            ==> has_inserted(
            fields_text(m, a, radiance, cutoff),
            fields_text(
                (crate::document::MaterialView { metallic: (0u32, zero), ..m }),
                a,
                radiance,
                cutoff,
            ),
            " metallic: "@ + m.metallic.1 + ","@,
        ),
        m.images.metallic_roughness is None || m.metallic.0 == 0 ==> fields_text(
            m,
            a,
            radiance,
            cutoff,
        ) == fields_text(
            (crate::document::MaterialView { metallic: (0u32, zero), ..m }),
            a,
            radiance,
            cutoff,
        ),
{
    let mid = crate::document::MaterialView { roughness: (0x3f00_0000u32, half), ..m };
    let bare = crate::document::MaterialView { metallic: (0u32, zero), ..m };
    let none = Seq::<char>::empty();
    let (c, t) = (color_part(m, a), texture_part(m, a));
    assert(color_part(mid, a) == c && color_part(bare, a) == c);
    assert(texture_part(mid, a) == t && texture_part(bare, a) == t);
    let (e, k, g) = (emissive_part(m, a, radiance), cutout_part(cutoff), glass_part(m));
    let rest = t + e + k + g;
    let x = if m.images.metallic_roughness is Some && !is_zero(m.metallic.0) {
        " metallic: "@ + m.metallic.1 + ","@
    } else {
        none
    };
    let y = if m.roughness.0 != 0x3f00_0000 {
        " perceptual_roughness: "@ + m.roughness.1 + ","@
    } else {
        none
    };
    let z = match m.ior {
        Some(n) if n.0 != 0x3fc0_0000 => " ior: "@ + n.1 + ","@,
        _ => none,
    };
    assert(factor_part(m) == x + y + z);
    assert(factor_part(mid) == x + none + z);
    assert(factor_part(bare) == none + y + z);
    lemma_six(c, x + y + z, t, e, k, g);
    lemma_six(c, x + none + z, t, e, k, g);
    lemma_six(c, none + y + z, t, e, k, g);
    lemma_factor_shape(c, x, y, z, rest);
    lemma_factor_shape(c, x, none, z, rest);
    lemma_factor_shape(c, none, y, z, rest);
    lemma_empty_part(c + x, z + rest);
    lemma_empty_part(c, y + z + rest);
    if m.roughness.0 != 0x3f00_0000 {
        lemma_inserted(
            fields_text(m, a, radiance, cutoff),
            fields_text(mid, a, radiance, cutoff),
            c + x,
            y,
            z + rest,
        );
    }
    if m.images.metallic_roughness is Some && !is_zero(m.metallic.0) {
        lemma_inserted(
            fields_text(m, a, radiance, cutoff),
            fields_text(bare, a, radiance, cutoff),
            c,
            x,
            y + z + rest,
        );
    }
}

/// A cutoff is written as an alpha mask, and adds nothing else.
pub proof fn cutoffs_are_written(
    m: crate::document::MaterialView,
    a: Assets,
    radiance: Option<Seq<Seq<char>>>,
    cutoff: Seq<char>,
)
    ensures
        has_inserted(
            fields_text(m, a, radiance, Some(cutoff)),
            fields_text(m, a, radiance, None),
            " alpha_mode: bevy_aurora::material::AlphaMode::Mask("@ + cutoff + "),"@,
        ),
{
    let (c, f, t) = (color_part(m, a), factor_part(m), texture_part(m, a));
    let (e, g) = (emissive_part(m, a, radiance), glass_part(m));
    lemma_six(c, f, t, e, cutout_part(Some(cutoff)), g);
    lemma_six(c, f, t, e, Seq::<char>::empty(), g);
    lemma_empty_part(c + f + t + e, g);
    lemma_inserted(
        fields_text(m, a, radiance, Some(cutoff)),
        fields_text(m, a, radiance, None),
        c + f + t + e,
        cutout_part(Some(cutoff)),
        g,
    );
}

/// A radiance is written as an emission, red, green and blue in order, and adds nothing else where
/// there is no emissive texture.
pub proof fn radiance_is_written(
    m: crate::document::MaterialView,
    a: Assets,
    v: Seq<Seq<char>>,
    cutoff: Option<Seq<char>>,
)
    requires
        m.images.emissive is None,
    ensures
        has_inserted(
            fields_text(m, a, Some(v), cutoff),
            fields_text(m, a, None, cutoff),
            " emissive: bevy_color::linear_rgba::LinearRgba { red: "@ + v[0] + ", green: "@ + v[1]
                + ", blue: "@ + v[2] + ", alpha: 1.0 },"@,
        ),
{
    let (c, f, t) = (color_part(m, a), factor_part(m), texture_part(m, a));
    let (k, g) = (cutout_part(cutoff), glass_part(m));
    let glow = " emissive: bevy_color::linear_rgba::LinearRgba { red: "@ + v[0] + ", green: "@
        + v[1] + ", blue: "@ + v[2] + ", alpha: 1.0 },"@;
    assert(glow + Seq::<char>::empty() =~= glow);
    lemma_six(c, f, t, glow, k, g);
    lemma_six(c, f, t, Seq::<char>::empty(), k, g);
    lemma_empty_part(c + f + t, k + g);
    lemma_inserted(
        fields_text(m, a, Some(v), cutoff),
        fields_text(m, a, None, cutoff),
        c + f + t,
        glow,
        k + g,
    );
}

/// Glass is written at the end with its transmission and its refraction, 1.5 where it gives none;
/// what lets no light through is no glass, and a refraction of 1.5 is not written for it.
pub proof fn glass_is_written(
    m: crate::document::MaterialView,
    a: Assets,
    radiance: Option<Seq<Seq<char>>>,
    cutoff: Option<Seq<char>>,
)
    ensures
        m.transmission matches Some(t) && 0 < t.0 <= 0x7f80_0000 ==> fields_text(
            m,
            a,
            radiance,
            cutoff,
        ) == fields_text(
            (crate::document::MaterialView { transmission: None, ..m }),
            a,
            radiance,
            cutoff,
        ) + (" specular_transmission: "@ + m.transmission->Some_0.1 + ", ior: "@ + (match m.ior {
            Some(n) => n.1,
            None => "1.5"@,
        }) + ","@),
        m.transmission matches Some(t) && t.0 == 0 ==> fields_text(m, a, radiance, cutoff)
            == fields_text(
            (crate::document::MaterialView { transmission: None, ..m }),
            a,
            radiance,
            cutoff,
        ),
        m.transmission is None && (m.ior matches Some(n) && n.0 == 0x3fc0_0000) ==> fields_text(
            m,
            a,
            radiance,
            cutoff,
        ) == fields_text(
            (crate::document::MaterialView { ior: None, ..m }),
            a,
            radiance,
            cutoff,
        ),
{
    let solid = crate::document::MaterialView { transmission: None, ..m };
    let plain = crate::document::MaterialView { ior: None, ..m };
    assert(texture_part(solid, a) == texture_part(m, a));
    assert(texture_part(plain, a) == texture_part(m, a));
    let front = color_part(m, a) + factor_part(m) + texture_part(m, a) + emissive_part(
        m,
        a,
        radiance,
    ) + cutout_part(cutoff);
    assert(front + Seq::<char>::empty() =~= front);
}

/// A refraction that is not 1.5 is written, and adds nothing else to what lets no light through.
pub proof fn refraction_is_written(
    m: crate::document::MaterialView,
    a: Assets,
    radiance: Option<Seq<Seq<char>>>,
    cutoff: Option<Seq<char>>,
    n: crate::document::NumberView,
)
    requires
        m.transmission is None,
        m.ior == Some(n),
        n.0 != 0x3fc0_0000,
    ensures
        has_inserted(
            fields_text(m, a, radiance, cutoff),
            fields_text(
                (crate::document::MaterialView { ior: None, ..m }),
                a,
                radiance,
                cutoff,
            ),
            " ior: "@ + n.1 + ","@,
        ),
{
    let plain = crate::document::MaterialView { ior: None, ..m };
    let none = Seq::<char>::empty();
    let (c, t) = (color_part(m, a), texture_part(m, a));
    assert(texture_part(plain, a) == t && color_part(plain, a) == c);
    let (e, k, g) = (emissive_part(m, a, radiance), cutout_part(cutoff), glass_part(m));
    let rest = t + e + k + g;
    let x = if m.images.metallic_roughness is Some && !is_zero(m.metallic.0) {
        " metallic: "@ + m.metallic.1 + ","@
    } else {
        none
    };
    let y = if m.roughness.0 != 0x3f00_0000 {
        " perceptual_roughness: "@ + m.roughness.1 + ","@
    } else {
        none
    };
    let z = " ior: "@ + n.1 + ","@;
    assert(factor_part(m) == x + y + z);
    assert(factor_part(plain) == x + y + none);
    lemma_six(c, x + y + z, t, e, k, g);
    lemma_six(c, x + y + none, t, e, k, g);
    lemma_factor_shape(c, x, y, z, rest);
    lemma_factor_shape(c, x, y, none, rest);
    lemma_empty_part(c + x + y, rest);
    lemma_inserted(
        fields_text(m, a, radiance, cutoff),
        fields_text(plain, a, radiance, cutoff),
        c + x + y,
        z,
        rest,
    );
}

/// The plain fields name each image after its own label, and a mask with its cutoff, one half where
/// it gives none; an alpha that is not a mask is not written.
pub proof fn plain_fields_name_their_images(
    m: crate::document::MaterialView,
    a: Assets,
    b: usize,
    r: usize,
    n: usize,
)
    requires
        b < a.image_files@.len() && r < a.image_files@.len() && n < a.image_files@.len(),
        m.images.base_color == Some(b),
        m.images.metallic_roughness == Some(r),
        m.images.normal == Some(n),
        m.transmission is None,
    ensures
        ({
            let at = |i: usize| a.asset_prefix@ + "/textures/"@ + a.image_files@[i as int]@;
            let named = " base_color_texture: \""@ + at(b) + "\", metallic_roughness_texture: \""@
                + at(r) + "\", normal_map_texture: \""@ + at(n) + "\","@;
            &&& m.alpha != AlphaMode::Mask ==> plain_fields_text(m, a) == named
            &&& m.alpha == AlphaMode::Mask ==> plain_fields_text(m, a) == named
                + " alpha_mode: bevy_material::alpha::AlphaMode::Mask("@ + (match m.alpha_cutoff {
                Some(c) => c.1,
                None => "0.5"@,
            }) + "),"@
        }),
{
    let at = |i: usize| a.asset_prefix@ + "/textures/"@ + a.image_files@[i as int]@;
    let (x, y, z) = (at(b), at(r), at(n));
    let end = "\","@;
    let (lb, lr, ln) = (
        " base_color_texture: \""@,
        " metallic_roughness_texture: \""@,
        " normal_map_texture: \""@,
    );
    reveal_strlit("\",");
    reveal_strlit("\", metallic_roughness_texture: \"");
    reveal_strlit(" metallic_roughness_texture: \"");
    reveal_strlit("\", normal_map_texture: \"");
    reveal_strlit(" normal_map_texture: \"");
    assert("\", metallic_roughness_texture: \""@ =~= end + lr);
    assert("\", normal_map_texture: \""@ =~= end + ln);
    lemma_plain_field(lb, a.asset_prefix@, "/textures/"@, a.image_files@[b as int]@, end);
    lemma_plain_field(lr, a.asset_prefix@, "/textures/"@, a.image_files@[r as int]@, end);
    lemma_plain_field(ln, a.asset_prefix@, "/textures/"@, a.image_files@[n as int]@, end);
    lemma_three_fields(lb, x, end, lr, y, ln, z);
    let named = lb + x + "\", metallic_roughness_texture: \""@ + y
        + "\", normal_map_texture: \""@ + z + end;
    let none = Seq::<char>::empty();
    assert(named + none + none =~= named);
    let cut = match m.alpha_cutoff {
        Some(c) => c.1,
        None => "0.5"@,
    };
    let label = " alpha_mode: bevy_material::alpha::AlphaMode::Mask("@;
    assert(named + (label + cut + "),"@) + none =~= named + label + cut + "),"@);
}

proof fn lemma_plain_field(l: Seq<char>, p: Seq<char>, d: Seq<char>, f: Seq<char>, e: Seq<char>)
    ensures
        l + p + d + f + e == l + (p + d + f) + e,
{
    assert(l + p + d + f + e =~= l + (p + d + f) + e);
}

proof fn lemma_three_fields(
    lb: Seq<char>,
    x: Seq<char>,
    e: Seq<char>,
    lr: Seq<char>,
    y: Seq<char>,
    ln: Seq<char>,
    z: Seq<char>,
)
    ensures
        (lb + x + e) + (lr + y + e) + (ln + z + e) == lb + x + (e + lr) + y + (e + ln) + z + e,
{
    assert((lb + x + e) + (lr + y + e) + (ln + z + e) =~= lb + x + (e + lr) + y + (e + ln) + z + e);
}

/// A black factor beside a texture lets the texture shine alone; without one it is dark; any other
/// factor counts.
pub proof fn black_factors_are_dark(m: crate::document::MaterialView)
    requires
        m.emissive[0].0 == 0 && m.emissive[1].0 == 0 && m.emissive[2].0 == 0,
    ensures
        emissive_source_of(m, false) == EmissiveSource::Dark,
        emissive_source_of(m, true) == EmissiveSource::Unit,
        forall|v: Seq<crate::document::NumberView>, textured: bool|
            v[0].0 & 0x7fff_ffff != 0 || v[1].0 & 0x7fff_ffff != 0 || v[2].0 & 0x7fff_ffff != 0
                ==> #[trigger] emissive_source_of(
                (crate::document::MaterialView { emissive: v, ..m }),
                textured,
            ) == EmissiveSource::Factor,
{
    assert forall|v: Seq<crate::document::NumberView>, textured: bool|
        v[0].0 & 0x7fff_ffff != 0 || v[1].0 & 0x7fff_ffff != 0 || v[2].0 & 0x7fff_ffff != 0 implies #[trigger] emissive_source_of(
        (crate::document::MaterialView { emissive: v, ..m }),
        textured,
    ) == EmissiveSource::Factor by {
        let (r, g, b) = (v[0].0, v[1].0, v[2].0);
        assert(r == 0 || r == 0x8000_0000 ==> r & 0x7fff_ffff == 0) by (bit_vector);
        assert(g == 0 || g == 0x8000_0000 ==> g & 0x7fff_ffff == 0) by (bit_vector);
        assert(b == 0 || b == 0x8000_0000 ==> b & 0x7fff_ffff == 0) by (bit_vector);
    }
}

/// A material's tint is the first that the fixups give its name.
pub proof fn tints_go_by_name(list: Seq<(String, [Number; 4])>, k: int)
    requires
        0 <= k < list.len(),
        forall|j: int| 0 <= j < k ==> (#[trigger] list[j]).0@ != list[k].0@,
    ensures
        fixup_tint(list, list[k].0@) matches Some(t) && t.len() == 4 && forall|c: int|
            0 <= c < 4 ==> (#[trigger] t[c]) == list[k].1@[c]@,
    decreases k,
{
    if k > 0 {
        assert(list[0].0@ != list[k].0@);
        assert forall|j: int| 0 <= j < k - 1 implies (#[trigger] list.skip(1)[j]).0@ != list.skip(
            1,
        )[k - 1].0@ by {
            assert(list[j + 1].0@ != list[k].0@);
        }
        tints_go_by_name(list.skip(1), k - 1);
    }
}

/// A tint is written as the base colour whatever it is, black beside a texture among it: only a
/// factor without a tint is taken for an export slip.
pub proof fn tints_are_written(
    m: crate::document::MaterialView,
    a: Assets,
    radiance: Option<Seq<Seq<char>>>,
    cutoff: Option<Seq<char>>,
    n: Seq<char>,
    c: Seq<crate::document::NumberView>,
)
    requires
        m.name == Some(n),
        fixup_tint(a.fixups.tints@, n) == Some(c),
        fixup_texture(a.fixups.textures@, n) is None,
        c[0].0 != 0x3f80_0000 || c[1].0 != 0x3f80_0000 || c[2].0 != 0x3f80_0000 || c[3].0 != 0x3f80_0000,
    ensures
        has_inserted(
            fields_text(m, a, radiance, cutoff),
            fields_text(
                (crate::document::MaterialView {
                    base_color: seq![one(), one(), one(), one()],
                    name: None,
                    ..m
                }),
                a,
                radiance,
                cutoff,
            ),
            " base_color: bevy_color::color::Color::LinearRgba(bevy_color::linear_rgba::LinearRgba { red: "@
                + c[0].1 + ", green: "@ + c[1].1 + ", blue: "@ + c[2].1 + ", alpha: "@ + c[3].1
                + " }),"@,
        ),
{
    let white = crate::document::MaterialView {
        base_color: seq![one(), one(), one(), one()],
        name: None,
        ..m
    };
    let (f, t) = (factor_part(m), texture_part(m, a));
    let (e, k, g) = (emissive_part(m, a, radiance), cutout_part(cutoff), glass_part(m));
    assert(texture_part(white, a) == t);
    let p = color_part(m, a);
    lemma_six(p, f, t, e, k, g);
    lemma_six(Seq::<char>::empty(), f, t, e, k, g);
    lemma_empty_part(Seq::<char>::empty(), f + t + e + k + g);
    assert(color_part(white, a) == Seq::<char>::empty());
    lemma_inserted(
        fields_text(m, a, radiance, cutoff),
        fields_text(white, a, radiance, cutoff),
        Seq::<char>::empty(),
        p,
        f + t + e + k + g,
    );
}

/// A base colour was zeroed by an export exactly where no tint stands for it, a texture stands beside
/// it, and its red, green and blue are zero, of either sign.
pub proof fn zeroed_colors_are_told(m: crate::document::MaterialView, a: Assets)
    ensures
        ({
            let zero = |n: crate::document::NumberView| n.0 == 0 || n.0 == 0x8000_0000;
            zeroed_by_export(m, a) <==> {
                &&& m.name is None || fixup_tint(a.fixups.tints@, m.name->0) is None
                &&& m.images.base_color is Some
                &&& zero(m.base_color[0]) && zero(m.base_color[1]) && zero(m.base_color[2])
            }
        }),
{
}

/// A material without a fixup has the file of the image that it samples for its base colour, where
/// that was extracted.
pub proof fn colors_have_their_image(m: crate::document::MaterialView, a: Assets, i: usize)
    requires
        m.name is None || fixup_texture(a.fixups.textures@, m.name->0) is None,
    ensures
        m.images.base_color == Some(i) && i < a.image_files@.len() ==> base_color_file_of(m, a) == Some(
            a.image_files@[i as int]@,
        ),
        m.images.base_color is None ==> base_color_file_of(m, a) is None,
        m.images.base_color == Some(i) && i >= a.image_files@.len() ==> base_color_file_of(m, a) is None,
{
}

} // verus!
