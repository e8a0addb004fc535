//! Bake-time checks on imported materials, and the report of them.

use vstd::prelude::*;
use crate::document::Material;
use crate::material::EmissiveSource;
use crate::repairs;
use crate::text;

verus! {

/// Summary of a bake's material lint.
pub struct Report {
    pub emitters: usize,
    pub warnings: Vec<String>,
    pub white_plastic: Vec<String>,
}

impl Default for Report {
    fn default() -> (r: Report)
        ensures
            r.emitters == 0,
            r.warnings@.len() == 0,
            r.white_plastic@.len() == 0,
    {
        Report { emitters: 0, warnings: Vec::new(), white_plastic: Vec::new() }
    }
}

/// Whether float bits are one in every channel.
pub open spec fn all_ones(c: Seq<u32>) -> bool {
    c[0] == 0x3f80_0000 && c[1] == 0x3f80_0000 && c[2] == 0x3f80_0000 && c[3] == 0x3f80_0000
}

/// Whether a material would render as untextured default white, from the bits of its base colour.
pub fn is_default_white(base_color: [u32; 4], has_any_texture: bool) -> (r: bool)
    ensures
        r == (!has_any_texture && all_ones(base_color@)),
{
    !has_any_texture && base_color[0] == 0x3f80_0000 && base_color[1] == 0x3f80_0000
        && base_color[2] == 0x3f80_0000 && base_color[3] == 0x3f80_0000
}

/// Whether a material samples a base-colour, metallic-roughness or normal texture.
pub open spec fn is_textured(m: crate::document::MaterialView) -> bool {
    m.images.base_color is Some || m.images.metallic_roughness is Some || m.images.normal is Some
}

/// Whether a material renders as untextured default white.
pub open spec fn is_white_plastic(m: crate::document::MaterialView) -> bool {
    !is_textured(m) && all_ones(
        seq![m.base_color[0].0, m.base_color[1].0, m.base_color[2].0, m.base_color[3].0],
    )
}

/// Whether a material emits.
pub open spec fn is_emitter(m: crate::document::MaterialView) -> bool {
    crate::material::emissive_source_of(m, m.images.emissive is Some) != EmissiveSource::Dark
}

/// The materials of a list.
pub open spec fn views(ms: Seq<Material>) -> Seq<crate::document::MaterialView> {
    ms.map_values(|m: Material| m@)
}

/// How many materials emit.
pub open spec fn emitter_count(ms: Seq<crate::document::MaterialView>) -> nat
    decreases ms.len(),
{
    if ms.len() == 0 {
        0
    } else {
        emitter_count(ms.drop_last()) + if is_emitter(ms.last()) {
            1nat
        } else {
            0nat
        }
    }
}

/// The warnings on emitters without a texture, in order. (A textured emitter's factor is only a
/// tint, so a low one is expected.)
pub open spec fn warning_list(
    ms: Seq<crate::document::MaterialView>,
    dim: Seq<Option<Seq<char>>>,
) -> Seq<Seq<char>>
    decreases ms.len(),
{
    if ms.len() == 0 {
        seq![]
    } else {
        let rest = warning_list(ms.drop_last(), dim);
        match dim[ms.len() - 1] {
            Some(w) if is_emitter(ms.last()) && ms.last().images.emissive is None => rest.push(w),
            _ => rest,
        }
    }
}

/// The names of the materials that render as untextured default white, in order.
pub open spec fn white_list(ms: Seq<crate::document::MaterialView>) -> Seq<Seq<char>>
    decreases ms.len(),
{
    if ms.len() == 0 {
        seq![]
    } else if is_white_plastic(ms.last()) {
        white_list(ms.drop_last()).push(repairs::report_name(ms.last()))
    } else {
        white_list(ms.drop_last())
    }
}

/// The texts of a list of optional strings.
pub open spec fn opt_texts(v: Seq<Option<String>>) -> Seq<Option<Seq<char>>> {
    v.map_values(|s: Option<String>| crate::document::opt_text(s))
}

/// The bits of the float one tenth: the fraction of the white point under which an emitter is dim.
pub const DIM_FRACTION: u32 = 0x3dcc_cccd;

/// The bits of the float after one: no factor is larger than one, give or take its last place.
pub const LARGEST_FACTOR: u32 = 0x3f80_0001;

/// Whether a float is under one that is positive, both by their bits: all that is negative is, and
/// what is no number is not.
pub open spec fn float_under(bits: u32, limit: u32) -> bool {
    bits < limit || 0x8000_0000 <= bits <= 0xff80_0000
}

/// How bright an emitter renders: the bits of what it exposes to and of the brightest component of
/// its radiance, and its numbers as they are printed.
pub struct Dimness {
    pub exposure: u32,
    pub brightest: u32,
    /// The brightest component of the radiance.
    pub peak: String,
    /// The luminance, in nits.
    pub luminance: String,
    /// What it exposes to, to five places.
    pub black: String,
    /// What it exposes to, to four places.
    pub exposed: String,
    /// The luminance that a visible emitter needs.
    pub needed: String,
}

impl Dimness {
    /// Whether the emitter renders under the threshold.
    pub open spec fn dim(self) -> bool {
        float_under(self.exposure, DIM_FRACTION)
    }

    /// Whether no component is larger than a factor can be.
    pub open spec fn factor(self) -> bool {
        self.brightest == LARGEST_FACTOR || float_under(self.brightest, LARGEST_FACTOR)
    }
}

/// The warning that a dim emitter earns: one whose peak is a factor's was authored as a factor.
pub open spec fn dim_text(name: Seq<char>, d: Dimness) -> Seq<char> {
    if d.factor() {
        name + ": emissive peak "@ + d.peak@
            + " <= 1.0 — looks like a glTF [0,1] FACTOR, not radiance. Exposed at EV100 9.7 it renders "@
            + d.black@ + " (black). Scale to nits (>= "@ + d.needed@
            + ") or set `emissive_nits` for this material."@
    } else {
        name + ": emissive luminance "@ + d.luminance@ + " nits exposes to "@ + d.exposed@
            + ", under 0.1 of the white point — visible as near-black. Authored in scene-relative units? (>= "@
            + d.needed@ + " nits reads as a dim emitter; ~1000 is white.)"@
    }
}

fn is_float_under(bits: u32, limit: u32) -> (r: bool)
    ensures
        r == float_under(bits, limit),
{
    bits < limit || (0x8000_0000 <= bits && bits <= 0xff80_0000)
}

/// The warning that an emitter earns, if it is dim.
pub fn dim_warning(name: &str, d: &Dimness) -> (r: Option<String>)
    ensures
        match r {
            Some(w) => d.dim() && w@ == dim_text(name@, *d),
            None => !d.dim(),
        },
{
    if !is_float_under(d.exposure, DIM_FRACTION) {
        return None;
    }
    let mut out = name.to_owned();
    if d.brightest == LARGEST_FACTOR || is_float_under(d.brightest, LARGEST_FACTOR) {
        out.append(": emissive peak ");
        out.append(d.peak.as_str());
        out.append(
            " <= 1.0 — looks like a glTF [0,1] FACTOR, not radiance. Exposed at EV100 9.7 it renders ",
        );
        out.append(d.black.as_str());
        out.append(" (black). Scale to nits (>= ");
        out.append(d.needed.as_str());
        out.append(") or set `emissive_nits` for this material.");
    } else {
        out.append(": emissive luminance ");
        out.append(d.luminance.as_str());
        out.append(" nits exposes to ");
        out.append(d.exposed.as_str());
        out.append(
            ", under 0.1 of the white point — visible as near-black. Authored in scene-relative units? (>= ",
        );
        out.append(d.needed.as_str());
        out.append(" nits reads as a dim emitter; ~1000 is white.)");
    }
    Some(out)
}

/// Lints every material. `dim` holds, for each, the warning that its radiance earns, if any.
pub fn lint_materials(ms: &Vec<Material>, dim: &Vec<Option<String>>) -> (r: Report)
    requires
        ms@.len() == dim@.len(),
    ensures
        r.emitters == emitter_count(views(ms@)),
        text::texts(r.warnings@) == warning_list(views(ms@), opt_texts(dim@)),
        text::texts(r.white_plastic@) == white_list(views(ms@)),
{
    let mut report = Report::default();
    let ghost all = views(ms@);
    let ghost d = opt_texts(dim@);
    assert(text::texts(report.warnings@) =~= warning_list(all.take(0), d));
    assert(text::texts(report.white_plastic@) =~= white_list(all.take(0)));
    for i in 0..ms.len()
        invariant
            ms@.len() == dim@.len(),
            all == views(ms@),
            d == opt_texts(dim@),
            report.emitters <= i,
            report.emitters == emitter_count(all.take(i as int)),
            text::texts(report.warnings@) == warning_list(all.take(i as int), d),
            text::texts(report.white_plastic@) == white_list(all.take(i as int)),
    {
        let m = &ms[i];
        let ghost now = all.take(i + 1);
        assert(now.drop_last() =~= all.take(i as int));
        assert(now.last() == m@);
        let ghost warned = text::texts(report.warnings@);
        let ghost white = text::texts(report.white_plastic@);
        assert(d[i as int] == crate::document::opt_text(dim@[i as int]));
        let glows = m.images.emissive.is_some();
        let source = crate::material::emissive_source(m, glows);
        if source != EmissiveSource::Dark {
            report.emitters = report.emitters + 1;
            if !glows {
                if let Some(w) = &dim[i] {
                    report.warnings.push(w.clone());
                    assert(text::texts(report.warnings@) =~= warned.push(w@));
                }
            }
        }
        let textured = m.images.base_color.is_some() || m.images.metallic_roughness.is_some()
            || m.images.normal.is_some();
        let bits = [
            m.base_color[0].bits,
            m.base_color[1].bits,
            m.base_color[2].bits,
            m.base_color[3].bits,
        ];
        if is_default_white(bits, textured) {
            let name = match &m.name {
                Some(n) => n.clone(),
                None => "<unnamed>".to_owned(),
            };
            report.white_plastic.push(name);
            assert(text::texts(report.white_plastic@) =~= white.push(repairs::report_name(m@)));
        }
    }
    assert(all.take(all.len() as int) =~= all);
    report
}

/// The lines of a report.
pub open spec fn report_lines(
    emitters: nat,
    warnings: Seq<Seq<char>>,
    white: Seq<Seq<char>>,
) -> Seq<Seq<char>> {
    let head = if emitters > 0 {
        seq!["lint: "@ + text::decimal(emitters) + " emissive material(s)"@]
    } else {
        seq![]
    };
    let body = warnings.map_values(|w: Seq<char>| "  WARN "@ + w);
    let plastic = if white.len() > 0 {
        seq![
            repairs::name_line(
                "  WARN "@,
                white,
                " material(s) have no textures and default white base_color — they will render as flat white plastic: "@,
            ),
        ]
    } else {
        seq![]
    };
    let calm = if warnings.len() == 0 && white.len() == 0 {
        seq!["lint: no material warnings"@]
    } else {
        seq![]
    };
    head + body + plastic + calm
}

impl Report {
    /// The lines of the report, in the order they are printed.
    pub fn print(&self) -> (r: Vec<String>)
        ensures
            text::texts(r@) == report_lines(
                self.emitters as nat,
                text::texts(self.warnings@),
                text::texts(self.white_plastic@),
            ),
    {
        let mut out: Vec<String> = Vec::new();
        if self.emitters > 0 {
            let mut line = "lint: ".to_owned();
            text::push_decimal(&mut line, self.emitters as u64);
            line.append(" emissive material(s)");
            out.push(line);
        }
        let ghost head = text::texts(out@);
        assert(head =~= (if self.emitters > 0 {
            seq!["lint: "@ + text::decimal(self.emitters as nat) + " emissive material(s)"@]
        } else {
            seq![]
        }));
        let ghost body = text::texts(self.warnings@).map_values(|w: Seq<char>| "  WARN "@ + w);
        for i in 0..self.warnings.len()
            invariant
                body == text::texts(self.warnings@).map_values(|w: Seq<char>| "  WARN "@ + w),
                text::texts(out@) == head + body.take(i as int),
        {
            let ghost before = out@;
            let mut line = "  WARN ".to_owned();
            line.append(self.warnings[i].as_str());
            assert(line@ == body[i as int]);
            out.push(line);
            assert(text::texts(out@) =~= text::texts(before).push(body[i as int]));
            assert(body.take(i + 1) =~= body.take(i as int).push(body[i as int]));
            assert(text::texts(out@) =~= head + body.take(i + 1));
        }
        assert(body.take(body.len() as int) =~= body);
        let ghost so_far = text::texts(out@);
        if self.white_plastic.len() > 0 {
            out.push(
                repairs::repair_line(
                    "  WARN ",
                    &self.white_plastic,
                    " material(s) have no textures and default white base_color — they will render as flat white plastic: ",
                ),
            );
        }
        let ghost plastic = text::texts(out@);
        assert(plastic =~= so_far + (if self.white_plastic@.len() > 0 {
            seq![
                repairs::name_line(
                    "  WARN "@,
                    text::texts(self.white_plastic@),
                    " material(s) have no textures and default white base_color — they will render as flat white plastic: "@,
                ),
            ]
        } else {
            seq![]
        }));
        if self.warnings.len() == 0 && self.white_plastic.len() == 0 {
            out.push("lint: no material warnings".to_owned());
        }
        assert(text::texts(out@) =~= report_lines(
            self.emitters as nat,
            text::texts(self.warnings@),
            text::texts(self.white_plastic@),
        ));
        out
    }
}

/// Emitters are counted one by one: a material emits where its emissive factor is not black or where
/// it samples an emissive texture.
pub proof fn emitters_are_counted(ms: Seq<crate::document::MaterialView>)
    ensures
        emitter_count(ms) == ms.filter(|m: crate::document::MaterialView| is_emitter(m)).len(),
        forall|k: int|
            #![trigger ms[k]]
            0 <= k < ms.len() && ms[k].images.emissive is Some ==> is_emitter(ms[k]),
        forall|k: int|
            #![trigger ms[k]]
            0 <= k < ms.len() && ms[k].emissive[0].0 == 0 && ms[k].emissive[1].0 == 0
                && ms[k].emissive[2].0 == 0 && ms[k].images.emissive is None ==> !is_emitter(ms[k]),
        forall|k: int, c: int|
            #![trigger ms[k].emissive[c]]
            0 <= k < ms.len() && 0 <= c < 3 && 0 < ms[k].emissive[c].0 < 0x8000_0000 ==> is_emitter(
                ms[k],
            ),
    decreases ms.len(),
{
    reveal(Seq::filter);
    if ms.len() > 0 {
        emitters_are_counted(ms.drop_last());
    }
}

/// The names of a list of materials.
pub open spec fn lint_names(ms: Seq<crate::document::MaterialView>) -> Seq<Seq<char>> {
    ms.map_values(
        |m: crate::document::MaterialView|
            match m.name {
                Some(n) => n,
                None => "<unnamed>"@,
            },
    )
}

/// Whether a material has no base-colour, metallic-roughness or normal texture, and a base colour
/// of one in all four channels.
pub open spec fn is_plain_white(m: crate::document::MaterialView) -> bool {
    &&& m.images.base_color is None && m.images.metallic_roughness is None && m.images.normal is None
    &&& forall|c: int| 0 <= c < 4 ==> (#[trigger] m.base_color[c]).0 == 0x3f80_0000
}

/// The white list names exactly the materials that are plain white, in order.
pub proof fn white_materials_are_listed(ms: Seq<crate::document::MaterialView>)
    ensures
        white_list(ms) == lint_names(
            ms.filter(|m: crate::document::MaterialView| is_plain_white(m)),
        ),
    decreases ms.len(),
{
    reveal(Seq::filter);
    if ms.len() > 0 {
        let m = ms.last();
        let less = ms.drop_last();
        white_materials_are_listed(less);
        assert(is_white_plastic(m) == is_plain_white(m)) by {
            if is_white_plastic(m) {
                assert(m.base_color[0].0 == 0x3f80_0000);
                assert(m.base_color[1].0 == 0x3f80_0000);
                assert(m.base_color[2].0 == 0x3f80_0000);
                assert(m.base_color[3].0 == 0x3f80_0000);
            }
        }
        let kept = less.filter(|m: crate::document::MaterialView| is_plain_white(m));
        assert(lint_names(kept.push(m)) =~= lint_names(kept).push(repairs::report_name(m)));
    }
    assert(white_list(ms) =~= lint_names(
        ms.filter(|m: crate::document::MaterialView| is_plain_white(m)),
    ));
}

/// A warning is listed for each emitter without an emissive texture that earned one, in order.
pub proof fn warnings_are_listed(
    ms: Seq<crate::document::MaterialView>,
    m: crate::document::MaterialView,
    dim: Seq<Option<Seq<char>>>,
    w: Seq<char>,
)
    requires
        ms.len() == dim.len(),
    ensures
        ({
            let more = ms.push(m);
            let before = warning_list(ms, dim);
            &&& is_emitter(m) && m.images.emissive is None ==> warning_list(more, dim.push(Some(w)))
                == before.push(w)
            &&& warning_list(more, dim.push(None)) == before
            &&& m.images.emissive is Some ==> warning_list(more, dim.push(Some(w))) == before
            &&& !is_emitter(m) ==> warning_list(more, dim.push(Some(w))) == before
        }),
        warning_list(Seq::<crate::document::MaterialView>::empty(), dim).len() == 0,
{
    assert(ms.push(m).drop_last() =~= ms);
    lemma_warnings(ms, dim, dim.push(Some(w)));
    lemma_warnings(ms, dim, dim.push(None));
}

proof fn lemma_warnings(
    ms: Seq<crate::document::MaterialView>,
    a: Seq<Option<Seq<char>>>,
    b: Seq<Option<Seq<char>>>,
)
    requires
        ms.len() <= a.len(),
        ms.len() <= b.len(),
        forall|k: int| 0 <= k < ms.len() ==> #[trigger] a[k] == b[k],
    ensures
        warning_list(ms, a) == warning_list(ms, b),
    decreases ms.len(),
{
    if ms.len() > 0 {
        lemma_warnings(ms.drop_last(), a, b);
        assert(a[ms.len() - 1] == b[ms.len() - 1]);
    }
}

/// An emitter is dim under a tenth of the white point, and was authored as a factor where no
/// component exceeds one; a warning says which, and by what numbers.
pub proof fn dim_warnings_say_why(name: Seq<char>, d: Dimness)
    requires
        d.exposure < 0x8000_0000,
        d.brightest < 0x8000_0000,
    ensures
        d.dim() <==> d.exposure < 0x3dcc_cccd,
        d.factor() <==> d.brightest <= 0x3f80_0001,
        text::begins_with(
            dim_text(name, d),
            if d.brightest <= 0x3f80_0001 {
                name + ": emissive peak "@ + d.peak@ + " <= 1.0"@
            } else {
                name + ": emissive luminance "@ + d.luminance@ + " nits exposes to "@ + d.exposed@
            },
        ),
{
    reveal_strlit(" <= 1.0");
    reveal_strlit(
        " <= 1.0 — looks like a glTF [0,1] FACTOR, not radiance. Exposed at EV100 9.7 it renders ",
    );
    let full = dim_text(name, d);
    if d.brightest <= 0x3f80_0001 {
        let part = name + ": emissive peak "@ + d.peak@ + " <= 1.0"@;
        let tail =
            " <= 1.0 — looks like a glTF [0,1] FACTOR, not radiance. Exposed at EV100 9.7 it renders "@;
        assert(tail.subrange(0, " <= 1.0"@.len() as int) =~= " <= 1.0"@);
        let head = name + ": emissive peak "@ + d.peak@;
        assert(full.subrange(0, (head + tail).len() as int) =~= head + tail);
        assert(part =~= (head + tail).subrange(0, part.len() as int));
        assert(full.subrange(0, part.len() as int) =~= part);
    } else {
        let part = name + ": emissive luminance "@ + d.luminance@ + " nits exposes to "@ + d.exposed@;
        assert(full.subrange(0, part.len() as int) =~= part);
    }
}

/// A report counts the emitters first, where there are any, warns of each dim one, then of the
/// white materials, and is calm only where there is nothing to warn of.
pub proof fn reports_list_everything(
    emitters: nat,
    warnings: Seq<Seq<char>>,
    white: Seq<Seq<char>>,
    k: int,
)
    requires
        0 <= k < warnings.len(),
        white.len() > 0,
    ensures
        ({
            let e = Seq::<Seq<char>>::empty();
            let first = "lint: "@ + text::decimal(emitters + 1) + " emissive material(s)"@;
            &&& report_lines(0, warnings, e).len() == warnings.len()
            &&& report_lines(0, warnings, e)[k] == "  WARN "@ + warnings[k]
            &&& report_lines(emitters + 1, warnings, e).len() == warnings.len() + 1
            &&& report_lines(emitters + 1, warnings, e)[0] == first
            &&& report_lines(emitters + 1, warnings, e)[k + 1] == "  WARN "@ + warnings[k]
            &&& report_lines(0, e, e) == seq!["lint: no material warnings"@]
            &&& report_lines(emitters + 1, e, e) == seq![first, "lint: no material warnings"@]
            &&& report_lines(0, warnings, white).len() == warnings.len() + 1
            &&& report_lines(0, e, white) == seq![
                "  WARN "@ + text::decimal(white.len())
                    + " material(s) have no textures and default white base_color — they will render as flat white plastic: "@
                    + text::joined(white, ", "@),
            ]
        }),
{
    let e = Seq::<Seq<char>>::empty();
    let first = "lint: "@ + text::decimal(emitters + 1) + " emissive material(s)"@;
    assert(report_lines(emitters + 1, e, e) =~= seq![first, "lint: no material warnings"@]);
    assert(report_lines(0, e, e) =~= seq!["lint: no material warnings"@]);
    assert(report_lines(0, e, white) =~= seq![
        "  WARN "@ + text::decimal(white.len())
            + " material(s) have no textures and default white base_color — they will render as flat white plastic: "@
            + text::joined(white, ", "@),
    ]);
}

} // verus!
