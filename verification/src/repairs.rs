//! Repairs for materials whose export does not say what the author meant: a base colour zeroed
//! beside a texture, and a cutout texture on a material called opaque.

use vstd::prelude::*;
use crate::document::{AlphaMode, Material, Number};
use crate::material::{self, Assets};
use crate::text;

verus! {

/// What is known of the textures, and which materials were repaired.
pub struct Repairs {
    /// Texture file and whether its alpha is a genuine cutmask, each file once.
    pub cutmask: Vec<(String, bool)>,
    /// Materials whose zeroed base colour was ignored.
    pub zeroed: Vec<String>,
    /// Materials whose alpha mode was promoted.
    pub promoted: Vec<String>,
}

/// What is known of a texture file.
pub open spec fn known_cutmask(list: Seq<(String, bool)>, file: Seq<char>) -> Option<bool>
    decreases list.len(),
{
    if list.len() == 0 {
        None
    } else if list[0].0@ == file {
        Some(list[0].1)
    } else {
        known_cutmask(list.skip(1), file)
    }
}

/// What a material's alpha cutout is, or what must be known to tell.
pub enum Cutout {
    /// Nothing is cut.
    Solid,
    /// Cut at this alpha.
    At(Number),
    /// Cut where this texture's alpha is a cutmask.
    Ask(String),
}

/// What a [`Cutout`] holds.
pub ghost enum CutoutView {
    Solid,
    At(crate::document::NumberView),
    Ask(Seq<char>),
}

impl View for Cutout {
    type V = CutoutView;

    open spec fn view(&self) -> CutoutView {
        match *self {
            Cutout::Solid => CutoutView::Solid,
            Cutout::At(n) => CutoutView::At(n@),
            Cutout::Ask(f) => CutoutView::Ask(f@),
        }
    }
}

/// One half.
pub open spec fn half() -> crate::document::NumberView {
    (0x3f00_0000, "0.5"@)
}

/// The cutout that a texture's alpha makes.
pub open spec fn cutout_of_mask(cutmask: bool) -> CutoutView {
    if cutmask {
        CutoutView::At(half())
    } else {
        CutoutView::Solid
    }
}

/// A material's alpha cutout. A mask is taken at its word. Opaque is not, where the base-colour
/// texture's alpha is a genuine cutmask. Blend is left alone.
pub open spec fn cutout_for(
    m: crate::document::MaterialView,
    a: Assets,
    known: Seq<(String, bool)>,
) -> CutoutView {
    match m.alpha {
        AlphaMode::Mask => CutoutView::At(
            match m.alpha_cutoff {
                Some(c) => c,
                None => half(),
            },
        ),
        AlphaMode::Blend => CutoutView::Solid,
        AlphaMode::Opaque => match crate::material::base_color_file_of(m, a) {
            None => CutoutView::Solid,
            Some(f) => match known_cutmask(known, f) {
                Some(c) => cutout_of_mask(c),
                None => CutoutView::Ask(f),
            },
        },
    }
}

/// The name a material is reported under.
pub open spec fn report_name(m: crate::document::MaterialView) -> Seq<char> {
    match m.name {
        Some(n) => n,
        None => "<unnamed>"@,
    }
}

/// A list of names with one more, unless it holds it already.
pub open spec fn noted(list: Seq<Seq<char>>, name: Seq<char>) -> Seq<Seq<char>> {
    if list.contains(name) {
        list
    } else {
        list.push(name)
    }
}

fn note(list: &mut Vec<String>, m: &Material)
    ensures
        text::texts(final(list)@) == noted(text::texts(old(list)@), report_name(m@)),
{
    let name = match &m.name {
        Some(n) => n.clone(),
        None => "<unnamed>".to_owned(),
    };
    if !text::list_contains(list, name.as_str()) {
        list.push(name);
    }
    assert(text::texts(final(list)@) =~= noted(text::texts(old(list)@), report_name(m@)));
}

fn half_number() -> (r: Number)
    ensures
        r@ == half(),
{
    Number { bits: 0x3f00_0000, text: "0.5".to_owned() }
}

impl Repairs {
    pub fn new() -> (r: Repairs)
        ensures
            r.cutmask@.len() == 0,
            r.zeroed@.len() == 0,
            r.promoted@.len() == 0,
    {
        Repairs { cutmask: Vec::new(), zeroed: Vec::new(), promoted: Vec::new() }
    }

    fn lookup(&self, file: &str) -> (r: Option<bool>)
        ensures
            r == known_cutmask(self.cutmask@, file@),
    {
        assert(self.cutmask@.skip(0) =~= self.cutmask@);
        for i in 0..self.cutmask.len()
            invariant
                known_cutmask(self.cutmask@, file@) == known_cutmask(
                    self.cutmask@.skip(i as int),
                    file@,
                ),
        {
            assert(self.cutmask@.skip(i as int).skip(1) =~= self.cutmask@.skip(i + 1));
            if text::same_text(self.cutmask[i].0.as_str(), file) {
                return Some(self.cutmask[i].1);
            }
        }
        None
    }

    /// The alpha cutout this material should be treated as having, as far as the textures are
    /// known.
    pub fn alpha_cutout(&self, m: &Material, a: &Assets) -> (r: Cutout)
        ensures
            r@ == cutout_for(m@, *a, self.cutmask@),
    {
        match m.alpha {
            AlphaMode::Mask => match &m.alpha_cutoff {
                Some(c) => Cutout::At(crate::document::copy_number(c)),
                None => Cutout::At(half_number()),
            },
            AlphaMode::Blend => Cutout::Solid,
            AlphaMode::Opaque => match a.base_color_file(m) {
                None => Cutout::Solid,
                Some(f) => match self.lookup(f.as_str()) {
                    Some(c) => if c {
                        Cutout::At(half_number())
                    } else {
                        Cutout::Solid
                    },
                    None => Cutout::Ask(f),
                },
            },
        }
    }

    /// Learns whether a texture is a cutmask, and notes the material that asked as promoted
    /// where it is.
    pub fn learn(&mut self, m: &Material, file: &str, cutmask: bool) -> (r: Cutout)
        requires
            known_cutmask(old(self).cutmask@, file@) is None,
        ensures
            r@ == cutout_of_mask(cutmask),
            known_cutmask(final(self).cutmask@, file@) == Some(cutmask),
            forall|f: Seq<char>|
                f != file@ ==> #[trigger] known_cutmask(final(self).cutmask@, f) == known_cutmask(
                    old(self).cutmask@,
                    f,
                ),
            text::texts(final(self).promoted@) == (if cutmask {
                noted(text::texts(old(self).promoted@), report_name(m@))
            } else {
                text::texts(old(self).promoted@)
            }),
            final(self).zeroed@ == old(self).zeroed@,
    {
        let ghost before = self.cutmask@;
        self.cutmask.push((file.to_owned(), cutmask));
        proof {
            lemma_push_known(before, self.cutmask@.last(), file@);
            assert forall|f: Seq<char>| f != file@ implies #[trigger] known_cutmask(
                self.cutmask@,
                f,
            ) == known_cutmask(before, f) by {
                lemma_push_known(before, self.cutmask@.last(), f);
            }
        }
        if cutmask {
            note(&mut self.promoted, m);
            Cutout::At(half_number())
        } else {
            Cutout::Solid
        }
    }

    /// Notes a material whose base-colour factor was zeroed against a texture, once.
    pub fn note_zeroed(&mut self, m: &Material)
        ensures
            text::texts(final(self).zeroed@) == noted(
                text::texts(old(self).zeroed@),
                report_name(m@),
            ),
            final(self).promoted@ == old(self).promoted@,
            final(self).cutmask@ == old(self).cutmask@,
    {
        note(&mut self.zeroed, m);
    }

    /// Writes a material's fields, and notes it where its base colour was zeroed beside a texture.
    pub fn write_fields(
        &mut self,
        m: &Material,
        a: &Assets,
        radiance: &Option<[String; 3]>,
        cutoff: &Option<String>,
    ) -> (r: String)
        ensures
            r@ == material::fields_text(
                m@,
                *a,
                material::opt_color(*radiance),
                crate::document::opt_text(*cutoff),
            ),
            text::texts(final(self).zeroed@) == (if material::zeroed_by_export(m@, *a) {
                noted(text::texts(old(self).zeroed@), report_name(m@))
            } else {
                text::texts(old(self).zeroed@)
            }),
            final(self).promoted@ == old(self).promoted@,
            final(self).cutmask@ == old(self).cutmask@,
    {
        if material::is_zeroed(m, a) {
            self.note_zeroed(m);
        }
        material::material_fields(m, a, radiance, cutoff)
    }

    /// The lines that say what was repaired.
    pub fn report(&self) -> (r: Vec<String>)
        ensures
            text::texts(r@) == repair_lines(text::texts(self.zeroed@), text::texts(self.promoted@)),
    {
        let mut out: Vec<String> = Vec::new();
        if self.zeroed.len() > 0 {
            out.push(
                repair_line(
                    "  repaired ",
                    &self.zeroed,
                    " material(s) whose base colour factor was 0 beside a texture: ",
                ),
            );
        }
        if self.promoted.len() > 0 {
            out.push(
                repair_line(
                    "  promoted ",
                    &self.promoted,
                    " opaque material(s) to alpha Mask (cutmask texture): ",
                ),
            );
        }
        assert(text::texts(out@) =~= repair_lines(
            text::texts(self.zeroed@),
            text::texts(self.promoted@),
        ));
        out
    }
}

proof fn lemma_push_known(list: Seq<(String, bool)>, e: (String, bool), file: Seq<char>)
    ensures
        known_cutmask(list.push(e), file) == (match known_cutmask(list, file) {
            Some(c) => Some(c),
            None => if e.0@ == file {
                Some(e.1)
            } else {
                None
            },
        }),
    decreases list.len(),
{
    reveal_with_fuel(known_cutmask, 2);
    if list.len() == 0 {
        assert(list.push(e).skip(1) =~= Seq::<(String, bool)>::empty());
    } else {
        assert(list.push(e).skip(1) =~= list.skip(1).push(e));
        lemma_push_known(list.skip(1), e, file);
    }
}

/// A line that counts and lists material names.
pub open spec fn name_line(
    head: Seq<char>,
    names: Seq<Seq<char>>,
    middle: Seq<char>,
) -> Seq<char> {
    head + text::decimal(names.len()) + middle + text::joined(names, ", "@)
}

pub fn repair_line(head: &str, names: &Vec<String>, middle: &str) -> (r: String)
    ensures
        r@ == name_line(head@, text::texts(names@), middle@),
{
    let mut out = head.to_owned();
    text::push_decimal(&mut out, names.len() as u64);
    out.append(middle);
    let list = text::join(names, ", ");
    out.append(list.as_str());
    out
}

/// The lines that say what was repaired: one for the zeroed colours, one for the promoted
/// cutouts, each where there are any.
pub open spec fn repair_lines(zeroed: Seq<Seq<char>>, promoted: Seq<Seq<char>>) -> Seq<Seq<char>> {
    let first = if zeroed.len() > 0 {
        seq![
            name_line(
                "  repaired "@,
                zeroed,
                " material(s) whose base colour factor was 0 beside a texture: "@,
            ),
        ]
    } else {
        seq![]
    };
    let second = if promoted.len() > 0 {
        seq![
            name_line(
                "  promoted "@,
                promoted,
                " opaque material(s) to alpha Mask (cutmask texture): "@,
            ),
        ]
    } else {
        seq![]
    };
    first + second
}

/// A material is noted once however often it is met.
pub proof fn noting_twice_is_noting_once(list: Seq<Seq<char>>, name: Seq<char>)
    ensures
        noted(noted(list, name), name) == noted(list, name),
{
    if !list.contains(name) {
        assert(list.push(name)[list.len() as int] == name);
    }
}

/// A mask is cut at its own cutoff, or at one half where it gives none. Nothing is cut of a blend.
/// An opaque material is cut, at one half, exactly where the alpha of its base-colour texture is
/// known to be a cutmask; what is not known is asked for, by the texture's file.
pub proof fn cutouts_follow_the_alpha(
    m: crate::document::MaterialView,
    a: Assets,
    known: Seq<(String, bool)>,
)
    ensures
        ({
            let c = cutout_for(m, a, known);
            let half_one = CutoutView::At((0x3f00_0000u32, "0.5"@));
            &&& m.alpha is Mask && m.alpha_cutoff is Some ==> c == CutoutView::At(m.alpha_cutoff->0)
            &&& m.alpha is Mask && m.alpha_cutoff is None ==> c == half_one
            &&& m.alpha is Blend ==> c is Solid
            &&& m.alpha is Opaque ==> match crate::material::base_color_file_of(m, a) {
                None => c is Solid,
                Some(f) => match known_cutmask(known, f) {
                    Some(true) => c == half_one,
                    Some(false) => c is Solid,
                    None => c == CutoutView::Ask(f),
                },
            }
        }),
{
}

/// What is known of a texture is what was first noted of its file; of a file that was never noted
/// nothing is known.
pub proof fn textures_are_known_by_their_file(list: Seq<(String, bool)>, file: Seq<char>, k: int)
    requires
        0 <= k < list.len(),
        list[k].0@ == file,
        forall|j: int| 0 <= j < k ==> (#[trigger] list[j]).0@ != file,
    ensures
        known_cutmask(list, file) == Some(list[k].1),
    decreases k,
{
    if k > 0 {
        let rest = list.skip(1);
        assert(list[0].0@ != file);
        assert forall|j: int| 0 <= j < k - 1 implies (#[trigger] rest[j]).0@ != file by {
            assert(rest[j] == list[j + 1]);
        }
        textures_are_known_by_their_file(rest, file, k - 1);
    }
}

/// The reports say how many materials were repaired and which, the zeroed ones before the promoted
/// ones; nothing is said where nothing was repaired.
pub proof fn repairs_are_told(zeroed: Seq<Seq<char>>, promoted: Seq<Seq<char>>)
    requires
        zeroed.len() > 0,
        promoted.len() > 0,
    ensures
        ({
            let e = Seq::<Seq<char>>::empty();
            let z = "  repaired "@ + text::decimal(zeroed.len())
                + " material(s) whose base colour factor was 0 beside a texture: "@ + text::joined(
                zeroed,
                ", "@,
            );
            let p = "  promoted "@ + text::decimal(promoted.len())
                + " opaque material(s) to alpha Mask (cutmask texture): "@ + text::joined(promoted, ", "@);
            &&& repair_lines(e, e).len() == 0
            &&& repair_lines(zeroed, e) == seq![z]
            &&& repair_lines(e, promoted) == seq![p]
            &&& repair_lines(zeroed, promoted) == seq![z, p]
        }),
{
    let e = Seq::<Seq<char>>::empty();
    assert(repair_lines(zeroed, e).len() == 1);
    assert(repair_lines(e, promoted).len() == 1);
    assert(repair_lines(zeroed, promoted).len() == 2);
}

/// A noted name is in the list, the names before it stay, and none is there twice.
pub proof fn notes_keep_what_was_noted(list: Seq<Seq<char>>, name: Seq<char>)
    requires
        list.no_duplicates(),
    ensures
        noted(list, name).contains(name),
        list.is_prefix_of(noted(list, name)),
        noted(list, name).no_duplicates(),
        noted(list, name).len() <= list.len() + 1,
{
    if !list.contains(name) {
        assert(list.push(name)[list.len() as int] == name);
    }
}

/// A cutout keeps what it is.
pub proof fn cutouts_keep_their_kind(c: Cutout)
    ensures
        match c {
            Cutout::Solid => c@ is Solid,
            Cutout::At(n) => c@ == CutoutView::At((n.bits, n.text@)),
            Cutout::Ask(f) => c@ == CutoutView::Ask(f@),
        },
{
}

} // verus!
