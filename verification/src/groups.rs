//! A kit of props: one scene per group node, named without collisions, and the manifest that
//! lists them.

use vstd::prelude::*;
use crate::document::{Document, ImageRecord};
use crate::names;
use crate::order;
use crate::scene::Stage;
use crate::text;
use crate::tree::SceneNode;
use crate::walk::Placement;

verus! {

/// A group that becomes a scene of its own.
pub struct GroupPlan {
    pub node: usize,
    pub stem: String,
    pub placements: Vec<Placement>,
}

/// The stems of a list of plans.
pub open spec fn stems(plans: Seq<GroupPlan>) -> Seq<Seq<char>> {
    plans.map_values(|g: GroupPlan| g.stem@)
}

/// The groups that show anything, in order.
pub open spec fn shown_groups(stage: Stage, list: Seq<SceneNode>) -> Seq<SceneNode>
    decreases list.len(),
{
    if list.len() == 0 {
        seq![]
    } else if stage.placements(list.last()).len() > 0 {
        shown_groups(stage, list.drop_last()).push(list.last())
    } else {
        shown_groups(stage, list.drop_last())
    }
}

/// Whether a stem is the first free one for a group, after the stems before it.
pub open spec fn is_group_stem(
    doc: Document,
    node: usize,
    before: Seq<Seq<char>>,
    stem: Seq<char>,
) -> bool {
    exists|n: nat| #[trigger]
        names::first_free(
            names::group_base(crate::document::opt_text(doc.nodes@[node as int].name), node as nat),
            seq![],
            before,
            n,
        ) && stem == names::numbered(
            names::group_base(crate::document::opt_text(doc.nodes@[node as int].name), node as nat),
            seq![],
            n,
        )
}

/// Whether a list of plans is one for each group that shows anything, in order, with its
/// placements and a stem that neither the whole scene nor an earlier group has.
pub open spec fn plans_groups(
    stage: Stage,
    scene_name: Seq<char>,
    list: Seq<SceneNode>,
    plans: Seq<GroupPlan>,
) -> bool {
    let shown = shown_groups(stage, list);
    &&& plans.len() == shown.len()
    &&& forall|k: int|
        0 <= k < plans.len() ==> {
            &&& (#[trigger] plans[k]).node == shown[k].index
            &&& plans[k].placements@ == stage.placements(shown[k])
            &&& is_group_stem(
                stage.doc,
                shown[k].index,
                seq![scene_name] + stems(plans).take(k),
                plans[k].stem@,
            )
        }
}

/// Plans one scene per group: a group without triangle primitives is left out, the others get
/// their placements and a stem of their own. `scene_name` is that of the scene of all groups,
/// which stands beside theirs.
pub fn plan_groups(stage: &Stage, scene_name: &str, groups: &Vec<SceneNode>) -> (r: Vec<GroupPlan>)
    requires
        forall|k: int|
            0 <= k < groups@.len() ==> crate::walk::exists_in(stage.doc, #[trigger] groups@[k]),
    ensures
        plans_groups(*stage, scene_name@, groups@, r@),
        forall|k: int| 0 <= k < r@.len() ==> (#[trigger] r@[k]).stem@ != scene_name@,
{
    let mut used: Vec<String> = Vec::new();
    used.push(scene_name.to_owned());
    let mut out: Vec<GroupPlan> = Vec::new();
    assert(text::texts(used@) =~= seq![scene_name@] + stems(out@));
    for g in 0..groups.len()
        invariant
            forall|k: int|
                0 <= k < groups@.len() ==> crate::walk::exists_in(stage.doc, #[trigger] groups@[k]),
            text::texts(used@) == seq![scene_name@] + stems(out@),
            plans_groups(*stage, scene_name@, groups@.take(g as int), out@),
    {
        let ghost now = groups@.take(g + 1);
        assert(now.drop_last() =~= groups@.take(g as int));
        let mut placements: Vec<Placement> = Vec::new();
        stage.walk(&groups[g], &mut placements);
        assert(placements@ =~= stage.placements(groups@[g as int]));
        if placements.len() > 0 {
            let node: usize = groups[g].index;
            let name = match &stage.doc.nodes[node].name {
                Some(n) => Some(n.as_str()),
                None => None,
            };
            let ghost before = out@;
            let ghost was = text::texts(used@);
            let stem = names::group_scene_name(name, node, &mut used);
            let ghost plan_stem = stem@;
            assert(names::optional(name) == crate::document::opt_text(
                stage.doc.nodes@[node as int].name,
            ));
            proof {
                let base = names::group_base(
                    crate::document::opt_text(stage.doc.nodes@[node as int].name),
                    node as nat,
                );
                let n = choose|n: nat| #[trigger]
                    names::first_free(base, seq![], was, n) && plan_stem == names::numbered(
                        base,
                        seq![],
                        n,
                    );
                assert(names::first_free(base, seq![], was, n));
                assert(is_group_stem(stage.doc, node, was, plan_stem));
            }
            out.push(GroupPlan { node, stem, placements });
            proof {
                assert(stems(out@) =~= stems(before).push(plan_stem));
                assert(text::texts(used@) =~= seq![scene_name@] + stems(out@));
                assert forall|k: int| 0 <= k < out@.len() implies stems(out@).take(k) == (if k
                    < before.len() {
                    stems(before).take(k)
                } else {
                    stems(before)
                }) by {
                    if k < before.len() {
                        assert(stems(out@).take(k) =~= stems(before).take(k));
                    } else {
                        assert(stems(out@).take(k) =~= stems(before));
                    }
                }
            }
        }
    }
    assert(groups@.take(groups@.len() as int) =~= groups@);
    proof {
        assert forall|k: int| 0 <= k < out@.len() implies (#[trigger] out@[k]).stem@
            != scene_name@ by {
            group_stems_differ(*stage, scene_name@, groups@, out@, k, k);
        }
    }
    out
}

/// The scenes of a kit have different names, and none has that of the whole scene.
pub proof fn group_stems_differ(
    stage: Stage,
    scene_name: Seq<char>,
    list: Seq<SceneNode>,
    plans: Seq<GroupPlan>,
    j: int,
    k: int,
)
    requires
        plans_groups(stage, scene_name, list, plans),
        0 <= j <= k < plans.len(),
    ensures
        plans[k].stem@ != scene_name,
        j < k ==> plans[j].stem@ != plans[k].stem@,
{
    let before = seq![scene_name] + stems(plans).take(k);
    assert(before[0] == scene_name);
    assert(before.contains(scene_name));
    if j < k {
        assert(before[j + 1] == plans[j].stem@);
        assert(before.contains(plans[j].stem@));
    }
    assert(plans[k].node == shown_groups(stage, list)[k].index);
}

/// A prop of a kit, with the corners of its bounds in metres.
pub struct KitEntry {
    pub stem: String,
    pub min: [String; 3],
    pub max: [String; 3],
}

/// The line of a prop.
pub open spec fn kit_line(prefix: Seq<char>, e: KitEntry) -> Seq<char> {
    "        (name: \""@ + e.stem@ + "\", bsn: \""@ + prefix + "/"@ + e.stem@ + ".bsn\", min: ("@
        + e.min@[0]@ + ", "@ + e.min@[1]@ + ", "@ + e.min@[2]@ + "), max: ("@ + e.max@[0]@ + ", "@
        + e.max@[1]@ + ", "@ + e.max@[2]@ + ")),\n"@
}

/// The lines of props, in the order `at` gives.
pub open spec fn kit_lines(prefix: Seq<char>, entries: Seq<KitEntry>, at: Seq<usize>) -> Seq<char>
    decreases at.len(),
{
    if at.len() == 0 {
        seq![]
    } else {
        kit_lines(prefix, entries, at.drop_last()) + kit_line(prefix, entries[at.last() as int])
    }
}

/// What a manifest begins with.
pub open spec fn kit_header() -> Seq<char> {
    "// GENERATED by the prop importer. One entry per placeable .bsn in this kit.\n// `min`/`max` are the prop's own AABB in metres, at its baked origin.\n(\n    props: [\n"@
}

/// The stems of a list of entries.
pub open spec fn entry_stems(entries: Seq<KitEntry>) -> Seq<Seq<char>> {
    entries.map_values(|e: KitEntry| e.stem@)
}

#[verifier::rlimit(30)]
fn write_kit_line(out: &mut String, prefix: &str, e: &KitEntry)
    ensures
        final(out)@ == old(out)@ + kit_line(prefix@, *e),
{
    out.append("        (name: \"");
    out.append(e.stem.as_str());
    out.append("\", bsn: \"");
    out.append(prefix);
    out.append("/");
    out.append(e.stem.as_str());
    out.append(".bsn\", min: (");
    out.append(e.min[0].as_str());
    out.append(", ");
    out.append(e.min[1].as_str());
    out.append(", ");
    out.append(e.min[2].as_str());
    out.append("), max: (");
    out.append(e.max[0].as_str());
    out.append(", ");
    out.append(e.max[1].as_str());
    out.append(", ");
    out.append(e.max[2].as_str());
    out.append(")),\n");
    assert(final(out)@ =~= old(out)@ + kit_line(prefix@, *e));
}

/// The kit manifest: one line per prop, in the order of their names.
pub fn kit_manifest(asset_prefix: &str, entries: &Vec<KitEntry>) -> (r: String)
    ensures
        exists|at: Seq<usize>|
            order::is_stable_order(
                at,
                order::texts_le(entry_stems(entries@)),
                entries@.len(),
            ) && r@ == kit_header() + #[trigger] kit_lines(asset_prefix@, entries@, at)
                + "    ],\n)\n"@,
{
    let mut keys: Vec<String> = Vec::new();
    for i in 0..entries.len()
        invariant
            text::texts(keys@) == entry_stems(entries@).take(i as int),
    {
        let key = entries[i].stem.clone();
        proof {
            text::lemma_texts_push(keys@, key);
        }
        keys.push(key);
        assert(text::texts(keys@) =~= entry_stems(entries@).take(i + 1));
    }
    assert(text::texts(keys@) =~= entry_stems(entries@));
    assert(keys@.len() == text::texts(keys@).len());
    let at = order::order_texts(&keys);
    let mut out = "// GENERATED by the prop importer. One entry per placeable .bsn in this kit.\n// `min`/`max` are the prop's own AABB in metres, at its baked origin.\n(\n    props: [\n".to_owned();
    for i in 0..at.len()
        invariant
            forall|k: int| 0 <= k < at@.len() ==> #[trigger] at@[k] < entries@.len(),
            out@ == kit_header() + kit_lines(asset_prefix@, entries@, at@.take(i as int)),
    {
        assert(at@.take(i + 1).drop_last() =~= at@.take(i as int));
        write_kit_line(&mut out, asset_prefix, &entries[at[i]]);
        assert(out@ =~= kit_header() + kit_lines(asset_prefix@, entries@, at@.take(i + 1)));
    }
    assert(at@.take(at@.len() as int) =~= at@);
    out.append("    ],\n)\n");
    assert(out@ == kit_header() + kit_lines(asset_prefix@, entries@, at@) + "    ],\n)\n"@);
    out
}

/// The extension of an image in a file of its own: that of its media type, where it has one.
pub open spec fn external_extension(mime: Option<Seq<char>>) -> Seq<char> {
    match mime {
        Some(m) => names::extension_for(m),
        None => "bin"@,
    }
}

/// A file name in two: what precedes its last dot, and the rest.
pub open spec fn file_parts(file: Seq<char>) -> (Seq<char>, Seq<char>) {
    match text::before_last(file, '.') {
        Some(stem) => (stem, file.skip(stem.len() as int)),
        None => (file, seq![]),
    }
}

/// The name that an image asks for, in two. One in a buffer asks for its own, sanitized. One in a
/// file asks for that file's, or for one by its number.
pub open spec fn image_parts(image: ImageRecord, i: nat, file: Option<Seq<char>>) -> (
    Seq<char>,
    Seq<char>,
) {
    if image.view is Some {
        (
            names::image_stem(crate::document::opt_text(image.name), i),
            seq!['.'] + names::extension_for(image.mime->0@),
        )
    } else {
        match file {
            Some(f) => file_parts(f),
            None => (
                "image_"@ + text::decimal(i),
                seq!['.'] + external_extension(crate::document::opt_text(image.mime)),
            ),
        }
    }
}

/// Whether an image's file name is right, after the names before it: the one it asks for where
/// that is free, else the first free one with a number.
pub open spec fn is_image_name(
    image: ImageRecord,
    i: nat,
    file: Option<Seq<char>>,
    before: Seq<Seq<char>>,
    name: Seq<char>,
) -> bool {
    let parts = image_parts(image, i, file);
    exists|n: nat| #[trigger]
        names::first_free(parts.0, parts.1, before, n) && name == names::numbered(
            parts.0,
            parts.1,
            n,
        )
}

/// Whether names are those of a document's images.
pub open spec fn are_image_names(
    images: Seq<ImageRecord>,
    files: Seq<Option<String>>,
    list: Seq<Seq<char>>,
) -> bool {
    &&& list.len() == images.len()
    &&& forall|i: int|
        0 <= i < images.len() ==> is_image_name(
            #[trigger] images[i],
            i as nat,
            crate::document::opt_text(files[i]),
            list.take(i),
            list[i],
        )
}

/// Every image has a file of its own.
pub proof fn image_names_differ(
    images: Seq<ImageRecord>,
    files: Seq<Option<String>>,
    list: Seq<Seq<char>>,
    j: int,
    k: int,
)
    requires
        are_image_names(images, files, list),
        0 <= j < k < list.len(),
    ensures
        list[j] != list[k],
{
    assert(is_image_name(
        images[k],
        k as nat,
        crate::document::opt_text(files[k]),
        list.take(k),
        list[k],
    ));
    assert(list.take(k)[j] == list[j]);
    assert(list.take(k).contains(list[j]));
}

/// An image in a file keeps that file's name, where none before it has taken it.
pub proof fn free_file_names_stay(
    image: ImageRecord,
    i: nat,
    file: Seq<char>,
    before: Seq<Seq<char>>,
    name: Seq<char>,
)
    requires
        image.view is None,
        is_image_name(image, i, Some(file), before, name),
        !before.contains(file),
    ensures
        name == file,
{
    let parts = file_parts(file);
    lemma_file_parts(file);
    let n = choose|n: nat| #[trigger]
        names::first_free(parts.0, parts.1, before, n) && name == names::numbered(
            parts.0,
            parts.1,
            n,
        );
    assert(names::numbered(parts.0, parts.1, 0) == file);
    if n > 0 {
        assert(before.contains(names::numbered(parts.0, parts.1, 0)));
    }
}

proof fn lemma_file_parts(file: Seq<char>)
    ensures
        file_parts(file).0 + file_parts(file).1 == file,
        file_parts(file).1.len() == 0 || file_parts(file).1[0] == '.',
{
    lemma_before_last(file);
    let parts = file_parts(file);
    assert(parts.0 + parts.1 =~= file);
}

proof fn lemma_before_last(s: Seq<char>)
    ensures
        text::before_last(s, '.') matches Some(t) ==> t.len() < s.len() && s.take(t.len() as int)
            == t && s[t.len() as int] == '.',
    decreases s.len(),
{
    if s.len() > 0 {
        if s.last() == '.' {
            assert(s.take(s.len() - 1) =~= s.drop_last());
        } else {
            lemma_before_last(s.drop_last());
            if let Some(t) = text::before_last(s, '.') {
                assert(s.take(t.len() as int) =~= s.drop_last().take(t.len() as int));
            }
        }
    }
}

fn split_file(file: &str) -> (r: (String, String))
    ensures
        (r.0@, r.1@) == file_parts(file@),
{
    match text::cut_at_last(file, '.') {
        Some(stem) => {
            let c = text::chars_of(file);
            let n: usize = text::chars_of(stem.as_str()).len();
            proof {
                lemma_before_last(file@);
                assert(file@.subrange(n as int, file@.len() as int) =~= file@.skip(n as int));
            }
            let tail = text::slice_text(&c, n, c.len());
            (stem, tail)
        },
        None => (file.to_owned(), String::new()),
    }
}

fn ask_name(image: &ImageRecord, i: usize, file: &Option<String>) -> (r: (String, String))
    requires
        image.view is None,
    ensures
        (r.0@, r.1@) == image_parts(*image, i as nat, crate::document::opt_text(*file)),
        r.1@.len() == 0 || r.1@[0] == '.',
{
    match file {
        Some(f) => {
            proof {
                lemma_file_parts(f@);
            }
            split_file(f.as_str())
        },
        None => {
            let mut stem = "image_".to_owned();
            text::push_decimal(&mut stem, i as u64);
            let mut tail = String::new();
            tail.push('.');
            match &image.mime {
                Some(m) => tail.append(names::ext_for_mime(m.as_str())),
                None => tail.append("bin"),
            }
            assert(tail@ =~= seq!['.'] + external_extension(crate::document::opt_text(image.mime)));
            (stem, tail)
        },
    }
}

/// Whether every image in a buffer says what it is, and every other names its file.
pub open spec fn images_readable(images: Seq<ImageRecord>) -> bool {
    forall|i: int|
        0 <= i < images.len() ==> if (#[trigger] images[i]).view is Some {
            images[i].mime is Some
        } else {
            images[i].uri is Some
        }
}

/// Tests whether every image in a buffer says what it is, and every other names its file.
pub fn check_images(images: &Vec<ImageRecord>) -> (r: bool)
    ensures
        r == images_readable(images@),
{
    for i in 0..images.len()
        invariant
            forall|k: int|
                0 <= k < i ==> if (#[trigger] images@[k]).view is Some {
                    images@[k].mime is Some
                } else {
                    images@[k].uri is Some
                },
    {
        let ok = if images[i].view.is_some() {
            images[i].mime.is_some()
        } else {
            images[i].uri.is_some()
        };
        if !ok {
            assert(!images_readable(images@)) by {
                assert(images@[i as int] == images@[i as int]);
            }
            return false;
        }
    }
    true
}

proof fn lemma_claimed(
    image: ImageRecord,
    i: nat,
    file: Option<String>,
    before: Seq<Seq<char>>,
    name: Seq<char>,
    n: nat,
)
    requires
        ({
            let parts = image_parts(image, i, crate::document::opt_text(file));
            names::first_free(parts.0, parts.1, before, n) && name == names::numbered(
                parts.0,
                parts.1,
                n,
            )
        }),
    ensures
        is_image_name(image, i, crate::document::opt_text(file), before, name),
{
}

/// The file names of a document's images, all different. `files` holds, for an image in a file of
/// its own, the last component of its decoded URI, where it has one.
pub fn name_images(images: &Vec<ImageRecord>, files: &Vec<Option<String>>) -> (r: Vec<String>)
    requires
        images_readable(images@),
        files@.len() == images@.len(),
    ensures
        are_image_names(images@, files@, text::texts(r@)),
        text::texts(r@).no_duplicates(),
{
    let mut used: Vec<String> = Vec::new();
    for i in 0..images.len()
        invariant
            images_readable(images@),
            files@.len() == images@.len(),
            used@.len() == i,
            are_image_names(images@.take(i as int), files@, text::texts(used@)),
    {
        let ghost before = text::texts(used@);
        assert(before.len() == i);
        let image = &images[i];
        assert(images@[i as int] == *image);
        let ghost parts = image_parts(*image, i as nat, crate::document::opt_text(files@[i as int]));
        let ghost name: Seq<char>;
        if image.view.is_some() {
            let ext = match &image.mime {
                Some(m) => names::ext_for_mime(m.as_str()),
                None => "bin",
            };
            let asked = match &image.name {
                Some(n) => Some(n.as_str()),
                None => None,
            };
            let taken = names::unique_name(asked, i, ext, &mut used);
            assert(names::optional(asked) == crate::document::opt_text(image.name));
            assert(parts.1 == seq!['.'] + ext@);
            assert(parts.0 == names::image_stem(names::optional(asked), i as nat));
            assert(text::texts(used@) == before.push(taken@));
            proof {
                let n = choose|n: nat| #[trigger]
                    names::first_free(parts.0, parts.1, before, n) && taken@ == names::numbered(
                        parts.0,
                        parts.1,
                        n,
                    );
                lemma_claimed(*image, i as nat, files@[i as int], before, taken@, n);
            }
            assert(is_image_name(
                *image,
                i as nat,
                crate::document::opt_text(files@[i as int]),
                before,
                taken@,
            ));
            proof {
                name = taken@;
            }
        } else {
            let (stem, tail) = ask_name(image, i, &files[i]);
            let taken = names::claim_name(stem.as_str(), tail.as_str(), &mut used);
            assert((stem@, tail@) == parts);
            proof {
                let n = choose|n: nat| #[trigger]
                    names::first_free(stem@, tail@, before, n) && taken@ == names::numbered(
                        stem@,
                        tail@,
                        n,
                    );
                lemma_claimed(*image, i as nat, files@[i as int], before, taken@, n);
            }
            assert(text::texts(used@) == before.push(taken@));
            assert(is_image_name(
                *image,
                i as nat,
                crate::document::opt_text(files@[i as int]),
                before,
                taken@,
            ));
            proof {
                name = taken@;
            }
        }
        proof {
            let now = text::texts(used@);
            assert(now == before.push(name));
            assert(now.len() == i + 1);
            assert(used@.len() == now.len());
            let all = images@.take(i + 1);
            assert forall|k: int| 0 <= k < all.len() implies is_image_name(
                #[trigger] all[k],
                k as nat,
                crate::document::opt_text(files@[k]),
                now.take(k),
                now[k],
            ) by {
                if k < i {
                    assert(all[k] == images@.take(i as int)[k]);
                    assert(now.take(k) =~= before.take(k));
                } else {
                    assert(now.take(k) =~= before);
                }
            }
        }
    }
    assert(images@.take(images@.len() as int) =~= images@);
    proof {
        let list = text::texts(used@);
        assert forall|j: int, k: int| 0 <= j < list.len() && 0 <= k < list.len() && j != k implies
            list[j] != list[k] by {
            if j < k {
                image_names_differ(images@, files@, list, j, k);
            } else {
                image_names_differ(images@, files@, list, k, j);
            }
        }
    }
    used
}

/// Exactly the groups that show anything get a scene, in order.
pub proof fn groups_that_show_are_planned(stage: Stage, list: Seq<SceneNode>)
    ensures
        shown_groups(stage, list) == list.filter(
            |n: SceneNode| stage.placements(n).len() > 0,
        ),
    decreases list.len(),
{
    reveal(Seq::filter);
    if list.len() > 0 {
        groups_that_show_are_planned(stage, list.drop_last());
    }
}

/// A prop's line gives its name, then its scene below the prefix, then the lower corner of its box
/// and then the upper one, each with its three numbers in order.
pub proof fn props_tell_their_boxes(prefix: Seq<char>, e: KitEntry)
    ensures
        ({
            let corner = |c: Seq<String>| "("@ + c[0]@ + ", "@ + c[1]@ + ", "@ + c[2]@ + ")"@;
            kit_line(prefix, e) == "        (name: \""@ + e.stem@ + "\", bsn: \""@ + prefix + "/"@
                + e.stem@ + ".bsn\", min: "@ + corner(e.min@) + ", max: "@ + corner(e.max@) + "),\n"@
        }),
{
    reveal_strlit(".bsn\", min: (");
    reveal_strlit(".bsn\", min: ");
    reveal_strlit("(");
    reveal_strlit("), max: (");
    reveal_strlit(")");
    reveal_strlit(", max: ");
    reveal_strlit(")),\n");
    reveal_strlit("),\n");
    assert(".bsn\", min: ("@ =~= ".bsn\", min: "@ + "("@);
    assert("), max: ("@ =~= ")"@ + ", max: "@ + "("@);
    assert(")),\n"@ =~= ")"@ + "),\n"@);
    let head = "        (name: \""@ + e.stem@ + "\", bsn: \""@ + prefix + "/"@ + e.stem@;
    lemma_box_text(
        head,
        ".bsn\", min: "@,
        "("@,
        e.min@[0]@,
        e.min@[1]@,
        e.min@[2]@,
        ", "@,
        ")"@,
        ", max: "@,
        e.max@[0]@,
        e.max@[1]@,
        e.max@[2]@,
        "),\n"@,
    );
}

proof fn lemma_box_text(
    h: Seq<char>,
    m: Seq<char>,
    o: Seq<char>,
    a: Seq<char>,
    b: Seq<char>,
    c: Seq<char>,
    s: Seq<char>,
    z: Seq<char>,
    n: Seq<char>,
    x: Seq<char>,
    y: Seq<char>,
    w: Seq<char>,
    t: Seq<char>,
)
    ensures
        h + (m + o) + a + s + b + s + c + (z + n + o) + x + s + y + s + w + (z + t) == h + m + (o + a + s
            + b + s + c + z) + n + (o + x + s + y + s + w + z) + t,
{
    let p = h + m;
    let q = o + a + s + b + s + c + z;
    assert(h + (m + o) + a + s + b + s + c + z =~= p + q);
    let r = o + x + s + y + s + w + z;
    assert((p + q) + n + o + x + s + y + s + w + z =~= p + q + n + r);
    assert(h + (m + o) + a + s + b + s + c + (z + n + o) =~= h + (m + o) + a + s + b + s + c + z + n
        + o);
    assert((p + q) + n + o + x + s + y + s + w + (z + t) =~= (p + q) + n + o + x + s + y + s + w + z + t);
}

/// A manifest's lines follow the order of its props, one for each.
pub proof fn props_follow_in_order(prefix: Seq<char>, entries: Seq<KitEntry>, at: Seq<usize>, i: usize)
    ensures
        kit_lines(prefix, entries, at.push(i)) == kit_lines(prefix, entries, at) + kit_line(
            prefix,
            entries[i as int],
        ),
        kit_lines(prefix, entries, Seq::<usize>::empty()).len() == 0,
{
    assert(at.push(i).drop_last() =~= at);
}

/// A file's name splits at its last dot, and nothing of it is lost.
pub proof fn files_split_at_their_last_dot(stem: Seq<char>, ending: Seq<char>)
    requires
        !ending.contains('.'),
    ensures
        file_parts(stem + seq!['.'] + ending) == (stem, seq!['.'] + ending),
        file_parts(ending) == (ending, Seq::<char>::empty()),
{
    lemma_last_dot(stem, ending);
    let all = stem + seq!['.'] + ending;
    assert(all.skip(stem.len() as int) =~= seq!['.'] + ending);
}

proof fn lemma_last_dot(stem: Seq<char>, ending: Seq<char>)
    requires
        !ending.contains('.'),
    ensures
        text::before_last(stem + seq!['.'] + ending, '.') == Some(stem),
        text::before_last(ending, '.') is None,
    decreases ending.len(),
{
    let all = stem + seq!['.'] + ending;
    if ending.len() == 0 {
        assert(all.last() == '.');
        assert(all.drop_last() =~= stem);
    } else {
        let less = ending.drop_last();
        assert(ending[ending.len() - 1] != '.');
        assert forall|c: char| less.contains(c) implies ending.contains(c) by {
            let k = choose|k: int| 0 <= k < less.len() && less[k] == c;
            assert(ending[k] == c);
        }
        lemma_last_dot(stem, less);
        assert(all.drop_last() =~= stem + seq!['.'] + less);
        assert(all.last() == ending.last());
    }
}

/// An image in a buffer is named by its own name and its media type, where no image before it has
/// that name.
pub proof fn buffered_images_keep_their_names(
    image: ImageRecord,
    i: nat,
    file: Option<Seq<char>>,
    before: Seq<Seq<char>>,
    name: Seq<char>,
)
    requires
        image.view is Some,
        is_image_name(image, i, file, before, name),
    ensures
        ({
            let own = names::image_stem(crate::document::opt_text(image.name), i) + "."@
                + names::extension_for(image.mime->0@);
            !before.contains(own) ==> name == own
        }),
{
    let parts = image_parts(image, i, file);
    let n = choose|n: nat| #[trigger]
        names::first_free(parts.0, parts.1, before, n) && name == names::numbered(
            parts.0,
            parts.1,
            n,
        );
    names::taken_names_get_numbers(parts.0, parts.1, before, n);
    reveal_strlit(".");
    assert("."@ =~= seq!['.']);
    assert(parts.0 + parts.1 =~= names::image_stem(crate::document::opt_text(image.name), i) + "."@
        + names::extension_for(image.mime->0@));
}

/// A group's scene has its node's name, without the ending that marks a group, where nothing before
/// it has that; its placements are those of its own node.
pub proof fn groups_keep_their_names(
    stage: Stage,
    scene_name: Seq<char>,
    list: Seq<SceneNode>,
    plans: Seq<GroupPlan>,
    k: int,
)
    requires
        plans_groups(stage, scene_name, list, plans),
        0 <= k < plans.len(),
    ensures
        ({
            let t = shown_groups(stage, list)[k];
            let own = names::group_base(
                crate::document::opt_text(stage.doc.nodes@[t.index as int].name),
                t.index as nat,
            );
            &&& plans[k].node == t.index
            &&& plans[k].placements@ == stage.placements(t)
            &&& !(seq![scene_name] + stems(plans).take(k)).contains(own) ==> plans[k].stem@ == own
        }),
{
    let t = shown_groups(stage, list)[k];
    let base = names::group_base(
        crate::document::opt_text(stage.doc.nodes@[t.index as int].name),
        t.index as nat,
    );
    let before = seq![scene_name] + stems(plans).take(k);
    assert(is_group_stem(stage.doc, t.index, before, plans[k].stem@));
    let none = Seq::<char>::empty();
    let n = choose|n: nat| #[trigger]
        names::first_free(base, none, before, n) && plans[k].stem@ == names::numbered(base, none, n);
    names::taken_names_get_numbers(base, none, before, n);
    assert(base + none =~= base);
}

/// An image in no buffer whose file is not named is named by its number, with the ending of its
/// media type, where that is free.
pub proof fn unnamed_files_get_numbers(
    image: ImageRecord,
    i: nat,
    before: Seq<Seq<char>>,
    name: Seq<char>,
    mime: String,
)
    requires
        image.view is None,
        is_image_name(image, i, None, before, name),
    ensures
        image.mime is None && !before.contains("image_"@ + text::decimal(i) + "."@ + "bin"@) ==> name
            == "image_"@ + text::decimal(i) + "."@ + "bin"@,
        image.mime == Some(mime) && !before.contains(
            "image_"@ + text::decimal(i) + "."@ + names::extension_for(mime@),
        ) ==> name == "image_"@ + text::decimal(i) + "."@ + names::extension_for(mime@),
{
    let parts = image_parts(image, i, None);
    let n = choose|n: nat| #[trigger]
        names::first_free(parts.0, parts.1, before, n) && name == names::numbered(
            parts.0,
            parts.1,
            n,
        );
    names::taken_names_get_numbers(parts.0, parts.1, before, n);
    reveal_strlit(".");
    assert("."@ =~= seq!['.']);
    let ending = external_extension(crate::document::opt_text(image.mime));
    assert(parts.0 + parts.1 =~= "image_"@ + text::decimal(i) + "."@ + ending);
}

/// Images can be read where each that lies in a buffer says what it is and each other names its file.
pub proof fn readable_images_say_where_they_are(images: Seq<ImageRecord>, image: ImageRecord)
    ensures
        images_readable(Seq::<ImageRecord>::empty()),
        images_readable(images.push(image)) <==> images_readable(images) && (image.view is Some
            && image.mime is Some || image.view is None && image.uri is Some),
{
    let all = images.push(image);
    if images_readable(all) {
        assert(all[images.len() as int] == image);
        assert forall|i: int| 0 <= i < images.len() implies if (#[trigger] images[i]).view is Some {
            images[i].mime is Some
        } else {
            images[i].uri is Some
        } by {
            assert(all[i] == images[i]);
        }
    }
    if images_readable(images) && (image.view is Some && image.mime is Some || image.view is None
        && image.uri is Some) {
        assert forall|i: int| 0 <= i < all.len() implies if (#[trigger] all[i]).view is Some {
            all[i].mime is Some
        } else {
            all[i].uri is Some
        } by {
            if i < images.len() {
                assert(all[i] == images[i]);
            }
        }
    }
}

} // verus!
