//! The preview rig: which bones a graph drives, by their name paths, and the sliders of its inputs.

use vstd::prelude::*;
use crate::labels;
use crate::order;
use crate::text;

verus! {

/// An entity of the rig and those below it.
pub struct Bone {
    pub id: usize,
    pub name: Option<String>,
    pub children: Vec<Bone>,
}

/// An entity that the graph animates, by its name path from the armature down.
pub struct Target {
    pub id: usize,
    pub path: Vec<String>,
}

/// A target, by its contents.
pub ghost struct TargetPath {
    pub id: int,
    pub path: Seq<Seq<char>>,
}

impl View for Target {
    type V = TargetPath;

    open spec fn view(&self) -> TargetPath {
        TargetPath { id: self.id as int, path: text::texts(self.path@) }
    }
}

/// Targets, by their contents.
pub open spec fn target_views(targets: Seq<Target>) -> Seq<TargetPath> {
    targets.map_values(|t: Target| t@)
}

/// The targets at and below a bone under the path `above`. A bone without a name ends its branch.
pub open spec fn bone_targets(b: Bone, above: Seq<Seq<char>>) -> Seq<TargetPath>
    decreases b, 1nat, 0nat,
{
    match b.name {
        Some(n) => seq![(TargetPath { id: b.id as int, path: above.push(n@) })] + below_targets(
            b,
            above.push(n@),
            b.children@.len(),
        ),
        None => seq![],
    }
}

/// The targets at and below the first `upto` children of a bone, under the path `above`.
pub open spec fn below_targets(b: Bone, above: Seq<Seq<char>>, upto: nat) -> Seq<TargetPath>
    decreases b, 0nat, upto,
{
    if upto == 0 || upto > b.children@.len() {
        seq![]
    } else {
        below_targets(b, above, (upto - 1) as nat) + bone_targets(b.children@[upto - 1], above)
    }
}

fn copy_path(path: &Vec<String>) -> (r: Vec<String>)
    ensures
        text::texts(r@) == text::texts(path@),
{
    let mut out: Vec<String> = Vec::new();
    for i in 0..path.len()
        invariant
            text::texts(out@) == text::texts(path@).take(i as int),
    {
        let ghost before = out@;
        out.push(path[i].clone());
        proof {
            text::lemma_texts_push(before, out@.last());
        }
        assert(text::texts(out@) =~= text::texts(path@).take(i + 1));
    }
    assert(text::texts(out@) =~= text::texts(path@));
    out
}

fn walk_below(b: &Bone, above: &Vec<String>, out: &mut Vec<Target>)
    ensures
        target_views(final(out)@) == target_views(old(out)@) + below_targets(
            *b,
            text::texts(above@),
            b.children@.len(),
        ),
    decreases *b, 0nat,
{
    let ghost base = target_views(out@);
    let ghost path = text::texts(above@);
    assert(target_views(out@) =~= base + below_targets(*b, path, 0));
    for i in 0..b.children.len()
        invariant
            path == text::texts(above@),
            target_views(out@) == base + below_targets(*b, path, i as nat),
    {
        walk_bone(&b.children[i], above, out);
        assert(target_views(out@) =~= base + (below_targets(*b, path, i as nat) + bone_targets(
            b.children@[i as int],
            path,
        )));
    }
}

fn walk_bone(b: &Bone, above: &Vec<String>, out: &mut Vec<Target>)
    ensures
        target_views(final(out)@) == target_views(old(out)@) + bone_targets(
            *b,
            text::texts(above@),
        ),
    decreases *b, 1nat,
{
    let ghost base = out@;
    match &b.name {
        Some(n) => {
            let mut path = copy_path(above);
            let ghost short = path@;
            path.push(n.clone());
            proof {
                text::lemma_texts_push(short, path@.last());
            }
            let ghost own = TargetPath { id: b.id as int, path: text::texts(above@).push(n@) };
            out.push(Target { id: b.id, path: copy_path(&path) });
            assert(target_views(out@) =~= target_views(base).push(own));
            walk_below(b, &path, out);
            assert(target_views(out@) =~= target_views(base) + bone_targets(
                *b,
                text::texts(above@),
            ));
        },
        None => {
            assert(target_views(out@) =~= target_views(base) + bone_targets(
                *b,
                text::texts(above@),
            ));
        },
    }
}

/// Whether an entity is the armature.
pub open spec fn is_armature(b: Bone) -> bool {
    match b.name {
        Some(n) => n@ == "Armature"@,
        None => false,
    }
}

/// What a graph drives: the armature, which the rig's root animates, and the bones, which the
/// armature animates.
pub struct Arming {
    pub armature: usize,
    pub bones: Vec<Target>,
}

/// Whether the first armature among entities is number `i`.
pub open spec fn first_armature(kids: Seq<Bone>, i: int) -> bool {
    0 <= i < kids.len() && is_armature(kids[i]) && forall|k: int|
        0 <= k < i ==> !is_armature(#[trigger] kids[k])
}

/// Finds the rig's armature among the entities below its root, once it has bones, and lists what
/// a graph drives.
pub fn arm_preview(kids: &Vec<Bone>) -> (r: Option<Arming>)
    ensures
        match r {
            Some(a) => exists|i: int| #[trigger]
                first_armature(kids@, i) && kids@[i].children@.len() > 0 && a.armature
                    == kids@[i].id && target_views(a.bones@) == below_targets(
                    kids@[i],
                    seq!["Armature"@],
                    kids@[i].children@.len(),
                ),
            None => forall|i: int| #[trigger]
                first_armature(kids@, i) ==> kids@[i].children@.len() == 0,
        },
{
    for i in 0..kids.len()
        invariant
            forall|k: int| 0 <= k < i ==> !is_armature(#[trigger] kids@[k]),
    {
        let found = match &kids[i].name {
            Some(n) => text::same_text(n.as_str(), "Armature"),
            None => false,
        };
        if found {
            assert(first_armature(kids@, i as int));
            if kids[i].children.len() == 0 {
                assert forall|k: int| #[trigger] first_armature(kids@, k) implies kids@[k].children@.len()
                    == 0 by {
                    if k < i {
                        assert(!is_armature(kids@[k]));
                    } else if k > i {
                        assert(!is_armature(kids@[i as int]));
                    }
                }
                return None;
            }
            let mut path: Vec<String> = Vec::new();
            path.push("Armature".to_owned());
            assert(text::texts(path@) =~= seq!["Armature"@]);
            let mut bones: Vec<Target> = Vec::new();
            assert(target_views(bones@) =~= seq![]);
            walk_below(&kids[i], &path, &mut bones);
            assert(target_views(bones@) =~= below_targets(
                kids@[i as int],
                seq!["Armature"@],
                kids@[i as int].children@.len(),
            ));
            return Some(Arming { armature: kids[i].id, bones });
        }
    }
    assert forall|k: int| #[trigger] first_armature(kids@, k) implies kids@[k].children@.len()
        == 0 by {
        assert(!is_armature(kids@[k]));
    }
    None
}

/// A default of a graph's input: its pin's notation and, for a number, its value's notation in
/// two decimals.
pub struct InputDefault {
    pub pin: String,
    pub value: Option<String>,
}

/// A slider: the input it drives, and its readout.
pub struct Slider {
    pub name: String,
    pub readout: String,
    /// The place of the input among the defaults.
    pub index: usize,
}

/// The places of the numbers among defaults.
pub open spec fn number_places(inputs: Seq<InputDefault>) -> Seq<usize>
    decreases inputs.len(),
{
    if inputs.len() == 0 {
        seq![]
    } else {
        let most = number_places(inputs.drop_last());
        if inputs.last().value is Some {
            most.push((inputs.len() - 1) as usize)
        } else {
            most
        }
    }
}

/// The names of the inputs at places.
pub open spec fn names_at(inputs: Seq<InputDefault>, places: Seq<usize>) -> Seq<Seq<char>> {
    places.map_values(|i: usize| labels::quoted_name(inputs[i as int].pin@))
}

/// Whether a slider is that of the input at place `i`.
pub open spec fn is_slider(s: Slider, inputs: Seq<InputDefault>, i: usize) -> bool {
    let name = labels::quoted_name(inputs[i as int].pin@);
    s.index == i && s.name@ == name && s.readout@ == name + "  "@ + inputs[i as int].value->0@
}

/// Whether sliders are those of the numbers among the inputs, sorted by name.
pub open spec fn are_sliders(sliders: Seq<Slider>, inputs: Seq<InputDefault>) -> bool {
    let places = number_places(inputs);
    exists|at: Seq<usize>| #[trigger]
        order::is_stable_order(at, order::texts_le(names_at(inputs, places)), places.len())
            && sliders.len() == places.len() && forall|k: int|
            0 <= k < sliders.len() ==> is_slider(
                #[trigger] sliders[k],
                inputs,
                places[at[k] as int],
            )
}

proof fn lemma_places(inputs: Seq<InputDefault>)
    requires
        inputs.len() <= usize::MAX,
    ensures
        forall|k: int|
            0 <= k < number_places(inputs).len() ==> #[trigger] number_places(inputs)[k]
                < inputs.len() && inputs[number_places(inputs)[k] as int].value is Some,
    decreases inputs.len(),
{
    if inputs.len() > 0 {
        lemma_places(inputs.drop_last());
        let most = number_places(inputs.drop_last());
        assert forall|k: int| 0 <= k < number_places(inputs).len() implies #[trigger] number_places(
            inputs,
        )[k] < inputs.len() && inputs[number_places(inputs)[k] as int].value is Some by {
            if k < most.len() {
                assert(number_places(inputs)[k] == most[k]);
            }
        }
    }
}

/// The readout of a slider.
pub fn readout(name: &str, value: &str) -> (r: String)
    ensures
        r@ == name@ + "  "@ + value@,
{
    let mut out = name.to_owned();
    out.append("  ");
    out.append(value);
    out
}

/// One slider per number input, seeded from the graph's own default, sorted by name.
pub fn plan_sliders(inputs: &Vec<InputDefault>) -> (r: Vec<Slider>)
    ensures
        are_sliders(r@, inputs@),
{
    let mut places: Vec<usize> = Vec::new();
    let mut names: Vec<String> = Vec::new();
    for i in 0..inputs.len()
        invariant
            places@ == number_places(inputs@.take(i as int)),
            text::texts(names@) == names_at(inputs@, places@),
    {
        assert(inputs@.take(i + 1).drop_last() =~= inputs@.take(i as int));
        if inputs[i].value.is_some() {
            let ghost before = names@;
            let ghost were = places@;
            names.push(labels::pin_name(inputs[i].pin.as_str()));
            places.push(i);
            proof {
                text::lemma_texts_push(before, names@.last());
                assert(names_at(inputs@, places@) =~= names_at(inputs@, were).push(
                    labels::quoted_name(inputs@[i as int].pin@),
                ));
            }
        }
    }
    assert(inputs@.take(inputs@.len() as int) =~= inputs@);
    let at = order::order_texts(&names);
    proof {
        lemma_places(inputs@);
        assert(text::texts(names@).len() == places@.len());
    }
    let mut out: Vec<Slider> = Vec::new();
    for k in 0..at.len()
        invariant
            places@ == number_places(inputs@),
            text::texts(names@) == names_at(inputs@, places@),
            order::is_stable_order(at@, order::texts_le(text::texts(names@)), names@.len()),
            places@.len() == names@.len(),
            forall|k: int|
                0 <= k < places@.len() ==> #[trigger] places@[k] < inputs@.len()
                    && inputs@[places@[k] as int].value is Some,
            out@.len() == k,
            forall|j: int|
                0 <= j < k ==> is_slider(#[trigger] out@[j], inputs@, places@[at@[j] as int]),
    {
        let i: usize = places[at[k]];
        let name = names[at[k]].clone();
        assert(name@ == text::texts(names@)[at@[k as int] as int]);
        let value = match &inputs[i].value {
            Some(v) => v.clone(),
            None => String::new(),
        };
        let line = readout(name.as_str(), value.as_str());
        out.push(Slider { name, readout: line, index: i });
        assert(is_slider(out@[k as int], inputs@, places@[at@[k as int] as int]));
    }
    out
}

/// Whether a save copies the file aside first: it exists, and no copy was made before.
pub fn backs_up(file_exists: bool, backup_exists: bool) -> (r: bool)
    ensures
        r == (file_exists && !backup_exists),
        r == copies_aside(file_exists, backup_exists),
{
    file_exists && !backup_exists
}

/// A bone's path is that of the bones above it and its own name; those below it follow it, each by
/// the path of its own branch. A bone without a name is no target, nor is any below it.
pub proof fn bones_are_named_from_above(b: Bone, name: String, above: Seq<Seq<char>>)
    ensures
        b.name == Some(name) ==> {
            let own = bone_targets(b, above);
            &&& own.len() >= 1
            &&& own[0].id == b.id
            &&& own[0].path == above.push(name@)
            &&& own.skip(1) == below_targets(b, above.push(name@), b.children@.len())
        },
        b.name is None ==> bone_targets(b, above).len() == 0,
{
    if b.name == Some(name) {
        let own = bone_targets(b, above);
        assert(own.skip(1) =~= below_targets(b, above.push(name@), b.children@.len()));
    }
}

/// The branches below a bone follow each other in the order of its children.
pub proof fn branches_follow_in_order(b: Bone, above: Seq<Seq<char>>, k: nat)
    requires
        k < b.children@.len(),
    ensures
        below_targets(b, above, k + 1) == below_targets(b, above, k) + bone_targets(
            b.children@[k as int],
            above,
        ),
        below_targets(b, above, 0).len() == 0,
{
}

/// Whether every target's path goes on from one above.
pub open spec fn paths_go_on(targets: Seq<TargetPath>, above: Seq<Seq<char>>) -> bool {
    forall|i: int|
        0 <= i < targets.len() ==> above.is_prefix_of((#[trigger] targets[i]).path)
            && targets[i].path.len() > above.len()
}

/// Every bone of a branch is named from the branch's root down.
pub proof fn paths_go_on_from_above(b: Bone, above: Seq<Seq<char>>)
    ensures
        paths_go_on(bone_targets(b, above), above),
    decreases b, 1nat, 0nat,
{
    if let Some(n) = b.name {
        let deeper = above.push(n@);
        lemma_branches_go_on(b, deeper, b.children@.len());
        let below = below_targets(b, deeper, b.children@.len());
        let own = bone_targets(b, above);
        assert forall|i: int| 0 <= i < own.len() implies above.is_prefix_of((#[trigger] own[i]).path)
            && own[i].path.len() > above.len() by {
            if i > 0 {
                assert(own[i] == below[i - 1]);
                assert(deeper.is_prefix_of(below[i - 1].path));
                assert(above =~= deeper.take(above.len() as int));
            }
        }
    }
}

proof fn lemma_branches_go_on(b: Bone, above: Seq<Seq<char>>, upto: nat)
    requires
        upto <= b.children@.len(),
    ensures
        paths_go_on(below_targets(b, above, upto), above),
    decreases b, 0nat, upto,
{
    if upto > 0 {
        let most = below_targets(b, above, (upto - 1) as nat);
        let last = bone_targets(b.children@[upto - 1], above);
        lemma_branches_go_on(b, above, (upto - 1) as nat);
        paths_go_on_from_above(b.children@[upto - 1], above);
        let all = below_targets(b, above, upto);
        assert forall|i: int| 0 <= i < all.len() implies above.is_prefix_of((#[trigger] all[i]).path)
            && all[i].path.len() > above.len() by {
            if i < most.len() {
                assert(all[i] == most[i]);
            } else {
                assert(all[i] == last[i - most.len()]);
            }
        }
    }
}

/// There is a slider for each number among the inputs, and for nothing else.
pub proof fn numbers_have_sliders(inputs: Seq<InputDefault>)
    requires
        inputs.len() <= usize::MAX,
    ensures
        number_places(inputs).len() == inputs.filter(|d: InputDefault| d.value is Some).len(),
        forall|k: int|
            0 <= k < number_places(inputs).len() ==> (#[trigger] number_places(inputs)[k]) < inputs.len()
                && inputs[number_places(inputs)[k] as int].value is Some,
    decreases inputs.len(),
{
    reveal(Seq::filter);
    if inputs.len() > 0 {
        let less = inputs.drop_last();
        numbers_have_sliders(less);
        let most = number_places(less);
        let all = number_places(inputs);
        assert forall|k: int| 0 <= k < all.len() implies (#[trigger] all[k]) < inputs.len()
            && inputs[all[k] as int].value is Some by {
            if k < most.len() {
                assert(all[k] == most[k]);
            }
        }
    }
}

/// The armature is the first entity of that name; every slider reads its own input.
pub proof fn sliders_read_their_inputs(kids: Seq<Bone>, i: int, s: Slider, inputs: Seq<InputDefault>, k: usize)
    requires
        first_armature(kids, i),
        is_slider(s, inputs, k),
    ensures
        kids[i].name is Some && kids[i].name->0@ == "Armature"@,
        forall|j: int|
            0 <= j < i ==> (#[trigger] kids[j]).name is None || kids[j].name->0@ != "Armature"@,
        s.index == k,
        s.name@ == labels::quoted_name(inputs[k as int].pin@),
        s.readout@ == s.name@ + "  "@ + inputs[k as int].value->0@,
{
    assert forall|j: int| 0 <= j < i implies (#[trigger] kids[j]).name is None || kids[j].name->0@
        != "Armature"@ by {
        assert(!is_armature(kids[j]));
    }
}

/// Targets keep their entity and their path.
pub proof fn targets_keep_their_paths(t: Target)
    ensures
        t@.id == t.id,
        t@.path == text::texts(t.path@),
{
}

/// Whether a save copies the file aside first.
pub open spec fn copies_aside(file_exists: bool, backup_exists: bool) -> bool {
    file_exists && !backup_exists
}

/// A file is copied aside once: never over an earlier copy, and only where there is one to copy.
pub proof fn first_copies_stay(file_exists: bool)
    ensures
        !copies_aside(file_exists, true),
        copies_aside(file_exists, false) <==> file_exists,
{
}

} // verus!
