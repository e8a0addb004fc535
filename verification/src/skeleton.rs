//! A character's skeleton: bones by name, and the chain of parents above each.

use vstd::prelude::*;
use crate::text;

verus! {

/// Single bone definition, its numbers as float bits.
pub struct Bone {
    pub name: String,
    /// Start position in mesh space.
    pub head: [u32; 3],
    /// End position in mesh space.
    pub tail: [u32; 3],
    /// Twist rotation around the bone's axis.
    pub roll: u32,
}

/// Bones and their hierarchy.
pub struct Skeleton {
    pub bones: Vec<Bone>,
    /// Parent indices: `hierarchy[i]` is the parent of bone `i`.
    pub hierarchy: Vec<Option<usize>>,
}

/// Whether a hierarchy is that of bones: one entry each, and every parent is a bone.
pub open spec fn fits(bones: nat, hierarchy: Seq<Option<usize>>) -> bool {
    &&& hierarchy.len() == bones
    &&& forall|i: int|
        0 <= i < hierarchy.len() ==> ((#[trigger] hierarchy[i]) matches Some(p) ==> p < bones)
}

/// Whether the last bone of a name is number `i`.
pub open spec fn is_last_named(bones: Seq<Bone>, name: Seq<char>, i: int) -> bool {
    0 <= i < bones.len() && bones[i].name@ == name && forall|k: int|
        i < k < bones.len() ==> (#[trigger] bones[k]).name@ != name
}

/// The bones from `i` up to its root, at most `fuel` of them.
pub open spec fn chain(h: Seq<Option<usize>>, i: int, fuel: nat) -> Seq<usize>
    decreases fuel,
{
    if fuel == 0 {
        seq![]
    } else {
        match h[i] {
            Some(p) => seq![i as usize] + chain(h, p as int, (fuel - 1) as nat),
            None => seq![i as usize],
        }
    }
}

/// Whether bone `i` reaches a root in fewer than `fuel` steps.
pub open spec fn reaches_root(h: Seq<Option<usize>>, i: int, fuel: nat) -> bool
    decreases fuel,
{
    fuel > 0 && match h[i] {
        Some(p) => reaches_root(h, p as int, (fuel - 1) as nat),
        None => true,
    }
}

impl Skeleton {
    /// Whether the skeleton's hierarchy is that of its bones.
    pub open spec fn well_formed(&self) -> bool {
        fits(self.bones@.len(), self.hierarchy@)
    }

    /// Create new skeleton from bones and hierarchy, one parent entry per bone.
    pub fn new(bones: Vec<Bone>, hierarchy: Vec<Option<usize>>) -> (r: Skeleton)
        requires
            fits(bones@.len(), hierarchy@),
        ensures
            r.well_formed(),
            r.bones@ == bones@,
            r.hierarchy@ == hierarchy@,
    {
        Skeleton { bones, hierarchy }
    }

    /// Find bone index by name: the last, where several have it.
    pub fn bone_index(&self, name: &str) -> (r: Option<usize>)
        ensures
            match r {
                Some(i) => is_last_named(self.bones@, name@, i as int),
                None => forall|k: int|
                    0 <= k < self.bones@.len() ==> (#[trigger] self.bones@[k]).name@ != name@,
            },
    {
        let mut i: usize = self.bones.len();
        while i > 0
            invariant
                i <= self.bones@.len(),
                forall|k: int|
                    i <= k < self.bones@.len() ==> (#[trigger] self.bones@[k]).name@ != name@,
            decreases i,
        {
            i = i - 1;
            if text::same_text(self.bones[i].name.as_str(), name) {
                return Some(i);
            }
        }
        None
    }

    /// Get bone by name.
    pub fn bone(&self, name: &str) -> (r: Option<&Bone>)
        ensures
            match r {
                Some(b) => exists|i: int| #[trigger]
                    is_last_named(self.bones@, name@, i) && *b == self.bones@[i],
                None => forall|k: int|
                    0 <= k < self.bones@.len() ==> (#[trigger] self.bones@[k]).name@ != name@,
            },
    {
        match self.bone_index(name) {
            Some(i) => {
                assert(is_last_named(self.bones@, name@, i as int));
                Some(&self.bones[i])
            },
            None => None,
        }
    }

    /// The bones whose transforms make up the global transform of a bone: itself, its parent, and
    /// so on up to the root.
    pub fn parent_chain(&self, bone_idx: usize) -> (r: Vec<usize>)
        requires
            self.well_formed(),
            bone_idx < self.bones@.len(),
            reaches_root(self.hierarchy@, bone_idx as int, self.bones@.len()),
        ensures
            r@ == chain(self.hierarchy@, bone_idx as int, self.bones@.len()),
    {
        let mut out: Vec<usize> = Vec::new();
        let mut current: usize = bone_idx;
        let mut left: usize = self.bones.len();
        let mut more = true;
        let ghost all = chain(self.hierarchy@, bone_idx as int, self.bones@.len());
        assert(out@ + chain(self.hierarchy@, current as int, left as nat) =~= all);
        while more
            invariant
                self.well_formed(),
                current < self.bones@.len(),
                more ==> reaches_root(self.hierarchy@, current as int, left as nat),
                more ==> out@ + chain(self.hierarchy@, current as int, left as nat) == all,
                !more ==> out@ == all,
            decreases (if more {
                left + 1
            } else {
                0
            }),
        {
            let ghost before = out@;
            out.push(current);
            match self.hierarchy[current] {
                Some(p) => {
                    assert(out@ + chain(self.hierarchy@, p as int, (left - 1) as nat) =~= before
                        + chain(self.hierarchy@, current as int, left as nat));
                    current = p;
                    left = left - 1;
                },
                None => {
                    assert(out@ =~= before + chain(self.hierarchy@, current as int, left as nat));
                    more = false;
                },
            }
        }
        out
    }
}

/// Where parents come before their children, every bone reaches a root.
pub proof fn ordered_bones_reach_a_root(h: Seq<Option<usize>>, i: int)
    requires
        forall|k: int| 0 <= k < h.len() ==> ((#[trigger] h[k]) matches Some(p) ==> p < k),
        0 <= i < h.len(),
    ensures
        reaches_root(h, i, h.len()),
{
    lemma_reaches(h, i, h.len());
}

proof fn lemma_reaches(h: Seq<Option<usize>>, i: int, fuel: nat)
    requires
        forall|k: int| 0 <= k < h.len() ==> ((#[trigger] h[k]) matches Some(p) ==> p < k),
        0 <= i < h.len(),
        i < fuel,
    ensures
        reaches_root(h, i, fuel),
    decreases fuel,
{
    if let Some(p) = h[i] {
        lemma_reaches(h, p as int, (fuel - 1) as nat);
    }
}

/// A chain starts at its bone, ends at a root, and goes from each bone to its parent.
pub proof fn chains_go_up(h: Seq<Option<usize>>, i: int, fuel: nat, k: int)
    requires
        fits(h.len(), h),
        0 <= i < h.len() <= usize::MAX,
        reaches_root(h, i, fuel),
        0 <= k < chain(h, i, fuel).len(),
    ensures
        chain(h, i, fuel)[0] == i,
        chain(h, i, fuel)[k] < h.len(),
        k + 1 < chain(h, i, fuel).len() ==> h[chain(h, i, fuel)[k] as int] == Some(
            chain(h, i, fuel)[k + 1],
        ),
        k + 1 == chain(h, i, fuel).len() ==> h[chain(h, i, fuel)[k] as int] is None,
    decreases fuel,
{
    if let Some(p) = h[i] {
        assert(p < h.len());
        let rest = chain(h, p as int, (fuel - 1) as nat);
        reveal_with_fuel(chain, 2);
        reveal_with_fuel(reaches_root, 2);
        assert(rest.len() > 0);
        chains_go_up(h, p as int, (fuel - 1) as nat, 0);
        if k > 0 {
            chains_go_up(h, p as int, (fuel - 1) as nat, k - 1);
        }
    }
}

/// Whether input actions are live: not while a text field has the focus.
pub fn context_active(focused_is_text: Option<bool>) -> (r: bool)
    ensures
        r == (focused_is_text != Some(true)),
        r == is_live(focused_is_text),
{
    match focused_is_text {
        Some(t) => !t,
        None => true,
    }
}

/// Of several bones of one name the last counts, and there is but one last.
pub proof fn last_bones_count(bones: Seq<Bone>, name: Seq<char>, i: int, k: int)
    requires
        is_last_named(bones, name, i),
        0 <= k < bones.len(),
        bones[k].name@ == name,
    ensures
        bones[i].name@ == name,
        k <= i,
        is_last_named(bones, name, k) ==> k == i,
{
}

/// Whether input actions are live.
pub open spec fn is_live(focused_is_text: Option<bool>) -> bool {
    focused_is_text != Some(true)
}

/// Input actions rest while a text field has the focus, and only then.
pub proof fn actions_rest_while_typing()
    ensures
        !is_live(Some(true)),
        is_live(Some(false)),
        is_live(None),
{
}

} // verus!
