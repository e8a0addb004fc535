//! Walks over a scene's nodes: which primitives are baked, in what order, and where each is placed.

use vstd::prelude::*;
use crate::document::{Document, PrimRecord};
use crate::scene::{self, Stage};
use crate::text;
use crate::tree::SceneNode;

verus! {

/// A list with what is new of another, in order.
pub open spec fn add_new<K>(list: Seq<K>, more: Seq<K>) -> Seq<K>
    decreases more.len(),
{
    if more.len() == 0 {
        list
    } else {
        let most = add_new(list, more.drop_last());
        if most.contains(more.last()) {
            most
        } else {
            most.push(more.last())
        }
    }
}

/// Adding one list after another is adding both.
pub proof fn lemma_add_new_concat<K>(list: Seq<K>, a: Seq<K>, b: Seq<K>)
    ensures
        add_new(list, a + b) == add_new(add_new(list, a), b),
    decreases b.len(),
{
    if b.len() == 0 {
        assert(a + b =~= a);
    } else {
        assert((a + b).drop_last() =~= a + b.drop_last());
        lemma_add_new_concat(list, a, b.drop_last());
    }
}

/// What is new is listed once each, and nothing else.
pub proof fn each_once<K>(list: Seq<K>)
    ensures
        add_new(Seq::<K>::empty(), list).no_duplicates(),
        forall|x: K| add_new(Seq::<K>::empty(), list).contains(x) <==> list.contains(x),
    decreases list.len(),
{
    let all = add_new(Seq::<K>::empty(), list);
    if list.len() > 0 {
        let most = add_new(Seq::<K>::empty(), list.drop_last());
        let last = list.last();
        each_once(list.drop_last());
        assert(list =~= list.drop_last().push(last));
        assert forall|x: K| all.contains(x) <==> list.contains(x) by {
            if list.contains(x) {
                let k = choose|k: int| 0 <= k < list.len() && list[k] == x;
                if k < list.len() - 1 {
                    assert(list.drop_last()[k] == x);
                    assert(list.drop_last().contains(x));
                    assert(most.contains(x));
                    let j = choose|j: int| 0 <= j < most.len() && most[j] == x;
                    assert(all[j] == x);
                } else if !most.contains(last) {
                    assert(all[most.len() as int] == x);
                }
            }
            if all.contains(x) {
                let j = choose|j: int| 0 <= j < all.len() && all[j] == x;
                if j < most.len() {
                    assert(most[j] == x);
                    assert(list.drop_last().contains(x));
                    let k = choose|k: int|
                        0 <= k < list.drop_last().len() && list.drop_last()[k] == x;
                    assert(list[k] == x);
                } else {
                    assert(list[list.len() - 1] == x);
                }
            }
        }
        if !most.contains(last) {
            assert forall|i: int, j: int|
                0 <= i < all.len() && 0 <= j < all.len() && i != j implies all[i] != all[j] by {
                if i < most.len() && j < most.len() {
                } else if i < most.len() {
                    assert(most.contains(most[i]));
                } else {
                    assert(most.contains(most[j]));
                }
            }
        }
    }
}

/// The triangle primitives among the first `upto` of mesh `m`.
pub open spec fn triangles(prims: Seq<PrimRecord>, m: usize, upto: nat) -> Seq<(usize, usize)>
    decreases upto,
{
    if upto == 0 {
        seq![]
    } else if prims[upto - 1].triangles {
        triangles(prims, m, (upto - 1) as nat).push((m, (upto - 1) as usize))
    } else {
        triangles(prims, m, (upto - 1) as nat)
    }
}

/// The primitives that node `i` shows.
pub open spec fn node_visits(doc: Document, i: int) -> Seq<(usize, usize)> {
    match doc.nodes@[i].mesh {
        Some(m) if m < doc.meshes@.len() => triangles(
            doc.meshes@[m as int]@,
            m,
            doc.meshes@[m as int]@.len(),
        ),
        _ => seq![],
    }
}

/// Whether a walk leaves a node out: one that stands in for a scene, where those are not entered.
pub open spec fn left_out(doc: Document, i: int, skip_proxies: bool) -> bool {
    skip_proxies && crate::extras::proxy_in(crate::document::opt_text(doc.nodes@[i].extras)) is Some
}

/// The primitives met on a walk over a tree, a node before what is below it.
pub open spec fn visits(doc: Document, t: SceneNode, skip_proxies: bool) -> Seq<(usize, usize)>
    decreases t,
{
    if left_out(doc, t.index as int, skip_proxies) {
        seq![]
    } else {
        node_visits(doc, t.index as int) + visits_all(doc, t.children@, skip_proxies)
    }
}

/// The primitives met on a walk over a list of trees.
pub open spec fn visits_all(
    doc: Document,
    list: Seq<SceneNode>,
    skip_proxies: bool,
) -> Seq<(usize, usize)>
    decreases list,
{
    if list.len() == 0 {
        seq![]
    } else {
        visits_all(doc, list.drop_last(), skip_proxies) + visits(doc, list.last(), skip_proxies)
    }
}

/// Whether every node of a tree exists.
pub open spec fn exists_in(doc: Document, t: SceneNode) -> bool
    decreases t,
{
    &&& t.index < doc.nodes@.len()
    &&& forall|k: int|
        #![trigger t.children@[k]]
        0 <= k < t.children@.len() ==> exists_in(doc, t.children@[k])
}

/// The tree of a node holds nodes that exist.
pub proof fn trees_exist(doc: Document, t: SceneNode, i: int)
    requires
        crate::tree::is_tree_of(t, doc.nodes@, i),
    ensures
        exists_in(doc, t),
    decreases t,
{
    assert forall|k: int|
        #![trigger t.children@[k]]
        0 <= k < t.children@.len() implies exists_in(doc, t.children@[k]) by {
        trees_exist(doc, t.children@[k], doc.nodes@[i].children@[k] as int);
    }
}

/// The primitives met so far, by a mark for each.
struct Seen {
    marks: Vec<Vec<bool>>,
    list: Vec<(usize, usize)>,
}

impl Seen {
    spec fn wf(&self, doc: Document) -> bool {
        &&& self.marks@.len() == doc.meshes@.len()
        &&& forall|m: int|
            0 <= m < doc.meshes@.len() ==> (#[trigger] self.marks@[m])@.len()
                == doc.meshes@[m]@.len()
        &&& forall|m: usize, p: usize|
            #![trigger self.list@.contains((m, p))]
            m < doc.meshes@.len() && p < doc.meshes@[m as int]@.len() ==> (
            self.marks@[m as int]@[p as int] <==> self.list@.contains((m, p)))
    }

    fn new(doc: &Document) -> (r: Seen)
        ensures
            r.wf(*doc),
            r.list@.len() == 0,
    {
        let mut marks: Vec<Vec<bool>> = Vec::new();
        for m in 0..doc.meshes.len()
            invariant
                marks@.len() == m,
                forall|k: int|
                    0 <= k < m ==> (#[trigger] marks@[k])@ == Seq::new(
                        doc.meshes@[k]@.len(),
                        |j: int| false,
                    ),
        {
            let n: usize = doc.meshes[m].len();
            let row: Vec<bool> = vec![false; n];
            assert(row@ =~= Seq::new(doc.meshes@[m as int]@.len(), |j: int| false));
            marks.push(row);
        }
        Seen { marks, list: Vec::new() }
    }

    fn meet(&mut self, doc: &Document, m: usize, p: usize)
        requires
            old(self).wf(*doc),
            m < doc.meshes@.len(),
            p < doc.meshes@[m as int]@.len(),
        ensures
            final(self).wf(*doc),
            final(self).list@ == add_new(old(self).list@, seq![(m, p)]),
    {
        let ghost before = self.list@;
        let ghost marks = self.marks@;
        reveal_with_fuel(add_new, 2);
        assert(seq![(m, p)].drop_last() =~= seq![]);
        assert(before.contains((m, p)) <==> marks[m as int]@[p as int]);
        if !self.marks[m][p] {
            self.marks[m][p] = true;
            self.list.push((m, p));
            proof {
                let now = self.list@;
                assert forall|a: usize, b: usize|
                    #![trigger now.contains((a, b))]
                    a < doc.meshes@.len() && b < doc.meshes@[a as int]@.len() implies (
                self.marks@[a as int]@[b as int] <==> now.contains((a, b))) by {
                    assert(before.contains((a, b)) <==> marks[a as int]@[b as int]);
                    if before.contains((a, b)) {
                        let k = choose|k: int| 0 <= k < before.len() && before[k] == (a, b);
                        assert(now[k] == (a, b));
                    }
                    assert(now[before.len() as int] == (m, p));
                    if now.contains((a, b)) && (a, b) != (m, p) {
                        let k = choose|k: int| 0 <= k < now.len() && now[k] == (a, b);
                        assert(before[k] == (a, b));
                    }
                }
            }
        }
    }
}

fn meet_node(doc: &Document, i: usize, seen: &mut Seen)
    requires
        old(seen).wf(*doc),
        i < doc.nodes@.len(),
    ensures
        final(seen).wf(*doc),
        final(seen).list@ == add_new(old(seen).list@, node_visits(*doc, i as int)),
{
    let ghost before = seen.list@;
    if let Some(m) = doc.nodes[i].mesh {
        if m < doc.meshes.len() {
            let prims = &doc.meshes[m];
            for p in 0..prims.len()
                invariant
                    m < doc.meshes@.len(),
                    prims@ == doc.meshes@[m as int]@,
                    seen.wf(*doc),
                    seen.list@ == add_new(before, triangles(prims@, m, p as nat)),
            {
                if prims[p].triangles {
                    proof {
                        let so_far = triangles(prims@, m, p as nat);
                        lemma_add_new_concat(before, so_far, seq![(m, p)]);
                        assert(so_far + seq![(m, p)] =~= so_far.push((m, p)));
                    }
                    seen.meet(doc, m, p);
                }
            }
        }
    }
}

fn meet_tree(doc: &Document, t: &SceneNode, skip_proxies: bool, seen: &mut Seen)
    requires
        old(seen).wf(*doc),
        exists_in(*doc, *t),
    ensures
        final(seen).wf(*doc),
        final(seen).list@ == add_new(old(seen).list@, visits(*doc, *t, skip_proxies)),
    decreases *t,
{
    if skip_proxies && crate::extras::bsn_proxy(&doc.nodes[t.index].extras).is_some() {
        return;
    }
    let ghost before = seen.list@;
    let ghost own = node_visits(*doc, t.index as int);
    meet_node(doc, t.index, seen);
    let ghost met = seen.list@;
    for k in 0..t.children.len()
        invariant
            exists_in(*doc, *t),
            seen.wf(*doc),
            seen.list@ == add_new(met, visits_all(*doc, t.children@.take(k as int), skip_proxies)),
    {
        let ghost now = t.children@.take(k + 1);
        assert(now.drop_last() =~= t.children@.take(k as int));
        assert(exists_in(*doc, t.children@[k as int]));
        proof {
            lemma_add_new_concat(
                met,
                visits_all(*doc, t.children@.take(k as int), skip_proxies),
                visits(*doc, t.children@[k as int], skip_proxies),
            );
        }
        meet_tree(doc, &t.children[k], skip_proxies, seen);
    }
    assert(t.children@.take(t.children@.len() as int) =~= t.children@);
    proof {
        lemma_add_new_concat(before, own, visits_all(*doc, t.children@, skip_proxies));
    }
}

/// The primitives to bake for a scene, each once, in the order a walk meets them. Instances share
/// what their mesh's first node baked. Where `skip_proxies` is set, nothing of a node that stands
/// in for another scene is baked.
pub fn bake_order(doc: &Document, roots: &Vec<SceneNode>, skip_proxies: bool) -> (r: Vec<
    (usize, usize),
>)
    requires
        forall|k: int| 0 <= k < roots@.len() ==> exists_in(*doc, #[trigger] roots@[k]),
    ensures
        r@ == add_new(Seq::<(usize, usize)>::empty(), visits_all(*doc, roots@, skip_proxies)),
{
    let mut seen = Seen::new(doc);
    assert(seen.list@ =~= Seq::<(usize, usize)>::empty());
    for k in 0..roots.len()
        invariant
            forall|j: int| 0 <= j < roots@.len() ==> exists_in(*doc, #[trigger] roots@[j]),
            seen.wf(*doc),
            seen.list@ == add_new(
                Seq::<(usize, usize)>::empty(),
                visits_all(*doc, roots@.take(k as int), skip_proxies),
            ),
    {
        let ghost now = roots@.take(k + 1);
        assert(now.drop_last() =~= roots@.take(k as int));
        proof {
            lemma_add_new_concat(
                Seq::<(usize, usize)>::empty(),
                visits_all(*doc, roots@.take(k as int), skip_proxies),
                visits(*doc, roots@[k as int], skip_proxies),
            );
        }
        meet_tree(doc, &roots[k], skip_proxies, &mut seen);
    }
    assert(roots@.take(roots@.len() as int) =~= roots@);
    seen.list
}

/// A primitive where a node places it.
#[derive(Clone, Copy, Debug)]
pub struct Placement {
    pub node: usize,
    pub mesh: usize,
    pub prim: usize,
}

/// The placements of the first `upto` primitives that a node shows.
pub open spec fn node_placements(
    shown: Seq<usize>,
    node: usize,
    mesh: usize,
    upto: nat,
) -> Seq<Placement> {
    Seq::new(upto, |k: int| Placement { node, mesh, prim: shown[k] })
}

impl Stage {
    /// The placements of node `i`.
    pub open spec fn own_placements(&self, i: usize) -> Seq<Placement> {
        match self.doc.nodes@[i as int].mesh {
            Some(m) => node_placements(self.shown(Some(m)), i, m, self.shown(Some(m)).len()),
            None => seq![],
        }
    }

    /// The placements of a tree, a node before what is below it.
    pub open spec fn placements(&self, t: SceneNode) -> Seq<Placement>
        decreases t,
    {
        self.own_placements(t.index) + self.placements_all(t.children@)
    }

    /// The placements of a list of trees.
    pub open spec fn placements_all(&self, list: Seq<SceneNode>) -> Seq<Placement>
        decreases list,
    {
        if list.len() == 0 {
            seq![]
        } else {
            self.placements_all(list.drop_last()) + self.placements(list.last())
        }
    }

    /// Recurses the node hierarchy and lists one placement per baked triangle primitive.
    pub fn walk(&self, t: &SceneNode, out: &mut Vec<Placement>)
        requires
            exists_in(self.doc, *t),
        ensures
            final(out)@ == old(out)@ + self.placements(*t),
        decreases *t,
    {
        let ghost before = out@;
        let i: usize = t.index;
        if let Some(m) = self.doc.nodes[i].mesh {
            let shown = self.shown_prims(Some(m));
            for k in 0..shown.len()
                invariant
                    shown@ == self.shown(Some(m)),
                    out@ == before + node_placements(shown@, i, m, k as nat),
            {
                out.push(Placement { node: i, mesh: m, prim: shown[k] });
                assert(out@ =~= before + node_placements(shown@, i, m, (k + 1) as nat));
            }
        }
        assert(out@ =~= before + self.own_placements(i));
        let ghost own = out@;
        for k in 0..t.children.len()
            invariant
                exists_in(self.doc, *t),
                out@ == own + self.placements_all(t.children@.take(k as int)),
        {
            assert(t.children@.take(k + 1).drop_last() =~= t.children@.take(k as int));
            assert(exists_in(self.doc, t.children@[k as int]));
            self.walk(&t.children[k], out);
            assert(out@ =~= own + self.placements_all(t.children@.take(k + 1)));
        }
        assert(t.children@.take(t.children@.len() as int) =~= t.children@);
        assert(out@ =~= before + self.placements(*t));
    }

    /// The name of a placement's entity: `<node>.<material>`, or `<node>#<primitive>` where the
    /// material has no name.
    pub open spec fn placement_name(&self, p: Placement) -> Seq<char> {
        let node = match self.doc.nodes@[p.node as int].name {
            Some(n) => n@,
            None => "node"@ + text::decimal(p.node as nat),
        };
        let material = self.doc.material_of(
            self.prims(Some(p.mesh))[p.prim as int].material,
        ).name;
        match material {
            Some(m) => node + "."@ + m,
            None => node + "#"@ + text::decimal(p.prim as nat),
        }
    }

    /// Names a placement's entity.
    pub fn name_placement(&self, p: &Placement) -> (r: String)
        requires
            p.node < self.doc.nodes@.len(),
            p.prim < self.prims(Some(p.mesh)).len(),
        ensures
            r@ == self.placement_name(*p),
    {
        let mut out = match &self.doc.nodes[p.node].name {
            Some(n) => n.clone(),
            None => {
                let mut s = "node".to_owned();
                text::push_decimal(&mut s, p.node as u64);
                s
            },
        };
        let material = self.doc.material(self.doc.meshes[p.mesh][p.prim].material);
        match &material.name {
            Some(m) => {
                out.append(".");
                out.append(m.as_str());
            },
            None => {
                out.append("#");
                text::push_decimal(&mut out, p.prim as u64);
            },
        }
        out
    }

    /// Whether a placement is of the document.
    pub open spec fn can_place(&self, p: Placement) -> bool {
        p.node < self.doc.nodes@.len() && p.prim < self.prims(Some(p.mesh)).len()
    }

    /// The entity of a placement, at a transform.
    pub open spec fn placement_entity(&self, p: Placement, transform: Seq<Seq<char>>) -> Seq<char> {
        let stem = scene::stem_text(p.mesh as nat, p.prim as nat);
        scene::placed_entity(
            self.asset_prefix@,
            stem,
            self.prim_fields(Some(p.mesh), p.prim as int),
            self.placement_name(p),
            transform,
            if self.node_collides(p.node as int) && scene::marked(
                self.collided@,
                p.mesh as int,
                p.prim as int,
            ) {
                Some(stem)
            } else {
                None
            },
        )
    }

    /// The entities of the first `upto` placements.
    pub open spec fn placement_entities(
        &self,
        list: Seq<Placement>,
        transforms: Seq<[String; 10]>,
        upto: nat,
    ) -> Seq<char>
        decreases upto,
    {
        if upto == 0 {
            seq![]
        } else {
            self.placement_entities(list, transforms, (upto - 1) as nat) + self.placement_entity(
                list[upto - 1],
                text::texts(transforms[upto - 1]@),
            )
        }
    }

    /// Writes the entities of placements, each at its own transform.
    pub fn write_placements(&self, list: &Vec<Placement>, transforms: &Vec<[String; 10]>) -> (r:
        String)
        requires
            list@.len() == transforms@.len(),
            forall|i: int| 0 <= i < list@.len() ==> self.can_place(#[trigger] list@[i]),
        ensures
            r@ == self.placement_entities(list@, transforms@, list@.len()),
    {
        let mut out = String::new();
        assert(out@ =~= self.placement_entities(list@, transforms@, 0));
        for i in 0..list.len()
            invariant
                list@.len() == transforms@.len(),
                forall|k: int| 0 <= k < list@.len() ==> self.can_place(#[trigger] list@[k]),
                out@ == self.placement_entities(list@, transforms@, i as nat),
        {
            let p = &list[i];
            assert(self.can_place(list@[i as int]));
            let stem = scene::mesh_stem(p.mesh, p.prim);
            let fields = self.fields_text(Some(p.mesh), p.prim);
            let name = self.name_placement(p);
            let hull = if self.placement_collides(p) && scene::is_marked(
                &self.collided,
                p.mesh,
                p.prim,
            ) {
                Some(stem.as_str())
            } else {
                None
            };
            scene::write_entity_trs(
                &mut out,
                self.asset_prefix.as_str(),
                stem.as_str(),
                fields.as_str(),
                name.as_str(),
                &transforms[i],
                hull,
            );
        }
        out
    }

    /// The primitives whose placements want collision, among the first `upto` placements.
    pub open spec fn wanted_colliders(&self, list: Seq<Placement>, upto: nat) -> Seq<(usize, usize)>
        decreases upto,
    {
        if upto == 0 {
            seq![]
        } else {
            let before = self.wanted_colliders(list, (upto - 1) as nat);
            let p = list[upto - 1];
            if self.node_collides(p.node as int) {
                before.push((p.mesh, p.prim))
            } else {
                before
            }
        }
    }

    /// The primitives to bake collision for when each is placed on its own, each once, in the
    /// order of the placements.
    pub fn placed_colliders(&self, list: &Vec<Placement>) -> (r: Vec<(usize, usize)>)
        requires
            forall|i: int| 0 <= i < list@.len() ==> self.can_place(#[trigger] list@[i]),
        ensures
            r@ == add_new(
                Seq::<(usize, usize)>::empty(),
                self.wanted_colliders(list@, list@.len()),
            ),
    {
        let mut seen = Seen::new(&self.doc);
        assert(seen.list@ =~= Seq::<(usize, usize)>::empty());
        for i in 0..list.len()
            invariant
                forall|k: int| 0 <= k < list@.len() ==> self.can_place(#[trigger] list@[k]),
                seen.wf(self.doc),
                seen.list@ == add_new(
                    Seq::<(usize, usize)>::empty(),
                    self.wanted_colliders(list@, i as nat),
                ),
        {
            let p = &list[i];
            assert(self.can_place(list@[i as int]));
            if self.placement_collides(p) {
                proof {
                    let before = self.wanted_colliders(list@, i as nat);
                    let key = (p.mesh, p.prim);
                    lemma_add_new_concat(Seq::<(usize, usize)>::empty(), before, seq![key]);
                    assert(before + seq![key] =~= before.push(key));
                }
                seen.meet(&self.doc, p.mesh, p.prim);
            }
        }
        seen.list
    }

    /// Whether a placement carries collision, where collision is baked for its primitive.
    pub fn placement_collides(&self, p: &Placement) -> (r: bool)
        requires
            p.node < self.doc.nodes@.len(),
        ensures
            r == self.node_collides(p.node as int),
    {
        self.colliders && crate::extras::collides(&self.doc.nodes[p.node].extras)
    }
}

proof fn lemma_baked_prims(stage: Stage, mesh: Option<usize>, upto: nat, k: int)
    requires
        upto <= stage.prims(mesh).len(),
        0 <= k < stage.baked_prims(mesh, upto).len(),
        upto <= usize::MAX,
    ensures
        stage.baked_prims(mesh, upto)[k] < upto,
        stage.prims(mesh)[stage.baked_prims(mesh, upto)[k] as int].triangles,
        scene::marked(
            stage.baked@,
            mesh->0 as int,
            stage.baked_prims(mesh, upto)[k] as int,
        ),
    decreases upto,
{
    if k < stage.baked_prims(mesh, (upto - 1) as nat).len() {
        lemma_baked_prims(stage, mesh, (upto - 1) as nat, k);
    }
}

/// Whether a placement is of a primitive that the document holds, that is a triangle list and was
/// baked.
pub open spec fn is_baked_placement(stage: Stage, p: Placement) -> bool {
    &&& stage.can_place(p)
    &&& stage.prims(Some(p.mesh))[p.prim as int].triangles
    &&& scene::marked(stage.baked@, p.mesh as int, p.prim as int)
}

/// Every placement of a tree is of a primitive that the document holds, that is a triangle list
/// and was baked.
pub proof fn placements_are_baked(stage: Stage, t: SceneNode, k: int)
    requires
        exists_in(stage.doc, t),
        0 <= k < stage.placements(t).len(),
    ensures
        is_baked_placement(stage, stage.placements(t)[k]),
    decreases t,
{
    let own = stage.own_placements(t.index);
    if k < own.len() {
        let m = stage.doc.nodes@[t.index as int].mesh->0;
        let prims = stage.prims(Some(m));
        if m < stage.doc.meshes@.len() {
            assert(stage.doc.meshes@[m as int].len() == prims.len());
        }
        lemma_baked_prims(stage, Some(m), prims.len(), k);
    } else {
        lemma_all_placements_baked(stage, t.children@, k - own.len());
    }
}

proof fn lemma_all_placements_baked(stage: Stage, list: Seq<SceneNode>, k: int)
    requires
        forall|i: int| 0 <= i < list.len() ==> exists_in(stage.doc, #[trigger] list[i]),
        0 <= k < stage.placements_all(list).len(),
    ensures
        is_baked_placement(stage, stage.placements_all(list)[k]),
    decreases list,
{
    let before = stage.placements_all(list.drop_last());
    if k < before.len() {
        lemma_all_placements_baked(stage, list.drop_last(), k);
    } else {
        assert(list.last() == list[list.len() - 1]);
        placements_are_baked(stage, list.last(), k - before.len());
    }
}

impl Stage {
    /// The primitives whose collision a node's entities name.
    pub open spec fn node_colliders(&self, i: int) -> Seq<(usize, usize)> {
        match self.doc.nodes@[i].mesh {
            Some(m) if self.node_collides(i) => self.shown(Some(m)).map_values(
                |p: usize| (m, p),
            ),
            _ => seq![],
        }
    }

    /// The primitives whose collision the entities of a tree name.
    pub open spec fn tree_colliders(&self, t: SceneNode) -> Seq<(usize, usize)>
        decreases t,
    {
        if left_out(self.doc, t.index as int, true) {
            seq![]
        } else {
            self.node_colliders(t.index as int) + self.all_colliders(t.children@)
        }
    }

    /// The primitives whose collision the entities of a list of trees name.
    pub open spec fn all_colliders(&self, list: Seq<SceneNode>) -> Seq<(usize, usize)>
        decreases list,
    {
        if list.len() == 0 {
            seq![]
        } else {
            self.all_colliders(list.drop_last()) + self.tree_colliders(list.last())
        }
    }

    fn meet_colliders(&self, i: usize, seen: &mut Seen)
        requires
            old(seen).wf(self.doc),
            i < self.doc.nodes@.len(),
        ensures
            final(seen).wf(self.doc),
            final(seen).list@ == add_new(old(seen).list@, self.node_colliders(i as int)),
    {
        let ghost before = seen.list@;
        if let Some(m) = self.doc.nodes[i].mesh {
            let shown = self.shown_prims(Some(m));
            let collide = self.colliders && crate::extras::collides(&self.doc.nodes[i].extras);
            if collide {
                let ghost all = self.shown(Some(m)).map_values(|p: usize| (m, p));
                assert(all.take(0) =~= seq![]);
                for k in 0..shown.len()
                    invariant
                        seen.wf(self.doc),
                        shown@ == self.shown(Some(m)),
                        all == self.shown(Some(m)).map_values(|p: usize| (m, p)),
                        seen.list@ == add_new(before, all.take(k as int)),
                {
                    proof {
                        let prims = self.prims(Some(m));
                        if m < self.doc.meshes@.len() {
                            assert(prims.len() == self.doc.meshes@[m as int].len());
                        }
                        lemma_baked_prims(*self, Some(m), prims.len(), k as int);
                        lemma_add_new_concat(before, all.take(k as int), seq![all[k as int]]);
                        assert(all.take(k as int) + seq![all[k as int]] =~= all.take(k + 1));
                    }
                    seen.meet(&self.doc, m, shown[k]);
                }
                assert(all.take(all.len() as int) =~= all);
            }
        }
    }

    fn meet_tree_colliders(&self, t: &SceneNode, seen: &mut Seen)
        requires
            old(seen).wf(self.doc),
            exists_in(self.doc, *t),
        ensures
            final(seen).wf(self.doc),
            final(seen).list@ == add_new(old(seen).list@, self.tree_colliders(*t)),
        decreases *t,
    {
        if crate::extras::bsn_proxy(&self.doc.nodes[t.index].extras).is_some() {
            return;
        }
        let ghost before = seen.list@;
        self.meet_colliders(t.index, seen);
        let ghost met = seen.list@;
        for k in 0..t.children.len()
            invariant
                exists_in(self.doc, *t),
                seen.wf(self.doc),
                seen.list@ == add_new(met, self.all_colliders(t.children@.take(k as int))),
        {
            assert(t.children@.take(k + 1).drop_last() =~= t.children@.take(k as int));
            assert(exists_in(self.doc, t.children@[k as int]));
            proof {
                lemma_add_new_concat(
                    met,
                    self.all_colliders(t.children@.take(k as int)),
                    self.tree_colliders(t.children@[k as int]),
                );
            }
            self.meet_tree_colliders(&t.children[k], seen);
        }
        assert(t.children@.take(t.children@.len() as int) =~= t.children@);
        proof {
            lemma_add_new_concat(
                before,
                self.node_colliders(t.index as int),
                self.all_colliders(t.children@),
            );
        }
    }

    /// The primitives to bake collision for, each once, in the order the entities name them.
    /// Whether a primitive needs collision is up to the node, so this is no part of baking its
    /// mesh: the first node to show a shared mesh may be one that opts out.
    pub fn collider_order(&self, roots: &Vec<SceneNode>) -> (r: Vec<(usize, usize)>)
        requires
            forall|k: int| 0 <= k < roots@.len() ==> exists_in(self.doc, #[trigger] roots@[k]),
        ensures
            r@ == add_new(Seq::<(usize, usize)>::empty(), self.all_colliders(roots@)),
    {
        let mut seen = Seen::new(&self.doc);
        assert(seen.list@ =~= Seq::<(usize, usize)>::empty());
        for k in 0..roots.len()
            invariant
                forall|j: int| 0 <= j < roots@.len() ==> exists_in(self.doc, #[trigger] roots@[j]),
                seen.wf(self.doc),
                seen.list@ == add_new(
                    Seq::<(usize, usize)>::empty(),
                    self.all_colliders(roots@.take(k as int)),
                ),
        {
            assert(roots@.take(k + 1).drop_last() =~= roots@.take(k as int));
            proof {
                lemma_add_new_concat(
                    Seq::<(usize, usize)>::empty(),
                    self.all_colliders(roots@.take(k as int)),
                    self.tree_colliders(roots@[k as int]),
                );
            }
            self.meet_tree_colliders(&roots[k], &mut seen);
        }
        assert(roots@.take(roots@.len() as int) =~= roots@);
        seen.list
    }
}

/// The primitives of mesh `m` numbered from one up to `upto`.
pub open spec fn numbered_prims(m: usize, upto: int) -> Seq<(usize, usize)>
    decreases upto,
{
    if upto <= 1 {
        seq![]
    } else {
        numbered_prims(m, upto - 1).push((m, (upto - 1) as usize))
    }
}

impl Stage {
    /// The primitives whose materials a node's entities are given.
    pub open spec fn node_surfaces(&self, i: int) -> Seq<(usize, usize)> {
        match self.doc.nodes@[i].mesh {
            Some(m) => {
                let prims = self.prims(Some(m));
                let first = scene::first_triangle(prims, 0);
                (if first < prims.len() {
                    seq![(m, first as usize)]
                } else {
                    seq![]
                }) + numbered_prims(m, self.shown(Some(m)).len() as int)
            },
            None => seq![],
        }
    }

    /// The primitives whose materials the entities of a tree are given.
    pub open spec fn tree_surfaces(&self, t: SceneNode) -> Seq<(usize, usize)>
        decreases t,
    {
        if left_out(self.doc, t.index as int, true) {
            seq![]
        } else {
            self.node_surfaces(t.index as int) + self.all_surfaces(t.children@)
        }
    }

    /// The primitives whose materials the entities of a list of trees are given.
    pub open spec fn all_surfaces(&self, list: Seq<SceneNode>) -> Seq<(usize, usize)>
        decreases list,
    {
        if list.len() == 0 {
            seq![]
        } else {
            self.all_surfaces(list.drop_last()) + self.tree_surfaces(list.last())
        }
    }

    fn meet_surfaces(&self, i: usize, seen: &mut Seen)
        requires
            old(seen).wf(self.doc),
            i < self.doc.nodes@.len(),
        ensures
            final(seen).wf(self.doc),
            final(seen).list@ == add_new(old(seen).list@, self.node_surfaces(i as int)),
    {
        let ghost before = seen.list@;
        if let Some(m) = self.doc.nodes[i].mesh {
            if m >= self.doc.meshes.len() {
                assert(self.node_surfaces(i as int) =~= seq![]);
                return;
            }
            let shown = self.shown_prims(Some(m));
            let first: usize = self.find_triangle(Some(m));
            let ghost prims = self.prims(Some(m));
            let ghost head: Seq<(usize, usize)> = if first < prims.len() {
                seq![(m, first)]
            } else {
                seq![]
            };
            proof {
                lemma_shown_bound(*self, Some(m), prims.len());
            }
            if first < self.doc.meshes[m].len() {
                seen.meet(&self.doc, m, first);
            }
            assert(head + numbered_prims(m, 1) =~= head);
            assert(head + numbered_prims(m, 0) =~= head);
            let mut k: usize = 1;
            while k < shown.len()
                invariant
                    seen.wf(self.doc),
                    m < self.doc.meshes@.len(),
                    1 <= k,
                    shown@.len() > 0 ==> k <= shown@.len(),
                    shown@.len() == 0 ==> k == 1,
                    shown@.len() <= self.doc.meshes@[m as int]@.len(),
                    seen.list@ == add_new(before, head + numbered_prims(m, k as int)),
                decreases shown@.len() - k,
            {
                proof {
                    let so_far = head + numbered_prims(m, k as int);
                    lemma_add_new_concat(before, so_far, seq![(m, k)]);
                    assert(so_far + seq![(m, k)] =~= head + numbered_prims(m, k + 1));
                }
                seen.meet(&self.doc, m, k);
                k = k + 1;
            }
        }
    }

    fn meet_tree_surfaces(&self, t: &SceneNode, seen: &mut Seen)
        requires
            old(seen).wf(self.doc),
            exists_in(self.doc, *t),
        ensures
            final(seen).wf(self.doc),
            final(seen).list@ == add_new(old(seen).list@, self.tree_surfaces(*t)),
        decreases *t,
    {
        if crate::extras::bsn_proxy(&self.doc.nodes[t.index].extras).is_some() {
            return;
        }
        let ghost before = seen.list@;
        self.meet_surfaces(t.index, seen);
        let ghost met = seen.list@;
        for k in 0..t.children.len()
            invariant
                exists_in(self.doc, *t),
                seen.wf(self.doc),
                seen.list@ == add_new(met, self.all_surfaces(t.children@.take(k as int))),
        {
            assert(t.children@.take(k + 1).drop_last() =~= t.children@.take(k as int));
            assert(exists_in(self.doc, t.children@[k as int]));
            proof {
                lemma_add_new_concat(
                    met,
                    self.all_surfaces(t.children@.take(k as int)),
                    self.tree_surfaces(t.children@[k as int]),
                );
            }
            self.meet_tree_surfaces(&t.children[k], seen);
        }
        assert(t.children@.take(t.children@.len() as int) =~= t.children@);
        proof {
            lemma_add_new_concat(
                before,
                self.node_surfaces(t.index as int),
                self.all_surfaces(t.children@),
            );
        }
    }

    /// The primitives whose materials a hierarchy's entities are given, each once, in the order
    /// the entities name them.
    pub fn surface_order(&self, roots: &Vec<SceneNode>) -> (r: Vec<(usize, usize)>)
        requires
            forall|k: int| 0 <= k < roots@.len() ==> exists_in(self.doc, #[trigger] roots@[k]),
        ensures
            r@ == add_new(Seq::<(usize, usize)>::empty(), self.all_surfaces(roots@)),
    {
        let mut seen = Seen::new(&self.doc);
        assert(seen.list@ =~= Seq::<(usize, usize)>::empty());
        for k in 0..roots.len()
            invariant
                forall|j: int| 0 <= j < roots@.len() ==> exists_in(self.doc, #[trigger] roots@[j]),
                seen.wf(self.doc),
                seen.list@ == add_new(
                    Seq::<(usize, usize)>::empty(),
                    self.all_surfaces(roots@.take(k as int)),
                ),
        {
            assert(roots@.take(k + 1).drop_last() =~= roots@.take(k as int));
            proof {
                lemma_add_new_concat(
                    Seq::<(usize, usize)>::empty(),
                    self.all_surfaces(roots@.take(k as int)),
                    self.tree_surfaces(roots@[k as int]),
                );
            }
            self.meet_tree_surfaces(&roots[k], &mut seen);
        }
        assert(roots@.take(roots@.len() as int) =~= roots@);
        seen.list
    }
}

proof fn lemma_shown_bound(stage: Stage, mesh: Option<usize>, upto: nat)
    ensures
        stage.baked_prims(mesh, upto).len() <= upto,
    decreases upto,
{
    if upto > 0 {
        lemma_shown_bound(stage, mesh, (upto - 1) as nat);
    }
}

/// How many entities a hierarchy writes, and how many of its nodes stand in for other scenes.
#[derive(Clone, Copy, Debug, PartialEq, Eq)]
pub struct NodeCounts {
    pub entities: u64,
    pub proxies: u64,
}

/// A number, or the largest that can be counted.
pub open spec fn capped(n: nat) -> u64 {
    if n <= u64::MAX {
        n as u64
    } else {
        u64::MAX
    }
}

fn add_capped(a: u64, b: usize, Ghost(n): Ghost<nat>) -> (r: u64)
    requires
        a == capped(n),
    ensures
        r == capped(n + b as nat),
{
    if b as u128 > (u64::MAX - a) as u128 {
        u64::MAX
    } else {
        a + b as u64
    }
}

impl Stage {
    /// The entities that a tree is written as: one for each node that stands in for no other scene,
    /// and one for each of its baked primitives beyond the first.
    pub open spec fn entity_count(&self, t: SceneNode) -> nat
        decreases t,
    {
        if left_out(self.doc, t.index as int, true) {
            0
        } else {
            let shown = self.shown(self.doc.nodes@[t.index as int].mesh).len();
            (if shown > 0 {
                shown
            } else {
                1
            }) + self.entity_count_all(t.children@)
        }
    }

    /// The entities that a list of trees is written as.
    pub open spec fn entity_count_all(&self, list: Seq<SceneNode>) -> nat
        decreases list,
    {
        if list.len() == 0 {
            0
        } else {
            self.entity_count_all(list.drop_last()) + self.entity_count(list.last())
        }
    }

    /// The nodes of a tree that stand in for other scenes; nothing below them is looked at.
    pub open spec fn proxy_count(&self, t: SceneNode) -> nat
        decreases t,
    {
        if left_out(self.doc, t.index as int, true) {
            1
        } else {
            self.proxy_count_all(t.children@)
        }
    }

    /// The nodes of a list of trees that stand in for other scenes.
    pub open spec fn proxy_count_all(&self, list: Seq<SceneNode>) -> nat
        decreases list,
    {
        if list.len() == 0 {
            0
        } else {
            self.proxy_count_all(list.drop_last()) + self.proxy_count(list.last())
        }
    }

    fn count_tree(
        &self,
        t: &SceneNode,
        so_far: NodeCounts,
        Ghost(n): Ghost<nat>,
        Ghost(p): Ghost<nat>,
    ) -> (r: NodeCounts)
        requires
            exists_in(self.doc, *t),
            so_far.entities == capped(n),
            so_far.proxies == capped(p),
        ensures
            r.entities == capped(n + self.entity_count(*t)),
            r.proxies == capped(p + self.proxy_count(*t)),
        decreases *t,
    {
        if crate::extras::bsn_proxy(&self.doc.nodes[t.index].extras).is_some() {
            return NodeCounts {
                entities: so_far.entities,
                proxies: add_capped(so_far.proxies, 1, Ghost(p)),
            };
        }
        let shown: usize = self.shown_prims(self.doc.nodes[t.index].mesh).len();
        let own: usize = if shown > 0 {
            shown
        } else {
            1
        };
        let mut now = NodeCounts {
            entities: add_capped(so_far.entities, own, Ghost(n)),
            proxies: so_far.proxies,
        };
        for k in 0..t.children.len()
            invariant
                exists_in(self.doc, *t),
                now.entities == capped(
                    n + own as nat + self.entity_count_all(t.children@.take(k as int)),
                ),
                now.proxies == capped(p + self.proxy_count_all(t.children@.take(k as int))),
        {
            assert(t.children@.take(k + 1).drop_last() =~= t.children@.take(k as int));
            assert(exists_in(self.doc, t.children@[k as int]));
            now = self.count_tree(
                &t.children[k],
                now,
                Ghost(n + own as nat + self.entity_count_all(t.children@.take(k as int))),
                Ghost(p + self.proxy_count_all(t.children@.take(k as int))),
            );
        }
        assert(t.children@.take(t.children@.len() as int) =~= t.children@);
        now
    }

    /// Counts the entities of a hierarchy and the nodes that stand in for other scenes.
    pub fn count_nodes(&self, roots: &Vec<SceneNode>) -> (r: NodeCounts)
        requires
            forall|k: int| 0 <= k < roots@.len() ==> exists_in(self.doc, #[trigger] roots@[k]),
        ensures
            r.entities == capped(self.entity_count_all(roots@)),
            r.proxies == capped(self.proxy_count_all(roots@)),
    {
        let mut now = NodeCounts { entities: 0, proxies: 0 };
        for k in 0..roots.len()
            invariant
                forall|j: int| 0 <= j < roots@.len() ==> exists_in(self.doc, #[trigger] roots@[j]),
                now.entities == capped(self.entity_count_all(roots@.take(k as int))),
                now.proxies == capped(self.proxy_count_all(roots@.take(k as int))),
        {
            assert(roots@.take(k + 1).drop_last() =~= roots@.take(k as int));
            now = self.count_tree(
                &roots[k],
                now,
                Ghost(self.entity_count_all(roots@.take(k as int))),
                Ghost(self.proxy_count_all(roots@.take(k as int))),
            );
        }
        assert(roots@.take(roots@.len() as int) =~= roots@);
        now
    }
}

/// Whether a walk over a tree comes by node `n`. One that does not enter stand-ins stops at every
/// node whose extras name a scene.
pub open spec fn comes_by(doc: Document, t: SceneNode, n: usize, skip_proxies: bool) -> bool
    decreases t,
{
    !(skip_proxies && crate::extras::proxy_in(
        crate::document::opt_text(doc.nodes@[t.index as int].extras),
    ) is Some) && (t.index == n || exists|k: int|
        #![trigger t.children@[k]]
        0 <= k < t.children@.len() && comes_by(doc, t.children@[k], n, skip_proxies))
}

/// Whether node `n` has primitive `x`, a mesh and a place in it, and it is a triangle primitive.
pub open spec fn has_triangles(doc: Document, n: usize, x: (usize, usize)) -> bool {
    &&& doc.nodes@[n as int].mesh == Some(x.0)
    &&& x.0 < doc.meshes@.len()
    &&& x.1 < doc.meshes@[x.0 as int]@.len()
    &&& doc.meshes@[x.0 as int]@[x.1 as int].triangles
}

proof fn lemma_concat_contains<A>(a: Seq<A>, b: Seq<A>, x: A)
    ensures
        (a + b).contains(x) <==> a.contains(x) || b.contains(x),
{
    if a.contains(x) {
        let k = choose|k: int| 0 <= k < a.len() && a[k] == x;
        assert((a + b)[k] == x);
    }
    if b.contains(x) {
        let k = choose|k: int| 0 <= k < b.len() && b[k] == x;
        assert((a + b)[a.len() + k] == x);
    }
    if (a + b).contains(x) {
        let k = choose|k: int| 0 <= k < (a + b).len() && (a + b)[k] == x;
        if k < a.len() {
            assert(a[k] == x);
        } else {
            assert(b[k - a.len()] == x);
        }
    }
}

proof fn lemma_triangles(prims: Seq<PrimRecord>, m: usize, upto: nat, x: (usize, usize))
    requires
        upto <= prims.len() <= usize::MAX,
    ensures
        triangles(prims, m, upto).contains(x) <==> x.0 == m && x.1 < upto
            && prims[x.1 as int].triangles,
    decreases upto,
{
    let all = triangles(prims, m, upto);
    if upto > 0 {
        let last = (upto - 1) as nat;
        lemma_triangles(prims, m, last, x);
        let less = triangles(prims, m, last);
        if prims[upto - 1].triangles {
            assert(all == less + seq![(m, (upto - 1) as usize)]) by {
                assert(all =~= less + seq![(m, (upto - 1) as usize)]);
            }
            lemma_concat_contains(less, seq![(m, (upto - 1) as usize)], x);
            assert(seq![(m, (upto - 1) as usize)].contains(x) <==> x == (m, (upto - 1) as usize)) by {
                assert(seq![(m, (upto - 1) as usize)][0] == (m, (upto - 1) as usize));
            }
        }
    }
}

proof fn lemma_visits_all(doc: Document, list: Seq<SceneNode>, skip: bool, x: (usize, usize))
    ensures
        visits_all(doc, list, skip).contains(x) <==> exists|k: int|
            0 <= k < list.len() && visits(doc, #[trigger] list[k], skip).contains(x),
    decreases list.len(),
{
    if list.len() > 0 {
        let less = list.drop_last();
        lemma_visits_all(doc, less, skip, x);
        lemma_concat_contains(visits_all(doc, less, skip), visits(doc, list.last(), skip), x);
        if exists|k: int| 0 <= k < less.len() && visits(doc, #[trigger] less[k], skip).contains(x) {
            let k = choose|k: int|
                0 <= k < less.len() && visits(doc, #[trigger] less[k], skip).contains(x);
            assert(visits(doc, list[k], skip).contains(x));
        }
        if exists|k: int| 0 <= k < list.len() && visits(doc, #[trigger] list[k], skip).contains(x) {
            let k = choose|k: int|
                0 <= k < list.len() && visits(doc, #[trigger] list[k], skip).contains(x);
            if k < less.len() {
                assert(visits(doc, less[k], skip).contains(x));
            }
        }
        if visits(doc, list.last(), skip).contains(x) {
            assert(visits(doc, list[list.len() - 1], skip).contains(x));
        }
    }
}

/// A walk bakes exactly the triangle primitives of the nodes that it comes by: none is left out,
/// and nothing else is baked.
pub proof fn walks_bake_what_they_meet(doc: Document, t: SceneNode, skip_proxies: bool, x: (usize, usize))
    requires
        forall|m: int| 0 <= m < doc.meshes@.len() ==> (#[trigger] doc.meshes@[m])@.len()
            <= usize::MAX,
    ensures
        visits(doc, t, skip_proxies).contains(x) <==> exists|n: usize| #[trigger]
            comes_by(doc, t, n, skip_proxies) && has_triangles(doc, n, x),
    decreases t,
{
    let skip = skip_proxies;
    let own = node_visits(doc, t.index as int);
    let below = visits_all(doc, t.children@, skip);
    if !left_out(doc, t.index as int, skip) {
        lemma_concat_contains(own, below, x);
        lemma_visits_all(doc, t.children@, skip, x);
        assert(own.contains(x) <==> has_triangles(doc, t.index, x)) by {
            if let Some(m) = doc.nodes@[t.index as int].mesh {
                if m < doc.meshes@.len() {
                    lemma_triangles(doc.meshes@[m as int]@, m, doc.meshes@[m as int]@.len(), x);
                }
            }
        }
        if own.contains(x) {
            assert(comes_by(doc, t, t.index, skip));
        }
        if below.contains(x) {
            let k = choose|k: int|
                0 <= k < t.children@.len() && visits(doc, #[trigger] t.children@[k], skip).contains(
                    x,
                );
            walks_bake_what_they_meet(doc, t.children@[k], skip, x);
            let n = choose|n: usize| #[trigger]
                comes_by(doc, t.children@[k], n, skip) && has_triangles(doc, n, x);
            assert(comes_by(doc, t, n, skip));
        }
        if exists|n: usize| #[trigger] comes_by(doc, t, n, skip) && has_triangles(doc, n, x) {
            let n = choose|n: usize| #[trigger]
                comes_by(doc, t, n, skip) && has_triangles(doc, n, x);
            if t.index != n {
                let k = choose|k: int|
                    #![trigger t.children@[k]]
                    0 <= k < t.children@.len() && comes_by(doc, t.children@[k], n, skip);
                walks_bake_what_they_meet(doc, t.children@[k], skip, x);
                assert(visits(doc, t.children@[k], skip).contains(x));
            }
        }
    }
}

proof fn lemma_placements_all(stage: Stage, list: Seq<SceneNode>, x: Placement)
    ensures
        stage.placements_all(list).contains(x) <==> exists|k: int|
            0 <= k < list.len() && stage.placements(#[trigger] list[k]).contains(x),
    decreases list.len(),
{
    if list.len() > 0 {
        let less = list.drop_last();
        lemma_placements_all(stage, less, x);
        lemma_concat_contains(stage.placements_all(less), stage.placements(list.last()), x);
        if exists|k: int| 0 <= k < less.len() && stage.placements(#[trigger] less[k]).contains(x) {
            let k = choose|k: int|
                0 <= k < less.len() && stage.placements(#[trigger] less[k]).contains(x);
            assert(stage.placements(list[k]).contains(x));
        }
        if exists|k: int| 0 <= k < list.len() && stage.placements(#[trigger] list[k]).contains(x) {
            let k = choose|k: int|
                0 <= k < list.len() && stage.placements(#[trigger] list[k]).contains(x);
            if k < less.len() {
                assert(stage.placements(less[k]).contains(x));
            }
        }
        if stage.placements(list.last()).contains(x) {
            assert(stage.placements(list[list.len() - 1]).contains(x));
        }
    }
}

/// Every shown primitive of every node of a tree is placed, and nothing else is: each node is its
/// own place, also where several share a mesh.
pub proof fn nodes_place_what_they_show(stage: Stage, t: SceneNode, x: Placement)
    requires
        forall|m: int| 0 <= m < stage.doc.meshes@.len() ==> (#[trigger] stage.doc.meshes@[m])@.len()
            <= usize::MAX,
        x.mesh < stage.doc.meshes@.len(),
    ensures
        stage.placements(t).contains(x) <==> comes_by(stage.doc, t, x.node, false)
            && stage.doc.nodes@[x.node as int].mesh == Some(x.mesh) && scene::can_show(
            stage,
            x.mesh,
            x.prim as int,
        ),
    decreases t,
{
    let doc = stage.doc;
    let own = stage.own_placements(t.index);
    let below = stage.placements_all(t.children@);
    lemma_concat_contains(own, below, x);
    lemma_placements_all(stage, t.children@, x);
    assert(own.contains(x) <==> t.index == x.node && doc.nodes@[x.node as int].mesh == Some(x.mesh)
        && scene::can_show(stage, x.mesh, x.prim as int)) by {
        scene::shown_primitives_were_baked(stage, x.mesh);
        if let Some(m) = doc.nodes@[t.index as int].mesh {
            let shown = stage.shown(Some(m));
            if own.contains(x) {
                let k = choose|k: int| 0 <= k < own.len() && own[k] == x;
                assert(shown[k] == x.prim);
                assert(scene::can_show(stage, m, shown[k] as int));
            }
            if t.index == x.node && m == x.mesh && scene::can_show(stage, m, x.prim as int) {
                assert(shown.contains(x.prim));
                let k = choose|k: int| 0 <= k < shown.len() && shown[k] == x.prim;
                assert(own[k] == x);
            }
        }
    }
    if below.contains(x) {
        let k = choose|k: int|
            0 <= k < t.children@.len() && stage.placements(#[trigger] t.children@[k]).contains(x);
        nodes_place_what_they_show(stage, t.children@[k], x);
        assert(comes_by(doc, t.children@[k], x.node, false));
        assert(comes_by(doc, t, x.node, false));
    }
    if comes_by(doc, t, x.node, false) && t.index != x.node {
        let k = choose|k: int|
            #![trigger t.children@[k]]
            0 <= k < t.children@.len() && comes_by(doc, t.children@[k], x.node, false);
        nodes_place_what_they_show(stage, t.children@[k], x);
        if doc.nodes@[x.node as int].mesh == Some(x.mesh) && scene::can_show(
            stage,
            x.mesh,
            x.prim as int,
        ) {
            assert(stage.placements(t.children@[k]).contains(x));
        }
    }
}

/// A placed primitive shows its own mesh file with the fields of its own material, is named after
/// its node and its material, or numbered where that has no name, and collides by its own file.
pub proof fn placements_show_their_own(stage: Stage, p: Placement, v: Seq<Seq<char>>)
    requires
        stage.can_place(p),
        stage.doc.nodes@[p.node as int].name is Some,
    ensures
        ({
            let stem = "mesh"@ + text::decimal(p.mesh as nat) + "_"@ + text::decimal(p.prim as nat);
            let prim = stage.doc.meshes@[p.mesh as int]@[p.prim as int];
            let fields = match prim.material {
                Some(k) if k < stage.fields@.len() => stage.fields@[k as int]@,
                _ => stage.default_fields@,
            };
            let node = stage.doc.nodes@[p.node as int].name->Some_0@;
            let name = match stage.doc.material_of(prim.material).name {
                Some(m) => node + "."@ + m,
                None => node + "#"@ + text::decimal(p.prim as nat),
            };
            let hull = stage.colliders && crate::extras::collides_in(
                crate::document::opt_text(stage.doc.nodes@[p.node as int].extras),
            ) && p.mesh < stage.collided@.len() && p.prim < stage.collided@[p.mesh as int]@.len()
                && stage.collided@[p.mesh as int]@[p.prim as int];
            stage.placement_entity(p, v) == scene::placed_entity(
                stage.asset_prefix@,
                stem,
                fields,
                name,
                v,
                if hull {
                    Some(stem)
                } else {
                    None
                },
            )
        }),
{
}

/// Placements are written one after the other, each at the transform in its own place.
pub proof fn placements_follow_in_order(
    stage: Stage,
    list: Seq<Placement>,
    transforms: Seq<[String; 10]>,
    n: nat,
)
    requires
        n < list.len(),
        list.len() == transforms.len(),
    ensures
        stage.placement_entities(list, transforms, 0).len() == 0,
        stage.placement_entities(list, transforms, n + 1) == stage.placement_entities(
            list,
            transforms,
            n,
        ) + stage.placement_entity(list[n as int], text::texts(transforms[n as int]@)),
{
}

/// A placement is named by its node and its material; by its node and its place where the material
/// has no name; an unnamed node by its number.
pub proof fn placements_are_named(stage: Stage, p: Placement, name: String, material: Seq<char>)
    ensures
        ({
            let node = stage.doc.nodes@[p.node as int];
            let m = stage.doc.material_of(stage.prims(Some(p.mesh))[p.prim as int].material);
            let at = stage.placement_name(p);
            &&& node.name == Some(name) && m.name == Some(material) ==> at == name@ + "."@ + material
            &&& node.name == Some(name) && m.name is None ==> at == name@ + "#"@ + text::decimal(
                p.prim as nat,
            )
            &&& node.name is None && m.name == Some(material) ==> at == "node"@ + text::decimal(
                p.node as nat,
            ) + "."@ + material
        }),
{
}

/// The colliders of placements are those of the nodes that collide, each of its own primitive, in
/// order.
pub proof fn colliding_placements_are_wanted(stage: Stage, list: Seq<Placement>, k: nat)
    requires
        k < list.len(),
    ensures
        ({
            let before = stage.wanted_colliders(list, k);
            let after = stage.wanted_colliders(list, k + 1);
            let p = list[k as int];
            &&& stage.node_collides(p.node as int) ==> after == before.push((p.mesh, p.prim))
            &&& !stage.node_collides(p.node as int) ==> after == before
            &&& stage.wanted_colliders(list, 0).len() == 0
        }),
{
}

/// A tree's colliders are those of the primitives that its colliding nodes show, a node before its
/// children; a stand-in has none, nor has anything below it.
pub proof fn colliding_nodes_are_listed(stage: Stage, t: SceneNode, m: usize, k: int)
    ensures
        ({
            let node = stage.doc.nodes@[t.index as int];
            let own = stage.node_colliders(t.index as int);
            let shown = stage.shown(Some(m));
            &&& node.mesh is None ==> own.len() == 0
            &&& !stage.node_collides(t.index as int) ==> own.len() == 0
            &&& node.mesh == Some(m) && stage.node_collides(t.index as int) ==> own.len() == shown.len()
                && (0 <= k < shown.len() ==> own[k] == (m, shown[k]))
            &&& crate::extras::proxy_in(crate::document::opt_text(node.extras)) is Some
                ==> stage.tree_colliders(t).len() == 0
            &&& crate::extras::proxy_in(crate::document::opt_text(node.extras)) is None
                ==> stage.tree_colliders(t) == own + stage.all_colliders(t.children@)
        }),
{
}

/// Lists of trees are gone through in order: what a tree adds comes behind what those before it do.
pub proof fn trees_add_up(stage: Stage, list: Seq<SceneNode>, t: SceneNode)
    ensures
        stage.all_colliders(list.push(t)) == stage.all_colliders(list) + stage.tree_colliders(t),
        stage.all_surfaces(list.push(t)) == stage.all_surfaces(list) + stage.tree_surfaces(t),
        stage.entity_count_all(list.push(t)) == stage.entity_count_all(list) + stage.entity_count(t),
        stage.proxy_count_all(list.push(t)) == stage.proxy_count_all(list) + stage.proxy_count(t),
        stage.entity_count_all(Seq::<SceneNode>::empty()) == 0,
        stage.proxy_count_all(Seq::<SceneNode>::empty()) == 0,
{
    assert(list.push(t).drop_last() =~= list);
}

/// A node is one entity, or one for each primitive it shows, beside those below it. A stand-in is
/// none of them: it counts as a stand-in, and hides what is below it.
pub proof fn entities_are_counted(stage: Stage, t: SceneNode)
    ensures
        ({
            let node = stage.doc.nodes@[t.index as int];
            let shown = stage.shown(node.mesh).len();
            let below = stage.entity_count_all(t.children@);
            if crate::extras::proxy_in(crate::document::opt_text(node.extras)) is Some {
                stage.entity_count(t) == 0 && stage.proxy_count(t) == 1
            } else {
                &&& shown == 0 ==> stage.entity_count(t) == 1 + below
                &&& shown > 0 ==> stage.entity_count(t) == shown + below
                &&& stage.proxy_count(t) == stage.proxy_count_all(t.children@)
            }
        }),
{
}

/// A node's entities are given the materials of its mesh: the first that of the mesh's first
/// primitive of triangles, each further one that of the primitive of its own number.
pub proof fn entities_are_given_materials(stage: Stage, t: SceneNode, m: usize, k: int)
    requires
        stage.doc.nodes@[t.index as int].mesh == Some(m),
        scene::first_triangle(stage.prims(Some(m)), 0) < stage.prims(Some(m)).len(),
        stage.shown(Some(m)).len() <= usize::MAX,
    ensures
        ({
            let own = stage.node_surfaces(t.index as int);
            let shown = stage.shown(Some(m)).len();
            &&& own.len() == if shown > 1 {
                shown as int
            } else {
                1
            }
            &&& own[0] == (m, scene::first_triangle(stage.prims(Some(m)), 0) as usize)
            &&& 1 <= k < shown ==> own[k] == (m, k as usize)
        }),
        crate::extras::proxy_in(
            crate::document::opt_text(stage.doc.nodes@[t.index as int].extras),
        ) is None ==> stage.tree_surfaces(t) == stage.node_surfaces(t.index as int)
            + stage.all_surfaces(t.children@),
{
    let shown = stage.shown(Some(m)).len() as int;
    lemma_numbered(m, shown, k - 1);
    let own = stage.node_surfaces(t.index as int);
    if 1 <= k < shown {
        assert(own[k] == numbered_prims(m, shown)[k - 1]);
    }
}

proof fn lemma_numbered(m: usize, upto: int, k: int)
    ensures
        numbered_prims(m, upto).len() == if upto > 1 {
            upto - 1
        } else {
            0
        },
        0 <= k < upto - 1 ==> numbered_prims(m, upto)[k] == (m, (k + 1) as usize),
    decreases upto,
{
    if upto > 1 {
        lemma_numbered(m, upto - 1, k);
    }
}

} // verus!
