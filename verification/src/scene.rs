//! The scene text of a node hierarchy: one entity per node, nested as the nodes are, each with its
//! name, its local transform and what it carries.

use vstd::prelude::*;
use crate::document::{Document, PrimRecord};
use crate::text;
use crate::tree::SceneNode;

verus! {

/// Everything that a scene's text is made from.
pub struct Stage {
    pub doc: Document,
    /// The fields of each material.
    pub fields: Vec<String>,
    /// The fields of the default material.
    pub default_fields: String,
    /// The prefix of asset paths.
    pub asset_prefix: String,
    /// Whether collision is baked at all.
    pub colliders: bool,
    /// For each mesh and primitive, whether its mesh was baked.
    pub baked: Vec<Vec<bool>>,
    /// For each mesh and primitive, whether its collision was baked.
    pub collided: Vec<Vec<bool>>,
}

/// What a table says of a primitive.
pub open spec fn marked(table: Seq<Vec<bool>>, m: int, p: int) -> bool {
    0 <= m < table.len() && 0 <= p < table[m]@.len() && table[m]@[p]
}

pub(crate) fn is_marked(table: &Vec<Vec<bool>>, m: usize, p: usize) -> (r: bool)
    ensures
        r == marked(table@, m as int, p as int),
{
    m < table.len() && p < table[m].len() && table[m][p]
}

/// The file stem of a primitive.
pub open spec fn stem_text(m: nat, p: nat) -> Seq<char> {
    "mesh"@ + text::decimal(m) + "_"@ + text::decimal(p)
}

/// The file stem of a primitive: `mesh<mesh>_<primitive>`.
pub fn mesh_stem(m: usize, p: usize) -> (r: String)
    ensures
        r@ == stem_text(m as nat, p as nat),
{
    let mut out = "mesh".to_owned();
    text::push_decimal(&mut out, m as u64);
    out.append("_");
    text::push_decimal(&mut out, p as u64);
    out
}

/// Different primitives have different stems, so that no bake overwrites another.
pub proof fn stems_are_distinct(m: nat, p: nat, n: nat, q: nat)
    requires
        stem_text(m, p) == stem_text(n, q),
    ensures
        m == n,
        p == q,
{
    reveal_strlit("mesh");
    reveal_strlit("_");
    let (a, b) = (text::decimal(m), text::decimal(n));
    let (x, y) = (text::decimal(p), text::decimal(q));
    let s = stem_text(m, p);
    let t = stem_text(n, q);
    text::lemma_decimal_digits(m);
    text::lemma_decimal_digits(n);
    assert forall|i: int| 0 <= i < a.len() implies s[4 + i] == a[i] by {}
    assert forall|i: int| 0 <= i < b.len() implies t[4 + i] == b[i] by {}
    assert(s[4int + a.len()] == '_');
    assert(t[4int + b.len()] == '_');
    if a.len() < b.len() {
        assert(t[4int + a.len()] == b[a.len() as int]);
    } else if b.len() < a.len() {
        assert(s[4int + b.len()] == a[b.len() as int]);
    }
    assert(a =~= b) by {
        assert forall|i: int| 0 <= i < a.len() implies a[i] == b[i] by {
            assert(s[4 + i] == a[i] && t[4 + i] == b[i]);
        }
    }
    text::decimal_is_injective(m, n);
    assert(x =~= y) by {
        assert(s.len() == 5 + a.len() + x.len());
        assert(t.len() == 5 + b.len() + y.len());
        assert forall|i: int| 0 <= i < x.len() implies x[i] == y[i] by {
            assert(s[5 + a.len() + i] == x[i]);
            assert(t[5 + b.len() + i] == y[i]);
        }
    }
    text::decimal_is_injective(p, q);
}

/// The name that a node's entity bears: its own with double quotes turned into single ones, or
/// `node<index>`.
pub open spec fn node_label(doc: Document, i: int) -> Seq<char> {
    if 0 <= i < doc.nodes@.len() && doc.nodes@[i].name is Some {
        text::replaced(doc.nodes@[i].name->0@, '"', '\'')
    } else {
        "node"@ + text::decimal(i as nat)
    }
}

/// The name that a node's entity bears.
pub fn label_node(doc: &Document, i: usize) -> (r: String)
    ensures
        r@ == node_label(*doc, i as int),
{
    if i < doc.nodes.len() {
        if let Some(n) = &doc.nodes[i].name {
            return text::replace_char(n.as_str(), '"', '\'');
        }
    }
    let mut out = "node".to_owned();
    text::push_decimal(&mut out, i as u64);
    out
}

impl Stage {
    /// The primitives of a mesh.
    pub open spec fn prims(&self, mesh: Option<usize>) -> Seq<PrimRecord> {
        match mesh {
            Some(m) if m < self.doc.meshes@.len() => self.doc.meshes@[m as int]@,
            _ => seq![],
        }
    }

    /// The first `upto` primitives of a mesh that are triangles and were baked, in order.
    pub open spec fn baked_prims(&self, mesh: Option<usize>, upto: nat) -> Seq<usize>
        decreases upto,
    {
        if upto == 0 {
            seq![]
        } else {
            let rest = self.baked_prims(mesh, (upto - 1) as nat);
            if self.prims(mesh)[upto - 1].triangles && marked(
                self.baked@,
                mesh->0 as int,
                upto - 1,
            ) {
                rest.push((upto - 1) as usize)
            } else {
                rest
            }
        }
    }

    /// The primitives of a mesh that are triangles and were baked, in order.
    pub open spec fn shown(&self, mesh: Option<usize>) -> Seq<usize> {
        self.baked_prims(mesh, self.prims(mesh).len())
    }

    /// The fields of a material.
    pub open spec fn fields_of(&self, material: Option<usize>) -> Seq<char> {
        match material {
            Some(m) if m < self.fields@.len() => self.fields@[m as int]@,
            _ => self.default_fields@,
        }
    }

    /// The fields of the material of a mesh's `k`-th primitive; nothing where there is none.
    pub open spec fn prim_fields(&self, mesh: Option<usize>, k: int) -> Seq<char> {
        if 0 <= k < self.prims(mesh).len() {
            self.fields_of(self.prims(mesh)[k].material)
        } else {
            seq![]
        }
    }

    fn prim_count(&self, mesh: Option<usize>) -> (r: usize)
        ensures
            r == self.prims(mesh).len(),
    {
        match mesh {
            Some(m) => if m < self.doc.meshes.len() {
                self.doc.meshes[m].len()
            } else {
                0
            },
            None => 0,
        }
    }

    pub(crate) fn shown_prims(&self, mesh: Option<usize>) -> (r: Vec<usize>)
        ensures
            r@ == self.shown(mesh),
    {
        let n: usize = self.prim_count(mesh);
        let mut out: Vec<usize> = Vec::new();
        if let Some(m) = mesh {
            for p in 0..n
                invariant
                    mesh == Some(m),
                    n == self.prims(mesh).len(),
                    out@ == self.baked_prims(mesh, p as nat),
            {
                if self.doc.meshes[m][p].triangles && is_marked(&self.baked, m, p) {
                    out.push(p);
                }
            }
        }
        out
    }

    fn write_prim_fields(&self, out: &mut String, mesh: Option<usize>, k: usize)
        ensures
            final(out)@ == old(out)@ + self.prim_fields(mesh, k as int),
    {
        let n: usize = self.prim_count(mesh);
        if let Some(m) = mesh {
            if k < n {
                match self.doc.meshes[m][k].material {
                    Some(i) => if i < self.fields.len() {
                        out.append(self.fields[i].as_str());
                    } else {
                        out.append(self.default_fields.as_str());
                    },
                    None => out.append(self.default_fields.as_str()),
                }
                return;
            }
        }
        assert(final(out)@ =~= old(out)@ + self.prim_fields(mesh, k as int));
    }
}

/// The first triangle primitive from `from` on; as many as there are where there is none.
pub open spec fn first_triangle(prims: Seq<PrimRecord>, from: int) -> int
    decreases prims.len() - from,
{
    if from >= prims.len() || prims[from].triangles {
        from
    } else {
        first_triangle(prims, from + 1)
    }
}

/// A line of four blanks for each level.
pub open spec fn padding(depth: nat) -> Seq<char> {
    text::repeated("    "@, depth)
}

/// The `Name` line of an entity.
#[verifier::opaque]
pub open spec fn name_line(pad: Seq<char>, name: Seq<char>) -> Seq<char> {
    pad + "bevy_ecs::name::Name(\""@ + name + "\")\n"@
}

/// The `Transform` line of an entity.
#[verifier::opaque]
pub open spec fn transform_line(pad: Seq<char>, t: Seq<Seq<char>>) -> Seq<char> {
    pad + "bevy_transform::components::transform::Transform { translation: glam::Vec3 { x: "@ + t[0]
        + ", y: "@ + t[1] + ", z: "@ + t[2] + " }, rotation: glam::Quat { x: "@ + t[3] + ", y: "@
        + t[4] + ", z: "@ + t[5] + ", w: "@ + t[6] + " }, scale: glam::Vec3 { x: "@ + t[7]
        + ", y: "@ + t[8] + ", z: "@ + t[9] + " } }\n"@
}

/// The `Mesh3d` and material lines of an entity.
#[verifier::opaque]
pub open spec fn mesh_lines(
    pad: Seq<char>,
    prefix: Seq<char>,
    stem: Seq<char>,
    fields: Seq<char>,
) -> Seq<char> {
    pad + "bevy_mesh::components::Mesh3d(\""@ + prefix + "/meshes/"@ + stem
        + ".cluster_mesh\")\n"@ + pad
        + "bevy_aurora::material::AuroraMaterial3d(bevy_aurora::material::AuroraMaterial {"@
        + fields + "})\n"@
}

/// The collision line of an entity.
#[verifier::opaque]
pub open spec fn collision_line(pad: Seq<char>, prefix: Seq<char>, stem: Seq<char>) -> Seq<char> {
    pad + "bevy_aurora::collision::CollisionMesh(\""@ + prefix + "/meshes/"@ + stem
        + ".collider\")\n"@
}

/// The reference of an entity that stands in for a scene, which ends it.
#[verifier::opaque]
pub open spec fn proxy_line(pad: Seq<char>, path: Seq<char>) -> Seq<char> {
    pad + "bevy_scene::scene_patch::ScenePatchInstance(\""@ + path + "\"),\n\n"@
}

/// The children of an entity, where it has any, and its end.
#[verifier::opaque]
pub open spec fn children_lines(pad: Seq<char>, kids: Seq<char>) -> Seq<char> {
    (if kids.len() > 0 {
        pad + "bevy_ecs::hierarchy::Children [\n"@ + kids + pad + "]\n"@
    } else {
        seq![]
    }) + pad + ",\n"@
}

/// The joint line of a skinned entity.
#[verifier::opaque]
pub open spec fn skin_line(pad: Seq<char>, joints: Option<Seq<char>>) -> Seq<char> {
    match joints {
        Some(j) => pad + "bevy_aurora::skinning::SkinJointsByName(["@ + j + "])\n"@,
        None => seq![],
    }
}

fn write_name(out: &mut String, pad: &str, name: &str)
    ensures
        final(out)@ == old(out)@ + name_line(pad@, name@),
{
    reveal(name_line);
    out.append(pad);
    out.append("bevy_ecs::name::Name(\"");
    out.append(name);
    out.append("\")\n");
    assert(final(out)@ =~= old(out)@ + name_line(pad@, name@));
}

fn write_vec(out: &mut String, x: &str, y: &str, z: &str)
    ensures
        final(out)@ == old(out)@ + x@ + ", y: "@ + y@ + ", z: "@ + z@,
{
    out.append(x);
    out.append(", y: ");
    out.append(y);
    out.append(", z: ");
    out.append(z);
}

#[verifier::rlimit(40)]
fn write_transform(out: &mut String, pad: &str, t: &[String; 10])
    ensures
        final(out)@ == old(out)@ + transform_line(pad@, text::texts(t@)),
{
    reveal(transform_line);
    let ghost s = text::texts(t@);
    out.append(pad);
    out.append("bevy_transform::components::transform::Transform { translation: glam::Vec3 { x: ");
    write_vec(out, t[0].as_str(), t[1].as_str(), t[2].as_str());
    out.append(" }, rotation: glam::Quat { x: ");
    write_vec(out, t[3].as_str(), t[4].as_str(), t[5].as_str());
    out.append(", w: ");
    out.append(t[6].as_str());
    out.append(" }, scale: glam::Vec3 { x: ");
    write_vec(out, t[7].as_str(), t[8].as_str(), t[9].as_str());
    out.append(" } }\n");
    assert(final(out)@ =~= old(out)@ + transform_line(pad@, s));
}

fn write_collision(out: &mut String, pad: &str, prefix: &str, stem: &str)
    ensures
        final(out)@ == old(out)@ + collision_line(pad@, prefix@, stem@),
{
    reveal(collision_line);
    out.append(pad);
    out.append("bevy_aurora::collision::CollisionMesh(\"");
    out.append(prefix);
    out.append("/meshes/");
    out.append(stem);
    out.append(".collider\")\n");
    assert(final(out)@ =~= old(out)@ + collision_line(pad@, prefix@, stem@));
}

fn write_proxy(out: &mut String, pad: &str, path: &str)
    ensures
        final(out)@ == old(out)@ + proxy_line(pad@, path@),
{
    reveal(proxy_line);
    out.append(pad);
    out.append("bevy_scene::scene_patch::ScenePatchInstance(\"");
    out.append(path);
    out.append("\"),\n\n");
    assert(final(out)@ =~= old(out)@ + proxy_line(pad@, path@));
}

fn write_children(out: &mut String, pad: &str, kids: &str)
    ensures
        final(out)@ == old(out)@ + children_lines(pad@, kids@),
{
    reveal(children_lines);
    if !kids.is_empty() {
        out.append(pad);
        out.append("bevy_ecs::hierarchy::Children [\n");
        out.append(kids);
        out.append(pad);
        out.append("]\n");
    }
    out.append(pad);
    out.append(",\n");
    assert(final(out)@ =~= old(out)@ + children_lines(pad@, kids@));
}

fn write_skin(out: &mut String, pad: &str, joints: &Option<String>)
    ensures
        final(out)@ == old(out)@ + skin_line(pad@, crate::document::opt_text(*joints)),
{
    reveal(skin_line);
    if let Some(j) = joints {
        out.append(pad);
        out.append("bevy_aurora::skinning::SkinJointsByName([");
        out.append(j.as_str());
        out.append("])\n");
    }
    assert(final(out)@ =~= old(out)@ + skin_line(pad@, crate::document::opt_text(*joints)));
}

fn write_mesh(out: &mut String, pad: &str, prefix: &str, stem: &str, fields: &str)
    ensures
        final(out)@ == old(out)@ + mesh_lines(pad@, prefix@, stem@, fields@),
{
    reveal(mesh_lines);
    out.append(pad);
    out.append("bevy_mesh::components::Mesh3d(\"");
    out.append(prefix);
    out.append("/meshes/");
    out.append(stem);
    out.append(".cluster_mesh\")\n");
    out.append(pad);
    out.append("bevy_aurora::material::AuroraMaterial3d(bevy_aurora::material::AuroraMaterial {");
    out.append(fields);
    out.append("})\n");
    assert(final(out)@ =~= old(out)@ + mesh_lines(pad@, prefix@, stem@, fields@));
}

/// The transform that changes nothing.
pub open spec fn identity_texts() -> Seq<Seq<char>> {
    seq![
        "0.0"@,
        "0.0"@,
        "0.0"@,
        "0.0"@,
        "0.0"@,
        "0.0"@,
        "1.0"@,
        "1.0"@,
        "1.0"@,
        "1.0"@,
    ]
}

fn identity() -> (r: [String; 10])
    ensures
        text::texts(r@) == identity_texts(),
{
    let r = [
        "0.0".to_owned(),
        "0.0".to_owned(),
        "0.0".to_owned(),
        "0.0".to_owned(),
        "0.0".to_owned(),
        "0.0".to_owned(),
        "1.0".to_owned(),
        "1.0".to_owned(),
        "1.0".to_owned(),
        "1.0".to_owned(),
    ];
    assert(text::texts(r@) =~= identity_texts());
    r
}

/// A joint's name in quotes.
pub open spec fn quoted_label(doc: Document, j: usize) -> Seq<char> {
    "\""@ + node_label(doc, j as int) + "\""@
}

/// The names of a skin's joints, in the order that vertices number them.
pub open spec fn joint_names(doc: Document, joints: Seq<usize>) -> Seq<char> {
    text::joined(joints.map_values(|j: usize| quoted_label(doc, j)), ", "@)
}

impl Stage {
    /// The joint list of a node's skin.
    pub open spec fn joints_of(&self, i: int) -> Option<Seq<char>> {
        match self.doc.nodes@[i].skin {
            Some(k) if k < self.doc.skins@.len() => Some(
                joint_names(self.doc, self.doc.skins@[k as int]@),
            ),
            _ => None,
        }
    }

    fn joint_list(&self, i: usize) -> (r: Option<String>)
        requires
            i < self.doc.nodes@.len(),
        ensures
            crate::document::opt_text(r) == self.joints_of(i as int),
    {
        if let Some(k) = self.doc.nodes[i].skin {
            if k < self.doc.skins.len() {
                let joints = &self.doc.skins[k];
                let ghost names = joints@.map_values(|j: usize| quoted_label(self.doc, j));
                let mut parts: Vec<String> = Vec::new();
                for n in 0..joints.len()
                    invariant
                        names == joints@.map_values(|j: usize| quoted_label(self.doc, j)),
                        text::texts(parts@) == names.take(n as int),
                {
                    let label = label_node(&self.doc, joints[n]);
                    let mut quoted = "\"".to_owned();
                    quoted.append(label.as_str());
                    quoted.append("\"");
                    assert(quoted@ == names[n as int]);
                    proof {
                        text::lemma_texts_push(parts@, quoted);
                    }
                    parts.push(quoted);
                    assert(text::texts(parts@) =~= names.take(n + 1));
                }
                assert(names.take(names.len() as int) =~= names);
                return Some(text::join(&parts, ", "));
            }
        }
        None
    }

    /// Whether a node carries collision.
    pub open spec fn node_collides(&self, i: int) -> bool {
        self.colliders && crate::extras::collides_in(
            crate::document::opt_text(self.doc.nodes@[i].extras),
        )
    }

    /// What a node's own entity carries: its first baked primitive, with that primitive's
    /// collision, the material of the mesh's first triangle primitive, and the skin.
    pub open spec fn carried(&self, i: int, pad: Seq<char>) -> Seq<char> {
        let mesh = self.doc.nodes@[i].mesh;
        let shown = self.shown(mesh);
        if shown.len() == 0 {
            seq![]
        } else {
            mesh_lines(
                pad,
                self.asset_prefix@,
                stem_text(mesh->0 as nat, shown[0] as nat),
                self.prim_fields(mesh, first_triangle(self.prims(mesh), 0)),
            ) + (if self.node_collides(i) && marked(
                self.collided@,
                mesh->0 as int,
                shown[0] as int,
            ) {
                collision_line(pad, self.asset_prefix@, stem_text(mesh->0 as nat, shown[0] as nat))
            } else {
                seq![]
            }) + skin_line(pad, self.joints_of(i))
        }
    }

    /// The entity of a node's `k`-th baked primitive, for `k` above zero: a child that stays
    /// where the node is, with that primitive's collision and the material of the mesh's `k`-th
    /// primitive.
    pub open spec fn extra_entity(&self, i: int, k: int, pad: Seq<char>) -> Seq<char> {
        let mesh = self.doc.nodes@[i].mesh;
        let p = self.shown(mesh)[k];
        name_line(pad, node_label(self.doc, i) + "#"@ + text::decimal(k as nat)) + transform_line(
            pad,
            identity_texts(),
        ) + mesh_lines(
            pad,
            self.asset_prefix@,
            stem_text(mesh->0 as nat, p as nat),
            self.prim_fields(mesh, k),
        ) + (if self.node_collides(i) && marked(self.collided@, mesh->0 as int, p as int) {
            collision_line(pad, self.asset_prefix@, stem_text(mesh->0 as nat, p as nat))
        } else {
            seq![]
        }) + skin_line(pad, self.joints_of(i)) + pad + ",\n"@
    }

    /// The entities of a node's baked primitives from the second up to the `upto`-th.
    pub open spec fn extra_entities(&self, i: int, upto: int, pad: Seq<char>) -> Seq<char>
        decreases upto,
    {
        if upto <= 1 {
            seq![]
        } else {
            self.extra_entities(i, upto - 1, pad) + self.extra_entity(i, upto - 1, pad)
        }
    }

    /// The name and transform that every node's entity begins with.
    pub open spec fn head(&self, i: int, pad: Seq<char>) -> Seq<char> {
        name_line(pad, node_label(self.doc, i)) + transform_line(
            pad,
            text::texts(self.doc.nodes@[i].transform@),
        )
    }

    /// The scene that a node stands in for.
    pub open spec fn proxy(&self, i: int) -> Option<Seq<char>> {
        crate::extras::proxy_in(crate::document::opt_text(self.doc.nodes@[i].extras))
    }

    /// The text of a node and all below it.
    pub open spec fn node_text(&self, t: SceneNode, depth: nat) -> Seq<char>
        decreases t,
    {
        let i = t.index as int;
        let pad = padding(depth);
        let kids = self.extra_entities(
            i,
            self.shown(self.doc.nodes@[i].mesh).len() as int,
            padding(depth + 1),
        ) + self.nodes_text(t.children@, depth + 1);
        self.head(i, pad) + (match self.proxy(i) {
            Some(path) => proxy_line(pad, path),
            None => self.carried(i, pad) + children_lines(pad, kids),
        })
    }

    /// The text of a list of nodes and all below them.
    pub open spec fn nodes_text(&self, list: Seq<SceneNode>, depth: nat) -> Seq<char>
        decreases list,
    {
        if list.len() == 0 {
            seq![]
        } else {
            self.nodes_text(list.drop_last(), depth) + self.node_text(list.last(), depth)
        }
    }
}

impl Stage {
    fn write_head(&self, out: &mut String, i: usize, pad: &str)
        requires
            i < self.doc.nodes@.len(),
        ensures
            final(out)@ == old(out)@ + self.head(i as int, pad@),
    {
        let name = label_node(&self.doc, i);
        write_name(out, pad, name.as_str());
        write_transform(out, pad, &self.doc.nodes[i].transform);
        assert(final(out)@ =~= old(out)@ + self.head(i as int, pad@));
    }

    pub(crate) fn find_triangle(&self, mesh: Option<usize>) -> (r: usize)
        ensures
            r == first_triangle(self.prims(mesh), 0),
            r <= self.prims(mesh).len(),
    {
        let n: usize = self.prim_count(mesh);
        let mut p: usize = 0;
        if let Some(m) = mesh {
            while p < n && !self.doc.meshes[m][p].triangles
                invariant
                    mesh == Some(m),
                    n == self.prims(mesh).len(),
                    p <= n,
                    first_triangle(self.prims(mesh), 0) == first_triangle(
                        self.prims(mesh),
                        p as int,
                    ),
                decreases n - p,
            {
                p = p + 1;
            }
        }
        p
    }

    pub(crate) fn fields_text(&self, mesh: Option<usize>, k: usize) -> (r: String)
        ensures
            r@ == self.prim_fields(mesh, k as int),
    {
        let mut out = String::new();
        self.write_prim_fields(&mut out, mesh, k);
        assert(out@ =~= self.prim_fields(mesh, k as int));
        out
    }

    fn write_carried(&self, out: &mut String, i: usize, pad: &str, collide: bool, joints: &Option<String>)
        requires
            i < self.doc.nodes@.len(),
            collide == self.node_collides(i as int),
            crate::document::opt_text(*joints) == self.joints_of(i as int),
        ensures
            final(out)@ == old(out)@ + self.carried(i as int, pad@),
    {
        let mesh = self.doc.nodes[i].mesh;
        let shown = self.shown_prims(mesh);
        if let Some(m) = mesh {
            if shown.len() > 0 {
                let first: usize = shown[0];
                let stem = mesh_stem(m, first);
                let fields = self.fields_text(mesh, self.find_triangle(mesh));
                write_mesh(out, pad, self.asset_prefix.as_str(), stem.as_str(), fields.as_str());
                if collide && is_marked(&self.collided, m, first) {
                    write_collision(out, pad, self.asset_prefix.as_str(), stem.as_str());
                }
                write_skin(out, pad, joints);
            }
        }
        assert(final(out)@ =~= old(out)@ + self.carried(i as int, pad@));
    }

    fn write_extra(&self, out: &mut String, i: usize, m: usize, p: usize, k: usize, pad: &str, collide: bool, joints: &Option<String>)
        requires
            i < self.doc.nodes@.len(),
            self.doc.nodes@[i as int].mesh == Some(m),
            k < self.shown(Some(m)).len(),
            p == self.shown(Some(m))[k as int],
            collide == self.node_collides(i as int),
            crate::document::opt_text(*joints) == self.joints_of(i as int),
        ensures
            final(out)@ == old(out)@ + self.extra_entity(i as int, k as int, pad@),
    {
        let mut name = label_node(&self.doc, i);
        name.append("#");
        text::push_decimal(&mut name, k as u64);
        write_name(out, pad, name.as_str());
        write_transform(out, pad, &identity());
        let stem = mesh_stem(m, p);
        let fields = self.fields_text(Some(m), k);
        write_mesh(out, pad, self.asset_prefix.as_str(), stem.as_str(), fields.as_str());
        if collide && is_marked(&self.collided, m, p) {
            write_collision(out, pad, self.asset_prefix.as_str(), stem.as_str());
        }
        write_skin(out, pad, joints);
        out.append(pad);
        out.append(",\n");
        assert(final(out)@ =~= old(out)@ + self.extra_entity(i as int, k as int, pad@));
    }

    fn write_extras(&self, out: &mut String, i: usize, pad: &str, collide: bool, joints: &Option<String>)
        requires
            i < self.doc.nodes@.len(),
            collide == self.node_collides(i as int),
            crate::document::opt_text(*joints) == self.joints_of(i as int),
        ensures
            final(out)@ == old(out)@ + self.extra_entities(
                i as int,
                self.shown(self.doc.nodes@[i as int].mesh).len() as int,
                pad@,
            ),
    {
        let mesh = self.doc.nodes[i].mesh;
        let shown = self.shown_prims(mesh);
        let ghost before = out@;
        assert(out@ =~= before + self.extra_entities(i as int, 1, pad@));
        assert(shown@.len() == 0 ==> self.extra_entities(i as int, 0, pad@) == self.extra_entities(
            i as int,
            1,
            pad@,
        ));
        if let Some(m) = mesh {
            let mut k: usize = 1;
            while k < shown.len()
                invariant
                    i < self.doc.nodes@.len(),
                    self.doc.nodes@[i as int].mesh == Some(m),
                    mesh == Some(m),
                    shown@ == self.shown(mesh),
                    1 <= k,
                    shown@.len() > 0 ==> k <= shown@.len(),
                    shown@.len() == 0 ==> k == 1,
                    collide == self.node_collides(i as int),
                    crate::document::opt_text(*joints) == self.joints_of(i as int),
                    out@ == before + self.extra_entities(i as int, k as int, pad@),
                decreases shown@.len() - k,
            {
                self.write_extra(out, i, m, shown[k], k, pad, collide, joints);
                assert(out@ =~= before + self.extra_entities(i as int, k + 1, pad@));
                k = k + 1;
            }
        }
    }

    /// Emit one node as an entity block (comma-terminated), recursing into children. Every node
    /// carries a name and its local transform. The first baked primitive is inlined on the node;
    /// further primitives and the node's children become nested `Children`. A node that stands in
    /// for another scene names that scene and nothing else.
    fn emit_node(&self, t: &SceneNode, out: &mut String, pad: &String, Ghost(depth): Ghost<nat>)
        requires
            crate::walk::exists_in(self.doc, *t),
            pad@ == padding(depth),
        ensures
            final(out)@ == old(out)@ + self.node_text(*t, depth),
        decreases *t,
    {
        let i: usize = t.index;
        self.write_head(out, i, pad.as_str());
        if let Some(path) = crate::extras::bsn_proxy(&self.doc.nodes[i].extras) {
            write_proxy(out, pad.as_str(), path.as_str());
            assert(final(out)@ =~= old(out)@ + (self.head(i as int, pad@) + proxy_line(
                pad@,
                path@,
            )));
            return;
        }
        let joints = self.joint_list(i);
        let collide = self.colliders && crate::extras::collides(&self.doc.nodes[i].extras);
        self.write_carried(out, i, pad.as_str(), collide, &joints);
        let mut deeper = pad.clone();
        deeper.append("    ");
        assert(deeper@ == padding(depth + 1));
        let mut kids = String::new();
        self.write_extras(&mut kids, i, deeper.as_str(), collide, &joints);
        let ghost extra = kids@;
        for k in 0..t.children.len()
            invariant
                crate::walk::exists_in(self.doc, *t),
                deeper@ == padding(depth + 1),
                kids@ == extra + self.nodes_text(t.children@.take(k as int), depth + 1),
        {
            let ghost now = t.children@.take(k + 1);
            assert(now.drop_last() =~= t.children@.take(k as int));
            assert(crate::walk::exists_in(self.doc, t.children@[k as int]));
            self.emit_node(&t.children[k], &mut kids, &deeper, Ghost(depth + 1));
            assert(kids@ =~= extra + self.nodes_text(now, depth + 1));
        }
        assert(t.children@.take(t.children@.len() as int) =~= t.children@);
        assert(kids@ =~= self.extra_entities(
            i as int,
            self.shown(self.doc.nodes@[i as int].mesh).len() as int,
            padding(depth + 1),
        ) + self.nodes_text(t.children@, depth + 1));
        write_children(out, pad.as_str(), kids.as_str());
        assert(final(out)@ =~= old(out)@ + (self.head(i as int, pad@) + (self.carried(
            i as int,
            pad@,
        ) + children_lines(pad@, kids@))));
    }

    /// The text of a scene's nodes, one level in.
    pub fn emit_nodes(&self, roots: &Vec<SceneNode>) -> (r: String)
        requires
            forall|k: int| 0 <= k < roots@.len() ==> crate::walk::exists_in(
                self.doc,
                #[trigger] roots@[k],
            ),
        ensures
            r@ == self.nodes_text(roots@, 1),
    {
        let mut out = String::new();
        let pad = text::repeat_text("    ", 1);
        for k in 0..roots.len()
            invariant
                forall|j: int| 0 <= j < roots@.len() ==> crate::walk::exists_in(
                    self.doc,
                    #[trigger] roots@[j],
                ),
                pad@ == padding(1),
                out@ == self.nodes_text(roots@.take(k as int), 1),
        {
            assert(roots@.take(k + 1).drop_last() =~= roots@.take(k as int));
            self.emit_node(&roots[k], &mut out, &pad, Ghost(1));
        }
        assert(roots@.take(roots@.len() as int) =~= roots@);
        out
    }
}

/// The entity of a primitive placed on its own: name, transform, mesh, material and, where it has
/// any, collision.
pub open spec fn placed_entity(
    prefix: Seq<char>,
    stem: Seq<char>,
    fields: Seq<char>,
    name: Seq<char>,
    transform: Seq<Seq<char>>,
    collider: Option<Seq<char>>,
) -> Seq<char> {
    let pad = padding(1);
    name_line(pad, name) + transform_line(pad, transform) + mesh_lines(pad, prefix, stem, fields) + (
    match collider {
        Some(hull) => collision_line(pad, prefix, hull),
        None => seq![],
    }) + pad + ",\n"@
}

/// Appends the entity of a primitive placed on its own. `collider` is the stem of its collision
/// file.
pub fn write_entity_trs(
    out: &mut String,
    prefix: &str,
    stem: &str,
    fields: &str,
    name: &str,
    transform: &[String; 10],
    collider: Option<&str>,
)
    ensures
        final(out)@ == old(out)@ + placed_entity(
            prefix@,
            stem@,
            fields@,
            name@,
            text::texts(transform@),
            crate::names::optional(collider),
        ),
{
    let pad = text::repeat_text("    ", 1);
    write_name(out, pad.as_str(), name);
    write_transform(out, pad.as_str(), transform);
    write_mesh(out, pad.as_str(), prefix, stem, fields);
    if let Some(hull) = collider {
        write_collision(out, pad.as_str(), prefix, hull);
    }
    out.append(pad.as_str());
    out.append(",\n");
    assert(final(out)@ =~= old(out)@ + placed_entity(
        prefix@,
        stem@,
        fields@,
        name@,
        text::texts(transform@),
        crate::names::optional(collider),
    ));
}

/// Whether a text holds a part.
pub open spec fn has_part(s: Seq<char>, part: Seq<char>) -> bool {
    exists|a: Seq<char>, b: Seq<char>| s == #[trigger] (a + part + b)
}

proof fn lemma_part(s: Seq<char>, a: Seq<char>, part: Seq<char>, b: Seq<char>)
    requires
        s == a + part + b,
    ensures
        has_part(s, part),
{
}

proof fn lemma_deeper(s: Seq<char>, a: Seq<char>, mid: Seq<char>, b: Seq<char>, part: Seq<char>)
    requires
        s == a + mid + b,
        has_part(mid, part),
    ensures
        has_part(s, part),
{
    let (x, y) = choose|x: Seq<char>, y: Seq<char>| mid == #[trigger] (x + part + y);
    assert(s =~= (a + x) + part + (y + b));
    lemma_part(s, a + x, part, y + b);
}

/// Entities are indented by four blanks a level.
pub proof fn levels_are_indented(depth: nat)
    ensures
        padding(depth).len() == 4 * depth,
        forall|i: int| 0 <= i < 4 * depth ==> #[trigger] padding(depth)[i] == ' ',
    decreases depth,
{
    reveal_strlit("    ");
    if depth > 0 {
        levels_are_indented((depth - 1) as nat);
    }
}

/// A node's entity bears its own name with the quotes made single, character by character, and an
/// unnamed one is numbered.
pub proof fn labels_keep_names(doc: Document, i: int)
    requires
        0 <= i < doc.nodes@.len(),
    ensures
        match doc.nodes@[i].name {
            Some(n) => node_label(doc, i).len() == n@.len() && forall|k: int|
                0 <= k < n@.len() ==> #[trigger] node_label(doc, i)[k] == (if n@[k] == '"' {
                    '\''
                } else {
                    n@[k]
                }),
            None => node_label(doc, i) == "node"@ + text::decimal(i as nat),
        },
{
}

/// A node's text begins with its name and its own transform: translation, rotation and scale, each
/// number in its place.
pub proof fn nodes_are_named_and_placed(stage: Stage, t: SceneNode, depth: nat)
    ensures
        ({
            let pad = padding(depth);
            let n = stage.doc.nodes@[t.index as int];
            let v = text::texts(n.transform@);
            exists|rest: Seq<char>|
                stage.node_text(t, depth) == (pad + "bevy_ecs::name::Name(\""@ + node_label(
                    stage.doc,
                    t.index as int,
                ) + "\")\n"@) + (pad
                    + "bevy_transform::components::transform::Transform { translation: glam::Vec3 { x: "@
                    + v[0] + ", y: "@ + v[1] + ", z: "@ + v[2] + " }, rotation: glam::Quat { x: "@
                    + v[3] + ", y: "@ + v[4] + ", z: "@ + v[5] + ", w: "@ + v[6]
                    + " }, scale: glam::Vec3 { x: "@ + v[7] + ", y: "@ + v[8] + ", z: "@ + v[9]
                    + " } }\n"@) + #[trigger] (rest + Seq::<char>::empty())
        }),
{
    reveal(name_line);
    reveal(transform_line);
    let i = t.index as int;
    let pad = padding(depth);
    let rest = match stage.proxy(i) {
        Some(path) => proxy_line(pad, path),
        None => stage.carried(i, pad) + children_lines(
            pad,
            stage.extra_entities(
                i,
                stage.shown(stage.doc.nodes@[i].mesh).len() as int,
                padding(depth + 1),
            ) + stage.nodes_text(t.children@, depth + 1),
        ),
    };
    assert(rest + Seq::<char>::empty() =~= rest);
    assert(stage.node_text(t, depth) == stage.head(i, pad) + (rest + Seq::<char>::empty()));
}

/// A node that stands in for another scene names that scene and ends: nothing of its mesh or of
/// what is below it is written.
pub proof fn stand_ins_name_their_scene(stage: Stage, t: SceneNode, depth: nat, path: Seq<char>)
    requires
        stage.proxy(t.index as int) == Some(path),
    ensures
        stage.node_text(t, depth) == stage.head(t.index as int, padding(depth)) + (padding(depth)
            + "bevy_scene::scene_patch::ScenePatchInstance(\""@ + path + "\"),\n\n"@),
{
    reveal(proxy_line);
}

/// Whether primitive `p` of a mesh can be shown: a triangle primitive that was baked.
pub open spec fn can_show(stage: Stage, mesh: usize, p: int) -> bool {
    &&& 0 <= p < stage.doc.meshes@[mesh as int]@.len()
    &&& stage.doc.meshes@[mesh as int]@[p].triangles
    &&& mesh < stage.baked@.len()
    &&& p < stage.baked@[mesh as int]@.len()
    &&& stage.baked@[mesh as int]@[p]
}

/// The primitives that a mesh shows are exactly those that are triangles and were baked, from the
/// first to the last.
pub proof fn shown_primitives_were_baked(stage: Stage, mesh: usize)
    requires
        mesh < stage.doc.meshes@.len(),
        stage.doc.meshes@[mesh as int]@.len() <= usize::MAX,
    ensures
        forall|k: int|
            0 <= k < stage.shown(Some(mesh)).len() ==> can_show(
                stage,
                mesh,
                #[trigger] stage.shown(Some(mesh))[k] as int,
            ),
        forall|p: usize|
            can_show(stage, mesh, p as int) ==> #[trigger] stage.shown(Some(mesh)).contains(p),
        forall|j: int, k: int|
            #![trigger stage.shown(Some(mesh))[j], stage.shown(Some(mesh))[k]]
            0 <= j < k < stage.shown(Some(mesh)).len() ==> stage.shown(Some(mesh))[j] < stage.shown(
                Some(mesh),
            )[k],
{
    lemma_shown(stage, mesh, stage.doc.meshes@[mesh as int]@.len());
}

proof fn lemma_shown(stage: Stage, mesh: usize, upto: nat)
    requires
        mesh < stage.doc.meshes@.len(),
        upto <= stage.doc.meshes@[mesh as int]@.len() <= usize::MAX,
    ensures
        forall|k: int|
            0 <= k < stage.baked_prims(Some(mesh), upto).len() ==> can_show(
                stage,
                mesh,
                #[trigger] stage.baked_prims(Some(mesh), upto)[k] as int,
            ) && stage.baked_prims(Some(mesh), upto)[k] < upto,
        forall|p: usize|
            p < upto && can_show(stage, mesh, p as int) ==> #[trigger] stage.baked_prims(
                Some(mesh),
                upto,
            ).contains(p),
        forall|j: int, k: int|
            #![trigger stage.baked_prims(Some(mesh), upto)[j], stage.baked_prims(Some(mesh), upto)[k]]
            0 <= j < k < stage.baked_prims(Some(mesh), upto).len() ==> stage.baked_prims(
                Some(mesh),
                upto,
            )[j] < stage.baked_prims(Some(mesh), upto)[k],
    decreases upto,
{
    if upto > 0 {
        let m = (upto - 1) as nat;
        lemma_shown(stage, mesh, m);
        let (less, all) = (stage.baked_prims(Some(mesh), m), stage.baked_prims(Some(mesh), upto));
        assert forall|p: usize| p < upto && can_show(stage, mesh, p as int) implies #[trigger] all.contains(
            p,
        ) by {
            if p < m {
                assert(less.contains(p));
                let k = choose|k: int| 0 <= k < less.len() && less[k] == p;
                assert(all[k] == p);
            } else {
                assert(all.last() == p);
                assert(all[all.len() - 1] == p);
            }
        }
        assert forall|k: int| 0 <= k < all.len() implies can_show(
            stage,
            mesh,
            #[trigger] all[k] as int,
        ) && all[k] < upto by {
            if k < less.len() {
                assert(all[k] == less[k]);
            }
        }
        assert forall|j: int, k: int|
            #![trigger all[j], all[k]]
            0 <= j < k < all.len() implies all[j] < all[k] by {
            assert(all[j] == less[j]);
            if k < less.len() {
                assert(all[k] == less[k]);
            }
        }
    }
}

/// A node with a mesh carries its first shown primitive: the mesh file of that primitive, and the
/// fields of the material that the mesh's first triangle primitive names.
pub proof fn nodes_carry_their_mesh(stage: Stage, i: int, pad: Seq<char>, m: usize, p: int, q: int)
    requires
        stage.doc.nodes@[i].mesh == Some(m),
        m < stage.doc.meshes@.len(),
        stage.doc.meshes@[m as int]@.len() <= usize::MAX,
        can_show(stage, m, p),
        forall|k: int| 0 <= k < p ==> !#[trigger] can_show(stage, m, k),
        0 <= q <= p,
        stage.doc.meshes@[m as int]@[q].triangles,
        forall|k: int| 0 <= k < q ==> !(#[trigger] stage.doc.meshes@[m as int]@[k]).triangles,
    ensures
        has_part(
            stage.carried(i, pad),
            "bevy_mesh::components::Mesh3d(\""@ + stage.asset_prefix@ + "/meshes/"@ + stem_text(
                m as nat,
                p as nat,
            ) + ".cluster_mesh\")\n"@,
        ),
        has_part(
            stage.carried(i, pad),
            "bevy_aurora::material::AuroraMaterial3d(bevy_aurora::material::AuroraMaterial {"@ + (
            match stage.doc.meshes@[m as int]@[q].material {
                Some(k) if k < stage.fields@.len() => stage.fields@[k as int]@,
                _ => stage.default_fields@,
            }) + "})\n"@,
        ),
{
    reveal(mesh_lines);
    let mesh = Some(m);
    shown_primitives_were_baked(stage, m);
    let shown = stage.shown(mesh);
    assert(shown.contains(p as usize));
    let at = choose|at: int| 0 <= at < shown.len() && shown[at] == p as usize;
    assert(shown[0] == p) by {
        if at > 0 {
            assert(shown[0] < shown[at]);
            assert(can_show(stage, m, shown[0] as int));
        }
    }
    lemma_first_triangle(stage.prims(mesh), 0, q);
    let fields = stage.prim_fields(mesh, q);
    let stem = stem_text(m as nat, p as nat);
    let lines = mesh_lines(pad, stage.asset_prefix@, stem, fields);
    let rest = (if stage.node_collides(i) && marked(stage.collided@, m as int, p) {
        collision_line(pad, stage.asset_prefix@, stem)
    } else {
        seq![]
    }) + skin_line(pad, stage.joints_of(i));
    let none = Seq::<char>::empty();
    assert(stage.carried(i, pad) =~= none + lines + rest);
    let x = "bevy_mesh::components::Mesh3d(\""@ + stage.asset_prefix@ + "/meshes/"@ + stem
        + ".cluster_mesh\")\n"@;
    let y = "bevy_aurora::material::AuroraMaterial3d(bevy_aurora::material::AuroraMaterial {"@
        + fields + "})\n"@;
    lemma_mesh_shape(
        pad,
        "bevy_mesh::components::Mesh3d(\""@,
        stage.asset_prefix@,
        "/meshes/"@,
        stem,
        ".cluster_mesh\")\n"@,
        "bevy_aurora::material::AuroraMaterial3d(bevy_aurora::material::AuroraMaterial {"@,
        fields,
        "})\n"@,
    );
    assert(lines == pad + x + (pad + y));
    assert(lines == (pad + x + pad) + y + none);
    lemma_part(lines, pad, x, pad + y);
    lemma_part(lines, pad + x + pad, y, none);
    lemma_deeper(stage.carried(i, pad), none, lines, rest, x);
    lemma_deeper(stage.carried(i, pad), none, lines, rest, y);
}

proof fn lemma_mesh_shape(
    pad: Seq<char>,
    a: Seq<char>,
    b: Seq<char>,
    c: Seq<char>,
    d: Seq<char>,
    e: Seq<char>,
    f: Seq<char>,
    g: Seq<char>,
    h: Seq<char>,
)
    ensures
        pad + a + b + c + d + e + pad + f + g + h == pad + (a + b + c + d + e) + (pad + (f + g
            + h)),
        pad + a + b + c + d + e + pad + f + g + h == (pad + (a + b + c + d + e) + pad) + (f + g + h)
            + Seq::<char>::empty(),
{
    let all = pad + a + b + c + d + e + pad + f + g + h;
    assert(all =~= pad + (a + b + c + d + e) + (pad + (f + g + h)));
    assert(all =~= (pad + (a + b + c + d + e) + pad) + (f + g + h) + Seq::<char>::empty());
}

proof fn lemma_first_triangle(prims: Seq<PrimRecord>, from: int, q: int)
    requires
        0 <= from <= q < prims.len(),
        prims[q].triangles,
        forall|k: int| from <= k < q ==> !(#[trigger] prims[k]).triangles,
    ensures
        first_triangle(prims, from) == q,
    decreases q - from,
{
    if from < q {
        assert(!prims[from].triangles);
        lemma_first_triangle(prims, from + 1, q);
    }
}

/// A node that shows nothing carries nothing.
pub proof fn bare_nodes_carry_nothing(stage: Stage, i: int, pad: Seq<char>)
    requires
        stage.doc.nodes@[i].mesh is None,
    ensures
        stage.carried(i, pad) == Seq::<char>::empty(),
{
}

/// A node carries collision exactly where collision is baked at all, its extras ask for it, and
/// its shown primitive has a collision file; then it names that file.
pub proof fn colliders_are_named(stage: Stage, i: int, pad: Seq<char>, m: usize, p: usize)
    requires
        stage.doc.nodes@[i].mesh == Some(m),
        stage.shown(Some(m)).len() > 0,
        stage.shown(Some(m))[0] == p,
        stage.doc.nodes@[i].skin is None,
    ensures
        ({
            let plain = mesh_lines(
                pad,
                stage.asset_prefix@,
                stem_text(m as nat, p as nat),
                stage.prim_fields(Some(m), first_triangle(stage.prims(Some(m)), 0)),
            );
            let wanted = stage.colliders && crate::extras::collides_in(
                crate::document::opt_text(stage.doc.nodes@[i].extras),
            ) && m < stage.collided@.len() && p < stage.collided@[m as int]@.len()
                && stage.collided@[m as int]@[p as int];
            stage.carried(i, pad) == if wanted {
                plain + (pad + "bevy_aurora::collision::CollisionMesh(\""@ + stage.asset_prefix@
                    + "/meshes/"@ + stem_text(m as nat, p as nat) + ".collider\")\n"@)
            } else {
                plain
            }
        }),
{
    reveal(collision_line);
    reveal(skin_line);
    let plain = mesh_lines(
        pad,
        stage.asset_prefix@,
        stem_text(m as nat, p as nat),
        stage.prim_fields(Some(m), first_triangle(stage.prims(Some(m)), 0)),
    );
    let none = Seq::<char>::empty();
    let line = collision_line(pad, stage.asset_prefix@, stem_text(m as nat, p as nat));
    assert(skin_line(pad, stage.joints_of(i)) == none);
    assert(plain + line + none =~= plain + line);
    assert(plain + none + none =~= plain);
}

/// A skinned node lists its skin's joints, each by its quoted label, in the order that vertices
/// number them.
pub proof fn joints_keep_their_order(doc: Document, joints: Seq<usize>, j: usize)
    ensures
        joint_names(doc, seq![j]) == "\""@ + node_label(doc, j as int) + "\""@,
        joints.len() > 0 ==> joint_names(doc, joints.push(j)) == joint_names(doc, joints) + ", "@
            + ("\""@ + node_label(doc, j as int) + "\""@),
        joint_names(doc, Seq::<usize>::empty()).len() == 0,
{
    let f = |k: usize| quoted_label(doc, k);
    assert(seq![j].map_values(f) =~= seq![quoted_label(doc, j)]);
    assert(joints.push(j).map_values(f) =~= joints.map_values(f).push(quoted_label(doc, j)));
    assert(Seq::<usize>::empty().map_values(f) =~= Seq::<Seq<char>>::empty());
    let all = joints.map_values(f).push(quoted_label(doc, j));
    assert(all.drop_last() =~= joints.map_values(f));
    let one = seq![quoted_label(doc, j)];
    assert(one.drop_last() =~= Seq::<Seq<char>>::empty());
}

/// What is below a node stands between its own lines and its end, one level deeper, the further
/// primitives of its mesh first; a node with nothing below has no such part.
pub proof fn children_are_nested(stage: Stage, t: SceneNode, depth: nat)
    requires
        stage.proxy(t.index as int) is None,
    ensures
        ({
            let i = t.index as int;
            let pad = padding(depth);
            let kids = stage.extra_entities(
                i,
                stage.shown(stage.doc.nodes@[i].mesh).len() as int,
                padding(depth + 1),
            ) + stage.nodes_text(t.children@, depth + 1);
            &&& kids.len() > 0 ==> stage.node_text(t, depth) == stage.head(i, pad) + (stage.carried(
                i,
                pad,
            ) + (pad + "bevy_ecs::hierarchy::Children [\n"@ + kids + pad + "]\n"@ + pad + ",\n"@))
            &&& kids.len() == 0 ==> stage.node_text(t, depth) == stage.head(i, pad) + (
            stage.carried(i, pad) + (pad + ",\n"@))
        }),
{
    reveal(children_lines);
    let pad = padding(depth);
    assert(Seq::<char>::empty() + pad + ",\n"@ =~= pad + ",\n"@);
}

/// The text of nodes side by side is that of each, in order.
pub proof fn siblings_follow_in_order(stage: Stage, list: Seq<SceneNode>, t: SceneNode, depth: nat)
    ensures
        stage.nodes_text(list.push(t), depth) == stage.nodes_text(list, depth) + stage.node_text(
            t,
            depth,
        ),
        stage.nodes_text(Seq::<SceneNode>::empty(), depth).len() == 0,
{
    assert(list.push(t).drop_last() =~= list);
}

/// A further primitive of a node is a child named after the node and its number, which stays where
/// the node is: no translation, no rotation, no scale.
pub proof fn further_primitives_stay(stage: Stage, i: int, k: int, pad: Seq<char>)
    ensures
        exists|rest: Seq<char>|
            stage.extra_entity(i, k, pad) == (pad + "bevy_ecs::name::Name(\""@ + (node_label(
                stage.doc,
                i,
            ) + "#"@ + text::decimal(k as nat)) + "\")\n"@) + (pad
                + "bevy_transform::components::transform::Transform { translation: glam::Vec3 { x: "@
                + "0.0"@ + ", y: "@ + "0.0"@ + ", z: "@ + "0.0"@
                + " }, rotation: glam::Quat { x: "@ + "0.0"@ + ", y: "@ + "0.0"@ + ", z: "@ + "0.0"@
                + ", w: "@ + "1.0"@ + " }, scale: glam::Vec3 { x: "@ + "1.0"@ + ", y: "@ + "1.0"@
                + ", z: "@ + "1.0"@ + " } }\n"@) + #[trigger] (rest + Seq::<char>::empty()),
{
    reveal(name_line);
    reveal(transform_line);
    let mesh = stage.doc.nodes@[i].mesh;
    let p = stage.shown(mesh)[k];
    let lines = mesh_lines(
        pad,
        stage.asset_prefix@,
        stem_text(mesh->0 as nat, p as nat),
        stage.prim_fields(mesh, k),
    );
    let hull = if stage.node_collides(i) && marked(stage.collided@, mesh->0 as int, p as int) {
        collision_line(pad, stage.asset_prefix@, stem_text(mesh->0 as nat, p as nat))
    } else {
        Seq::<char>::empty()
    };
    let skin = skin_line(pad, stage.joints_of(i));
    let head = name_line(pad, node_label(stage.doc, i) + "#"@ + text::decimal(k as nat));
    let place = transform_line(pad, identity_texts());
    let rest = lines + hull + skin + pad + ",\n"@;
    lemma_extra_shape(head, place, lines, hull, skin, pad, ",\n"@);
    assert(stage.extra_entity(i, k, pad) == head + place + (rest + Seq::<char>::empty()));
}

proof fn lemma_extra_shape(
    a: Seq<char>,
    b: Seq<char>,
    c: Seq<char>,
    d: Seq<char>,
    e: Seq<char>,
    f: Seq<char>,
    g: Seq<char>,
)
    ensures
        a + b + c + d + e + f + g == a + b + ((c + d + e + f + g) + Seq::<char>::empty()),
{
    assert(a + b + c + d + e + f + g =~= a + b + ((c + d + e + f + g) + Seq::<char>::empty()));
}

/// A primitive placed on its own names its mesh file, its material's fields and, where it has one,
/// its collision file, one level in.
pub proof fn placed_entities_read(
    prefix: Seq<char>,
    stem: Seq<char>,
    fields: Seq<char>,
    name: Seq<char>,
    v: Seq<Seq<char>>,
    hull: Seq<char>,
)
    ensures
        ({
            let pad = padding(1);
            let plain = (pad + "bevy_ecs::name::Name(\""@ + name + "\")\n"@) + (pad
                + "bevy_transform::components::transform::Transform { translation: glam::Vec3 { x: "@
                + v[0] + ", y: "@ + v[1] + ", z: "@ + v[2] + " }, rotation: glam::Quat { x: "@
                + v[3] + ", y: "@ + v[4] + ", z: "@ + v[5] + ", w: "@ + v[6]
                + " }, scale: glam::Vec3 { x: "@ + v[7] + ", y: "@ + v[8] + ", z: "@ + v[9]
                + " } }\n"@) + (pad + "bevy_mesh::components::Mesh3d(\""@ + prefix + "/meshes/"@
                + stem + ".cluster_mesh\")\n"@ + pad
                + "bevy_aurora::material::AuroraMaterial3d(bevy_aurora::material::AuroraMaterial {"@
                + fields + "})\n"@);
            &&& placed_entity(prefix, stem, fields, name, v, None) == plain + pad + ",\n"@
            &&& placed_entity(prefix, stem, fields, name, v, Some(hull)) == plain + (pad
                + "bevy_aurora::collision::CollisionMesh(\""@ + prefix + "/meshes/"@ + hull
                + ".collider\")\n"@) + pad + ",\n"@
        }),
{
    reveal(name_line);
    reveal(transform_line);
    reveal(mesh_lines);
    reveal(collision_line);
    let pad = padding(1);
    let plain = name_line(pad, name) + transform_line(pad, v) + mesh_lines(
        pad,
        prefix,
        stem,
        fields,
    );
    assert(plain + Seq::<char>::empty() =~= plain);
}

/// A skinned node has the joints of its own skin, and names them on a line of its own; a node without
/// a skin has no such line.
pub proof fn skins_name_their_joints(stage: Stage, i: int, k: usize, pad: Seq<char>)
    requires
        k < stage.doc.skins@.len(),
    ensures
        stage.doc.nodes@[i].skin == Some(k) ==> stage.joints_of(i) == Some(
            joint_names(stage.doc, stage.doc.skins@[k as int]@),
        ),
        stage.doc.nodes@[i].skin == Some(k) && stage.shown(stage.doc.nodes@[i].mesh).len() > 0
            ==> has_part(
            stage.carried(i, pad),
            "bevy_aurora::skinning::SkinJointsByName(["@ + joint_names(
                stage.doc,
                stage.doc.skins@[k as int]@,
            ) + "])\n"@,
        ),
        stage.doc.nodes@[i].skin is None ==> stage.joints_of(i) is None && skin_line(
            pad,
            stage.joints_of(i),
        ).len() == 0,
{
    reveal(skin_line);
    let mesh = stage.doc.nodes@[i].mesh;
    let shown = stage.shown(mesh);
    if stage.doc.nodes@[i].skin == Some(k) && shown.len() > 0 {
        let names = joint_names(stage.doc, stage.doc.skins@[k as int]@);
        let line = "bevy_aurora::skinning::SkinJointsByName(["@ + names + "])\n"@;
        let skin = skin_line(pad, stage.joints_of(i));
        let all = stage.carried(i, pad);
        let before = all.take(all.len() - skin.len());
        let none = Seq::<char>::empty();
        assert(skin =~= pad + line);
        assert(all =~= before + skin);
        assert(before + (pad + line) =~= (before + pad) + line + none);
        lemma_part(all, before + pad, line, none);
    }
}

/// A further primitive of a node is an entity of its own that shows the mesh file of that primitive,
/// with the fields of the material of its own number, and its collision file where it has one and
/// the node collides.
pub proof fn further_primitives_show_their_mesh(
    stage: Stage,
    i: int,
    k: int,
    pad: Seq<char>,
    m: usize,
    c: usize,
)
    requires
        stage.doc.nodes@[i].mesh == Some(m),
        m < stage.doc.meshes@.len(),
        1 <= k < stage.shown(Some(m)).len(),
        k < stage.doc.meshes@[m as int]@.len(),
        stage.doc.meshes@[m as int]@[k].material == Some(c),
        c < stage.fields@.len(),
    ensures
        ({
            let p = stage.shown(Some(m))[k];
            let all = stage.extra_entity(i, k, pad);
            let hull = "bevy_aurora::collision::CollisionMesh(\""@ + stage.asset_prefix@ + "/meshes/"@
                + stem_text(m as nat, p as nat) + ".collider\")\n"@;
            &&& has_part(
                all,
                "bevy_mesh::components::Mesh3d(\""@ + stage.asset_prefix@ + "/meshes/"@ + stem_text(
                    m as nat,
                    p as nat,
                ) + ".cluster_mesh\")\n"@,
            )
            &&& has_part(
                all,
                "bevy_aurora::material::AuroraMaterial3d(bevy_aurora::material::AuroraMaterial {"@
                    + stage.fields@[c as int]@ + "})\n"@,
            )
            &&& stage.node_collides(i) && marked(stage.collided@, m as int, p as int) ==> has_part(all, hull)
        }),
{
    reveal(mesh_lines);
    reveal(collision_line);
    let mesh = Some(m);
    let p = stage.shown(mesh)[k];
    let all = stage.extra_entity(i, k, pad);
    let fields = stage.fields@[c as int]@;
    let stem = stem_text(m as nat, p as nat);
    let lines = mesh_lines(pad, stage.asset_prefix@, stem, fields);
    let none = Seq::<char>::empty();
    let hull = if stage.node_collides(i) && marked(stage.collided@, m as int, p as int) {
        collision_line(pad, stage.asset_prefix@, stem)
    } else {
        none
    };
    let skin = skin_line(pad, stage.joints_of(i));
    let head = name_line(pad, node_label(stage.doc, i) + "#"@ + text::decimal(k as nat))
        + transform_line(pad, identity_texts());
    let rest = hull + skin + pad + ",\n"@;
    assert(stage.prim_fields(mesh, k) == fields);
    assert(all == head + lines + hull + skin + pad + ",\n"@);
    lemma_further_shape(head, lines, hull, skin, pad, ",\n"@);
    let x = "bevy_mesh::components::Mesh3d(\""@ + stage.asset_prefix@ + "/meshes/"@ + stem
        + ".cluster_mesh\")\n"@;
    let y = "bevy_aurora::material::AuroraMaterial3d(bevy_aurora::material::AuroraMaterial {"@
        + fields + "})\n"@;
    lemma_mesh_shape(
        pad,
        "bevy_mesh::components::Mesh3d(\""@,
        stage.asset_prefix@,
        "/meshes/"@,
        stem,
        ".cluster_mesh\")\n"@,
        "bevy_aurora::material::AuroraMaterial3d(bevy_aurora::material::AuroraMaterial {"@,
        fields,
        "})\n"@,
    );
    assert(lines == pad + x + (pad + y));
    assert(lines == (pad + x + pad) + y + none);
    lemma_part(lines, pad, x, pad + y);
    lemma_part(lines, pad + x + pad, y, none);
    lemma_deeper(all, head, lines, rest, x);
    lemma_deeper(all, head, lines, rest, y);
    if stage.node_collides(i) && marked(stage.collided@, m as int, p as int) {
        let z = "bevy_aurora::collision::CollisionMesh(\""@ + stage.asset_prefix@ + "/meshes/"@ + stem
            + ".collider\")\n"@;
        assert(hull =~= pad + z + none);
        lemma_part(hull, pad, z, none);
        lemma_deeper(all, head + lines, hull, skin + pad + ",\n"@, z);
    }
}

proof fn lemma_further_shape(
    a: Seq<char>,
    b: Seq<char>,
    c: Seq<char>,
    d: Seq<char>,
    e: Seq<char>,
    f: Seq<char>,
)
    ensures
        a + b + c + d + e + f == a + b + (c + d + e + f),
        a + b + c + d + e + f == (a + b) + c + (d + e + f),
{
    assert(a + b + c + d + e + f =~= a + b + (c + d + e + f));
    assert(a + b + c + d + e + f =~= (a + b) + c + (d + e + f));
}

} // verus!
