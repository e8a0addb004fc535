//! A glTF document as plain records: nodes, scenes, meshes, skins, materials and images.

use vstd::prelude::*;
use crate::omm;

verus! {

/// A number of a document: the bits of its 32-bit float and its notation.
pub struct Number {
    pub bits: u32,
    pub text: String,
}

/// A node, with its local transform as ten numbers: translation, rotation (x, y, z, w) and scale.
pub struct NodeRecord {
    pub name: Option<String>,
    pub children: Vec<usize>,
    pub mesh: Option<usize>,
    pub skin: Option<usize>,
    pub extras: Option<String>,
    pub transform: [String; 10],
}

/// What a node is, without its transform.
pub struct NodeHead {
    pub name: Option<String>,
    pub children: Vec<usize>,
    pub mesh: Option<usize>,
    pub skin: Option<usize>,
    pub extras: Option<String>,
}

/// A primitive: whether it is a triangle list, and its material's index.
#[derive(Clone, Copy, Debug)]
pub struct PrimRecord {
    pub triangles: bool,
    pub material: Option<usize>,
}

/// How a material's alpha is meant.
#[derive(Clone, Copy, Debug, PartialEq, Eq, Structural)]
pub enum AlphaMode {
    Opaque,
    Mask,
    Blend,
}

/// A material's name and alpha mode.
pub struct MaterialHead {
    pub name: Option<String>,
    pub alpha: AlphaMode,
}

/// A material's factors: base colour (4), metallic, roughness and emissive colour (3).
pub struct MaterialFactors {
    pub factors: [Number; 9],
}

/// A material's index of refraction, emissive strength, alpha cutoff and transmission factor, each
/// where the material gives it.
pub struct MaterialOptions {
    pub optional: [Option<Number>; 4],
}

/// The images a material samples: base colour, metallic-roughness, normal and emissive.
#[derive(Clone, Copy, Debug)]
pub struct MaterialImages {
    pub base_color: Option<usize>,
    pub metallic_roughness: Option<usize>,
    pub normal: Option<usize>,
    pub emissive: Option<usize>,
}

/// An image: its name, the buffer view that holds it, its media type and its URI.
pub struct ImageRecord {
    pub name: Option<String>,
    pub view: Option<usize>,
    pub mime: Option<String>,
    pub uri: Option<String>,
}

/// The characters of an optional string.
pub open spec fn opt_text(s: Option<String>) -> Option<Seq<char>> {
    match s {
        Some(t) => Some(t@),
        None => None,
    }
}

/// What a [`Number`] holds.
pub type NumberView = (u32, Seq<char>);

/// What an optional [`Number`] holds.
pub open spec fn opt_number(n: Option<Number>) -> Option<NumberView> {
    match n {
        Some(x) => Some(x@),
        None => None,
    }
}

/// What a [`NodeHead`] holds.
pub ghost struct NodeView {
    pub name: Option<Seq<char>>,
    pub children: Seq<usize>,
    pub mesh: Option<usize>,
    pub skin: Option<usize>,
    pub extras: Option<Seq<char>>,
}

/// What an [`ImageRecord`] holds.
pub ghost struct ImageView {
    pub name: Option<Seq<char>>,
    pub view: Option<usize>,
    pub mime: Option<Seq<char>>,
    pub uri: Option<Seq<char>>,
}

impl View for Number {
    type V = NumberView;

    open spec fn view(&self) -> NumberView {
        (self.bits, self.text@)
    }
}

impl View for NodeHead {
    type V = NodeView;

    open spec fn view(&self) -> NodeView {
        NodeView {
            name: opt_text(self.name),
            children: self.children@,
            mesh: self.mesh,
            skin: self.skin,
            extras: opt_text(self.extras),
        }
    }
}

impl NodeRecord {
    /// What the node is, without its transform.
    pub open spec fn head(&self) -> NodeView {
        NodeView {
            name: opt_text(self.name),
            children: self.children@,
            mesh: self.mesh,
            skin: self.skin,
            extras: opt_text(self.extras),
        }
    }
}

/// The heads of nodes.
pub open spec fn node_heads(nodes: Seq<NodeRecord>) -> Seq<NodeView> {
    nodes.map_values(|n: NodeRecord| n.head())
}

/// The transforms of nodes.
pub open spec fn node_transforms(nodes: Seq<NodeRecord>) -> Seq<Seq<Seq<char>>> {
    nodes.map_values(|n: NodeRecord| crate::text::texts(n.transform@))
}

/// The texts of lists of ten numbers.
pub open spec fn transform_texts(list: Seq<[String; 10]>) -> Seq<Seq<Seq<char>>> {
    list.map_values(|t: [String; 10]| crate::text::texts(t@))
}

impl View for ImageRecord {
    type V = ImageView;

    open spec fn view(&self) -> ImageView {
        ImageView {
            name: opt_text(self.name),
            view: self.view,
            mime: opt_text(self.mime),
            uri: opt_text(self.uri),
        }
    }
}

impl View for MaterialHead {
    type V = (Option<Seq<char>>, AlphaMode);

    open spec fn view(&self) -> (Option<Seq<char>>, AlphaMode) {
        (opt_text(self.name), self.alpha)
    }
}

impl View for MaterialFactors {
    type V = Seq<NumberView>;

    open spec fn view(&self) -> Seq<NumberView> {
        self.factors@.map_values(|n: Number| n@)
    }
}

impl View for MaterialOptions {
    type V = Seq<Option<NumberView>>;

    open spec fn view(&self) -> Seq<Option<NumberView>> {
        self.optional@.map_values(|n: Option<Number>| opt_number(n))
    }
}

/// Whether bytes that begin as binary glTF state a length that covers their own header.
pub open spec fn header_covered(bytes: Seq<u8>) -> bool {
    bytes.len() >= 12 && bytes[0] == 103 && bytes[1] == 108 && bytes[2] == 84 && bytes[3] == 70
        ==> omm::le_value(bytes, 8, 4) >= 12
}

/// The nodes of the document that bytes hold, or what is wrong with it.
pub uninterp spec fn gltf_nodes(bytes: Seq<u8>) -> Result<Seq<NodeView>, Seq<char>>;

/// The local transforms of the document's nodes, as ten numbers each.
pub uninterp spec fn gltf_transforms(bytes: Seq<u8>) -> Result<Seq<Seq<Seq<char>>>, Seq<char>>;

/// How many accessors the document that bytes hold has, and the accessor that each primitive of its
/// meshes gives its positions by, or what keeps it from being read at all.
pub uninterp spec fn gltf_position_refs(bytes: Seq<u8>) -> Result<
    (usize, Seq<Option<usize>>),
    Seq<char>,
>;

/// Whether every primitive that gives its positions gives them by one of `accessors` accessors.
pub open spec fn refs_in_range(accessors: usize, refs: Seq<Option<usize>>) -> bool {
    forall|i: int| 0 <= i < refs.len() ==> (#[trigger] refs[i] matches Some(k) ==> k < accessors)
}

/// Whether the bytes can be handed to the validating parser: their header is covered, and no
/// primitive names an accessor that the document lacks.
pub open spec fn parsable(bytes: Seq<u8>) -> bool {
    header_covered(bytes) && (gltf_position_refs(bytes) matches Ok(p) ==> refs_in_range(p.0, p.1))
}

/// The index of the document's default scene, where it names one.
pub uninterp spec fn gltf_default_scene(bytes: Seq<u8>) -> Result<Option<usize>, Seq<char>>;

/// The root nodes of the document's scenes.
pub uninterp spec fn gltf_scenes(bytes: Seq<u8>) -> Result<Seq<Seq<usize>>, Seq<char>>;

/// The root nodes of the default scene, or of the first one where no default is named.
pub open spec fn picked_roots(default: Option<usize>, scenes: Seq<Seq<usize>>) -> Option<
    Seq<usize>,
> {
    let at = match default {
        Some(k) => k as int,
        None => 0,
    };
    if at < scenes.len() {
        Some(scenes[at])
    } else {
        None
    }
}

/// The primitives of the document's meshes.
pub uninterp spec fn gltf_primitives(bytes: Seq<u8>) -> Result<Seq<Seq<PrimRecord>>, Seq<char>>;

/// The joint nodes of the document's skins.
pub uninterp spec fn gltf_joints(bytes: Seq<u8>) -> Result<Seq<Seq<usize>>, Seq<char>>;

/// The names and alpha modes of the document's materials.
pub uninterp spec fn gltf_material_heads(bytes: Seq<u8>) -> Result<
    Seq<(Option<Seq<char>>, AlphaMode)>,
    Seq<char>,
>;

/// The factors of the document's materials.
pub uninterp spec fn gltf_material_factors(bytes: Seq<u8>) -> Result<
    Seq<Seq<NumberView>>,
    Seq<char>,
>;

/// The optional factors of the document's materials.
pub uninterp spec fn gltf_material_options(bytes: Seq<u8>) -> Result<
    Seq<Seq<Option<NumberView>>>,
    Seq<char>,
>;

/// The images that the document's materials sample.
pub uninterp spec fn gltf_material_images(bytes: Seq<u8>) -> Result<
    Seq<MaterialImages>,
    Seq<char>,
>;

/// The images of the document.
pub uninterp spec fn gltf_images(bytes: Seq<u8>) -> Result<Seq<ImageView>, Seq<char>>;

/// Parses with `gltf::Gltf::from_slice_without_validation`, which checks nothing but the form of the
/// document, and hands out how many accessors `Document::as_json` has and the accessor of the
/// `POSITION` attribute of each primitive of its meshes. The result depends on the bytes alone.
#[verifier::external_body]
fn read_position_refs(bytes: &Vec<u8>) -> (r: Result<(usize, Vec<Option<usize>>), String>)
    requires
        header_covered(bytes@),
    ensures
        match r {
            Ok(v) => gltf_position_refs(bytes@) == Ok::<_, Seq<char>>((v.0, v.1@)),
            Err(e) => gltf_position_refs(bytes@) == Err::<(usize, Seq<Option<usize>>), _>(e@),
        },
{
    let g = gltf::Gltf::from_slice_without_validation(bytes).map_err(|e| e.to_string())?;
    let root = g.as_json();
    let key = gltf::json::validation::Checked::Valid(gltf::Semantic::Positions);
    let prims = root.meshes.iter().flat_map(|m| m.primitives.iter());
    let refs = prims.map(|p| p.attributes.get(&key).map(|i| i.value())).collect();
    Ok((root.accessors.len(), refs))
}

/// Tests whether every primitive that gives its positions gives them by one of the accessors.
pub fn positions_resolve(accessors: usize, refs: &Vec<Option<usize>>) -> (r: bool)
    ensures
        r == refs_in_range(accessors, refs@),
{
    for i in 0..refs.len()
        invariant
            forall|j: int|
                0 <= j < i ==> (#[trigger] refs@[j] matches Some(k) ==> k < accessors),
    {
        if let Some(k) = refs[i] {
            if k >= accessors {
                assert(refs@[i as int] == Some(k));
                return false;
            }
        }
    }
    true
}

/// Parses with `gltf::Gltf::from_slice` and hands out `Document::nodes` in order: name, children,
/// mesh, skin and extras. The result depends on the bytes alone.
#[verifier::external_body]
fn read_nodes(bytes: &Vec<u8>) -> (r: Result<Vec<NodeHead>, String>)
    requires
        parsable(bytes@),
    ensures
        match r {
            Ok(v) => gltf_nodes(bytes@) == Ok::<_, Seq<char>>(v@.map_values(|n: NodeHead| n@)),
            Err(e) => gltf_nodes(bytes@) == Err::<Seq<NodeView>, _>(e@),
        },
{
    let g = gltf::Gltf::from_slice(bytes).map_err(|e| e.to_string())?;
    Ok(g.nodes().map(|n| NodeHead {
        name: n.name().map(|x| x.to_string()),
        children: n.children().map(|c| c.index()).collect(),
        mesh: n.mesh().map(|m| m.index()),
        skin: n.skin().map(|k| k.index()),
        extras: n.extras().as_ref().map(|x| x.get().to_string()),
    }).collect())
}

/// Parses with `gltf::Gltf::from_slice` and hands out the numbers of `Transform::decomposed` of
/// each of `Document::nodes`, in Rust's shortest notation: one transform for each node. The result
/// depends on the bytes alone.
#[verifier::external_body]
fn read_transforms(bytes: &Vec<u8>) -> (r: Result<Vec<[String; 10]>, String>)
    requires
        parsable(bytes@),
    ensures
        match r {
            Ok(v) => gltf_transforms(bytes@) == Ok::<_, Seq<char>>(transform_texts(v@)) && (
            gltf_nodes(bytes@) matches Ok(n) ==> n.len() == v@.len()),
            Err(e) => gltf_transforms(bytes@) == Err::<Seq<Seq<Seq<char>>>, _>(e@),
        },
{
    let g = gltf::Gltf::from_slice(bytes).map_err(|e| e.to_string())?;
    Ok(g.nodes().map(|n| {
        let (t, r, s) = n.transform().decomposed();
        let all = [t[0], t[1], t[2], r[0], r[1], r[2], r[3], s[0], s[1], s[2]];
        all.map(|x| format!("{:?}", x))
    }).collect())
}

/// Parses with `gltf::Gltf::from_slice` and hands out `Scene::index` of `Document::default_scene`.
/// The result depends on the bytes alone.
#[verifier::external_body]
fn read_default_scene(bytes: &Vec<u8>) -> (r: Result<Option<usize>, String>)
    requires
        parsable(bytes@),
    ensures
        match r {
            Ok(v) => gltf_default_scene(bytes@) == Ok::<_, Seq<char>>(v),
            Err(e) => gltf_default_scene(bytes@) == Err::<Option<usize>, _>(e@),
        },
{
    let g = gltf::Gltf::from_slice(bytes).map_err(|e| e.to_string())?;
    Ok(g.default_scene().map(|s| s.index()))
}

/// Parses with `gltf::Gltf::from_slice` and hands out the nodes of each of `Document::scenes`. The
/// result depends on the bytes alone.
#[verifier::external_body]
fn read_scenes(bytes: &Vec<u8>) -> (r: Result<Vec<Vec<usize>>, String>)
    requires
        parsable(bytes@),
    ensures
        match r {
            Ok(v) => gltf_scenes(bytes@) == Ok::<_, Seq<char>>(v@.map_values(|m: Vec<usize>| m@)),
            Err(e) => gltf_scenes(bytes@) == Err::<Seq<Seq<usize>>, _>(e@),
        },
{
    let g = gltf::Gltf::from_slice(bytes).map_err(|e| e.to_string())?;
    Ok(g.scenes().map(|s| s.nodes().map(|n| n.index()).collect()).collect())
}

/// Picks the root nodes of the default scene, or of the first one where no default is named.
pub fn pick_roots(default: Option<usize>, scenes: &Vec<Vec<usize>>) -> (r: Option<Vec<usize>>)
    ensures
        opt_indices(r) == picked_roots(default, scenes@.map_values(|m: Vec<usize>| m@)),
{
    let at: usize = match default {
        Some(k) => k,
        None => 0,
    };
    if at < scenes.len() {
        let nodes = scenes[at].clone();
        assert(nodes@ =~= scenes@[at as int]@);
        Some(nodes)
    } else {
        None
    }
}

/// Parses with `gltf::Gltf::from_slice` and hands out `Mesh::primitives` of each of
/// `Document::meshes`. The result depends on the bytes alone.
#[verifier::external_body]
fn read_primitives(bytes: &Vec<u8>) -> (r: Result<Vec<Vec<PrimRecord>>, String>)
    requires
        parsable(bytes@),
    ensures
        match r {
            Ok(v) => gltf_primitives(bytes@) == Ok::<_, Seq<char>>(
                v@.map_values(|m: Vec<PrimRecord>| m@),
            ),
            Err(e) => gltf_primitives(bytes@) == Err::<Seq<Seq<PrimRecord>>, _>(e@),
        },
{
    let g = gltf::Gltf::from_slice(bytes).map_err(|e| e.to_string())?;
    Ok(g.meshes().map(|m| m.primitives().map(|p| PrimRecord {
        triangles: matches!(p.mode(), gltf::mesh::Mode::Triangles),
        material: p.material().index(),
    }).collect()).collect())
}

/// Parses with `gltf::Gltf::from_slice` and hands out `Skin::joints` of each of
/// `Document::skins`. The result depends on the bytes alone.
#[verifier::external_body]
fn read_joints(bytes: &Vec<u8>) -> (r: Result<Vec<Vec<usize>>, String>)
    requires
        parsable(bytes@),
    ensures
        match r {
            Ok(v) => gltf_joints(bytes@) == Ok::<_, Seq<char>>(v@.map_values(|m: Vec<usize>| m@)),
            Err(e) => gltf_joints(bytes@) == Err::<Seq<Seq<usize>>, _>(e@),
        },
{
    let g = gltf::Gltf::from_slice(bytes).map_err(|e| e.to_string())?;
    Ok(g.skins().map(|s| s.joints().map(|j| j.index()).collect()).collect())
}

/// Parses with `gltf::Gltf::from_slice` and hands out `Material::name` and
/// `Material::alpha_mode` of each of `Document::materials`. The result depends on the bytes alone.
#[verifier::external_body]
fn read_material_heads(bytes: &Vec<u8>) -> (r: Result<Vec<MaterialHead>, String>)
    requires
        parsable(bytes@),
    ensures
        match r {
            Ok(v) => gltf_material_heads(bytes@) == Ok::<_, Seq<char>>(
                v@.map_values(|m: MaterialHead| m@),
            ),
            Err(e) => gltf_material_heads(bytes@) == Err::<
                Seq<(Option<Seq<char>>, AlphaMode)>,
                _,
            >(e@),
        },
{
    let g = gltf::Gltf::from_slice(bytes).map_err(|e| e.to_string())?;
    Ok(g.materials().map(|m| MaterialHead {
        name: m.name().map(|x| x.to_string()),
        alpha: match m.alpha_mode() {
            gltf::material::AlphaMode::Opaque => AlphaMode::Opaque,
            gltf::material::AlphaMode::Mask => AlphaMode::Mask,
            gltf::material::AlphaMode::Blend => AlphaMode::Blend,
        },
    }).collect())
}

/// Parses with `gltf::Gltf::from_slice` and hands out the base colour, metallic, roughness and
/// emissive factors of each of `Document::materials`, as bits and in Rust's shortest notation. The
/// result depends on the bytes alone.
#[verifier::external_body]
fn read_material_factors(bytes: &Vec<u8>) -> (r: Result<Vec<MaterialFactors>, String>)
    requires
        parsable(bytes@),
    ensures
        match r {
            Ok(v) => gltf_material_factors(bytes@) == Ok::<_, Seq<char>>(
                v@.map_values(|m: MaterialFactors| m@),
            ),
            Err(e) => gltf_material_factors(bytes@) == Err::<Seq<Seq<NumberView>>, _>(e@),
        },
{
    let g = gltf::Gltf::from_slice(bytes).map_err(|e| e.to_string())?;
    Ok(g.materials().map(|m| {
        let p = m.pbr_metallic_roughness();
        let ([r, g, b, a], [x, y, z]) = (p.base_color_factor(), m.emissive_factor());
        let f = [r, g, b, a, p.metallic_factor(), p.roughness_factor(), x, y, z];
        MaterialFactors {
            factors: f.map(|v| Number { bits: v.to_bits(), text: format!("{:?}", v) }),
        }
    }).collect())
}

/// Parses with `gltf::Gltf::from_slice` and hands out the index of refraction, the emissive
/// strength, the alpha cutoff and the transmission factor of each of `Document::materials`, where
/// it has them, as bits and in Rust's shortest notation. The result depends on the bytes alone.
#[verifier::external_body]
fn read_material_options(bytes: &Vec<u8>) -> (r: Result<Vec<MaterialOptions>, String>)
    requires
        parsable(bytes@),
    ensures
        match r {
            Ok(v) => gltf_material_options(bytes@) == Ok::<_, Seq<char>>(
                v@.map_values(|m: MaterialOptions| m@),
            ),
            Err(e) => gltf_material_options(bytes@) == Err::<Seq<Seq<Option<NumberView>>>, _>(e@),
        },
{
    let g = gltf::Gltf::from_slice(bytes).map_err(|e| e.to_string())?;
    Ok(g.materials().map(|m| {
        let t = m.transmission().map(|t| t.transmission_factor());
        let o = [m.ior(), m.emissive_strength(), m.alpha_cutoff(), t];
        MaterialOptions {
            optional: o.map(|v| v.map(|v| Number { bits: v.to_bits(), text: format!("{:?}", v) })),
        }
    }).collect())
}

/// Parses with `gltf::Gltf::from_slice` and hands out the source images of the textures of each
/// of `Document::materials`. The result depends on the bytes alone.
#[verifier::external_body]
fn read_material_images(bytes: &Vec<u8>) -> (r: Result<Vec<MaterialImages>, String>)
    requires
        parsable(bytes@),
    ensures
        match r {
            Ok(v) => gltf_material_images(bytes@) == Ok::<_, Seq<char>>(v@),
            Err(e) => gltf_material_images(bytes@) == Err::<Seq<MaterialImages>, _>(e@),
        },
{
    let g = gltf::Gltf::from_slice(bytes).map_err(|e| e.to_string())?;
    Ok(g.materials().map(|m| {
        let p = m.pbr_metallic_roughness();
        let (c, r) = (p.base_color_texture(), p.metallic_roughness_texture());
        MaterialImages {
            base_color: c.map(|t| t.texture().source().index()),
            metallic_roughness: r.map(|t| t.texture().source().index()),
            normal: m.normal_texture().map(|t| t.texture().source().index()),
            emissive: m.emissive_texture().map(|t| t.texture().source().index()),
        }
    }).collect())
}

/// Parses with `gltf::Gltf::from_slice` and hands out the images of `Document::as_json`. The
/// result depends on the bytes alone.
#[verifier::external_body]
fn read_images(bytes: &Vec<u8>) -> (r: Result<Vec<ImageRecord>, String>)
    requires
        parsable(bytes@),
    ensures
        match r {
            Ok(v) => gltf_images(bytes@) == Ok::<_, Seq<char>>(v@.map_values(|n: ImageRecord| n@)),
            Err(e) => gltf_images(bytes@) == Err::<Seq<ImageView>, _>(e@),
        },
{
    let g = gltf::Gltf::from_slice(bytes).map_err(|e| e.to_string())?;
    Ok(g.as_json().images.iter().map(|i| ImageRecord {
        name: i.name.clone(),
        view: i.buffer_view.map(|v| v.value()),
        mime: i.mime_type.as_ref().map(|m| m.0.clone()),
        uri: i.uri.clone(),
    }).collect())
}

/// A glTF document.
pub struct Document {
    pub nodes: Vec<NodeRecord>,
    pub roots: Option<Vec<usize>>,
    pub meshes: Vec<Vec<PrimRecord>>,
    pub skins: Vec<Vec<usize>>,
    pub heads: Vec<MaterialHead>,
    pub factors: Vec<MaterialFactors>,
    pub options: Vec<MaterialOptions>,
    pub samples: Vec<MaterialImages>,
    pub images: Vec<ImageRecord>,
}

/// The indices of an optional list.
pub open spec fn opt_indices(v: Option<Vec<usize>>) -> Option<Seq<usize>> {
    match v {
        Some(x) => Some(x@),
        None => None,
    }
}

impl Document {
    /// Whether this is the document that bytes hold.
    pub open spec fn read_from(&self, bytes: Seq<u8>) -> bool {
        &&& gltf_nodes(bytes) == Ok::<_, Seq<char>>(node_heads(self.nodes@))
        &&& gltf_transforms(bytes) == Ok::<_, Seq<char>>(node_transforms(self.nodes@))
        &&& gltf_default_scene(bytes) matches Ok(default) && gltf_scenes(bytes) matches Ok(scenes)
            && opt_indices(self.roots) == picked_roots(default, scenes)
        &&& gltf_primitives(bytes) == Ok::<_, Seq<char>>(
            self.meshes@.map_values(|m: Vec<PrimRecord>| m@),
        )
        &&& gltf_joints(bytes) == Ok::<_, Seq<char>>(self.skins@.map_values(|m: Vec<usize>| m@))
        &&& gltf_material_heads(bytes) == Ok::<_, Seq<char>>(
            self.heads@.map_values(|m: MaterialHead| m@),
        )
        &&& gltf_material_factors(bytes) == Ok::<_, Seq<char>>(
            self.factors@.map_values(|m: MaterialFactors| m@),
        )
        &&& gltf_material_options(bytes) == Ok::<_, Seq<char>>(
            self.options@.map_values(|m: MaterialOptions| m@),
        )
        &&& gltf_material_images(bytes) == Ok::<_, Seq<char>>(self.samples@)
        &&& gltf_images(bytes) == Ok::<_, Seq<char>>(self.images@.map_values(|n: ImageRecord| n@))
    }
}

/// What is wrong with a document, where anything is: the first part that cannot be read.
pub open spec fn document_error(bytes: Seq<u8>) -> Option<Seq<char>> {
    if !header_covered(bytes) {
        Some("could not completely read the object"@)
    } else if gltf_position_refs(bytes) is Err {
        Some(gltf_position_refs(bytes)->Err_0)
    } else if !parsable(bytes) {
        Some("a primitive names an accessor that the document lacks"@)
    } else if gltf_nodes(bytes) is Err {
        Some(gltf_nodes(bytes)->Err_0)
    } else if gltf_transforms(bytes) is Err {
        Some(gltf_transforms(bytes)->Err_0)
    } else if gltf_default_scene(bytes) is Err {
        Some(gltf_default_scene(bytes)->Err_0)
    } else if gltf_scenes(bytes) is Err {
        Some(gltf_scenes(bytes)->Err_0)
    } else if gltf_primitives(bytes) is Err {
        Some(gltf_primitives(bytes)->Err_0)
    } else if gltf_joints(bytes) is Err {
        Some(gltf_joints(bytes)->Err_0)
    } else if gltf_material_heads(bytes) is Err {
        Some(gltf_material_heads(bytes)->Err_0)
    } else if gltf_material_factors(bytes) is Err {
        Some(gltf_material_factors(bytes)->Err_0)
    } else if gltf_material_options(bytes) is Err {
        Some(gltf_material_options(bytes)->Err_0)
    } else if gltf_material_images(bytes) is Err {
        Some(gltf_material_images(bytes)->Err_0)
    } else if gltf_images(bytes) is Err {
        Some(gltf_images(bytes)->Err_0)
    } else {
        None
    }
}

/// Tests whether bytes that begin as binary glTF state a length that covers their own header.
fn is_header_covered(bytes: &Vec<u8>) -> (r: bool)
    ensures
        r == header_covered(bytes@),
{
    if bytes.len() >= 12 && bytes[0] == 103 && bytes[1] == 108 && bytes[2] == 84 && bytes[3] == 70 {
        let length: u64 = bytes[8] as u64 + 256 * bytes[9] as u64 + 65536 * bytes[10] as u64
            + 16777216 * bytes[11] as u64;
        length >= 12
    } else {
        true
    }
}

fn join_nodes(heads: &Vec<NodeHead>, transforms: Vec<[String; 10]>) -> (r: Vec<NodeRecord>)
    requires
        heads@.len() == transforms@.len(),
    ensures
        node_heads(r@) == heads@.map_values(|n: NodeHead| n@),
        node_transforms(r@) == transform_texts(transforms@),
{
    let mut out: Vec<NodeRecord> = Vec::new();
    let ghost all = heads@.map_values(|n: NodeHead| n@);
    let ghost moves = transform_texts(transforms@);
    let mut rest = transforms;
    let n: usize = heads.len();
    let mut i: usize = n;
    let mut back: Vec<NodeRecord> = Vec::new();
    while i > 0
        invariant
            i <= n,
            n == heads@.len(),
            rest@.len() == i,
            moves.len() == n,
            all == heads@.map_values(|n: NodeHead| n@),
            transform_texts(rest@) == moves.take(i as int),
            back@.len() == n - i,
            forall|k: int|
                #![trigger back@[k]]
                0 <= k < back@.len() ==> back@[k].head() == all[n - 1 - k] && crate::text::texts(
                    back@[k].transform@,
                ) == moves[n - 1 - k],
        decreases i,
    {
        i = i - 1;
        let ghost before = rest@;
        match rest.pop() {
            Some(transform) => {
                assert(crate::text::texts(transform@) == moves[i as int]) by {
                    assert(transform_texts(before)[i as int] == moves.take(i + 1)[i as int]);
                }
                assert(transform_texts(rest@) =~= moves.take(i as int)) by {
                    assert(rest@ =~= before.drop_last());
                    assert forall|k: int| 0 <= k < i implies transform_texts(rest@)[k]
                        == moves[k] by {
                        assert(transform_texts(before)[k] == moves.take(i + 1)[k]);
                    }
                }
                let h = &heads[i];
                back.push(
                    NodeRecord {
                        name: copy_text(&h.name),
                        children: h.children.clone(),
                        mesh: h.mesh,
                        skin: h.skin,
                        extras: copy_text(&h.extras),
                        transform,
                    },
                );
                assert(h.children@ =~= back@.last().children@);
                assert(back@.last().head() == all[i as int]);
            },
            None => {},
        }
    }
    let mut left: usize = n;
    while left > 0
        invariant
            left <= n,
            n == all.len(),
            n == moves.len(),
            back@.len() == left,
            forall|k: int|
                #![trigger back@[k]]
                0 <= k < left ==> back@[k].head() == all[n - 1 - k] && crate::text::texts(
                    back@[k].transform@,
                ) == moves[n - 1 - k],
            node_heads(out@) == all.take(n - left),
            node_transforms(out@) == moves.take(n - left),
        decreases left,
    {
        left = left - 1;
        let ghost before = out@;
        let ghost was = back@;
        if let Some(node) = back.pop() {
            let ghost at = n - 1 - left;
            assert(was[left as int] == node);
            assert forall|k: int| #![trigger back@[k]] 0 <= k < left implies back@[k] == was[k] by {}
            out.push(node);
            assert(node_heads(out@) =~= node_heads(before).push(all[at]));
            assert(node_transforms(out@) =~= node_transforms(before).push(moves[at]));
            assert(node_heads(out@) =~= all.take(n - left));
            assert(node_transforms(out@) =~= moves.take(n - left));
        }
    }
    assert(node_heads(out@) =~= all);
    assert(node_transforms(out@) =~= moves);
    out
}

/// Reads a glTF document, binary or JSON.
pub fn parse_document(bytes: &Vec<u8>) -> (r: Result<Document, String>)
    ensures
        match r {
            Ok(d) => document_error(bytes@) is None && d.read_from(bytes@),
            Err(e) => document_error(bytes@) == Some(e@),
        },
{
    if !is_header_covered(bytes) {
        return Err("could not completely read the object".to_owned());
    }
    let (accessors, refs) = match read_position_refs(bytes) {
        Ok(v) => v,
        Err(e) => return Err(e),
    };
    if !positions_resolve(accessors, &refs) {
        return Err("a primitive names an accessor that the document lacks".to_owned());
    }
    let parts = match read_nodes(bytes) {
        Ok(v) => v,
        Err(e) => return Err(e),
    };
    let transforms = match read_transforms(bytes) {
        Ok(v) => v,
        Err(e) => return Err(e),
    };
    let nodes = join_nodes(&parts, transforms);
    let default = match read_default_scene(bytes) {
        Ok(v) => v,
        Err(e) => return Err(e),
    };
    let scenes = match read_scenes(bytes) {
        Ok(v) => v,
        Err(e) => return Err(e),
    };
    let roots = pick_roots(default, &scenes);
    let meshes = match read_primitives(bytes) {
        Ok(v) => v,
        Err(e) => return Err(e),
    };
    let skins = match read_joints(bytes) {
        Ok(v) => v,
        Err(e) => return Err(e),
    };
    let heads = match read_material_heads(bytes) {
        Ok(v) => v,
        Err(e) => return Err(e),
    };
    let factors = match read_material_factors(bytes) {
        Ok(v) => v,
        Err(e) => return Err(e),
    };
    let options = match read_material_options(bytes) {
        Ok(v) => v,
        Err(e) => return Err(e),
    };
    let samples = match read_material_images(bytes) {
        Ok(v) => v,
        Err(e) => return Err(e),
    };
    let images = match read_images(bytes) {
        Ok(v) => v,
        Err(e) => return Err(e),
    };
    Ok(Document { nodes, roots, meshes, skins, heads, factors, options, samples, images })
}

/// A material.
pub struct Material {
    pub name: Option<String>,
    pub alpha: AlphaMode,
    pub base_color: [Number; 4],
    pub metallic: Number,
    pub roughness: Number,
    pub emissive: [Number; 3],
    pub ior: Option<Number>,
    pub emissive_strength: Option<Number>,
    pub alpha_cutoff: Option<Number>,
    pub transmission: Option<Number>,
    pub images: MaterialImages,
}

/// What a [`Material`] holds.
pub ghost struct MaterialView {
    pub name: Option<Seq<char>>,
    pub alpha: AlphaMode,
    pub base_color: Seq<NumberView>,
    pub metallic: NumberView,
    pub roughness: NumberView,
    pub emissive: Seq<NumberView>,
    pub ior: Option<NumberView>,
    pub emissive_strength: Option<NumberView>,
    pub alpha_cutoff: Option<NumberView>,
    pub transmission: Option<NumberView>,
    pub images: MaterialImages,
}

impl View for Material {
    type V = MaterialView;

    open spec fn view(&self) -> MaterialView {
        MaterialView {
            name: opt_text(self.name),
            alpha: self.alpha,
            base_color: self.base_color@.map_values(|n: Number| n@),
            metallic: self.metallic@,
            roughness: self.roughness@,
            emissive: self.emissive@.map_values(|n: Number| n@),
            ior: opt_number(self.ior),
            emissive_strength: opt_number(self.emissive_strength),
            alpha_cutoff: opt_number(self.alpha_cutoff),
            transmission: opt_number(self.transmission),
            images: self.images,
        }
    }
}

/// The number one.
pub open spec fn one() -> NumberView {
    (0x3f80_0000, "1.0"@)
}

/// The number zero.
pub open spec fn zero() -> NumberView {
    (0, "0.0"@)
}

/// The material of a primitive that names none: opaque white, fully metallic and rough.
pub open spec fn default_material_view() -> MaterialView {
    MaterialView {
        name: None,
        alpha: AlphaMode::Opaque,
        base_color: seq![one(), one(), one(), one()],
        metallic: one(),
        roughness: one(),
        emissive: seq![zero(), zero(), zero()],
        ior: None,
        emissive_strength: None,
        alpha_cutoff: None,
        transmission: None,
        images: (MaterialImages {
            base_color: None,
            metallic_roughness: None,
            normal: None,
            emissive: None,
        }),
    }
}

impl Document {
    /// The `i`-th material.
    pub open spec fn nth_material(&self, i: int) -> MaterialView {
        let f = self.factors@[i]@;
        let o = self.options@[i]@;
        MaterialView {
            name: self.heads@[i]@.0,
            alpha: self.heads@[i]@.1,
            base_color: f.subrange(0, 4),
            metallic: f[4],
            roughness: f[5],
            emissive: f.subrange(6, 9),
            ior: o[0],
            emissive_strength: o[1],
            alpha_cutoff: o[2],
            transmission: o[3],
            images: self.samples@[i],
        }
    }

    /// The material that a primitive refers to.
    pub open spec fn material_of(&self, i: Option<usize>) -> MaterialView {
        match i {
            Some(k) if k < self.heads@.len() && k < self.factors@.len() && k
                < self.options@.len() && k < self.samples@.len() => self.nth_material(k as int),
            _ => default_material_view(),
        }
    }
}

/// A copy of a number.
pub fn copy_number(n: &Number) -> (r: Number)
    ensures
        r@ == n@,
{
    Number { bits: n.bits, text: n.text.clone() }
}

fn copy_optional(n: &Option<Number>) -> (r: Option<Number>)
    ensures
        opt_number(r) == opt_number(*n),
{
    match n {
        Some(x) => Some(copy_number(x)),
        None => None,
    }
}

/// A copy of an optional string.
pub fn copy_text(s: &Option<String>) -> (r: Option<String>)
    ensures
        opt_text(r) == opt_text(*s),
{
    match s {
        Some(x) => Some(x.clone()),
        None => None,
    }
}

fn number_one() -> (r: Number)
    ensures
        r@ == one(),
{
    Number { bits: 0x3f80_0000, text: "1.0".to_owned() }
}

fn number_zero() -> (r: Number)
    ensures
        r@ == zero(),
{
    Number { bits: 0, text: "0.0".to_owned() }
}

/// The material of a primitive that names none.
pub fn default_material() -> (r: Material)
    ensures
        r@ == default_material_view(),
{
    let r = Material {
        name: None,
        alpha: AlphaMode::Opaque,
        base_color: [number_one(), number_one(), number_one(), number_one()],
        metallic: number_one(),
        roughness: number_one(),
        emissive: [number_zero(), number_zero(), number_zero()],
        ior: None,
        emissive_strength: None,
        alpha_cutoff: None,
        transmission: None,
        images: MaterialImages {
            base_color: None,
            metallic_roughness: None,
            normal: None,
            emissive: None,
        },
    };
    assert(r@.base_color =~= default_material_view().base_color);
    assert(r@.emissive =~= default_material_view().emissive);
    r
}

impl Document {
    /// The material that a primitive refers to, or the default one.
    pub fn material(&self, i: Option<usize>) -> (r: Material)
        ensures
            r@ == self.material_of(i),
    {
        if let Some(k) = i {
            if k < self.heads.len() && k < self.factors.len() && k < self.options.len() && k
                < self.samples.len() {
                let f = &self.factors[k].factors;
                let o = &self.options[k].optional;
                let r = Material {
                    name: copy_text(&self.heads[k].name),
                    alpha: self.heads[k].alpha,
                    base_color: [
                        copy_number(&f[0]),
                        copy_number(&f[1]),
                        copy_number(&f[2]),
                        copy_number(&f[3]),
                    ],
                    metallic: copy_number(&f[4]),
                    roughness: copy_number(&f[5]),
                    emissive: [copy_number(&f[6]), copy_number(&f[7]), copy_number(&f[8])],
                    ior: copy_optional(&o[0]),
                    emissive_strength: copy_optional(&o[1]),
                    alpha_cutoff: copy_optional(&o[2]),
                    transmission: copy_optional(&o[3]),
                    images: self.samples[k],
                };
                proof {
                    let v = self.nth_material(k as int);
                    assert(r@.base_color =~= v.base_color);
                    assert(r@.emissive =~= v.emissive);
                }
                return r;
            }
        }
        default_material()
    }
}

/// A material is put together of what was read of it: the first four factors are its base colour,
/// then come metallic and roughness, then its emissive colour; its refraction, emissive strength,
/// cutoff and transmission are the four options, in this order; its images are its own.
pub proof fn materials_are_put_together(d: Document, k: usize)
    requires
        k < d.heads@.len(),
        k < d.factors@.len(),
        k < d.options@.len(),
        k < d.samples@.len(),
    ensures
        ({
            let m = d.material_of(Some(k));
            let i = k as int;
            &&& m.name == opt_text(d.heads@[i].name)
            &&& m.alpha == d.heads@[i].alpha
            &&& m.base_color.len() == 4
            &&& forall|c: int|
                0 <= c < 4 ==> (#[trigger] m.base_color[c]) == d.factors@[i].factors@[c]@
            &&& m.metallic == d.factors@[i].factors@[4]@
            &&& m.roughness == d.factors@[i].factors@[5]@
            &&& m.emissive.len() == 3
            &&& forall|c: int|
                0 <= c < 3 ==> (#[trigger] m.emissive[c]) == d.factors@[i].factors@[6 + c]@
            &&& m.ior == opt_number(d.options@[i].optional@[0])
            &&& m.emissive_strength == opt_number(d.options@[i].optional@[1])
            &&& m.alpha_cutoff == opt_number(d.options@[i].optional@[2])
            &&& m.transmission == opt_number(d.options@[i].optional@[3])
            &&& m.images == d.samples@[i]
        }),
{
    assert(d.factors@[k as int].factors@.len() == 9);
    assert(d.options@[k as int].optional@.len() == 4);
}

/// A primitive without a material is opaque and white, metallic and rough, and neither emits nor
/// samples anything; so is one whose material the document lacks.
pub proof fn missing_materials_are_white(d: Document, k: usize)
    ensures
        ({
            let m = d.material_of(None);
            &&& m.name is None
            &&& m.alpha is Opaque
            &&& m.base_color.len() == 4
            &&& forall|c: int| 0 <= c < 4 ==> (#[trigger] m.base_color[c]) == (0x3f80_0000u32, "1.0"@)
            &&& m.metallic == (0x3f80_0000u32, "1.0"@)
            &&& m.roughness == (0x3f80_0000u32, "1.0"@)
            &&& m.emissive.len() == 3
            &&& forall|c: int| 0 <= c < 3 ==> (#[trigger] m.emissive[c]) == (0u32, "0.0"@)
            &&& m.ior is None && m.emissive_strength is None && m.alpha_cutoff is None
                && m.transmission is None
            &&& m.images.base_color is None && m.images.metallic_roughness is None
                && m.images.normal is None && m.images.emissive is None
        }),
        k >= d.heads@.len() ==> d.material_of(Some(k)) == d.material_of(None),
{
}

/// Each part of a material is what its own field holds.
pub proof fn materials_keep_their_fields(m: Material)
    ensures
        m@.name == opt_text(m.name),
        m@.alpha == m.alpha,
        forall|c: int|
            0 <= c < 4 ==> (#[trigger] m@.base_color[c]) == (m.base_color@[c].bits, m.base_color@[c].text@),
        m@.metallic == (m.metallic.bits, m.metallic.text@),
        m@.roughness == (m.roughness.bits, m.roughness.text@),
        forall|c: int|
            0 <= c < 3 ==> (#[trigger] m@.emissive[c]) == (m.emissive@[c].bits, m.emissive@[c].text@),
        m@.ior is Some <==> m.ior is Some,
        m.ior is Some ==> m@.ior->0 == m.ior->0@,
        m@.emissive_strength is Some <==> m.emissive_strength is Some,
        m.emissive_strength is Some ==> m@.emissive_strength->0 == m.emissive_strength->0@,
        m@.alpha_cutoff is Some <==> m.alpha_cutoff is Some,
        m.alpha_cutoff is Some ==> m@.alpha_cutoff->0 == m.alpha_cutoff->0@,
        m@.transmission is Some <==> m.transmission is Some,
        m.transmission is Some ==> m@.transmission->0 == m.transmission->0@,
        m@.images == m.images,
{
    assert(m.base_color@.len() == 4);
    assert(m.emissive@.len() == 3);
}

/// The scene that a document names is picked, and the first one where it names none; the others
/// play no part.
pub proof fn the_named_scene_is_picked(k: usize, scenes: Seq<Seq<usize>>)
    ensures
        k < scenes.len() ==> picked_roots(Some(k), scenes) == Some(scenes[k as int]),
        scenes.len() > 0 ==> picked_roots(None, scenes) == Some(scenes[0]),
        k >= scenes.len() ==> picked_roots(Some(k), scenes) is None,
        picked_roots(None, Seq::<Seq<usize>>::empty()) is None,
{
}

/// Nodes keep what was read of them, each its own.
pub proof fn nodes_keep_their_heads(n: NodeRecord)
    ensures
        n.head().name == opt_text(n.name),
        n.head().children == n.children@,
        n.head().mesh == n.mesh,
        n.head().skin == n.skin,
        n.head().extras == opt_text(n.extras),
{
}

/// An image and a material's head keep what was read of them.
pub proof fn images_and_heads_keep_their_fields(i: ImageRecord, h: MaterialHead, n: NodeHead, x: Number)
    ensures
        i@.name == opt_text(i.name) && i@.view == i.view && i@.mime == opt_text(i.mime) && i@.uri
            == opt_text(i.uri),
        h@ == (opt_text(h.name), h.alpha),
        n@.name == opt_text(n.name) && n@.children == n.children@ && n@.mesh == n.mesh && n@.skin
            == n.skin && n@.extras == opt_text(n.extras),
        x@ == (x.bits, x.text@),
{
}

/// Binary documents must state a length of twelve bytes or more, that of their header; all else may
/// be handed on, whatever it is.
pub proof fn headers_cover_themselves(bytes: Seq<u8>)
    ensures
        ({
            let binary = bytes.len() >= 12 && bytes[0] == 'g' as u8 && bytes[1] == 'l' as u8 && bytes[2]
                == 'T' as u8 && bytes[3] == 'F' as u8;
            let stated = bytes[8] + 256 * (bytes[9] + 256 * (bytes[10] + 256 * bytes[11]));
            &&& !binary ==> header_covered(bytes)
            &&& binary ==> (header_covered(bytes) <==> stated >= 12)
        }),
{
    omm::indices_are_little_endian(bytes, 8, 4);
    omm::indices_are_little_endian(bytes, 10, 4);
}

/// Primitives name accessors that are there exactly where each that names one names it below their
/// number.
pub proof fn missing_accessors_are_noticed(accessors: usize, refs: Seq<Option<usize>>, r: Option<usize>)
    ensures
        refs_in_range(accessors, Seq::<Option<usize>>::empty()),
        refs_in_range(accessors, refs.push(r)) <==> refs_in_range(accessors, refs) && (r is None || r->0
            < accessors),
{
    let all = refs.push(r);
    if refs_in_range(accessors, all) {
        assert(all[refs.len() as int] == r);
        assert forall|i: int| 0 <= i < refs.len() implies (#[trigger] refs[i] matches Some(k) ==> k
            < accessors) by {
            assert(all[i] == refs[i]);
        }
    }
    if refs_in_range(accessors, refs) && (r is None || r->0 < accessors) {
        assert forall|i: int| 0 <= i < all.len() implies (#[trigger] all[i] matches Some(k) ==> k
            < accessors) by {
            if i < refs.len() {
                assert(all[i] == refs[i]);
            }
        }
    }
}

} // verus!
