//! OBJ scenes: instance sharing, what is baked, what is emitted, and which textures are copied.

use vstd::prelude::*;
use crate::names;
use crate::order;
use crate::text;

verus! {

/// What a scene reads of an OBJ material.
pub struct ObjMaterial {
    pub diffuse_texture: Option<String>,
    pub normal_texture: Option<String>,
    pub illumination_model: Option<u8>,
}

/// What a scene reads of an OBJ object: its name, how many position and index numbers it has, and
/// its material.
pub struct ObjModel {
    pub name: String,
    pub positions_len: usize,
    pub indices_len: usize,
    pub material_id: Option<usize>,
}

/// Per-submesh facts a filter can decide on (e.g. keep only floor surfaces, or only alpha-cutout
/// objects).
pub struct SubmeshInfo<'a> {
    /// The OBJ object name.
    pub name: &'a str,
    /// Basename of the material's diffuse texture, if any.
    pub diffuse_basename: Option<&'a str>,
    /// Whether this submesh's material is a genuine alpha cutout.
    pub is_cutmask: bool,
}

/// Everything an importer varies per asset.
pub struct SceneConfig {
    /// Source `.obj` (its `.mtl` and textures are resolved relative to it).
    pub obj_path: String,
    /// Output asset directory (`meshes/`, `textures/`, and the `.bsn` are written under it).
    pub out_dir: String,
    /// Asset-server-relative prefix the `.bsn` uses to reference baked meshes/textures.
    pub asset_prefix: String,
    /// `.bsn` scene name and output filename stem.
    pub scene_name: String,
    /// Share one baked mesh across rigid+uniform-scale instances.
    pub dedup: bool,
    /// Re-bake `.cluster_mesh` files even when they already exist (overwrite).
    pub replace: bool,
    /// Erosion radius (texels) applied to the cutout alpha mask before baking a micromap.
    pub erode_px: u32,
    /// Max micromap subdivision level.
    pub omm_subdiv: u32,
}

/// The material of a model.
pub open spec fn material_at(
    id: Option<usize>,
    materials: Seq<ObjMaterial>,
) -> Option<ObjMaterial> {
    match id {
        Some(k) if k < materials.len() => Some(materials[k as int]),
        _ => None,
    }
}

/// The base name of a model's diffuse texture.
pub open spec fn diffuse_name(m: ObjModel, materials: Seq<ObjMaterial>) -> Option<Seq<char>> {
    match material_at(m.material_id, materials) {
        Some(mat) => match mat.diffuse_texture {
            Some(t) => Some(names::last_component(t@)),
            None => None,
        },
        None => None,
    }
}

/// Diffuse-texture basename used to group instances (`<none>` when untextured).
pub open spec fn diffuse_key_of(m: ObjModel, materials: Seq<ObjMaterial>) -> Seq<char> {
    match diffuse_name(m, materials) {
        Some(n) => n,
        None => "<none>"@,
    }
}

/// The base name of a model's diffuse texture.
pub fn diffuse_basename<'a>(m: &ObjModel, materials: &'a Vec<ObjMaterial>) -> (r: Option<&'a str>)
    ensures
        names::optional(r) == diffuse_name(*m, materials@),
{
    if let Some(k) = m.material_id {
        if k < materials.len() {
            if let Some(t) = &materials[k].diffuse_texture {
                return Some(names::basename(t.as_str()));
            }
        }
    }
    None
}

/// Diffuse-texture basename used to group instances (`<none>` when untextured).
pub fn diffuse_key(m: &ObjModel, materials: &Vec<ObjMaterial>) -> (r: String)
    ensures
        r@ == diffuse_key_of(*m, materials@),
{
    match diffuse_basename(m, materials) {
        Some(n) => n.to_owned(),
        None => "<none>".to_owned(),
    }
}

/// Whether a model's material is an alpha cutout.
pub open spec fn is_cutout(m: ObjModel, cutmask: Seq<bool>) -> bool {
    match m.material_id {
        Some(k) => k < cutmask.len() && cutmask[k as int],
        None => false,
    }
}

/// Whether a model's material is an alpha cutout.
pub fn model_is_cutout(m: &ObjModel, cutmask: &Vec<bool>) -> (r: bool)
    ensures
        r == is_cutout(*m, cutmask@),
{
    match m.material_id {
        Some(k) => k < cutmask.len() && cutmask[k],
        None => false,
    }
}

/// Whether a filter may be handed any submesh.
pub open spec fn total<F: for<'a> Fn(&SubmeshInfo<'a>) -> bool>(filter: Option<F>) -> bool {
    match filter {
        Some(f) => forall|info: &SubmeshInfo| #[trigger] call_requires(f, (info,)),
        None => true,
    }
}

/// Whether `r` is the filter's answer on a model (`true` when there is no filter). The filter is
/// told the object's name, the base name of its diffuse texture and whether it is a cutout.
pub open spec fn answers<F: for<'a> Fn(&SubmeshInfo<'a>) -> bool>(
    filter: Option<F>,
    m: ObjModel,
    materials: Seq<ObjMaterial>,
    cutmask: Seq<bool>,
    r: bool,
) -> bool {
    match filter {
        Some(f) => exists|info: &SubmeshInfo| #[trigger]
            call_ensures(f, (info,), r) && info.name@ == m.name@ && names::optional(
                info.diffuse_basename,
            ) == diffuse_name(m, materials) && info.is_cutmask == is_cutout(m, cutmask),
        None => r,
    }
}

/// Whether submesh `i` passes the filter (`true` when there is no filter), which is told the
/// object's name, the base name of its diffuse texture and whether it is a cutout.
pub fn submesh_kept<F: for<'a> Fn(&SubmeshInfo<'a>) -> bool>(
    filter: &Option<F>,
    models: &Vec<ObjModel>,
    materials: &Vec<ObjMaterial>,
    cutmask: &Vec<bool>,
    i: usize,
) -> (r: bool)
    requires
        i < models@.len(),
        total(*filter),
    ensures
        answers(*filter, models@[i as int], materials@, cutmask@, r),
{
    match filter {
        None => true,
        Some(f) => {
            let info = SubmeshInfo {
                name: models[i].name.as_str(),
                diffuse_basename: diffuse_basename(&models[i], materials),
                is_cutmask: model_is_cutout(&models[i], cutmask),
            };
            f(&info)
        },
    }
}

/// Which submeshes are emitted: those that have a vertex and pass the filter.
pub fn keep_submeshes<F: for<'a> Fn(&SubmeshInfo<'a>) -> bool>(
    filter: &Option<F>,
    models: &Vec<ObjModel>,
    materials: &Vec<ObjMaterial>,
    cutmask: &Vec<bool>,
) -> (r: Vec<bool>)
    requires
        total(*filter),
    ensures
        r@.len() == models@.len(),
        forall|i: int|
            #![trigger r@[i]]
            0 <= i < models@.len() ==> if has_geometry(models@[i]) {
                answers(*filter, models@[i], materials@, cutmask@, r@[i])
            } else {
                !r@[i]
            },
{
    let mut out: Vec<bool> = Vec::new();
    for i in 0..models.len()
        invariant
            total(*filter),
            out@.len() == i,
            forall|k: int|
                #![trigger out@[k]]
                0 <= k < i ==> if has_geometry(models@[k]) {
                    answers(*filter, models@[k], materials@, cutmask@, out@[k])
                } else {
                    !out@[k]
                },
    {
        let kept = models[i].positions_len >= 3 && submesh_kept(
            filter,
            models,
            materials,
            cutmask,
            i,
        );
        out.push(kept);
    }
    out
}

/// What groups instances: vertex count, triangle count and diffuse texture.
pub type ShapeKey = (int, int, Seq<char>);

/// The group of a model.
pub open spec fn shape_key(m: ObjModel, materials: Seq<ObjMaterial>) -> ShapeKey {
    (
        (m.positions_len / 3) as int,
        (m.indices_len / 3) as int,
        diffuse_key_of(m, materials),
    )
}

/// Whether a model has a vertex.
pub open spec fn has_geometry(m: ObjModel) -> bool {
    m.positions_len >= 3
}

/// The order of models: by vertex count, triangle count and diffuse texture.
pub open spec fn shape_le(models: Seq<ObjModel>, materials: Seq<ObjMaterial>) -> spec_fn(
    int,
    int,
) -> bool {
    |a: int, b: int|
        {
            let x = shape_key(models[a], materials);
            let y = shape_key(models[b], materials);
            if x.0 != y.0 {
                x.0 < y.0
            } else if x.1 != y.1 {
                x.1 < y.1
            } else {
                order::text_le(x.2, y.2)
            }
        }
}

proof fn lemma_shape_preorder(models: Seq<ObjModel>, materials: Seq<ObjMaterial>)
    ensures
        order::is_preorder(shape_le(models, materials), models.len()),
{
    let le = shape_le(models, materials);
    assert forall|a: int, b: int|
        0 <= a < models.len() && 0 <= b < models.len() implies #[trigger] le(a, b) || le(b, a) by {
        order::text_le_total(
            diffuse_key_of(models[a], materials),
            diffuse_key_of(models[b], materials),
        );
    }
    assert forall|a: int, b: int, c: int|
        #![trigger le(a, b), le(b, c)]
        0 <= a < models.len() && 0 <= b < models.len() && 0 <= c < models.len() && le(a, b) && le(
            b,
            c,
        ) implies le(a, c) by {
        let (x, y, z) = (
            shape_key(models[a], materials),
            shape_key(models[b], materials),
            shape_key(models[c], materials),
        );
        if x.0 == y.0 && y.0 == z.0 && x.1 == y.1 && y.1 == z.1 {
            order::text_le_transitive(x.2, y.2, z.2);
        }
    }
}

/// Whether models `a` and `b` have geometry and belong to one group.
pub open spec fn same_shape(
    models: Seq<ObjModel>,
    materials: Seq<ObjMaterial>,
    a: int,
    b: int,
) -> bool {
    &&& has_geometry(models[a])
    &&& has_geometry(models[b])
    &&& shape_key(models[a], materials) == shape_key(models[b], materials)
}

/// Whether `r` is the first model of the group of model `i`; a model without geometry is its own.
pub open spec fn is_reference(
    models: Seq<ObjModel>,
    materials: Seq<ObjMaterial>,
    i: int,
    r: int,
) -> bool {
    if has_geometry(models[i]) {
        &&& 0 <= r <= i
        &&& same_shape(models, materials, r, i)
        &&& forall|j: int| 0 <= j < r ==> !#[trigger] same_shape(models, materials, j, i)
    } else {
        r == i
    }
}

fn same_group(
    models: &Vec<ObjModel>,
    keys: &Vec<String>,
    a: usize,
    b: usize,
    Ghost(materials): Ghost<Seq<ObjMaterial>>,
) -> (r: bool)
    requires
        a < models@.len(),
        b < models@.len(),
        keys_of(models@, materials, keys@),
    ensures
        r == (shape_key(models@[a as int], materials) == shape_key(models@[b as int], materials)),
{
    models[a].positions_len / 3 == models[b].positions_len / 3 && models[a].indices_len / 3
        == models[b].indices_len / 3 && text::same_text(keys[a].as_str(), keys[b].as_str())
}

/// Whether `keys` are the diffuse keys of the models.
spec fn keys_of(models: Seq<ObjModel>, materials: Seq<ObjMaterial>, keys: Seq<String>) -> bool {
    &&& keys.len() == models.len()
    &&& forall|i: int|
        0 <= i < models.len() ==> (#[trigger] keys[i])@ == diffuse_key_of(models[i], materials)
}

/// Finds, for every model, the first one of its group, which it may share a mesh with; every model
/// by itself where nothing is to be shared.
pub fn find_references(models: &Vec<ObjModel>, materials: &Vec<ObjMaterial>, dedup: bool) -> (r: Vec<
    usize,
>)
    ensures
        r@.len() == models@.len(),
        forall|i: int|
            #![trigger r@[i]]
            0 <= i < models@.len() ==> if dedup {
                is_reference(models@, materials@, i, r@[i] as int)
            } else {
                r@[i] == i
            },
{
    if dedup {
        find_shared(models, materials)
    } else {
        let mut out: Vec<usize> = Vec::new();
        for i in 0..models.len()
            invariant
                out@.len() == i,
                forall|k: int| 0 <= k < i ==> #[trigger] out@[k] == k,
        {
            out.push(i);
        }
        out
    }
}

/// The models of each group stand side by side in the models' order, the first of them first.
/// This finds it for every model.
fn find_shared(models: &Vec<ObjModel>, materials: &Vec<ObjMaterial>) -> (r: Vec<usize>)
    ensures
        r@.len() == models@.len(),
        forall|i: int|
            0 <= i < models@.len() ==> is_reference(models@, materials@, i, #[trigger] r@[i] as int),
{
    let n: usize = models.len();
    let ghost (ms, mats) = (models@, materials@);
    let mut keys: Vec<String> = Vec::new();
    for i in 0..n
        invariant
            n == models@.len(),
            keys@.len() == i,
            forall|k: int|
                0 <= k < i ==> (#[trigger] keys@[k])@ == diffuse_key_of(models@[k], materials@),
    {
        keys.push(diffuse_key(&models[i], materials));
    }
    let ghost rel = shape_le(ms, mats);
    proof {
        lemma_shape_preorder(ms, mats);
    }
    let le = |a: usize, b: usize| -> (x: bool)
        requires
            a < models@.len(),
            b < models@.len(),
            keys_of(models@, materials@, keys@),
        ensures
            x == shape_le(models@, materials@)(a as int, b as int),
        {
            let (va, vb): (usize, usize) = (models[a].positions_len / 3, models[b].positions_len / 3);
            let (ta, tb): (usize, usize) = (models[a].indices_len / 3, models[b].indices_len / 3);
            if va != vb {
                va < vb
            } else if ta != tb {
                ta < tb
            } else {
                order::is_text_le(keys[a].as_str(), keys[b].as_str())
            }
        };
    let at = order::stable_order(n, le, Ghost(rel));
    let mut out: Vec<usize> = Vec::new();
    for i in 0..n
        invariant
            out@.len() == i,
            forall|k: int| 0 <= k < i ==> #[trigger] out@[k] == k,
    {
        out.push(i);
    }
    let mut first: usize = 0;
    let mut any: bool = false;
    let ghost mut place: int = 0;
    for k in 0..n
        invariant
            n == models@.len(),
            ms == models@,
            mats == materials@,
            rel == shape_le(ms, mats),
            order::is_preorder(rel, n as nat),
            keys_of(ms, mats, keys@),
            order::is_stable_order(at@, rel, n as nat),
            out@.len() == n,
            any ==> first < n && group_at(ms, mats, at@, place, k as int) && at@[place] == first,
            !any ==> forall|q: int| 0 <= q < k ==> !has_geometry(ms[#[trigger] at@[q] as int]),
            forall|q: int|
                0 <= q < k ==> is_reference(
                    ms,
                    mats,
                    #[trigger] at@[q] as int,
                    out@[at@[q] as int] as int,
                ),
            forall|q: int| k <= q < n ==> out@[#[trigger] at@[q] as int] == at@[q],
    {
        let m: usize = at[k];
        let ghost was = out@;
        if models[m].positions_len >= 3 {
            let joins = any && same_group(models, &keys, first, m, Ghost(mats));
            if joins {
                out.set(m, first);
                proof {
                    lemma_joins(ms, mats, at@, place, k as int);
                }
            } else {
                proof {
                    lemma_begins(ms, mats, at@, any, place, k as int);
                    lemma_joins(ms, mats, at@, k as int, k as int);
                    place = k as int;
                }
                first = m;
                any = true;
            }
        }
        proof {
            assert forall|q: int| 0 <= q < k + 1 implies is_reference(
                ms,
                mats,
                #[trigger] at@[q] as int,
                out@[at@[q] as int] as int,
            ) by {
                if q < k {
                    assert(at@[q] != at@[k as int]);
                    assert(out@[at@[q] as int] == was[at@[q] as int]);
                }
            }
            assert forall|q: int| k + 1 <= q < n implies out@[#[trigger] at@[q] as int]
                == at@[q] by {
                assert(at@[q] != at@[k as int]);
            }
        }
    }
    proof {
        assert forall|i: int| 0 <= i < ms.len() implies is_reference(
            ms,
            mats,
            i,
            #[trigger] out@[i] as int,
        ) by {
            order::stable_order_lists_all(at@, rel, n as nat, i);
            let q = choose|q: int| 0 <= q < n && #[trigger] at@[q] == i;
            assert(is_reference(ms, mats, at@[q] as int, out@[at@[q] as int] as int));
        }
    }
    out
}

/// Whether the group that begins at place `f` of an order is still going on at place `k`: no
/// model before it is of the group, and all after it are.
spec fn group_at(
    models: Seq<ObjModel>,
    materials: Seq<ObjMaterial>,
    at: Seq<usize>,
    f: int,
    k: int,
) -> bool {
    &&& 0 <= f < k
    &&& has_geometry(models[at[f] as int])
    &&& forall|q: int|
        f < q < k && has_geometry(models[#[trigger] at[q] as int]) ==> shape_key(
            models[at[q] as int],
            materials,
        ) == shape_key(models[at[f] as int], materials)
    &&& forall|q: int|
        0 <= q < f && has_geometry(models[#[trigger] at[q] as int]) ==> shape_key(
            models[at[q] as int],
            materials,
        ) != shape_key(models[at[f] as int], materials)
}

proof fn lemma_same_key(models: Seq<ObjModel>, materials: Seq<ObjMaterial>, a: int, b: int)
    ensures
        shape_key(models[a], materials) == shape_key(models[b], materials) <==> shape_le(
            models,
            materials,
        )(a, b) && shape_le(models, materials)(b, a),
{
    let (x, y) = (shape_key(models[a], materials), shape_key(models[b], materials));
    order::text_le_total(x.2, x.2);
    if x.0 == y.0 && x.1 == y.1 && order::text_le(x.2, y.2) && order::text_le(y.2, x.2) {
        order::text_le_antisymmetric(x.2, y.2);
    }
}

/// The model at place `k`, of the group that begins at place `f`, has its first as reference.
proof fn lemma_joins(
    models: Seq<ObjModel>,
    materials: Seq<ObjMaterial>,
    at: Seq<usize>,
    f: int,
    k: int,
)
    requires
        order::is_stable_order(at, shape_le(models, materials), models.len()),
        order::is_preorder(shape_le(models, materials), models.len()),
        0 <= f <= k < models.len(),
        same_shape(models, materials, at[f] as int, at[k] as int),
        forall|q: int|
            0 <= q < f && has_geometry(models[#[trigger] at[q] as int]) ==> shape_key(
                models[at[q] as int],
                materials,
            ) != shape_key(models[at[f] as int], materials),
    ensures
        is_reference(models, materials, at[k] as int, at[f] as int),
{
    let le = shape_le(models, materials);
    let first = at[f] as int;
    let m = at[k] as int;
    lemma_same_key(models, materials, first, m);
    if f < k {
        assert(at[f] < at[k]);
    }
    assert forall|j: int| 0 <= j < first implies !#[trigger] same_shape(models, materials, j, m) by {
        if same_shape(models, materials, j, m) {
            order::stable_order_lists_all(at, le, models.len(), j);
            let q = choose|q: int| 0 <= q < models.len() && #[trigger] at[q] == j;
            lemma_same_key(models, materials, j, first);
            if q > f {
                assert(at[f] < at[q]);
            }
        }
    }
}

/// A model of another group than the one going on begins a group of its own.
proof fn lemma_begins(
    models: Seq<ObjModel>,
    materials: Seq<ObjMaterial>,
    at: Seq<usize>,
    any: bool,
    f: int,
    k: int,
)
    requires
        order::is_stable_order(at, shape_le(models, materials), models.len()),
        order::is_preorder(shape_le(models, materials), models.len()),
        0 <= k < models.len(),
        has_geometry(models[at[k] as int]),
        any ==> group_at(models, materials, at, f, k) && shape_key(
            models[at[f] as int],
            materials,
        ) != shape_key(models[at[k] as int], materials),
        !any ==> forall|q: int| 0 <= q < k ==> !has_geometry(models[#[trigger] at[q] as int]),
    ensures
        forall|q: int|
            0 <= q < k && has_geometry(models[#[trigger] at[q] as int]) ==> shape_key(
                models[at[q] as int],
                materials,
            ) != shape_key(models[at[k] as int], materials),
        group_at(models, materials, at, k, k + 1),
{
    let le = shape_le(models, materials);
    let m = at[k] as int;
    assert forall|q: int|
        0 <= q < k && has_geometry(models[#[trigger] at[q] as int]) implies shape_key(
        models[at[q] as int],
        materials,
    ) != shape_key(models[m], materials) by {
        if q < f && shape_key(models[at[q] as int], materials) == shape_key(models[m], materials) {
            let first = at[f] as int;
            lemma_same_key(models, materials, at[q] as int, m);
            assert(le(at[q] as int, at[f] as int));
            assert(le(at[f] as int, at[k] as int));
            assert(le(m, at[q] as int));
            assert(le(m, first));
            lemma_same_key(models, materials, first, m);
        }
    }
}

/// The owners of the models' meshes: a model whose shape fits that of its reference shares the
/// reference's mesh, any other has its own.
pub open spec fn owners(references: Seq<usize>, fits: Seq<bool>) -> Seq<usize> {
    Seq::new(
        references.len(),
        |i: int|
            if fits[i] {
                references[i]
            } else {
                i as usize
            },
    )
}

/// How many of the first `n` models share another's mesh.
pub open spec fn shared_count(references: Seq<usize>, fits: Seq<bool>, n: nat) -> nat
    decreases n,
{
    if n == 0 {
        0
    } else {
        shared_count(references, fits, (n - 1) as nat) + if fits[n - 1] && references[n - 1] != n
            - 1 {
            1nat
        } else {
            0nat
        }
    }
}

/// Assigns each model's mesh to its owner, and counts the models that share. `fits` says of each
/// model whether its shape and texture coordinates fit those of its reference.
pub fn assign_owners(references: &Vec<usize>, fits: &Vec<bool>) -> (r: (Vec<usize>, usize))
    requires
        references@.len() == fits@.len(),
    ensures
        r.0@ == owners(references@, fits@),
        r.1 == shared_count(references@, fits@, references@.len()),
{
    let mut out: Vec<usize> = Vec::new();
    let mut shared: usize = 0;
    for i in 0..references.len()
        invariant
            references@.len() == fits@.len(),
            out@ == owners(references@, fits@).take(i as int),
            shared <= i,
            shared == shared_count(references@, fits@, i as nat),
    {
        if fits[i] {
            if references[i] != i {
                shared = shared + 1;
            }
            out.push(references[i]);
        } else {
            out.push(i);
        }
        assert(out@ =~= owners(references@, fits@).take(i + 1));
    }
    assert(out@ =~= owners(references@, fits@));
    (out, shared)
}

/// An owner owns its own mesh: no chain of owners is ever followed, whatever fits.
pub proof fn owners_own_themselves(
    models: Seq<ObjModel>,
    materials: Seq<ObjMaterial>,
    references: Seq<usize>,
    fits: Seq<bool>,
    i: int,
)
    requires
        models.len() <= usize::MAX,
        references.len() == models.len(),
        fits.len() == models.len(),
        forall|k: int|
            0 <= k < models.len() ==> is_reference(
                models,
                materials,
                k,
                #[trigger] references[k] as int,
            ),
        0 <= i < models.len(),
    ensures
        owners(references, fits)[i] <= i,
        owners(references, fits)[owners(references, fits)[i] as int] == owners(references, fits)[i],
        has_geometry(models[i]) ==> same_shape(
            models,
            materials,
            owners(references, fits)[i] as int,
            i,
        ),
{
    let r = references[i] as int;
    assert(is_reference(models, materials, i, references[i] as int));
    if has_geometry(models[i]) {
        let q = references[r] as int;
        assert(is_reference(models, materials, r, references[r] as int));
        if q < r {
            assert(same_shape(models, materials, q, i));
        }
    }
}

/// The numbers below `n` with a property, in order.
pub open spec fn numbers_where(p: spec_fn(int) -> bool, n: nat) -> Seq<usize>
    decreases n,
{
    if n == 0 {
        seq![]
    } else if p(n - 1) {
        numbers_where(p, (n - 1) as nat).push((n - 1) as usize)
    } else {
        numbers_where(p, (n - 1) as nat)
    }
}

proof fn lemma_numbers_where(p: spec_fn(int) -> bool, n: nat, x: usize)
    requires
        n <= usize::MAX,
    ensures
        numbers_where(p, n).contains(x) <==> x < n && p(x as int),
    decreases n,
{
    if n > 0 {
        let rest = numbers_where(p, (n - 1) as nat);
        lemma_numbers_where(p, (n - 1) as nat, x);
        if p(n - 1) {
            let all = rest.push((n - 1) as usize);
            if rest.contains(x) {
                let k = choose|k: int| 0 <= k < rest.len() && rest[k] == x;
                assert(all[k] == x);
            }
            assert(all[rest.len() as int] == n - 1);
            if all.contains(x) {
                let k = choose|k: int| 0 <= k < all.len() && all[k] == x;
                if k < rest.len() {
                    assert(rest[k] == x);
                }
            }
        }
    }
}

/// Being an owner that some kept model refers to.
pub open spec fn needed(owner: Seq<usize>, keep: Seq<bool>) -> spec_fn(int) -> bool {
    |i: int|
        owner[i] == i && exists|j: int| 0 <= j < owner.len() && keep[j] && #[trigger] owner[j] == i
}

/// Being a kept model whose owner's mesh was baked.
pub open spec fn emitted(owner: Seq<usize>, keep: Seq<bool>, failed: Seq<bool>) -> spec_fn(
    int,
) -> bool {
    |i: int| keep[i] && !failed[owner[i] as int]
}

/// The meshes to bake: of the owners, those that a kept model refers to.
pub fn plan_bakes(owner: &Vec<usize>, keep: &Vec<bool>) -> (r: Vec<usize>)
    requires
        owner@.len() == keep@.len(),
        forall|i: int| 0 <= i < owner@.len() ==> #[trigger] owner@[i] < owner@.len(),
    ensures
        r@ == numbers_where(needed(owner@, keep@), owner@.len()),
{
    let n: usize = owner.len();
    let mut wanted: Vec<bool> = vec![false; n];
    for i in 0..n
        invariant
            n == owner@.len(),
            n == keep@.len(),
            wanted@.len() == n,
            forall|k: int| 0 <= k < owner@.len() ==> #[trigger] owner@[k] < owner@.len(),
            forall|o: int|
                0 <= o < n ==> (#[trigger] wanted@[o] <==> exists|j: int|
                    0 <= j < i && keep@[j] && #[trigger] owner@[j] == o),
    {
        let ghost was = wanted@;
        if keep[i] {
            wanted.set(owner[i], true);
        }
        assert forall|o: int| 0 <= o < n implies (#[trigger] wanted@[o] <==> exists|j: int|
            0 <= j < i + 1 && keep@[j] && #[trigger] owner@[j] == o) by {
            assert(was[o] <==> exists|j: int| 0 <= j < i && keep@[j] && #[trigger] owner@[j] == o);
            if keep@[i as int] && owner@[i as int] == o {
                assert(wanted@[o]);
            }
        }
    }
    let mut out: Vec<usize> = Vec::new();
    for i in 0..n
        invariant
            n == owner@.len(),
            wanted@.len() == n,
            forall|o: int|
                0 <= o < n ==> (#[trigger] wanted@[o] <==> exists|j: int|
                    0 <= j < n && keep@[j] && #[trigger] owner@[j] == o),
            out@ == numbers_where(needed(owner@, keep@), i as nat),
    {
        assert(needed(owner@, keep@)(i as int) == (owner@[i as int] == i && wanted@[i as int]));
        if owner[i] == i && wanted[i] {
            out.push(i);
        }
    }
    out
}

/// The models to emit: the kept ones, but for those whose owner's mesh could not be baked.
pub fn plan_entities(owner: &Vec<usize>, keep: &Vec<bool>, failed: &Vec<bool>) -> (r: Vec<usize>)
    requires
        owner@.len() == keep@.len(),
        owner@.len() == failed@.len(),
        forall|i: int| 0 <= i < owner@.len() ==> #[trigger] owner@[i] < owner@.len(),
    ensures
        r@ == numbers_where(emitted(owner@, keep@, failed@), owner@.len()),
{
    let n: usize = owner.len();
    let mut out: Vec<usize> = Vec::new();
    for i in 0..n
        invariant
            n == owner@.len(),
            n == keep@.len(),
            n == failed@.len(),
            forall|k: int| 0 <= k < owner@.len() ==> #[trigger] owner@[k] < owner@.len(),
            out@ == numbers_where(emitted(owner@, keep@, failed@), i as nat),
    {
        if keep[i] && !failed[owner[i]] {
            out.push(i);
        }
    }
    out
}

/// Every emitted model refers to a mesh that was to be baked.
pub proof fn emitted_models_have_meshes(
    owner: Seq<usize>,
    keep: Seq<bool>,
    failed: Seq<bool>,
    x: usize,
)
    requires
        owner.len() == keep.len(),
        owner.len() == failed.len(),
        owner.len() <= usize::MAX,
        forall|i: int|
            0 <= i < owner.len() ==> #[trigger] owner[i] < owner.len() && owner[owner[i] as int]
                == owner[i],
        numbers_where(emitted(owner, keep, failed), owner.len()).contains(x),
    ensures
        numbers_where(needed(owner, keep), owner.len()).contains(owner[x as int]),
{
    lemma_numbers_where(emitted(owner, keep, failed), owner.len(), x);
    assert(keep[x as int] && owner[x as int] == owner[x as int]);
    lemma_numbers_where(needed(owner, keep), owner.len(), owner[x as int]);
}

/// The file stem of a model's mesh.
pub fn mesh_stem(m: &ObjModel, i: usize) -> (r: String)
    ensures
        r@ == names::sanitized(m.name@) + "_"@ + text::decimal(i as nat),
        r@ == stem_of(m.name@, i as nat),
{
    let mut out = names::sanitize(m.name.as_str());
    out.append("_");
    text::push_decimal(&mut out, i as u64);
    out
}

/// The textures that a material names: diffuse, then normal.
pub open spec fn material_textures(m: Option<ObjMaterial>) -> Seq<Seq<char>> {
    match m {
        Some(mat) => (match mat.diffuse_texture {
            Some(t) => seq![t@],
            None => seq![],
        }) + (match mat.normal_texture {
            Some(t) => seq![t@],
            None => seq![],
        }),
        None => seq![],
    }
}

/// The textures that the models' materials name, in order.
pub open spec fn all_textures(models: Seq<ObjModel>, materials: Seq<ObjMaterial>) -> Seq<Seq<char>>
    decreases models.len(),
{
    if models.len() == 0 {
        seq![]
    } else {
        all_textures(models.drop_last(), materials) + material_textures(
            material_at(models.last().material_id, materials),
        )
    }
}

fn add_texture(list: &mut Vec<String>, t: &Option<String>)
    ensures
        text::texts(final(list)@) == crate::walk::add_new(
            text::texts(old(list)@),
            match *t {
                Some(s) => seq![s@],
                None => seq![],
            },
        ),
{
    if let Some(s) = t {
        reveal_with_fuel(crate::walk::add_new, 2);
        assert(seq![s@].drop_last() =~= seq![]);
        if !text::list_contains(list, s.as_str()) {
            let copy = s.clone();
            proof {
                text::lemma_texts_push(list@, copy);
            }
            list.push(copy);
        }
    }
}

/// The textures that the models' materials name, each once, in the order they are first met.
pub fn list_textures(models: &Vec<ObjModel>, materials: &Vec<ObjMaterial>) -> (r: Vec<String>)
    ensures
        text::texts(r@) == crate::walk::add_new(
            Seq::<Seq<char>>::empty(),
            all_textures(models@, materials@),
        ),
{
    let mut out: Vec<String> = Vec::new();
    let ghost none = Seq::<Seq<char>>::empty();
    assert(text::texts(out@) =~= none);
    for i in 0..models.len()
        invariant
            none == Seq::<Seq<char>>::empty(),
            text::texts(out@) == crate::walk::add_new(
                none,
                all_textures(models@.take(i as int), materials@),
            ),
    {
        let ghost now = models@.take(i + 1);
        let ghost most = all_textures(models@.take(i as int), materials@);
        assert(now.drop_last() =~= models@.take(i as int));
        if let Some(k) = models[i].material_id {
            if k < materials.len() {
                let ghost (d, m) = (
                    match materials@[k as int].diffuse_texture {
                        Some(t) => seq![t@],
                        None => Seq::<Seq<char>>::empty(),
                    },
                    match materials@[k as int].normal_texture {
                        Some(t) => seq![t@],
                        None => Seq::<Seq<char>>::empty(),
                    },
                );
                proof {
                    crate::walk::lemma_add_new_concat(none, most, d);
                    crate::walk::lemma_add_new_concat(none, most + d, m);
                    assert(most + d + m =~= most + (d + m));
                }
                add_texture(&mut out, &materials[k].diffuse_texture);
                add_texture(&mut out, &materials[k].normal_texture);
            } else {
                assert(most + Seq::<Seq<char>>::empty() =~= most);
            }
        } else {
            assert(most + Seq::<Seq<char>>::empty() =~= most);
        }
    }
    assert(models@.take(models@.len() as int) =~= models@);
    out
}

/// Where a texture is copied from, relative to the OBJ, and the name it is copied to.
pub fn texture_copy(tex: &str) -> (r: (String, String))
    ensures
        r.0@ == text::replaced(tex@, '\\', '/'),
        r.1@ == names::last_component(tex@),
{
    (text::replace_char(tex, '\\', '/'), names::basename(tex).to_owned())
}

/// Models share a group where they have geometry, as many vertices and triangles, and textures of
/// the same base name; a difference in any of these parts them.
pub proof fn groups_are_of_one_shape(
    models: Seq<ObjModel>,
    materials: Seq<ObjMaterial>,
    a: int,
    b: int,
)
    ensures
        ({
            let (x, y) = (models[a], models[b]);
            let (s, t) = (diffuse_name(x, materials), diffuse_name(y, materials));
            &&& same_shape(models, materials, a, b) ==> {
                &&& x.positions_len >= 3 && y.positions_len >= 3
                &&& x.positions_len / 3 == y.positions_len / 3
                &&& x.indices_len / 3 == y.indices_len / 3
                &&& s is Some && t is Some ==> s == t
            }
            &&& x.positions_len == y.positions_len && x.indices_len == y.indices_len
                && x.positions_len >= 3 && s == t ==> same_shape(models, materials, a, b)
        }),
{
}

/// A model that fits its reference uses the reference's mesh, and any other its own; as many share
/// as use another's.
pub proof fn sharing_models_are_counted(references: Seq<usize>, fits: Seq<bool>)
    requires
        references.len() == fits.len(),
        references.len() <= usize::MAX,
    ensures
        owners(references, fits).len() == references.len(),
        forall|i: int|
            #![trigger owners(references, fits)[i]]
            0 <= i < references.len() ==> owners(references, fits)[i] == if fits[i] {
                references[i] as int
            } else {
                i
            },
        ({
            let sharing = Set::new(
                |i: int| 0 <= i < references.len() && owners(references, fits)[i] != i,
            );
            sharing.finite() && sharing.len() == shared_count(references, fits, references.len())
        }),
{
    lemma_sharing(references, fits, references.len());
    let sharing = Set::new(|i: int| 0 <= i < references.len() && owners(references, fits)[i] != i);
    let other = Set::new(|i: int| 0 <= i < references.len() && fits[i] && references[i] != i);
    assert(sharing =~= other);
}

proof fn lemma_sharing(references: Seq<usize>, fits: Seq<bool>, n: nat)
    ensures
        ({
            let s = Set::new(|i: int| 0 <= i < n && fits[i] && references[i] != i);
            s.finite() && s.len() == shared_count(references, fits, n)
        }),
    decreases n,
{
    let s = Set::new(|i: int| 0 <= i < n && fits[i] && references[i] != i);
    if n == 0 {
        assert(s =~= Set::empty());
    } else {
        let m = (n - 1) as nat;
        lemma_sharing(references, fits, m);
        let less = Set::new(|i: int| 0 <= i < m && fits[i] && references[i] != i);
        if fits[n - 1] && references[n - 1] != n - 1 {
            assert(s =~= less.insert(n - 1));
        } else {
            assert(s =~= less);
        }
    }
}

/// A listing holds exactly the numbers with the property, each once, in order.
pub proof fn listings_are_complete(p: spec_fn(int) -> bool, n: nat)
    requires
        n <= usize::MAX,
    ensures
        forall|x: usize|
            #![trigger numbers_where(p, n).contains(x)]
            numbers_where(p, n).contains(x) <==> x < n && p(x as int),
        forall|j: int, k: int|
            0 <= j < k < numbers_where(p, n).len() ==> #[trigger] numbers_where(p, n)[j]
                < #[trigger] numbers_where(p, n)[k],
    decreases n,
{
    if n > 0 {
        let m = (n - 1) as nat;
        listings_are_complete(p, m);
        let before = numbers_where(p, m);
        let all = numbers_where(p, n);
        assert forall|k: int| 0 <= k < before.len() implies #[trigger] before[k] < m by {
            assert(before.contains(before[k]));
        }
        assert forall|x: usize| #![trigger all.contains(x)] all.contains(x) <==> x < n && p(x as int) by {
            if all.contains(x) {
                let k = choose|k: int| 0 <= k < all.len() && all[k] == x;
                if k < before.len() {
                    assert(before[k] == x);
                    assert(before.contains(x));
                }
            }
            if x < n && p(x as int) {
                if x < m {
                    assert(before.contains(x));
                    let k = choose|k: int| 0 <= k < before.len() && before[k] == x;
                    assert(all[k] == x);
                } else {
                    assert(all[before.len() as int] == x);
                }
            }
        }
    }
}

/// A model is emitted exactly where it is kept and the mesh of its owner was baked; a mesh is baked
/// exactly where its model owns it and a kept model uses it.
pub proof fn kept_models_are_emitted(
    owner: Seq<usize>,
    keep: Seq<bool>,
    failed: Seq<bool>,
    x: usize,
    y: usize,
)
    requires
        owner.len() == keep.len(),
        owner.len() == failed.len(),
        owner.len() <= usize::MAX,
        x < owner.len(),
        y < owner.len(),
    ensures
        numbers_where(emitted(owner, keep, failed), owner.len()).contains(x) <==> keep[x as int]
            && !failed[owner[x as int] as int],
        numbers_where(needed(owner, keep), owner.len()).contains(x) ==> owner[x as int] == x,
        keep[y as int] && owner[y as int] == x && owner[x as int] == x ==> numbers_where(
            needed(owner, keep),
            owner.len(),
        ).contains(x),
        (forall|j: int| 0 <= j < owner.len() && keep[j] ==> #[trigger] owner[j] != x)
            ==> !numbers_where(needed(owner, keep), owner.len()).contains(x),
{
    listings_are_complete(emitted(owner, keep, failed), owner.len());
    listings_are_complete(needed(owner, keep), owner.len());
    let p = needed(owner, keep);
    if keep[y as int] && owner[y as int] == x && owner[x as int] == x {
        assert(p(x as int));
    }
}

/// The textures of a model's material are listed, its diffuse texture before its normal map, after
/// those of the models before it; a model without a material adds none.
pub proof fn textures_follow_their_models(
    models: Seq<ObjModel>,
    m: ObjModel,
    materials: Seq<ObjMaterial>,
    k: usize,
    d: String,
    n: String,
)
    requires
        k < materials.len(),
    ensures
        ({
            let before = all_textures(models, materials);
            let after = all_textures(models.push(m), materials);
            let mat = materials[k as int];
            &&& m.material_id is None ==> after == before
            &&& m.material_id == Some(k) && mat.diffuse_texture == Some(d) && mat.normal_texture
                == Some(n) ==> after == before.push(d@).push(n@)
            &&& m.material_id == Some(k) && mat.diffuse_texture == Some(d) && mat.normal_texture is None
                ==> after == before.push(d@)
            &&& m.material_id == Some(k) && mat.diffuse_texture is None && mat.normal_texture == Some(n)
                ==> after == before.push(n@)
        }),
{
    let before = all_textures(models, materials);
    let after = all_textures(models.push(m), materials);
    let mat = materials[k as int];
    assert(models.push(m).drop_last() =~= models);
    if m.material_id is None {
        assert(after =~= before);
    }
    if m.material_id == Some(k) {
        if mat.diffuse_texture == Some(d) && mat.normal_texture == Some(n) {
            assert(after =~= before.push(d@).push(n@));
        }
        if mat.diffuse_texture == Some(d) && mat.normal_texture is None {
            assert(after =~= before.push(d@));
        }
        if mat.diffuse_texture is None && mat.normal_texture == Some(n) {
            assert(after =~= before.push(n@));
        }
    }
}

/// A model's texture is that of the material it names, by its base name; a model that names no
/// material, or one that has no texture, has none.
pub proof fn models_use_their_materials(m: ObjModel, materials: Seq<ObjMaterial>, k: usize, t: String)
    requires
        k < materials.len(),
    ensures
        m.material_id == Some(k) && materials[k as int].diffuse_texture == Some(t) ==> diffuse_name(
            m,
            materials,
        ) == Some(names::last_component(t@)) && diffuse_key_of(m, materials) == names::last_component(
            t@,
        ),
        m.material_id is None ==> diffuse_key_of(m, materials) == "<none>"@,
        m.material_id == Some(k) && materials[k as int].diffuse_texture is None ==> diffuse_key_of(
            m,
            materials,
        ) == "<none>"@,
{
}

/// A model is a cutout exactly where its own material is one.
pub proof fn cutouts_follow_the_material(m: ObjModel, cutmask: Seq<bool>, k: usize)
    requires
        k < cutmask.len(),
    ensures
        m.material_id == Some(k) ==> (is_cutout(m, cutmask) <==> cutmask[k as int]),
        m.material_id is None ==> !is_cutout(m, cutmask),
{
}

/// The file stem of the mesh of model `i`.
pub open spec fn stem_of(name: Seq<char>, i: nat) -> Seq<char> {
    names::sanitized(name) + "_"@ + text::decimal(i)
}

/// A mesh's stem begins with its model's name, made safe, and models of one name have different
/// stems.
pub proof fn mesh_stems_differ(name: Seq<char>, i: nat, j: nat)
    ensures
        text::begins_with(stem_of(name, i), names::sanitized(name) + "_"@),
        stem_of(name, i) == stem_of(name, j) ==> i == j,
{
    let head = names::sanitized(name) + "_"@;
    let (a, b) = (stem_of(name, i), stem_of(name, j));
    assert(a.subrange(0, head.len() as int) =~= head);
    assert(a.skip(head.len() as int) =~= text::decimal(i));
    assert(b.skip(head.len() as int) =~= text::decimal(j));
    if a == b {
        text::decimal_is_injective(i, j);
    }
}

} // verus!
