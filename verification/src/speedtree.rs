//! Trees: one scene per tree model, with its own textures and meshes, and clumps of trees merged
//! into one mesh.

use vstd::prelude::*;
use vstd::utf8::*;
use crate::document::{Document, Material, MaterialImages};
use crate::names;
use crate::text;

verus! {

/// The image a material samples for base color, if any.
pub fn base_color_image(m: &Material) -> (r: Option<usize>)
    ensures
        r == m@.images.base_color,
        r == color_image(m@),
{
    m.images.base_color
}

/// Whether the image that a material samples for base color is a cutmask.
pub open spec fn is_leaf(base_color: Option<usize>, cutmask: Seq<bool>) -> bool {
    base_color matches Some(i) && i < cutmask.len() && cutmask[i as int]
}

/// Whether a material is a leaf's: the image it samples for base color is a cutmask.
pub fn is_leaf_material(m: &Material, cutmask: &Vec<bool>) -> (r: bool)
    ensures
        r == is_leaf(m@.images.base_color, cutmask@),
{
    match base_color_image(m) {
        Some(i) => i < cutmask.len() && cutmask[i],
        None => false,
    }
}

/// The file whose alpha a primitive's opacity micromap is baked against: that of a leaf's base
/// color, where it was extracted. No other material has one.
pub fn leaf_file(m: &Material, cutmask: &Vec<bool>, files: &Vec<Option<String>>) -> (r: Option<
    String,
>)
    ensures
        crate::document::opt_text(r) == (if is_leaf(m@.images.base_color, cutmask@) {
            tree_file(files@, m@.images.base_color)
        } else {
            None
        }),
        crate::document::opt_text(r) == leaf_texture(m@, cutmask@, files@),
{
    if !is_leaf_material(m, cutmask) {
        return None;
    }
    match base_color_image(m) {
        Some(i) => if i < files.len() {
            match &files[i] {
                Some(f) => Some(f.clone()),
                None => None,
            }
        } else {
            None
        },
        None => None,
    }
}

/// Whether one of the first `n` materials samples image `i` for base color or normals.
pub open spec fn is_referenced(samples: Seq<MaterialImages>, n: int, i: usize) -> bool {
    exists|k: int|
        0 <= k < n && ((#[trigger] samples[k]).base_color == Some(i) || samples[k].normal == Some(
            i,
        ))
}

/// The file name of a tree's image.
pub open spec fn tree_image(doc: Document, stem: Seq<char>, i: int) -> Seq<char> {
    let name = match doc.images@[i].name {
        Some(n) => n@,
        None => seq![],
    };
    stem + "_"@ + names::safe_stem(name, i as nat) + ".png"@
}

fn mark(marks: &mut Vec<bool>, image: Option<usize>)
    ensures
        final(marks)@.len() == old(marks)@.len(),
        forall|i: int|
            0 <= i < old(marks)@.len() ==> #[trigger] final(marks)@[i] == (old(marks)@[i] || image
                == Some(i as usize)),
{
    if let Some(k) = image {
        if k < marks.len() {
            marks.set(k, true);
        }
    }
}

/// The file names of the images that some material references as base color or normal map, by
/// image; the tree's name stands before each, so that trees never clobber each other's textures.
pub fn extract_referenced(doc: &Document, stem: &str) -> (r: Vec<Option<String>>)
    ensures
        r@.len() == doc.images@.len(),
        forall|i: int|
            0 <= i < doc.images@.len() ==> crate::document::opt_text(#[trigger] r@[i]) == (
            if is_referenced(doc.samples@, doc.samples@.len() as int, i as usize) {
                Some(tree_image(*doc, stem@, i))
            } else {
                None
            }),
        forall|i: int|
            0 <= i < doc.images@.len() ==> crate::document::opt_text(#[trigger] r@[i]) == extracted(
                *doc,
                stem@,
                i,
            ),
{
    let n: usize = doc.images.len();
    let mut marks: Vec<bool> = vec![false; n];
    for k in 0..doc.samples.len()
        invariant
            n == doc.images@.len(),
            marks@.len() == n,
            forall|i: int|
                0 <= i < n ==> #[trigger] marks@[i] == is_referenced(
                    doc.samples@,
                    k as int,
                    i as usize,
                ),
    {
        let ghost before = marks@;
        mark(&mut marks, doc.samples[k].base_color);
        mark(&mut marks, doc.samples[k].normal);
        assert forall|i: int| 0 <= i < n implies #[trigger] marks@[i] == is_referenced(
            doc.samples@,
            k + 1,
            i as usize,
        ) by {
            assert(before[i] == is_referenced(doc.samples@, k as int, i as usize));
            let s = doc.samples@[k as int];
            if before[i] {
                let j = choose|j: int|
                    0 <= j < k && ((#[trigger] doc.samples@[j]).base_color == Some(i as usize)
                        || doc.samples@[j].normal == Some(i as usize));
                assert(doc.samples@[j] == doc.samples@[j]);
            }
        }
    }
    let mut out: Vec<Option<String>> = Vec::new();
    for i in 0..n
        invariant
            n == doc.images@.len(),
            marks@.len() == n,
            forall|j: int|
                0 <= j < n ==> #[trigger] marks@[j] == is_referenced(
                    doc.samples@,
                    doc.samples@.len() as int,
                    j as usize,
                ),
            out@.len() == i,
            forall|j: int|
                0 <= j < i ==> crate::document::opt_text(#[trigger] out@[j]) == (if is_referenced(
                    doc.samples@,
                    doc.samples@.len() as int,
                    j as usize,
                ) {
                    Some(tree_image(*doc, stem@, j))
                } else {
                    None
                }),
    {
        if marks[i] {
            let part = match &doc.images[i].name {
                Some(s) => names::safe(s.as_str(), i),
                None => names::safe("", i),
            };
            proof {
                reveal_strlit("");
                assert(""@ =~= Seq::<char>::empty());
            }
            let mut name = stem.to_owned();
            name.append("_");
            name.append(part.as_str());
            name.append(".png");
            out.push(Some(name));
        } else {
            out.push(None);
        }
    }
    out
}

/// The file of an image, where it was extracted.
pub open spec fn tree_file(files: Seq<Option<String>>, image: Option<usize>) -> Option<Seq<char>> {
    match image {
        Some(i) if i < files.len() => crate::document::opt_text(files[i as int]),
        _ => None,
    }
}

/// A texture field of a tree's material.
pub open spec fn tree_texture(
    label: Seq<char>,
    prefix: Seq<char>,
    file: Option<Seq<char>>,
) -> Seq<char> {
    match file {
        Some(f) => label + prefix + "/textures/"@ + f + "\","@,
        None => seq![],
    }
}

/// The fields of a tree's material: base-color and normal textures, and a mask for a cutout.
pub open spec fn tree_fields(
    m: crate::document::MaterialView,
    cut: bool,
    prefix: Seq<char>,
    files: Seq<Option<String>>,
) -> Seq<char> {
    tree_texture(" base_color_texture: \""@, prefix, tree_file(files, m.images.base_color))
        + tree_texture(" normal_map_texture: \""@, prefix, tree_file(files, m.images.normal)) + (
    if cut {
        " alpha_mode: bevy_material::alpha::AlphaMode::Mask(0.5),"@
    } else {
        seq![]
    })
}

fn write_tree_texture(
    out: &mut String,
    label: &str,
    prefix: &str,
    files: &Vec<Option<String>>,
    image: Option<usize>,
)
    ensures
        final(out)@ == old(out)@ + tree_texture(label@, prefix@, tree_file(files@, image)),
{
    if let Some(i) = image {
        if i < files.len() {
            if let Some(f) = &files[i] {
                out.append(label);
                out.append(prefix);
                out.append("/textures/");
                out.append(f.as_str());
                out.append("\",");
            }
        }
    }
    assert(final(out)@ =~= old(out)@ + tree_texture(label@, prefix@, tree_file(files@, image)));
}

/// Inline fields of a tree's material: base-color + normal textures and a mask for classified
/// cutouts.
pub fn material_fields(m: &Material, cut: bool, prefix: &str, files: &Vec<Option<String>>) -> (r:
    String)
    ensures
        r@ == tree_fields(m@, cut, prefix@, files@),
{
    let mut out = String::new();
    write_tree_texture(&mut out, " base_color_texture: \"", prefix, files, m.images.base_color);
    write_tree_texture(&mut out, " normal_map_texture: \"", prefix, files, m.images.normal);
    if cut {
        out.append(" alpha_mode: bevy_material::alpha::AlphaMode::Mask(0.5),");
    }
    assert(out@ =~= tree_fields(m@, cut, prefix@, files@));
    out
}

/// A primitive of a tree, placed: mesh, primitive and the bits of its world transform.
#[derive(Clone, Copy, Debug)]
pub struct TreeKey {
    pub mesh: usize,
    pub prim: usize,
    pub world: [u32; 16],
}

/// Whether two placed primitives are the same.
pub open spec fn same_key(a: TreeKey, b: TreeKey) -> bool {
    a.mesh == b.mesh && a.prim == b.prim && a.world@ == b.world@
}

fn is_same_key(a: &TreeKey, b: &TreeKey) -> (r: bool)
    ensures
        r == same_key(*a, *b),
{
    if a.mesh != b.mesh || a.prim != b.prim {
        return false;
    }
    for i in 0..16
        invariant
            forall|k: int| 0 <= k < i ==> a.world@[k] == b.world@[k],
    {
        if a.world[i] != b.world[i] {
            return false;
        }
    }
    assert(a.world@ =~= b.world@);
    true
}

/// The stem of a primitive's first bake.
pub open spec fn tree_stem(tree: Seq<char>, mesh: nat, prim: nat) -> Seq<char> {
    tree + "_m"@ + text::decimal(mesh) + "p"@ + text::decimal(prim)
}

/// Where a placed primitive's mesh comes from.
pub enum TreeBake {
    /// The bake of this number.
    Shared(usize),
    /// A bake of its own, under this stem.
    New(String),
}

/// Whether a bake is right after those `done`: the first that is the same, else a new one under
/// the primitive's stem, numbered where the primitive was baked with another transform.
pub open spec fn bakes(tree: Seq<char>, done: Seq<TreeKey>, key: TreeKey, b: TreeBake) -> bool {
    match b {
        TreeBake::Shared(i) => i < done.len() && same_key(done[i as int], key) && forall|j: int|
            0 <= j < i ==> !same_key(#[trigger] done[j], key),
        TreeBake::New(stem) => {
            let base = tree_stem(tree, key.mesh as nat, key.prim as nat);
            &&& forall|j: int| 0 <= j < done.len() ==> !same_key(#[trigger] done[j], key)
            &&& stem@ == (if exists|j: int|
                0 <= j < done.len() && (#[trigger] done[j]).mesh == key.mesh && done[j].prim
                    == key.prim {
                base + "_w"@ + text::decimal(done.len())
            } else {
                base
            })
        },
    }
}

/// Decides where a placed primitive's mesh comes from. The transform is baked into the vertices,
/// so a primitive under two transforms is two bakes; the first keeps the plain stem.
pub fn choose_bake(tree: &str, done: &Vec<TreeKey>, key: &TreeKey) -> (r: TreeBake)
    ensures
        bakes(tree@, done@, *key, r),
{
    let mut again: bool = false;
    for i in 0..done.len()
        invariant
            forall|j: int| 0 <= j < i ==> !same_key(#[trigger] done@[j], *key),
            again <==> exists|j: int|
                0 <= j < i && (#[trigger] done@[j]).mesh == key.mesh && done@[j].prim == key.prim,
    {
        if is_same_key(&done[i], key) {
            return TreeBake::Shared(i);
        }
        if done[i].mesh == key.mesh && done[i].prim == key.prim {
            assert(done@[i as int].mesh == key.mesh);
            again = true;
        }
    }
    let mut stem = tree.to_owned();
    stem.append("_m");
    text::push_decimal(&mut stem, key.mesh as u64);
    stem.append("p");
    text::push_decimal(&mut stem, key.prim as u64);
    if again {
        stem.append("_w");
        text::push_decimal(&mut stem, done.len() as u64);
    }
    TreeBake::New(stem)
}

/// The name of a part's entity.
pub fn part_name(tree: &str, m: &Material) -> (r: String)
    ensures
        r@ == tree@ + "."@ + (match m@.name {
            Some(n) => n,
            None => "part"@,
        }),
        r@ == part_text(tree@, m@.name),
{
    let mut out = tree.to_owned();
    out.append(".");
    match &m.name {
        Some(n) => out.append(n.as_str()),
        None => out.append("part"),
    }
    out
}

/// The name of a clump of `k` trees.
pub open spec fn clump_text(tree: Seq<char>, k: nat) -> Seq<char> {
    tree + "_clump"@ + text::decimal(k)
}

/// The name of a clump of `k` trees.
pub fn clump_name(tree: &str, k: u32) -> (r: String)
    ensures
        r@ == clump_text(tree@, k as nat),
{
    let mut out = tree.to_owned();
    out.append("_clump");
    text::push_decimal(&mut out, k as u64);
    out
}

/// The stem of a clump's `i`-th mesh.
pub fn clump_stem(tree: &str, k: u32, i: usize) -> (r: String)
    ensures
        r@ == clump_text(tree@, k as nat) + "_p"@ + text::decimal(i as nat),
        r@ == clump_part(tree@, k as nat, i as nat),
{
    let mut out = clump_name(tree, k);
    out.append("_p");
    text::push_decimal(&mut out, i as u64);
    out
}

/// The hash of bytes that a tree's random numbers start from.
pub open spec fn name_hash(b: Seq<u8>) -> u32
    decreases b.len(),
{
    if b.len() == 0 {
        2166136261
    } else {
        (name_hash(b.drop_last()) ^ (b.last() as u32)).wrapping_mul(16777619)
    }
}

/// The state after one more random number.
pub open spec fn next_state(h: u32) -> u32 {
    h.wrapping_mul(747796405).wrapping_add(2891336453)
}

/// The random number of a state.
pub open spec fn draw_of(h: u32) -> u32 {
    let w = ((h >> ((h >> 28) + 4)) ^ h).wrapping_mul(277803737);
    (w >> 22) ^ w
}

/// The state after `n` random numbers.
pub open spec fn state_after(h: u32, n: nat) -> u32
    decreases n,
{
    if n == 0 {
        h
    } else {
        next_state(state_after(h, (n - 1) as nat))
    }
}

fn hash_name(name: &str) -> (r: u32)
    ensures
        r == name_hash(encode_utf8(name@)),
{
    let b = name.as_bytes();
    let mut h: u32 = 2166136261;
    for i in 0..b.len()
        invariant
            h == name_hash(b@.take(i as int)),
    {
        assert(b@.take(i + 1).drop_last() =~= b@.take(i as int));
        let x: u32 = h ^ (b[i] as u32);
        h = x.wrapping_mul(16777619);
    }
    assert(b@.take(b@.len() as int) =~= b@);
    h
}

/// The random numbers that place a clump's `k` trees, three each (angle, turn and size), the same
/// for the same tree on every run.
pub fn clump_draws(seed_name: &str, k: u32) -> (r: Vec<[u32; 3]>)
    ensures
        r@.len() == k,
        forall|i: int, c: int|
            #![trigger r@[i]@[c]]
            0 <= i < k && 0 <= c < 3 ==> r@[i]@[c] == draw_of(
                state_after(name_hash(encode_utf8(seed_name@)), (3 * i + c + 1) as nat),
            ),
        forall|i: int, c: int|
            #![trigger r@[i]@[c]]
            0 <= i < k && 0 <= c < 3 ==> r@[i]@[c] == nth_draw(seed_name@, (3 * i + c) as nat),
{
    let seed: u32 = hash_name(seed_name);
    let mut h: u32 = seed;
    let mut out: Vec<[u32; 3]> = Vec::new();
    for i in 0..k
        invariant
            seed == name_hash(encode_utf8(seed_name@)),
            h == state_after(seed, (3 * i) as nat),
            out@.len() == i,
            forall|j: int, c: int|
                #![trigger out@[j]@[c]]
                0 <= j < i && 0 <= c < 3 ==> out@[j]@[c] == draw_of(
                    state_after(seed, (3 * j + c + 1) as nat),
                ),
    {
        let (a, x): (u32, u32) = step(h);
        let (b, y): (u32, u32) = step(a);
        let (c, z): (u32, u32) = step(b);
        assert(a == state_after(seed, (3 * i + 1) as nat));
        assert(b == state_after(seed, (3 * i + 2) as nat));
        assert(c == state_after(seed, (3 * i + 3) as nat));
        out.push([x, y, z]);
        h = c;
    }
    out
}

/// The next state, and its random number.
fn step(h: u32) -> (r: (u32, u32))
    ensures
        r.0 == next_state(h),
        r.1 == draw_of(next_state(h)),
{
    let s: u32 = h.wrapping_mul(747796405).wrapping_add(2891336453);
    assert(s == next_state(h));
    assert((s >> 28) + 4 < 32) by (bit_vector);
    let x: u32 = (s >> ((s >> 28) + 4)) ^ s;
    let w: u32 = x.wrapping_mul(277803737);
    (s, (w >> 22) ^ w)
}

/// The indices of a mesh repeated `k` times, each copy after the vertices of those before it.
pub open spec fn merged_indices(indices: Seq<u32>, vertices: int, k: int) -> Seq<int> {
    Seq::new(
        (indices.len() * k) as nat,
        |i: int| indices[i % (indices.len() as int)] + vertices * (i / (indices.len() as int)),
    )
}

/// Concatenates the indices of `k` copies of a mesh.
pub fn merge_indices(indices: &Vec<u32>, vertices: usize, k: usize) -> (r: Vec<u32>)
    requires
        forall|i: int|
            0 <= i < indices@.len() ==> #[trigger] indices@[i] + vertices * (k - 1) <= u32::MAX,
    ensures
        r@.map_values(|v: u32| v as int) == merged_indices(indices@, vertices as int, k as int),
{
    let mut out: Vec<u32> = Vec::new();
    let n: usize = indices.len();
    let ghost (v, ni) = (vertices as int, n as int);
    let mut c: usize = 0;
    assert(ni * 0 == 0) by (nonlinear_arith);
    while c < k
        invariant
            n == indices@.len(),
            v == vertices,
            ni == n,
            c <= k,
            forall|i: int|
                0 <= i < indices@.len() ==> #[trigger] indices@[i] + vertices * (k - 1) <= u32::MAX,
            out@.len() == ni * c,
            forall|i: int|
                0 <= i < out@.len() ==> #[trigger] out@[i] == indices@[i % ni] + v * (i / ni),
        decreases k - c,
    {
        assert(v * c <= v * (k - 1)) by (nonlinear_arith)
            requires
                c + 1 <= k,
                0 <= v,
        ;
        assert(0 <= v * c) by (nonlinear_arith)
            requires
                0 <= v,
                0 <= c,
        ;
        let ghost start = out@;
        for i in 0..n
            invariant
                n == indices@.len(),
                v == vertices,
                ni == n,
                c < k,
                0 <= v * c <= v * (k - 1),
                forall|j: int|
                    0 <= j < indices@.len() ==> #[trigger] indices@[j] + vertices * (k - 1)
                        <= u32::MAX,
                start.len() == ni * c,
                out@.len() == start.len() + i,
                forall|j: int| 0 <= j < start.len() ==> #[trigger] out@[j] == start[j],
                forall|j: int|
                    0 <= j < start.len() ==> #[trigger] start[j] == indices@[j % ni] + v * (j / ni),
                forall|j: int|
                    0 <= j < i ==> #[trigger] out@[start.len() + j] == indices@[j] + v * c,
        {
            assert(indices@[i as int] + v * c <= u32::MAX);
            assert(vertices * c == v * c);
            let base: usize = vertices * c;
            out.push(indices[i] + base as u32);
        }
        proof {
            assert(ni * (c + 1) == ni * c + ni) by (nonlinear_arith);
            assert(ni * c == c * ni) by (nonlinear_arith);
            assert forall|j: int| 0 <= j < out@.len() implies #[trigger] out@[j] == indices@[j % ni]
                + v * (j / ni) by {
                if j >= start.len() {
                    let d = j - start.len();
                    vstd::arithmetic::div_mod::lemma_fundamental_div_mod_converse(
                        j,
                        ni,
                        c as int,
                        d,
                    );
                    assert(out@[start.len() + d] == indices@[d] + v * c);
                } else {
                    assert(out@[j] == start[j]);
                }
            }
        }
        c = c + 1;
    }
    proof {
        assert(ni * k == indices@.len() * (k as int));
        assert(out@.map_values(|x: u32| x as int) =~= merged_indices(
            indices@,
            vertices as int,
            k as int,
        ));
    }
    out
}

/// A tree's material names the files of its base colour and its normals, each after its own label,
/// and a mask at one half exactly where it is cut.
pub proof fn trees_name_their_textures(
    m: crate::document::MaterialView,
    prefix: Seq<char>,
    files: Seq<Option<String>>,
    b: usize,
    n: usize,
    f: String,
    g: String,
)
    requires
        m.images.base_color == Some(b),
        m.images.normal == Some(n),
        b < files.len() && files[b as int] == Some(f),
        n < files.len() && files[n as int] == Some(g),
    ensures
        ({
            let plain = (" base_color_texture: \""@ + prefix + "/textures/"@ + f@ + "\","@) + (
            " normal_map_texture: \""@ + prefix + "/textures/"@ + g@ + "\","@);
            &&& tree_fields(m, false, prefix, files) == plain
            &&& tree_fields(m, true, prefix, files) == plain
                + " alpha_mode: bevy_material::alpha::AlphaMode::Mask(0.5),"@
        }),
{
    let plain = (" base_color_texture: \""@ + prefix + "/textures/"@ + f@ + "\","@) + (
    " normal_map_texture: \""@ + prefix + "/textures/"@ + g@ + "\","@);
    assert(plain + Seq::<char>::empty() =~= plain);
}

/// A texture that was not extracted, or that a material does not sample, is not named.
pub proof fn missing_textures_are_not_named(
    m: crate::document::MaterialView,
    prefix: Seq<char>,
    files: Seq<Option<String>>,
)
    requires
        m.images.base_color is None || files.len() == 0,
        m.images.normal is None || files.len() == 0,
    ensures
        tree_fields(m, false, prefix, files).len() == 0,
{
}

/// Only what a material samples for base colour or normals is extracted; an image that it samples
/// for anything else is not, however often.
pub proof fn only_sampled_images_are_extracted(samples: Seq<MaterialImages>, i: usize, k: int)
    requires
        0 <= k < samples.len(),
    ensures
        samples[k].base_color == Some(i) || samples[k].normal == Some(i) ==> is_referenced(
            samples,
            samples.len() as int,
            i,
        ),
        (forall|j: int|
            0 <= j < samples.len() ==> (#[trigger] samples[j]).base_color != Some(i)
                && samples[j].normal != Some(i)) ==> !is_referenced(
            samples,
            samples.len() as int,
            i,
        ),
{
    if samples[k].base_color == Some(i) || samples[k].normal == Some(i) {
        assert(samples[k].base_color == Some(i) || samples[k].normal == Some(i));
    }
}

/// A leaf is a material whose base-colour image is a cutmask: the verdict on that image decides,
/// and no other.
pub proof fn leaves_have_cutmasks(i: usize, cutmask: Seq<bool>)
    ensures
        !is_leaf(None, cutmask),
        is_leaf(Some(i), cutmask) ==> i < cutmask.len() && cutmask[i as int],
        i < cutmask.len() && cutmask[i as int] ==> is_leaf(Some(i), cutmask),
{
}

/// Copy `c` of a mesh has its indices moved by the vertices of the copies before it, each in its own
/// place.
pub proof fn copies_keep_their_triangles(indices: Seq<u32>, vertices: int, k: int, c: int, i: int)
    requires
        0 <= c < k,
        0 <= i < indices.len(),
    ensures
        merged_indices(indices, vertices, k).len() == indices.len() * k,
        0 <= c * indices.len() + i < merged_indices(indices, vertices, k).len(),
        merged_indices(indices, vertices, k)[c * indices.len() + i] == indices[i] + vertices * c,
{
    let n = indices.len() as int;
    let at = c * n + i;
    assert(at / n == c && at % n == i && 0 <= at < n * k && 0 <= n * k) by (nonlinear_arith)
        requires
            at == c * n + i,
            0 <= i < n,
            0 <= c < k,
    ;
}

/// The stem of a primitive tells its tree, its mesh and its place.
pub proof fn tree_stems_differ(tree: Seq<char>, m: nat, p: nat, n: nat, q: nat)
    requires
        tree_stem(tree, m, p) == tree_stem(tree, n, q),
    ensures
        m == n,
        p == q,
{
    reveal_strlit("_m");
    reveal_strlit("p");
    let (s, t) = (tree_stem(tree, m, p), tree_stem(tree, n, q));
    let (a, b, x, y) = (text::decimal(m), text::decimal(n), text::decimal(p), text::decimal(q));
    text::lemma_decimal_digits(m);
    text::lemma_decimal_digits(n);
    let z = tree.len() + 2;
    assert forall|i: int| 0 <= i < a.len() implies s[z + i] == a[i] by {}
    assert forall|i: int| 0 <= i < b.len() implies t[z + i] == b[i] by {}
    assert(s[z + a.len() as int] == 'p');
    assert(t[z + b.len() as int] == 'p');
    if a.len() < b.len() {
        assert(t[z + a.len() as int] == b[a.len() as int]);
    } else if b.len() < a.len() {
        assert(s[z + b.len() as int] == a[b.len() as int]);
    }
    assert(a =~= b) by {
        assert forall|i: int| 0 <= i < a.len() implies a[i] == b[i] by {
            assert(s[z + i] == a[i] && t[z + i] == b[i]);
        }
    }
    text::decimal_is_injective(m, n);
    assert(s.len() == z + a.len() + 1 + x.len());
    assert(t.len() == z + b.len() + 1 + y.len());
    assert(x =~= y) by {
        assert forall|i: int| 0 <= i < x.len() implies x[i] == y[i] by {
            assert(s[z + a.len() + 1 + i] == x[i]);
            assert(t[z + b.len() + 1 + i] == y[i]);
        }
    }
    text::decimal_is_injective(p, q);
}

/// A primitive baked before under the same transform is shared, and one that is new is baked; under
/// another transform it is baked again, under another stem.
pub proof fn bakes_are_shared(tree: Seq<char>, done: Seq<TreeKey>, key: TreeKey, b: TreeBake)
    requires
        bakes(tree, done, key, b),
    ensures
        b is Shared <==> exists|i: int|
            0 <= i < done.len() && (#[trigger] done[i]).mesh == key.mesh && done[i].prim == key.prim
                && done[i].world@ == key.world@,
        b matches TreeBake::Shared(i) ==> i < done.len() && done[i as int].mesh == key.mesh
            && done[i as int].prim == key.prim && done[i as int].world@ == key.world@,
        b matches TreeBake::New(stem) ==> text::begins_with(
            stem@,
            tree_stem(tree, key.mesh as nat, key.prim as nat),
        ) && (stem@ == tree_stem(tree, key.mesh as nat, key.prim as nat) <==> forall|i: int|
            0 <= i < done.len() ==> (#[trigger] done[i]).mesh != key.mesh || done[i].prim
                != key.prim),
{
    match b {
        TreeBake::Shared(i) => {
            assert(same_key(done[i as int], key));
        },
        TreeBake::New(stem) => {
            let base = tree_stem(tree, key.mesh as nat, key.prim as nat);
            reveal_strlit("_w");
            assert forall|i: int| 0 <= i < done.len() implies !((#[trigger] done[i]).mesh == key.mesh
                && done[i].prim == key.prim && done[i].world@ == key.world@) by {
                assert(!same_key(done[i], key));
            }
            let more = base + "_w"@ + text::decimal(done.len());
            assert(more.subrange(0, base.len() as int) =~= base);
            assert(base.subrange(0, base.len() as int) =~= base);
            assert(more.len() > base.len());
        },
    }
}

/// A tree's image is named by the tree and its own stem; one without a name by its number.
pub proof fn tree_images_are_named(doc: Document, stem: Seq<char>, i: int, n: String)
    requires
        0 <= i,
    ensures
        doc.images@[i].name == Some(n) && names::safe_part(n@).len() > 0 ==> tree_image(doc, stem, i)
            == stem + "_"@ + names::safe_part(n@) + ".png"@,
        doc.images@[i].name is None ==> tree_image(doc, stem, i) == stem + "_"@ + ("img"@
            + text::decimal(i as nat)) + ".png"@,
{
    let none = Seq::<char>::empty();
    assert(names::before_noise(none).map_values(|c: char| names::stem_char(c)) =~= none);
    assert(names::safe_part(none).len() == 0);
}

/// A clump is named by its tree and how many it has.
pub proof fn clumps_are_named(tree: Seq<char>, k: nat)
    ensures
        clump_text(tree, k) == tree + "_clump"@ + text::decimal(k),
{
}

/// Random numbers start from the 32-bit FNV-1a hash of a name, go on by a linear step modulo two to
/// the thirty-second, and depend on the state alone.
#[verifier::rlimit(40)]
pub proof fn random_numbers_step(b: Seq<u8>, x: u8, h: u32, n: nat)
    ensures
        name_hash(Seq::<u8>::empty()) == 0x811c_9dc5,
        name_hash(b.push(x)) == ((name_hash(b) ^ (x as u32)) * 0x0100_0193) % 0x1_0000_0000,
        next_state(h) == ((h * 747796405) % 0x1_0000_0000 + 2891336453) % 0x1_0000_0000,
        state_after(h, n + 1) == next_state(state_after(h, n)),
        state_after(h, 0) == h,
{
    assert(b.push(x).drop_last() =~= b);
}

/// The texture that a leaf's micromap is baked against.
pub open spec fn leaf_texture(
    m: crate::document::MaterialView,
    cutmask: Seq<bool>,
    files: Seq<Option<String>>,
) -> Option<Seq<char>> {
    if is_leaf(m.images.base_color, cutmask) {
        tree_file(files, m.images.base_color)
    } else {
        None
    }
}

/// A leaf's micromap is baked against the file of its own base colour, and no other material has
/// one.
pub proof fn leaves_use_their_base_color(
    m: crate::document::MaterialView,
    cutmask: Seq<bool>,
    files: Seq<Option<String>>,
    i: usize,
    f: String,
)
    requires
        i < cutmask.len(),
        i < files.len(),
        files[i as int] == Some(f),
        m.images.base_color == Some(i),
    ensures
        cutmask[i as int] ==> leaf_texture(m, cutmask, files) == Some(f@),
        !cutmask[i as int] ==> leaf_texture(m, cutmask, files) is None,
{
}

/// The file of a tree's image, where some material samples it.
pub open spec fn extracted(doc: Document, stem: Seq<char>, i: int) -> Option<Seq<char>> {
    if is_referenced(doc.samples@, doc.samples@.len() as int, i as usize) {
        Some(tree_image(doc, stem, i))
    } else {
        None
    }
}

/// An image is extracted exactly where some material samples it for its base colour or its normals,
/// under its own name.
pub proof fn sampled_images_are_extracted(doc: Document, stem: Seq<char>, i: usize, k: int)
    ensures
        0 <= k < doc.samples@.len() && (doc.samples@[k].base_color == Some(i) || doc.samples@[k].normal
            == Some(i)) ==> extracted(doc, stem, i as int) == Some(tree_image(doc, stem, i as int)),
        (forall|j: int|
            0 <= j < doc.samples@.len() ==> (#[trigger] doc.samples@[j]).base_color != Some(i)
                && doc.samples@[j].normal != Some(i)) ==> extracted(doc, stem, i as int) is None,
{
    if 0 <= k < doc.samples@.len() {
        only_sampled_images_are_extracted(doc.samples@, i, k);
    }
}

/// The name of a part's entity, from its tree's name and its material's.
pub open spec fn part_text(tree: Seq<char>, material: Option<Seq<char>>) -> Seq<char> {
    tree + "."@ + (match material {
        Some(n) => n,
        None => "part"@,
    })
}

/// A part is named by its tree and its material.
pub proof fn parts_are_named(tree: Seq<char>, material: Seq<char>)
    ensures
        part_text(tree, Some(material)) == tree + "."@ + material,
        part_text(tree, None) == tree + "."@ + "part"@,
{
}

/// The stem of a clump's `i`-th mesh.
pub open spec fn clump_part(tree: Seq<char>, k: nat, i: nat) -> Seq<char> {
    clump_text(tree, k) + "_p"@ + text::decimal(i)
}

/// The meshes of a clump have stems of their own, each with the clump's name before it.
pub proof fn clump_stems_differ(tree: Seq<char>, k: nat, i: nat, j: nat)
    ensures
        text::begins_with(clump_part(tree, k, i), tree + "_clump"@ + text::decimal(k) + "_p"@),
        clump_part(tree, k, i) == clump_part(tree, k, j) ==> i == j,
{
    let head = tree + "_clump"@ + text::decimal(k) + "_p"@;
    let (a, b) = (clump_part(tree, k, i), clump_part(tree, k, j));
    assert(a.subrange(0, head.len() as int) =~= head);
    assert(a.skip(head.len() as int) =~= text::decimal(i));
    assert(b.skip(head.len() as int) =~= text::decimal(j));
    if a == b {
        text::decimal_is_injective(i, j);
    }
}

/// The `n`-th random number of a name, counted from zero.
pub open spec fn nth_draw(seed_name: Seq<char>, n: nat) -> u32 {
    draw_of(state_after(name_hash(encode_utf8(seed_name)), n + 1))
}

/// A name's first random number is that of the state after its hash, and each further one is that of
/// the state after.
pub proof fn draws_follow_each_other(seed_name: Seq<char>, n: nat)
    ensures
        nth_draw(seed_name, 0) == draw_of(next_state(name_hash(encode_utf8(seed_name)))),
        nth_draw(seed_name, n + 1) == draw_of(
            next_state(state_after(name_hash(encode_utf8(seed_name)), n + 1)),
        ),
{
    reveal_with_fuel(state_after, 3);
}

/// The image that a material samples for its base colour.
pub open spec fn color_image(m: crate::document::MaterialView) -> Option<usize> {
    m.images.base_color
}

/// The base colour's image is that of the base colour, whatever else a material samples.
pub proof fn color_images_are_the_base_colors(
    m: crate::document::MaterialView,
    base: Option<usize>,
    other: Option<usize>,
)
    ensures
        color_image(
            (crate::document::MaterialView {
                images: (crate::document::MaterialImages {
                    base_color: base,
                    metallic_roughness: other,
                    normal: other,
                    emissive: other,
                }),
                ..m
            }),
        ) == base,
{
}

} // verus!
