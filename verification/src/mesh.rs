//! Which parts of a source mesh are taken over into a baked one.

use vstd::prelude::*;
use crate::document::PrimRecord;
use crate::text;

verus! {

/// A setting: the number in a text, or a default where there is no text or no number in it.
pub fn env_u32(value: Option<&str>, default: u32) -> (r: u32)
    ensures
        r == (match crate::names::optional(value) {
            Some(v) => match text::number_in(v, u32::MAX as nat) {
                Some(n) => n as u32,
                None => default,
            },
            None => default,
        }),
        r == setting(crate::names::optional(value), default),
{
    match value {
        Some(v) => match text::parse_number(v, u32::MAX as u64) {
            Some(n) => n as u32,
            None => default,
        },
        None => default,
    }
}

/// What a submesh brings along: everything that covers every vertex.
#[derive(Clone, Copy, Debug, PartialEq, Eq)]
pub struct SubmeshParts {
    pub vertices: usize,
    /// Whether its texture coordinates are taken; else they are all zero.
    pub uvs: bool,
    /// Whether its normals are taken; else they are computed.
    pub normals: bool,
}

/// Sorts out a submesh by the numbers of its position, texture and normal values. There is nothing
/// to bake without positions.
pub fn submesh_parts(positions: usize, texcoords: usize, normals: usize) -> (r: Option<SubmeshParts>)
    ensures
        r == (if positions < 3 {
            None
        } else {
            let n = positions / 3;
            Some(SubmeshParts { vertices: n, uvs: texcoords == n * 2, normals: normals == n * 3 })
        }),
        r == sorted_submesh(positions, texcoords, normals),
{
    if positions < 3 {
        None
    } else {
        let n: usize = positions / 3;
        Some(SubmeshParts { vertices: n, uvs: texcoords == n * 2, normals: normals == n * 3 })
    }
}

/// What a primitive brings along.
#[derive(Clone, Copy, Debug, PartialEq, Eq)]
pub struct PrimitiveParts {
    pub normals: bool,
    pub uvs: bool,
    /// Both joints and weights, or neither.
    pub skin: bool,
}

/// Sorts out a primitive with `positions` vertices, by how many values each stream it has holds.
/// Texture coordinates and skins must cover every vertex.
pub fn primitive_parts(
    positions: Option<usize>,
    normals: Option<usize>,
    uvs: Option<usize>,
    joints: Option<usize>,
    weights: Option<usize>,
) -> (r: Option<PrimitiveParts>)
    ensures
        r == (match positions {
            None => None,
            Some(n) => if n == 0 {
                None
            } else {
                Some(
                    PrimitiveParts {
                        normals: normals is Some,
                        uvs: uvs == Some(n),
                        skin: joints == Some(n) && weights == Some(n),
                    },
                )
            },
        }),
        r == sorted_primitive(positions, normals, uvs, joints, weights),
{
    match positions {
        None => None,
        Some(n) => {
            if n == 0 {
                None
            } else {
                let covers = |s: Option<usize>| -> (c: bool)
                    ensures
                        c == (s == Some(n)),
                    {
                        match s {
                            Some(m) => m == n,
                            None => false,
                        }
                    };
                Some(
                    PrimitiveParts {
                        normals: normals.is_some(),
                        uvs: covers(uvs),
                        skin: covers(joints) && covers(weights),
                    },
                )
            }
        },
    }
}

/// Whether primitive `p` of mesh `m` is made of triangles.
pub open spec fn is_triangles(meshes: Seq<Vec<PrimRecord>>, m: int, p: int) -> bool {
    0 <= m < meshes.len() && 0 <= p < meshes[m]@.len() && meshes[m]@[p].triangles
}

/// The first primitive made of triangles, by its mesh and its place there.
pub fn first_triangles(meshes: &Vec<Vec<PrimRecord>>) -> (r: Result<(usize, usize), String>)
    ensures
        match r {
            Ok((m, p)) => is_triangles(meshes@, m as int, p as int) && forall|a: int, b: int| #[trigger]
                is_triangles(meshes@, a, b) ==> m < a || (m == a && p <= b),
            Err(e) => e@ == "no triangle primitive"@ && forall|a: int, b: int|
                !#[trigger] is_triangles(meshes@, a, b),
        },
{
    for m in 0..meshes.len()
        invariant
            forall|a: int, b: int| #[trigger] is_triangles(meshes@, a, b) ==> m <= a,
    {
        let prims = &meshes[m];
        for p in 0..prims.len()
            invariant
                m < meshes@.len(),
                prims@ == meshes@[m as int]@,
                forall|a: int, b: int| #[trigger]
                    is_triangles(meshes@, a, b) ==> m < a || (m == a && p <= b),
        {
            if prims[p].triangles {
                return Ok((m, p));
            }
        }
    }
    Err("no triangle primitive".to_owned())
}

/// Whether a mesh is baked at all: its file is missing, or is to be replaced.
pub fn bakes(present: bool, replace: bool) -> (r: bool)
    ensures
        r == (!present || replace),
        r == is_due(present, replace),
{
    !present || replace
}

/// What a submesh brings along, by how many numbers it has of each sort.
pub open spec fn sorted_submesh(positions: usize, texcoords: usize, normals: usize) -> Option<
    SubmeshParts,
> {
    if positions < 3 {
        None
    } else {
        let n = positions / 3;
        Some(SubmeshParts { vertices: n, uvs: texcoords == n * 2, normals: normals == n * 3 })
    }
}

/// A submesh of `n` vertices takes its texture coordinates where it has two for each vertex, and
/// its normals where it has three; without a vertex there is nothing to take.
pub proof fn submeshes_take_what_covers_them(n: usize, t: usize, m: usize)
    requires
        0 < n,
        3 * n <= usize::MAX,
    ensures
        ({
            let r = sorted_submesh((3 * n) as usize, t, m);
            &&& r is Some
            &&& r->0.vertices == n
            &&& r->0.uvs <==> t == 2 * n
            &&& r->0.normals <==> m == 3 * n
        }),
        sorted_submesh(0, t, m) is None,
        sorted_submesh(2, t, m) is None,
{
}

/// What a primitive brings along, by how many values each of its streams has.
pub open spec fn sorted_primitive(
    positions: Option<usize>,
    normals: Option<usize>,
    uvs: Option<usize>,
    joints: Option<usize>,
    weights: Option<usize>,
) -> Option<PrimitiveParts> {
    match positions {
        None => None,
        Some(n) => if n == 0 {
            None
        } else {
            Some(
                PrimitiveParts {
                    normals: normals is Some,
                    uvs: uvs == Some(n),
                    skin: joints == Some(n) && weights == Some(n),
                },
            )
        },
    }
}

/// A primitive takes its texture coordinates where they cover every vertex, its skin where both
/// joints and weights do, and its normals where it has any; without a vertex there is nothing to
/// take.
pub proof fn primitives_take_what_covers_them(
    n: usize,
    m: Option<usize>,
    t: Option<usize>,
    j: Option<usize>,
    w: Option<usize>,
)
    requires
        n > 0,
    ensures
        sorted_primitive(None, m, t, j, w) is None,
        sorted_primitive(Some(0), m, t, j, w) is None,
        ({
            let r = sorted_primitive(Some(n), m, t, j, w);
            &&& r is Some
            &&& r->0.normals <==> m is Some
            &&& r->0.uvs <==> t == Some(n)
            &&& r->0.skin <==> j == Some(n) && w == Some(n)
        }),
{
}

/// Whether a mesh is baked.
pub open spec fn is_due(present: bool, replace: bool) -> bool {
    !present || replace
}

/// A mesh that is there is left alone unless it is to be replaced; a missing one is always baked.
pub proof fn present_meshes_are_left_alone(replace: bool)
    ensures
        is_due(false, replace),
        is_due(true, replace) <==> replace,
{
}

/// A setting, from its text.
pub open spec fn setting(value: Option<Seq<char>>, default: u32) -> u32 {
    match value {
        Some(v) => match text::number_in(v, u32::MAX as nat) {
            Some(n) => n as u32,
            None => default,
        },
        None => default,
    }
}

/// A setting is the number that its text writes, and the default where there is no text or no
/// number in it.
pub proof fn settings_read_their_number(n: u32, default: u32, v: Seq<char>)
    ensures
        setting(Some(text::decimal(n as nat)), default) == n,
        setting(None, default) == default,
        text::number_in(v, u32::MAX as nat) is None ==> setting(Some(v), default) == default,
{
    text::decimal_reads_back(n as nat, u32::MAX as nat);
}

} // verus!
