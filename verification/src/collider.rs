//! Collision files: a mesh's positions and triangles in a small binary format.

use vstd::prelude::*;
use crate::bytes;

verus! {

/// The indices of a mesh: its own, or its vertices in order where it has none.
pub open spec fn effective_indices(indices: Option<Seq<u32>>, vertices: nat) -> Seq<u32> {
    match indices {
        Some(v) => v,
        None => Seq::new((vertices as u32) as nat, |i: int| i as u32),
    }
}

/// The bytes of a collision file: `ACOL`, version, vertex count, triangle count, the positions
/// (three floats each) and the triangles (three indices each).
pub open spec fn collider_image(positions: Seq<u32>, indices: Seq<u32>) -> Seq<u8> {
    seq![65u8, 67u8, 79u8, 76u8] + bytes::le32(1) + bytes::le32(
        (positions.len() / 3) as u32,
    ) + bytes::le32((indices.len() / 3) as u32) + bytes::le32_all(positions) + bytes::le32_all(
        indices.take(3 * (indices.len() / 3) as int),
    )
}

fn count_up(n: u32) -> (r: Vec<u32>)
    ensures
        r@ == Seq::new(n as nat, |i: int| i as u32),
{
    let mut out: Vec<u32> = Vec::new();
    for i in 0..n
        invariant
            out@ == Seq::new(i as nat, |k: int| k as u32),
    {
        out.push(i);
        assert(out@ =~= Seq::new((i + 1) as nat, |k: int| k as u32));
    }
    out
}

/// The indices of an optional list.
pub open spec fn opt_indices(v: Option<Vec<u32>>) -> Option<Seq<u32>> {
    match v {
        Some(x) => Some(x@),
        None => None,
    }
}

/// Writes a collision file from the bits of a mesh's positions (three per vertex) and its
/// indices; a mesh without any is triangles of consecutive vertices. Nothing where there is no
/// whole triangle, else the file and its triangle count.
pub fn write_collider(positions: &Vec<u32>, indices: &Option<Vec<u32>>) -> (r: Option<
    (Vec<u8>, usize),
>)
    requires
        positions@.len() % 3 == 0,
    ensures
        ({
            let all = effective_indices(opt_indices(*indices), positions@.len() / 3);
            match r {
                Some((file, triangles)) => all.len() >= 3 && triangles == all.len() / 3 && file@
                    == collider_image(positions@, all),
                None => all.len() < 3,
            }
        }),
{
    let vertices: usize = positions.len() / 3;
    let counted: Vec<u32>;
    let all: &Vec<u32> = match indices {
        Some(v) => v,
        None => {
            counted = count_up(vertices as u32);
            &counted
        },
    };
    let triangles: usize = all.len() / 3;
    if triangles == 0 {
        return None;
    }
    let mut out: Vec<u8> = Vec::new();
    out.push(65);
    out.push(67);
    out.push(79);
    out.push(76);
    assert(out@ =~= seq![65u8, 67u8, 79u8, 76u8]);
    bytes::wu32(&mut out, 1);
    bytes::wu32(&mut out, vertices as u32);
    bytes::wu32(&mut out, triangles as u32);
    bytes::wu32_all(&mut out, positions);
    let mut whole: Vec<u32> = Vec::new();
    for i in 0..3 * triangles
        invariant
            3 * triangles <= all@.len(),
            whole@ == all@.take(i as int),
    {
        whole.push(all[i]);
        assert(whole@ =~= all@.take(i + 1));
    }
    bytes::wu32_all(&mut out, &whole);
    assert(3 * (all@.len() / 3) as int == 3 * triangles);
    Some((out, triangles))
}

/// A collision file gives back what went into it: the counts, each position and each index of a
/// whole triangle.
pub proof fn collider_reads_back(positions: Seq<u32>, indices: Seq<u32>)
    requires
        positions.len() % 3 == 0,
        positions.len() / 3 <= u32::MAX,
        indices.len() / 3 <= u32::MAX,
    ensures
        ({
            let f = collider_image(positions, indices);
            let whole = 3 * (indices.len() / 3);
            &&& f.len() == 16 + 4 * positions.len() + 4 * whole
            &&& f[0] == 65 && f[1] == 67 && f[2] == 79 && f[3] == 76
            &&& bytes::get32(f, 4) == 1
            &&& bytes::get32(f, 8) == positions.len() / 3
            &&& bytes::get32(f, 12) == indices.len() / 3
            &&& forall|i: int|
                0 <= i < positions.len() ==> #[trigger] bytes::get32(f, 16 + 4 * i) == positions[i]
            &&& forall|i: int|
                0 <= i < whole ==> #[trigger] bytes::get32(f, 16 + 4 * positions.len() + 4 * i)
                    == indices[i]
        }),
{
    let f = collider_image(positions, indices);
    let whole = indices.take(3 * (indices.len() / 3) as int);
    let p = bytes::le32_all(positions);
    let q = bytes::le32_all(whole);
    bytes::lemma_le32_all_len(positions);
    bytes::lemma_le32_all_len(whole);
    let v = (positions.len() / 3) as u32;
    let t = (indices.len() / 3) as u32;
    assert(f.subrange(4, 8) =~= bytes::le32(1));
    bytes::lemma_get32(f, 4, 1);
    assert(f.subrange(8, 12) =~= bytes::le32(v));
    bytes::lemma_get32(f, 8, v);
    assert(f.subrange(12, 16) =~= bytes::le32(t));
    bytes::lemma_get32(f, 12, t);
    assert(forall|k: int| 0 <= k < p.len() ==> f[16 + k] == p[k]);
    assert(forall|k: int| 0 <= k < q.len() ==> f[16 + p.len() + k] == q[k]);
    assert forall|i: int| 0 <= i < positions.len() implies #[trigger] bytes::get32(f, 16 + 4 * i)
        == positions[i] by {
        bytes::lemma_le32_all_get(positions, i);
        assert(f[16 + (4 * i)] == p[4 * i]);
        assert(f[16 + (4 * i + 1)] == p[4 * i + 1]);
        assert(f[16 + (4 * i + 2)] == p[4 * i + 2]);
        assert(f[16 + (4 * i + 3)] == p[4 * i + 3]);
    }
    assert forall|i: int| 0 <= i < whole.len() implies #[trigger] bytes::get32(
        f,
        16 + 4 * positions.len() + 4 * i,
    ) == indices[i] by {
        bytes::lemma_le32_all_get(whole, i);
        assert(f[16 + p.len() + (4 * i)] == q[4 * i]);
        assert(f[16 + p.len() + (4 * i + 1)] == q[4 * i + 1]);
        assert(f[16 + p.len() + (4 * i + 2)] == q[4 * i + 2]);
        assert(f[16 + p.len() + (4 * i + 3)] == q[4 * i + 3]);
    }
}

/// A mesh without indices is triangles of consecutive vertices; one with indices keeps them.
pub proof fn bare_meshes_count_up(vertices: nat, v: Seq<u32>, k: int)
    requires
        0 <= k < vertices <= u32::MAX,
    ensures
        effective_indices(None, vertices).len() == vertices,
        effective_indices(None, vertices)[k] == k,
        effective_indices(Some(v), vertices) == v,
{
}

} // verus!
