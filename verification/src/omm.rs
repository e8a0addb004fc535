//! Opacity micromaps: the inputs handed to the baker and the arrays it hands back.

use vstd::prelude::*;

verus! {

/// 4-state micromap = 2 bits/micro-triangle (opaque/transparent/unknown-o/unknown-t).
pub const OMM_FORMAT_OC1_4_STATE: u32 = 2;

/// 2-state micromap = 1 bit/micro-triangle (opaque/transparent only).
pub const OMM_FORMAT_OC1_2_STATE: u32 = 1;

/// Default cap on micromap subdivision.
pub const DEFAULT_OMM_SUBDIV: u32 = 6;

/// Default erosion radius in texels.
pub const DEFAULT_ERODE_PX: u32 = 2;

/// How many micromaps of one subdivision level and format are used.
#[derive(Clone, Copy, Debug)]
pub struct OmmUsage {
    pub count: u32,
    pub subdivision_level: u16,
    pub format: u16,
}

/// One baked micromap, as arrays.
pub struct OmmBake {
    /// Opacity-array build data.
    pub array_data: Vec<u8>,
    /// Per-micromap descriptors `(offset, subdivision level, format)`.
    pub descs: Vec<(u32, u16, u16)>,
    /// Usage histogram for the micromap build.
    pub desc_histogram: Vec<OmmUsage>,
    /// Per-triangle index (negative = special index).
    pub indices: Vec<i32>,
    /// Native index width the baker chose, in bytes.
    pub index_format_bytes: u32,
    /// Usage histogram for the attach.
    pub index_histogram: Vec<OmmUsage>,
    /// Micro-triangle state counts.
    pub stat_opaque: u64,
    pub stat_transparent: u64,
    pub stat_unknown_opaque: u64,
    pub stat_unknown_transparent: u64,
}

/// Chooses the format: four states where asked for four, two states otherwise.
pub fn choose_format(requested: u32) -> (r: u32)
    ensures
        r == (if requested == 4 {
            OMM_FORMAT_OC1_4_STATE
        } else {
            OMM_FORMAT_OC1_2_STATE
        }),
        r == format_for(requested),
{
    if requested == 4 {
        OMM_FORMAT_OC1_4_STATE
    } else {
        OMM_FORMAT_OC1_2_STATE
    }
}

/// The width in bytes of the baker's index format: 0 is 16 bits, 2 is 8 bits, any other 32.
pub open spec fn index_width(format: u32) -> u32 {
    if format == 0 {
        2
    } else if format == 2 {
        1
    } else {
        4
    }
}

/// The width in bytes of the baker's index format.
pub fn index_format_bytes(format: u32) -> (r: u32)
    ensures
        r == index_width(format),
{
    if format == 0 {
        2
    } else if format == 2 {
        1
    } else {
        4
    }
}

/// The unsigned value of `width` little-endian bytes from `at`.
pub open spec fn le_value(bytes: Seq<u8>, at: int, width: int) -> int {
    if width == 1 {
        bytes[at] as int
    } else if width == 2 {
        bytes[at] + 256 * bytes[at + 1]
    } else {
        bytes[at] + 256 * bytes[at + 1] + 65536 * bytes[at + 2] + 16777216 * bytes[at + 3]
    }
}

/// One past the largest value of `width` bytes.
pub open spec fn value_count(width: int) -> int {
    if width == 1 {
        256
    } else if width == 2 {
        65536
    } else {
        4294967296
    }
}

/// The number that the low 32 bits of `u` stand for in two's complement.
pub open spec fn as_signed(u: int) -> int {
    if u < 2147483648 {
        u
    } else {
        u - 4294967296
    }
}

/// The index that an unsigned value of `width` bytes stands for: the top four values are the
/// special indices -1 to -4, every other value is itself.
pub open spec fn omm_index(u: int, width: int) -> int {
    if u >= value_count(width) - 4 {
        u - value_count(width)
    } else {
        as_signed(u)
    }
}

/// The `i`-th value of an index buffer.
fn index_value(bytes: &Vec<u8>, i: usize, width: u32) -> (r: u64)
    requires
        width == 1 || width == 2 || width == 4,
        (i + 1) * width <= bytes@.len(),
    ensures
        r == le_value(bytes@, i * width, width as int),
        r < value_count(width as int),
{
    if width == 1 {
        bytes[i] as u64
    } else if width == 2 {
        assert(2 * i + 1 < bytes.len());
        bytes[2 * i] as u64 + 256 * bytes[2 * i + 1] as u64
    } else {
        assert(4 * i + 3 < bytes.len());
        bytes[4 * i] as u64 + 256 * bytes[4 * i + 1] as u64 + 65536 * bytes[4 * i + 2] as u64
            + 16777216 * bytes[4 * i + 3] as u64
    }
}

/// Widens the baker's native-width index buffer to signed numbers.
///
/// Only the top four unsigned values of the width are negative; a plain signed read would corrupt
/// valid indices above the signed midpoint.
pub fn read_omm_indices(bytes: &Vec<u8>, count: usize, width: u32) -> (r: Vec<i32>)
    requires
        width == 1 || width == 2 || width == 4,
        count * width <= bytes@.len(),
    ensures
        r@.len() == count,
        forall|i: int|
            0 <= i < count ==> #[trigger] r@[i] == omm_index(
                le_value(bytes@, i * width, width as int),
                width as int,
            ),
        forall|i: int|
            0 <= i < count ==> #[trigger] r@[i] == nth_index(bytes@, width as int, i),
{
    let mut out: Vec<i32> = Vec::new();
    let modulus: u64 = if width == 1 {
        256
    } else if width == 2 {
        65536
    } else {
        4294967296
    };
    for i in 0..count
        invariant
            width == 1 || width == 2 || width == 4,
            count * width <= bytes@.len(),
            modulus == value_count(width as int),
            out@.len() == i,
            forall|k: int|
                0 <= k < i ==> #[trigger] out@[k] == omm_index(
                    le_value(bytes@, k * width, width as int),
                    width as int,
                ),
    {
        assert((i + 1) * width <= count * width) by (nonlinear_arith)
            requires
                i + 1 <= count,
                0 <= width,
        ;
        let u: u64 = index_value(bytes, i, width);
        let v: i64 = if u >= modulus - 4 {
            u as i64 - modulus as i64
        } else if u < 2147483648 {
            u as i64
        } else {
            u as i64 - 4294967296
        };
        out.push(v as i32);
    }
    out
}

/// A special index is one of -1 to -4; where the buffer is 8 or 16 bits wide, every other index
/// is not negative.
pub proof fn special_indices_are_the_only_negatives(u: int, width: int)
    requires
        width == 1 || width == 2,
        0 <= u < value_count(width),
    ensures
        -4 <= omm_index(u, width),
        omm_index(u, width) < 0 <==> u >= value_count(width) - 4,
{
}

/// What the baker is handed.
pub struct BakeShape {
    pub alpha_len: usize,
    pub width: u32,
    pub height: u32,
    pub uvs_len: usize,
    pub indices_len: usize,
}

/// Whether the sizes of a bake's inputs agree: one alpha per texel, two numbers per vertex, three
/// indices per triangle.
pub open spec fn bakeable(s: BakeShape) -> bool {
    &&& s.width * s.height <= u32::MAX
    &&& s.alpha_len == s.width * s.height
    &&& s.uvs_len % 2 == 0
    &&& s.indices_len % 3 == 0
}

/// Tests whether the sizes of a bake's inputs agree.
pub fn check_shape(s: &BakeShape) -> (r: bool)
    ensures
        r == bakeable(*s),
{
    match s.width.checked_mul(s.height) {
        Some(texels) => s.alpha_len == texels as usize && s.uvs_len % 2 == 0 && s.indices_len % 3
            == 0,
        None => false,
    }
}

/// A run of triangles of a clustered mesh: their indices count from `vertex_offset`.
#[derive(Clone, Copy, Debug)]
pub struct ClusterSpan {
    pub index_offset: u32,
    pub triangle_count: u32,
    pub vertex_offset: u32,
}

/// The mesh-wide vertex numbers of one cluster's triangles.
pub open spec fn cluster_indices(c: ClusterSpan, local: Seq<u32>) -> Seq<int> {
    Seq::new(
        (3 * c.triangle_count) as nat,
        |k: int| c.vertex_offset + local[c.index_offset + k],
    )
}

/// The mesh-wide vertex numbers of all triangles, cluster by cluster.
pub open spec fn global_indices(clusters: Seq<ClusterSpan>, local: Seq<u32>) -> Seq<int>
    decreases clusters.len(),
{
    if clusters.len() == 0 {
        seq![]
    } else {
        global_indices(clusters.drop_last(), local) + cluster_indices(clusters.last(), local)
    }
}

/// Whether a cluster's triangles lie in the index array and its vertices can be numbered.
pub open spec fn cluster_fits(c: ClusterSpan, local: Seq<u32>) -> bool {
    &&& c.index_offset + 3 * c.triangle_count <= local.len()
    &&& forall|k: int|
        c.index_offset <= k < c.index_offset + 3 * c.triangle_count ==> c.vertex_offset
            + #[trigger] local[k] <= u32::MAX
}

/// Turns cluster-local indices into mesh-wide ones, walking the clusters in order so that the
/// triangle order is that of the renderer's slicing.
pub fn globalise_indices(clusters: &Vec<ClusterSpan>, local: &Vec<u32>) -> (r: Vec<u32>)
    requires
        forall|i: int| 0 <= i < clusters@.len() ==> #[trigger] cluster_fits(clusters@[i], local@),
    ensures
        r@.map_values(|v: u32| v as int) == global_indices(clusters@, local@),
{
    let mut out: Vec<u32> = Vec::new();
    for i in 0..clusters.len()
        invariant
            forall|j: int|
                0 <= j < clusters@.len() ==> #[trigger] cluster_fits(clusters@[j], local@),
            out@.map_values(|v: u32| v as int) == global_indices(clusters@.take(i as int), local@),
    {
        let c = clusters[i];
        assert(cluster_fits(clusters@[i as int], local@));
        let ghost before = out@;
        let n: u64 = 3 * c.triangle_count as u64;
        let mut k: u64 = 0;
        while k < n
            invariant
                n == 3 * c.triangle_count,
                k <= n,
                cluster_fits(c, local@),
                out@.len() == before.len() + k,
                forall|j: int| 0 <= j < before.len() ==> out@[j] == before[j],
                forall|j: int|
                    0 <= j < k ==> #[trigger] out@[before.len() + j] == cluster_indices(
                        c,
                        local@,
                    )[j],
            decreases n - k,
        {
            assert(c.index_offset + k < local.len());
            let at: usize = (c.index_offset as u64 + k) as usize;
            let v: u32 = local[at];
            assert(c.vertex_offset + local@[at as int] <= u32::MAX);
            out.push(c.vertex_offset + v);
            k = k + 1;
        }
        proof {
            let now = clusters@.take(i + 1);
            assert(now.drop_last() =~= clusters@.take(i as int));
            assert(now.last() == c);
            assert forall|j: int| 0 <= j < out@.len() implies out@.map_values(|v: u32| v as int)[j]
                == global_indices(now, local@)[j] by {
                if j < before.len() {
                    assert(before.map_values(|v: u32| v as int)[j] == before[j]);
                } else {
                    assert(out@[before.len() + (j - before.len())] == cluster_indices(c, local@)[j
                        - before.len()]);
                }
            }
            assert(before.map_values(|v: u32| v as int).len() == before.len());
            assert(out@.map_values(|v: u32| v as int) =~= global_indices(now, local@));
        }
    }
    assert(clusters@.take(clusters@.len() as int) =~= clusters@);
    out
}

/// What becomes of a bake.
pub enum OmmOutcome {
    /// It is attached: so many micromaps, so many bytes of array data.
    Attach { omms: usize, bytes: usize },
    /// The texture is wholly uniform: special indices only.
    Uniform,
    /// The baker's index count is not the triangle count.
    Mismatch { indices: usize, triangles: usize },
}

/// Decides whether a bake is attached to a mesh of `index_count` indices.
pub fn judge_bake(bake: &OmmBake, index_count: usize) -> (r: OmmOutcome)
    ensures
        r == (if bake.descs@.len() == 0 {
            OmmOutcome::Uniform
        } else if bake.indices@.len() * 3 != index_count {
            OmmOutcome::Mismatch {
                indices: bake.indices@.len() as usize,
                triangles: (index_count / 3) as usize,
            }
        } else {
            OmmOutcome::Attach {
                omms: bake.descs@.len() as usize,
                bytes: bake.array_data@.len() as usize,
            }
        }),
        r == outcome_of(
            bake.descs@.len(),
            bake.indices@.len(),
            bake.array_data@.len(),
            index_count,
        ),
{
    if bake.descs.len() == 0 {
        return OmmOutcome::Uniform;
    }
    let whole = index_count % 3 == 0 && bake.indices.len() == index_count / 3;
    if !whole {
        return OmmOutcome::Mismatch { indices: bake.indices.len(), triangles: index_count / 3 };
    }
    OmmOutcome::Attach { omms: bake.descs.len(), bytes: bake.array_data.len() }
}

/// The top four values of a width are the special indices, from -1 at the top down to -4; every
/// other value of eight or sixteen bits is itself, however large.
pub proof fn special_indices_count_down(k: int, u: int)
    requires
        1 <= k <= 4,
        0 <= u,
    ensures
        omm_index(256 - k, 1) == -k,
        omm_index(65536 - k, 2) == -k,
        omm_index(4294967296 - k, 4) == -k,
        u < 252 ==> omm_index(u, 1) == u,
        u < 65532 ==> omm_index(u, 2) == u,
        u < 2147483648 ==> omm_index(u, 4) == u,
{
}

/// Bytes are read with the lowest first, as many as the baker's format is wide: two for sixteen
/// bits, one for eight, four for thirty-two.
pub proof fn indices_are_little_endian(bytes: Seq<u8>, at: int, width: int)
    ensures
        index_width(0) == 2,
        index_width(2) == 1,
        index_width(1) == 4,
        le_value(bytes, at, 1) == bytes[at],
        le_value(bytes, at, 2) == bytes[at] + 256 * bytes[at + 1],
        le_value(bytes, at, 4) == le_value(bytes, at, 2) + 65536 * le_value(bytes, at + 2, 2),
{
}

/// A cluster's triangles keep their order, and each of their indices is moved by the number of
/// vertices before the cluster; clusters follow each other.
pub proof fn clusters_follow_in_order(clusters: Seq<ClusterSpan>, c: ClusterSpan, local: Seq<u32>, k: int)
    requires
        0 <= k < 3 * c.triangle_count,
    ensures
        global_indices(clusters.push(c), local).len() == global_indices(clusters, local).len() + 3
            * c.triangle_count,
        global_indices(clusters, local).is_prefix_of(global_indices(clusters.push(c), local)),
        global_indices(clusters.push(c), local)[global_indices(clusters, local).len() + k]
            == local[c.index_offset + k] + c.vertex_offset,
        global_indices(Seq::<ClusterSpan>::empty(), local).len() == 0,
{
    assert(clusters.push(c).drop_last() =~= clusters);
}

/// A bake's inputs agree only where there is one alpha for each texel and whole triangles and
/// texture coordinates: one number too many or too few of any and they do not.
pub proof fn shapes_must_agree(s: BakeShape)
    requires
        bakeable(s),
    ensures
        s.alpha_len == s.width * s.height,
        exists|n: int| s.uvs_len == #[trigger] (2 * n),
        exists|n: int| s.indices_len == #[trigger] (3 * n),
        forall|n: usize| n != s.alpha_len ==> !#[trigger] bakeable(BakeShape { alpha_len: n, ..s }),
{
    assert(s.uvs_len == 2 * (s.uvs_len as int / 2));
    assert(s.indices_len == 3 * (s.indices_len as int / 3));
}

/// The format for a number of states.
pub open spec fn format_for(requested: u32) -> u32 {
    if requested == 4 {
        OMM_FORMAT_OC1_4_STATE
    } else {
        OMM_FORMAT_OC1_2_STATE
    }
}

/// Four states have a format of their own, and any other number the one of two states.
pub proof fn formats_are_told_apart(n: u32)
    ensures
        format_for(4) == 2,
        n != 4 ==> format_for(n) == 1,
{
}

/// What becomes of a bake, by how many descriptions, indices and bytes it has.
pub open spec fn outcome_of(descs: nat, indices: nat, bytes: nat, index_count: usize) -> OmmOutcome {
    if descs == 0 {
        OmmOutcome::Uniform
    } else if indices * 3 != index_count {
        OmmOutcome::Mismatch { indices: indices as usize, triangles: (index_count / 3) as usize }
    } else {
        OmmOutcome::Attach { omms: descs as usize, bytes: bytes as usize }
    }
}

/// A bake is attached exactly where it describes something and has an index for each triangle; else
/// it is uniform, or does not match.
pub proof fn bakes_match_their_triangles(descs: nat, indices: nat, bytes: nat, triangles: usize)
    requires
        3 * triangles <= usize::MAX,
        descs <= usize::MAX,
        indices <= usize::MAX,
        bytes <= usize::MAX,
    ensures
        ({
            let r = outcome_of(descs, indices, bytes, (3 * triangles) as usize);
            &&& r is Uniform <==> descs == 0
            &&& r is Attach <==> descs > 0 && indices == triangles
            &&& r matches OmmOutcome::Attach { omms, bytes: b } ==> omms == descs && b == bytes
            &&& r matches OmmOutcome::Mismatch { indices: i, triangles: t } ==> i == indices && t
                == triangles
        }),
{
}

/// The `i`-th index of the baker's buffer.
pub open spec fn nth_index(bytes: Seq<u8>, width: int, i: int) -> int {
    omm_index(le_value(bytes, i * width, width), width)
}

/// Indices stand one behind the other, each in as many bytes as its width, lowest first. The top
/// four values of a width are special, and every other is itself.
pub proof fn indices_stand_in_order(bytes: Seq<u8>, i: int)
    ensures
        bytes[i] < 252 ==> nth_index(bytes, 1, i) == bytes[i],
        bytes[i] >= 252 ==> nth_index(bytes, 1, i) == bytes[i] - 256,
        bytes[2 * i] + 256 * bytes[2 * i + 1] < 65532 ==> nth_index(bytes, 2, i) == bytes[2 * i] + 256
            * bytes[2 * i + 1],
        bytes[2 * i] + 256 * bytes[2 * i + 1] >= 65532 ==> nth_index(bytes, 2, i) == bytes[2 * i] + 256
            * bytes[2 * i + 1] - 65536,
        bytes[4 * i + 3] < 128 ==> nth_index(bytes, 4, i) == bytes[4 * i] + 256 * (bytes[4 * i + 1] + 256
            * (bytes[4 * i + 2] + 256 * bytes[4 * i + 3])),
{
    indices_are_little_endian(bytes, i * 1, 1);
    indices_are_little_endian(bytes, i * 2, 2);
    indices_are_little_endian(bytes, i * 4, 4);
    indices_are_little_endian(bytes, i * 4 + 2, 4);
}

/// Inputs agree wherever there is one alpha for each texel and there are whole texture coordinates
/// and whole triangles, as many as there may be.
pub proof fn whole_shapes_agree(w: u32, h: u32, n: int, m: int, s: BakeShape)
    requires
        s.width == w,
        s.height == h,
        w * h <= u32::MAX,
        s.alpha_len == w * h,
        s.uvs_len == 2 * n,
        s.indices_len == 3 * m,
    ensures
        bakeable(s),
{
}

} // verus!
