//! Reading a document's animation channels, and packing them into a clip.

use gltf::animation::util::ReadOutputs;
use vstd::prelude::*;
use crate::clip_targets::{
    arranged, gathered, is_clip, list_paths, named, opt_times, paths_le, sample_views,
    transcode_animclip, tree_paths, Clip, Keys, KeysView, Sample, SampleView,
};
use crate::document::{
    document_error, node_heads, opt_indices, parsable, parse_document, Document,
};
use crate::order;
use crate::tree::{grow_all, is_tree_of, within, SceneNode};

verus! {

/// What a channel animates.
#[derive(Clone, Copy, Debug)]
pub enum Animated {
    Translation,
    Rotation,
    Scale,
    Weights,
}

/// How a channel goes from one key to the next.
#[derive(Clone, Copy, Debug)]
pub enum Curve {
    Linear,
    Step,
    CubicSpline,
}

/// The node that a channel targets, and what it animates there, where that is known.
#[derive(Clone, Copy, Debug)]
pub struct TargetRecord {
    pub node: usize,
    pub path: Option<Animated>,
}

/// How a channel is sampled: its curve, and the accessors of its times and its values.
#[derive(Clone, Copy, Debug)]
pub struct SamplerRecord {
    pub curve: Curve,
    pub input: usize,
    pub output: usize,
}

/// The values that deviate in a sparse accessor: how many, and where their indices and they stand.
#[derive(Clone, Copy, Debug)]
pub struct SparseRecord {
    pub count: usize,
    pub index_size: usize,
    pub index_offset: usize,
    pub index_view: usize,
    pub value_offset: usize,
    pub value_view: usize,
}

/// An accessor: the code of its component type, its item size, how many items it has and where.
#[derive(Clone, Copy, Debug)]
pub struct AccessorRecord {
    pub component: u32,
    pub size: usize,
    pub count: usize,
    pub offset: usize,
    pub view: Option<usize>,
    pub sparse: Option<SparseRecord>,
}

/// A buffer view: a range of a buffer, and the distance between items where it gives one.
#[derive(Clone, Copy, Debug)]
pub struct ViewRecord {
    pub buffer: usize,
    pub offset: usize,
    pub length: usize,
    pub stride: Option<usize>,
}

/// The targets of the channels of all the document's animations, or what is wrong with it.
pub uninterp spec fn gltf_targets(bytes: Seq<u8>) -> Result<Seq<TargetRecord>, Seq<char>>;

/// How the channels of all the document's animations are sampled.
pub uninterp spec fn gltf_samplers(bytes: Seq<u8>) -> Result<Seq<SamplerRecord>, Seq<char>>;

/// The accessors of the document.
pub uninterp spec fn gltf_accessors(bytes: Seq<u8>) -> Result<Seq<AccessorRecord>, Seq<char>>;

/// The buffer views of the document.
pub uninterp spec fn gltf_views(bytes: Seq<u8>) -> Result<Seq<ViewRecord>, Seq<char>>;

/// The times of the channels that `picks` lists, as float bits, where they can be had.
pub uninterp spec fn gltf_times(
    bytes: Seq<u8>,
    buffers: Seq<Seq<u8>>,
    picks: Seq<usize>,
) -> Result<Seq<Option<Seq<u32>>>, Seq<char>>;

/// The values of the channels that `picks` lists, as float bits, where they can be had.
pub uninterp spec fn gltf_values(
    bytes: Seq<u8>,
    buffers: Seq<Seq<u8>>,
    picks: Seq<usize>,
) -> Result<Seq<Option<Seq<u32>>>, Seq<char>>;

/// What a channel's values are, by what it animates: weights move no node.
pub open spec fn keys_for(path: Option<Animated>, values: Option<Seq<u32>>) -> KeysView {
    match (path, values) {
        (Some(Animated::Translation), Some(v)) => KeysView::Translations(v),
        (Some(Animated::Rotation), Some(v)) => KeysView::Rotations(v),
        (Some(Animated::Scale), Some(v)) => KeysView::Scales(v),
        _ => KeysView::Other,
    }
}

/// Whether `count` items of `size` bytes can be addressed from `offset` in a view: there is an
/// item, items do not overlap, and no address exceeds the machine's.
pub open spec fn span_fits(view: ViewRecord, offset: int, count: int, size: int) -> bool {
    let stride = match view.stride {
        Some(s) => s as int,
        None => size,
    };
    &&& count >= 1
    &&& stride >= size
    &&& offset + stride * (count - 1) + size <= usize::MAX
    &&& view.offset + view.length <= usize::MAX
}

/// Whether items of `size` bytes can be read through an accessor.
pub open spec fn accessor_fits(a: AccessorRecord, views: Seq<ViewRecord>, size: int) -> bool {
    &&& a.view matches Some(v) ==> v < views.len() && span_fits(
        views[v as int],
        a.offset as int,
        a.count as int,
        size,
    )
    &&& match a.sparse {
        None => a.size == size,
        Some(s) => {
            &&& a.count <= u32::MAX
            &&& s.index_view < views.len() && span_fits(
                views[s.index_view as int],
                s.index_offset as int,
                s.count as int,
                s.index_size as int,
            )
            &&& s.value_view < views.len() && span_fits(
                views[s.value_view as int],
                s.value_offset as int,
                s.count as int,
                size,
            )
        },
    }
}

/// The bytes of a component that a rotation or a weight can be stored in: a signed or unsigned
/// byte, a signed or unsigned short, or a float.
pub open spec fn component_bytes(component: u32) -> Option<usize> {
    if component == 5120 || component == 5121 {
        Some(1)
    } else if component == 5122 || component == 5123 {
        Some(2)
    } else if component == 5126 {
        Some(4)
    } else {
        None
    }
}

/// The bytes of one value of a channel, by what it animates and by its components.
pub open spec fn value_bytes(path: Animated, component: u32) -> Option<int> {
    match (path, component_bytes(component)) {
        (Animated::Translation, _) => Some(12),
        (Animated::Scale, _) => Some(12),
        (Animated::Rotation, Some(n)) => Some(4 * n),
        (Animated::Weights, Some(n)) => Some(n as int),
        _ => None,
    }
}

/// Whether a channel's times and values can be read.
pub open spec fn channel_fits(
    target: TargetRecord,
    sampler: SamplerRecord,
    nodes: int,
    accessors: Seq<AccessorRecord>,
    views: Seq<ViewRecord>,
) -> bool {
    &&& target.node < nodes
    &&& sampler.input < accessors.len()
    &&& sampler.output < accessors.len()
    &&& accessor_fits(accessors[sampler.input as int], views, 4)
    &&& target.path matches Some(path) && value_bytes(
        path,
        accessors[sampler.output as int].component,
    ) matches Some(size) && accessor_fits(accessors[sampler.output as int], views, size)
}

/// The channels that are linear, in order.
pub open spec fn linear_channels(samplers: Seq<SamplerRecord>) -> Seq<usize>
    decreases samplers.len(),
{
    if samplers.len() == 0 {
        seq![]
    } else if samplers.last().curve is Linear {
        linear_channels(samplers.drop_last()).push((samplers.len() - 1) as usize)
    } else {
        linear_channels(samplers.drop_last())
    }
}

/// Whether every linear channel can be read.
pub open spec fn channels_fit(
    targets: Seq<TargetRecord>,
    samplers: Seq<SamplerRecord>,
    nodes: int,
    accessors: Seq<AccessorRecord>,
    views: Seq<ViewRecord>,
) -> bool {
    forall|i: int|
        #![trigger samplers[i]]
        0 <= i < samplers.len() && samplers[i].curve is Linear ==> channel_fits(
            targets[i],
            samplers[i],
            nodes,
            accessors,
            views,
        )
}

/// Whether channel `i` of the document that bytes hold can be read.
pub open spec fn can_read(bytes: Seq<u8>, i: int) -> bool {
    &&& gltf_targets(bytes) matches Ok(targets) && gltf_samplers(bytes) matches Ok(samplers)
        && gltf_accessors(bytes) matches Ok(accessors) && gltf_views(bytes) matches Ok(views)
        && crate::document::gltf_nodes(bytes) matches Ok(nodes) && 0 <= i < targets.len() && i
        < samplers.len() && channel_fits(
        targets[i],
        samplers[i],
        nodes.len() as int,
        accessors,
        views,
    )
}

/// The samples of a document's channels: the linear ones have their times and values, in order.
pub open spec fn joined(
    targets: Seq<TargetRecord>,
    samplers: Seq<SamplerRecord>,
    times: Seq<Option<Seq<u32>>>,
    values: Seq<Option<Seq<u32>>>,
) -> Seq<SampleView>
    decreases samplers.len(),
{
    if samplers.len() == 0 {
        seq![]
    } else {
        let TargetRecord { node, path } = targets.last();
        let (less, rest) = (targets.drop_last(), samplers.drop_last());
        if samplers.last().curve is Linear {
            joined(less, rest, times.drop_last(), values.drop_last()).push(
                SampleView {
                    node,
                    linear: true,
                    times: times.last(),
                    keys: keys_for(path, values.last()),
                },
            )
        } else {
            joined(less, rest, times, values).push(
                SampleView { node, linear: false, times: None, keys: KeysView::Other },
            )
        }
    }
}

/// What a list of read times or values holds.
pub open spec fn read_lists(times: Seq<Option<Vec<u32>>>) -> Seq<Option<Seq<u32>>> {
    times.map_values(|t: Option<Vec<u32>>| opt_times(t))
}

/// What a list of buffers holds.
pub open spec fn buffer_views(buffers: Seq<Vec<u8>>) -> Seq<Seq<u8>> {
    buffers.map_values(|b: Vec<u8>| b@)
}

/// Parses with `gltf::Gltf::from_slice` and hands out, for each channel of the animations of
/// `Document::as_json`, the node and the property that it targets; parsing checks neither. The
/// result depends on the bytes alone.
#[verifier::external_body]
fn read_targets(bytes: &Vec<u8>) -> (r: Result<Vec<TargetRecord>, String>)
    requires
        parsable(bytes@),
    ensures
        match r {
            Ok(v) => gltf_targets(bytes@) == Ok::<_, Seq<char>>(v@),
            Err(e) => gltf_targets(bytes@) == Err::<Seq<TargetRecord>, _>(e@),
        },
{
    let g = gltf::Gltf::from_slice(bytes).map_err(|e| e.to_string())?;
    let channels = g.as_json().animations.iter().flat_map(|a| a.channels.iter());
    Ok(channels.map(|c| TargetRecord {
        node: c.target.node.value(),
        path: match c.target.path {
            gltf::json::validation::Checked::Valid(p) => Some(match p {
                gltf::animation::Property::Translation => Animated::Translation,
                gltf::animation::Property::Rotation => Animated::Rotation,
                gltf::animation::Property::Scale => Animated::Scale,
                gltf::animation::Property::MorphTargetWeights => Animated::Weights,
            }),
            gltf::json::validation::Checked::Invalid => None,
        },
    }).collect())
}

/// Parses with `gltf::Gltf::from_slice` and hands out, for each channel of `Document::animations`,
/// the interpolation of its sampler and the accessors that `Sampler::input` and `Sampler::output`
/// name: one for each channel that has a target. The result depends on the bytes alone.
#[verifier::external_body]
fn read_samplers(bytes: &Vec<u8>) -> (r: Result<Vec<SamplerRecord>, String>)
    requires
        parsable(bytes@),
    ensures
        match r {
            Ok(v) => gltf_samplers(bytes@) == Ok::<_, Seq<char>>(v@) && (
            gltf_targets(bytes@) matches Ok(t) ==> t.len() == v@.len()),
            Err(e) => gltf_samplers(bytes@) == Err::<Seq<SamplerRecord>, _>(e@),
        },
{
    let g = gltf::Gltf::from_slice(bytes).map_err(|e| e.to_string())?;
    let channels = g.animations().flat_map(|a| a.channels());
    Ok(channels.map(|c| SamplerRecord {
        curve: match c.sampler().interpolation() {
            gltf::animation::Interpolation::Linear => Curve::Linear,
            gltf::animation::Interpolation::Step => Curve::Step,
            gltf::animation::Interpolation::CubicSpline => Curve::CubicSpline,
        },
        input: c.sampler().input().index(),
        output: c.sampler().output().index(),
    }).collect())
}

/// Parses with `gltf::Gltf::from_slice` and hands out `Document::accessors`: the code of the
/// component type, `Accessor::size`, `count`, `offset`, `view` and `sparse`. The result depends on
/// the bytes alone.
#[verifier::external_body]
pub(crate) fn read_accessors(bytes: &Vec<u8>) -> (r: Result<Vec<AccessorRecord>, String>)
    requires
        parsable(bytes@),
    ensures
        match r {
            Ok(v) => gltf_accessors(bytes@) == Ok::<_, Seq<char>>(v@),
            Err(e) => gltf_accessors(bytes@) == Err::<Seq<AccessorRecord>, _>(e@),
        },
{
    let g = gltf::Gltf::from_slice(bytes).map_err(|e| e.to_string())?;
    Ok(g.accessors().map(|a| AccessorRecord {
        component: a.data_type().as_gl_enum(),
        size: a.size(), count: a.count(), offset: a.offset(),
        view: a.view().map(|v| v.index()),
        sparse: a.sparse().map(|s| SparseRecord {
            count: s.count(),
            index_size: s.indices().index_type().size(),
            index_offset: s.indices().offset(),
            index_view: s.indices().view().index(),
            value_offset: s.values().offset(),
            value_view: s.values().view().index()
        })
    }).collect())
}

/// Parses with `gltf::Gltf::from_slice` and hands out `Document::views`: the index of
/// `View::buffer`, `View::offset`, `length` and `stride`. The result depends on the bytes alone.
#[verifier::external_body]
pub(crate) fn read_views(bytes: &Vec<u8>) -> (r: Result<Vec<ViewRecord>, String>)
    requires
        parsable(bytes@),
    ensures
        match r {
            Ok(v) => gltf_views(bytes@) == Ok::<_, Seq<char>>(v@),
            Err(e) => gltf_views(bytes@) == Err::<Seq<ViewRecord>, _>(e@),
        },
{
    let g = gltf::Gltf::from_slice(bytes).map_err(|e| e.to_string())?;
    Ok(g.views().map(|v| ViewRecord {
        buffer: v.buffer().index(),
        offset: v.offset(),
        length: v.length(),
        stride: v.stride(),
    }).collect())
}

/// Parses with `gltf::Gltf::from_slice` and hands out what `Reader::read_inputs` of each picked
/// channel gives, as float bits. It returns where the accessors and views keep to what `can_read`
/// says. The result depends on the bytes, the buffers and the picks alone.
#[verifier::external_body]
fn read_times(bytes: &Vec<u8>, buffers: &Vec<Vec<u8>>, picks: &Vec<usize>) -> (r: Result<
    Vec<Option<Vec<u32>>>,
    String,
>)
    requires
        parsable(bytes@),
        forall|i: int| 0 <= i < picks@.len() ==> can_read(bytes@, #[trigger] picks@[i] as int),
    ensures
        match r {
            Ok(v) => gltf_times(bytes@, buffer_views(buffers@), picks@) == Ok::<_, Seq<char>>(
                read_lists(v@),
            ) && v@.len() == picks@.len(),
            Err(e) => gltf_times(bytes@, buffer_views(buffers@), picks@) == Err::<
                Seq<Option<Seq<u32>>>,
                _,
            >(e@),
        },
{
    let g = gltf::Gltf::from_slice(bytes).map_err(|e| e.to_string())?;
    let all: Vec<_> = g.animations().flat_map(|a| a.channels()).collect();
    Ok(picks.iter().map(|i| {
        let reader = all[*i].reader(|b| buffers.get(b.index()).map(|d| d.as_slice()));
        reader.read_inputs().map(|t| t.map(|x| x.to_bits()).collect())
    }).collect())
}

/// Parses with `gltf::Gltf::from_slice` and hands out what `Reader::read_outputs` of each picked
/// channel gives, as float bits, rotations by `Rotations::into_f32`; nothing of weights. It
/// returns where the accessors and views keep to what `can_read` says. The result depends on the
/// bytes, the buffers and the picks alone.
#[verifier::external_body]
fn read_values(bytes: &Vec<u8>, buffers: &Vec<Vec<u8>>, picks: &Vec<usize>) -> (r: Result<
    Vec<Option<Vec<u32>>>,
    String,
>)
    requires
        parsable(bytes@),
        forall|i: int| 0 <= i < picks@.len() ==> can_read(bytes@, #[trigger] picks@[i] as int),
    ensures
        match r {
            Ok(v) => gltf_values(bytes@, buffer_views(buffers@), picks@) == Ok::<_, Seq<char>>(
                read_lists(v@),
            ) && v@.len() == picks@.len(),
            Err(e) => gltf_values(bytes@, buffer_views(buffers@), picks@) == Err::<
                Seq<Option<Seq<u32>>>,
                _,
            >(e@),
        },
{
    let g = gltf::Gltf::from_slice(bytes).map_err(|e| e.to_string())?;
    let all: Vec<_> = g.animations().flat_map(|a| a.channels()).collect();
    Ok(picks.iter().map(|i| {
        Some(match all[*i].reader(
            |b| buffers.get(b.index()).map(Vec::as_slice)).read_outputs()? {
            ReadOutputs::Translations(v) | ReadOutputs::Scales(v) => v.flatten().map(
                |x| x.to_bits()).collect(),
            ReadOutputs::Rotations(v) => v.into_f32().flatten().map(|x| x.to_bits()).collect(),
            ReadOutputs::MorphTargetWeights(_) => vec![]
        })
    }).collect())
}

/// Tests whether items can be addressed in a view.
fn is_span_fitting(view: &ViewRecord, offset: usize, count: usize, size: usize) -> (r: bool)
    ensures
        r == span_fits(*view, offset as int, count as int, size as int),
{
    let stride: usize = match view.stride {
        Some(s) => s,
        None => size,
    };
    if count < 1 || stride < size {
        return false;
    }
    if view.length > usize::MAX - view.offset {
        return false;
    }
    let ghost reach = stride * (count - 1);
    match stride.checked_mul(count - 1) {
        None => {
            assert(reach > usize::MAX);
            false
        },
        Some(n) => {
            assert(n == reach);
            n <= usize::MAX - offset && size <= usize::MAX - offset - n
        },
    }
}

/// Tests whether items of a size can be read through an accessor.
pub(crate) fn is_accessor_fitting(a: &AccessorRecord, views: &Vec<ViewRecord>, size: usize) -> (r: bool)
    ensures
        r == accessor_fits(*a, views@, size as int),
{
    if let Some(v) = a.view {
        if v >= views.len() || !is_span_fitting(&views[v], a.offset, a.count, size) {
            return false;
        }
    }
    match a.sparse {
        None => a.size == size,
        Some(s) => a.count <= u32::MAX as usize && s.index_view < views.len() && is_span_fitting(
            &views[s.index_view],
            s.index_offset,
            s.count,
            s.index_size,
        ) && s.value_view < views.len() && is_span_fitting(
            &views[s.value_view],
            s.value_offset,
            s.count,
            size,
        ),
    }
}

fn count_value_bytes(path: Animated, component: u32) -> (r: Option<usize>)
    ensures
        match r {
            Some(n) => value_bytes(path, component) == Some(n as int),
            None => value_bytes(path, component) is None,
        },
{
    let part: Option<usize> = if component == 5120 || component == 5121 {
        Some(1)
    } else if component == 5122 || component == 5123 {
        Some(2)
    } else if component == 5126 {
        Some(4)
    } else {
        None
    };
    match path {
        Animated::Translation => Some(12),
        Animated::Scale => Some(12),
        Animated::Rotation => match part {
            Some(n) => Some(4 * n),
            None => None,
        },
        Animated::Weights => part,
    }
}

/// Tests whether a channel's times and values can be read.
pub fn is_channel_fitting(
    target: &TargetRecord,
    sampler: &SamplerRecord,
    nodes: usize,
    accessors: &Vec<AccessorRecord>,
    views: &Vec<ViewRecord>,
) -> (r: bool)
    ensures
        r == channel_fits(*target, *sampler, nodes as int, accessors@, views@),
{
    if target.node >= nodes || sampler.input >= accessors.len() || sampler.output
        >= accessors.len() || !is_accessor_fitting(&accessors[sampler.input], views, 4) {
        return false;
    }
    match target.path {
        None => false,
        Some(path) => match count_value_bytes(path, accessors[sampler.output].component) {
            None => false,
            Some(size) => is_accessor_fitting(&accessors[sampler.output], views, size),
        },
    }
}

/// Lists the linear channels, where each of them can be read.
pub fn pick_channels(
    targets: &Vec<TargetRecord>,
    samplers: &Vec<SamplerRecord>,
    nodes: usize,
    accessors: &Vec<AccessorRecord>,
    views: &Vec<ViewRecord>,
) -> (r: Option<Vec<usize>>)
    requires
        targets@.len() == samplers@.len(),
    ensures
        match r {
            Some(v) => {
                &&& channels_fit(targets@, samplers@, nodes as int, accessors@, views@)
                &&& v@ == linear_channels(samplers@)
                &&& forall|k: int|
                    0 <= k < v@.len() ==> (#[trigger] v@[k]) < samplers@.len()
                        && samplers@[v@[k] as int].curve is Linear
            },
            None => !channels_fit(targets@, samplers@, nodes as int, accessors@, views@),
        },
{
    let mut out: Vec<usize> = Vec::new();
    for i in 0..samplers.len()
        invariant
            targets@.len() == samplers@.len(),
            out@ == linear_channels(samplers@.take(i as int)),
            forall|k: int|
                0 <= k < out@.len() ==> (#[trigger] out@[k]) < i
                    && samplers@[out@[k] as int].curve is Linear,
            forall|k: int|
                #![trigger samplers@[k]]
                0 <= k < i && samplers@[k].curve is Linear ==> channel_fits(
                    targets@[k],
                    samplers@[k],
                    nodes as int,
                    accessors@,
                    views@,
                ),
    {
        assert(samplers@.take(i + 1).drop_last() =~= samplers@.take(i as int));
        assert(samplers@.take(i + 1).last() == samplers@[i as int]);
        if let Curve::Linear = samplers[i].curve {
            if !is_channel_fitting(&targets[i], &samplers[i], nodes, accessors, views) {
                assert(samplers@[i as int].curve is Linear);
                return None;
            }
            out.push(i);
        }
    }
    assert(samplers@.take(samplers@.len() as int) =~= samplers@);
    Some(out)
}

proof fn lemma_linear_bound(samplers: Seq<SamplerRecord>, k: int)
    requires
        0 <= k <= samplers.len(),
    ensures
        linear_channels(samplers.take(k)).len() <= linear_channels(samplers).len(),
    decreases samplers.len() - k,
{
    if k < samplers.len() {
        assert(samplers.take(k + 1).drop_last() =~= samplers.take(k));
        lemma_linear_bound(samplers, k + 1);
    } else {
        assert(samplers.take(k) =~= samplers);
    }
}

fn keep_keys(path: Option<Animated>, values: &Option<Vec<u32>>) -> (r: Keys)
    ensures
        r@ == keys_for(path, opt_times(*values)),
{
    match copy_times(values) {
        Some(v) => match path {
            Some(Animated::Translation) => Keys::Translations(v),
            Some(Animated::Rotation) => Keys::Rotations(v),
            Some(Animated::Scale) => Keys::Scales(v),
            _ => Keys::Other,
        },
        None => Keys::Other,
    }
}

fn copy_times(t: &Option<Vec<u32>>) -> (r: Option<Vec<u32>>)
    ensures
        opt_times(r) == opt_times(*t),
{
    match t {
        Some(v) => {
            let c = v.clone();
            assert(c@ =~= v@);
            Some(c)
        },
        None => None,
    }
}

/// Joins channels with what was read of the linear ones.
pub fn join_samples(
    targets: &Vec<TargetRecord>,
    samplers: &Vec<SamplerRecord>,
    times: &Vec<Option<Vec<u32>>>,
    values: &Vec<Option<Vec<u32>>>,
) -> (r: Vec<Sample>)
    requires
        targets@.len() == samplers@.len(),
        times@.len() == linear_channels(samplers@).len(),
        values@.len() == linear_channels(samplers@).len(),
    ensures
        sample_views(r@) == joined(targets@, samplers@, read_lists(times@), read_lists(values@)),
{
    let mut out: Vec<Sample> = Vec::new();
    let mut at: usize = 0;
    let ghost ts = read_lists(times@);
    let ghost ks = read_lists(values@);
    assert(sample_views(out@) =~= joined(
        targets@.take(0),
        samplers@.take(0),
        ts.take(0),
        ks.take(0),
    ));
    for i in 0..samplers.len()
        invariant
            targets@.len() == samplers@.len(),
            times@.len() == linear_channels(samplers@).len(),
            values@.len() == linear_channels(samplers@).len(),
            ts == read_lists(times@),
            ks == read_lists(values@),
            at == linear_channels(samplers@.take(i as int)).len(),
            at <= times@.len(),
            sample_views(out@) == joined(
                targets@.take(i as int),
                samplers@.take(i as int),
                ts.take(at as int),
                ks.take(at as int),
            ),
    {
        assert(samplers@.take(i + 1).drop_last() =~= samplers@.take(i as int));
        assert(samplers@.take(i + 1).last() == samplers@[i as int]);
        assert(targets@.take(i + 1).drop_last() =~= targets@.take(i as int));
        let ghost before = out@;
        let node: usize = targets[i].node;
        let sample = if let Curve::Linear = samplers[i].curve {
            proof {
                lemma_linear_bound(samplers@, i + 1);
                assert(linear_channels(samplers@.take(i + 1)).len() == at + 1);
                assert(ts.take(at + 1).drop_last() =~= ts.take(at as int));
                assert(ks.take(at + 1).drop_last() =~= ks.take(at as int));
            }
            let s = Sample {
                node,
                linear: true,
                times: copy_times(&times[at]),
                keys: keep_keys(targets[i].path, &values[at]),
            };
            assert(at < times.len());
            at = at + 1;
            s
        } else {
            Sample { node, linear: false, times: None, keys: Keys::Other }
        };
        let ghost v = sample@;
        out.push(sample);
        assert(sample_views(out@) =~= sample_views(before).push(v));
    }
    assert(samplers@.take(samplers@.len() as int) =~= samplers@);
    assert(targets@.take(targets@.len() as int) =~= targets@);
    assert(ts.take(at as int) =~= ts);
    assert(ks.take(at as int) =~= ks);
    out
}

/// The samples that bytes and buffers hold.
pub open spec fn read_samples(bytes: Seq<u8>, buffers: Seq<Seq<u8>>) -> Seq<SampleView> {
    let samplers = gltf_samplers(bytes)->Ok_0;
    let picks = linear_channels(samplers);
    joined(
        gltf_targets(bytes)->Ok_0,
        samplers,
        gltf_times(bytes, buffers, picks)->Ok_0,
        gltf_values(bytes, buffers, picks)->Ok_0,
    )
}

/// What keeps the channels of a document that can be read from being read, where anything does: the
/// first part that cannot be.
pub open spec fn channel_error(bytes: Seq<u8>, buffers: Seq<Seq<u8>>) -> Option<Seq<char>> {
    let picks = linear_channels(gltf_samplers(bytes)->Ok_0);
    if gltf_targets(bytes) is Err {
        Some(gltf_targets(bytes)->Err_0)
    } else if gltf_samplers(bytes) is Err {
        Some(gltf_samplers(bytes)->Err_0)
    } else if gltf_accessors(bytes) is Err {
        Some(gltf_accessors(bytes)->Err_0)
    } else if gltf_views(bytes) is Err {
        Some(gltf_views(bytes)->Err_0)
    } else if !channels_fit(
        gltf_targets(bytes)->Ok_0,
        gltf_samplers(bytes)->Ok_0,
        crate::document::gltf_nodes(bytes)->Ok_0.len() as int,
        gltf_accessors(bytes)->Ok_0,
        gltf_views(bytes)->Ok_0,
    ) {
        Some("an animation channel cannot be read"@)
    } else if gltf_times(bytes, buffers, picks) is Err {
        Some(gltf_times(bytes, buffers, picks)->Err_0)
    } else if gltf_values(bytes, buffers, picks) is Err {
        Some(gltf_values(bytes, buffers, picks)->Err_0)
    } else {
        None
    }
}

/// What keeps the animations of bytes and buffers from being read, where anything does.
pub open spec fn clip_error(bytes: Seq<u8>, buffers: Seq<Seq<u8>>) -> Option<Seq<char>> {
    if document_error(bytes) is Some {
        document_error(bytes)
    } else {
        channel_error(bytes, buffers)
    }
}

/// Whether the nodes below a document's roots end.
pub open spec fn is_rooted(doc: Document) -> bool {
    doc.roots matches Some(v) ==> forall|k: int|
        0 <= k < v@.len() ==> #[trigger] within(doc.nodes@, v@[k] as int, doc.nodes@.len())
}

/// Whether trees are those of a document's roots; none where it has no scene.
pub open spec fn are_trees(doc: Document, trees: Seq<SceneNode>) -> bool {
    match doc.roots {
        Some(v) => trees.len() == v@.len() && forall|k: int|
            0 <= k < trees.len() ==> #[trigger] is_tree_of(trees[k], doc.nodes@, v@[k] as int),
        None => trees.len() == 0,
    }
}

/// Whether a clip is that of a document, whose roots end in the given trees.
pub open spec fn is_packed(
    clip: Clip,
    doc: Document,
    trees: Seq<SceneNode>,
    samples: Seq<SampleView>,
) -> bool {
    is_rooted(doc) && are_trees(doc, trees) && is_clip(clip, doc, trees, samples)
}

/// Whether a clip is that of a document, whose roots have trees.
pub open spec fn packs(clip: Clip, doc: Document, samples: Seq<SampleView>) -> bool {
    exists|trees: Seq<SceneNode>| #[trigger] is_packed(clip, doc, trees, samples)
}

/// Whether a clip is that of the document that bytes hold, with the samples of bytes and buffers.
pub open spec fn is_clip_of(clip: Clip, bytes: Seq<u8>, buffers: Seq<Seq<u8>>, doc: Document) -> bool {
    doc.read_from(bytes) && packs(clip, doc, read_samples(bytes, buffers))
}

/// Whether bytes and buffers hold the animations of a clip.
pub open spec fn holds_clip(bytes: Seq<u8>, buffers: Seq<Seq<u8>>, clip: Clip) -> bool {
    exists|doc: Document| #[trigger] is_clip_of(clip, bytes, buffers, doc)
}

/// Whether a document is that of bytes, and its nodes go on below a root without an end.
pub open spec fn is_endless(bytes: Seq<u8>, doc: Document) -> bool {
    doc.read_from(bytes) && !is_rooted(doc)
}

/// Whether bytes hold a document whose nodes go on below a root without an end.
pub open spec fn holds_endless(bytes: Seq<u8>) -> bool {
    exists|doc: Document| #[trigger] is_endless(bytes, doc)
}

fn grow_roots(doc: &Document) -> (r: Option<Vec<SceneNode>>)
    ensures
        match r {
            Some(v) => are_trees(*doc, v@) && is_rooted(*doc),
            None => !is_rooted(*doc),
        },
{
    match &doc.roots {
        Some(v) => grow_all(&doc.nodes, v),
        None => Some(Vec::new()),
    }
}

/// Packs samples into a clip, where the nodes below the document's roots end.
pub fn pack_document(doc: &Document, samples: &Vec<Sample>) -> (r: Option<Clip>)
    ensures
        match r {
            Some(c) => is_rooted(*doc) && packs(c, *doc, sample_views(samples@)),
            None => !is_rooted(*doc),
        },
{
    let trees = match grow_roots(doc) {
        Some(v) => v,
        None => return None,
    };
    assert forall|k: int| 0 <= k < trees@.len() implies crate::walk::exists_in(
        *doc,
        #[trigger] trees@[k],
    ) by {
        assert(is_tree_of(trees@[k], doc.nodes@, doc.roots->Some_0@[k] as int));
        crate::walk::trees_exist(*doc, trees@[k], doc.roots->Some_0@[k] as int);
    }
    let clip = transcode_animclip(doc, &trees, samples);
    assert(is_packed(clip, *doc, trees@, sample_views(samples@)));
    assert(packs(clip, *doc, sample_views(samples@)));
    Some(clip)
}

/// Reads the channels of all of a document's animations.
fn read_channels(bytes: &Vec<u8>, buffers: &Vec<Vec<u8>>, nodes: usize) -> (r: Result<
    Vec<Sample>,
    String,
>)
    requires
        document_error(bytes@) is None,
        crate::document::gltf_nodes(bytes@)->Ok_0.len() == nodes,
    ensures
        match r {
            Ok(v) => channel_error(bytes@, buffer_views(buffers@)) is None && sample_views(v@)
                == read_samples(bytes@, buffer_views(buffers@)),
            Err(e) => channel_error(bytes@, buffer_views(buffers@)) == Some(e@),
        },
{
    let targets = match read_targets(bytes) {
        Ok(v) => v,
        Err(e) => return Err(e),
    };
    let samplers = match read_samplers(bytes) {
        Ok(v) => v,
        Err(e) => return Err(e),
    };
    let accessors = match read_accessors(bytes) {
        Ok(v) => v,
        Err(e) => return Err(e),
    };
    let views = match read_views(bytes) {
        Ok(v) => v,
        Err(e) => return Err(e),
    };
    let picks = match pick_channels(&targets, &samplers, nodes, &accessors, &views) {
        Some(v) => v,
        None => return Err("an animation channel cannot be read".to_owned()),
    };
    assert forall|i: int| 0 <= i < picks@.len() implies can_read(
        bytes@,
        #[trigger] picks@[i] as int,
    ) by {
        assert(samplers@[picks@[i] as int].curve is Linear);
    }
    let times = match read_times(bytes, buffers, &picks) {
        Ok(v) => v,
        Err(e) => return Err(e),
    };
    let values = match read_values(bytes, buffers, &picks) {
        Ok(v) => v,
        Err(e) => return Err(e),
    };
    Ok(join_samples(&targets, &samplers, &times, &values))
}

/// Packs the animations of a glTF file into a clip, from its bytes and those of its buffers.
pub fn transcode_gltf(bytes: &Vec<u8>, buffers: &Vec<Vec<u8>>) -> (r: Result<Clip, String>)
    ensures
        match r {
            Ok(c) => clip_error(bytes@, buffer_views(buffers@)) is None && holds_clip(
                bytes@,
                buffer_views(buffers@),
                c,
            ),
            Err(e) => clip_error(bytes@, buffer_views(buffers@)) == Some(e@) || (clip_error(
                bytes@,
                buffer_views(buffers@),
            ) is None && e@ == "nodes form no tree"@ && holds_endless(bytes@)),
        },
{
    let doc = match parse_document(bytes) {
        Ok(d) => d,
        Err(e) => return Err(e),
    };
    assert(crate::document::gltf_nodes(bytes@)->Ok_0.len() == doc.nodes@.len());
    let samples = match read_channels(bytes, buffers, doc.nodes.len()) {
        Ok(v) => v,
        Err(e) => return Err(e),
    };
    match pack_document(&doc, &samples) {
        Some(clip) => {
            assert(is_clip_of(clip, bytes@, buffer_views(buffers@), doc));
            assert(holds_clip(bytes@, buffer_views(buffers@), clip));
            Ok(clip)
        },
        None => {
            assert(is_endless(bytes@, doc));
            Err("nodes form no tree".to_owned())
        },
    }
}

/// The name paths of trees depend on the heads of the nodes alone.
proof fn lemma_paths_agree(
    d: Document,
    e: Document,
    at: Seq<usize>,
    list: Seq<SceneNode>,
    other: Seq<SceneNode>,
    prefix: Seq<Seq<char>>,
    known: Map<usize, Seq<Seq<char>>>,
)
    requires
        node_heads(d.nodes@) == node_heads(e.nodes@),
        list.len() == at.len(),
        other.len() == at.len(),
        forall|k: int|
            0 <= k < at.len() ==> #[trigger] is_tree_of(list[k], d.nodes@, at[k] as int),
        forall|k: int|
            0 <= k < at.len() ==> #[trigger] is_tree_of(other[k], e.nodes@, at[k] as int),
    ensures
        list_paths(d, list, prefix, known) == list_paths(e, other, prefix, known),
    decreases list,
{
    if list.len() > 0 {
        let last = list.len() - 1;
        let (before, rest) = (list.drop_last(), other.drop_last());
        let less = at.drop_last();
        assert forall|k: int| 0 <= k < less.len() implies #[trigger] is_tree_of(
            before[k],
            d.nodes@,
            less[k] as int,
        ) by {
            assert(is_tree_of(list[k], d.nodes@, at[k] as int));
        }
        assert forall|k: int| 0 <= k < less.len() implies #[trigger] is_tree_of(
            rest[k],
            e.nodes@,
            less[k] as int,
        ) by {
            assert(is_tree_of(other[k], e.nodes@, at[k] as int));
        }
        lemma_paths_agree(d, e, less, before, rest, prefix, known);
        let now = list_paths(d, before, prefix, known);
        let (t, u) = (list[last], other[last]);
        assert(is_tree_of(t, d.nodes@, at[last] as int));
        assert(is_tree_of(u, e.nodes@, at[last] as int));
        let i = at[last] as int;
        assert(node_heads(d.nodes@)[i] == d.nodes@[i].head());
        assert(node_heads(e.nodes@)[i] == e.nodes@[i].head());
        assert(d.nodes@[i].children@ == e.nodes@[i].children@);
        if let Some(n) = d.nodes@[i].name {
            let m = e.nodes@[i].name->Some_0;
            assert(n@ == m@);
            let kids = d.nodes@[i].children@;
            assert forall|k: int| 0 <= k < kids.len() implies #[trigger] is_tree_of(
                t.children@[k],
                d.nodes@,
                kids[k] as int,
            ) by {
                assert(t.children@[k] == t.children@[k]);
            }
            assert forall|k: int| 0 <= k < kids.len() implies #[trigger] is_tree_of(
                u.children@[k],
                e.nodes@,
                kids[k] as int,
            ) by {
                assert(u.children@[k] == u.children@[k]);
            }
            lemma_paths_agree(
                d,
                e,
                kids,
                t.children@,
                u.children@,
                prefix.push(n@),
                now.insert(t.index, prefix.push(n@)),
            );
        }
        assert(tree_paths(d, t, prefix, now) == tree_paths(e, u, prefix, now));
    }
}

/// Whether the nodes below one end depends on the heads of the nodes alone.
proof fn lemma_within_agrees(d: Document, e: Document, i: int, depth: nat)
    requires
        node_heads(d.nodes@) == node_heads(e.nodes@),
        within(d.nodes@, i, depth),
    ensures
        within(e.nodes@, i, depth),
    decreases depth,
{
    assert(node_heads(d.nodes@).len() == d.nodes@.len());
    assert(node_heads(e.nodes@).len() == e.nodes@.len());
    assert(node_heads(d.nodes@)[i] == d.nodes@[i].head());
    assert(node_heads(e.nodes@)[i] == e.nodes@[i].head());
    assert(d.nodes@[i].children@ == e.nodes@[i].children@);
    assert forall|k: int|
        #![trigger e.nodes@[i].children@[k]]
        0 <= k < e.nodes@[i].children@.len() implies within(
        e.nodes@,
        e.nodes@[i].children@[k] as int,
        (depth - 1) as nat,
    ) by {
        assert(d.nodes@[i].children@[k] == e.nodes@[i].children@[k]);
        lemma_within_agrees(d, e, e.nodes@[i].children@[k] as int, (depth - 1) as nat);
    }
}

/// Two clips of one document with the same samples are the same.
proof fn lemma_clips_agree(
    clip: Clip,
    other: Clip,
    d: Document,
    e: Document,
    trees: Seq<SceneNode>,
    others: Seq<SceneNode>,
    samples: Seq<SampleView>,
)
    requires
        node_heads(d.nodes@) == node_heads(e.nodes@),
        opt_indices(d.roots) == opt_indices(e.roots),
        is_packed(clip, d, trees, samples),
        is_packed(other, e, others, samples),
    ensures
        clip.bytes@ == other.bytes@,
        clip.targets == other.targets,
        clip.skipped == other.skipped,
{
    let at: Seq<usize> = match d.roots {
        Some(v) => v@,
        None => seq![],
    };
    lemma_paths_agree(d, e, at, trees, others, seq![], Map::empty());
    reveal(is_clip);
    let records = named(gathered(samples), list_paths(d, trees, seq![], Map::empty()));
    let first = choose|at: Seq<usize>|
        order::is_stable_order(at, paths_le(records), records.len()) && clip.bytes@
            == crate::animclip::clip_bytes(#[trigger] arranged(records, at));
    let second = choose|at: Seq<usize>|
        order::is_stable_order(at, paths_le(records), records.len()) && other.bytes@
            == crate::animclip::clip_bytes(#[trigger] arranged(records, at));
    order::stable_orders_agree(first, second, paths_le(records), records.len());
}

/// Packing the same bytes and buffers again gives the same clip: a rerun changes no byte.
pub proof fn reruns_give_equal_clips(
    bytes: Seq<u8>,
    buffers: Seq<Seq<u8>>,
    clip: Clip,
    other: Clip,
)
    requires
        holds_clip(bytes, buffers, clip),
        holds_clip(bytes, buffers, other),
    ensures
        clip.bytes@ == other.bytes@,
        clip.targets == other.targets,
        clip.skipped == other.skipped,
{
    let samples = read_samples(bytes, buffers);
    let d = choose|doc: Document| #[trigger] is_clip_of(clip, bytes, buffers, doc);
    let e = choose|doc: Document| #[trigger] is_clip_of(other, bytes, buffers, doc);
    let trees = choose|trees: Seq<SceneNode>| #[trigger] is_packed(clip, d, trees, samples);
    let others = choose|trees: Seq<SceneNode>| #[trigger] is_packed(other, e, trees, samples);
    lemma_clips_agree(clip, other, d, e, trees, others, samples);
}

/// No bytes both have a clip and hold nodes without an end: packing them again fails again.
pub proof fn endless_nodes_have_no_clip(bytes: Seq<u8>, buffers: Seq<Seq<u8>>, clip: Clip)
    requires
        holds_clip(bytes, buffers, clip),
    ensures
        !holds_endless(bytes),
{
    let samples = read_samples(bytes, buffers);
    let d = choose|doc: Document| #[trigger] is_clip_of(clip, bytes, buffers, doc);
    let trees = choose|trees: Seq<SceneNode>| #[trigger] is_packed(clip, d, trees, samples);
    if holds_endless(bytes) {
        let e = choose|doc: Document| #[trigger] is_endless(bytes, doc);
        assert(node_heads(d.nodes@).len() == node_heads(e.nodes@).len());
        if let Some(v) = e.roots {
            assert forall|k: int| 0 <= k < v@.len() implies #[trigger] within(
                e.nodes@,
                v@[k] as int,
                e.nodes@.len(),
            ) by {
                assert(d.roots->Some_0@[k] == v@[k]);
                assert(within(d.nodes@, d.roots->Some_0@[k] as int, d.nodes@.len()));
                lemma_within_agrees(d, e, v@[k] as int, d.nodes@.len());
            }
        }
    }
}

/// Exactly the linear channels are listed, each once, in order.
pub proof fn linear_channels_are_listed(samplers: Seq<SamplerRecord>)
    requires
        samplers.len() <= usize::MAX,
    ensures
        forall|i: usize|
            #![trigger linear_channels(samplers).contains(i)]
            linear_channels(samplers).contains(i) <==> i < samplers.len()
                && samplers[i as int].curve is Linear,
        forall|j: int, k: int|
            0 <= j < k < linear_channels(samplers).len() ==> #[trigger] linear_channels(samplers)[j]
                < #[trigger] linear_channels(samplers)[k],
    decreases samplers.len(),
{
    if samplers.len() > 0 {
        let less = samplers.drop_last();
        let n = (samplers.len() - 1) as usize;
        linear_channels_are_listed(less);
        let before = linear_channels(less);
        let all = linear_channels(samplers);
        assert forall|k: int| 0 <= k < before.len() implies #[trigger] before[k] < n by {
            assert(before.contains(before[k]));
        }
        assert forall|i: usize| #![trigger all.contains(i)] all.contains(i) <==> i < samplers.len()
            && samplers[i as int].curve is Linear by {
            if all.contains(i) {
                let k = choose|k: int| 0 <= k < all.len() && all[k] == i;
                if k < before.len() {
                    assert(before[k] == i);
                    assert(before.contains(i));
                }
            }
            if i < samplers.len() && samplers[i as int].curve is Linear {
                if i < n {
                    assert(before.contains(i));
                    let k = choose|k: int| 0 <= k < before.len() && before[k] == i;
                    assert(all[k] == i);
                } else {
                    assert(all[before.len() as int] == i);
                }
            }
        }
    }
}

/// How many of the first `i` channels are linear.
pub open spec fn linear_before(samplers: Seq<SamplerRecord>, i: int) -> int {
    samplers.take(i).filter(|s: SamplerRecord| s.curve is Linear).len() as int
}

/// Each channel gives a sample of its own node. A linear one has the times read for it, and the
/// values read for it as translations, rotations or scales, as it animates the one or the other;
/// weights and every other channel move nothing.
pub proof fn samples_keep_their_channels(
    targets: Seq<TargetRecord>,
    samplers: Seq<SamplerRecord>,
    times: Seq<Option<Seq<u32>>>,
    values: Seq<Option<Seq<u32>>>,
    i: int,
)
    requires
        targets.len() == samplers.len(),
        times.len() == linear_channels(samplers).len(),
        values.len() == linear_channels(samplers).len(),
        0 <= i < samplers.len(),
    ensures
        ({
            let all = joined(targets, samplers, times, values);
            let j = linear_before(samplers, i);
            &&& all.len() == samplers.len()
            &&& all[i].node == targets[i].node
            &&& all[i].linear <==> samplers[i].curve is Linear
            &&& samplers[i].curve !is Linear ==> all[i].times is None && all[i].keys is Other
            &&& samplers[i].curve is Linear ==> {
                &&& 0 <= j < times.len()
                &&& all[i].times == times[j]
                &&& values[j] matches Some(v) ==> match targets[i].path {
                    Some(Animated::Translation) => all[i].keys == KeysView::Translations(v),
                    Some(Animated::Rotation) => all[i].keys == KeysView::Rotations(v),
                    Some(Animated::Scale) => all[i].keys == KeysView::Scales(v),
                    _ => all[i].keys is Other,
                }
                &&& values[j] is None ==> all[i].keys is Other
            }
        }),
    decreases samplers.len(),
{
    let n = samplers.len() - 1;
    let (less, rest) = (targets.drop_last(), samplers.drop_last());
    lemma_linear_before(samplers, samplers.len() as int);
    lemma_linear_before(samplers, i);
    lemma_joined_len(less, rest, times.drop_last(), values.drop_last());
    lemma_joined_len(less, rest, times, values);
    assert(rest =~= samplers.take(n));
    assert(samplers.take(samplers.len() as int) =~= samplers);
    lemma_linear_before(samplers, n);
    if i < n {
        assert(rest.take(i) =~= samplers.take(i));
        if samplers.last().curve is Linear {
            samples_keep_their_channels(less, rest, times.drop_last(), values.drop_last(), i);
        } else {
            samples_keep_their_channels(less, rest, times, values, i);
        }
    }
}

proof fn lemma_joined_len(
    targets: Seq<TargetRecord>,
    samplers: Seq<SamplerRecord>,
    times: Seq<Option<Seq<u32>>>,
    values: Seq<Option<Seq<u32>>>,
)
    ensures
        joined(targets, samplers, times, values).len() == samplers.len(),
    decreases samplers.len(),
{
    if samplers.len() > 0 {
        let (less, rest) = (targets.drop_last(), samplers.drop_last());
        lemma_joined_len(less, rest, times.drop_last(), values.drop_last());
        lemma_joined_len(less, rest, times, values);
    }
}

proof fn lemma_linear_before(samplers: Seq<SamplerRecord>, i: int)
    requires
        0 <= i <= samplers.len(),
    ensures
        linear_channels(samplers.take(i)).len() == linear_before(samplers, i),
        i < samplers.len() && samplers[i].curve is Linear ==> linear_before(samplers, i)
            < linear_channels(samplers).len(),
    decreases samplers.len() - i, i,
{
    lemma_linear_filter(samplers.take(i));
    lemma_linear_filter(samplers);
    if i < samplers.len() && samplers[i].curve is Linear {
        lemma_linear_filter(samplers.take(i + 1));
        reveal(Seq::filter);
        assert(samplers.take(i + 1).drop_last() =~= samplers.take(i));
        lemma_linear_grows(samplers, i + 1);
    }
}

proof fn lemma_linear_grows(samplers: Seq<SamplerRecord>, i: int)
    requires
        0 <= i <= samplers.len(),
    ensures
        linear_channels(samplers.take(i)).len() <= linear_channels(samplers).len(),
    decreases samplers.len() - i,
{
    if i < samplers.len() {
        assert(samplers.take(i + 1).drop_last() =~= samplers.take(i));
        lemma_linear_grows(samplers, i + 1);
    } else {
        assert(samplers.take(i) =~= samplers);
    }
}

proof fn lemma_linear_filter(samplers: Seq<SamplerRecord>)
    ensures
        linear_channels(samplers).len() == samplers.filter(
            |s: SamplerRecord| s.curve is Linear,
        ).len(),
    decreases samplers.len(),
{
    reveal(Seq::filter);
    if samplers.len() > 0 {
        lemma_linear_filter(samplers.drop_last());
    }
}

/// A translation or a scale takes three floats, a rotation four components of its own type, and a
/// weight one; a type that none of them can be stored in has no size.
pub proof fn values_take_their_components(component: u32)
    ensures
        value_bytes(Animated::Translation, component) == Some(3 * 4int),
        value_bytes(Animated::Scale, component) == Some(3 * 4int),
        value_bytes(Animated::Rotation, 5126) == Some(4 * 4int),
        match value_bytes(Animated::Weights, component) {
            Some(n) => value_bytes(Animated::Rotation, component) == Some(4 * n) && (n == 1 || n == 2
                || n == 4),
            None => value_bytes(Animated::Rotation, component) is None,
        },
        value_bytes(Animated::Weights, component) is Some <==> (5120 <= component <= 5123 || component
            == 5126),
        value_bytes(Animated::Weights, component) == Some(1int) <==> 5120 <= component <= 5121,
        value_bytes(Animated::Weights, component) == Some(4int) <==> component == 5126,
{
}

/// Items that can be addressed in a view lie apart, one after the other, each at an address that the
/// machine has.
pub proof fn addressed_items_lie_apart(view: ViewRecord, offset: int, count: int, size: int, k: int)
    requires
        span_fits(view, offset, count, size),
        0 <= offset,
        0 <= size,
        0 <= k < count,
    ensures
        ({
            let stride = if view.stride is Some {
                view.stride->Some_0 as int
            } else {
                size
            };
            &&& stride >= size
            &&& offset + stride * k + size <= usize::MAX
            &&& k + 1 < count ==> offset + stride * k + size <= offset + stride * (k + 1)
        }),
{
    let stride = if view.stride is Some {
        view.stride->Some_0 as int
    } else {
        size
    };
    assert(stride * k <= stride * (count - 1)) by (nonlinear_arith)
        requires
            0 <= stride,
            0 <= k <= count - 1,
    ;
    assert(stride * (k + 1) == stride * k + stride) by (nonlinear_arith);
}

/// A channel that can be read targets a node of the document, and its times and values are accessors
/// of it, of four bytes and of its own value's size, each within its view.
pub proof fn readable_channels_reach_their_data(
    target: TargetRecord,
    sampler: SamplerRecord,
    nodes: int,
    accessors: Seq<AccessorRecord>,
    views: Seq<ViewRecord>,
    v: usize,
    w: usize,
)
    requires
        channel_fits(target, sampler, nodes, accessors, views),
        accessors[sampler.input as int].view == Some(v),
        accessors[sampler.output as int].view == Some(w),
    ensures
        target.node < nodes,
        sampler.input < accessors.len(),
        sampler.output < accessors.len(),
        v < views.len(),
        w < views.len(),
        ({
            let (a, b) = (accessors[sampler.input as int], accessors[sampler.output as int]);
            &&& a.count >= 1 && b.count >= 1
            &&& a.sparse is None ==> a.size == 4
            &&& target.path is Some
            &&& b.sparse is None && (target.path == Some(Animated::Translation) || target.path == Some(
                Animated::Scale,
            )) ==> b.size == 12
        }),
{
}

/// An animation is packed from its own document: its samples are those of its channels, read with
/// the buffers that were given, and its targets are named by its own trees.
pub proof fn clips_are_of_their_document(
    clip: Clip,
    bytes: Seq<u8>,
    buffers: Seq<Seq<u8>>,
)
    requires
        holds_clip(bytes, buffers, clip),
    ensures
        exists|doc: Document, trees: Seq<SceneNode>| #[trigger]
            crate::clip_targets::is_clip(
                clip,
                doc,
                trees,
                joined(
                    gltf_targets(bytes)->Ok_0,
                    gltf_samplers(bytes)->Ok_0,
                    gltf_times(bytes, buffers, linear_channels(gltf_samplers(bytes)->Ok_0))->Ok_0,
                    gltf_values(bytes, buffers, linear_channels(gltf_samplers(bytes)->Ok_0))->Ok_0,
                ),
            ) && doc.read_from(bytes) && are_trees(doc, trees),
{
    let doc = choose|doc: Document| #[trigger] is_clip_of(clip, bytes, buffers, doc);
    let trees = choose|trees: Seq<SceneNode>| #[trigger]
        is_packed(clip, doc, trees, read_samples(bytes, buffers));
    assert(crate::clip_targets::is_clip(clip, doc, trees, read_samples(bytes, buffers)));
}

/// Items can be addressed wherever there is one, they do not overlap, and the machine has addresses
/// for the last of them and for the view; a plain accessor without a view needs but its item's size.
pub proof fn whole_spans_can_be_addressed(
    view: ViewRecord,
    offset: int,
    count: int,
    size: int,
    stride: usize,
    a: AccessorRecord,
    views: Seq<ViewRecord>,
)
    requires
        count >= 1,
        view.offset + view.length <= usize::MAX,
        a.view is None,
        a.sparse is None,
    ensures
        view.stride is None && offset + size * (count - 1) + size <= usize::MAX ==> span_fits(
            view,
            offset,
            count,
            size,
        ),
        view.stride == Some(stride) && stride >= size && offset + stride * (count - 1) + size
            <= usize::MAX ==> span_fits(view, offset, count, size),
        view.stride == Some(stride) && stride < size ==> !span_fits(view, offset, count, size),
        !span_fits(view, offset, 0, size),
        accessor_fits(a, views, size) <==> a.size == size,
{
}

} // verus!
