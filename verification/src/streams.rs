//! What a document's buffers hold beside its animations: the bytes of images, and the vertex
//! indices of primitives.

use vstd::prelude::*;
use crate::clip_reader::{
    accessor_fits, buffer_views, gltf_accessors, gltf_views, is_accessor_fitting, read_accessors,
    read_lists, read_views, AccessorRecord, ViewRecord,
};
use crate::clip_targets::opt_times;
use crate::document::{document_error, gltf_images, parsable, parse_document, ImageRecord, ImageView};
use crate::omm;

verus! {

/// The bytes of a buffer view, where its buffer is there and reaches that far.
pub open spec fn viewed(view: ViewRecord, buffers: Seq<Seq<u8>>) -> Option<Seq<u8>> {
    if view.buffer < buffers.len() && view.offset + view.length
        <= buffers[view.buffer as int].len() {
        Some(
            buffers[view.buffer as int].subrange(
                view.offset as int,
                view.offset + view.length,
            ),
        )
    } else {
        None
    }
}

/// The bytes of an optional list.
pub open spec fn opt_bytes(v: Option<Vec<u8>>) -> Option<Seq<u8>> {
    match v {
        Some(x) => Some(x@),
        None => None,
    }
}

/// Cuts the bytes of a buffer view out of its buffer.
pub fn cut_view(view: &ViewRecord, buffers: &Vec<Vec<u8>>) -> (r: Option<Vec<u8>>)
    ensures
        opt_bytes(r) == viewed(*view, buffer_views(buffers@)),
{
    if view.buffer >= buffers.len() {
        return None;
    }
    let data = &buffers[view.buffer];
    assert(buffer_views(buffers@)[view.buffer as int] == data@);
    if view.offset > data.len() || view.length > data.len() - view.offset {
        return None;
    }
    let mut out: Vec<u8> = Vec::new();
    for k in 0..view.length
        invariant
            view.offset + view.length <= data.len(),
            out@ == data@.subrange(view.offset as int, view.offset + k),
    {
        out.push(data[view.offset + k]);
        assert(out@ =~= data@.subrange(view.offset as int, view.offset + k + 1));
    }
    Some(out)
}

/// The bytes of an image that a buffer view holds; an image of a file has none.
pub open spec fn image_bytes(
    image: ImageView,
    views: Seq<ViewRecord>,
    buffers: Seq<Seq<u8>>,
) -> Option<Seq<u8>> {
    match image.view {
        Some(v) if v < views.len() => viewed(views[v as int], buffers),
        _ => None,
    }
}

/// The bytes of every image.
pub open spec fn all_image_bytes(
    images: Seq<ImageView>,
    views: Seq<ViewRecord>,
    buffers: Seq<Seq<u8>>,
) -> Seq<Option<Seq<u8>>> {
    images.map_values(|i: ImageView| image_bytes(i, views, buffers))
}

/// Cuts the bytes of every image out of the buffers.
pub fn cut_images(images: &Vec<ImageRecord>, views: &Vec<ViewRecord>, buffers: &Vec<Vec<u8>>) -> (r:
    Vec<Option<Vec<u8>>>)
    ensures
        r@.map_values(|b: Option<Vec<u8>>| opt_bytes(b)) == all_image_bytes(
            images@.map_values(|n: ImageRecord| n@),
            views@,
            buffer_views(buffers@),
        ),
{
    let mut out: Vec<Option<Vec<u8>>> = Vec::new();
    for i in 0..images.len()
        invariant
            out@.len() == i,
            forall|k: int|
                0 <= k < i ==> opt_bytes(#[trigger] out@[k]) == image_bytes(
                    images@[k]@,
                    views@,
                    buffer_views(buffers@),
                ),
    {
        let cut = match images[i].view {
            Some(v) => if v < views.len() {
                cut_view(&views[v], buffers)
            } else {
                None
            },
            None => None,
        };
        out.push(cut);
    }
    assert(out@.map_values(|b: Option<Vec<u8>>| opt_bytes(b)) =~= all_image_bytes(
        images@.map_values(|n: ImageRecord| n@),
        views@,
        buffer_views(buffers@),
    ));
    out
}

/// What keeps the images of a document from being read, where anything does.
pub open spec fn image_error(bytes: Seq<u8>) -> Option<Seq<char>> {
    if document_error(bytes) is Some {
        document_error(bytes)
    } else if gltf_views(bytes) is Err {
        Some(gltf_views(bytes)->Err_0)
    } else {
        None
    }
}

/// Reads the bytes of a document's images out of its buffers.
pub fn read_images(bytes: &Vec<u8>, buffers: &Vec<Vec<u8>>) -> (r: Result<
    Vec<Option<Vec<u8>>>,
    String,
>)
    ensures
        match r {
            Ok(v) => image_error(bytes@) is None && v@.map_values(
                |b: Option<Vec<u8>>| opt_bytes(b),
            ) == all_image_bytes(
                gltf_images(bytes@)->Ok_0,
                gltf_views(bytes@)->Ok_0,
                buffer_views(buffers@),
            ),
            Err(e) => image_error(bytes@) == Some(e@),
        },
{
    let doc = match parse_document(bytes) {
        Ok(d) => d,
        Err(e) => return Err(e),
    };
    match read_views(bytes) {
        Ok(views) => Ok(cut_images(&doc.images, &views, buffers)),
        Err(e) => Err(e),
    }
}

/// The accessor of the indices of each primitive of each mesh, where it names one.
pub uninterp spec fn gltf_index_refs(bytes: Seq<u8>) -> Result<
    Seq<Seq<Option<usize>>>,
    Seq<char>,
>;

/// The indices of the primitives that `picks` lists by mesh and place, where they can be had.
pub uninterp spec fn gltf_indices(
    bytes: Seq<u8>,
    buffers: Seq<Seq<u8>>,
    picks: Seq<(usize, usize)>,
) -> Result<Seq<Option<Seq<u32>>>, Seq<char>>;

/// The bytes of one index, by the code of its type: unsigned, of one, two or four bytes.
pub open spec fn index_bytes(component: u32) -> Option<int> {
    if component == 5121 {
        Some(1)
    } else if component == 5123 {
        Some(2)
    } else if component == 5125 {
        Some(4)
    } else {
        None
    }
}

/// Whether the indices of a primitive can be read.
pub open spec fn pick_fits(
    refs: Seq<Seq<Option<usize>>>,
    accessors: Seq<AccessorRecord>,
    views: Seq<ViewRecord>,
    pick: (usize, usize),
) -> bool {
    &&& pick.0 < refs.len()
    &&& pick.1 < refs[pick.0 as int].len()
    &&& refs[pick.0 as int][pick.1 as int] matches Some(a) ==> a < accessors.len() && (match index_bytes(
        accessors[a as int].component,
    ) {
        Some(n) => accessor_fits(accessors[a as int], views, n),
        None => false,
    })
}

/// Whether the indices of every picked primitive can be read.
pub open spec fn picks_fit(
    refs: Seq<Seq<Option<usize>>>,
    accessors: Seq<AccessorRecord>,
    views: Seq<ViewRecord>,
    picks: Seq<(usize, usize)>,
) -> bool {
    forall|k: int| 0 <= k < picks.len() ==> pick_fits(refs, accessors, views, #[trigger] picks[k])
}

/// Whether the indices of primitives of the document that bytes hold can be read.
pub open spec fn can_index(bytes: Seq<u8>, picks: Seq<(usize, usize)>) -> bool {
    gltf_index_refs(bytes) matches Ok(refs) && gltf_accessors(bytes) matches Ok(accessors)
        && gltf_views(bytes) matches Ok(views) && picks_fit(refs, accessors, views, picks)
}

/// The indices that an accessor without deviating values holds: little-endian numbers, one every
/// stride, where the buffer reaches the last.
pub open spec fn plain_indices(
    a: AccessorRecord,
    views: Seq<ViewRecord>,
    buffers: Seq<Seq<u8>>,
) -> Option<Seq<u32>> {
    let size = index_bytes(a.component)->Some_0;
    match a.view {
        None => None,
        Some(v) => {
            let stride = match views[v as int].stride {
                Some(s) => s as int,
                None => size,
            };
            match viewed(views[v as int], buffers) {
                Some(data) if a.offset + stride * (a.count - 1) + size <= data.len() => Some(
                    Seq::new(
                        a.count as nat,
                        |k: int| omm::le_value(data, a.offset + stride * k, size) as u32,
                    ),
                ),
                _ => None,
            }
        },
    }
}

/// Whether the indices of a primitive are what its accessor says: none without an accessor, and
/// the numbers of the buffer for one without deviating values.
pub open spec fn agrees(
    refs: Seq<Seq<Option<usize>>>,
    accessors: Seq<AccessorRecord>,
    views: Seq<ViewRecord>,
    buffers: Seq<Seq<u8>>,
    pick: (usize, usize),
    indices: Option<Seq<u32>>,
) -> bool {
    match refs[pick.0 as int][pick.1 as int] {
        None => indices is None,
        Some(a) => accessors[a as int].sparse is None ==> indices == plain_indices(
            accessors[a as int],
            views,
            buffers,
        ),
    }
}

/// Parses with `gltf::Gltf::from_slice` and hands out, for each primitive of each mesh of
/// `Document::as_json`, the accessor of its indices; parsing does not check it. The result depends
/// on the bytes alone.
#[verifier::external_body]
fn read_index_refs(bytes: &Vec<u8>) -> (r: Result<Vec<Vec<Option<usize>>>, String>)
    requires
        parsable(bytes@),
    ensures
        match r {
            Ok(v) => gltf_index_refs(bytes@) == Ok::<_, Seq<char>>(
                v@.map_values(|m: Vec<Option<usize>>| m@),
            ),
            Err(e) => gltf_index_refs(bytes@) == Err::<Seq<Seq<Option<usize>>>, _>(e@),
        },
{
    let g = gltf::Gltf::from_slice(bytes).map_err(|e| e.to_string())?;
    let meshes = g.as_json().meshes.iter();
    Ok(meshes.map(|m| m.primitives.iter().map(|p| p.indices.map(|i| i.value())).collect()).collect())
}

/// Parses with `gltf::Gltf::from_slice` and hands out what `Reader::read_indices` of each picked
/// primitive gives, by `ReadIndices::into_u32`: nothing for a primitive without indices, and for
/// an accessor without deviating values the little-endian numbers of its buffer view, where the
/// buffer is given and reaches the last of them. It returns where the accessors and views keep to
/// what `can_index` says. The result depends on the bytes, the buffers and the picks alone.
#[verifier::external_body]
fn read_index_lists(
    bytes: &Vec<u8>,
    buffers: &Vec<Vec<u8>>,
    picks: &Vec<(usize, usize)>,
) -> (r: Result<Vec<Option<Vec<u32>>>, String>)
    requires
        parsable(bytes@),
        can_index(bytes@, picks@),
    ensures
        match r {
            Ok(v) => gltf_indices(bytes@, buffer_views(buffers@), picks@) == Ok::<_, Seq<char>>(
                read_lists(v@),
            ) && v@.len() == picks@.len() && forall|k: int|
                0 <= k < v@.len() ==> agrees(
                    gltf_index_refs(bytes@)->Ok_0,
                    gltf_accessors(bytes@)->Ok_0,
                    gltf_views(bytes@)->Ok_0,
                    buffer_views(buffers@),
                    picks@[k],
                    opt_times(#[trigger] v@[k]),
                ),
            Err(e) => gltf_indices(bytes@, buffer_views(buffers@), picks@) == Err::<
                Seq<Option<Seq<u32>>>,
                _,
            >(e@),
        },
{
    let g = gltf::Gltf::from_slice(bytes).map_err(|e| e.to_string())?;
    let all: Vec<Vec<_>> = g.meshes().map(|m| m.primitives().collect()).collect();
    Ok(picks.iter().map(|(m, p)| {
        let reader = all[*m][*p].reader(|b| buffers.get(b.index()).map(Vec::as_slice));
        reader.read_indices().map(|i| i.into_u32().collect())
    }).collect())
}

fn count_index_bytes(component: u32) -> (r: Option<usize>)
    ensures
        match r {
            Some(n) => index_bytes(component) == Some(n as int),
            None => index_bytes(component) is None,
        },
{
    if component == 5121 {
        Some(1)
    } else if component == 5123 {
        Some(2)
    } else if component == 5125 {
        Some(4)
    } else {
        None
    }
}

/// Tests whether the indices of every picked primitive can be read.
pub fn are_picks_fitting(
    refs: &Vec<Vec<Option<usize>>>,
    accessors: &Vec<AccessorRecord>,
    views: &Vec<ViewRecord>,
    picks: &Vec<(usize, usize)>,
) -> (r: bool)
    ensures
        r == picks_fit(
            refs@.map_values(|m: Vec<Option<usize>>| m@),
            accessors@,
            views@,
            picks@,
        ),
{
    let ghost all = refs@.map_values(|m: Vec<Option<usize>>| m@);
    for k in 0..picks.len()
        invariant
            all == refs@.map_values(|m: Vec<Option<usize>>| m@),
            forall|j: int|
                0 <= j < k ==> pick_fits(all, accessors@, views@, #[trigger] picks@[j]),
    {
        let (m, p): (usize, usize) = picks[k];
        let ghost pick = picks@[k as int];
        let fits = if m >= refs.len() || p >= refs[m].len() {
            false
        } else {
            match refs[m][p] {
                None => true,
                Some(a) => if a >= accessors.len() {
                    false
                } else {
                    match count_index_bytes(accessors[a].component) {
                        None => false,
                        Some(n) => is_accessor_fitting(&accessors[a], views, n),
                    }
                },
            }
        };
        assert(fits == pick_fits(all, accessors@, views@, pick));
        if !fits {
            return false;
        }
    }
    true
}

/// What keeps the indices of primitives from being read, where anything does.
pub open spec fn index_error(
    bytes: Seq<u8>,
    buffers: Seq<Seq<u8>>,
    picks: Seq<(usize, usize)>,
) -> Option<Seq<char>> {
    if document_error(bytes) is Some {
        document_error(bytes)
    } else if gltf_index_refs(bytes) is Err {
        Some(gltf_index_refs(bytes)->Err_0)
    } else if gltf_accessors(bytes) is Err {
        Some(gltf_accessors(bytes)->Err_0)
    } else if gltf_views(bytes) is Err {
        Some(gltf_views(bytes)->Err_0)
    } else if !can_index(bytes, picks) {
        Some("the indices of a primitive cannot be read"@)
    } else if gltf_indices(bytes, buffers, picks) is Err {
        Some(gltf_indices(bytes, buffers, picks)->Err_0)
    } else {
        None
    }
}

/// Reads the indices of the primitives that `picks` lists by mesh and place.
pub fn read_indices(
    bytes: &Vec<u8>,
    buffers: &Vec<Vec<u8>>,
    picks: &Vec<(usize, usize)>,
) -> (r: Result<Vec<Option<Vec<u32>>>, String>)
    ensures
        match r {
            Ok(v) => {
                &&& index_error(bytes@, buffer_views(buffers@), picks@) is None
                &&& gltf_indices(bytes@, buffer_views(buffers@), picks@) == Ok::<_, Seq<char>>(
                    read_lists(v@),
                )
                &&& v@.len() == picks@.len()
                &&& forall|k: int|
                    0 <= k < v@.len() ==> agrees(
                        gltf_index_refs(bytes@)->Ok_0,
                        gltf_accessors(bytes@)->Ok_0,
                        gltf_views(bytes@)->Ok_0,
                        buffer_views(buffers@),
                        picks@[k],
                        opt_times(#[trigger] v@[k]),
                    )
            },
            Err(e) => index_error(bytes@, buffer_views(buffers@), picks@) == Some(e@),
        },
{
    if let Err(e) = parse_document(bytes) {
        return Err(e);
    }
    let refs = match read_index_refs(bytes) {
        Ok(v) => v,
        Err(e) => return Err(e),
    };
    let accessors = match read_accessors(bytes) {
        Ok(v) => v,
        Err(e) => return Err(e),
    };
    let views = match read_views(bytes) {
        Ok(v) => v,
        Err(e) => return Err(e),
    };
    if !are_picks_fitting(&refs, &accessors, &views, picks) {
        return Err("the indices of a primitive cannot be read".to_owned());
    }
    read_index_lists(bytes, buffers, picks)
}

/// The indices of a primitive of `vertices` vertices: its own, or its vertices in order.
pub open spec fn index_list(indices: Option<Seq<u32>>, vertices: usize) -> Seq<u32> {
    match indices {
        Some(v) => v,
        None => Seq::new((vertices as u32) as nat, |k: int| k as u32),
    }
}

/// Takes a primitive's indices, or lists its vertices in order where it has none.
pub fn list_indices(indices: Option<Vec<u32>>, vertices: usize) -> (r: Vec<u32>)
    ensures
        r@ == index_list(opt_times(indices), vertices),
{
    match indices {
        Some(v) => v,
        None => {
            let count: u32 = vertices as u32;
            let mut out: Vec<u32> = Vec::new();
            for k in 0u32..count
                invariant
                    out@ == Seq::new(k as nat, |k: int| k as u32),
            {
                out.push(k);
                assert(out@ =~= Seq::new((k + 1) as nat, |k: int| k as u32));
            }
            out
        },
    }
}

/// A view's bytes are those of its own buffer, from its offset on and as many as it is long; there
/// are none where the buffer does not reach that far.
pub proof fn views_cut_their_buffer(view: ViewRecord, buffers: Seq<Seq<u8>>, k: int)
    requires
        view.buffer < buffers.len(),
        0 <= k < view.length,
    ensures
        ({
            let b = buffers[view.buffer as int];
            &&& viewed(view, buffers) is Some <==> view.offset + view.length <= b.len()
            &&& viewed(view, buffers) matches Some(v) ==> v.len() == view.length && v[k] == b[view.offset
                + k]
        }),
{
}

/// An image's bytes are those of the view that it names; an image that names none has none.
pub proof fn images_have_their_views_bytes(
    image: ImageView,
    views: Seq<ViewRecord>,
    buffers: Seq<Seq<u8>>,
    v: usize,
)
    requires
        v < views.len(),
    ensures
        image.view == Some(v) ==> image_bytes(image, views, buffers) == viewed(views[v as int], buffers),
        image.view is None ==> image_bytes(image, views, buffers) is None,
{
}

/// Indices are numbers of one, two or four bytes, lowest byte first, one every stride of the view
/// or one behind the other where it gives none.
pub proof fn indices_stand_at_their_strides(
    a: AccessorRecord,
    views: Seq<ViewRecord>,
    buffers: Seq<Seq<u8>>,
    v: usize,
    k: int,
)
    requires
        a.view == Some(v),
        v < views.len(),
        a.component == 5121 || a.component == 5123 || a.component == 5125,
        viewed(views[v as int], buffers) is Some,
        plain_indices(a, views, buffers) is Some,
        0 <= k < a.count,
    ensures
        ({
            let data = viewed(views[v as int], buffers)->0;
            let size = if a.component == 5121 {
                1int
            } else if a.component == 5123 {
                2int
            } else {
                4int
            };
            let stride = if views[v as int].stride is Some {
                views[v as int].stride->0 as int
            } else {
                size
            };
            let at = a.offset + stride * k;
            let r = plain_indices(a, views, buffers)->0;
            &&& r.len() == a.count
            &&& a.component == 5121 ==> r[k] == data[at]
            &&& a.component == 5123 ==> r[k] == data[at] + 256 * data[at + 1]
            &&& a.component == 5125 ==> r[k] == data[at] + 256 * (data[at + 1] + 256 * (data[at + 2] + 256
                * data[at + 3]))
        }),
{
    let data = viewed(views[v as int], buffers)->0;
    let size = index_bytes(a.component)->0;
    let stride = match views[v as int].stride {
        Some(s) => s as int,
        None => size,
    };
    let at = a.offset + stride * k;
    omm::indices_are_little_endian(data, at, size);
    omm::indices_are_little_endian(data, at + 2, size);
}

/// A primitive without indices has its vertices in order, each once.
pub proof fn missing_indices_count_up(vertices: usize, k: int)
    requires
        0 <= k < vertices <= u32::MAX,
    ensures
        index_list(None, vertices).len() == vertices,
        index_list(None, vertices)[k] == k,
        forall|v: Seq<u32>| #[trigger] index_list(Some(v), vertices) == v,
{
}

} // verus!
