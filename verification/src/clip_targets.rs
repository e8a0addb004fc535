//! Animation targets: the channels of a document gathered by node, and the nodes' name paths.

use vstd::prelude::*;
use crate::animclip::{Channel, Channels, ClipRecord};
use crate::document::Document;
use crate::order;
use crate::text;
use crate::tree::SceneNode;

verus! {

/// The values of a sampled channel, as float bits.
pub enum Keys {
    Translations(Vec<u32>),
    Rotations(Vec<u32>),
    Scales(Vec<u32>),
    /// No rigid channel, or none that can be read.
    Other,
}

/// A channel of an animation as it is read: its target, whether it is linear, its times and values.
pub struct Sample {
    pub node: usize,
    pub linear: bool,
    pub times: Option<Vec<u32>>,
    pub keys: Keys,
}

/// What a [`Keys`] holds.
pub ghost enum KeysView {
    Translations(Seq<u32>),
    Rotations(Seq<u32>),
    Scales(Seq<u32>),
    Other,
}

impl View for Keys {
    type V = KeysView;

    open spec fn view(&self) -> KeysView {
        match *self {
            Keys::Translations(v) => KeysView::Translations(v@),
            Keys::Rotations(v) => KeysView::Rotations(v@),
            Keys::Scales(v) => KeysView::Scales(v@),
            Keys::Other => KeysView::Other,
        }
    }
}

/// What a [`Sample`] holds.
pub ghost struct SampleView {
    pub node: usize,
    pub linear: bool,
    pub times: Option<Seq<u32>>,
    pub keys: KeysView,
}

/// The times of an optional list.
pub open spec fn opt_times(v: Option<Vec<u32>>) -> Option<Seq<u32>> {
    match v {
        Some(x) => Some(x@),
        None => None,
    }
}

impl View for Sample {
    type V = SampleView;

    open spec fn view(&self) -> SampleView {
        SampleView {
            node: self.node,
            linear: self.linear,
            times: opt_times(self.times),
            keys: self.keys@,
        }
    }
}

/// What a list of samples holds.
pub open spec fn sample_views(samples: Seq<Sample>) -> Seq<SampleView> {
    samples.map_values(|s: Sample| s@)
}

/// A target node and its channels.
pub type Target = (usize, crate::animclip::ChannelsView);

/// Channels with one more set; a later channel of a kind replaces an earlier one.
pub open spec fn with_keys(
    c: crate::animclip::ChannelsView,
    times: Seq<u32>,
    keys: KeysView,
) -> crate::animclip::ChannelsView {
    match keys {
        KeysView::Translations(v) => (Some((times, v)), c.1, c.2),
        KeysView::Rotations(v) => (c.0, Some((times, v)), c.2),
        KeysView::Scales(v) => (c.0, c.1, Some((times, v))),
        KeysView::Other => c,
    }
}

/// Targets with one more channel; a node that is new is added at the end.
pub open spec fn with_channel(
    targets: Seq<Target>,
    node: usize,
    times: Seq<u32>,
    keys: KeysView,
) -> Seq<Target>
    decreases targets.len(),
{
    if targets.len() == 0 {
        seq![(node, with_keys((None, None, None), times, keys))]
    } else if targets[0].0 == node {
        seq![(node, with_keys(targets[0].1, times, keys))] + targets.skip(1)
    } else {
        seq![targets[0]] + with_channel(targets.skip(1), node, times, keys)
    }
}

/// The targets of a list of samples: each linear sample with times, in order.
pub open spec fn gathered(samples: Seq<SampleView>) -> Seq<Target>
    decreases samples.len(),
{
    if samples.len() == 0 {
        seq![]
    } else {
        let rest = gathered(samples.drop_last());
        let s = samples.last();
        match s.times {
            Some(t) if s.linear => with_channel(rest, s.node, t, s.keys),
            _ => rest,
        }
    }
}

/// How many samples are not linear.
pub open spec fn skipped_count(samples: Seq<SampleView>) -> nat
    decreases samples.len(),
{
    if samples.len() == 0 {
        0
    } else {
        skipped_count(samples.drop_last()) + if samples.last().linear {
            0nat
        } else {
            1nat
        }
    }
}

/// What a list of targets holds.
pub open spec fn target_views(v: Seq<(usize, Channels)>) -> Seq<Target> {
    v.map_values(|t: (usize, Channels)| (t.0, t.1@))
}

fn copy_list(v: &Vec<u32>) -> (r: Vec<u32>)
    ensures
        r@ == v@,
{
    let r = v.clone();
    assert(r@ =~= v@);
    r
}

fn add_keys(c: Channels, times: Vec<u32>, keys: &Keys) -> (r: Channels)
    ensures
        r@ == with_keys(c@, times@, keys@),
{
    match keys {
        Keys::Translations(v) => Channels {
            translation: Some(Channel { times, values: copy_list(v) }),
            rotation: c.rotation,
            scale: c.scale,
        },
        Keys::Rotations(v) => Channels {
            translation: c.translation,
            rotation: Some(Channel { times, values: copy_list(v) }),
            scale: c.scale,
        },
        Keys::Scales(v) => Channels {
            translation: c.translation,
            rotation: c.rotation,
            scale: Some(Channel { times, values: copy_list(v) }),
        },
        Keys::Other => c,
    }
}

/// Where a node stands among the targets.
proof fn lemma_with_channel_at(targets: Seq<Target>, node: usize, times: Seq<u32>, keys: KeysView, i: int)
    requires
        0 <= i <= targets.len(),
        forall|k: int| 0 <= k < i ==> (#[trigger] targets[k]).0 != node,
        i < targets.len() ==> targets[i].0 == node,
    ensures
        with_channel(targets, node, times, keys) == (if i < targets.len() {
            targets.update(i, (node, with_keys(targets[i].1, times, keys)))
        } else {
            targets.push((node, with_keys((None, None, None), times, keys)))
        }),
    decreases targets.len(),
{
    if targets.len() == 0 {
        assert(with_channel(targets, node, times, keys) =~= targets.push(
            (node, with_keys((None, None, None), times, keys)),
        ));
    } else if i == 0 {
        assert(with_channel(targets, node, times, keys) =~= targets.update(
            0,
            (node, with_keys(targets[0].1, times, keys)),
        ));
    } else {
        assert(targets[0].0 != node);
        lemma_with_channel_at(targets.skip(1), node, times, keys, i - 1);
        if i < targets.len() {
            assert(with_channel(targets, node, times, keys) =~= targets.update(
                i,
                (node, with_keys(targets[i].1, times, keys)),
            ));
        } else {
            assert(with_channel(targets, node, times, keys) =~= targets.push(
                (node, with_keys((None, None, None), times, keys)),
            ));
        }
    }
}

fn add_channel(targets: &mut Vec<(usize, Channels)>, node: usize, times: Vec<u32>, keys: &Keys)
    ensures
        target_views(final(targets)@) == with_channel(
            target_views(old(targets)@),
            node,
            times@,
            keys@,
        ),
{
    let ghost before = targets@;
    let ghost seen = target_views(before);
    let mut i: usize = 0;
    while i < targets.len() && targets[i].0 != node
        invariant
            targets@ == before,
            seen == target_views(before),
            i <= before.len(),
            forall|k: int| 0 <= k < i ==> (#[trigger] seen[k]).0 != node,
        decreases before.len() - i,
    {
        assert(seen[i as int].0 == targets@[i as int].0);
        i = i + 1;
    }
    proof {
        if i < before.len() {
            assert(seen[i as int].0 == node);
        }
        lemma_with_channel_at(seen, node, times@, keys@, i as int);
    }
    if i < targets.len() {
        let old_entry = targets.remove(i);
        let ghost t = times@;
        let entry = (node, add_keys(old_entry.1, times, keys));
        targets.insert(i, entry);
        assert(target_views(targets@) =~= seen.update(
            i as int,
            (node, with_keys(seen[i as int].1, t, keys@)),
        ));
    } else {
        let ghost t = times@;
        let empty = Channels { translation: None, rotation: None, scale: None };
        let entry = (node, add_keys(empty, times, keys));
        targets.push(entry);
        assert(target_views(targets@) =~= seen.push(
            (node, with_keys((None, None, None), t, keys@)),
        ));
    }
}

/// Gathers the channels of all animations by target node, and counts the samples that are not
/// linear.
pub fn gather(samples: &Vec<Sample>) -> (r: (Vec<(usize, Channels)>, usize))
    ensures
        target_views(r.0@) == gathered(sample_views(samples@)),
        r.1 == skipped_count(sample_views(samples@)),
{
    let ghost all = sample_views(samples@);
    let mut targets: Vec<(usize, Channels)> = Vec::new();
    let mut skipped: usize = 0;
    assert(target_views(targets@) =~= gathered(all.take(0)));
    for i in 0..samples.len()
        invariant
            all == sample_views(samples@),
            skipped <= i,
            target_views(targets@) == gathered(all.take(i as int)),
            skipped == skipped_count(all.take(i as int)),
    {
        let s = &samples[i];
        assert(all.take(i + 1).drop_last() =~= all.take(i as int));
        assert(all.take(i + 1).last() == s@);
        if !s.linear {
            skipped = skipped + 1;
        } else if let Some(t) = &s.times {
            add_channel(&mut targets, s.node, copy_list(t), &s.keys);
        }
    }
    assert(all.take(all.len() as int) =~= all);
    (targets, skipped)
}

/// The name paths by node: those known so far, and those of a tree below `prefix`. An unnamed
/// node has none, and neither has any node below it.
pub open spec fn tree_paths(
    doc: Document,
    t: SceneNode,
    prefix: Seq<Seq<char>>,
    known: Map<usize, Seq<Seq<char>>>,
) -> Map<usize, Seq<Seq<char>>>
    decreases t,
{
    match doc.nodes@[t.index as int].name {
        Some(n) => list_paths(
            doc,
            t.children@,
            prefix.push(n@),
            known.insert(t.index, prefix.push(n@)),
        ),
        None => known,
    }
}

/// The name paths by node: those known so far, and those of a list of trees below `prefix`.
pub open spec fn list_paths(
    doc: Document,
    list: Seq<SceneNode>,
    prefix: Seq<Seq<char>>,
    known: Map<usize, Seq<Seq<char>>>,
) -> Map<usize, Seq<Seq<char>>>
    decreases list,
{
    if list.len() == 0 {
        known
    } else {
        tree_paths(
            doc,
            list.last(),
            prefix,
            list_paths(doc, list.drop_last(), prefix, known),
        )
    }
}

/// Whether a table holds the paths of a map.
pub open spec fn holds_paths(
    table: Seq<Option<Vec<String>>>,
    m: Map<usize, Seq<Seq<char>>>,
) -> bool {
    forall|n: usize|
        #![trigger table[n as int]]
        n < table.len() ==> match table[n as int] {
            Some(p) => m.dom().contains(n) && m[n] == text::texts(p@),
            None => !m.dom().contains(n),
        }
}

fn copy_path(p: &Vec<String>) -> (r: Vec<String>)
    ensures
        text::texts(r@) == text::texts(p@),
{
    let mut out: Vec<String> = Vec::new();
    for i in 0..p.len()
        invariant
            text::texts(out@) == text::texts(p@).take(i as int),
    {
        let s = p[i].clone();
        proof {
            text::lemma_texts_push(out@, s);
        }
        out.push(s);
        assert(text::texts(out@) =~= text::texts(p@).take(i + 1));
    }
    assert(text::texts(out@) =~= text::texts(p@));
    out
}

fn walk_paths(
    doc: &Document,
    t: &SceneNode,
    prefix: &Vec<String>,
    out: &mut Vec<Option<Vec<String>>>,
    Ghost(known): Ghost<Map<usize, Seq<Seq<char>>>>,
)
    requires
        crate::walk::exists_in(*doc, *t),
        old(out)@.len() == doc.nodes@.len(),
        holds_paths(old(out)@, known),
    ensures
        final(out)@.len() == doc.nodes@.len(),
        holds_paths(final(out)@, tree_paths(*doc, *t, text::texts(prefix@), known)),
    decreases *t,
{
    if let Some(n) = &doc.nodes[t.index].name {
        let mut path = copy_path(prefix);
        let last = n.clone();
        proof {
            text::lemma_texts_push(path@, last);
        }
        path.push(last);
        let ghost here = text::texts(prefix@).push(n@);
        out.set(t.index, Some(copy_path(&path)));
        let ghost mut now = known.insert(t.index, here);
        for k in 0..t.children.len()
            invariant
                crate::walk::exists_in(*doc, *t),
                text::texts(path@) == here,
                out@.len() == doc.nodes@.len(),
                now == list_paths(
                    *doc,
                    t.children@.take(k as int),
                    here,
                    known.insert(t.index, here),
                ),
                holds_paths(out@, now),
        {
            assert(t.children@.take(k + 1).drop_last() =~= t.children@.take(k as int));
            assert(crate::walk::exists_in(*doc, t.children@[k as int]));
            walk_paths(doc, &t.children[k], &path, out, Ghost(now));
            proof {
                now = tree_paths(*doc, t.children@[k as int], here, now);
            }
        }
        assert(t.children@.take(t.children@.len() as int) =~= t.children@);
    }
}

/// For each node, the names from a top-level node down to it, where each of them has one.
pub fn node_name_paths(doc: &Document, roots: &Vec<SceneNode>) -> (r: Vec<Option<Vec<String>>>)
    requires
        forall|k: int| 0 <= k < roots@.len() ==> crate::walk::exists_in(*doc, #[trigger] roots@[k]),
    ensures
        r@.len() == doc.nodes@.len(),
        holds_paths(r@, list_paths(*doc, roots@, seq![], Map::empty())),
{
    let mut out: Vec<Option<Vec<String>>> = Vec::new();
    for i in 0..doc.nodes.len()
        invariant
            out@.len() == i,
            forall|k: int| 0 <= k < i ==> (#[trigger] out@[k]) is None,
    {
        out.push(None);
    }
    let prefix: Vec<String> = Vec::new();
    assert(text::texts(prefix@) =~= seq![]);
    let ghost mut now: Map<usize, Seq<Seq<char>>> = Map::empty();
    for k in 0..roots.len()
        invariant
            forall|j: int|
                0 <= j < roots@.len() ==> crate::walk::exists_in(*doc, #[trigger] roots@[j]),
            text::texts(prefix@) == Seq::<Seq<char>>::empty(),
            out@.len() == doc.nodes@.len(),
            now == list_paths(*doc, roots@.take(k as int), seq![], Map::empty()),
            holds_paths(out@, now),
    {
        assert(roots@.take(k + 1).drop_last() =~= roots@.take(k as int));
        walk_paths(doc, &roots[k], &prefix, &mut out, Ghost(now));
        proof {
            now = tree_paths(*doc, roots@[k as int], seq![], now);
        }
    }
    assert(roots@.take(roots@.len() as int) =~= roots@);
    out
}

/// Whether a path comes no later than another: by the first name that differs, a path before one
/// that goes on.
pub open spec fn path_le(a: Seq<Seq<char>>, b: Seq<Seq<char>>) -> bool
    decreases a.len(),
{
    if a.len() == 0 {
        true
    } else if b.len() == 0 {
        false
    } else if a[0] == b[0] {
        path_le(a.skip(1), b.skip(1))
    } else {
        order::text_le(a[0], b[0])
    }
}

proof fn lemma_path_total(a: Seq<Seq<char>>, b: Seq<Seq<char>>)
    ensures
        path_le(a, b) || path_le(b, a),
    decreases a.len(),
{
    if a.len() > 0 && b.len() > 0 {
        lemma_path_total(a.skip(1), b.skip(1));
        order::text_le_total(a[0], b[0]);
    }
}

proof fn lemma_path_transitive(a: Seq<Seq<char>>, b: Seq<Seq<char>>, c: Seq<Seq<char>>)
    requires
        path_le(a, b),
        path_le(b, c),
    ensures
        path_le(a, c),
    decreases a.len(),
{
    if a.len() > 0 && b.len() > 0 && c.len() > 0 {
        if a[0] == b[0] && b[0] == c[0] {
            lemma_path_transitive(a.skip(1), b.skip(1), c.skip(1));
        } else if a[0] != b[0] && b[0] != c[0] {
            order::text_le_transitive(a[0], b[0], c[0]);
            if a[0] == c[0] {
                order::text_le_antisymmetric(a[0], b[0]);
            }
        }
    }
}

/// Tests whether a path comes no later than another.
pub fn is_path_le(a: &Vec<String>, b: &Vec<String>) -> (r: bool)
    ensures
        r == path_le(text::texts(a@), text::texts(b@)),
{
    let ghost (x, y) = (text::texts(a@), text::texts(b@));
    assert(x.skip(0) =~= x && y.skip(0) =~= y);
    let mut i: usize = 0;
    while i < a.len()
        invariant
            x == text::texts(a@),
            y == text::texts(b@),
            i <= a@.len(),
            i <= b@.len(),
            path_le(x, y) == path_le(x.skip(i as int), y.skip(i as int)),
        decreases a@.len() - i,
    {
        assert(x.skip(i as int).skip(1) =~= x.skip(i + 1));
        if i >= b.len() {
            return false;
        }
        assert(y.skip(i as int).skip(1) =~= y.skip(i + 1));
        if !text::same_text(a[i].as_str(), b[i].as_str()) {
            return order::is_text_le(a[i].as_str(), b[i].as_str());
        }
        i = i + 1;
    }
    true
}

/// The records of the targets that have a path, in order.
pub open spec fn named(
    targets: Seq<Target>,
    paths: Map<usize, Seq<Seq<char>>>,
) -> Seq<crate::animclip::RecordView>
    decreases targets.len(),
{
    if targets.len() == 0 {
        seq![]
    } else {
        let rest = named(targets.drop_last(), paths);
        let t = targets.last();
        if paths.dom().contains(t.0) {
            rest.push((paths[t.0], t.1))
        } else {
            rest
        }
    }
}

/// The order of records by path.
pub open spec fn paths_le(rs: Seq<crate::animclip::RecordView>) -> spec_fn(int, int) -> bool {
    |a: int, b: int| path_le(rs[a].0, rs[b].0)
}

/// Records in the order `at` gives.
pub open spec fn arranged(
    rs: Seq<crate::animclip::RecordView>,
    at: Seq<usize>,
) -> Seq<crate::animclip::RecordView> {
    Seq::new(at.len(), |k: int| rs[at[k] as int])
}

fn copy_channel(c: &Option<Channel>) -> (r: Option<Channel>)
    ensures
        crate::animclip::opt_channel(r) == crate::animclip::opt_channel(*c),
{
    match c {
        Some(k) => Some(Channel { times: copy_list(&k.times), values: copy_list(&k.values) }),
        None => None,
    }
}

fn copy_channels(c: &Channels) -> (r: Channels)
    ensures
        r@ == c@,
{
    Channels {
        translation: copy_channel(&c.translation),
        rotation: copy_channel(&c.rotation),
        scale: copy_channel(&c.scale),
    }
}

fn name_targets(
    targets: &Vec<(usize, Channels)>,
    table: &Vec<Option<Vec<String>>>,
    Ghost(paths): Ghost<Map<usize, Seq<Seq<char>>>>,
) -> (r: Vec<ClipRecord>)
    requires
        holds_paths(table@, paths),
        forall|n: usize| paths.dom().contains(n) ==> n < table@.len(),
    ensures
        crate::animclip::record_views(r@) == named(target_views(targets@), paths),
{
    let mut out: Vec<ClipRecord> = Vec::new();
    let ghost all = target_views(targets@);
    assert(crate::animclip::record_views(out@) =~= named(all.take(0), paths));
    for i in 0..targets.len()
        invariant
            holds_paths(table@, paths),
            forall|n: usize| paths.dom().contains(n) ==> n < table@.len(),
            all == target_views(targets@),
            crate::animclip::record_views(out@) == named(all.take(i as int), paths),
    {
        assert(all.take(i + 1).drop_last() =~= all.take(i as int));
        let node: usize = targets[i].0;
        assert(all.take(i + 1).last() == (node, targets@[i as int].1@));
        let ghost before = out@;
        if node < table.len() {
            assert(table@[node as int] == table@[node as int]);
            if let Some(p) = &table[node] {
                let record = ClipRecord {
                    path: copy_path(p),
                    channels: copy_channels(&targets[i].1),
                };
                let ghost v = record@;
                out.push(record);
                assert(crate::animclip::record_views(out@) =~= crate::animclip::record_views(
                    before,
                ).push(v));
            }
        }
    }
    assert(all.take(all.len() as int) =~= all);
    out
}

proof fn lemma_paths_in_range(
    doc: Document,
    list: Seq<SceneNode>,
    prefix: Seq<Seq<char>>,
    known: Map<usize, Seq<Seq<char>>>,
)
    requires
        forall|k: int| 0 <= k < list.len() ==> crate::walk::exists_in(doc, #[trigger] list[k]),
        forall|n: usize| known.dom().contains(n) ==> n < doc.nodes@.len(),
    ensures
        forall|n: usize|
            list_paths(doc, list, prefix, known).dom().contains(n) ==> n < doc.nodes@.len(),
    decreases list,
{
    if list.len() > 0 {
        lemma_paths_in_range(doc, list.drop_last(), prefix, known);
        let most = list_paths(doc, list.drop_last(), prefix, known);
        let t = list.last();
        assert(crate::walk::exists_in(doc, list[list.len() - 1]));
        assert(list_paths(doc, list, prefix, known) == tree_paths(doc, t, prefix, most));
        if let Some(n) = doc.nodes@[t.index as int].name {
            assert(forall|k: int|
                0 <= k < t.children@.len() ==> crate::walk::exists_in(
                    doc,
                    #[trigger] t.children@[k],
                ));
            lemma_paths_in_range(
                doc,
                t.children@,
                prefix.push(n@),
                most.insert(t.index, prefix.push(n@)),
            );
            assert(tree_paths(doc, t, prefix, most) == list_paths(
                doc,
                t.children@,
                prefix.push(n@),
                most.insert(t.index, prefix.push(n@)),
            ));
        }
    }
}

/// A clip: its bytes, how many targets it has, and how many channels were left out.
pub struct Clip {
    pub bytes: Vec<u8>,
    pub targets: usize,
    pub skipped: usize,
}

/// Whether a clip is that of a document's animations: the channels gathered by node, for the nodes
/// that can be found by name, in the order of their paths.
#[verifier::opaque]
pub open spec fn is_clip(
    clip: Clip,
    doc: Document,
    roots: Seq<SceneNode>,
    samples: Seq<SampleView>,
) -> bool {
    let records = named(gathered(samples), list_paths(doc, roots, seq![], Map::empty()));
    &&& clip.targets == records.len()
    &&& clip.skipped == skipped_count(samples)
    &&& exists|at: Seq<usize>|
        order::is_stable_order(at, paths_le(records), records.len()) && clip.bytes@
            == crate::animclip::clip_bytes(#[trigger] arranged(records, at))
}

/// Packs a document's animations into a clip: the channels gathered by node, for the nodes that
/// can be found by name, in the order of their paths.
pub fn transcode_animclip(doc: &Document, roots: &Vec<SceneNode>, samples: &Vec<Sample>) -> (r: Clip)
    requires
        forall|k: int| 0 <= k < roots@.len() ==> crate::walk::exists_in(*doc, #[trigger] roots@[k]),
    ensures
        is_clip(r, *doc, roots@, sample_views(samples@)),
{
    reveal(is_clip);
    let table = node_name_paths(doc, roots);
    let ghost paths = list_paths(*doc, roots@, seq![], Map::empty());
    proof {
        lemma_paths_in_range(*doc, roots@, seq![], Map::empty());
    }
    let (targets, skipped) = gather(samples);
    let records = name_targets(&targets, &table, Ghost(paths));
    let ghost rs = named(gathered(sample_views(samples@)), paths);
    assert(rs == crate::animclip::record_views(records@));
    let ghost rel = paths_le(rs);
    proof {
        assert forall|a: int, b: int| 0 <= a < rs.len() && 0 <= b < rs.len() implies #[trigger] rel(
            a,
            b,
        ) || rel(b, a) by {
            lemma_path_total(rs[a].0, rs[b].0);
        }
        assert forall|a: int, b: int, c: int|
            #![trigger rel(a, b), rel(b, c)]
            0 <= a < rs.len() && 0 <= b < rs.len() && 0 <= c < rs.len() && rel(a, b) && rel(
                b,
                c,
            ) implies rel(a, c) by {
            lemma_path_transitive(rs[a].0, rs[b].0, rs[c].0);
        }
    }
    let le = |a: usize, b: usize| -> (x: bool)
        requires
            a < records@.len(),
            b < records@.len(),
        ensures
            x == path_le(records@[a as int]@.0, records@[b as int]@.0),
        { is_path_le(&records[a].path, &records[b].path) };
    assert(forall|i: int| 0 <= i < rs.len() ==> rs[i] == #[trigger] records@[i]@);
    let at = order::stable_order(records.len(), le, Ghost(rel));
    let mut sorted: Vec<ClipRecord> = Vec::new();
    for k in 0..at.len()
        invariant
            rs == crate::animclip::record_views(records@),
            forall|j: int| 0 <= j < at@.len() ==> #[trigger] at@[j] < records@.len(),
            crate::animclip::record_views(sorted@) == arranged(rs, at@).take(k as int),
    {
        let r = &records[at[k]];
        let copy = ClipRecord { path: copy_path(&r.path), channels: copy_channels(&r.channels) };
        let ghost v = copy@;
        let ghost before = sorted@;
        assert(v == rs[at@[k as int] as int]);
        sorted.push(copy);
        assert(crate::animclip::record_views(sorted@) =~= crate::animclip::record_views(
            before,
        ).push(v));
        assert(crate::animclip::record_views(sorted@) =~= arranged(rs, at@).take(k + 1));
    }
    assert(crate::animclip::record_views(sorted@) =~= arranged(rs, at@));
    let bytes = crate::animclip::encode_clip(&sorted);
    assert(order::is_stable_order(at@, paths_le(rs), rs.len()));
    Clip { bytes, targets: records.len(), skipped }
}

/// Whether a sample counts: it is linear and has times.
pub open spec fn is_sampled(s: SampleView) -> bool {
    s.linear && s.times is Some
}

/// Whether a sample moves a node: translation keys that count.
pub open spec fn translates(s: SampleView, node: usize) -> bool {
    is_sampled(s) && s.node == node && s.keys is Translations
}

/// Whether a sample turns a node: rotation keys that count.
pub open spec fn rotates(s: SampleView, node: usize) -> bool {
    is_sampled(s) && s.node == node && s.keys is Rotations
}

/// Whether a sample sizes a node: scale keys that count.
pub open spec fn scales(s: SampleView, node: usize) -> bool {
    is_sampled(s) && s.node == node && s.keys is Scales
}

/// Whether a channel holds what the last sample of its kind has, or nothing where there is none.
/// `kind` says which samples are of its kind, and `values` what they hold.
pub open spec fn holds_last(
    channel: Option<(Seq<u32>, Seq<u32>)>,
    samples: Seq<SampleView>,
    kind: spec_fn(SampleView) -> bool,
    values: spec_fn(SampleView) -> Seq<u32>,
) -> bool {
    match channel {
        None => forall|i: int| 0 <= i < samples.len() ==> !kind(#[trigger] samples[i]),
        Some((t, v)) => exists|i: int|
            0 <= i < samples.len() && kind(#[trigger] samples[i]) && samples[i].times == Some(t)
                && values(samples[i]) == v && forall|j: int|
                i < j < samples.len() ==> !kind(#[trigger] samples[j]),
    }
}

/// Whether a target is that of its node's samples, channel by channel.
pub open spec fn is_target_of(t: Target, samples: Seq<SampleView>) -> bool {
    &&& holds_last(
        t.1.0,
        samples,
        |s: SampleView| translates(s, t.0),
        |s: SampleView| s.keys->Translations_0,
    )
    &&& holds_last(
        t.1.1,
        samples,
        |s: SampleView| rotates(s, t.0),
        |s: SampleView| s.keys->Rotations_0,
    )
    &&& holds_last(
        t.1.2,
        samples,
        |s: SampleView| scales(s, t.0),
        |s: SampleView| s.keys->Scales_0,
    )
}

/// Whether samples of a node count.
pub open spec fn is_targeted(samples: Seq<SampleView>, node: usize) -> bool {
    exists|i: int|
        0 <= i < samples.len() && is_sampled(#[trigger] samples[i]) && samples[i].node == node
}

proof fn lemma_holds_more(
    channel: Option<(Seq<u32>, Seq<u32>)>,
    samples: Seq<SampleView>,
    kind: spec_fn(SampleView) -> bool,
    values: spec_fn(SampleView) -> Seq<u32>,
)
    requires
        samples.len() > 0,
        holds_last(channel, samples.drop_last(), kind, values),
        !kind(samples.last()),
    ensures
        holds_last(channel, samples, kind, values),
{
    let less = samples.drop_last();
    assert(forall|i: int| 0 <= i < less.len() ==> less[i] == samples[i]);
    match channel {
        None => {
            assert forall|i: int| 0 <= i < samples.len() implies !kind(#[trigger] samples[i]) by {
                if i < less.len() {
                    assert(!kind(less[i]));
                }
            }
        },
        Some((t, v)) => {
            let i = choose|i: int|
                0 <= i < less.len() && kind(#[trigger] less[i]) && less[i].times == Some(t)
                    && values(less[i]) == v && forall|j: int|
                    i < j < less.len() ==> !kind(#[trigger] less[j]);
            assert(kind(samples[i]) && samples[i].times == Some(t) && values(samples[i]) == v);
            assert forall|j: int| i < j < samples.len() implies !kind(#[trigger] samples[j]) by {
                if j < less.len() {
                    assert(!kind(less[j]));
                }
            }
        },
    }
}

proof fn lemma_holds_new(
    samples: Seq<SampleView>,
    kind: spec_fn(SampleView) -> bool,
    values: spec_fn(SampleView) -> Seq<u32>,
    t: Seq<u32>,
)
    requires
        samples.len() > 0,
        kind(samples.last()),
        samples.last().times == Some(t),
    ensures
        holds_last(Some((t, values(samples.last()))), samples, kind, values),
{
    let i = samples.len() - 1;
    assert(kind(samples[i]) && samples[i].times == Some(t));
}

proof fn lemma_target_kept(t: Target, samples: Seq<SampleView>)
    requires
        samples.len() > 0,
        is_target_of(t, samples.drop_last()),
        !is_sampled(samples.last()) || samples.last().node != t.0,
    ensures
        is_target_of(t, samples),
{
    lemma_holds_more(
        t.1.0,
        samples,
        |s: SampleView| translates(s, t.0),
        |s: SampleView| s.keys->Translations_0,
    );
    lemma_holds_more(
        t.1.1,
        samples,
        |s: SampleView| rotates(s, t.0),
        |s: SampleView| s.keys->Rotations_0,
    );
    lemma_holds_more(
        t.1.2,
        samples,
        |s: SampleView| scales(s, t.0),
        |s: SampleView| s.keys->Scales_0,
    );
}

proof fn lemma_target_grown(node: usize, c: crate::animclip::ChannelsView, samples: Seq<SampleView>)
    requires
        samples.len() > 0,
        is_target_of((node, c), samples.drop_last()),
        is_sampled(samples.last()),
        samples.last().node == node,
    ensures
        is_target_of(
            (node, with_keys(c, samples.last().times->Some_0, samples.last().keys)),
            samples,
        ),
{
    let s = samples.last();
    let t = s.times->Some_0;
    let (moves, turns, sizes) = (
        |s: SampleView| translates(s, node),
        |s: SampleView| rotates(s, node),
        |s: SampleView| scales(s, node),
    );
    let (mv, tv, sv) = (
        |s: SampleView| s.keys->Translations_0,
        |s: SampleView| s.keys->Rotations_0,
        |s: SampleView| s.keys->Scales_0,
    );
    if moves(s) {
        lemma_holds_new(samples, moves, mv, t);
    } else {
        lemma_holds_more(c.0, samples, moves, mv);
    }
    if turns(s) {
        lemma_holds_new(samples, turns, tv, t);
    } else {
        lemma_holds_more(c.1, samples, turns, tv);
    }
    if sizes(s) {
        lemma_holds_new(samples, sizes, sv, t);
    } else {
        lemma_holds_more(c.2, samples, sizes, sv);
    }
}

proof fn lemma_find_node(targets: Seq<Target>, node: usize) -> (i: int)
    ensures
        0 <= i <= targets.len(),
        forall|k: int| 0 <= k < i ==> (#[trigger] targets[k]).0 != node,
        i < targets.len() ==> targets[i].0 == node,
    decreases targets.len(),
{
    if targets.len() == 0 {
        0
    } else if targets[0].0 == node {
        0
    } else {
        let j = lemma_find_node(targets.skip(1), node);
        assert forall|k: int| 0 <= k < j + 1 implies (#[trigger] targets[k]).0 != node by {
            if k > 0 {
                assert(targets.skip(1)[k - 1].0 != node);
            }
        }
        if j < targets.skip(1).len() {
            assert(targets.skip(1)[j] == targets[j + 1]);
        }
        j + 1
    }
}

/// A target's translation channel holds the times and values of its node's last translation
/// sample, its rotation channel those of the last rotation sample and its scale channel those of
/// the last scale sample; a kind that no sample has is no channel. Samples that are not linear or
/// have no times do not count. Every node whose samples count is one target, and no other is.
pub proof fn channels_hold_their_samples(samples: Seq<SampleView>)
    ensures
        forall|k: int|
            0 <= k < gathered(samples).len() ==> is_target_of(
                #[trigger] gathered(samples)[k],
                samples,
            ) && is_targeted(samples, gathered(samples)[k].0),
        forall|j: int, k: int|
            #![trigger gathered(samples)[j], gathered(samples)[k]]
            0 <= j < k < gathered(samples).len() ==> gathered(samples)[j].0
                != gathered(samples)[k].0,
        forall|i: int|
            0 <= i < samples.len() && is_sampled(#[trigger] samples[i]) ==> exists|k: int|
                0 <= k < gathered(samples).len() && (#[trigger] gathered(samples)[k]).0
                    == samples[i].node,
    decreases samples.len(),
{
    let all = gathered(samples);
    if samples.len() > 0 {
        let less = samples.drop_last();
        let s = samples.last();
        let before = gathered(less);
        channels_hold_their_samples(less);
        assert(forall|i: int| 0 <= i < less.len() ==> less[i] == samples[i]);
        assert forall|n: usize| is_targeted(less, n) implies is_targeted(samples, n) by {
            let i = choose|i: int|
                0 <= i < less.len() && is_sampled(#[trigger] less[i]) && less[i].node == n;
            assert(is_sampled(samples[i]));
        }
        if !is_sampled(s) {
            assert forall|k: int| 0 <= k < all.len() implies is_target_of(
                #[trigger] all[k],
                samples,
            ) && is_targeted(samples, all[k].0) by {
                assert(is_target_of(before[k], less) && is_targeted(less, before[k].0));
                lemma_target_kept(all[k], samples);
            }
            assert forall|i: int| 0 <= i < samples.len() && is_sampled(#[trigger] samples[i]) implies exists|
                k: int,
            | 0 <= k < all.len() && (#[trigger] all[k]).0 == samples[i].node by {
                assert(i < less.len());
                assert(is_sampled(less[i]));
            }
        } else {
            let t = s.times->Some_0;
            let at = lemma_find_node(before, s.node);
            lemma_with_channel_at(before, s.node, t, s.keys, at);
            assert(is_sampled(samples[samples.len() - 1]));
            assert(is_targeted(samples, s.node));
            if at == before.len() {
                let none: crate::animclip::ChannelsView = (None, None, None);
                assert(is_target_of((s.node, none), less)) by {
                    assert forall|i: int| 0 <= i < less.len() implies !(is_sampled(
                        #[trigger] less[i],
                    ) && less[i].node == s.node) by {
                        if is_sampled(less[i]) && less[i].node == s.node {
                            let k = choose|k: int|
                                0 <= k < before.len() && (#[trigger] before[k]).0 == less[i].node;
                            assert(before[k].0 != s.node);
                        }
                    }
                }
                lemma_target_grown(s.node, none, samples);
            } else {
                assert(is_target_of(before[at], less));
                lemma_target_grown(s.node, before[at].1, samples);
            }
            assert forall|k: int| 0 <= k < all.len() implies is_target_of(
                #[trigger] all[k],
                samples,
            ) && is_targeted(samples, all[k].0) by {
                if k != at {
                    assert(all[k] == before[k]);
                    assert(is_target_of(before[k], less) && is_targeted(less, before[k].0));
                    if at < before.len() {
                        if k < at {
                            assert(before[k].0 != before[at].0);
                        } else {
                            assert(before[at].0 != before[k].0);
                        }
                    } else {
                        assert(before[k].0 != s.node);
                    }
                    lemma_target_kept(all[k], samples);
                }
            }
            assert forall|j: int, k: int|
                #![trigger all[j], all[k]]
                0 <= j < k < all.len() implies all[j].0 != all[k].0 by {
                if j < before.len() {
                    assert(all[j].0 == before[j].0);
                }
                if k < before.len() {
                    assert(all[k].0 == before[k].0);
                    assert(before[j].0 != before[k].0);
                } else {
                    assert(before[j].0 != s.node);
                }
            }
            assert forall|i: int| 0 <= i < samples.len() && is_sampled(#[trigger] samples[i]) implies exists|
                k: int,
            | 0 <= k < all.len() && (#[trigger] all[k]).0 == samples[i].node by {
                if i < less.len() {
                    assert(is_sampled(less[i]));
                    let k = choose|k: int|
                        0 <= k < before.len() && (#[trigger] before[k]).0 == less[i].node;
                    assert(all[k].0 == before[k].0);
                } else {
                    assert(all[at].0 == s.node);
                }
            }
        }
    }
}

/// Paths are ordered by the first name in which they differ, and a node comes before what is below
/// it.
pub proof fn paths_differ_by_their_first_difference(
    p: Seq<Seq<char>>,
    a: Seq<char>,
    x: Seq<Seq<char>>,
    b: Seq<char>,
    y: Seq<Seq<char>>,
)
    requires
        a != b,
        order::text_le(a, b),
    ensures
        path_le(p + seq![a] + x, p + seq![b] + y),
        !path_le(p + seq![b] + y, p + seq![a] + x),
        path_le(p, p + seq![a] + x),
        !path_le(p + seq![a] + x, p),
    decreases p.len(),
{
    let (s, t) = (p + seq![a] + x, p + seq![b] + y);
    if p.len() > 0 {
        let q = p.skip(1);
        paths_differ_by_their_first_difference(q, a, x, b, y);
        assert(s.skip(1) =~= q + seq![a] + x);
        assert(t.skip(1) =~= q + seq![b] + y);
        assert(s[0] == p[0] && t[0] == p[0]);
    } else {
        assert(s[0] == a && t[0] == b);
        if order::text_le(b, a) {
            order::text_le_antisymmetric(a, b);
        }
    }
}

/// Every sample that is not linear is left out and counted, and no other is.
pub proof fn left_out_samples_are_counted(samples: Seq<SampleView>)
    ensures
        skipped_count(samples) == samples.filter(|s: SampleView| !s.linear).len(),
    decreases samples.len(),
{
    reveal(Seq::filter);
    if samples.len() > 0 {
        left_out_samples_are_counted(samples.drop_last());
    }
}

/// A target is written exactly where its node has a path, with that path and with its channels as
/// they are, in order.
pub proof fn found_targets_are_written(
    targets: Seq<Target>,
    t: Target,
    paths: Map<usize, Seq<Seq<char>>>,
)
    ensures
        paths.dom().contains(t.0) ==> named(targets.push(t), paths) == named(targets, paths).push(
            (paths[t.0], t.1),
        ),
        !paths.dom().contains(t.0) ==> named(targets.push(t), paths) == named(targets, paths),
        named(Seq::<Target>::empty(), paths).len() == 0,
{
    assert(targets.push(t).drop_last() =~= targets);
}

/// A named node's path goes on from the one above it by its own name, and an unnamed node has none,
/// nor has anything below it.
pub proof fn paths_end_in_the_node(
    doc: Document,
    t: SceneNode,
    prefix: Seq<Seq<char>>,
    known: Map<usize, Seq<Seq<char>>>,
)
    requires
        t.children@.len() == 0,
    ensures
        match doc.nodes@[t.index as int].name {
            Some(n) => tree_paths(doc, t, prefix, known) == known.insert(t.index, prefix.push(n@)),
            None => tree_paths(doc, t, prefix, known) == known,
        },
{
}

/// Whether a node has this name.
pub open spec fn is_called(doc: Document, index: usize, name: Seq<char>) -> bool {
    match doc.nodes@[index as int].name {
        Some(n) => n@ == name,
        None => false,
    }
}

/// Whether nodes lead down from a root, each a child of the one before, with these names.
pub open spec fn leads_down(
    doc: Document,
    list: Seq<SceneNode>,
    n: usize,
    path: Seq<Seq<char>>,
) -> bool
    decreases list,
{
    path.len() > 0 && exists|k: int|
        #![trigger list[k]]
        0 <= k < list.len() && is_called(doc, list[k].index, path[0]) && ((path.len() == 1 && list[k].index == n) || leads_down(
            doc,
            list[k].children@,
            n,
            path.skip(1),
        ))
}

/// Whether every path of a map is known, or leads down from `list` below `prefix`.
pub open spec fn paths_lead_down(
    doc: Document,
    list: Seq<SceneNode>,
    prefix: Seq<Seq<char>>,
    known: Map<usize, Seq<Seq<char>>>,
    all: Map<usize, Seq<Seq<char>>>,
) -> bool {
    forall|n: usize|
        #![trigger all.dom().contains(n)]
        all.dom().contains(n) ==> (known.dom().contains(n) && known[n] == all[n]) || exists|
            rest: Seq<Seq<char>>,
        | all[n] == prefix + rest && #[trigger] leads_down(doc, list, n, rest)
}

/// A path is made of the names of the nodes from a root down to its own, in order.
pub proof fn paths_are_names_from_a_root(
    doc: Document,
    list: Seq<SceneNode>,
    prefix: Seq<Seq<char>>,
    known: Map<usize, Seq<Seq<char>>>,
)
    ensures
        paths_lead_down(doc, list, prefix, known, list_paths(doc, list, prefix, known)),
    decreases list,
{
    if list.len() > 0 {
        let less = list.drop_last();
        let t = list.last();
        let most = list_paths(doc, less, prefix, known);
        let all = list_paths(doc, list, prefix, known);
        paths_are_names_from_a_root(doc, less, prefix, known);
        assert(all == tree_paths(doc, t, prefix, most));
        assert(list[list.len() - 1] == t);
        if let Some(m) = doc.nodes@[t.index as int].name {
            let deeper = prefix.push(m@);
            let here = most.insert(t.index, deeper);
            assert(decreases_to!(list => list[list.len() - 1]));
            paths_are_names_from_a_root(doc, t.children@, deeper, here);
            assert(all == list_paths(doc, t.children@, deeper, here));
        }
        assert forall|n: usize|
            #![trigger all.dom().contains(n)]
            all.dom().contains(n) implies (known.dom().contains(n) && known[n] == all[n]) || exists|
            rest: Seq<Seq<char>>,
        | all[n] == prefix + rest && #[trigger] leads_down(doc, list, n, rest) by {
            match doc.nodes@[t.index as int].name {
                Some(m) => {
                    let deeper = prefix.push(m@);
                    let here = most.insert(t.index, deeper);
                    if here.dom().contains(n) && here[n] == all[n] {
                        if n == t.index {
                            let rest = seq![m@];
                            assert(all[n] =~= prefix + rest);
                            assert(leads_down(doc, list, n, rest));
                        } else {
                            lemma_wider(doc, list, prefix, known, most, n);
                            assert(most[n] == all[n]);
                        }
                    } else {
                        let rest = choose|rest: Seq<Seq<char>>|
                            all[n] == deeper + rest && #[trigger] leads_down(
                                doc,
                                t.children@,
                                n,
                                rest,
                            );
                        let longer = seq![m@] + rest;
                        assert(longer.skip(1) =~= rest);
                        assert(all[n] =~= prefix + longer);
                        assert(leads_down(doc, list, n, longer));
                    }
                },
                None => {
                    lemma_wider(doc, list, prefix, known, most, n);
                    assert(most[n] == all[n]);
                },
            }
        }
        assert(paths_lead_down(doc, list, prefix, known, all));
    } else {
        assert(list_paths(doc, list, prefix, known) == known);
        assert(paths_lead_down(doc, list, prefix, known, known));
    }
}

proof fn lemma_wider(
    doc: Document,
    list: Seq<SceneNode>,
    prefix: Seq<Seq<char>>,
    known: Map<usize, Seq<Seq<char>>>,
    most: Map<usize, Seq<Seq<char>>>,
    n: usize,
)
    requires
        list.len() > 0,
        paths_lead_down(doc, list.drop_last(), prefix, known, most),
        most.dom().contains(n),
    ensures
        (known.dom().contains(n) && known[n] == most[n]) || exists|rest: Seq<Seq<char>>|
            most[n] == prefix + rest && #[trigger] leads_down(doc, list, n, rest),
{
    let less = list.drop_last();
    assert(most.dom().contains(n));
    if !(known.dom().contains(n) && known[n] == most[n]) {
        let rest = choose|rest: Seq<Seq<char>>|
            most[n] == prefix + rest && #[trigger] leads_down(doc, less, n, rest);
        let k = choose|k: int|
            #![trigger less[k]]
            0 <= k < less.len() && is_called(doc, less[k].index, rest[0]) && ((rest.len() == 1 && less[k].index == n) || leads_down(
                doc,
                less[k].children@,
                n,
                rest.skip(1),
            ));
        assert(list[k] == less[k]);
        assert(leads_down(doc, list, n, rest));
    }
}

/// Keys keep what they animate, and a sample its node, its times and its keys.
pub proof fn samples_keep_their_fields(s: Sample)
    ensures
        match s.keys {
            Keys::Translations(v) => s@.keys == KeysView::Translations(v@),
            Keys::Rotations(v) => s@.keys == KeysView::Rotations(v@),
            Keys::Scales(v) => s@.keys == KeysView::Scales(v@),
            Keys::Other => s@.keys is Other,
        },
        s@.node == s.node,
        s@.linear == s.linear,
        s.times is None <==> s@.times is None,
        s.times is Some ==> s@.times == Some(s.times->0@),
{
}

/// A clip's bytes hold the targets that were found by name, all of them, in the order of their
/// paths; it counts them, and the samples it left out.
pub proof fn clips_hold_their_targets(
    clip: Clip,
    doc: Document,
    roots: Seq<SceneNode>,
    samples: Seq<SampleView>,
) -> (rs: Seq<crate::animclip::RecordView>)
    requires
        is_clip(clip, doc, roots, samples),
    ensures
        clip.bytes@ == crate::animclip::clip_bytes(rs),
        clip.targets == rs.len(),
        clip.skipped == samples.filter(|s: SampleView| !s.linear).len(),
        ({
            let records = named(gathered(samples), list_paths(doc, roots, seq![], Map::empty()));
            &&& forall|k: int| 0 <= k < rs.len() ==> records.contains(#[trigger] rs[k])
            &&& forall|k: int| 0 <= k < records.len() ==> rs.contains(#[trigger] records[k])
        }),
        forall|j: int, k: int|
            #![trigger rs[j], rs[k]]
            0 <= j < k < rs.len() ==> path_le(rs[j].0, rs[k].0),
{
    reveal(is_clip);
    left_out_samples_are_counted(samples);
    let records = named(gathered(samples), list_paths(doc, roots, seq![], Map::empty()));
    let at = choose|at: Seq<usize>|
        order::is_stable_order(at, paths_le(records), records.len()) && clip.bytes@
            == crate::animclip::clip_bytes(#[trigger] arranged(records, at));
    let rs = arranged(records, at);
    let le = paths_le(records);
    assert forall|k: int| 0 <= k < rs.len() implies records.contains(#[trigger] rs[k]) by {
        assert(records[at[k] as int] == rs[k]);
    }
    assert forall|k: int| 0 <= k < records.len() implies rs.contains(#[trigger] records[k]) by {
        order::stable_order_lists_all(at, le, records.len(), k);
        let j = choose|j: int| 0 <= j < records.len() && #[trigger] at[j] == k;
        assert(rs[j] == records[k]);
    }
    assert forall|j: int, k: int|
        #![trigger rs[j], rs[k]]
        0 <= j < k < rs.len() implies path_le(rs[j].0, rs[k].0) by {
        assert(at[j] < records.len() && at[k] < records.len());
        assert(le(at[j] as int, at[k] as int));
    }
    rs
}

} // verus!
