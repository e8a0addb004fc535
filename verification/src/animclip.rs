//! Animation clips: rigid translation, rotation and scale keys by node path, in a compact binary
//! format.
//!
//! Format (little-endian): the magic `ANIMCLP\x01`; the number of targets (32 bits); then for
//! each target the number of its path's names (16 bits), each name as its length in bytes (16
//! bits) and its UTF-8; a byte that says which channels follow (1 translation, 2 rotation, 4
//! scale); and for each of those, in that order, the number of keys (32 bits), their times and
//! their values, as 32-bit floats.

use vstd::prelude::*;
use vstd::utf8::*;
use crate::bytes;
use crate::text;

verus! {

/// The keys of one channel, as float bits: times, and values flattened.
pub struct Channel {
    pub times: Vec<u32>,
    pub values: Vec<u32>,
}

/// The channels of one target.
pub struct Channels {
    pub translation: Option<Channel>,
    pub rotation: Option<Channel>,
    pub scale: Option<Channel>,
}

/// A target: the names from a top-level node down to it, and its channels.
pub struct ClipRecord {
    pub path: Vec<String>,
    pub channels: Channels,
}

/// What a [`Channel`] holds.
pub type ChannelView = (Seq<u32>, Seq<u32>);

/// What a [`Channels`] holds: translation, rotation and scale.
pub type ChannelsView = (Option<ChannelView>, Option<ChannelView>, Option<ChannelView>);

/// What a [`ClipRecord`] holds.
pub type RecordView = (Seq<Seq<char>>, ChannelsView);

/// What an optional channel holds.
pub open spec fn opt_channel(c: Option<Channel>) -> Option<ChannelView> {
    match c {
        Some(k) => Some((k.times@, k.values@)),
        None => None,
    }
}

impl View for Channels {
    type V = ChannelsView;

    open spec fn view(&self) -> ChannelsView {
        (opt_channel(self.translation), opt_channel(self.rotation), opt_channel(self.scale))
    }
}

impl View for ClipRecord {
    type V = RecordView;

    open spec fn view(&self) -> RecordView {
        (text::texts(self.path@), self.channels@)
    }
}

/// The records of a list.
pub open spec fn record_views(rs: Seq<ClipRecord>) -> Seq<RecordView> {
    rs.map_values(|r: ClipRecord| r@)
}

/// A name as it is written: its length in bytes and its UTF-8.
pub open spec fn name_bytes(s: Seq<char>) -> Seq<u8> {
    bytes::le16(encode_utf8(s).len() as u16) + encode_utf8(s)
}

/// Names as they are written.
pub open spec fn names_bytes(v: Seq<Seq<char>>) -> Seq<u8>
    decreases v.len(),
{
    if v.len() == 0 {
        seq![]
    } else {
        name_bytes(v[0]) + names_bytes(v.skip(1))
    }
}

/// A channel as it is written; nothing where there is none.
pub open spec fn channel_bytes(c: Option<ChannelView>) -> Seq<u8> {
    match c {
        Some((times, values)) => bytes::le32(times.len() as u32) + bytes::le32_all(times)
            + bytes::le32_all(values),
        None => seq![],
    }
}

/// The byte that says which channels follow.
pub open spec fn mask_of(c: ChannelsView) -> u8 {
    ((if c.0 is Some {
        1int
    } else {
        0
    }) + (if c.1 is Some {
        2int
    } else {
        0
    }) + (if c.2 is Some {
        4int
    } else {
        0
    })) as u8
}

/// A target as it is written.
pub open spec fn record_bytes(r: RecordView) -> Seq<u8> {
    bytes::le16(r.0.len() as u16) + (names_bytes(r.0) + (seq![mask_of(r.1)] + (channel_bytes(
        r.1.0,
    ) + (channel_bytes(r.1.1) + channel_bytes(r.1.2)))))
}

/// Targets as they are written.
pub open spec fn records_bytes(rs: Seq<RecordView>) -> Seq<u8>
    decreases rs.len(),
{
    if rs.len() == 0 {
        seq![]
    } else {
        record_bytes(rs[0]) + records_bytes(rs.skip(1))
    }
}

/// What a clip begins with.
pub open spec fn magic() -> Seq<u8> {
    seq![65u8, 78u8, 73u8, 77u8, 67u8, 76u8, 80u8, 1u8]
}

/// A clip as it is written.
pub open spec fn clip_bytes(rs: Seq<RecordView>) -> Seq<u8> {
    magic() + bytes::le32(rs.len() as u32) + records_bytes(rs)
}

fn write_bytes(out: &mut Vec<u8>, b: &[u8])
    ensures
        final(out)@ == old(out)@ + b@,
{
    let ghost before = out@;
    for i in 0..b.len()
        invariant
            out@ == before + b@.take(i as int),
    {
        out.push(b[i]);
        assert(out@ =~= before + b@.take(i + 1));
    }
    assert(b@.take(b@.len() as int) =~= b@);
}

fn write_names(out: &mut Vec<u8>, path: &Vec<String>)
    ensures
        final(out)@ == old(out)@ + names_bytes(text::texts(path@)),
{
    let ghost before = out@;
    let ghost all = text::texts(path@);
    assert(all.skip(0) =~= all);
    for i in 0..path.len()
        invariant
            all == text::texts(path@),
            before + names_bytes(all) == out@ + names_bytes(all.skip(i as int)),
    {
        let ghost rest = all.skip(i as int);
        let ghost so_far = out@;
        assert(rest.skip(1) =~= all.skip(i + 1));
        let b = path[i].as_str().as_bytes();
        assert(rest[0] == path@[i as int]@);
        bytes::wu16(out, b.len() as u16);
        write_bytes(out, b);
        assert(out@ + names_bytes(rest.skip(1)) =~= so_far + names_bytes(rest));
    }
    assert(all.skip(all.len() as int) =~= Seq::<Seq<char>>::empty());
    assert(out@ =~= before + names_bytes(all));
}

fn write_channel(out: &mut Vec<u8>, c: &Option<Channel>)
    ensures
        final(out)@ == old(out)@ + channel_bytes(opt_channel(*c)),
{
    if let Some(k) = c {
        bytes::wu32(out, k.times.len() as u32);
        bytes::wu32_all(out, &k.times);
        bytes::wu32_all(out, &k.values);
    }
    assert(final(out)@ =~= old(out)@ + channel_bytes(opt_channel(*c)));
}

fn write_record(out: &mut Vec<u8>, r: &ClipRecord)
    ensures
        final(out)@ == old(out)@ + record_bytes(r@),
{
    bytes::wu16(out, r.path.len() as u16);
    write_names(out, &r.path);
    let mut mask: u8 = 0;
    if r.channels.translation.is_some() {
        mask = mask + 1;
    }
    if r.channels.rotation.is_some() {
        mask = mask + 2;
    }
    if r.channels.scale.is_some() {
        mask = mask + 4;
    }
    out.push(mask);
    assert(mask == mask_of(r.channels@));
    write_channel(out, &r.channels.translation);
    write_channel(out, &r.channels.rotation);
    write_channel(out, &r.channels.scale);
    assert(r.path@.len() == r@.0.len());
    assert(final(out)@ =~= old(out)@ + record_bytes(r@));
}

/// Writes a clip.
pub fn encode_clip(records: &Vec<ClipRecord>) -> (r: Vec<u8>)
    ensures
        r@ == clip_bytes(record_views(records@)),
{
    let mut out: Vec<u8> = Vec::new();
    out.push(65);
    out.push(78);
    out.push(73);
    out.push(77);
    out.push(67);
    out.push(76);
    out.push(80);
    out.push(1);
    assert(out@ =~= magic());
    bytes::wu32(&mut out, records.len() as u32);
    let ghost head = out@;
    let ghost all = record_views(records@);
    assert(all.skip(0) =~= all);
    for i in 0..records.len()
        invariant
            all == record_views(records@),
            head + records_bytes(all) == out@ + records_bytes(all.skip(i as int)),
    {
        let ghost rest = all.skip(i as int);
        let ghost so_far = out@;
        assert(rest.skip(1) =~= all.skip(i + 1));
        assert(rest[0] == records@[i as int]@);
        write_record(&mut out, &records[i]);
        assert(out@ + records_bytes(rest.skip(1)) =~= so_far + records_bytes(rest));
    }
    assert(all.skip(all.len() as int) =~= Seq::<RecordView>::empty());
    assert(out@ =~= head + records_bytes(all));
    out
}

/// Whether a channel's values go with its times, `dim` each, and its keys can be counted.
pub open spec fn channel_fits(c: Option<ChannelView>, dim: int) -> bool {
    match c {
        Some((times, values)) => times.len() <= u32::MAX && values.len() == dim * times.len(),
        None => true,
    }
}

/// Whether a target's lengths fit their fields.
pub open spec fn record_fits(r: RecordView) -> bool {
    &&& r.0.len() <= u16::MAX
    &&& forall|k: int| 0 <= k < r.0.len() ==> encode_utf8(#[trigger] r.0[k]).len() <= u16::MAX
    &&& channel_fits(r.1.0, 3)
    &&& channel_fits(r.1.1, 4)
    &&& channel_fits(r.1.2, 3)
}

proof fn lemma_split<A>(a: Seq<A>, x: Seq<A>, b: Seq<A>, y: Seq<A>)
    requires
        a + x == b + y,
        a.len() == b.len(),
    ensures
        a == b,
        x == y,
{
    assert(a =~= (a + x).take(a.len() as int));
    assert(b =~= (b + y).take(b.len() as int));
    assert(x =~= (a + x).skip(a.len() as int));
    assert(y =~= (b + y).skip(b.len() as int));
}

proof fn lemma_le16_same(a: u16, b: u16)
    requires
        bytes::le16(a) == bytes::le16(b),
    ensures
        a == b,
{
    assert(bytes::le16(a)[0] == bytes::le16(b)[0]);
    assert(bytes::le16(a)[1] == bytes::le16(b)[1]);
}

proof fn lemma_le32_same(a: u32, b: u32)
    requires
        bytes::le32(a) == bytes::le32(b),
    ensures
        a == b,
{
    assert(bytes::le32(a).subrange(0, 4) =~= bytes::le32(a));
    bytes::lemma_get32(bytes::le32(a), 0, a);
    bytes::lemma_get32(bytes::le32(a), 0, b);
}

proof fn lemma_name_split(a: Seq<char>, x: Seq<u8>, b: Seq<char>, y: Seq<u8>)
    requires
        name_bytes(a) + x == name_bytes(b) + y,
        encode_utf8(a).len() <= u16::MAX,
        encode_utf8(b).len() <= u16::MAX,
    ensures
        a == b,
        x == y,
{
    let (la, lb) = (encode_utf8(a).len() as u16, encode_utf8(b).len() as u16);
    assert(name_bytes(a) + x =~= bytes::le16(la) + (encode_utf8(a) + x));
    assert(name_bytes(b) + y =~= bytes::le16(lb) + (encode_utf8(b) + y));
    lemma_split(bytes::le16(la), encode_utf8(a) + x, bytes::le16(lb), encode_utf8(b) + y);
    lemma_le16_same(la, lb);
    lemma_split(encode_utf8(a), x, encode_utf8(b), y);
    encode_utf8_decode_utf8(a);
    encode_utf8_decode_utf8(b);
}

proof fn lemma_names_split(a: Seq<Seq<char>>, x: Seq<u8>, b: Seq<Seq<char>>, y: Seq<u8>)
    requires
        names_bytes(a) + x == names_bytes(b) + y,
        a.len() == b.len(),
        forall|k: int| 0 <= k < a.len() ==> encode_utf8(#[trigger] a[k]).len() <= u16::MAX,
        forall|k: int| 0 <= k < b.len() ==> encode_utf8(#[trigger] b[k]).len() <= u16::MAX,
    ensures
        a == b,
        x == y,
    decreases a.len(),
{
    if a.len() == 0 {
        assert(names_bytes(a) + x =~= x);
        assert(names_bytes(b) + y =~= y);
        assert(a =~= b);
    } else {
        assert(names_bytes(a) + x =~= name_bytes(a[0]) + (names_bytes(a.skip(1)) + x));
        assert(names_bytes(b) + y =~= name_bytes(b[0]) + (names_bytes(b.skip(1)) + y));
        lemma_name_split(a[0], names_bytes(a.skip(1)) + x, b[0], names_bytes(b.skip(1)) + y);
        lemma_names_split(a.skip(1), x, b.skip(1), y);
        assert(a =~= seq![a[0]] + a.skip(1));
        assert(b =~= seq![b[0]] + b.skip(1));
    }
}

proof fn lemma_channel_split(
    a: Option<ChannelView>,
    x: Seq<u8>,
    b: Option<ChannelView>,
    y: Seq<u8>,
    dim: int,
)
    requires
        channel_bytes(a) + x == channel_bytes(b) + y,
        a is Some == b is Some,
        channel_fits(a, dim),
        channel_fits(b, dim),
    ensures
        a == b,
        x == y,
{
    match (a, b) {
        (Some((ta, va)), Some((tb, vb))) => {
            let (na, nb) = (ta.len() as u32, tb.len() as u32);
            let (pa, pb) = (bytes::le32_all(ta), bytes::le32_all(tb));
            let (qa, qb) = (bytes::le32_all(va), bytes::le32_all(vb));
            assert(channel_bytes(a) + x =~= bytes::le32(na) + (pa + (qa + x)));
            assert(channel_bytes(b) + y =~= bytes::le32(nb) + (pb + (qb + y)));
            lemma_split(bytes::le32(na), pa + (qa + x), bytes::le32(nb), pb + (qb + y));
            lemma_le32_same(na, nb);
            bytes::lemma_le32_all_len(ta);
            bytes::lemma_le32_all_len(tb);
            bytes::lemma_le32_all_len(va);
            bytes::lemma_le32_all_len(vb);
            lemma_split(pa, qa + x, pb, qb + y);
            lemma_split(qa, x, qb, y);
            bytes::le32_all_is_injective(ta, tb);
            bytes::le32_all_is_injective(va, vb);
        },
        _ => {
            assert(channel_bytes(a) + x =~= x);
            assert(channel_bytes(b) + y =~= y);
        },
    }
}

proof fn lemma_regroup(
    p: Seq<u8>,
    q: Seq<u8>,
    m: Seq<u8>,
    t: Seq<u8>,
    r: Seq<u8>,
    s: Seq<u8>,
    x: Seq<u8>,
)
    ensures
        (p + (q + (m + (t + (r + s))))) + x == p + (q + (m + (t + (r + (s + x))))),
{
    assert((p + (q + (m + (t + (r + s))))) + x =~= p + (q + (m + (t + (r + (s + x))))));
}

proof fn lemma_record_split(a: RecordView, x: Seq<u8>, b: RecordView, y: Seq<u8>)
    requires
        record_bytes(a) + x == record_bytes(b) + y,
        record_fits(a),
        record_fits(b),
    ensures
        a == b,
        x == y,
{
    let (la, lb) = (a.0.len() as u16, b.0.len() as u16);
    let (ma, mb) = (seq![mask_of(a.1)], seq![mask_of(b.1)]);
    let (sa, sb) = (channel_bytes(a.1.2) + x, channel_bytes(b.1.2) + y);
    let (ra, rb) = (channel_bytes(a.1.1) + sa, channel_bytes(b.1.1) + sb);
    let (ta, tb) = (channel_bytes(a.1.0) + ra, channel_bytes(b.1.0) + rb);
    let (na, nb) = (names_bytes(a.0) + (ma + ta), names_bytes(b.0) + (mb + tb));
    lemma_regroup(
        bytes::le16(la),
        names_bytes(a.0),
        ma,
        channel_bytes(a.1.0),
        channel_bytes(a.1.1),
        channel_bytes(a.1.2),
        x,
    );
    lemma_regroup(
        bytes::le16(lb),
        names_bytes(b.0),
        mb,
        channel_bytes(b.1.0),
        channel_bytes(b.1.1),
        channel_bytes(b.1.2),
        y,
    );
    lemma_split(bytes::le16(la), na, bytes::le16(lb), nb);
    lemma_le16_same(la, lb);
    lemma_names_split(a.0, ma + ta, b.0, mb + tb);
    lemma_split(ma, ta, mb, tb);
    assert(ma[0] == mb[0]);
    lemma_channel_split(a.1.0, ra, b.1.0, rb, 3);
    lemma_channel_split(a.1.1, sa, b.1.1, sb, 4);
    lemma_channel_split(a.1.2, x, b.1.2, y, 3);
}

proof fn lemma_records_same(a: Seq<RecordView>, b: Seq<RecordView>)
    requires
        records_bytes(a) == records_bytes(b),
        a.len() == b.len(),
        forall|k: int| 0 <= k < a.len() ==> record_fits(#[trigger] a[k]),
        forall|k: int| 0 <= k < b.len() ==> record_fits(#[trigger] b[k]),
    ensures
        a == b,
    decreases a.len(),
{
    if a.len() == 0 {
        assert(a =~= b);
    } else {
        lemma_record_split(a[0], records_bytes(a.skip(1)), b[0], records_bytes(b.skip(1)));
        lemma_records_same(a.skip(1), b.skip(1));
        assert(a =~= seq![a[0]] + a.skip(1));
        assert(b =~= seq![b[0]] + b.skip(1));
    }
}

/// A clip's bytes say all there is to it: two clips whose lengths fit their fields are written
/// the same only where they are the same, so that a reader can rebuild every path, time and value.
pub proof fn clip_reads_back(a: Seq<RecordView>, b: Seq<RecordView>)
    requires
        clip_bytes(a) == clip_bytes(b),
        a.len() <= u32::MAX,
        b.len() <= u32::MAX,
        forall|k: int| 0 <= k < a.len() ==> record_fits(#[trigger] a[k]),
        forall|k: int| 0 <= k < b.len() ==> record_fits(#[trigger] b[k]),
    ensures
        a == b,
{
    let (na, nb) = (a.len() as u32, b.len() as u32);
    assert(clip_bytes(a) =~= magic() + (bytes::le32(na) + records_bytes(a)));
    assert(clip_bytes(b) =~= magic() + (bytes::le32(nb) + records_bytes(b)));
    lemma_split(
        magic(),
        bytes::le32(na) + records_bytes(a),
        magic(),
        bytes::le32(nb) + records_bytes(b),
    );
    lemma_split(bytes::le32(na), records_bytes(a), bytes::le32(nb), records_bytes(b));
    lemma_le32_same(na, nb);
    lemma_records_same(a, b);
}

/// A clip begins with its mark, seven letters and the version, and the number of its targets, lowest
/// byte first; the targets follow.
pub proof fn clips_begin_with_their_mark(rs: Seq<RecordView>)
    requires
        rs.len() <= u32::MAX,
    ensures
        ({
            let f = clip_bytes(rs);
            &&& f.len() >= 12
            &&& f[0] == 'A' as u8 && f[1] == 'N' as u8 && f[2] == 'I' as u8 && f[3] == 'M' as u8
            &&& f[4] == 'C' as u8 && f[5] == 'L' as u8 && f[6] == 'P' as u8 && f[7] == 1
            &&& f[8] + 256 * (f[9] + 256 * (f[10] + 256 * f[11])) == rs.len()
            &&& f.skip(12) == records_bytes(rs)
        }),
{
    let f = clip_bytes(rs);
    let n = rs.len() as u32;
    bytes::bytes_go_up(0, n);
    assert(f[8] == bytes::le32(n)[0]);
    assert(f[9] == bytes::le32(n)[1]);
    assert(f[10] == bytes::le32(n)[2]);
    assert(f[11] == bytes::le32(n)[3]);
    assert(f.skip(12) =~= records_bytes(rs));
}

/// Targets follow each other as they are listed.
pub proof fn targets_follow_in_order(rs: Seq<RecordView>, r: RecordView)
    ensures
        records_bytes(rs.push(r)) == records_bytes(rs) + record_bytes(r),
        records_bytes(Seq::<RecordView>::empty()).len() == 0,
    decreases rs.len(),
{
    let all = rs.push(r);
    if rs.len() == 0 {
        assert(all.skip(1) =~= Seq::<RecordView>::empty());
        assert(records_bytes(all.skip(1)) =~= Seq::<u8>::empty());
        assert(records_bytes(all) =~= records_bytes(rs) + record_bytes(r));
    } else {
        targets_follow_in_order(rs.skip(1), r);
        assert(all.skip(1) =~= rs.skip(1).push(r));
        assert(records_bytes(all) =~= records_bytes(rs) + record_bytes(r));
    }
}

/// Names follow each other as they are listed, each as the number of its bytes, lowest byte first,
/// and its bytes.
pub proof fn names_follow_in_order(v: Seq<Seq<char>>, s: Seq<char>)
    requires
        encode_utf8(s).len() <= u16::MAX,
    ensures
        ({
            let b = names_bytes(v.push(s)).skip(names_bytes(v).len() as int);
            &&& names_bytes(v).is_prefix_of(names_bytes(v.push(s)))
            &&& b.len() == 2 + encode_utf8(s).len()
            &&& b[0] + 256 * b[1] == encode_utf8(s).len()
            &&& b.skip(2) == encode_utf8(s)
        }),
    decreases v.len(),
{
    let all = v.push(s);
    let b = name_bytes(s);
    let n = encode_utf8(s).len() as u16;
    lemma_names_push(v, s);
    bytes::bytes_go_up(n, 0);
    assert(b[0] == bytes::le16(n)[0]);
    assert(b[1] == bytes::le16(n)[1]);
    assert(b.skip(2) =~= encode_utf8(s));
    assert(names_bytes(all).skip(names_bytes(v).len() as int) =~= b);
}

proof fn lemma_names_push(v: Seq<Seq<char>>, s: Seq<char>)
    ensures
        names_bytes(v.push(s)) == names_bytes(v) + name_bytes(s),
    decreases v.len(),
{
    let all = v.push(s);
    if v.len() == 0 {
        assert(all.skip(1) =~= Seq::<Seq<char>>::empty());
        assert(names_bytes(all.skip(1)) =~= Seq::<u8>::empty());
        assert(names_bytes(all) =~= names_bytes(v) + name_bytes(s));
    } else {
        lemma_names_push(v.skip(1), s);
        assert(all.skip(1) =~= v.skip(1).push(s));
        assert(names_bytes(all) =~= names_bytes(v) + name_bytes(s));
    }
}

/// After its names a target has a byte in which the channels it has count: one for translation, two
/// for rotation, four for scale. Then each of them follows, in this order: how many keys it has,
/// their times and their values.
pub proof fn targets_are_laid_out(
    path: Seq<Seq<char>>,
    t: ChannelView,
    r: ChannelView,
    s: ChannelView,
)
    ensures
        ({
            let head = bytes::le16(path.len() as u16) + names_bytes(path);
            let keys = |c: ChannelView|
                bytes::le32(c.0.len() as u32) + bytes::le32_all(c.0) + bytes::le32_all(c.1);
            &&& record_bytes((path, (None, None, None))) == head + seq![0u8]
            &&& record_bytes((path, (Some(t), None, None))) == head + seq![1u8] + keys(t)
            &&& record_bytes((path, (None, Some(r), None))) == head + seq![2u8] + keys(r)
            &&& record_bytes((path, (None, None, Some(s)))) == head + seq![4u8] + keys(s)
            &&& record_bytes((path, (Some(t), Some(r), None))) == head + seq![3u8] + keys(t) + keys(r)
            &&& record_bytes((path, (Some(t), None, Some(s)))) == head + seq![5u8] + keys(t) + keys(s)
            &&& record_bytes((path, (None, Some(r), Some(s)))) == head + seq![6u8] + keys(r) + keys(s)
            &&& record_bytes((path, (Some(t), Some(r), Some(s)))) == head + seq![7u8] + keys(t) + keys(
                r,
            ) + keys(s)
        }),
{
    let n = bytes::le16(path.len() as u16);
    let p = names_bytes(path);
    let (x, y, z) = (channel_bytes(Some(t)), channel_bytes(Some(r)), channel_bytes(Some(s)));
    let e = Seq::<u8>::empty();
    assert(channel_bytes(None) =~= e);
    lemma_laid_out(n, p, 0, e, e, e);
    lemma_laid_out(n, p, 1, x, e, e);
    lemma_laid_out(n, p, 2, e, y, e);
    lemma_laid_out(n, p, 4, e, e, z);
    lemma_laid_out(n, p, 3, x, y, e);
    lemma_laid_out(n, p, 5, x, e, z);
    lemma_laid_out(n, p, 6, e, y, z);
    lemma_laid_out(n, p, 7, x, y, z);
    lemma_no_bytes(n + p, 0, x, y, z);
    lemma_no_bytes(n + p, 1, x, y, z);
    lemma_no_bytes(n + p, 2, x, y, z);
    lemma_no_bytes(n + p, 3, x, y, z);
    lemma_no_bytes(n + p, 4, x, y, z);
    lemma_no_bytes(n + p, 5, x, y, z);
    lemma_no_bytes(n + p, 6, x, y, z);
}

proof fn lemma_laid_out(n: Seq<u8>, p: Seq<u8>, m: u8, x: Seq<u8>, y: Seq<u8>, z: Seq<u8>)
    ensures
        n + (p + (seq![m] + (x + (y + z)))) == n + p + seq![m] + x + y + z,
{
    assert(n + (p + (seq![m] + (x + (y + z)))) =~= n + p + seq![m] + x + y + z);
}

proof fn lemma_no_bytes(h: Seq<u8>, m: u8, x: Seq<u8>, y: Seq<u8>, z: Seq<u8>)
    ensures
        ({
            let e = Seq::<u8>::empty();
            &&& h + seq![m] + e + e + e == h + seq![m]
            &&& h + seq![m] + x + e + e == h + seq![m] + x
            &&& h + seq![m] + e + y + e == h + seq![m] + y
            &&& h + seq![m] + e + e + z == h + seq![m] + z
            &&& h + seq![m] + x + y + e == h + seq![m] + x + y
            &&& h + seq![m] + x + e + z == h + seq![m] + x + z
            &&& h + seq![m] + e + y + z == h + seq![m] + y + z
        }),
{
    let e = Seq::<u8>::empty();
    let g = h + seq![m];
    assert(g + e =~= g);
    assert(g + x + e =~= g + x);
    assert(g + y + e =~= g + y);
    assert(g + x + y + e =~= g + x + y);
}

/// What is read of a target's channels is what each of them holds.
pub proof fn channels_keep_their_places(c: Channels)
    ensures
        match c.translation {
            Some(k) => c@.0 == Some((k.times@, k.values@)),
            None => c@.0 is None,
        },
        match c.rotation {
            Some(k) => c@.1 == Some((k.times@, k.values@)),
            None => c@.1 is None,
        },
        match c.scale {
            Some(k) => c@.2 == Some((k.times@, k.values@)),
            None => c@.2 is None,
        },
{
}

} // verus!
