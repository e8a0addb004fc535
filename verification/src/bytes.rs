//! Little-endian numbers in byte strings.

use vstd::prelude::*;

verus! {

/// The two bytes of a number, lowest first.
pub open spec fn le16(v: u16) -> Seq<u8> {
    seq![(v % 256) as u8, (v / 256) as u8]
}

/// The four bytes of a number, lowest first.
pub open spec fn le32(v: u32) -> Seq<u8> {
    seq![
        (v % 256) as u8,
        (v / 256 % 256) as u8,
        (v / 65536 % 256) as u8,
        (v / 16777216) as u8,
    ]
}

/// The number that four bytes at `at` make.
pub open spec fn get32(b: Seq<u8>, at: int) -> int {
    b[at] + 256 * b[at + 1] + 65536 * b[at + 2] + 16777216 * b[at + 3]
}

/// The bytes of a number make that number again.
pub proof fn lemma_get32(b: Seq<u8>, at: int, v: u32)
    requires
        0 <= at,
        at + 4 <= b.len(),
        b.subrange(at, at + 4) == le32(v),
    ensures
        get32(b, at) == v,
{
    let s = b.subrange(at, at + 4);
    assert(s[0] == b[at] && s[1] == b[at + 1] && s[2] == b[at + 2] && s[3] == b[at + 3]);
}

/// Appends a 16-bit number.
pub fn wu16(out: &mut Vec<u8>, v: u16)
    ensures
        final(out)@ == old(out)@ + le16(v),
{
    out.push((v % 256) as u8);
    out.push((v / 256) as u8);
    assert(final(out)@ =~= old(out)@ + le16(v));
}

/// Appends a 32-bit number.
pub fn wu32(out: &mut Vec<u8>, v: u32)
    ensures
        final(out)@ == old(out)@ + le32(v),
{
    out.push((v % 256) as u8);
    out.push((v / 256 % 256) as u8);
    out.push((v / 65536 % 256) as u8);
    out.push((v / 16777216) as u8);
    assert(final(out)@ =~= old(out)@ + le32(v));
}

/// The bytes of a list of 32-bit numbers.
pub open spec fn le32_all(v: Seq<u32>) -> Seq<u8>
    decreases v.len(),
{
    if v.len() == 0 {
        seq![]
    } else {
        le32_all(v.drop_last()) + le32(v.last())
    }
}

/// Appends a list of 32-bit numbers.
pub fn wu32_all(out: &mut Vec<u8>, v: &Vec<u32>)
    ensures
        final(out)@ == old(out)@ + le32_all(v@),
{
    let ghost before = out@;
    assert(out@ =~= before + le32_all(v@.take(0)));
    for i in 0..v.len()
        invariant
            out@ == before + le32_all(v@.take(i as int)),
    {
        wu32(out, v[i]);
        assert(v@.take(i + 1).drop_last() =~= v@.take(i as int));
        assert(out@ =~= before + le32_all(v@.take(i + 1)));
    }
    assert(v@.take(v@.len() as int) =~= v@);
}

/// A list of 32-bit numbers takes four bytes each.
pub proof fn lemma_le32_all_len(v: Seq<u32>)
    ensures
        le32_all(v).len() == 4 * v.len(),
    decreases v.len(),
{
    if v.len() > 0 {
        lemma_le32_all_len(v.drop_last());
    }
}

/// The `i`-th number of a list can be read back from its bytes.
pub proof fn lemma_le32_all_get(v: Seq<u32>, i: int)
    requires
        0 <= i < v.len(),
    ensures
        le32_all(v).len() == 4 * v.len(),
        get32(le32_all(v), 4 * i) == v[i],
    decreases v.len(),
{
    lemma_le32_all_len(v);
    lemma_le32_all_len(v.drop_last());
    let rest = le32_all(v.drop_last());
    if i < v.len() - 1 {
        lemma_le32_all_get(v.drop_last(), i);
        assert(forall|k: int| 0 <= k < rest.len() ==> le32_all(v)[k] == rest[k]);
    } else {
        assert(le32_all(v).subrange(4 * i, 4 * i + 4) =~= le32(v[i]));
        lemma_get32(le32_all(v), 4 * i, v[i]);
    }
}

/// Lists with the same bytes are the same.
pub proof fn le32_all_is_injective(a: Seq<u32>, b: Seq<u32>)
    requires
        le32_all(a) == le32_all(b),
    ensures
        a == b,
{
    lemma_le32_all_len(a);
    lemma_le32_all_len(b);
    assert forall|i: int| 0 <= i < a.len() implies a[i] == b[i] by {
        lemma_le32_all_get(a, i);
        lemma_le32_all_get(b, i);
    }
    assert(a =~= b);
}

/// Numbers are written with their lowest byte first: each byte counts 256 times the one before.
pub proof fn bytes_go_up(v: u16, w: u32)
    ensures
        le16(v).len() == 2,
        le16(v)[0] + 256 * le16(v)[1] == v,
        le32(w).len() == 4,
        le32(w)[0] + 256 * (le32(w)[1] + 256 * (le32(w)[2] + 256 * le32(w)[3])) == w,
        w < 256 ==> le32(w)[0] == w,
        v < 256 ==> le16(v)[0] == v,
{
}

} // verus!
