//! Order: texts by code point, and stable sorting by any total preorder.

use vstd::prelude::*;
use crate::text;

verus! {

/// Whether `a` comes no later than `b` in the order of their code points.
pub open spec fn text_le(a: Seq<char>, b: Seq<char>) -> bool
    decreases a.len(),
{
    if a.len() == 0 {
        true
    } else if b.len() == 0 {
        false
    } else if a[0] == b[0] {
        text_le(a.skip(1), b.skip(1))
    } else {
        a[0] < b[0]
    }
}

/// Any two texts can be ordered.
pub proof fn text_le_total(a: Seq<char>, b: Seq<char>)
    ensures
        text_le(a, b) || text_le(b, a),
    decreases a.len(),
{
    if a.len() > 0 && b.len() > 0 {
        text_le_total(a.skip(1), b.skip(1));
    }
}

/// The order of texts is transitive.
pub proof fn text_le_transitive(a: Seq<char>, b: Seq<char>, c: Seq<char>)
    requires
        text_le(a, b),
        text_le(b, c),
    ensures
        text_le(a, c),
    decreases a.len(),
{
    if a.len() > 0 && b.len() > 0 && c.len() > 0 && a[0] == b[0] && b[0] == c[0] {
        text_le_transitive(a.skip(1), b.skip(1), c.skip(1));
    }
}

/// Texts that come no later than each other are the same.
pub proof fn text_le_antisymmetric(a: Seq<char>, b: Seq<char>)
    requires
        text_le(a, b),
        text_le(b, a),
    ensures
        a == b,
    decreases a.len(),
{
    if a.len() > 0 && b.len() > 0 {
        text_le_antisymmetric(a.skip(1), b.skip(1));
        assert(a =~= seq![a[0]] + a.skip(1));
        assert(b =~= seq![b[0]] + b.skip(1));
    } else {
        assert(a =~= b);
    }
}

/// Tests whether `a` comes no later than `b` in the order of their code points.
pub fn is_text_le(a: &str, b: &str) -> (r: bool)
    ensures
        r == text_le(a@, b@),
{
    let ac = text::chars_of(a);
    let bc = text::chars_of(b);
    let mut i: usize = 0;
    assert(a@.skip(0) =~= a@ && b@.skip(0) =~= b@);
    while i < ac.len()
        invariant
            ac@ == a@,
            bc@ == b@,
            i <= ac@.len(),
            i <= bc@.len(),
            text_le(a@, b@) == text_le(a@.skip(i as int), b@.skip(i as int)),
        decreases ac@.len() - i,
    {
        assert(a@.skip(i as int).skip(1) =~= a@.skip(i + 1));
        if i >= bc.len() {
            return false;
        }
        assert(b@.skip(i as int).skip(1) =~= b@.skip(i + 1));
        if ac[i] != bc[i] {
            return ac[i] < bc[i];
        }
        i = i + 1;
    }
    true
}

/// Whether `r` lists `0..n` by `le`, with ties in their own order.
pub open spec fn is_stable_order(r: Seq<usize>, le: spec_fn(int, int) -> bool, n: nat) -> bool {
    &&& r.len() == n
    &&& forall|k: int| 0 <= k < n ==> #[trigger] r[k] < n
    &&& r.no_duplicates()
    &&& forall|j: int, k: int|
        #![trigger r[j], r[k]]
        0 <= j < k < n ==> le(r[j] as int, r[k] as int) && (le(r[k] as int, r[j] as int) ==> r[j]
            < r[k])
}

/// Whether `le` orders any two of `0..n`, transitively.
pub open spec fn is_preorder(le: spec_fn(int, int) -> bool, n: nat) -> bool {
    &&& forall|a: int, b: int| 0 <= a < n && 0 <= b < n ==> #[trigger] le(a, b) || le(b, a)
    &&& forall|a: int, b: int, c: int|
        #![trigger le(a, b), le(b, c)]
        0 <= a < n && 0 <= b < n && 0 <= c < n && le(a, b) && le(b, c) ==> le(a, c)
}

/// Every one of `0..n` is listed.
pub proof fn stable_order_lists_all(r: Seq<usize>, le: spec_fn(int, int) -> bool, n: nat, i: int)
    requires
        is_stable_order(r, le, n),
        0 <= i < n,
    ensures
        exists|k: int| 0 <= k < n && #[trigger] r[k] == i,
{
    let s = r.map_values(|v: usize| v as int);
    assert(s.no_duplicates());
    s.unique_seq_to_set();
    let all = vstd::set_lib::set_int_range(0, n as int);
    vstd::set_lib::lemma_int_range(0, n as int);
    assert(s.to_set().subset_of(all)) by {
        assert forall|x: int| s.to_set().contains(x) implies all.contains(x) by {
            let k = choose|k: int| 0 <= k < s.len() && s[k] == x;
            assert(r[k] < n);
        }
    }
    vstd::set_lib::lemma_subset_equality(s.to_set(), all);
    assert(s.to_set().contains(i));
    let k = choose|k: int| 0 <= k < s.len() && s[k] == i;
    assert(r[k] == i);
}

/// There is but one stable order.
pub proof fn stable_orders_agree(
    r: Seq<usize>,
    s: Seq<usize>,
    le: spec_fn(int, int) -> bool,
    n: nat,
)
    requires
        is_stable_order(r, le, n),
        is_stable_order(s, le, n),
    ensures
        r == s,
{
    lemma_orders_agree(r, s, le, n, n);
    assert(r =~= s);
}

proof fn lemma_orders_agree(
    r: Seq<usize>,
    s: Seq<usize>,
    le: spec_fn(int, int) -> bool,
    n: nat,
    upto: nat,
)
    requires
        is_stable_order(r, le, n),
        is_stable_order(s, le, n),
        upto <= n,
    ensures
        forall|i: int| 0 <= i < upto ==> #[trigger] r[i] == s[i],
    decreases upto,
{
    if upto > 0 {
        lemma_orders_agree(r, s, le, n, (upto - 1) as nat);
        let j = upto - 1;
        if r[j] != s[j] {
            stable_order_lists_all(r, le, n, s[j] as int);
            let k = choose|k: int| 0 <= k < n && #[trigger] r[k] == s[j];
            assert(k < j ==> s[k] == s[j]);
            stable_order_lists_all(s, le, n, r[j] as int);
            let m = choose|m: int| 0 <= m < n && #[trigger] s[m] == r[j];
            assert(m < j ==> r[m] == r[j]);
            assert(j < k && j < m);
        }
    }
}

/// Whether `x` stands before `y` in a stable order.
spec fn before(le: spec_fn(int, int) -> bool, x: usize, y: usize) -> bool {
    le(x as int, y as int) && (le(y as int, x as int) ==> x < y)
}

/// Whether `s` lists `lo..hi` in stable order.
spec fn is_run(s: Seq<usize>, le: spec_fn(int, int) -> bool, lo: int, hi: int) -> bool {
    &&& s.len() == hi - lo
    &&& forall|k: int| 0 <= k < s.len() ==> lo <= #[trigger] s[k] < hi
    &&& forall|j: int, k: int|
        #![trigger s[j], s[k]]
        0 <= j < k < s.len() ==> s[j] != s[k] && before(le, s[j], s[k])
}

/// Whether each of `s` stands before each of `t` from `from` on.
spec fn all_before(s: Seq<usize>, le: spec_fn(int, int) -> bool, t: Seq<usize>, from: int) -> bool {
    forall|j: int, k: int|
        #![trigger s[j], t[k]]
        0 <= j < s.len() && from <= k < t.len() ==> s[j] != t[k] && before(le, s[j], t[k])
}

/// Whether a test answers as a relation says, for all of `0..n`.
spec fn answers<F: Fn(usize, usize) -> bool>(
    f: F,
    rel: spec_fn(int, int) -> bool,
    n: usize,
) -> bool {
    &&& forall|a: usize, b: usize| a < n && b < n ==> #[trigger] call_requires(f, (a, b))
    &&& forall|a: usize, b: usize, x: bool|
        a < n && b < n && #[trigger] call_ensures(f, (a, b), x) ==> x == rel(a as int, b as int)
}

/// Merges two neighbouring runs.
fn merge_runs<F: Fn(usize, usize) -> bool>(
    left: &Vec<usize>,
    right: &Vec<usize>,
    le: &F,
    Ghost(rel): Ghost<spec_fn(int, int) -> bool>,
    Ghost(n): Ghost<usize>,
    Ghost(lo): Ghost<int>,
    Ghost(mid): Ghost<int>,
    Ghost(hi): Ghost<int>,
) -> (r: Vec<usize>)
    requires
        0 <= lo <= mid <= hi <= n,
        is_preorder(rel, n as nat),
        answers(*le, rel, n),
        is_run(left@, rel, lo, mid),
        is_run(right@, rel, mid, hi),
    ensures
        is_run(r@, rel, lo, hi),
{
    let mut out: Vec<usize> = Vec::new();
    let mut i: usize = 0;
    let mut j: usize = 0;
    while i < left.len() || j < right.len()
        invariant
            0 <= lo <= mid <= hi <= n,
            is_preorder(rel, n as nat),
            answers(*le, rel, n),
            is_run(left@, rel, lo, mid),
            is_run(right@, rel, mid, hi),
            i <= left@.len(),
            j <= right@.len(),
            out@.len() == i + j,
            forall|k: int| 0 <= k < out@.len() ==> lo <= #[trigger] out@[k] < hi,
            forall|a: int, b: int|
                #![trigger out@[a], out@[b]]
                0 <= a < b < out@.len() ==> out@[a] != out@[b] && before(rel, out@[a], out@[b]),
            all_before(out@, rel, left@, i as int),
            all_before(out@, rel, right@, j as int),
        decreases left@.len() - i + right@.len() - j,
    {
        let ghost was = out@;
        let take_left = if j >= right.len() {
            true
        } else if i >= left.len() {
            false
        } else {
            le(left[i], right[j])
        };
        if take_left {
            let x: usize = left[i];
            out.push(x);
            proof {
                assert forall|k: int| j <= k < right@.len() implies x != #[trigger] right@[k]
                    && before(rel, x, right@[k]) by {
                    let y = right@[k];
                    if k > j {
                        assert(before(rel, right@[j as int], y));
                    }
                    assert(rel(x as int, right@[j as int] as int));
                }
                assert(forall|a: int| 0 <= a < was.len() ==> out@[a] == #[trigger] was[a]);
            }
            i = i + 1;
        } else {
            let x: usize = right[j];
            out.push(x);
            proof {
                assert forall|k: int| i <= k < left@.len() implies x != #[trigger] left@[k]
                    && before(rel, x, left@[k]) by {
                    let y = left@[k];
                    let l = left@[i as int];
                    assert(!rel(l as int, x as int));
                    assert(rel(x as int, l as int) || rel(l as int, x as int));
                    if k > i {
                        assert(before(rel, l, y));
                    }
                }
                assert(forall|a: int| 0 <= a < was.len() ==> out@[a] == #[trigger] was[a]);
            }
            j = j + 1;
        }
    }
    out
}

/// Lists `lo..hi` in stable order.
fn sort_run<F: Fn(usize, usize) -> bool>(
    lo: usize,
    hi: usize,
    le: &F,
    Ghost(rel): Ghost<spec_fn(int, int) -> bool>,
    Ghost(n): Ghost<usize>,
) -> (r: Vec<usize>)
    requires
        lo <= hi <= n,
        is_preorder(rel, n as nat),
        answers(*le, rel, n),
    ensures
        is_run(r@, rel, lo as int, hi as int),
    decreases hi - lo,
{
    if hi - lo <= 1 {
        let mut out: Vec<usize> = Vec::new();
        if lo < hi {
            out.push(lo);
        }
        return out;
    }
    let mid: usize = lo + (hi - lo) / 2;
    let left = sort_run(lo, mid, le, Ghost(rel), Ghost(n));
    let right = sort_run(mid, hi, le, Ghost(rel), Ghost(n));
    merge_runs(
        &left,
        &right,
        le,
        Ghost(rel),
        Ghost(n),
        Ghost(lo as int),
        Ghost(mid as int),
        Ghost(hi as int),
    )
}

/// Sorts `0..n` by `le`, stably, by merging.
pub(crate) fn stable_order<F: Fn(usize, usize) -> bool>(
    n: usize,
    le: F,
    Ghost(rel): Ghost<spec_fn(int, int) -> bool>,
) -> (r: Vec<usize>)
    requires
        is_preorder(rel, n as nat),
        forall|a: usize, b: usize| a < n && b < n ==> #[trigger] call_requires(le, (a, b)),
        forall|a: usize, b: usize, x: bool|
            a < n && b < n && #[trigger] call_ensures(le, (a, b), x) ==> x == rel(
                a as int,
                b as int,
            ),
    ensures
        is_stable_order(r@, rel, n as nat),
{
    let r = sort_run(0, n, &le, Ghost(rel), Ghost(n));
    assert(r@.no_duplicates()) by {
        assert forall|j: int, k: int| 0 <= j < r@.len() && 0 <= k < r@.len() && j != k implies r@[j]
            != r@[k] by {
            if j < k {
                assert(r@[j] != r@[k]);
            } else {
                assert(r@[k] != r@[j]);
            }
        }
    }
    r
}

/// The order of a list of texts.
pub open spec fn texts_le(keys: Seq<Seq<char>>) -> spec_fn(int, int) -> bool {
    |a: int, b: int| text_le(keys[a], keys[b])
}

pub proof fn lemma_texts_preorder(keys: Seq<Seq<char>>)
    ensures
        is_preorder(texts_le(keys), keys.len()),
{
    let le = texts_le(keys);
    assert forall|a: int, b: int| 0 <= a < keys.len() && 0 <= b < keys.len() implies #[trigger] le(
        a,
        b,
    ) || le(b, a) by {
        text_le_total(keys[a], keys[b]);
    }
    assert forall|a: int, b: int, c: int|
        #![trigger le(a, b), le(b, c)]
        0 <= a < keys.len() && 0 <= b < keys.len() && 0 <= c < keys.len() && le(a, b) && le(
            b,
            c,
        ) implies le(a, c) by {
        text_le_transitive(keys[a], keys[b], keys[c]);
    }
}

/// The places of a list of texts in their order, ties in list order.
pub fn order_texts(keys: &Vec<String>) -> (r: Vec<usize>)
    ensures
        is_stable_order(r@, texts_le(text::texts(keys@)), keys@.len()),
{
    let ghost rel = texts_le(text::texts(keys@));
    proof {
        lemma_texts_preorder(text::texts(keys@));
    }
    let le = |a: usize, b: usize| -> (x: bool)
        requires
            a < keys@.len(),
            b < keys@.len(),
        ensures
            x == rel(a as int, b as int),
        { is_text_le(keys[a].as_str(), keys[b].as_str()) };
    stable_order(keys.len(), le, Ghost(rel))
}

/// Texts are ordered by the first character in which they differ, the smaller one first, and a text
/// comes before any that goes on from it.
pub proof fn texts_differ_by_their_first_difference(
    p: Seq<char>,
    c: char,
    x: Seq<char>,
    d: char,
    y: Seq<char>,
)
    requires
        c < d,
    ensures
        text_le(p + seq![c] + x, p + seq![d] + y),
        !text_le(p + seq![d] + y, p + seq![c] + x),
        text_le(p, p + seq![c] + x),
        !text_le(p + seq![c] + x, p),
    decreases p.len(),
{
    let (s, t) = (p + seq![c] + x, p + seq![d] + y);
    if p.len() > 0 {
        let q = p.skip(1);
        texts_differ_by_their_first_difference(q, c, x, d, y);
        assert(s.skip(1) =~= q + seq![c] + x);
        assert(t.skip(1) =~= q + seq![d] + y);
        assert(s[0] == p[0] && t[0] == p[0]);
    } else {
        assert(s[0] == c && t[0] == d);
    }
}

/// An order lists each number once, the smaller before the larger, and equals as they come.
pub proof fn orders_are_sorted_and_stable(
    r: Seq<usize>,
    le: spec_fn(int, int) -> bool,
    n: nat,
    j: int,
    k: int,
)
    requires
        is_stable_order(r, le, n),
        0 <= j < k < n,
    ensures
        r.len() == n,
        r[j] != r[k],
        le(r[j] as int, r[k] as int),
        le(r[k] as int, r[j] as int) ==> r[j] < r[k],
{
}

} // verus!
