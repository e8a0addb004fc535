//! Islands of an opacity mask: its 8-connected components, found by union-find, their areas, and
//! the removal of the small ones.

use vstd::prelude::*;
use crate::text;

verus! {

/// A partition of `0..n` by parent links, with path halving.
struct UnionFind {
    parent: Vec<usize>,
    /// The representative of each element's class.
    rep: Ghost<Seq<int>>,
    /// A number that grows along the parent links.
    rank: Ghost<Seq<int>>,
    /// A bound on the ranks.
    top: Ghost<int>,
}

/// Whether the parent link of `i` stays in its class and climbs, up to the representative.
spec fn linked(parent: Seq<usize>, rep: Seq<int>, rank: Seq<int>, top: int, i: int) -> bool {
    &&& 0 <= parent[i] < parent.len()
    &&& 0 <= rep[i] < parent.len()
    &&& 0 <= rank[i] <= top
    &&& rep[parent[i] as int] == rep[i]
    &&& parent[rep[i]] == rep[i]
    &&& parent[i] == i ==> rep[i] == i
    &&& parent[i] != i ==> rank[parent[i] as int] > rank[i]
}

impl UnionFind {
    spec fn wf(&self) -> bool {
        &&& self.rep@.len() == self.parent@.len()
        &&& self.rank@.len() == self.parent@.len()
        &&& forall|i: int|
            0 <= i < self.parent@.len() ==> #[trigger] linked(
                self.parent@,
                self.rep@,
                self.rank@,
                self.top@,
                i,
            )
    }

    fn new(n: usize) -> (r: UnionFind)
        ensures
            r.wf(),
            r.rep@ == Seq::new(n as nat, |i: int| i),
    {
        let mut parent: Vec<usize> = Vec::new();
        for i in 0..n
            invariant
                parent@.len() == i,
                forall|k: int| 0 <= k < i ==> parent@[k] == k,
        {
            parent.push(i);
        }
        UnionFind {
            parent,
            rep: Ghost(Seq::new(n as nat, |i: int| i)),
            rank: Ghost(Seq::new(n as nat, |i: int| 0)),
            top: Ghost(0),
        }
    }

    /// The representative of `x`.
    fn find(&mut self, x: usize) -> (r: usize)
        requires
            old(self).wf(),
            x < old(self).parent@.len(),
        ensures
            final(self).wf(),
            final(self).rep@ == old(self).rep@,
            r == old(self).rep@[x as int],
    {
        let mut at: usize = x;
        while self.parent[at] != at
            invariant
                self.wf(),
                self.rep@ == old(self).rep@,
                0 <= at < self.parent@.len(),
                0 <= x < self.parent@.len(),
                self.rep@[at as int] == self.rep@[x as int],
            decreases self.top@ - self.rank@[at as int],
        {
            let ghost before = self.parent@;
            let ghost (rep, rank, top) = (self.rep@, self.rank@, self.top@);
            assert(linked(before, rep, rank, top, at as int));
            let p: usize = self.parent[at];
            assert(linked(before, rep, rank, top, p as int));
            let g: usize = self.parent[p];
            assert(linked(before, rep, rank, top, g as int));
            self.parent.set(at, g);
            proof {
                assert forall|i: int| 0 <= i < before.len() implies #[trigger] linked(
                    self.parent@,
                    rep,
                    rank,
                    top,
                    i,
                ) by {
                    assert(linked(before, rep, rank, top, i));
                    assert(linked(before, rep, rank, top, rep[i]));
                }
            }
            at = g;
        }
        assert(linked(self.parent@, self.rep@, self.rank@, self.top@, at as int));
        at
    }

    /// Joins the classes of `a` and `b`.
    fn union(&mut self, a: usize, b: usize)
        requires
            old(self).wf(),
            a < old(self).parent@.len(),
            b < old(self).parent@.len(),
        ensures
            final(self).wf(),
            final(self).rep@ == joined_reps(old(self).rep@, a as int, b as int),
    {
        let ra = self.find(a);
        let rb = self.find(b);
        let ghost (parent, before, rank, top) = (self.parent@, self.rep@, self.rank@, self.top@);
        proof {
            assert(linked(parent, before, rank, top, a as int));
            assert(linked(parent, before, rank, top, b as int));
            assert(linked(parent, before, rank, top, ra as int));
            assert(linked(parent, before, rank, top, rb as int));
        }
        if ra != rb {
            self.parent.set(ra, rb);
            proof {
                let lifted = if rank[rb as int] > rank[ra as int] {
                    rank[rb as int]
                } else {
                    rank[ra as int] + 1
                };
                self.rank@ = rank.update(rb as int, lifted);
                self.top@ = if self.top@ > lifted {
                    self.top@
                } else {
                    lifted
                };
                self.rep@ = joined_reps(before, a as int, b as int);
                assert forall|i: int| 0 <= i < parent.len() implies #[trigger] linked(
                    self.parent@,
                    self.rep@,
                    self.rank@,
                    self.top@,
                    i,
                ) by {
                    assert(linked(parent, before, rank, top, i));
                    assert(linked(parent, before, rank, top, before[i]));
                    assert(linked(parent, before, rank, top, parent[i] as int));
                }
            }
        } else {
            assert(joined_reps(before, a as int, b as int) =~= before);
        }
    }
}

/// Representatives after the classes of `a` and `b` are joined.
spec fn joined_reps(rep: Seq<int>, a: int, b: int) -> Seq<int> {
    Seq::new(
        rep.len(),
        |i: int|
            if rep[i] == rep[a] {
                rep[b]
            } else {
                rep[i]
            },
    )
}

/// Whether two opaque texels touch, at a side or a corner.
pub open spec fn adjacent(mask: Seq<bool>, w: int, i: int, j: int) -> bool {
    &&& 0 <= i < mask.len()
    &&& 0 <= j < mask.len()
    &&& mask[i]
    &&& mask[j]
    &&& -1 <= i % w - j % w <= 1
    &&& -1 <= i / w - j / w <= 1
}

/// Whether the texel after the `k`-th of a path touches it.
pub open spec fn steps(mask: Seq<bool>, w: int, path: Seq<int>, k: int) -> bool {
    adjacent(mask, w, path[k], path[k + 1])
}

/// Whether a path of touching opaque texels leads from `i` to `j`.
pub open spec fn leads(mask: Seq<bool>, w: int, path: Seq<int>, i: int, j: int) -> bool {
    &&& path.len() > 0
    &&& path[0] == i
    &&& path.last() == j
    &&& forall|k: int| 0 <= k < path.len() - 1 ==> #[trigger] steps(mask, w, path, k)
}

/// Whether two opaque texels belong to one island.
pub open spec fn connected(mask: Seq<bool>, w: int, i: int, j: int) -> bool {
    &&& 0 <= i < mask.len()
    &&& mask[i]
    &&& exists|path: Seq<int>| leads(mask, w, path, i, j)
}

/// An opaque texel belongs to its own island.
pub proof fn connected_to_itself(mask: Seq<bool>, w: int, i: int)
    requires
        0 <= i < mask.len(),
        mask[i],
    ensures
        connected(mask, w, i, i),
{
    assert(leads(mask, w, seq![i], i, i));
}

/// The island of `j` is that of `i` where the island of `i` is that of `j`.
pub proof fn connected_both_ways(mask: Seq<bool>, w: int, i: int, j: int)
    requires
        connected(mask, w, i, j),
    ensures
        connected(mask, w, j, i),
{
    let path = choose|path: Seq<int>| leads(mask, w, path, i, j);
    let back = path.reverse();
    assert forall|k: int| 0 <= k < back.len() - 1 implies #[trigger] steps(mask, w, back, k) by {
        assert(steps(mask, w, path, path.len() - 2 - k));
    }
    assert(leads(mask, w, back, j, i));
    if path.len() > 1 {
        assert(steps(mask, w, path, path.len() - 2));
    }
}

/// Islands that share a texel are one.
pub proof fn connected_through(mask: Seq<bool>, w: int, i: int, j: int, k: int)
    requires
        connected(mask, w, i, j),
        connected(mask, w, j, k),
    ensures
        connected(mask, w, i, k),
{
    let p = choose|path: Seq<int>| leads(mask, w, path, i, j);
    let q = choose|path: Seq<int>| leads(mask, w, path, j, k);
    let path = p + q.skip(1);
    assert forall|n: int| 0 <= n < path.len() - 1 implies #[trigger] steps(mask, w, path, n) by {
        if n < p.len() - 1 {
            assert(steps(mask, w, p, n));
        } else {
            assert(steps(mask, w, q, n - (p.len() - 1)));
        }
    }
    assert(leads(mask, w, path, i, k));
}

proof fn lemma_adjacent_connected(mask: Seq<bool>, w: int, i: int, j: int)
    requires
        adjacent(mask, w, i, j),
    ensures
        connected(mask, w, i, j),
{
    let path = seq![i, j];
    assert(steps(mask, w, path, 0));
    assert(leads(mask, w, path, i, j));
}

/// How many of `0..n` have a property.
pub open spec fn tally(p: spec_fn(int) -> bool, n: nat) -> nat
    decreases n,
{
    if n == 0 {
        0
    } else {
        tally(p, (n - 1) as nat) + if p(n - 1) {
            1nat
        } else {
            0nat
        }
    }
}

pub proof fn lemma_tally_same(p: spec_fn(int) -> bool, q: spec_fn(int) -> bool, n: nat)
    requires
        forall|k: int| 0 <= k < n ==> #[trigger] p(k) == q(k),
    ensures
        tally(p, n) == tally(q, n),
    decreases n,
{
    if n > 0 {
        lemma_tally_same(p, q, (n - 1) as nat);
    }
}

pub proof fn lemma_tally_bound(p: spec_fn(int) -> bool, n: nat)
    ensures
        tally(p, n) <= n,
        (exists|k: int| 0 <= k < n && #[trigger] p(k)) <==> tally(p, n) > 0,
    decreases n,
{
    if n > 0 {
        lemma_tally_bound(p, (n - 1) as nat);
        if p(n - 1) {
            assert(0 <= n - 1 < n && p(n - 1));
        }
        if exists|k: int| 0 <= k < n - 1 && #[trigger] p(k) {
            let k = choose|k: int| 0 <= k < n - 1 && #[trigger] p(k);
            assert(0 <= k < n && p(k));
        }
    }
}

/// Being a texel of the island of texel `i`.
pub open spec fn in_island(mask: Seq<bool>, w: int, i: int) -> spec_fn(int) -> bool {
    |j: int| mask[j] && connected(mask, w, i, j)
}

/// Being an opaque texel with label `r`.
pub open spec fn bears(mask: Seq<bool>, label: Seq<usize>, r: int) -> spec_fn(int) -> bool {
    |j: int| mask[j] && label[j] == r
}

/// The number of texels in the island of texel `i`.
pub open spec fn island_area(mask: Seq<bool>, w: int, i: int) -> nat {
    tally(in_island(mask, w, i), mask.len())
}

/// The islands of a mask: a label for each texel and an area for each label.
pub struct Islands {
    pub label: Vec<usize>,
    pub area: Vec<usize>,
}

impl Islands {
    /// Whether these are the islands of a mask: opaque texels share a label exactly where they
    /// are connected, a label is a texel of its island, and each label's area counts its texels.
    pub open spec fn describe(&self, mask: Seq<bool>, w: int) -> bool {
        let n = mask.len();
        &&& self.label@.len() == n
        &&& self.area@.len() == n
        &&& forall|i: int|
            0 <= i < n && mask[i] ==> {
                &&& 0 <= #[trigger] self.label@[i] < n
                &&& mask[self.label@[i] as int]
                &&& self.label@[self.label@[i] as int] == self.label@[i]
            }
        &&& forall|i: int, j: int|
            #![trigger self.label@[i], self.label@[j]]
            0 <= i < n && 0 <= j < n && mask[i] && mask[j] ==> (self.label@[i] == self.label@[j]
                <==> connected(mask, w, i, j))
        &&& forall|r: int|
            0 <= r < n ==> #[trigger] self.area@[r] == tally(bears(mask, self.label@, r), n)
    }
}

/// The area of a texel's label is the area of its island.
pub proof fn label_area_is_island_area(islands: Islands, mask: Seq<bool>, w: int, i: int)
    requires
        islands.describe(mask, w),
        0 <= i < mask.len(),
        mask[i],
    ensures
        islands.area@[islands.label@[i] as int] == island_area(mask, w, i),
{
    let r = islands.label@[i] as int;
    lemma_tally_same(bears(mask, islands.label@, r), in_island(mask, w, i), mask.len());
}

/// Whether the classes of a union-find lie within islands.
spec fn sound(mask: Seq<bool>, w: int, rep: Seq<int>) -> bool {
    forall|i: int, j: int|
        #![trigger rep[i], rep[j]]
        0 <= i < rep.len() && 0 <= j < rep.len() && i != j && rep[i] == rep[j] ==> mask[i]
            && mask[j] && connected(mask, w, i, j)
}

/// Joining two texels of one island keeps the classes within islands.
proof fn lemma_sound(mask: Seq<bool>, w: int, rep: Seq<int>, a: int, b: int)
    requires
        sound(mask, w, rep),
        rep.len() == mask.len(),
        adjacent(mask, w, a, b),
    ensures
        sound(mask, w, joined_reps(rep, a, b)),
{
    let new = joined_reps(rep, a, b);
    lemma_adjacent_connected(mask, w, a, b);
    connected_both_ways(mask, w, a, b);
    connected_to_itself(mask, w, a);
    connected_to_itself(mask, w, b);
    assert forall|i: int, j: int|
        #![trigger new[i], new[j]]
        0 <= i < new.len() && 0 <= j < new.len() && i != j && new[i] == new[j] implies mask[i]
        && mask[j] && connected(mask, w, i, j) by {
        if rep[i] != rep[j] {
            let (p, q) = if rep[i] == rep[a] {
                (a, b)
            } else {
                (b, a)
            };
            assert(rep[i] == rep[p] && rep[j] == rep[q]);
            if i != p {
                assert(connected(mask, w, i, p));
            }
            if j != q {
                assert(connected(mask, w, q, j));
            }
            connected_through(mask, w, i, p, q);
            connected_through(mask, w, i, q, j);
        }
    }
}

/// Whether the texels up to `upto` share their class with each texel after them that they touch.
spec fn complete(mask: Seq<bool>, w: int, rep: Seq<int>, upto: int) -> bool {
    forall|i: int, j: int|
        #![trigger adjacent(mask, w, i, j)]
        i < upto && i < j && adjacent(mask, w, i, j) ==> rep[i] == rep[j]
}

/// Texels of one island share their class once every pair that touches does.
proof fn lemma_path_same(mask: Seq<bool>, w: int, rep: Seq<int>, path: Seq<int>, i: int, j: int)
    requires
        complete(mask, w, rep, mask.len() as int),
        leads(mask, w, path, i, j),
    ensures
        rep[i] == rep[j],
    decreases path.len(),
{
    if path.len() > 1 {
        let k = path.len() - 2;
        assert(steps(mask, w, path, k));
        let p = path[k];
        assert(adjacent(mask, w, p, j));
        assert(adjacent(mask, w, j, p));
        let shorter = path.drop_last();
        assert forall|m: int| 0 <= m < shorter.len() - 1 implies #[trigger] steps(
            mask,
            w,
            shorter,
            m,
        ) by {
            assert(steps(mask, w, path, m));
        }
        assert(leads(mask, w, shorter, i, p));
        lemma_path_same(mask, w, rep, shorter, i, p);
    }
}

/// The texels after `i` that it can touch: right, below left, below and below right.
proof fn lemma_forward(w: int, h: int, i: int, j: int)
    requires
        0 < w,
        0 <= h,
        0 <= i < j < w * h,
        -1 <= i % w - j % w <= 1,
        -1 <= i / w - j / w <= 1,
    ensures
        ({
            ||| j == i + 1 && i % w + 1 < w
            ||| j == i + w && i / w + 1 < h
            ||| j == i + w + 1 && i / w + 1 < h && i % w + 1 < w
            ||| j == i + w - 1 && i / w + 1 < h && i % w >= 1
        }),
{
    crate::mask::lemma_place(w, h, i);
    crate::mask::lemma_place(w, h, j);
    let (x, y) = (i % w, i / w);
    let (p, q) = (j % w, j / w);
    assert((y + 1) * w == y * w + w) by (nonlinear_arith);
    assert((y - 1) * w == y * w - w) by (nonlinear_arith);
    assert(q == y - 1 || q == y || q == y + 1);
}

/// A texel after `i` at one of those places touches it.
proof fn lemma_backward(w: int, h: int, i: int, dx: int, dy: int)
    requires
        0 < w,
        0 <= h,
        0 <= i < w * h,
        0 <= i % w + dx < w,
        0 <= i / w + dy < h,
        -1 <= dx <= 1,
        0 <= dy <= 1,
    ensures
        0 <= i + dy * w + dx < w * h,
        (i + dy * w + dx) % w == i % w + dx,
        (i + dy * w + dx) / w == i / w + dy,
{
    crate::mask::lemma_place(w, h, i);
    let (x, y) = (i % w, i / w);
    crate::mask::lemma_texel(w, h, x + dx, y + dy);
    assert((y + dy) * w == y * w + dy * w) by (nonlinear_arith);
}

/// Whether the first `n` labels are the representatives.
spec fn labels_are(label: Seq<usize>, rep: Seq<int>, n: int) -> bool {
    forall|k: int| 0 <= k < n ==> #[trigger] label[k] == rep[k] && 0 <= rep[k] < rep.len()
}

/// Finds the islands of a mask by joining each opaque texel with those after it that it touches.
pub fn find_islands(mask: &Vec<bool>, w: usize, h: usize) -> (r: Islands)
    requires
        w * h == mask@.len(),
    ensures
        r.describe(mask@, w as int),
{
    let n: usize = mask.len();
    let ghost (m, wi, hi) = (mask@, w as int, h as int);
    let mut sets = UnionFind::new(n);
    for i in 0..n
        invariant
            n == mask@.len(),
            m == mask@,
            wi == w,
            hi == h,
            w * h == n,
            sets.wf(),
            sets.rep@.len() == n,
            sound(m, wi, sets.rep@),
            complete(m, wi, sets.rep@, i as int),
    {
        proof {
            crate::mask::lemma_place(wi, hi, i as int);
        }
        if mask[i] {
            join_forward(&mut sets, mask, w, h, i);
        } else {
            assert(complete(m, wi, sets.rep@, i + 1));
        }
    }
    let mut label: Vec<usize> = Vec::new();
    let mut area: Vec<usize> = Vec::new();
    let ghost rep = sets.rep@;
    for i in 0..n
        invariant
            n == mask@.len(),
            sets.wf(),
            sets.rep@ == rep,
            rep.len() == n,
            label@.len() == i,
            area@.len() == i,
            labels_are(label@, rep, i as int),
            forall|k: int| 0 <= k < i ==> #[trigger] area@[k] == 0,
    {
        assert(linked(sets.parent@, rep, sets.rank@, sets.top@, i as int));
        label.push(sets.find(i));
        area.push(0);
    }
    for i in 0..n
        invariant
            n == mask@.len(),
            m == mask@,
            rep.len() == n,
            label@.len() == n,
            area@.len() == n,
            labels_are(label@, rep, n as int),
            forall|r: int|
                0 <= r < n ==> #[trigger] area@[r] == tally(bears(m, label@, r), i as nat),
    {
        let ghost before = area@;
        if mask[i] {
            let r: usize = label[i];
            proof {
                lemma_tally_bound(bears(m, label@, r as int), i as nat);
            }
            let one_more: usize = area[r] + 1;
            area.set(r, one_more);
        }
        assert forall|r: int| 0 <= r < n implies #[trigger] area@[r] == tally(
            bears(m, label@, r),
            (i + 1) as nat,
        ) by {
            assert(before[r] == tally(bears(m, label@, r), i as nat));
            assert(bears(m, label@, r)(i as int) == (m[i as int] && label@[i as int] == r));
        }
    }
    let r = Islands { label, area };
    proof {
        assert forall|i: int| 0 <= i < n && m[i] implies {
            &&& 0 <= #[trigger] r.label@[i] < n
            &&& m[r.label@[i] as int]
            &&& r.label@[r.label@[i] as int] == r.label@[i]
        } by {
            assert(linked(sets.parent@, rep, sets.rank@, sets.top@, i));
            assert(linked(sets.parent@, rep, sets.rank@, sets.top@, rep[i]));
            assert(rep[rep[i]] == rep[i]);
        }
        assert forall|i: int, j: int|
            #![trigger r.label@[i], r.label@[j]]
            0 <= i < n && 0 <= j < n && m[i] && m[j] implies (r.label@[i] == r.label@[j]
            <==> connected(m, wi, i, j)) by {
            if i == j {
                connected_to_itself(m, wi, i);
            }
            if connected(m, wi, i, j) {
                let path = choose|path: Seq<int>| leads(m, wi, path, i, j);
                lemma_path_same(m, wi, rep, path, i, j);
            }
            assert(rep[i] == r.label@[i] && rep[j] == r.label@[j]);
        }
    }
    r
}

/// Joins an opaque texel with each opaque texel after it that it touches.
fn join_forward(sets: &mut UnionFind, mask: &Vec<bool>, w: usize, h: usize, i: usize)
    requires
        w * h == mask@.len(),
        i < mask@.len(),
        mask@[i as int],
        old(sets).wf(),
        old(sets).rep@.len() == mask@.len(),
        sound(mask@, w as int, old(sets).rep@),
        complete(mask@, w as int, old(sets).rep@, i as int),
    ensures
        final(sets).wf(),
        final(sets).rep@.len() == mask@.len(),
        sound(mask@, w as int, final(sets).rep@),
        complete(mask@, w as int, final(sets).rep@, i + 1),
{
    let ghost (m, wi, hi, ii) = (mask@, w as int, h as int, i as int);
    proof {
        crate::mask::lemma_place(wi, hi, ii);
    }
    let x: usize = i % w;
    let y: usize = i / w;
    if x + 1 < w {
        proof {
            lemma_backward(wi, hi, ii, 1, 0);
            assert(i + 1 < mask.len());
        }
        if mask[i + 1] {
            proof {
                assert(adjacent(m, wi, ii, ii + 1));
                lemma_sound(m, wi, sets.rep@, ii, ii + 1);
            }
            sets.union(i, i + 1);
        }
    }
    let ghost r1 = sets.rep@;
    assert(x + 1 < w && m[ii + 1] ==> r1[ii] == r1[ii + 1]);
    if y + 1 < h {
        proof {
            lemma_backward(wi, hi, ii, 0, 1);
            assert(i + w < mask.len());
        }
        if mask[i + w] {
            proof {
                assert(adjacent(m, wi, ii, ii + wi));
                lemma_sound(m, wi, sets.rep@, ii, ii + wi);
            }
            sets.union(i, i + w);
        }
        let ghost r2 = sets.rep@;
        assert(x + 1 < w && m[ii + 1] ==> r2[ii] == r2[ii + 1]);
        assert(m[ii + wi] ==> r2[ii] == r2[ii + wi]);
        if x + 1 < w {
            proof {
                lemma_backward(wi, hi, ii, 1, 1);
                assert(i + w + 1 < mask.len());
            }
            if mask[i + w + 1] {
                proof {
                    assert(adjacent(m, wi, ii, ii + wi + 1));
                    lemma_sound(m, wi, sets.rep@, ii, ii + wi + 1);
                }
                sets.union(i, i + w + 1);
            }
        }
        if x >= 1 {
            proof {
                lemma_backward(wi, hi, ii, -1, 1);
            }
            if mask[i + w - 1] {
                proof {
                    assert(adjacent(m, wi, ii, ii + wi - 1));
                    lemma_sound(m, wi, sets.rep@, ii, ii + wi - 1);
                }
                sets.union(i, i + w - 1);
            }
        }
    }
    proof {
        let rep = sets.rep@;
        assert forall|a: int, b: int|
            #![trigger adjacent(m, wi, a, b)]
            a < ii + 1 && a < b && adjacent(m, wi, a, b) implies rep[a] == rep[b] by {
            if a == ii {
                lemma_forward(wi, hi, a, b);
            }
        }
    }
}

/// The area of the largest island; zero where no texel is opaque.
pub fn largest_area(islands: &Islands, mask: &Vec<bool>, w: usize) -> (r: usize)
    requires
        islands.describe(mask@, w as int),
    ensures
        forall|i: int|
            0 <= i < mask@.len() && mask@[i] ==> #[trigger] island_area(mask@, w as int, i) <= r,
        r == 0 <==> forall|i: int| 0 <= i < mask@.len() ==> !#[trigger] mask@[i],
        r > 0 ==> exists|i: int|
            0 <= i < mask@.len() && mask@[i] && r == #[trigger] island_area(mask@, w as int, i),
{
    let ghost (m, wi) = (mask@, w as int);
    let mut best: usize = 0;
    let ghost mut at: int = 0;
    for i in 0..mask.len()
        invariant
            m == mask@,
            wi == w,
            islands.describe(m, wi),
            forall|k: int| 0 <= k < i && m[k] ==> #[trigger] island_area(m, wi, k) <= best,
            best == 0 ==> forall|k: int| 0 <= k < i ==> !#[trigger] m[k],
            best > 0 ==> 0 <= at < i && m[at] && best == island_area(m, wi, at),
    {
        if mask[i] {
            let a: usize = islands.area[islands.label[i]];
            proof {
                label_area_is_island_area(*islands, m, wi, i as int);
                connected_to_itself(m, wi, i as int);
                lemma_tally_bound(in_island(m, wi, i as int), m.len());
                assert(in_island(m, wi, i as int)(i as int));
            }
            if a > best {
                best = a;
                proof {
                    at = i as int;
                }
            }
        }
    }
    best
}

/// What is left of a mask without its small islands, and what was dropped.
pub struct Despeckled {
    pub mask: Vec<bool>,
    pub kept_islands: usize,
    pub removed_islands: usize,
    pub removed_texels: usize,
}

/// Being the label of an island smaller than `threshold`.
pub open spec fn small_label(area: Seq<usize>, threshold: int) -> spec_fn(int) -> bool {
    |r: int| 0 < area[r] < threshold
}

/// Being the label of an island of `threshold` texels or more.
pub open spec fn large_label(area: Seq<usize>, threshold: int) -> spec_fn(int) -> bool {
    |r: int| 0 < area[r] && threshold <= area[r]
}

/// Being an opaque texel of an island smaller than `threshold`.
pub open spec fn on_small_island(mask: Seq<bool>, w: int, threshold: int) -> spec_fn(int) -> bool {
    |i: int| mask[i] && island_area(mask, w, i) < threshold
}

/// A mask without its islands of fewer than `threshold` texels.
pub open spec fn despeckled(mask: Seq<bool>, w: int, threshold: int) -> Seq<bool> {
    Seq::new(mask.len(), |i: int| mask[i] && island_area(mask, w, i) >= threshold)
}

/// Remove small opaque islands from a mask: every island of fewer than `threshold` texels
/// becomes transparent, and nothing else changes.
pub fn despeckle_alpha(mask: &Vec<bool>, w: usize, islands: &Islands, threshold: u32) -> (r:
    Despeckled)
    requires
        islands.describe(mask@, w as int),
    ensures
        r.mask@ == despeckled(mask@, w as int, threshold as int),
        r.removed_islands == tally(
            small_label(islands.area@, threshold as int),
            mask@.len(),
        ),
        r.kept_islands == tally(large_label(islands.area@, threshold as int), mask@.len()),
        r.removed_texels == tally(
            on_small_island(mask@, w as int, threshold as int),
            mask@.len(),
        ),
{
    let ghost (m, wi, t) = (mask@, w as int, threshold as int);
    let mut out: Vec<bool> = Vec::new();
    let mut kept_islands: usize = 0;
    let mut removed_islands: usize = 0;
    let mut removed_texels: usize = 0;
    for i in 0..mask.len()
        invariant
            m == mask@,
            wi == w,
            t == threshold,
            islands.describe(m, wi),
            out@.len() == i,
            removed_islands <= i,
            kept_islands <= i,
            removed_texels <= i,
            removed_islands == tally(small_label(islands.area@, t), i as nat),
            kept_islands == tally(large_label(islands.area@, t), i as nat),
            removed_texels == tally(on_small_island(m, wi, t), i as nat),
            forall|k: int|
                0 <= k < i ==> #[trigger] out@[k] == (m[k] && island_area(m, wi, k) >= t),
    {
        assert(small_label(islands.area@, t)(i as int) == (0 < islands.area@[i as int] < t));
        assert(large_label(islands.area@, t)(i as int) == (0 < islands.area@[i as int] && t
            <= islands.area@[i as int]));
        assert(on_small_island(m, wi, t)(i as int) == (m[i as int] && island_area(m, wi, i as int)
            < t));
        let a: usize = islands.area[i];
        if a > 0 {
            if a < threshold as usize {
                removed_islands = removed_islands + 1;
            } else {
                kept_islands = kept_islands + 1;
            }
        }
        if mask[i] {
            proof {
                label_area_is_island_area(*islands, m, wi, i as int);
            }
            let small = islands.area[islands.label[i]] < threshold as usize;
            if small {
                removed_texels = removed_texels + 1;
            }
            out.push(!small);
        } else {
            out.push(false);
        }
    }
    assert(out@ =~= despeckled(m, wi, t));
    Despeckled { mask: out, kept_islands, removed_islands, removed_texels }
}

/// The line that says what was dropped from a texture's mask.
pub open spec fn despeckle_line(
    tex: Seq<char>,
    kept: nat,
    removed: nat,
    threshold: nat,
    texels: nat,
) -> Seq<char> {
    "  despeckle "@ + tex + ": kept "@ + text::decimal(kept) + " island(s), dropped "@
        + text::decimal(removed) + " (<"@ + text::decimal(threshold) + "px) = "@ + text::decimal(
        texels,
    ) + " texels"@
}

/// Says what was dropped from a texture's mask; nothing where no island was.
pub fn despeckle_report(tex: &str, d: &Despeckled, threshold: u32) -> (r: Option<String>)
    ensures
        match r {
            Some(line) => d.removed_islands > 0 && line@ == despeckle_line(
                tex@,
                d.kept_islands as nat,
                d.removed_islands as nat,
                threshold as nat,
                d.removed_texels as nat,
            ),
            None => d.removed_islands == 0,
        },
{
    if d.removed_islands == 0 {
        return None;
    }
    let mut out = "  despeckle ".to_owned();
    out.append(tex);
    out.append(": kept ");
    text::push_decimal(&mut out, d.kept_islands as u64);
    out.append(" island(s), dropped ");
    text::push_decimal(&mut out, d.removed_islands as u64);
    out.append(" (<");
    text::push_decimal(&mut out, threshold as u64);
    out.append("px) = ");
    text::push_decimal(&mut out, d.removed_texels as u64);
    out.append(" texels");
    Some(out)
}

/// An island is dropped or kept as a whole: all its texels see the same area.
pub proof fn island_goes_or_stays_whole(mask: Seq<bool>, w: int, i: int, j: int)
    requires
        connected(mask, w, i, j),
    ensures
        island_area(mask, w, i) == island_area(mask, w, j),
{
    connected_both_ways(mask, w, i, j);
    assert forall|k: int| 0 <= k < mask.len() implies #[trigger] in_island(mask, w, i)(k)
        == in_island(mask, w, j)(k) by {
        if mask[k] && connected(mask, w, i, k) {
            connected_through(mask, w, j, i, k);
        }
        if mask[k] && connected(mask, w, j, k) {
            connected_through(mask, w, i, j, k);
        }
    }
    lemma_tally_same(in_island(mask, w, i), in_island(mask, w, j), mask.len());
}

/// An island of `threshold` texels or more stays as it is; so does the largest, where it is as large.
pub proof fn large_islands_stay(mask: Seq<bool>, w: int, threshold: int, i: int, j: int)
    requires
        connected(mask, w, i, j),
        0 <= j < mask.len(),
        mask[j],
        island_area(mask, w, i) >= threshold,
    ensures
        despeckled(mask, w, threshold)[j],
        connected(despeckled(mask, w, threshold), w, i, j),
{
    let path = choose|path: Seq<int>| leads(mask, w, path, i, j);
    island_goes_or_stays_whole(mask, w, i, j);
    lemma_path_stays(mask, w, threshold, path, i, j);
}

proof fn lemma_path_stays(mask: Seq<bool>, w: int, threshold: int, path: Seq<int>, i: int, j: int)
    requires
        0 <= i < mask.len(),
        mask[i],
        leads(mask, w, path, i, j),
        island_area(mask, w, i) >= threshold,
    ensures
        connected(despeckled(mask, w, threshold), w, i, j),
{
    let left = despeckled(mask, w, threshold);
    assert forall|k: int| 0 <= k < path.len() implies 0 <= #[trigger] path[k] < mask.len()
        && left[path[k]] by {
        if k > 0 {
            assert(steps(mask, w, path, k - 1));
        }
        let part = path.take(k + 1);
        assert forall|n: int| 0 <= n < part.len() - 1 implies #[trigger] steps(mask, w, part, n) by {
            assert(steps(mask, w, path, n));
        }
        assert(leads(mask, w, part, i, path[k]));
        island_goes_or_stays_whole(mask, w, i, path[k]);
    }
    assert forall|k: int| 0 <= k < path.len() - 1 implies #[trigger] steps(left, w, path, k) by {
        assert(steps(mask, w, path, k));
        assert(left[path[k]] && left[path[k + 1]]);
    }
    assert(leads(left, w, path, i, j));
    assert(left[path[0]]);
}

proof fn lemma_paths_were(mask: Seq<bool>, w: int, threshold: int, i: int, j: int)
    requires
        connected(despeckled(mask, w, threshold), w, i, j),
    ensures
        connected(mask, w, i, j),
{
    let left = despeckled(mask, w, threshold);
    let path = choose|path: Seq<int>| leads(left, w, path, i, j);
    assert forall|k: int| 0 <= k < path.len() - 1 implies #[trigger] steps(mask, w, path, k) by {
        assert(steps(left, w, path, k));
    }
    assert(leads(mask, w, path, i, j));
}

/// Removing small islands a second time changes nothing.
pub proof fn despeckling_settles(mask: Seq<bool>, w: int, threshold: int)
    ensures
        despeckled(despeckled(mask, w, threshold), w, threshold) == despeckled(mask, w, threshold),
{
    let left = despeckled(mask, w, threshold);
    assert forall|i: int| 0 <= i < mask.len() && left[i] implies island_area(left, w, i)
        >= threshold by {
        assert forall|k: int| 0 <= k < mask.len() implies #[trigger] in_island(left, w, i)(k)
            == in_island(mask, w, i)(k) by {
            if mask[k] && connected(mask, w, i, k) {
                large_islands_stay(mask, w, threshold, i, k);
            }
            if left[k] && connected(left, w, i, k) {
                lemma_paths_were(mask, w, threshold, i, k);
            }
        }
        lemma_tally_same(in_island(left, w, i), in_island(mask, w, i), mask.len());
    }
    assert(despeckled(left, w, threshold) =~= left);
}

/// Opaque texels that touch, at a side or at a corner, are of one island; across the edge of a row
/// they do not touch.
pub proof fn touching_texels_share_an_island(mask: Seq<bool>, w: int, h: int, x: int, y: int, a: int, b: int)
    requires
        mask.len() == w * h,
        0 <= x < w,
        0 <= y < h,
        0 <= a < w,
        0 <= b < h,
        -1 <= x - a <= 1,
        -1 <= y - b <= 1,
        mask[y * w + x],
        mask[b * w + a],
    ensures
        connected(mask, w, y * w + x, b * w + a),
{
    crate::mask::lemma_texel(w, h, x, y);
    crate::mask::lemma_texel(w, h, a, b);
    let (i, j) = (y * w + x, b * w + a);
    let path = seq![i, j];
    assert(adjacent(mask, w, i, j));
    assert(steps(mask, w, path, 0));
    assert(leads(mask, w, path, i, j));
}

/// A texel without an opaque neighbour at a side or a corner is an island of its own.
pub proof fn lone_texels_are_islands(mask: Seq<bool>, w: int, h: int, x: int, y: int, j: int)
    requires
        mask.len() == w * h,
        0 <= x < w,
        0 <= y < h,
        connected(mask, w, y * w + x, j),
        forall|a: int, b: int|
            0 <= a < w && 0 <= b < h && -1 <= x - a <= 1 && -1 <= y - b <= 1 && (a != x || b != y)
                ==> !#[trigger] mask[b * w + a],
    ensures
        j == y * w + x,
{
    crate::mask::lemma_texel(w, h, x, y);
    let i = y * w + x;
    let path = choose|path: Seq<int>| leads(mask, w, path, i, j);
    if path.len() > 1 {
        lemma_lone_path(mask, w, h, x, y, path, path.len() - 1);
    }
}

proof fn lemma_lone_path(mask: Seq<bool>, w: int, h: int, x: int, y: int, path: Seq<int>, k: int)
    requires
        mask.len() == w * h,
        0 <= x < w,
        0 <= y < h,
        path.len() > 0,
        path[0] == y * w + x,
        0 <= k < path.len(),
        forall|k: int| 0 <= k < path.len() - 1 ==> #[trigger] steps(mask, w, path, k),
        forall|a: int, b: int|
            0 <= a < w && 0 <= b < h && -1 <= x - a <= 1 && -1 <= y - b <= 1 && (a != x || b != y)
                ==> !#[trigger] mask[b * w + a],
    ensures
        path[k] == y * w + x,
    decreases k,
{
    if k > 0 {
        lemma_lone_path(mask, w, h, x, y, path, k - 1);
        crate::mask::lemma_texel(w, h, x, y);
        assert(steps(mask, w, path, k - 1));
        let j = path[k];
        crate::mask::lemma_place(w, h, j);
        let (a, b) = (j % w, j / w);
        assert(mask[b * w + a]);
    }
}

/// Dropping small islands only cuts away; nothing is dropped for a threshold of one, and the texels
/// that stay are those on islands of the threshold's size or more.
pub proof fn despeckling_only_cuts(mask: Seq<bool>, w: int, threshold: int, i: int)
    requires
        0 <= i < mask.len(),
    ensures
        despeckled(mask, w, threshold).len() == mask.len(),
        despeckled(mask, w, threshold)[i] ==> mask[i],
        threshold <= 1 ==> despeckled(mask, w, threshold)[i] == mask[i],
        mask[i] && !despeckled(mask, w, threshold)[i] ==> island_area(mask, w, i) < threshold,
        mask[i] && island_area(mask, w, i) < threshold ==> !despeckled(mask, w, threshold)[i],
{
    if mask[i] {
        connected_to_itself(mask, w, i);
        let p = in_island(mask, w, i);
        assert(p(i));
        lemma_tally_bound(p, mask.len());
    }
}

/// The area of an island is the number of its texels.
pub proof fn areas_count_texels(mask: Seq<bool>, w: int, i: int)
    ensures
        ({
            let island = Set::new(|j: int| 0 <= j < mask.len() && mask[j] && connected(mask, w, i, j));
            island.finite() && island.len() == island_area(mask, w, i)
        }),
{
    lemma_tally_set(in_island(mask, w, i), mask.len());
    let island = Set::new(|j: int| 0 <= j < mask.len() && mask[j] && connected(mask, w, i, j));
    let p = in_island(mask, w, i);
    assert(island =~= Set::new(|j: int| 0 <= j < mask.len() && p(j)));
}

proof fn lemma_tally_set(p: spec_fn(int) -> bool, n: nat)
    ensures
        Set::new(|j: int| 0 <= j < n && p(j)).finite(),
        Set::new(|j: int| 0 <= j < n && p(j)).len() == tally(p, n),
    decreases n,
{
    let all = Set::new(|j: int| 0 <= j < n && p(j));
    if n == 0 {
        assert(all =~= Set::empty());
    } else {
        let m = (n - 1) as nat;
        lemma_tally_set(p, m);
        let less = Set::new(|j: int| 0 <= j < m && p(j));
        if p(n - 1) {
            assert(all =~= less.insert(n - 1));
        } else {
            assert(all =~= less);
        }
    }
}

/// What is dropped is what despeckling takes away, texel by texel; an island counts as dropped where
/// it has texels, but fewer than the threshold, and as kept where it has as many or more.
pub proof fn dropped_texels_are_counted(
    mask: Seq<bool>,
    w: int,
    area: Seq<usize>,
    threshold: int,
    i: int,
)
    requires
        0 <= i < mask.len(),
    ensures
        on_small_island(mask, w, threshold)(i) <==> mask[i] && !despeckled(mask, w, threshold)[i],
        small_label(area, threshold)(i) <==> 0 < area[i] < threshold,
        large_label(area, threshold)(i) <==> 0 < area[i] && threshold <= area[i],
{
}

/// A report tells the texture, how many islands stayed and how many went, under what size, and how
/// many texels those had.
pub proof fn drops_are_told(tex: Seq<char>, kept: nat, removed: nat, threshold: nat, texels: nat)
    ensures
        despeckle_line(tex, kept, removed, threshold, texels) == "  despeckle "@ + tex + ": kept "@
            + text::decimal(kept) + " island(s), dropped "@ + text::decimal(removed) + " (<"@
            + text::decimal(threshold) + "px) = "@ + text::decimal(texels) + " texels"@,
{
}

} // verus!
