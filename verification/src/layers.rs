//! Layered layout of a directed graph: a node's column is one past its deepest predecessor.

use vstd::prelude::*;

verus! {

/// The predecessors of node `v` among `n` nodes, in the order of the edges.
pub open spec fn preds_of(edges: Seq<(usize, usize)>, v: int, n: nat) -> Seq<usize>
    decreases edges.len(),
{
    if edges.len() == 0 {
        seq![]
    } else {
        let most = preds_of(edges.drop_last(), v, n);
        let (from, to) = edges.last();
        if to == v && from < n {
            most.push(from)
        } else {
            most
        }
    }
}

/// One past the deepest of a list of nodes; zero for none.
pub open spec fn past_deepest(preds: Seq<usize>, depth: Seq<usize>) -> int
    decreases preds.len(),
{
    if preds.len() == 0 {
        0
    } else {
        let most = past_deepest(preds.drop_last(), depth);
        let last = depth[preds.last() as int] + 1;
        if last > most {
            last
        } else {
            most
        }
    }
}

/// The column that a node wants: one past its deepest predecessor.
pub open spec fn wants(edges: Seq<(usize, usize)>, depth: Seq<usize>, v: int) -> int {
    past_deepest(preds_of(edges, v, depth.len()), depth)
}

/// Columns once the first `upto` nodes of `at` moved as far right as they wanted, one by one.
pub open spec fn swept(
    edges: Seq<(usize, usize)>,
    at: Seq<usize>,
    depth: Seq<usize>,
    upto: nat,
) -> Seq<usize>
    decreases upto,
{
    if upto == 0 {
        depth
    } else {
        let d = swept(edges, at, depth, (upto - 1) as nat);
        let v = at[upto - 1] as int;
        if wants(edges, d, v) > d[v] {
            d.update(v, wants(edges, d, v) as usize)
        } else {
            d
        }
    }
}

/// Columns after `k` sweeps over the nodes of `at`, from all zero.
pub open spec fn columns_after(edges: Seq<(usize, usize)>, at: Seq<usize>, k: nat) -> Seq<usize>
    decreases k,
{
    if k == 0 {
        Seq::new(at.len(), |i: int| 0usize)
    } else {
        swept(edges, at, columns_after(edges, at, (k - 1) as nat), at.len())
    }
}

proof fn lemma_preds(edges: Seq<(usize, usize)>, v: int, n: nat)
    ensures
        forall|k: int|
            0 <= k < preds_of(edges, v, n).len() ==> #[trigger] preds_of(edges, v, n)[k] < n,
    decreases edges.len(),
{
    if edges.len() > 0 {
        lemma_preds(edges.drop_last(), v, n);
        let most = preds_of(edges.drop_last(), v, n);
        assert forall|k: int| 0 <= k < preds_of(edges, v, n).len() implies #[trigger] preds_of(
            edges,
            v,
            n,
        )[k] < n by {
            if k < most.len() {
                assert(preds_of(edges, v, n)[k] == most[k]);
            }
        }
    }
}

proof fn lemma_pred_edge(edges: Seq<(usize, usize)>, v: int, n: nat, k: int)
    requires
        0 <= k < preds_of(edges, v, n).len(),
    ensures
        exists|e: int|
            0 <= e < edges.len() && (#[trigger] edges[e]).0 == preds_of(edges, v, n)[k]
                && edges[e].1 == v,
    decreases edges.len(),
{
    let most = preds_of(edges.drop_last(), v, n);
    if k < most.len() {
        lemma_pred_edge(edges.drop_last(), v, n, k);
        let e = choose|e: int|
            0 <= e < edges.drop_last().len() && (#[trigger] edges.drop_last()[e]).0 == most[k]
                && edges.drop_last()[e].1 == v;
        assert(edges[e] == edges.drop_last()[e]);
    } else {
        assert(edges[edges.len() - 1] == edges.last());
    }
}

/// A bound on what is wanted where every column is bounded.
proof fn lemma_bound(preds: Seq<usize>, depth: Seq<usize>, b: int)
    requires
        0 <= b,
        forall|k: int| 0 <= k < preds.len() ==> #[trigger] preds[k] < depth.len(),
        forall|k: int| 0 <= k < depth.len() ==> #[trigger] depth[k] <= b,
    ensures
        0 <= past_deepest(preds, depth) <= b + 1,
    decreases preds.len(),
{
    if preds.len() > 0 {
        lemma_bound(preds.drop_last(), depth, b);
        assert(preds[preds.len() - 1] == preds.last());
    }
}

proof fn lemma_swept_bound(
    edges: Seq<(usize, usize)>,
    at: Seq<usize>,
    depth: Seq<usize>,
    upto: nat,
    b: int,
)
    requires
        0 <= b,
        upto <= at.len(),
        at.len() == depth.len(),
        b + upto <= usize::MAX,
        forall|k: int| 0 <= k < at.len() ==> #[trigger] at[k] < depth.len(),
        forall|k: int| 0 <= k < depth.len() ==> #[trigger] depth[k] <= b,
    ensures
        swept(edges, at, depth, upto).len() == depth.len(),
        forall|k: int|
            0 <= k < depth.len() ==> #[trigger] swept(edges, at, depth, upto)[k] <= b + upto,
    decreases upto,
{
    if upto > 0 {
        lemma_swept_bound(edges, at, depth, (upto - 1) as nat, b);
        let d = swept(edges, at, depth, (upto - 1) as nat);
        let v = at[upto - 1] as int;
        lemma_preds(edges, v, d.len());
        lemma_bound(preds_of(edges, v, d.len()), d, b + upto - 1);
    }
}

proof fn lemma_columns_bound(edges: Seq<(usize, usize)>, at: Seq<usize>, k: nat)
    requires
        k <= at.len(),
        at.len() * at.len() <= usize::MAX,
        forall|i: int| 0 <= i < at.len() ==> #[trigger] at[i] < at.len(),
    ensures
        columns_after(edges, at, k).len() == at.len(),
        forall|i: int|
            0 <= i < at.len() ==> #[trigger] columns_after(edges, at, k)[i] <= k * at.len(),
    decreases k,
{
    if k > 0 {
        lemma_columns_bound(edges, at, (k - 1) as nat);
        assert((k - 1) * at.len() + at.len() == k * at.len()) by (nonlinear_arith);
        assert(k * at.len() <= at.len() * at.len()) by (nonlinear_arith)
            requires
                k <= at.len(),
        ;
        assert(0 <= (k - 1) * at.len()) by (nonlinear_arith)
            requires
                k > 0,
        ;
        lemma_swept_bound(
            edges,
            at,
            columns_after(edges, at, (k - 1) as nat),
            at.len(),
            (k - 1) * at.len(),
        );
    }
}

/// No column is further right than the square of the number of nodes.
pub proof fn columns_are_bounded(edges: Seq<(usize, usize)>, at: Seq<usize>)
    requires
        at.len() * at.len() <= usize::MAX,
        forall|i: int| 0 <= i < at.len() ==> #[trigger] at[i] < at.len(),
    ensures
        columns_after(edges, at, at.len()).len() == at.len(),
        forall|i: int|
            0 <= i < at.len() ==> #[trigger] columns_after(edges, at, at.len())[i] <= at.len()
                * at.len(),
{
    lemma_columns_bound(edges, at, at.len());
}

/// Once a sweep moves nothing, none does.
proof fn lemma_settled(edges: Seq<(usize, usize)>, at: Seq<usize>, k: nat, m: nat)
    requires
        columns_after(edges, at, (k + 1) as nat) == columns_after(edges, at, k),
        k <= m,
    ensures
        columns_after(edges, at, m) == columns_after(edges, at, k),
    decreases m,
{
    if m > k {
        lemma_settled(edges, at, k, (m - 1) as nat);
    }
}

fn list_preds(edges: &Vec<(usize, usize)>, n: usize) -> (r: Vec<Vec<usize>>)
    ensures
        r@.len() == n,
        forall|v: int| 0 <= v < n ==> (#[trigger] r@[v])@ == preds_of(edges@, v, n as nat),
{
    let mut out: Vec<Vec<usize>> = Vec::new();
    for v in 0..n
        invariant
            out@.len() == v,
            forall|u: int| 0 <= u < v ==> (#[trigger] out@[u])@ == Seq::<usize>::empty(),
    {
        out.push(Vec::new());
    }
    assert(edges@.take(0) =~= seq![]);
    for e in 0..edges.len()
        invariant
            out@.len() == n,
            forall|v: int|
                0 <= v < n ==> (#[trigger] out@[v])@ == preds_of(
                    edges@.take(e as int),
                    v,
                    n as nat,
                ),
    {
        assert(edges@.take(e + 1).drop_last() =~= edges@.take(e as int));
        let (from, to) = edges[e];
        if to < n && from < n {
            let mut list = out[to].clone();
            assert(list@ =~= out@[to as int]@);
            list.push(from);
            out.set(to, list);
        }
    }
    assert(edges@.take(edges@.len() as int) =~= edges@);
    out
}

fn past(preds: &Vec<usize>, depth: &Vec<usize>) -> (r: usize)
    requires
        forall|k: int| 0 <= k < preds@.len() ==> #[trigger] preds@[k] < depth@.len(),
        forall|k: int| 0 <= k < depth@.len() ==> #[trigger] depth@[k] < usize::MAX,
    ensures
        r == past_deepest(preds@, depth@),
{
    let mut best: usize = 0;
    for k in 0..preds.len()
        invariant
            forall|k: int| 0 <= k < preds@.len() ==> #[trigger] preds@[k] < depth@.len(),
            forall|k: int| 0 <= k < depth@.len() ==> #[trigger] depth@[k] < usize::MAX,
            best == past_deepest(preds@.take(k as int), depth@),
    {
        assert(preds@.take(k + 1).drop_last() =~= preds@.take(k as int));
        let d: usize = depth[preds[k]] + 1;
        if d > best {
            best = d;
        }
    }
    assert(preds@.take(preds@.len() as int) =~= preds@);
    best
}

fn sweep(preds: &Vec<Vec<usize>>, at: &Vec<usize>, depth: &mut Vec<usize>, Ghost(edges): Ghost<
    Seq<(usize, usize)>,
>, Ghost(b): Ghost<int>) -> (changed: bool)
    requires
        at@.len() == old(depth)@.len(),
        preds@.len() == old(depth)@.len(),
        0 <= b,
        b + at@.len() <= usize::MAX,
        forall|k: int| 0 <= k < at@.len() ==> #[trigger] at@[k] < at@.len(),
        forall|k: int| 0 <= k < at@.len() ==> #[trigger] old(depth)@[k] <= b,
        forall|v: int|
            0 <= v < at@.len() ==> (#[trigger] preds@[v])@ == preds_of(edges, v, at@.len()),
    ensures
        final(depth)@ == swept(edges, at@, old(depth)@, at@.len()),
        !changed ==> final(depth)@ == old(depth)@,
{
    let ghost before = depth@;
    let mut changed = false;
    for i in 0..at.len()
        invariant
            at@.len() == before.len(),
            depth@.len() == before.len(),
            preds@.len() == before.len(),
            0 <= b,
            b + at@.len() <= usize::MAX,
            forall|k: int| 0 <= k < at@.len() ==> #[trigger] at@[k] < at@.len(),
            forall|k: int| 0 <= k < at@.len() ==> #[trigger] before[k] <= b,
            forall|v: int|
                0 <= v < at@.len() ==> (#[trigger] preds@[v])@ == preds_of(edges, v, at@.len()),
            depth@ == swept(edges, at@, before, i as nat),
            !changed ==> depth@ == before,
    {
        proof {
            lemma_swept_bound(edges, at@, before, i as nat, b);
            lemma_preds(edges, at@[i as int] as int, at@.len());
        }
        let v: usize = at[i];
        let want: usize = past(&preds[v], depth);
        if want > depth[v] {
            depth.set(v, want);
            changed = true;
        }
    }
    changed
}

/// The columns of nodes, by longest path: swept in the order `at` until nothing moves, at most
/// once per node.
pub fn layer(edges: &Vec<(usize, usize)>, at: &Vec<usize>) -> (r: Vec<usize>)
    requires
        at@.len() * at@.len() <= usize::MAX,
        forall|k: int| 0 <= k < at@.len() ==> #[trigger] at@[k] < at@.len(),
    ensures
        r@ == columns_after(edges@, at@, at@.len()),
{
    let n: usize = at.len();
    let preds = list_preds(edges, n);
    let mut depth: Vec<usize> = Vec::new();
    for v in 0..n
        invariant
            depth@ == Seq::new(v as nat, |i: int| 0usize),
    {
        depth.push(0);
        assert(depth@ =~= Seq::new((v + 1) as nat, |i: int| 0usize));
    }
    let mut k: usize = 0;
    let mut more = true;
    while more && k < n
        invariant
            n == at@.len(),
            k <= n,
            n * n <= usize::MAX,
            preds@.len() == n,
            forall|k: int| 0 <= k < at@.len() ==> #[trigger] at@[k] < at@.len(),
            forall|v: int|
                0 <= v < n ==> (#[trigger] preds@[v])@ == preds_of(edges@, v, n as nat),
            more ==> depth@ == columns_after(edges@, at@, k as nat),
            !more ==> depth@ == columns_after(edges@, at@, n as nat),
        decreases n - k,
    {
        proof {
            lemma_columns_bound(edges@, at@, k as nat);
            assert(k * n + n <= n * n) by (nonlinear_arith)
                requires
                    k < n,
            ;
            assert(0 <= k * n) by (nonlinear_arith);
        }
        let changed = sweep(&preds, at, &mut depth, Ghost(edges@), Ghost(k * n));
        if !changed {
            proof {
                lemma_settled(edges@, at@, k as nat, n as nat);
            }
            more = false;
        }
        k = k + 1;
    }
    depth
}

/// Whether `rank` counts up along every edge among `n` nodes: a proof that the graph has no
/// cycle.
pub open spec fn counts_up(edges: Seq<(usize, usize)>, n: nat, rank: Seq<nat>) -> bool {
    &&& rank.len() == n
    &&& forall|v: int| 0 <= v < n ==> #[trigger] rank[v] < n
    &&& forall|e: int|
        #![trigger edges[e]]
        0 <= e < edges.len() && edges[e].0 < n && edges[e].1 < n ==> rank[edges[e].0 as int]
            < rank[edges[e].1 as int]
}

/// Whether `at` lists node `v`.
pub open spec fn lists(at: Seq<usize>, v: int) -> bool {
    exists|p: int| 0 <= p < at.len() && at[p] == v
}

/// Whether `at` lists as many nodes as it is long, all of them.
pub open spec fn lists_all(at: Seq<usize>) -> bool {
    &&& forall|i: int| 0 <= i < at.len() ==> #[trigger] at[i] < at.len()
    &&& forall|v: int| 0 <= v < at.len() ==> #[trigger] lists(at, v)
}

/// Whether no node is further right than it wants to be.
spec fn within_wants(edges: Seq<(usize, usize)>, d: Seq<usize>) -> bool {
    forall|v: int| 0 <= v < d.len() ==> #[trigger] d[v] <= wants(edges, d, v)
}

/// Whether columns only grew.
spec fn no_less(a: Seq<usize>, b: Seq<usize>) -> bool {
    a.len() == b.len() && forall|v: int| 0 <= v < a.len() ==> #[trigger] a[v] <= #[trigger] b[v]
}

proof fn lemma_mono(preds: Seq<usize>, a: Seq<usize>, b: Seq<usize>)
    requires
        no_less(a, b),
        forall|k: int| 0 <= k < preds.len() ==> #[trigger] preds[k] < a.len(),
    ensures
        past_deepest(preds, a) <= past_deepest(preds, b),
    decreases preds.len(),
{
    if preds.len() > 0 {
        lemma_mono(preds.drop_last(), a, b);
        assert(preds[preds.len() - 1] == preds.last());
        assert(a[preds.last() as int] <= b[preds.last() as int]);
    }
}

proof fn lemma_same(preds: Seq<usize>, a: Seq<usize>, b: Seq<usize>)
    requires
        forall|k: int| 0 <= k < preds.len() ==> a[#[trigger] preds[k] as int] == b[preds[k] as int],
    ensures
        past_deepest(preds, a) == past_deepest(preds, b),
    decreases preds.len(),
{
    if preds.len() > 0 {
        lemma_same(preds.drop_last(), a, b);
        assert(preds[preds.len() - 1] == preds.last());
    }
}

proof fn lemma_step_kept(edges: Seq<(usize, usize)>, d: Seq<usize>, v: int, e: Seq<usize>)
    requires
        within_wants(edges, d),
        0 <= v < d.len(),
        wants(edges, d, v) <= usize::MAX,
        e == (if wants(edges, d, v) > d[v] {
            d.update(v, wants(edges, d, v) as usize)
        } else {
            d
        }),
    ensures
        within_wants(edges, e),
        no_less(d, e),
        e[v] == wants(edges, d, v),
{
    assert(no_less(d, e));
    assert forall|u: int| 0 <= u < e.len() implies #[trigger] e[u] <= wants(edges, e, u) by {
        lemma_preds(edges, u, d.len());
        lemma_mono(preds_of(edges, u, d.len()), d, e);
        assert(d[u] <= wants(edges, d, u));
    }
}

proof fn lemma_sweep_kept(
    edges: Seq<(usize, usize)>,
    at: Seq<usize>,
    depth: Seq<usize>,
    upto: nat,
    b: int,
)
    requires
        0 <= b,
        upto <= at.len(),
        at.len() == depth.len(),
        b + at.len() <= usize::MAX,
        forall|k: int| 0 <= k < at.len() ==> #[trigger] at[k] < depth.len(),
        forall|k: int| 0 <= k < depth.len() ==> #[trigger] depth[k] <= b,
        within_wants(edges, depth),
    ensures
        within_wants(edges, swept(edges, at, depth, upto)),
        swept(edges, at, depth, upto).len() == depth.len(),
    decreases upto,
{
    if upto > 0 {
        lemma_sweep_kept(edges, at, depth, (upto - 1) as nat, b);
        lemma_swept_bound(edges, at, depth, (upto - 1) as nat, b);
        let d = swept(edges, at, depth, (upto - 1) as nat);
        let v = at[upto - 1] as int;
        lemma_preds(edges, v, d.len());
        lemma_bound(preds_of(edges, v, d.len()), d, b + upto - 1);
        lemma_step_kept(edges, d, v, swept(edges, at, depth, upto));
    }
}

/// Whether every node of a rank below `k` stands where it wants to.
spec fn settled_below(edges: Seq<(usize, usize)>, d: Seq<usize>, rank: Seq<nat>, k: nat) -> bool {
    forall|v: int|
        0 <= v < d.len() && rank[v] < k ==> #[trigger] d[v] == wants(edges, d, v)
}

/// The predecessors of a node have a lower rank.
proof fn lemma_pred_ranks(edges: Seq<(usize, usize)>, n: nat, rank: Seq<nat>, v: int)
    requires
        counts_up(edges, n, rank),
        0 <= v < n,
    ensures
        forall|k: int|
            0 <= k < preds_of(edges, v, n).len() ==> rank[#[trigger] preds_of(
                edges,
                v,
                n,
            )[k] as int] < rank[v] && preds_of(edges, v, n)[k] < n,
{
    lemma_preds(edges, v, n);
    assert forall|k: int| 0 <= k < preds_of(edges, v, n).len() implies rank[#[trigger] preds_of(
        edges,
        v,
        n,
    )[k] as int] < rank[v] by {
        lemma_pred_edge(edges, v, n, k);
        let e = choose|e: int|
            0 <= e < edges.len() && (#[trigger] edges[e]).0 == preds_of(edges, v, n)[k]
                && edges[e].1 == v;
        assert(edges[e].0 < n);
    }
}

/// Nodes that stand where they want, with all before them, stay in a sweep.
proof fn lemma_settled_stay(
    edges: Seq<(usize, usize)>,
    at: Seq<usize>,
    depth: Seq<usize>,
    upto: nat,
    rank: Seq<nat>,
    k: nat,
)
    requires
        upto <= at.len(),
        at.len() == depth.len(),
        counts_up(edges, depth.len(), rank),
        forall|k: int| 0 <= k < at.len() ==> #[trigger] at[k] < depth.len(),
        settled_below(edges, depth, rank, k),
    ensures
        swept(edges, at, depth, upto).len() == depth.len(),
        forall|v: int|
            0 <= v < depth.len() && rank[v] < k ==> #[trigger] swept(edges, at, depth, upto)[v]
                == depth[v],
    decreases upto,
{
    if upto > 0 {
        lemma_settled_stay(edges, at, depth, (upto - 1) as nat, rank, k);
        let d = swept(edges, at, depth, (upto - 1) as nat);
        let v = at[upto - 1] as int;
        if rank[v] < k {
            lemma_pred_ranks(edges, depth.len(), rank, v);
            lemma_same(preds_of(edges, v, d.len()), d, depth);
            assert(depth[v] == wants(edges, depth, v));
        }
    }
}

/// A sweep settles the nodes of the next rank, each from its place in the order on.
proof fn lemma_next_rank(
    edges: Seq<(usize, usize)>,
    at: Seq<usize>,
    depth: Seq<usize>,
    upto: nat,
    rank: Seq<nat>,
    k: nat,
    v: int,
    p: int,
    b: int,
)
    requires
        0 <= b,
        0 <= p < upto <= at.len(),
        at.len() == depth.len(),
        b + at.len() <= usize::MAX,
        forall|k: int| 0 <= k < depth.len() ==> #[trigger] depth[k] <= b,
        counts_up(edges, depth.len(), rank),
        forall|k: int| 0 <= k < at.len() ==> #[trigger] at[k] < depth.len(),
        settled_below(edges, depth, rank, k),
        within_wants(edges, depth),
        0 <= v < depth.len(),
        rank[v] == k,
        at[p] == v,
    ensures
        swept(edges, at, depth, upto)[v] == wants(edges, depth, v),
    decreases upto,
{
    let d = swept(edges, at, depth, (upto - 1) as nat);
    lemma_settled_stay(edges, at, depth, (upto - 1) as nat, rank, k);
    lemma_pred_ranks(edges, depth.len(), rank, v);
    lemma_same(preds_of(edges, v, d.len()), d, depth);
    if p == upto - 1 {
        lemma_sweep_kept(edges, at, depth, (upto - 1) as nat, b);
        lemma_swept_bound(edges, at, depth, (upto - 1) as nat, b);
        lemma_preds(edges, v, d.len());
        lemma_bound(preds_of(edges, v, d.len()), d, b + upto - 1);
        lemma_step_kept(edges, d, v, swept(edges, at, depth, upto));
    } else {
        lemma_next_rank(edges, at, depth, (upto - 1) as nat, rank, k, v, p, b);
    }
}

proof fn lemma_ranks_settle(edges: Seq<(usize, usize)>, at: Seq<usize>, rank: Seq<nat>, k: nat)
    requires
        k <= at.len(),
        at.len() * at.len() <= usize::MAX,
        lists_all(at),
        counts_up(edges, at.len(), rank),
    ensures
        columns_after(edges, at, k).len() == at.len(),
        within_wants(edges, columns_after(edges, at, k)),
        settled_below(edges, columns_after(edges, at, k), rank, k),
    decreases k,
{
    let n = at.len();
    if k == 0 {
        let zero = columns_after(edges, at, 0);
        assert forall|v: int| 0 <= v < zero.len() implies #[trigger] zero[v] <= wants(
            edges,
            zero,
            v,
        ) by {
            lemma_preds(edges, v, n);
            lemma_bound(preds_of(edges, v, n), zero, 0);
        }
    } else {
        let before = columns_after(edges, at, (k - 1) as nat);
        let after = columns_after(edges, at, k);
        let b = (k - 1) * n;
        lemma_ranks_settle(edges, at, rank, (k - 1) as nat);
        lemma_columns_bound(edges, at, (k - 1) as nat);
        assert(b + n <= n * n && 0 <= b) by (nonlinear_arith)
            requires
                0 < k <= n,
                b == (k - 1) * n,
        ;
        lemma_sweep_kept(edges, at, before, n, b);
        lemma_settled_stay(edges, at, before, n, rank, (k - 1) as nat);
        assert forall|v: int| 0 <= v < after.len() && rank[v] < k implies #[trigger] after[v]
            == wants(edges, after, v) by {
            lemma_pred_ranks(edges, n, rank, v);
            lemma_same(preds_of(edges, v, n), before, after);
            if rank[v] < k - 1 {
                assert(before[v] == wants(edges, before, v));
            } else {
                assert(lists(at, v));
                let p = choose|p: int| 0 <= p < at.len() && at[p] == v;
                lemma_next_rank(edges, at, before, n, rank, (k - 1) as nat, v, p, b);
            }
        }
    }
}

/// In a graph without cycles every node's column is one past its deepest predecessor, or zero.
pub proof fn columns_are_layers(edges: Seq<(usize, usize)>, at: Seq<usize>, rank: Seq<nat>, v: int)
    requires
        at.len() * at.len() <= usize::MAX,
        lists_all(at),
        counts_up(edges, at.len(), rank),
        0 <= v < at.len(),
    ensures
        columns_after(edges, at, at.len())[v] == wants(
            edges,
            columns_after(edges, at, at.len()),
            v,
        ),
{
    lemma_ranks_settle(edges, at, rank, at.len());
}

/// An edge of a graph without cycles goes to the right.
pub proof fn edges_go_right(edges: Seq<(usize, usize)>, at: Seq<usize>, rank: Seq<nat>, e: int)
    requires
        at.len() * at.len() <= usize::MAX,
        lists_all(at),
        counts_up(edges, at.len(), rank),
        0 <= e < edges.len(),
        edges[e].0 < at.len(),
        edges[e].1 < at.len(),
    ensures
        ({
            let columns = columns_after(edges, at, at.len());
            columns[edges[e].0 as int] < columns[edges[e].1 as int]
        }),
{
    let columns = columns_after(edges, at, at.len());
    let v = edges[e].1 as int;
    lemma_ranks_settle(edges, at, rank, at.len());
    columns_are_layers(edges, at, rank, v);
    lemma_is_pred(edges, at.len(), e);
    let preds = preds_of(edges, v, at.len());
    let k = choose|k: int| 0 <= k < preds.len() && preds[k] == edges[e].0;
    lemma_past_each(preds, columns, k);
}

proof fn lemma_is_pred(edges: Seq<(usize, usize)>, n: nat, e: int)
    requires
        0 <= e < edges.len(),
        edges[e].0 < n,
    ensures
        exists|k: int|
            0 <= k < preds_of(edges, edges[e].1 as int, n).len() && preds_of(
                edges,
                edges[e].1 as int,
                n,
            )[k] == edges[e].0,
    decreases edges.len(),
{
    let v = edges[e].1 as int;
    let most = preds_of(edges.drop_last(), v, n);
    if e < edges.len() - 1 {
        assert(edges.drop_last()[e] == edges[e]);
        lemma_is_pred(edges.drop_last(), n, e);
        let k = choose|k: int| 0 <= k < most.len() && most[k] == edges[e].0;
        assert(preds_of(edges, v, n)[k] == edges[e].0);
    } else {
        assert(preds_of(edges, v, n)[most.len() as int] == edges[e].0);
    }
}

proof fn lemma_past_each(preds: Seq<usize>, d: Seq<usize>, k: int)
    requires
        0 <= k < preds.len(),
    ensures
        past_deepest(preds, d) > d[preds[k] as int],
    decreases preds.len(),
{
    if k < preds.len() - 1 {
        lemma_past_each(preds.drop_last(), d, k);
    }
}

/// The predecessors of a node are the nodes that an edge leads from, of as many edges as lead to it.
pub proof fn predecessors_have_edges(edges: Seq<(usize, usize)>, e: (usize, usize), v: int, n: nat)
    ensures
        e.1 == v && e.0 < n ==> preds_of(edges.push(e), v, n) == preds_of(edges, v, n).push(e.0),
        e.1 != v || e.0 >= n ==> preds_of(edges.push(e), v, n) == preds_of(edges, v, n),
        preds_of(Seq::<(usize, usize)>::empty(), v, n).len() == 0,
{
    assert(edges.push(e).drop_last() =~= edges);
}

/// In a graph without cycles a node that no edge leads to stands in the first column, and any other
/// right beside one that leads to it.
pub proof fn columns_follow_an_edge(edges: Seq<(usize, usize)>, at: Seq<usize>, rank: Seq<nat>, v: int)
    requires
        at.len() * at.len() <= usize::MAX,
        lists_all(at),
        counts_up(edges, at.len(), rank),
        0 <= v < at.len(),
    ensures
        ({
            let columns = columns_after(edges, at, at.len());
            columns[v] == 0 || exists|e: int|
                #![trigger edges[e]]
                0 <= e < edges.len() && edges[e].1 == v && edges[e].0 < at.len() && columns[v]
                    == columns[edges[e].0 as int] + 1
        }),
        (forall|e: int|
            #![trigger edges[e]]
            0 <= e < edges.len() ==> edges[e].1 != v || edges[e].0 >= at.len()) ==> columns_after(
            edges,
            at,
            at.len(),
        )[v] == 0,
{
    let columns = columns_after(edges, at, at.len());
    columns_are_layers(edges, at, rank, v);
    columns_are_bounded(edges, at);
    let preds = preds_of(edges, v, at.len());
    lemma_deepest_reached(preds, columns);
    if columns[v] != 0 {
        let k = choose|k: int|
            #![trigger preds[k]]
            0 <= k < preds.len() && past_deepest(preds, columns) == columns[preds[k] as int] + 1;
        lemma_pred_leads(edges, v, at.len(), k);
        let e = choose|e: int|
            #![trigger edges[e]]
            0 <= e < edges.len() && edges[e].1 == v && edges[e].0 < at.len() && edges[e].0 == preds[k];
        assert(columns[v] == columns[edges[e].0 as int] + 1);
    }
}

proof fn lemma_deepest_reached(preds: Seq<usize>, depth: Seq<usize>)
    ensures
        past_deepest(preds, depth) == 0 || exists|k: int|
            #![trigger preds[k]]
            0 <= k < preds.len() && past_deepest(preds, depth) == depth[preds[k] as int] + 1,
    decreases preds.len(),
{
    if preds.len() > 0 {
        let less = preds.drop_last();
        lemma_deepest_reached(less, depth);
        if depth[preds.last() as int] + 1 > past_deepest(less, depth) {
            assert(preds[preds.len() - 1] == preds.last());
        } else if past_deepest(less, depth) != 0 {
            let k = choose|k: int|
                #![trigger less[k]]
                0 <= k < less.len() && past_deepest(less, depth) == depth[less[k] as int] + 1;
            assert(preds[k] == less[k]);
        }
    }
}

proof fn lemma_pred_leads(edges: Seq<(usize, usize)>, v: int, n: nat, k: int)
    requires
        0 <= k < preds_of(edges, v, n).len(),
    ensures
        exists|e: int|
            #![trigger edges[e]]
            0 <= e < edges.len() && edges[e].1 == v && edges[e].0 < n && edges[e].0 == preds_of(
                edges,
                v,
                n,
            )[k],
    decreases edges.len(),
{
    let less = edges.drop_last();
    let most = preds_of(less, v, n);
    if k < most.len() {
        lemma_pred_leads(less, v, n, k);
        let e = choose|e: int|
            #![trigger less[e]]
            0 <= e < less.len() && less[e].1 == v && less[e].0 < n && less[e].0 == most[k];
        assert(edges[e] == less[e]);
    } else {
        assert(edges[edges.len() - 1] == edges.last());
    }
}

} // verus!
