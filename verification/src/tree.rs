//! Node trees of a document, and the choice of the nodes that become props of their own.

use vstd::prelude::*;
use crate::document::NodeRecord;

verus! {

/// A node and the nodes below it.
pub struct SceneNode {
    pub index: usize,
    pub children: Vec<SceneNode>,
}

/// Whether a tree is that of node `i`: its children are those that the nodes list, in order.
pub open spec fn is_tree_of(t: SceneNode, nodes: Seq<NodeRecord>, i: int) -> bool
    decreases t,
{
    &&& t.index == i
    &&& 0 <= i < nodes.len()
    &&& t.children@.len() == nodes[i].children@.len()
    &&& forall|k: int|
        #![trigger t.children@[k]]
        0 <= k < t.children@.len() ==> is_tree_of(
            t.children@[k],
            nodes,
            nodes[i].children@[k] as int,
        )
}

/// Whether the nodes below `i` go down fewer than `depth` levels, without a missing node.
pub open spec fn within(nodes: Seq<NodeRecord>, i: int, depth: nat) -> bool
    decreases depth,
{
    &&& depth > 0
    &&& 0 <= i < nodes.len()
    &&& forall|k: int|
        #![trigger nodes[i].children@[k]]
        0 <= k < nodes[i].children@.len() ==> within(
            nodes,
            nodes[i].children@[k] as int,
            (depth - 1) as nat,
        )
}

/// The tree of node `i`, where it goes down fewer than `depth` levels.
pub fn grow(nodes: &Vec<NodeRecord>, i: usize, depth: usize) -> (r: Option<SceneNode>)
    ensures
        match r {
            Some(t) => is_tree_of(t, nodes@, i as int) && within(nodes@, i as int, depth as nat),
            None => !within(nodes@, i as int, depth as nat),
        },
    decreases depth,
{
    if depth == 0 || i >= nodes.len() {
        return None;
    }
    let mut children: Vec<SceneNode> = Vec::new();
    let count: usize = nodes[i].children.len();
    for k in 0..count
        invariant
            depth > 0,
            i < nodes@.len(),
            count == nodes@[i as int].children@.len(),
            children@.len() == k,
            forall|j: int|
                #![trigger children@[j]]
                0 <= j < k ==> is_tree_of(
                    children@[j],
                    nodes@,
                    nodes@[i as int].children@[j] as int,
                ),
            forall|j: int|
                #![trigger nodes@[i as int].children@[j]]
                0 <= j < k ==> within(
                    nodes@,
                    nodes@[i as int].children@[j] as int,
                    (depth - 1) as nat,
                ),
    {
        match grow(nodes, nodes[i].children[k], depth - 1) {
            Some(t) => children.push(t),
            None => {
                assert(!within(
                    nodes@,
                    nodes@[i as int].children@[k as int] as int,
                    (depth - 1) as nat,
                ));
                return None;
            },
        }
    }
    Some(SceneNode { index: i, children })
}

/// Whether `rank` counts down along every edge: a proof that no node is its own descendant.
pub open spec fn ranks(nodes: Seq<NodeRecord>, rank: Seq<nat>) -> bool {
    &&& rank.len() == nodes.len()
    &&& forall|i: int| 0 <= i < nodes.len() ==> #[trigger] rank[i] < nodes.len()
    &&& forall|i: int, k: int|
        #![trigger nodes[i].children@[k]]
        0 <= i < nodes.len() && 0 <= k < nodes[i].children@.len() ==> nodes[i].children@[k]
            < nodes.len() && rank[nodes[i].children@[k] as int] < rank[i]
}

/// Where no node is its own descendant and every child exists, each node has its tree.
pub proof fn acyclic_nodes_have_trees(nodes: Seq<NodeRecord>, rank: Seq<nat>, i: int, depth: nat)
    requires
        ranks(nodes, rank),
        0 <= i < nodes.len(),
        depth > rank[i],
    ensures
        within(nodes, i, depth),
    decreases depth,
{
    assert forall|k: int|
        #![trigger nodes[i].children@[k]]
        0 <= k < nodes[i].children@.len() implies within(
        nodes,
        nodes[i].children@[k] as int,
        (depth - 1) as nat,
    ) by {
        acyclic_nodes_have_trees(nodes, rank, nodes[i].children@[k] as int, (depth - 1) as nat);
    }
}

/// The trees of a list of nodes; nothing where the nodes below any of them do not end.
pub fn grow_all(nodes: &Vec<NodeRecord>, roots: &Vec<usize>) -> (r: Option<Vec<SceneNode>>)
    ensures
        match r {
            Some(v) => {
                &&& v@.len() == roots@.len()
                &&& forall|k: int|
                    0 <= k < v@.len() ==> #[trigger] is_tree_of(v@[k], nodes@, roots@[k] as int)
                &&& forall|k: int|
                    0 <= k < roots@.len() ==> #[trigger] within(
                        nodes@,
                        roots@[k] as int,
                        nodes@.len(),
                    )
            },
            None => exists|k: int|
                0 <= k < roots@.len() && !#[trigger] within(
                    nodes@,
                    roots@[k] as int,
                    nodes@.len(),
                ),
        },
{
    let mut out: Vec<SceneNode> = Vec::new();
    for i in 0..roots.len()
        invariant
            out@.len() == i,
            forall|k: int|
                0 <= k < i ==> #[trigger] is_tree_of(out@[k], nodes@, roots@[k] as int),
            forall|k: int|
                0 <= k < i ==> #[trigger] within(nodes@, roots@[k] as int, nodes@.len()),
    {
        match grow(nodes, roots[i], nodes.len()) {
            Some(t) => out.push(t),
            None => {
                assert(!within(nodes@, roots@[i as int] as int, nodes@.len()));
                return None;
            },
        }
    }
    Some(out)
}

/// What stands for a node one level down: its children, or itself where it has none.
pub open spec fn opened(nodes: Seq<NodeRecord>, i: usize) -> Seq<usize> {
    if i < nodes.len() && nodes[i as int].children@.len() > 0 {
        nodes[i as int].children@
    } else {
        seq![i]
    }
}

/// A list of nodes one level down.
pub open spec fn opened_all(nodes: Seq<NodeRecord>, list: Seq<usize>) -> Seq<usize>
    decreases list.len(),
{
    if list.len() == 0 {
        seq![]
    } else {
        opened_all(nodes, list.drop_last()) + opened(nodes, list.last())
    }
}

/// A list of nodes `levels` down.
pub open spec fn descended(nodes: Seq<NodeRecord>, list: Seq<usize>, levels: nat) -> Seq<usize>
    decreases levels,
{
    if levels == 0 {
        list
    } else {
        opened_all(nodes, descended(nodes, list, (levels - 1) as nat))
    }
}

fn open_all(nodes: &Vec<NodeRecord>, list: &Vec<usize>) -> (r: Vec<usize>)
    ensures
        r@ == opened_all(nodes@, list@),
{
    let mut out: Vec<usize> = Vec::new();
    for i in 0..list.len()
        invariant
            out@ == opened_all(nodes@, list@.take(i as int)),
    {
        let n: usize = list[i];
        let ghost before = out@;
        assert(list@.take(i + 1).drop_last() =~= list@.take(i as int));
        if n < nodes.len() && nodes[n].children.len() > 0 {
            let kids = &nodes[n].children;
            for k in 0..kids.len()
                invariant
                    out@ == before + kids@.take(k as int),
            {
                out.push(kids[k]);
                assert(out@ =~= before + kids@.take(k + 1));
            }
            assert(kids@.take(kids@.len() as int) =~= kids@);
        } else {
            out.push(n);
            assert(out@ =~= before + seq![n]);
        }
    }
    assert(list@.take(list@.len() as int) =~= list@);
    out
}

/// The nodes that become props of their own: the scene's roots for depth one, and one level down
/// for each depth more. A node without children is kept rather than dropped, so that uneven
/// nesting does not lose its shallow props.
pub fn group_nodes(nodes: &Vec<NodeRecord>, roots: &Vec<usize>, group_depth: usize) -> (r: Vec<
    usize,
>)
    ensures
        r@ == descended(
            nodes@,
            roots@,
            if group_depth > 1 {
                (group_depth - 1) as nat
            } else {
                0
            },
        ),
        r@ == grouped(nodes@, roots@, group_depth as nat),
{
    let mut now: Vec<usize> = roots.clone();
    assert(now@ =~= roots@);
    let levels: usize = if group_depth > 1 {
        group_depth - 1
    } else {
        0
    };
    for i in 0..levels
        invariant
            now@ == descended(nodes@, roots@, i as nat),
    {
        now = open_all(nodes, &now);
    }
    now
}

/// Descending drops no node without children: it stays, however deep the descent.
pub proof fn leaves_are_kept(nodes: Seq<NodeRecord>, list: Seq<usize>, levels: nat, leaf: usize)
    requires
        list.contains(leaf),
        leaf >= nodes.len() || nodes[leaf as int].children@.len() == 0,
    ensures
        descended(nodes, list, levels).contains(leaf),
    decreases levels,
{
    if levels > 0 {
        leaves_are_kept(nodes, list, (levels - 1) as nat, leaf);
        lemma_leaf_stays(nodes, descended(nodes, list, (levels - 1) as nat), leaf);
    }
}

proof fn lemma_leaf_stays(nodes: Seq<NodeRecord>, list: Seq<usize>, leaf: usize)
    requires
        list.contains(leaf),
        leaf >= nodes.len() || nodes[leaf as int].children@.len() == 0,
    ensures
        opened_all(nodes, list).contains(leaf),
    decreases list.len(),
{
    let rest = opened_all(nodes, list.drop_last());
    let last = opened(nodes, list.last());
    if list.last() == leaf {
        assert((rest + last)[rest.len() as int] == leaf);
    } else {
        let k = choose|k: int| 0 <= k < list.len() && list[k] == leaf;
        assert(list.drop_last()[k] == leaf);
        lemma_leaf_stays(nodes, list.drop_last(), leaf);
        let j = choose|j: int| 0 <= j < rest.len() && rest[j] == leaf;
        assert((rest + last)[j] == leaf);
    }
}

/// One level down, a node with children is replaced by them, in order, and a node without stays;
/// the nodes around it are opened as they would be without it.
pub proof fn nodes_open_in_place(nodes: Seq<NodeRecord>, a: Seq<usize>, i: usize, b: Seq<usize>)
    requires
        i < nodes.len(),
    ensures
        nodes[i as int].children@.len() > 0 ==> opened_all(nodes, a + seq![i] + b) == opened_all(nodes, a)
            + nodes[i as int].children@ + opened_all(nodes, b),
        nodes[i as int].children@.len() == 0 ==> opened_all(nodes, a + seq![i] + b) == opened_all(nodes, a)
            + seq![i] + opened_all(nodes, b),
        descended(nodes, a, 0) == a,
        descended(nodes, a, 1) == opened_all(nodes, a),
    decreases b.len(),
{
    reveal_with_fuel(descended, 2);
    let all = a + seq![i] + b;
    if b.len() == 0 {
        assert(all.drop_last() =~= a);
        assert(all.last() == i);
        assert(opened_all(nodes, b) =~= Seq::<usize>::empty());
        assert(opened_all(nodes, all) =~= opened_all(nodes, a) + opened(nodes, i) + opened_all(nodes, b));
    } else {
        let less = b.drop_last();
        nodes_open_in_place(nodes, a, i, less);
        assert(all.drop_last() =~= a + seq![i] + less);
        assert(all.last() == b.last());
        assert(opened_all(nodes, all) =~= opened_all(nodes, a) + opened(nodes, i) + opened_all(nodes, b));
    }
}

/// The nodes that become props of their own at a depth.
pub open spec fn grouped(nodes: Seq<NodeRecord>, roots: Seq<usize>, depth: nat) -> Seq<usize> {
    descended(
        nodes,
        roots,
        if depth > 1 {
            (depth - 1) as nat
        } else {
            0
        },
    )
}

/// At depth one the roots are props, and each depth more is one level down.
pub proof fn depths_go_down_by_levels(nodes: Seq<NodeRecord>, roots: Seq<usize>, depth: nat)
    requires
        depth >= 1,
    ensures
        grouped(nodes, roots, 0) == roots,
        grouped(nodes, roots, 1) == roots,
        grouped(nodes, roots, depth + 1) == opened_all(nodes, grouped(nodes, roots, depth)),
{
    assert(descended(nodes, roots, depth) == opened_all(nodes, descended(nodes, roots, (depth - 1) as nat)));
}

/// A tree has its node's children below it, each in its place.
pub proof fn trees_keep_their_order(t: SceneNode, nodes: Seq<NodeRecord>, i: int, k: int)
    requires
        is_tree_of(t, nodes, i),
        0 <= k < nodes[i].children@.len(),
    ensures
        t.index == i,
        t.children@.len() == nodes[i].children@.len(),
        t.children@[k].index == nodes[i].children@[k],
        is_tree_of(t.children@[k], nodes, nodes[i].children@[k] as int),
{
    assert(is_tree_of(t.children@[k], nodes, nodes[i].children@[k] as int));
}

} // verus!
