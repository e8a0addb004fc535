//! The node canvas: pins, where a fresh graph's boxes stand, what each box shows, and the links
//! between their pins.

use vstd::prelude::*;
use crate::layers;
use crate::order;
use crate::text;

verus! {

/// Where an edge begins: an output of a node, or an input of the graph, by its notation.
pub enum SourcePin {
    NodeData(usize, String),
    NodeTime(usize),
    InputData(String),
    InputTime(String),
}

/// Where an edge ends: an input of a node, or an output of the graph.
pub enum TargetPin {
    NodeData(usize, String),
    NodeTime(usize, String),
    OutputData(String),
    OutputTime,
}

/// A source pin, by its contents.
pub ghost enum SourceView {
    NodeData(int, Seq<char>),
    NodeTime(int),
    InputData(Seq<char>),
    InputTime(Seq<char>),
}

/// A target pin, by its contents.
pub ghost enum TargetView {
    NodeData(int, Seq<char>),
    NodeTime(int, Seq<char>),
    OutputData(Seq<char>),
    OutputTime,
}

impl View for SourcePin {
    type V = SourceView;

    open spec fn view(&self) -> SourceView {
        match self {
            SourcePin::NodeData(n, p) => SourceView::NodeData(*n as int, p@),
            SourcePin::NodeTime(n) => SourceView::NodeTime(*n as int),
            SourcePin::InputData(p) => SourceView::InputData(p@),
            SourcePin::InputTime(p) => SourceView::InputTime(p@),
        }
    }
}

impl View for TargetPin {
    type V = TargetView;

    open spec fn view(&self) -> TargetView {
        match self {
            TargetPin::NodeData(n, p) => TargetView::NodeData(*n as int, p@),
            TargetPin::NodeTime(n, p) => TargetView::NodeTime(*n as int, p@),
            TargetPin::OutputData(p) => TargetView::OutputData(p@),
            TargetPin::OutputTime => TargetView::OutputTime,
        }
    }
}

pub(crate) fn same_source(a: &SourcePin, b: &SourcePin) -> (r: bool)
    ensures
        r == (a@ == b@),
{
    match (a, b) {
        (SourcePin::NodeData(m, p), SourcePin::NodeData(n, q)) => *m == *n && text::same_text(
            p.as_str(),
            q.as_str(),
        ),
        (SourcePin::NodeTime(m), SourcePin::NodeTime(n)) => *m == *n,
        (SourcePin::InputData(p), SourcePin::InputData(q)) => text::same_text(
            p.as_str(),
            q.as_str(),
        ),
        (SourcePin::InputTime(p), SourcePin::InputTime(q)) => text::same_text(
            p.as_str(),
            q.as_str(),
        ),
        _ => false,
    }
}

pub(crate) fn same_target(a: &TargetPin, b: &TargetPin) -> (r: bool)
    ensures
        r == (a@ == b@),
{
    match (a, b) {
        (TargetPin::NodeData(m, p), TargetPin::NodeData(n, q)) => *m == *n && text::same_text(
            p.as_str(),
            q.as_str(),
        ),
        (TargetPin::NodeTime(m, p), TargetPin::NodeTime(n, q)) => *m == *n && text::same_text(
            p.as_str(),
            q.as_str(),
        ),
        (TargetPin::OutputData(p), TargetPin::OutputData(q)) => text::same_text(
            p.as_str(),
            q.as_str(),
        ),
        (TargetPin::OutputTime, TargetPin::OutputTime) => true,
        _ => false,
    }
}

/// The node a source pin belongs to.
pub open spec fn source_owner(s: SourceView) -> Option<int> {
    match s {
        SourceView::NodeData(n, _) => Some(n),
        SourceView::NodeTime(n) => Some(n),
        _ => None,
    }
}

/// The node a target pin belongs to.
pub open spec fn target_owner(t: TargetView) -> Option<int> {
    match t {
        TargetView::NodeData(n, _) => Some(n),
        TargetView::NodeTime(n, _) => Some(n),
        _ => None,
    }
}

/// The node a target pin belongs to, or `None` for a graph-level output.
pub fn target_node(target: &TargetPin) -> (r: Option<usize>)
    ensures
        match r {
            Some(n) => target_owner(target@) == Some(n as int),
            None => target_owner(target@) is None,
        },
{
    match target {
        TargetPin::NodeData(n, _) => Some(*n),
        TargetPin::NodeTime(n, _) => Some(*n),
        _ => None,
    }
}

/// The node a source pin belongs to, or `None` for a graph-level input.
pub fn source_node(source: &SourcePin) -> (r: Option<usize>)
    ensures
        match r {
            Some(n) => source_owner(source@) == Some(n as int),
            None => source_owner(source@) is None,
        },
{
    match source {
        SourcePin::NodeData(n, _) => Some(*n),
        SourcePin::NodeTime(n) => Some(*n),
        _ => None,
    }
}

/// An edge of a graph.
pub struct Edge {
    pub target: TargetPin,
    pub source: SourcePin,
}

/// The edges that go from a node to a node, as pairs of nodes.
pub open spec fn node_edges(edges: Seq<Edge>) -> Seq<(usize, usize)>
    decreases edges.len(),
{
    if edges.len() == 0 {
        seq![]
    } else {
        let most = node_edges(edges.drop_last());
        match (source_owner(edges.last().source@), target_owner(edges.last().target@)) {
            (Some(from), Some(to)) => most.push((from as usize, to as usize)),
            _ => most,
        }
    }
}

fn list_node_edges(edges: &Vec<Edge>) -> (r: Vec<(usize, usize)>)
    ensures
        r@ == node_edges(edges@),
{
    let mut out: Vec<(usize, usize)> = Vec::new();
    for i in 0..edges.len()
        invariant
            out@ == node_edges(edges@.take(i as int)),
    {
        assert(edges@.take(i + 1).drop_last() =~= edges@.take(i as int));
        if let (Some(from), Some(to)) = (
            source_node(&edges[i].source),
            target_node(&edges[i].target),
        ) {
            out.push((from, to));
        }
    }
    assert(edges@.take(edges@.len() as int) =~= edges@);
    out
}

/// How many nodes before place `p` of an order share its column.
pub open spec fn stacked(at: Seq<usize>, columns: Seq<usize>, p: int, upto: int) -> int
    decreases upto,
{
    if upto <= 0 {
        0
    } else {
        stacked(at, columns, p, upto - 1) + (if columns[at[upto - 1] as int] == columns[at[p] as int] {
            1int
        } else {
            0
        })
    }
}

/// Whether every node stands in its column, below those before it there.
pub open spec fn is_grid(cells: Seq<(usize, usize)>, at: Seq<usize>, columns: Seq<usize>) -> bool {
    &&& cells.len() == at.len()
    &&& forall|p: int|
        0 <= p < at.len() ==> #[trigger] cells[at[p] as int] == (
            columns[at[p] as int],
            stacked(at, columns, p, p) as usize,
        )
}

/// The last column that nodes stand in; zero where there is none.
pub open spec fn last_column(columns: Seq<usize>) -> usize
    decreases columns.len(),
{
    if columns.len() == 0 {
        0
    } else {
        let most = last_column(columns.drop_last());
        if columns.last() > most {
            columns.last()
        } else {
            most
        }
    }
}

/// Where boxes stand, in columns and rows of the canvas. The graph's inputs stand one column left
/// of the first, in the first row.
pub struct Grid {
    /// Each node's column and row.
    pub cells: Vec<(usize, usize)>,
    /// The column of the graph's outputs, in the first row.
    pub outputs: usize,
}

/// The positions that a graph's file carries, as float bits: those of nodes by key, and those of
/// the graph's inputs and outputs.
pub struct Layout {
    pub positions: Vec<(String, (u32, u32))>,
    pub inputs: (u32, u32),
    pub outputs: (u32, u32),
}

/// Where an authored graph's boxes stand, as float bits.
pub struct Authored {
    /// Each node's position.
    pub nodes: Vec<(u32, u32)>,
    pub inputs: (u32, u32),
    pub outputs: (u32, u32),
}

/// The layout that a graph opens with.
pub enum Seeded {
    /// The positions that the file carries.
    Authored(Authored),
    /// A computed one.
    Layered(Grid),
}

/// Whether float bits are those of a zero.
pub open spec fn zero_bits(b: u32) -> bool {
    b == 0 || b == 0x8000_0000
}

/// Whether a position, as float bits, is the origin.
pub open spec fn at_origin(p: (u32, u32)) -> bool {
    zero_bits(p.0) && zero_bits(p.1)
}

/// Whether positions were laid out: some is not at the origin, even that of a node that is gone.
pub open spec fn laid_out(positions: Seq<(String, (u32, u32))>) -> bool {
    exists|i: int| 0 <= i < positions.len() && !at_origin((#[trigger] positions[i]).1)
}

fn is_laid_out(positions: &Vec<(String, (u32, u32))>) -> (r: bool)
    ensures
        r == laid_out(positions@),
{
    for i in 0..positions.len()
        invariant
            forall|k: int| 0 <= k < i ==> at_origin((#[trigger] positions@[k]).1),
    {
        let (x, y) = positions[i].1;
        if !((x == 0 || x == 0x8000_0000) && (y == 0 || y == 0x8000_0000)) {
            assert(!at_origin(positions@[i as int].1));
            return true;
        }
    }
    false
}

/// The position of the node with a key: the last that is given for it, or the origin.
pub open spec fn position_of(positions: Seq<(String, (u32, u32))>, key: Seq<char>) -> (u32, u32)
    decreases positions.len(),
{
    if positions.len() == 0 {
        (0, 0)
    } else if positions.last().0@ == key {
        positions.last().1
    } else {
        position_of(positions.drop_last(), key)
    }
}

fn find_position(positions: &Vec<(String, (u32, u32))>, key: &String) -> (r: (u32, u32))
    ensures
        r == position_of(positions@, key@),
{
    let mut i: usize = positions.len();
    assert(positions@.take(i as int) =~= positions@);
    while i > 0
        invariant
            i <= positions@.len(),
            position_of(positions@, key@) == position_of(positions@.take(i as int), key@),
        decreases i,
    {
        i = i - 1;
        assert(positions@.take(i + 1).drop_last() =~= positions@.take(i as int));
        assert(positions@.take(i + 1).last() == positions@[i as int]);
        if text::same_text(positions[i].0.as_str(), key.as_str()) {
            return positions[i].1;
        }
    }
    (0, 0)
}

/// The authored layout of the nodes with `keys`: each at the position given for it, or at the
/// origin, and the inputs and the outputs where the file has them.
pub open spec fn is_authored(a: Authored, layout: Layout, keys: Seq<Seq<char>>) -> bool {
    &&& a.nodes@ == keys.map_values(|k: Seq<char>| position_of(layout.positions@, k))
    &&& a.inputs == layout.inputs
    &&& a.outputs == layout.outputs
}

/// Takes the positions that the file carries.
pub fn take_authored(keys: &Vec<String>, layout: &Layout) -> (r: Authored)
    ensures
        is_authored(r, *layout, text::texts(keys@)),
{
    let mut nodes: Vec<(u32, u32)> = Vec::new();
    for i in 0..keys.len()
        invariant
            nodes@.len() == i,
            forall|k: int|
                0 <= k < i ==> (#[trigger] nodes@[k]) == position_of(
                    layout.positions@,
                    keys@[k]@,
                ),
    {
        nodes.push(find_position(&layout.positions, &keys[i]));
    }
    assert(nodes@ =~= text::texts(keys@).map_values(
        |k: Seq<char>| position_of(layout.positions@, k),
    ));
    Authored { nodes, inputs: layout.inputs, outputs: layout.outputs }
}

fn stack(at: &Vec<usize>, columns: &Vec<usize>) -> (r: Vec<(usize, usize)>)
    requires
        columns@.len() == at@.len(),
        forall|k: int| 0 <= k < at@.len() ==> #[trigger] at@[k] < at@.len(),
        at@.no_duplicates(),
    ensures
        is_grid(r@, at@, columns@),
{
    let n: usize = at.len();
    let mut cells: Vec<(usize, usize)> = Vec::new();
    for v in 0..n
        invariant
            cells@.len() == v,
    {
        cells.push((0, 0));
    }
    for p in 0..n
        invariant
            n == at@.len(),
            columns@.len() == n,
            cells@.len() == n,
            forall|k: int| 0 <= k < at@.len() ==> #[trigger] at@[k] < at@.len(),
            at@.no_duplicates(),
            forall|q: int|
                0 <= q < p ==> #[trigger] cells@[at@[q] as int] == (
                    columns@[at@[q] as int],
                    stacked(at@, columns@, q, q) as usize,
                ),
    {
        let mut row: usize = 0;
        for j in 0..p
            invariant
                p < n,
                n == at@.len(),
                columns@.len() == n,
                forall|k: int| 0 <= k < at@.len() ==> #[trigger] at@[k] < at@.len(),
                row <= j,
                row == stacked(at@, columns@, p as int, j as int),
        {
            if columns[at[j]] == columns[at[p]] {
                row = row + 1;
            }
        }
        cells.set(at[p], (columns[at[p]], row));
    }
    cells
}

fn rightmost(columns: &Vec<usize>) -> (r: usize)
    ensures
        r == last_column(columns@),
{
    let mut best: usize = 0;
    for i in 0..columns.len()
        invariant
            best == last_column(columns@.take(i as int)),
    {
        assert(columns@.take(i + 1).drop_last() =~= columns@.take(i as int));
        if columns[i] > best {
            best = columns[i];
        }
    }
    assert(columns@.take(columns@.len() as int) =~= columns@);
    best
}

proof fn lemma_last_column(columns: Seq<usize>, b: int)
    requires
        0 <= b,
        forall|k: int| 0 <= k < columns.len() ==> #[trigger] columns[k] <= b,
    ensures
        last_column(columns) <= b,
    decreases columns.len(),
{
    if columns.len() > 0 {
        lemma_last_column(columns.drop_last(), b);
    }
}

/// Whether a grid is the layering of a graph whose nodes are ordered by their keys.
pub open spec fn is_layering(g: Grid, keys: Seq<Seq<char>>, edges: Seq<(usize, usize)>, at: Seq<usize>) -> bool {
    let columns = layers::columns_after(edges, at, keys.len());
    &&& order::is_stable_order(at, order::texts_le(keys), keys.len())
    &&& is_grid(g.cells@, at, columns)
    &&& g.outputs == last_column(columns) + 1
}

/// Whether a grid is the layering of a graph.
pub open spec fn has_layering(g: Grid, keys: Seq<Seq<char>>, edges: Seq<(usize, usize)>) -> bool {
    exists|at: Seq<usize>| #[trigger] is_layering(g, keys, edges, at)
}

/// Take the graph's authored layout, or compute one: a node's column is one past its deepest
/// predecessor, and nodes of one column are stacked in the order of their keys.
pub fn seed_layout(keys: &Vec<String>, layout: &Layout, edges: &Vec<Edge>) -> (r: Seeded)
    requires
        keys@.len() * keys@.len() < usize::MAX,
    ensures
        match r {
            Seeded::Authored(a) => laid_out(layout.positions@) && is_authored(
                a,
                *layout,
                text::texts(keys@),
            ),
            Seeded::Layered(g) => !laid_out(layout.positions@) && has_layering(
                g,
                text::texts(keys@),
                node_edges(edges@),
            ),
        },
{
    if is_laid_out(&layout.positions) {
        return Seeded::Authored(take_authored(keys, layout));
    }
    let at = order::order_texts(keys);
    let pairs = list_node_edges(edges);
    let columns = layers::layer(&pairs, &at);
    proof {
        layers::columns_are_bounded(pairs@, at@);
        lemma_last_column(columns@, (keys@.len() * keys@.len()) as int);
    }
    let g = Grid { cells: stack(&at, &columns), outputs: rightmost(&columns) + 1 };
    assert(is_layering(g, text::texts(keys@), node_edges(edges@), at@));
    assert(has_layering(g, text::texts(keys@), node_edges(edges@)));
    Seeded::Layered(g)
}

/// How far apart columns stand on the canvas.
pub const COLUMN_STEP: i128 = 290;

/// How far apart rows stand on the canvas.
pub const ROW_STEP: i128 = 130;

/// Where boxes stand on the canvas.
pub struct Placed {
    /// Each node's position.
    pub nodes: Vec<(i128, i128)>,
    pub inputs: (i128, i128),
    pub outputs: (i128, i128),
}

/// The position of a cell.
pub open spec fn cell_position(cell: (usize, usize)) -> (i128, i128) {
    ((COLUMN_STEP * cell.0) as i128, (ROW_STEP * cell.1) as i128)
}

/// Places a grid on the canvas: columns and rows at their steps, the graph's inputs one column left
/// of the first and its outputs in theirs, both in the first row.
pub fn place_grid(g: &Grid) -> (r: Placed)
    ensures
        r.nodes@ == g.cells@.map_values(|c: (usize, usize)| cell_position(c)),
        r.inputs == (-290i128, 0i128),
        r.inputs == inputs_position(),
        r.outputs == cell_position((g.outputs, 0)),
{
    let mut nodes: Vec<(i128, i128)> = Vec::new();
    let ghost all = g.cells@.map_values(|c: (usize, usize)| cell_position(c));
    for i in 0..g.cells.len()
        invariant
            all == g.cells@.map_values(|c: (usize, usize)| cell_position(c)),
            nodes@ == all.take(i as int),
    {
        let (column, row): (usize, usize) = g.cells[i];
        nodes.push((COLUMN_STEP * column as i128, ROW_STEP * row as i128));
        assert(nodes@ =~= all.take(i + 1));
    }
    assert(nodes@ =~= all);
    Placed { nodes, inputs: (-COLUMN_STEP, 0), outputs: (COLUMN_STEP * g.outputs as i128, 0) }
}

/// Boxes of different cells stand a step apart.
pub proof fn cells_stand_apart(a: (usize, usize), b: (usize, usize))
    requires
        a != b,
    ensures
        ({
            let (p, q) = (cell_position(a), cell_position(b));
            p.0 - q.0 >= COLUMN_STEP || q.0 - p.0 >= COLUMN_STEP || p.1 - q.1 >= ROW_STEP || q.1
                - p.1 >= ROW_STEP
        }),
{
}

/// No two boxes share a cell.
pub proof fn cells_are_distinct(cells: Seq<(usize, usize)>, at: Seq<usize>, columns: Seq<usize>, p: int, q: int)
    requires
        is_grid(cells, at, columns),
        at.len() <= usize::MAX,
        0 <= p < q < at.len(),
    ensures
        cells[at[p] as int] != cells[at[q] as int],
{
    if columns[at[p] as int] == columns[at[q] as int] {
        lemma_stacked_grows(at, columns, p, q);
        lemma_stacked_grows(at, columns, q, q);
    }
}

proof fn lemma_stacked_grows(at: Seq<usize>, columns: Seq<usize>, p: int, q: int)
    requires
        0 <= p <= q < at.len(),
        columns[at[p] as int] == columns[at[q] as int],
    ensures
        0 <= stacked(at, columns, p, p) <= p,
        0 <= stacked(at, columns, q, q) <= q,
        p < q ==> stacked(at, columns, p, p) < stacked(at, columns, q, q),
{
    lemma_stacked_same(at, columns, p, q, p);
    lemma_stacked_range(at, columns, p, p);
    lemma_stacked_range(at, columns, q, q);
    if p < q {
        lemma_stacked_more(at, columns, q, p + 1, q);
    }
}

proof fn lemma_stacked_range(at: Seq<usize>, columns: Seq<usize>, p: int, upto: int)
    requires
        0 <= upto,
    ensures
        0 <= stacked(at, columns, p, upto) <= upto,
    decreases upto,
{
    if upto > 0 {
        lemma_stacked_range(at, columns, p, upto - 1);
    }
}

proof fn lemma_stacked_same(at: Seq<usize>, columns: Seq<usize>, p: int, q: int, upto: int)
    requires
        columns[at[p] as int] == columns[at[q] as int],
    ensures
        stacked(at, columns, p, upto) == stacked(at, columns, q, upto),
    decreases upto,
{
    if upto > 0 {
        lemma_stacked_same(at, columns, p, q, upto - 1);
    }
}

proof fn lemma_stacked_more(at: Seq<usize>, columns: Seq<usize>, p: int, a: int, b: int)
    requires
        a <= b,
    ensures
        stacked(at, columns, p, a) <= stacked(at, columns, p, b),
    decreases b,
{
    if a < b && b > 0 {
        lemma_stacked_more(at, columns, p, a, b - 1);
    }
}

/// An edge counts for the layout exactly where it goes from a node to a node, of data or of time.
pub proof fn inner_edges_count(edges: Seq<Edge>, e: Edge)
    ensures
        ({
            let before = node_edges(edges);
            let after = node_edges(edges.push(e));
            match (e.source, e.target) {
                (SourcePin::NodeData(m, _), TargetPin::NodeData(n, _)) => after == before.push((m, n)),
                (SourcePin::NodeData(m, _), TargetPin::NodeTime(n, _)) => after == before.push((m, n)),
                (SourcePin::NodeTime(m), TargetPin::NodeData(n, _)) => after == before.push((m, n)),
                (SourcePin::NodeTime(m), TargetPin::NodeTime(n, _)) => after == before.push((m, n)),
                _ => after == before,
            }
        }),
        node_edges(Seq::<Edge>::empty()).len() == 0,
{
    assert(edges.push(e).drop_last() =~= edges);
}

/// The position given last for a key is the node's; positions of other keys do not matter, and a
/// node without one stands at the origin.
pub proof fn later_positions_win(
    positions: Seq<(String, (u32, u32))>,
    k: String,
    p: (u32, u32),
    key: Seq<char>,
)
    ensures
        k@ == key ==> position_of(positions.push((k, p)), key) == p,
        k@ != key ==> position_of(positions.push((k, p)), key) == position_of(positions, key),
        position_of(Seq::<(String, (u32, u32))>::empty(), key) == (0u32, 0u32),
{
    assert(positions.push((k, p)).drop_last() =~= positions);
}

/// A file's layout counts where some position in it has a coordinate that is not zero, of either
/// sign.
pub proof fn layouts_count_off_the_origin(positions: Seq<(String, (u32, u32))>, i: int)
    requires
        0 <= i < positions.len(),
    ensures
        positions[i].1.0 != 0 && positions[i].1.0 != 0x8000_0000 ==> laid_out(positions),
        positions[i].1.1 != 0 && positions[i].1.1 != 0x8000_0000 ==> laid_out(positions),
        (forall|k: int|
            0 <= k < positions.len() ==> ((#[trigger] positions[k]).1.0 == 0 || positions[k].1.0
                == 0x8000_0000) && (positions[k].1.1 == 0 || positions[k].1.1 == 0x8000_0000))
            ==> !laid_out(positions),
{
    if !at_origin(positions[i].1) {
        assert(laid_out(positions));
    }
}

/// The graph's outputs stand right of every node: no column is further right than the last one, and
/// some node stands there, where there are nodes off the first.
pub proof fn last_columns_are_last(columns: Seq<usize>)
    ensures
        forall|i: int| 0 <= i < columns.len() ==> #[trigger] columns[i] <= last_column(columns),
        last_column(columns) == 0 || exists|i: int|
            0 <= i < columns.len() && #[trigger] columns[i] == last_column(columns),
    decreases columns.len(),
{
    if columns.len() > 0 {
        let less = columns.drop_last();
        last_columns_are_last(less);
        assert forall|i: int| 0 <= i < columns.len() implies #[trigger] columns[i] <= last_column(
            columns,
        ) by {
            if i < less.len() {
                assert(less[i] <= last_column(less));
            }
        }
        if columns.last() > last_column(less) {
            assert(columns[columns.len() - 1] == last_column(columns));
        } else if last_column(less) != 0 {
            let i = choose|i: int| 0 <= i < less.len() && #[trigger] less[i] == last_column(less);
            assert(columns[i] == last_column(columns));
        }
    }
}

/// Nodes of one column are stacked in the order of the list: each stands as many rows down as there
/// are nodes of its column before it.
pub proof fn columns_are_stacked(at: Seq<usize>, columns: Seq<usize>, p: int, upto: int)
    requires
        0 <= upto <= at.len(),
    ensures
        stacked(at, columns, p, upto) == at.take(upto).filter(
            |v: usize| columns[v as int] == columns[at[p] as int],
        ).len(),
    decreases upto,
{
    reveal(Seq::filter);
    if upto > 0 {
        columns_are_stacked(at, columns, p, upto - 1);
        assert(at.take(upto).drop_last() =~= at.take(upto - 1));
        assert(at.take(upto).last() == at[upto - 1]);
    } else {
        assert(at.take(0) =~= Seq::<usize>::empty());
    }
}

/// A column is two hundred and ninety pixels wide and a row a hundred and thirty high, from the
/// canvas's origin to the right and down.
pub proof fn cells_have_their_places(cell: (usize, usize))
    ensures
        cell_position(cell).0 == 290 * cell.0,
        cell_position(cell).1 == 130 * cell.1,
{
}

/// An authored graph's boxes stand where its file says: each node at the position of its key, the
/// inputs and the outputs at their own.
pub proof fn authored_boxes_stay_put(a: Authored, layout: Layout, keys: Seq<Seq<char>>, i: int)
    requires
        is_authored(a, layout, keys),
        0 <= i < keys.len(),
    ensures
        a.nodes@.len() == keys.len(),
        a.nodes@[i] == position_of(layout.positions@, keys[i]),
        a.inputs == layout.inputs,
        a.outputs == layout.outputs,
{
}

/// In a computed layout the graph's outputs stand one column right of the last one.
pub proof fn outputs_stand_right_of_all(g: Grid, keys: Seq<Seq<char>>, edges: Seq<(usize, usize)>, p: int)
    requires
        has_layering(g, keys, edges),
        keys.len() * keys.len() <= usize::MAX,
        0 <= p < keys.len(),
    ensures
        g.cells@.len() == keys.len(),
        g.cells@[p].0 < g.outputs,
{
    let at = choose|at: Seq<usize>| #[trigger] is_layering(g, keys, edges, at);
    let columns = layers::columns_after(edges, at, keys.len());
    let le = order::texts_le(keys);
    layers::columns_are_bounded(edges, at);
    last_columns_are_last(columns);
    order::stable_order_lists_all(at, le, keys.len(), p);
    let k = choose|k: int| 0 <= k < keys.len() && #[trigger] at[k] == p;
    assert(g.cells@[at[k] as int].0 == columns[p]);
    assert(columns[p] <= last_column(columns));
}

/// Pins keep the node and the name they are of.
pub proof fn pins_keep_their_names(s: SourcePin, t: TargetPin)
    ensures
        match s {
            SourcePin::NodeData(n, p) => s@ == SourceView::NodeData(n as int, p@),
            SourcePin::NodeTime(n) => s@ == SourceView::NodeTime(n as int),
            SourcePin::InputData(p) => s@ == SourceView::InputData(p@),
            SourcePin::InputTime(p) => s@ == SourceView::InputTime(p@),
        },
        match t {
            TargetPin::NodeData(n, p) => t@ == TargetView::NodeData(n as int, p@),
            TargetPin::NodeTime(n, p) => t@ == TargetView::NodeTime(n as int, p@),
            TargetPin::OutputData(p) => t@ == TargetView::OutputData(p@),
            TargetPin::OutputTime => t@ is OutputTime,
        },
{
}

/// Where the graph's inputs stand on a computed canvas.
pub open spec fn inputs_position() -> (i128, i128) {
    (-290i128, 0i128)
}

/// The graph's inputs stand as far left of the first column as the second does right of it, in the
/// first row.
pub proof fn inputs_stand_left_of_all(row: usize)
    ensures
        cell_position((0, row)).0 - inputs_position().0 == cell_position((1, row)).0 - cell_position(
            (0, row),
        ).0,
        inputs_position().1 == cell_position((0, 0)).1,
{
}

} // verus!
