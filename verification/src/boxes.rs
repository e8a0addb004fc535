//! The boxes of the node canvas with their pin rows, and the links that join them.

use vstd::prelude::*;
use crate::canvas::{Edge, SourcePin, SourceView, TargetPin, TargetView};
use crate::canvas;
use crate::labels;
use crate::order;
use crate::text;

verus! {

/// An input: of a node by its name, of the graph by its notation.
pub enum InPin {
    Time(String),
    Data(String),
}

/// An output.
pub enum OutPin {
    Time,
    Data(String),
}

/// A node of a graph, as the canvas shows it.
pub struct GraphNode {
    /// What nodes are ordered by.
    pub key: String,
    pub name: String,
    /// What the node does.
    pub display: String,
    pub inputs: Vec<InPin>,
    pub outputs: Vec<OutPin>,
}

/// What a canvas box stands for, and therefore where a drag on it writes back.
#[derive(Clone, Copy, Debug, PartialEq, Eq, Structural)]
pub enum BoxKind {
    Node(usize),
    /// The graph's own inputs: sources, so this rail has only output pins.
    Inputs,
    /// The graph's own outputs: targets, so this rail has only input pins.
    Outputs,
}

/// One box on the canvas: a node, or one of the two graph-level rails.
pub struct Boxed {
    pub title: String,
    pub kind: BoxKind,
    /// Left-hand pins, top to bottom, each with the edge target it terminates.
    pub inputs: Vec<(String, TargetPin)>,
    /// Right-hand pins, top to bottom, each with the edge source it originates.
    pub outputs: Vec<(String, SourcePin)>,
}

/// A box, by its contents.
pub ghost struct BoxView {
    pub title: Seq<char>,
    pub kind: BoxKind,
    pub inputs: Seq<(Seq<char>, TargetView)>,
    pub outputs: Seq<(Seq<char>, SourceView)>,
}

/// Left-hand pins, by their contents.
pub open spec fn target_rows(rows: Seq<(String, TargetPin)>) -> Seq<(Seq<char>, TargetView)> {
    rows.map_values(|r: (String, TargetPin)| (r.0@, r.1@))
}

/// Right-hand pins, by their contents.
pub open spec fn source_rows(rows: Seq<(String, SourcePin)>) -> Seq<(Seq<char>, SourceView)> {
    rows.map_values(|r: (String, SourcePin)| (r.0@, r.1@))
}

impl View for Boxed {
    type V = BoxView;

    open spec fn view(&self) -> BoxView {
        BoxView {
            title: self.title@,
            kind: self.kind,
            inputs: target_rows(self.inputs@),
            outputs: source_rows(self.outputs@),
        }
    }
}

/// Boxes, by their contents.
pub open spec fn box_views(boxes: Seq<Boxed>) -> Seq<BoxView> {
    boxes.map_values(|b: Boxed| b@)
}

/// The row of a graph input.
pub open spec fn rail_source(p: InPin) -> (Seq<char>, SourceView) {
    match p {
        InPin::Time(n) => ("t "@ + labels::quoted_name(n@), SourceView::InputTime(n@)),
        InPin::Data(n) => (labels::quoted_name(n@), SourceView::InputData(n@)),
    }
}

/// The row of a graph output.
pub open spec fn rail_target(p: OutPin) -> (Seq<char>, TargetView) {
    match p {
        OutPin::Time => ("t"@, TargetView::OutputTime),
        OutPin::Data(n) => (n@, TargetView::OutputData(n@)),
    }
}

/// The row of a node input.
pub open spec fn node_target(node: int, p: InPin) -> (Seq<char>, TargetView) {
    match p {
        InPin::Time(n) => ("t "@ + n@, TargetView::NodeTime(node, n@)),
        InPin::Data(n) => (n@, TargetView::NodeData(node, n@)),
    }
}

/// The row of a node output.
pub open spec fn node_source(node: int, p: OutPin) -> (Seq<char>, SourceView) {
    match p {
        OutPin::Time => ("t"@, SourceView::NodeTime(node)),
        OutPin::Data(n) => (n@, SourceView::NodeData(node, n@)),
    }
}

/// The box of the graph's inputs.
pub open spec fn inputs_rail(pins: Seq<InPin>) -> BoxView {
    BoxView {
        title: "inputs"@,
        kind: BoxKind::Inputs,
        inputs: seq![],
        outputs: pins.map_values(|p: InPin| rail_source(p)),
    }
}

/// The box of the graph's outputs.
pub open spec fn outputs_rail(pins: Seq<OutPin>) -> BoxView {
    BoxView {
        title: "outputs"@,
        kind: BoxKind::Outputs,
        inputs: pins.map_values(|p: OutPin| rail_target(p)),
        outputs: seq![],
    }
}

/// The box of a node.
pub open spec fn node_box(n: GraphNode, i: usize) -> BoxView {
    BoxView {
        title: labels::box_title(n.name@, n.display@),
        kind: BoxKind::Node(i),
        inputs: n.inputs@.map_values(|p: InPin| node_target(i as int, p)),
        outputs: n.outputs@.map_values(|p: OutPin| node_source(i as int, p)),
    }
}

/// The boxes of a graph: its two rails, then its nodes in the order `at`.
pub open spec fn boxes_of(
    ins: Seq<InPin>,
    outs: Seq<OutPin>,
    nodes: Seq<GraphNode>,
    at: Seq<usize>,
) -> Seq<BoxView> {
    seq![inputs_rail(ins), outputs_rail(outs)] + at.map_values(
        |i: usize| node_box(nodes[i as int], i),
    )
}

/// The keys of nodes.
pub open spec fn node_keys(nodes: Seq<GraphNode>) -> Seq<Seq<char>> {
    nodes.map_values(|n: GraphNode| n.key@)
}

fn time_label(name: &str) -> (r: String)
    ensures
        r@ == "t "@ + name@,
{
    let mut out = "t ".to_owned();
    out.append(name);
    out
}

fn inputs_box(pins: &Vec<InPin>) -> (r: Boxed)
    ensures
        r@ == inputs_rail(pins@),
{
    let mut rows: Vec<(String, SourcePin)> = Vec::new();
    for i in 0..pins.len()
        invariant
            source_rows(rows@) == inputs_rail(pins@).outputs.take(i as int),
    {
        let row = match &pins[i] {
            InPin::Time(n) => (
                time_label(labels::pin_name(n.as_str()).as_str()),
                SourcePin::InputTime(n.clone()),
            ),
            InPin::Data(n) => (labels::pin_name(n.as_str()), SourcePin::InputData(n.clone())),
        };
        let ghost before = rows@;
        rows.push(row);
        assert(source_rows(rows@) =~= source_rows(before).push(rail_source(pins@[i as int])));
        assert(source_rows(rows@) =~= inputs_rail(pins@).outputs.take(i + 1));
    }
    let none: Vec<(String, TargetPin)> = Vec::new();
    assert(target_rows(none@) =~= seq![]);
    assert(source_rows(rows@) =~= inputs_rail(pins@).outputs);
    Boxed { title: "inputs".to_owned(), kind: BoxKind::Inputs, inputs: none, outputs: rows }
}

fn outputs_box(pins: &Vec<OutPin>) -> (r: Boxed)
    ensures
        r@ == outputs_rail(pins@),
{
    let mut rows: Vec<(String, TargetPin)> = Vec::new();
    for i in 0..pins.len()
        invariant
            target_rows(rows@) == outputs_rail(pins@).inputs.take(i as int),
    {
        let row = match &pins[i] {
            OutPin::Time => ("t".to_owned(), TargetPin::OutputTime),
            OutPin::Data(n) => (n.clone(), TargetPin::OutputData(n.clone())),
        };
        let ghost before = rows@;
        rows.push(row);
        assert(target_rows(rows@) =~= target_rows(before).push(rail_target(pins@[i as int])));
        assert(target_rows(rows@) =~= outputs_rail(pins@).inputs.take(i + 1));
    }
    let none: Vec<(String, SourcePin)> = Vec::new();
    assert(source_rows(none@) =~= seq![]);
    assert(target_rows(rows@) =~= outputs_rail(pins@).inputs);
    Boxed { title: "outputs".to_owned(), kind: BoxKind::Outputs, inputs: rows, outputs: none }
}

fn box_node(n: &GraphNode, node: usize) -> (r: Boxed)
    ensures
        r@ == node_box(*n, node),
{
    let mut ins: Vec<(String, TargetPin)> = Vec::new();
    for i in 0..n.inputs.len()
        invariant
            target_rows(ins@) == node_box(*n, node).inputs.take(i as int),
    {
        let row = match &n.inputs[i] {
            InPin::Time(p) => (time_label(p.as_str()), TargetPin::NodeTime(node, p.clone())),
            InPin::Data(p) => (p.clone(), TargetPin::NodeData(node, p.clone())),
        };
        let ghost before = ins@;
        ins.push(row);
        assert(target_rows(ins@) =~= target_rows(before).push(
            node_target(node as int, n.inputs@[i as int]),
        ));
        assert(target_rows(ins@) =~= node_box(*n, node).inputs.take(i + 1));
    }
    let mut outs: Vec<(String, SourcePin)> = Vec::new();
    for i in 0..n.outputs.len()
        invariant
            source_rows(outs@) == node_box(*n, node).outputs.take(i as int),
    {
        let row = match &n.outputs[i] {
            OutPin::Time => ("t".to_owned(), SourcePin::NodeTime(node)),
            OutPin::Data(p) => (p.clone(), SourcePin::NodeData(node, p.clone())),
        };
        let ghost before = outs@;
        outs.push(row);
        assert(source_rows(outs@) =~= source_rows(before).push(
            node_source(node as int, n.outputs@[i as int]),
        ));
        assert(source_rows(outs@) =~= node_box(*n, node).outputs.take(i + 1));
    }
    assert(target_rows(ins@) =~= node_box(*n, node).inputs);
    assert(source_rows(outs@) =~= node_box(*n, node).outputs);
    Boxed {
        title: labels::title_box(n.name.as_str(), n.display.as_str()),
        kind: BoxKind::Node(node),
        inputs: ins,
        outputs: outs,
    }
}

/// The boxes of a graph. The graph's own inputs are sources on the canvas and its outputs are
/// targets: the rails are ordinary boxes with one side empty. The nodes follow in the order of
/// their keys.
pub fn plan_boxes(ins: &Vec<InPin>, outs: &Vec<OutPin>, nodes: &Vec<GraphNode>) -> (r: Vec<Boxed>)
    ensures
        exists|at: Seq<usize>| #[trigger]
            order::is_stable_order(at, order::texts_le(node_keys(nodes@)), nodes@.len())
                && box_views(r@) == boxes_of(ins@, outs@, nodes@, at),
{
    let mut keys: Vec<String> = Vec::new();
    for i in 0..nodes.len()
        invariant
            text::texts(keys@) == node_keys(nodes@).take(i as int),
    {
        let ghost before = keys@;
        keys.push(nodes[i].key.clone());
        proof {
            text::lemma_texts_push(before, keys@.last());
        }
        assert(text::texts(keys@) =~= node_keys(nodes@).take(i + 1));
    }
    assert(text::texts(keys@) =~= node_keys(nodes@));
    let at = order::order_texts(&keys);
    let mut boxes: Vec<Boxed> = Vec::new();
    boxes.push(inputs_box(ins));
    boxes.push(outputs_box(outs));
    let ghost all = boxes_of(ins@, outs@, nodes@, at@);
    assert(box_views(boxes@) =~= all.take(2));
    for p in 0..at.len()
        invariant
            order::is_stable_order(at@, order::texts_le(node_keys(nodes@)), nodes@.len()),
            all == boxes_of(ins@, outs@, nodes@, at@),
            box_views(boxes@) == all.take(2 + p as int),
    {
        let ghost before = boxes@;
        boxes.push(box_node(&nodes[at[p]], at[p]));
        assert(box_views(boxes@) =~= box_views(before).push(
            node_box(nodes@[at@[p as int] as int], at@[p as int]),
        ));
        assert(box_views(boxes@) =~= all.take(3 + p as int));
    }
    assert(box_views(boxes@) =~= all);
    boxes
}

/// The last row of a list of pins that holds a pin.
pub open spec fn last_row<P>(rows: Seq<(Seq<char>, P)>, pin: P) -> Option<int>
    decreases rows.len(),
{
    if rows.len() == 0 {
        None
    } else if rows.last().1 == pin {
        Some(rows.len() - 1)
    } else {
        last_row(rows.drop_last(), pin)
    }
}

/// The box and the row that a source pin stands in: the last, where several do.
pub open spec fn source_place(boxes: Seq<BoxView>, pin: SourceView) -> Option<(int, int)>
    decreases boxes.len(),
{
    if boxes.len() == 0 {
        None
    } else {
        match last_row(boxes.last().outputs, pin) {
            Some(i) => Some((boxes.len() - 1, i)),
            None => source_place(boxes.drop_last(), pin),
        }
    }
}

/// The box and the row that a target pin stands in: the last, where several do.
pub open spec fn target_place(boxes: Seq<BoxView>, pin: TargetView) -> Option<(int, int)>
    decreases boxes.len(),
{
    if boxes.len() == 0 {
        None
    } else {
        match last_row(boxes.last().inputs, pin) {
            Some(i) => Some((boxes.len() - 1, i)),
            None => target_place(boxes.drop_last(), pin),
        }
    }
}

/// A place, as plain numbers.
pub open spec fn place_of(p: Option<(usize, usize)>) -> Option<(int, int)> {
    match p {
        Some((b, i)) => Some((b as int, i as int)),
        None => None,
    }
}

fn row_of_source(rows: &Vec<(String, SourcePin)>, pin: &SourcePin) -> (r: Option<usize>)
    ensures
        match r {
            Some(i) => last_row(source_rows(rows@), pin@) == Some(i as int),
            None => last_row(source_rows(rows@), pin@) is None,
        },
{
    let mut i: usize = rows.len();
    let ghost all = source_rows(rows@);
    assert(all.take(i as int) =~= all);
    while i > 0
        invariant
            i <= rows@.len(),
            all == source_rows(rows@),
            last_row(all, pin@) == last_row(all.take(i as int), pin@),
        decreases i,
    {
        i = i - 1;
        assert(all.take(i + 1).drop_last() =~= all.take(i as int));
        if canvas::same_source(&rows[i].1, pin) {
            return Some(i);
        }
    }
    None
}

fn row_of_target(rows: &Vec<(String, TargetPin)>, pin: &TargetPin) -> (r: Option<usize>)
    ensures
        match r {
            Some(i) => last_row(target_rows(rows@), pin@) == Some(i as int),
            None => last_row(target_rows(rows@), pin@) is None,
        },
{
    let mut i: usize = rows.len();
    let ghost all = target_rows(rows@);
    assert(all.take(i as int) =~= all);
    while i > 0
        invariant
            i <= rows@.len(),
            all == target_rows(rows@),
            last_row(all, pin@) == last_row(all.take(i as int), pin@),
        decreases i,
    {
        i = i - 1;
        assert(all.take(i + 1).drop_last() =~= all.take(i as int));
        if canvas::same_target(&rows[i].1, pin) {
            return Some(i);
        }
    }
    None
}

/// The box and the row that a source pin stands in.
pub fn find_source(boxes: &Vec<Boxed>, pin: &SourcePin) -> (r: Option<(usize, usize)>)
    ensures
        place_of(r) == source_place(box_views(boxes@), pin@),
{
    let mut b: usize = boxes.len();
    let ghost all = box_views(boxes@);
    assert(all.take(b as int) =~= all);
    while b > 0
        invariant
            b <= boxes@.len(),
            all == box_views(boxes@),
            source_place(all, pin@) == source_place(all.take(b as int), pin@),
        decreases b,
    {
        b = b - 1;
        assert(all.take(b + 1).drop_last() =~= all.take(b as int));
        assert(all.take(b + 1).last() == boxes@[b as int]@);
        if let Some(i) = row_of_source(&boxes[b].outputs, pin) {
            return Some((b, i));
        }
    }
    None
}

/// The box and the row that a target pin stands in.
pub fn find_target(boxes: &Vec<Boxed>, pin: &TargetPin) -> (r: Option<(usize, usize)>)
    ensures
        place_of(r) == target_place(box_views(boxes@), pin@),
{
    let mut b: usize = boxes.len();
    let ghost all = box_views(boxes@);
    assert(all.take(b as int) =~= all);
    while b > 0
        invariant
            b <= boxes@.len(),
            all == box_views(boxes@),
            target_place(all, pin@) == target_place(all.take(b as int), pin@),
        decreases b,
    {
        b = b - 1;
        assert(all.take(b + 1).drop_last() =~= all.take(b as int));
        assert(all.take(b + 1).last() == boxes@[b as int]@);
        if let Some(i) = row_of_target(&boxes[b].inputs, pin) {
            return Some((b, i));
        }
    }
    None
}

/// A link between two pin rows: from the right side of one box to the left side of another.
#[derive(Clone, Copy, Debug, PartialEq, Eq)]
pub struct Link {
    /// The box and the row where the link leaves.
    pub from: (usize, usize),
    /// The box and the row where it arrives.
    pub to: (usize, usize),
    /// Time edges carry the clock, data edges carry poses and values.
    pub time: bool,
}

/// Whether an edge carries the clock.
pub open spec fn is_time(t: TargetView) -> bool {
    t is NodeTime || t is OutputTime
}

/// The links of edges whose ends both stand on the canvas, in the order of the edges.
pub open spec fn links_of(boxes: Seq<BoxView>, edges: Seq<Edge>) -> Seq<Link>
    decreases edges.len(),
{
    if edges.len() == 0 {
        seq![]
    } else {
        let most = links_of(boxes, edges.drop_last());
        let e = edges.last();
        match (source_place(boxes, e.source@), target_place(boxes, e.target@)) {
            (Some(f), Some(t)) => most.push(
                (Link {
                    from: (f.0 as usize, f.1 as usize),
                    to: (t.0 as usize, t.1 as usize),
                    time: is_time(e.target@),
                }),
            ),
            _ => most,
        }
    }
}

/// A link per edge whose ends both stand on the canvas.
pub fn plan_links(boxes: &Vec<Boxed>, edges: &Vec<Edge>) -> (r: Vec<Link>)
    ensures
        r@ == links_of(box_views(boxes@), edges@),
{
    let mut out: Vec<Link> = Vec::new();
    for i in 0..edges.len()
        invariant
            out@ == links_of(box_views(boxes@), edges@.take(i as int)),
    {
        assert(edges@.take(i + 1).drop_last() =~= edges@.take(i as int));
        let e = &edges[i];
        let time = match &e.target {
            TargetPin::NodeTime(_, _) => true,
            TargetPin::OutputTime => true,
            _ => false,
        };
        if let (Some(from), Some(to)) = (
            find_source(boxes, &e.source),
            find_target(boxes, &e.target),
        ) {
            out.push(Link { from, to, time });
        }
    }
    assert(edges@.take(edges@.len() as int) =~= edges@);
    out
}

proof fn lemma_last_row<P>(rows: Seq<(Seq<char>, P)>, pin: P)
    ensures
        last_row(rows, pin) matches Some(i) ==> 0 <= i < rows.len() && rows[i].1 == pin,
    decreases rows.len(),
{
    if rows.len() > 0 {
        lemma_last_row(rows.drop_last(), pin);
    }
}

proof fn lemma_source_place(boxes: Seq<BoxView>, pin: SourceView)
    ensures
        source_place(boxes, pin) matches Some((b, i)) ==> 0 <= b < boxes.len() && 0 <= i
            < boxes[b].outputs.len() && boxes[b].outputs[i].1 == pin,
    decreases boxes.len(),
{
    if boxes.len() > 0 {
        lemma_last_row(boxes.last().outputs, pin);
        lemma_source_place(boxes.drop_last(), pin);
    }
}

proof fn lemma_target_place(boxes: Seq<BoxView>, pin: TargetView)
    ensures
        target_place(boxes, pin) matches Some((b, i)) ==> 0 <= b < boxes.len() && 0 <= i
            < boxes[b].inputs.len() && boxes[b].inputs[i].1 == pin,
    decreases boxes.len(),
{
    if boxes.len() > 0 {
        lemma_last_row(boxes.last().inputs, pin);
        lemma_target_place(boxes.drop_last(), pin);
    }
}

/// Whether a link joins the pins of an edge.
pub open spec fn joins(boxes: Seq<BoxView>, l: Link, e: Edge) -> bool {
    &&& l.from.0 < boxes.len() && l.from.1 < boxes[l.from.0 as int].outputs.len()
    &&& l.to.0 < boxes.len() && l.to.1 < boxes[l.to.0 as int].inputs.len()
    &&& boxes[l.from.0 as int].outputs[l.from.1 as int].1 == e.source@
    &&& boxes[l.to.0 as int].inputs[l.to.1 as int].1 == e.target@
}

/// Every link that is drawn joins the two pins of an edge.
pub proof fn links_join_their_pins(boxes: Seq<Boxed>, edges: Seq<Edge>, k: int)
    requires
        boxes.len() <= usize::MAX,
        forall|b: int|
            0 <= b < boxes.len() ==> (#[trigger] boxes[b]).inputs@.len() <= usize::MAX
                && boxes[b].outputs@.len() <= usize::MAX,
        0 <= k < links_of(box_views(boxes), edges).len(),
    ensures
        exists|e: int|
            0 <= e < edges.len() && #[trigger] joins(
                box_views(boxes),
                links_of(box_views(boxes), edges)[k],
                edges[e],
            ),
    decreases edges.len(),
{
    let views = box_views(boxes);
    let most = links_of(views, edges.drop_last());
    let link = links_of(views, edges)[k];
    if k < most.len() {
        links_join_their_pins(boxes, edges.drop_last(), k);
        let e = choose|e: int|
            0 <= e < edges.drop_last().len() && #[trigger] joins(
                views,
                most[k],
                edges.drop_last()[e],
            );
        assert(edges.drop_last()[e] == edges[e]);
        assert(joins(views, link, edges[e]));
    } else {
        let last = edges.last();
        lemma_source_place(views, last.source@);
        lemma_target_place(views, last.target@);
        let f = source_place(views, last.source@)->0;
        let t = target_place(views, last.target@)->0;
        assert(boxes[f.0].outputs@.len() <= usize::MAX);
        assert(boxes[t.0].inputs@.len() <= usize::MAX);
        assert(joins(views, link, edges[edges.len() - 1]));
    }
}

/// The pin rows of a box: those of its longer side, at least one.
pub open spec fn row_count(b: BoxView) -> int {
    let most = if b.inputs.len() > b.outputs.len() {
        b.inputs.len() as int
    } else {
        b.outputs.len() as int
    };
    if most > 1 {
        most
    } else {
        1
    }
}

impl Boxed {
    /// The height of the box in canvas pixels: a header, its pin rows, and a margin above and
    /// below them.
    pub fn height(&self) -> (r: u128)
        ensures
            r == 22 + row_count(self@) * 15 + 5 * 2,
            r == box_height(self@),
    {
        let ins: usize = self.inputs.len();
        let outs: usize = self.outputs.len();
        let most: usize = if ins > outs {
            ins
        } else {
            outs
        };
        let rows: usize = if most > 1 {
            most
        } else {
            1
        };
        22 + (rows as u128) * 15 + 10
    }

    /// Twice the distance from the top of the box to the centre of pin row `i`, in canvas pixels.
    pub fn pin_y_twice(&self, i: usize) -> (r: u128)
        ensures
            r == 2 * (22 + 5) + (2 * i + 1) * 15,
            r == pin_center_twice(i as int),
    {
        54 + ((i as u128) * 2 + 1) * 15
    }

    /// Whether the box is the graph's own boundary, which is drawn in a warm colour.
    pub fn is_rail(&self) -> (r: bool)
        ensures
            r == !(self.kind is Node),
    {
        match self.kind {
            BoxKind::Node(_) => false,
            _ => true,
        }
    }

    /// The labels down the left side.
    pub fn input_labels(&self) -> (r: Vec<String>)
        ensures
            text::texts(r@) == self@.inputs.map_values(|p: (Seq<char>, TargetView)| p.0),
    {
        let mut out: Vec<String> = Vec::new();
        let ghost all = self@.inputs.map_values(|p: (Seq<char>, TargetView)| p.0);
        for i in 0..self.inputs.len()
            invariant
                all == self@.inputs.map_values(|p: (Seq<char>, TargetView)| p.0),
                text::texts(out@) == all.take(i as int),
        {
            let ghost before = out@;
            out.push(self.inputs[i].0.clone());
            proof {
                text::lemma_texts_push(before, out@.last());
            }
            assert(text::texts(out@) =~= all.take(i + 1));
        }
        assert(text::texts(out@) =~= all);
        out
    }

    /// The labels down the right side.
    pub fn output_labels(&self) -> (r: Vec<String>)
        ensures
            text::texts(r@) == self@.outputs.map_values(|p: (Seq<char>, SourceView)| p.0),
    {
        let mut out: Vec<String> = Vec::new();
        let ghost all = self@.outputs.map_values(|p: (Seq<char>, SourceView)| p.0);
        for i in 0..self.outputs.len()
            invariant
                all == self@.outputs.map_values(|p: (Seq<char>, SourceView)| p.0),
                text::texts(out@) == all.take(i as int),
        {
            let ghost before = out@;
            out.push(self.outputs[i].0.clone());
            proof {
                text::lemma_texts_push(before, out@.last());
            }
            assert(text::texts(out@) =~= all.take(i + 1));
        }
        assert(text::texts(out@) =~= all);
        out
    }
}

/// Every pin row lies inside its box.
pub proof fn pins_are_inside(b: BoxView, i: int)
    requires
        0 <= i < b.inputs.len() || 0 <= i < b.outputs.len(),
    ensures
        2 * (22 + 5) + (2 * i + 1) * 15 < 2 * (22 + row_count(b) * 15 + 5 * 2),
{
}

/// A pointer button.
#[derive(Clone, Copy, Debug, PartialEq, Eq, Structural)]
pub enum Button {
    Primary,
    Secondary,
    Middle,
}

/// What a drag that starts on a box moves: the box, with the primary button only.
pub fn dragged(kind: BoxKind, button: Button) -> (r: Option<BoxKind>)
    ensures
        r == (if button == Button::Primary {
            Some(kind)
        } else {
            None
        }),
{
    if button == Button::Primary {
        Some(kind)
    } else {
        None
    }
}

/// Whether a drag on the background pans the canvas: not with the button that drags boxes.
pub fn pans(button: Button) -> (r: bool)
    ensures
        r == (button == Button::Middle || button == Button::Secondary),
{
    button == Button::Middle || button == Button::Secondary
}

/// The canvas node the inspector is showing, and whether its list needs rebuilding.
#[derive(Clone, Copy, Debug, PartialEq, Eq)]
pub struct Selected {
    pub node: Option<usize>,
    pub dirty: bool,
}

impl Selected {
    /// A click on a box: a node is selected, a rail is not.
    pub fn click(&mut self, kind: BoxKind)
        ensures
            *final(self) == (match kind {
                BoxKind::Node(n) => (Selected { node: Some(n), dirty: true }),
                _ => *old(self),
            }),
    {
        if let BoxKind::Node(n) = kind {
            self.node = Some(n);
            self.dirty = true;
        }
    }

    /// Selects a node by its name, as a click would: the first that has it.
    pub fn select_named(&mut self, nodes: &Vec<GraphNode>, want: &str)
        ensures
            final(self).dirty,
            match final(self).node {
                Some(i) => i < nodes@.len() && nodes@[i as int].name@ == want@ && forall|k: int|
                    0 <= k < i ==> (#[trigger] nodes@[k]).name@ != want@,
                None => forall|k: int|
                    0 <= k < nodes@.len() ==> (#[trigger] nodes@[k]).name@ != want@,
            },
    {
        self.dirty = true;
        self.node = None;
        for i in 0..nodes.len()
            invariant
                self.dirty,
                self.node is None,
                forall|k: int| 0 <= k < i ==> (#[trigger] nodes@[k]).name@ != want@,
        {
            if text::same_text(nodes[i].name.as_str(), want) {
                self.node = Some(i);
                return ;
            }
        }
    }

    /// Whether a node's box is drawn as selected.
    pub fn highlights(&self, node: usize) -> (r: bool)
        ensures
            r == (self.node == Some(node)),
    {
        match self.node {
            Some(n) => n == node,
            None => false,
        }
    }
}

/// What a frame does about the canvas.
#[derive(Clone, Copy, Debug, PartialEq, Eq, Structural)]
pub enum Redraw {
    /// Nothing changed.
    Idle,
    /// No graph is open: the change is forgotten.
    Forget,
    /// The graph is not loaded yet: the change waits.
    Wait,
    /// The canvas is drawn anew.
    Draw,
}

/// Decides what a frame does about the canvas.
pub fn redraw(dirty: bool, open: bool, loaded: bool) -> (r: Redraw)
    ensures
        r == (if !dirty {
            Redraw::Idle
        } else if !open {
            Redraw::Forget
        } else if !loaded {
            Redraw::Wait
        } else {
            Redraw::Draw
        }),
        r == redraws(dirty, open, loaded),
{
    if !dirty {
        Redraw::Idle
    } else if !open {
        Redraw::Forget
    } else if !loaded {
        Redraw::Wait
    } else {
        Redraw::Draw
    }
}

/// A node's box stands for that node: it has the node's title, a row for each of its inputs and
/// outputs in order, labelled by its name, and a clock's row is labelled as one.
pub proof fn boxes_show_their_nodes(
    ins: Seq<InPin>,
    outs: Seq<OutPin>,
    nodes: Seq<GraphNode>,
    at: Seq<usize>,
    k: int,
    i: int,
)
    requires
        0 <= k < at.len(),
        0 <= i,
    ensures
        ({
            let boxes = boxes_of(ins, outs, nodes, at);
            let b = boxes[k + 2];
            let node = nodes[at[k] as int];
            let n = at[k] as int;
            &&& boxes.len() == at.len() + 2
            &&& b.kind == BoxKind::Node(at[k])
            &&& b.title == labels::box_title(node.name@, node.display@)
            &&& b.inputs.len() == node.inputs@.len()
            &&& b.outputs.len() == node.outputs@.len()
            &&& i < node.inputs@.len() ==> match node.inputs@[i] {
                InPin::Time(s) => b.inputs[i] == ("t "@ + s@, TargetView::NodeTime(n, s@)),
                InPin::Data(s) => b.inputs[i] == (s@, TargetView::NodeData(n, s@)),
            }
            &&& i < node.outputs@.len() ==> match node.outputs@[i] {
                OutPin::Time => b.outputs[i] == ("t"@, SourceView::NodeTime(n)),
                OutPin::Data(s) => b.outputs[i] == (s@, SourceView::NodeData(n, s@)),
            }
        }),
{
}

/// The first box is the rail of the graph's inputs, which are sources; the second that of its
/// outputs, which are targets. Neither has rows on its other side.
pub proof fn rails_show_the_graph(
    ins: Seq<InPin>,
    outs: Seq<OutPin>,
    nodes: Seq<GraphNode>,
    at: Seq<usize>,
    i: int,
)
    requires
        0 <= i,
    ensures
        ({
            let boxes = boxes_of(ins, outs, nodes, at);
            &&& boxes[0].kind is Inputs && boxes[0].title == "inputs"@ && boxes[0].inputs.len() == 0
            &&& boxes[1].kind is Outputs && boxes[1].title == "outputs"@ && boxes[1].outputs.len() == 0
            &&& boxes[0].outputs.len() == ins.len()
            &&& boxes[1].inputs.len() == outs.len()
            &&& i < ins.len() ==> match ins[i] {
                InPin::Time(s) => boxes[0].outputs[i] == (
                    "t "@ + labels::quoted_name(s@),
                    SourceView::InputTime(s@),
                ),
                InPin::Data(s) => boxes[0].outputs[i] == (
                    labels::quoted_name(s@),
                    SourceView::InputData(s@),
                ),
            }
            &&& i < outs.len() ==> match outs[i] {
                OutPin::Time => boxes[1].inputs[i] == ("t"@, TargetView::OutputTime),
                OutPin::Data(s) => boxes[1].inputs[i] == (s@, TargetView::OutputData(s@)),
            }
        }),
{
}

/// Whether boxes and rows can be counted.
pub open spec fn countable(boxes: Seq<BoxView>) -> bool {
    boxes.len() <= usize::MAX && forall|b: int|
        0 <= b < boxes.len() ==> (#[trigger] boxes[b]).inputs.len() <= usize::MAX
            && boxes[b].outputs.len() <= usize::MAX
}

/// One more edge is one more link, behind the others, where both its pins stand on the canvas, and
/// none where one of them does not; it is a clock's where it ends at a clock's pin.
pub proof fn edges_are_drawn(
    boxes: Seq<BoxView>,
    edges: Seq<Edge>,
    e: Edge,
    b: int,
    i: int,
    c: int,
    j: int,
)
    requires
        countable(boxes),
        0 <= b < boxes.len(),
        0 <= i < boxes[b].outputs.len(),
        boxes[b].outputs[i].1 == e.source@,
        0 <= c < boxes.len(),
        0 <= j < boxes[c].inputs.len(),
        boxes[c].inputs[j].1 == e.target@,
    ensures
        ({
            let before = links_of(boxes, edges);
            let after = links_of(boxes, edges.push(e));
            &&& after.len() == before.len() + 1
            &&& before.is_prefix_of(after)
            &&& joins(boxes, after.last(), e)
            &&& after.last().time <==> (e.target@ is NodeTime || e.target@ is OutputTime)
        }),
{
    assert(edges.push(e).drop_last() =~= edges);
    lemma_source_found(boxes, e.source@, b, i);
    lemma_target_found(boxes, e.target@, c, j);
}

proof fn lemma_row_found<P>(rows: Seq<(Seq<char>, P)>, pin: P, i: int)
    requires
        0 <= i < rows.len(),
        rows[i].1 == pin,
    ensures
        last_row(rows, pin) matches Some(k) && i <= k < rows.len() && rows[k].1 == pin,
    decreases rows.len(),
{
    if rows.last().1 != pin {
        lemma_row_found(rows.drop_last(), pin, i);
    }
}

proof fn lemma_row_valid<P>(rows: Seq<(Seq<char>, P)>, pin: P)
    ensures
        last_row(rows, pin) matches Some(k) ==> 0 <= k < rows.len() && rows[k].1 == pin,
    decreases rows.len(),
{
    if rows.len() > 0 && rows.last().1 != pin {
        lemma_row_valid(rows.drop_last(), pin);
    }
}

proof fn lemma_source_found(boxes: Seq<BoxView>, pin: SourceView, b: int, i: int)
    requires
        0 <= b < boxes.len(),
        0 <= i < boxes[b].outputs.len(),
        boxes[b].outputs[i].1 == pin,
    ensures
        source_place(boxes, pin) matches Some(p) && 0 <= p.0 < boxes.len() && 0 <= p.1
            < boxes[p.0].outputs.len() && boxes[p.0].outputs[p.1].1 == pin,
    decreases boxes.len(),
{
    lemma_row_valid(boxes.last().outputs, pin);
    if b == boxes.len() - 1 {
        lemma_row_found(boxes.last().outputs, pin, i);
    } else if last_row(boxes.last().outputs, pin) is None {
        lemma_source_found(boxes.drop_last(), pin, b, i);
    }
}

proof fn lemma_target_found(boxes: Seq<BoxView>, pin: TargetView, b: int, i: int)
    requires
        0 <= b < boxes.len(),
        0 <= i < boxes[b].inputs.len(),
        boxes[b].inputs[i].1 == pin,
    ensures
        target_place(boxes, pin) matches Some(p) && 0 <= p.0 < boxes.len() && 0 <= p.1
            < boxes[p.0].inputs.len() && boxes[p.0].inputs[p.1].1 == pin,
    decreases boxes.len(),
{
    lemma_row_valid(boxes.last().inputs, pin);
    if b == boxes.len() - 1 {
        lemma_row_found(boxes.last().inputs, pin, i);
    } else if last_row(boxes.last().inputs, pin) is None {
        lemma_target_found(boxes.drop_last(), pin, b, i);
    }
}

/// A box is as tall as its longer side needs: fifteen pixels for a row, at least one, and its header
/// and margins.
pub proof fn boxes_are_tall_enough(b: BoxView)
    ensures
        row_count(b) >= 1,
        row_count(b) >= b.inputs.len(),
        row_count(b) >= b.outputs.len(),
        row_count(b) == 1 || row_count(b) == b.inputs.len() || row_count(b) == b.outputs.len(),
{
}

/// A box keeps its title, its kind and the rows of either side.
pub proof fn boxes_keep_their_rows(b: Boxed, i: int)
    ensures
        b@.title == b.title@ && b@.kind == b.kind,
        b@.inputs.len() == b.inputs@.len() && b@.outputs.len() == b.outputs@.len(),
        0 <= i < b.inputs@.len() ==> b@.inputs[i] == (b.inputs@[i].0@, b.inputs@[i].1@),
        0 <= i < b.outputs@.len() ==> b@.outputs[i] == (b.outputs@[i].0@, b.outputs@[i].1@),
{
}

/// The height of a box in canvas pixels.
pub open spec fn box_height(b: BoxView) -> int {
    22 + row_count(b) * 15 + 5 * 2
}

/// Twice the distance from a box's top to the centre of a pin row.
pub open spec fn pin_center_twice(i: int) -> int {
    2 * (22 + 5) + (2 * i + 1) * 15
}

/// Pin rows are fifteen pixels high, one below the other, with five pixels between the header, which
/// is twenty-two high, and the first, and five below the last.
pub proof fn rows_fill_their_box(b: BoxView, i: int)
    ensures
        pin_center_twice(0) == 2 * 22 + 2 * 5 + 15,
        pin_center_twice(i + 1) - pin_center_twice(i) == 2 * 15,
        2 * box_height(b) - pin_center_twice(row_count(b) - 1) == 15 + 2 * 5,
{
}

/// What a frame does about the canvas.
pub open spec fn redraws(dirty: bool, open: bool, loaded: bool) -> Redraw {
    if !dirty {
        Redraw::Idle
    } else if !open {
        Redraw::Forget
    } else if !loaded {
        Redraw::Wait
    } else {
        Redraw::Draw
    }
}

/// The canvas is drawn anew exactly where it changed and its graph is open and loaded; a change is
/// forgotten without a graph, and waits for one that is not loaded.
pub proof fn changed_canvases_are_drawn(dirty: bool, open: bool, loaded: bool)
    ensures
        redraws(dirty, open, loaded) is Draw <==> dirty && open && loaded,
        redraws(dirty, open, loaded) is Idle <==> !dirty,
        redraws(dirty, open, loaded) is Forget <==> dirty && !open,
        redraws(dirty, open, loaded) is Wait <==> dirty && open && !loaded,
{
}

} // verus!
