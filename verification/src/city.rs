//! The block generator of a procedural city: a grid of crossroads, each block's props from its
//! density, roads with lanes of cars. Lengths are counted in ten-thousandths of a unit.

use rand::RngExt;
use vstd::prelude::*;

verus! {

/// What a prop of the city is.
#[derive(Clone, Copy, Debug, PartialEq, Eq, Structural)]
pub enum Model {
    Crossroad,
    RoadStraight,
    GrassTile,
    RoadTile,
    LowBuilding,
    MediumBuilding,
    HighBuilding,
    TreeSmall,
    TreeLarge,
    Fence,
    PathStones,
}

/// A prop: where it stands, its quarter turns about the vertical, and its size.
#[derive(Clone, Copy, Debug, PartialEq, Eq)]
pub struct Prop {
    pub model: Model,
    pub x: i64,
    pub y: i64,
    pub z: i64,
    pub turns: u8,
    pub scale: [i64; 3],
}

/// A prop, in plain numbers.
pub ghost struct PropView {
    pub model: Model,
    pub x: int,
    pub y: int,
    pub z: int,
    pub turns: int,
    pub scale: (int, int, int),
}

impl View for Prop {
    type V = PropView;

    open spec fn view(&self) -> PropView {
        PropView {
            model: self.model,
            x: self.x as int,
            y: self.y as int,
            z: self.z as int,
            turns: self.turns as int,
            scale: (self.scale@[0] as int, self.scale@[1] as int, self.scale@[2] as int),
        }
    }
}

/// Props, in plain numbers.
pub open spec fn prop_views(props: Seq<Prop>) -> Seq<PropView> {
    props.map_values(|p: Prop| p@)
}

/// A block of the city, counted from its centre.
#[derive(Clone, Copy, Debug, PartialEq, Eq, Structural)]
pub struct Block {
    pub x: i32,
    pub z: i32,
}

/// A prop of a block, placed from the block's crossroad. A block is 5.5 by 4 units.
pub open spec fn sized(
    b: Block,
    model: Model,
    at: (int, int, int),
    turns: int,
    scale: (int, int, int),
) -> PropView {
    PropView {
        model,
        x: b.x * 55000 + at.0,
        y: at.1,
        z: b.z * 40000 + at.2,
        turns,
        scale,
    }
}

/// A prop of a block at its own size.
pub open spec fn placed(b: Block, model: Model, at: (int, int, int), turns: int) -> PropView {
    sized(b, model, at, turns, (10000, 10000, 10000))
}

fn push_sized(
    out: &mut Vec<Prop>,
    b: Block,
    model: Model,
    at: (i64, i64, i64),
    turns: u8,
    scale: [i64; 3],
)
    requires
        -1_000_000 <= at.0 <= 1_000_000,
        -1_000_000 <= at.2 <= 1_000_000,
    ensures
        prop_views(final(out)@) == prop_views(old(out)@).push(
            sized(
                b,
                model,
                (at.0 as int, at.1 as int, at.2 as int),
                turns as int,
                (scale@[0] as int, scale@[1] as int, scale@[2] as int),
            ),
        ),
{
    let ghost before = out@;
    out.push(
        Prop {
            model,
            x: (b.x as i64) * 55000 + at.0,
            y: at.1,
            z: (b.z as i64) * 40000 + at.2,
            turns,
            scale,
        },
    );
    assert(prop_views(out@) =~= prop_views(before).push(out@.last()@));
}

fn push_prop(out: &mut Vec<Prop>, b: Block, model: Model, at: (i64, i64, i64), turns: u8)
    requires
        -1_000_000 <= at.0 <= 1_000_000,
        -1_000_000 <= at.2 <= 1_000_000,
    ensures
        prop_views(final(out)@) == prop_views(old(out)@).push(
            placed(b, model, (at.0 as int, at.1 as int, at.2 as int), turns as int),
        ),
{
    push_sized(out, b, model, at, turns, [10000i64, 10000, 10000]);
}

/// Building `k` of a block of houses: two rows that face each other.
pub open spec fn low_building(b: Block, k: int) -> PropView {
    if k % 2 == 0 {
        placed(b, Model::LowBuilding, ((1 + k / 2) * 18000, 0, 12500), 0)
    } else {
        placed(b, Model::LowBuilding, ((1 + k / 2) * 18000, 0, 27500), 2)
    }
}

/// Piece `k` of the fence between the houses.
pub open spec fn low_fence(b: Block, k: int) -> PropView {
    placed(b, Model::Fence, (27500, 0, 7500 + k * 4000), 1)
}

/// Tree `k` of the two rows beside the houses.
pub open spec fn low_tree(b: Block, k: int) -> PropView {
    placed(
        b,
        Model::TreeSmall,
        (if k % 2 == 0 {
            7500
        } else {
            47500
        }, 0, 7500 + (k / 2) * 3000),
        0,
    )
}

/// A block of houses.
pub open spec fn low_density(b: Block) -> Seq<PropView> {
    Seq::new(4, |k: int| low_building(b, k)) + Seq::new(7, |k: int| low_fence(b, k)) + Seq::new(
        18,
        |k: int| low_tree(b, k),
    )
}

/// Lays out a block of houses.
pub fn spawn_low_density(b: Block) -> (r: Vec<Prop>)
    ensures
        prop_views(r@) == low_density(b),
{
    let mut out: Vec<Prop> = Vec::new();
    let ghost plan = low_density(b);
    assert(prop_views(out@) =~= plan.take(0));
    for x in 1i64..3
        invariant
            plan == low_density(b),
            prop_views(out@) == plan.take(2 * (x - 1)),
    {
        push_prop(&mut out, b, Model::LowBuilding, (x * 18000, 0, 12500), 0);
        push_prop(&mut out, b, Model::LowBuilding, (x * 18000, 0, 27500), 2);
        assert(plan[2 * (x - 1)] == low_building(b, 2 * (x - 1)));
        assert(plan[2 * x - 1] == low_building(b, 2 * x - 1));
        assert(prop_views(out@) =~= plan.take(2 * x));
    }
    for i in 0i64..7
        invariant
            plan == low_density(b),
            prop_views(out@) == plan.take(4 + i),
    {
        push_prop(&mut out, b, Model::Fence, (27500, 0, 7500 + i * 4000), 1);
        assert(plan[4 + i] == low_fence(b, i as int));
        assert(prop_views(out@) =~= plan.take(5 + i));
    }
    for z in 0i64..9
        invariant
            plan == low_density(b),
            prop_views(out@) == plan.take(11 + 2 * z),
    {
        push_prop(&mut out, b, Model::TreeSmall, (7500, 0, 7500 + z * 3000), 0);
        push_prop(&mut out, b, Model::TreeSmall, (47500, 0, 7500 + z * 3000), 0);
        assert(plan[11 + 2 * z] == low_tree(b, 2 * z));
        assert(plan[12 + 2 * z] == low_tree(b, 2 * z + 1));
        assert(prop_views(out@) =~= plan.take(13 + 2 * z));
    }
    assert(plan.take(29) =~= plan);
    out
}

/// Tree `k` behind house `x` of a commercial block.
pub open spec fn medium_tree(b: Block, x: int, k: int) -> PropView {
    placed(
        b,
        Model::TreeLarge,
        (x * 9000 + (k / 2) * 5000, 0, if k % 2 == 0 {
            17500
        } else {
            22500
        }),
        0,
    )
}

/// House `x` of a commercial block, the trees behind it, and the house across. The last house has
/// fewer trees.
pub open spec fn medium_row(b: Block, x: int) -> Seq<PropView> {
    let trees: nat = if x == 5 {
        2
    } else {
        4
    };
    seq![placed(b, Model::MediumBuilding, (x * 9000, 0, 10000), 0)] + Seq::new(
        trees,
        |k: int| medium_tree(b, x, k),
    ) + seq![placed(b, Model::MediumBuilding, (x * 9000, 0, 30000), 2)]
}

/// The first `n` houses of a commercial block.
pub open spec fn medium_rows(b: Block, n: nat) -> Seq<PropView>
    decreases n,
{
    if n == 0 {
        seq![]
    } else {
        medium_rows(b, (n - 1) as nat) + medium_row(b, n as int)
    }
}

/// Piece `k` of the path through a commercial block: stones, and a fence on either side.
pub open spec fn medium_path(b: Block, k: int) -> PropView {
    let x = 7500 + (k / 3) * 4000;
    if k % 3 == 0 {
        sized(b, Model::PathStones, (x, 200, 20000), 1, (10000, 20000, 10000))
    } else if k % 3 == 1 {
        placed(b, Model::Fence, (x, 200, 18500), 0)
    } else {
        placed(b, Model::Fence, (x, 200, 21500), 0)
    }
}

/// A commercial block.
pub open spec fn medium_density(b: Block) -> Seq<PropView> {
    medium_rows(b, 5) + Seq::new(33, |k: int| medium_path(b, k))
}

fn push_medium_row(out: &mut Vec<Prop>, b: Block, x: i64)
    requires
        1 <= x <= 5,
    ensures
        prop_views(final(out)@) == prop_views(old(out)@) + medium_row(b, x as int),
{
    let ghost base = prop_views(out@);
    let ghost row = medium_row(b, x as int);
    push_prop(out, b, Model::MediumBuilding, (x * 9000, 0, 10000), 0);
    let pairs: i64 = if x == 5 {
        1
    } else {
        2
    };
    assert(prop_views(out@) =~= base + row.take(1));
    for t in 0i64..pairs
        invariant
            1 <= x <= 5,
            pairs == (if x == 5 {
                1int
            } else {
                2
            }),
            row == medium_row(b, x as int),
            prop_views(out@) == base + row.take(1 + 2 * t),
    {
        push_prop(out, b, Model::TreeLarge, (x * 9000 + t * 5000, 0, 17500), 0);
        push_prop(out, b, Model::TreeLarge, (x * 9000 + t * 5000, 0, 22500), 0);
        assert(row[1 + 2 * t] == medium_tree(b, x as int, 2 * t));
        assert(row[2 + 2 * t] == medium_tree(b, x as int, 2 * t + 1));
        assert(prop_views(out@) =~= base + row.take(3 + 2 * t));
    }
    push_prop(out, b, Model::MediumBuilding, (x * 9000, 0, 30000), 2);
    assert(prop_views(out@) =~= base + row);
}

/// Lays out a commercial block.
pub fn spawn_medium_density(b: Block) -> (r: Vec<Prop>)
    ensures
        prop_views(r@) == medium_density(b),
{
    let mut out: Vec<Prop> = Vec::new();
    assert(prop_views(out@) =~= medium_rows(b, 0));
    for x in 0i64..5
        invariant
            prop_views(out@) == medium_rows(b, x as nat),
    {
        push_medium_row(&mut out, b, x + 1);
    }
    let ghost rows = medium_rows(b, 5);
    let ghost path = Seq::new(33, |k: int| medium_path(b, k));
    assert(prop_views(out@) =~= rows + path.take(0));
    for x in 0i64..11
        invariant
            path == Seq::new(33, |k: int| medium_path(b, k)),
            prop_views(out@) == rows + path.take(3 * x),
    {
        push_sized(
            &mut out,
            b,
            Model::PathStones,
            (7500 + x * 4000, 200, 20000),
            1,
            [10000i64, 20000, 10000],
        );
        push_prop(&mut out, b, Model::Fence, (7500 + x * 4000, 200, 18500), 0);
        push_prop(&mut out, b, Model::Fence, (7500 + x * 4000, 200, 21500), 0);
        assert(path[3 * x] == medium_path(b, 3 * x));
        assert(path[3 * x + 1] == medium_path(b, 3 * x + 1));
        assert(path[3 * x + 2] == medium_path(b, 3 * x + 2));
        assert(prop_views(out@) =~= rows + path.take(3 * x + 3));
    }
    assert(path.take(33) =~= path);
    out
}

/// Skyscraper `k` of a block of them: two rows that face each other.
pub open spec fn high_building(b: Block, k: int) -> PropView {
    if k % 2 == 0 {
        placed(b, Model::HighBuilding, (12500 + (k / 2) * 15000, 0, 12500), 0)
    } else {
        placed(b, Model::HighBuilding, (12500 + (k / 2) * 15000, 0, 27500), 2)
    }
}

/// A block of skyscrapers.
pub open spec fn high_density(b: Block) -> Seq<PropView> {
    Seq::new(6, |k: int| high_building(b, k))
}

/// Lays out a block of skyscrapers.
pub fn spawn_high_density(b: Block) -> (r: Vec<Prop>)
    ensures
        prop_views(r@) == high_density(b),
{
    let mut out: Vec<Prop> = Vec::new();
    let ghost plan = high_density(b);
    assert(prop_views(out@) =~= plan.take(0));
    for x in 0i64..3
        invariant
            plan == high_density(b),
            prop_views(out@) == plan.take(2 * x),
    {
        push_prop(&mut out, b, Model::HighBuilding, (12500 + x * 15000, 0, 12500), 0);
        push_prop(&mut out, b, Model::HighBuilding, (12500 + x * 15000, 0, 27500), 2);
        assert(plan[2 * x] == high_building(b, 2 * x));
        assert(plan[2 * x + 1] == high_building(b, 2 * x + 1));
        assert(prop_views(out@) =~= plan.take(2 * x + 2));
    }
    assert(plan.take(6) =~= plan);
    out
}

/// A generator of random numbers: `rand::rngs::SmallRng`, of whose state nothing is known.
#[verifier::external_type_specification]
#[verifier::external_body]
pub struct ExSmallRng(rand::rngs::SmallRng);

/// A random number below `n`, by `rand::RngExt::random_range` on `0..n`: whatever comes back is
/// below `n`. The range must not be empty, else that function panics. Which number it is depends
/// on the generator's state, of which nothing is said.
#[verifier::external_body]
pub(crate) fn draw_below(rng: &mut rand::rngs::SmallRng, n: usize) -> (r: usize)
    requires
        n > 0,
    ensures
        r < n,
{
    rng.random_range(0..n)
}

/// Where tree `k` of a forest stands: nine to a column.
pub open spec fn forest_place(k: int) -> (int, int, int) {
    ((k / 9) * 3250 + 7500, 0, (k % 9) * 3000 + 8500)
}

/// A forest, from a draw for each place: one for a small tree, two for a large one, else none.
pub open spec fn forest(b: Block, draws: Seq<usize>) -> Seq<PropView>
    decreases draws.len(),
{
    if draws.len() == 0 {
        seq![]
    } else {
        let most = forest(b, draws.drop_last());
        let at = forest_place(draws.len() - 1);
        if draws.last() == 1 {
            most.push(placed(b, Model::TreeSmall, at, 0))
        } else if draws.last() == 2 {
            most.push(placed(b, Model::TreeLarge, at, 0))
        } else {
            most
        }
    }
}

/// Lays out a forest from the draws for its places.
pub fn plan_forest(b: Block, draws: &Vec<usize>) -> (r: Vec<Prop>)
    requires
        draws@.len() <= 117,
    ensures
        prop_views(r@) == forest(b, draws@),
{
    let mut out: Vec<Prop> = Vec::new();
    assert(prop_views(out@) =~= forest(b, draws@.take(0)));
    for k in 0..draws.len()
        invariant
            draws@.len() <= 117,
            prop_views(out@) == forest(b, draws@.take(k as int)),
    {
        assert(draws@.take(k + 1).drop_last() =~= draws@.take(k as int));
        let x: i64 = (k as i64 / 9) * 3250 + 7500;
        let z: i64 = (k as i64 % 9) * 3000 + 8500;
        if draws[k] == 1 {
            push_prop(&mut out, b, Model::TreeSmall, (x, 0, z), 0);
        } else if draws[k] == 2 {
            push_prop(&mut out, b, Model::TreeLarge, (x, 0, z), 0);
        }
    }
    assert(draws@.take(draws@.len() as int) =~= draws@);
    out
}

/// Whether draws are those of a forest: one for each of 13 by 9 places.
pub open spec fn forest_draws(draws: Seq<usize>) -> bool {
    draws.len() == 117 && forall|k: int| 0 <= k < draws.len() ==> #[trigger] draws[k] < 3
}

/// A random draw for each place of a forest.
pub fn draw_forest(rng: &mut rand::rngs::SmallRng) -> (r: Vec<usize>)
    ensures
        forest_draws(r@),
{
    let mut draws: Vec<usize> = Vec::new();
    for k in 0usize..117
        invariant
            draws@.len() == k,
            forall|k: int| 0 <= k < draws@.len() ==> #[trigger] draws@[k] < 3,
    {
        let d: usize = draw_below(rng, 3);
        draws.push(d);
    }
    draws
}

/// Lays out a forest, a random draw for each place.
pub fn spawn_forest(b: Block, rng: &mut rand::rngs::SmallRng) -> (r: Vec<Prop>)
    ensures
        exists|draws: Seq<usize>| #[trigger]
            forest_draws(draws) && prop_views(r@) == forest(b, draws),
{
    let draws = draw_forest(rng);
    assert(forest_draws(draws@));
    plan_forest(b, &draws)
}

/// How a block is built up.
#[derive(Clone, Copy, Debug, PartialEq, Eq, Structural)]
pub enum Zone {
    Forest,
    Low,
    Medium,
    High,
}

/// Whether the bits of a 64-bit float are no number.
pub open spec fn is_nan(bits: u64) -> bool {
    bits & 0x7fff_ffff_ffff_ffff > 0x7ff0_0000_0000_0000
}

/// The zone of a density, from its float bits: below 0.45 a forest, below 0.6 houses, below 0.7
/// commercial, else skyscrapers.
pub open spec fn zone_in(bits: u64) -> Zone {
    let rank = crate::report::float_rank(bits);
    if is_nan(bits) {
        Zone::High
    } else if rank < 0x3fdc_cccc_cccc_cccd {
        Zone::Forest
    } else if rank < 0x3fe3_3333_3333_3333 {
        Zone::Low
    } else if rank < 0x3fe6_6666_6666_6666 {
        Zone::Medium
    } else {
        Zone::High
    }
}

/// The zone of a density, from its float bits.
pub fn zone_of(bits: u64) -> (r: Zone)
    ensures
        r == zone_in(bits),
{
    if bits & 0x7fff_ffff_ffff_ffff > 0x7ff0_0000_0000_0000 {
        Zone::High
    } else if bits >= 0x8000_0000_0000_0000 || bits < 0x3fdc_cccc_cccc_cccd {
        Zone::Forest
    } else if bits < 0x3fe3_3333_3333_3333 {
        Zone::Low
    } else if bits < 0x3fe6_6666_6666_6666 {
        Zone::Medium
    } else {
        Zone::High
    }
}

/// The ground of a block: grass under trees and houses.
pub open spec fn ground(b: Block, zone: Zone) -> PropView {
    sized(
        b,
        if zone == Zone::Forest || zone == Zone::Low {
            Model::GrassTile
        } else {
            Model::RoadTile
        },
        (27500, -5, 20000),
        0,
        (45000, 10000, 30000),
    )
}

/// Lays the ground of a block.
pub fn spawn_ground(b: Block, zone: Zone) -> (r: Prop)
    ensures
        r@ == ground(b, zone),
{
    let model = if zone == Zone::Forest || zone == Zone::Low {
        Model::GrassTile
    } else {
        Model::RoadTile
    };
    Prop {
        model,
        x: (b.x as i64) * 55000 + 27500,
        y: -5,
        z: (b.z as i64) * 40000 + 20000,
        turns: 0,
        scale: [45000i64, 10000, 30000],
    }
}

/// What stands on a block: its ground, then what its zone builds. The draws are those of a forest.
pub open spec fn block_props(b: Block, zone: Zone, draws: Seq<usize>) -> Seq<PropView> {
    seq![ground(b, zone)] + (match zone {
        Zone::Forest => forest(b, draws),
        Zone::Low => low_density(b),
        Zone::Medium => medium_density(b),
        Zone::High => high_density(b),
    })
}

/// Whether props are what stands on a block, whatever was drawn for a forest.
pub open spec fn is_block(props: Seq<PropView>, b: Block, zone: Zone) -> bool {
    exists|draws: Seq<usize>| #[trigger]
        forest_draws(draws) && props == block_props(b, zone, draws)
}

/// Builds up a block from its density, as float bits, and the draws for the places of a forest.
pub fn plan_block(b: Block, density: u64, draws: &Vec<usize>) -> (r: Vec<Prop>)
    requires
        zone_in(density) == Zone::Forest ==> forest_draws(draws@),
    ensures
        prop_views(r@) == block_props(b, zone_in(density), draws@),
{
    let zone = zone_of(density);
    let mut out: Vec<Prop> = Vec::new();
    out.push(spawn_ground(b, zone));
    let mut rest = match zone {
        Zone::Forest => plan_forest(b, draws),
        Zone::Low => spawn_low_density(b),
        Zone::Medium => spawn_medium_density(b),
        Zone::High => spawn_high_density(b),
    };
    let ghost (first, more) = (out@, rest@);
    out.append(&mut rest);
    assert(prop_views(out@) =~= prop_views(first) + prop_views(more));
    assert(prop_views(out@) =~= block_props(b, zone, draws@));
    out
}

/// Builds up a block from its density, as float bits, with random draws where it is a forest.
pub fn spawn_block(b: Block, density: u64, rng: &mut rand::rngs::SmallRng) -> (r: Vec<Prop>)
    ensures
        is_block(prop_views(r@), b, zone_in(density)),
{
    match zone_of(density) {
        Zone::Forest => {
            let draws = draw_forest(rng);
            assert(forest_draws(draws@));
            plan_block(b, density, &draws)
        },
        _ => {
            let draws: Vec<usize> = Vec::new();
            let out = plan_block(b, density, &draws);
            proof {
                lemma_some_block(prop_views(out@), b, zone_in(density), draws@);
            }
            out
        },
    }
}

/// Only a forest is left to chance: a block of any other zone always holds the same props.
pub proof fn only_forests_are_drawn(p: Seq<PropView>, q: Seq<PropView>, b: Block, zone: Zone)
    requires
        zone != Zone::Forest,
        is_block(p, b, zone),
        is_block(q, b, zone),
    ensures
        p == q,
{
    let first = choose|draws: Seq<usize>| #[trigger]
        forest_draws(draws) && p == block_props(b, zone, draws);
    let second = choose|draws: Seq<usize>| #[trigger]
        forest_draws(draws) && q == block_props(b, zone, draws);
    assert(block_props(b, zone, first) == block_props(b, zone, second));
}

/// Whether a prop is a parent with its mesh below it: buildings and trees are, while roads,
/// fences, paths and ground tiles are single entities.
pub open spec fn two_levels(m: Model) -> bool {
    counted(m) == Counted::Building || counted(m) == Counted::Tree
}

/// An entity of the city: a mesh and a material of its own, or those of one child at its place.
pub struct Entity {
    pub own: Option<(String, String)>,
    pub child: Option<(String, String)>,
}

impl Entity {
    /// Whether the parts are a child's.
    pub open spec fn is_parent(self, parts: (String, String)) -> bool {
        self.own is None && self.child == Some(parts)
    }

    /// Whether the parts are the entity's own.
    pub open spec fn is_single(self, parts: (String, String)) -> bool {
        self.own == Some(parts) && self.child is None
    }
}

/// The entity of a prop.
pub fn spawn_prop(model: Model, parts: (String, String)) -> (r: Entity)
    ensures
        two_levels(model) ==> r.is_parent(parts),
        !two_levels(model) ==> r.is_single(parts),
{
    match model {
        Model::LowBuilding => spawn_two_level(parts),
        Model::MediumBuilding => spawn_two_level(parts),
        Model::HighBuilding => spawn_two_level(parts),
        Model::TreeSmall => spawn_two_level(parts),
        Model::TreeLarge => spawn_two_level(parts),
        _ => Entity { own: Some(parts), child: None },
    }
}

/// An entity with its mesh below it, as every car is.
pub fn spawn_two_level(parts: (String, String)) -> (r: Entity)
    ensures
        r.is_parent(parts),
{
    Entity { own: None, child: Some(parts) }
}

/// A car: where it starts on its road, its quarter turns, how far it has come, which way it
/// drives, the offset of its lane, and its size, the same in every direction.
#[derive(Clone, Copy, Debug, PartialEq, Eq)]
pub struct Car {
    pub x: i64,
    pub z: i64,
    pub turns: u8,
    pub distance_traveled: i64,
    pub forward: bool,
    pub offset: (i64, i64),
    pub scale: i64,
}

/// A car, in plain numbers.
pub ghost struct CarView {
    pub x: int,
    pub z: int,
    pub turns: int,
    pub distance_traveled: int,
    pub forward: bool,
    pub offset: (int, int),
    pub scale: int,
}

impl View for Car {
    type V = CarView;

    open spec fn view(&self) -> CarView {
        CarView {
            x: self.x as int,
            z: self.z as int,
            turns: self.turns as int,
            distance_traveled: self.distance_traveled as int,
            forward: self.forward,
            offset: (self.offset.0 as int, self.offset.1 as int),
            scale: self.scale as int,
        }
    }
}

/// Cars, in plain numbers.
pub open spec fn car_views(cars: Seq<Car>) -> Seq<CarView> {
    cars.map_values(|c: Car| c@)
}

/// Which way a road runs.
#[derive(Clone, Copy, Debug, PartialEq, Eq, Structural)]
pub enum Heading {
    AlongX,
    AlongZ,
}

/// How many places for cars each lane of a road has.
pub open spec fn lane_length(h: Heading) -> nat {
    match h {
        Heading::AlongX => 9,
        Heading::AlongZ => 6,
    }
}

/// The car at place `k` of a road: the places of its two lanes alternate, half a unit apart.
pub open spec fn car_at(h: Heading, k: int) -> CarView {
    let i = k / 2;
    let along = 7500 + i * 5000;
    match h {
        Heading::AlongX => if k % 2 == 0 {
            CarView {
                x: 0,
                z: along - 1500,
                turns: 3,
                distance_traveled: i * 5000,
                forward: false,
                offset: (42500, -1500),
                scale: 1500,
            }
        } else {
            CarView {
                x: 0,
                z: along + 1500,
                turns: 1,
                distance_traveled: i * 5000,
                forward: true,
                offset: (-2500, 1500),
                scale: 1500,
            }
        },
        Heading::AlongZ => if k % 2 == 0 {
            CarView {
                x: 1500,
                z: along,
                turns: 0,
                distance_traveled: i * 5000,
                forward: true,
                offset: (-1500, -2500),
                scale: 1500,
            }
        } else {
            CarView {
                x: -1500,
                z: along,
                turns: 2,
                distance_traveled: i * 5000,
                forward: false,
                offset: (1500, 27500),
                scale: 1500,
            }
        },
    }
}

fn make_car(h: Heading, k: usize) -> (r: Car)
    requires
        k < 18,
    ensures
        r@ == car_at(h, k as int),
{
    let i: i64 = k as i64 / 2;
    let along: i64 = 7500 + i * 5000;
    let distance_traveled: i64 = i * 5000;
    match h {
        Heading::AlongX => if k % 2 == 0 {
            Car {
                x: 0,
                z: along - 1500,
                turns: 3,
                distance_traveled,
                forward: false,
                offset: (42500, -1500),
                scale: 1500,
            }
        } else {
            Car {
                x: 0,
                z: along + 1500,
                turns: 1,
                distance_traveled,
                forward: true,
                offset: (-2500, 1500),
                scale: 1500,
            }
        },
        Heading::AlongZ => if k % 2 == 0 {
            Car {
                x: 1500,
                z: along,
                turns: 0,
                distance_traveled,
                forward: true,
                offset: (-1500, -2500),
                scale: 1500,
            }
        } else {
            Car {
                x: -1500,
                z: along,
                turns: 2,
                distance_traveled,
                forward: false,
                offset: (1500, 27500),
                scale: 1500,
            }
        },
    }
}

/// The cars at those places of a road that are taken.
pub open spec fn cars_at(h: Heading, taken: Seq<bool>) -> Seq<CarView>
    decreases taken.len(),
{
    if taken.len() == 0 {
        seq![]
    } else if taken.last() {
        cars_at(h, taken.drop_last()).push(car_at(h, taken.len() - 1))
    } else {
        cars_at(h, taken.drop_last())
    }
}

/// A road of a block: the stretch that cars drive, its one stretched piece, placed from the
/// block's crossroad, and its cars.
pub struct Road {
    pub start: (i64, i64),
    pub end: (i64, i64),
    pub piece: Prop,
    pub cars: Vec<Car>,
}

/// The block that lengths are measured from.
pub open spec fn origin() -> Block {
    Block { x: 0, z: 0 }
}

/// Where a road's cars drive, from the block's crossroad.
pub open spec fn road_ends(h: Heading) -> ((int, int), (int, int)) {
    match h {
        Heading::AlongX => ((7500, 0), (52500, 0)),
        Heading::AlongZ => ((0, 7500), (0, 37500)),
    }
}

/// The piece of a road.
pub open spec fn road_piece(h: Heading) -> PropView {
    match h {
        Heading::AlongX => sized(
            origin(),
            Model::RoadStraight,
            (27500, 0, 0),
            0,
            (45000, 10000, 10000),
        ),
        Heading::AlongZ => sized(
            origin(),
            Model::RoadStraight,
            (0, 0, 20000),
            1,
            (30000, 10000, 10000),
        ),
    }
}

/// Lays out a road with cars at the places that are taken.
pub fn plan_road(h: Heading, taken: &Vec<bool>) -> (r: Road)
    requires
        taken@.len() == 2 * lane_length(h),
    ensures
        r.start.0 == road_ends(h).0.0 && r.start.1 == road_ends(h).0.1,
        r.end.0 == road_ends(h).1.0 && r.end.1 == road_ends(h).1.1,
        r.piece@ == road_piece(h),
        car_views(r.cars@) == cars_at(h, taken@),
{
    let mut cars: Vec<Car> = Vec::new();
    assert(car_views(cars@) =~= cars_at(h, taken@.take(0)));
    for k in 0..taken.len()
        invariant
            taken@.len() <= 18,
            car_views(cars@) == cars_at(h, taken@.take(k as int)),
    {
        assert(taken@.take(k + 1).drop_last() =~= taken@.take(k as int));
        if taken[k] {
            let ghost before = cars@;
            cars.push(make_car(h, k));
            assert(car_views(cars@) =~= car_views(before).push(car_at(h, k as int)));
        }
    }
    assert(taken@.take(taken@.len() as int) =~= taken@);
    match h {
        Heading::AlongX => Road {
            start: (7500, 0),
            end: (52500, 0),
            piece: Prop {
                model: Model::RoadStraight,
                x: 27500,
                y: 0,
                z: 0,
                turns: 0,
                scale: [45000i64, 10000, 10000],
            },
            cars,
        },
        Heading::AlongZ => Road {
            start: (0, 7500),
            end: (0, 37500),
            piece: Prop {
                model: Model::RoadStraight,
                x: 0,
                y: 0,
                z: 20000,
                turns: 1,
                scale: [30000i64, 10000, 10000],
            },
            cars,
        },
    }
}

/// The roads of a block: its crossroad, and a road either way.
pub struct Roads {
    pub crossroad: Prop,
    pub along_x: Road,
    pub along_z: Road,
}

/// Whether roads are those of a block: its crossroad, and its two roads with the cars on them.
pub open spec fn are_roads(r: Roads, b: Block, taken_x: Seq<bool>, taken_z: Seq<bool>) -> bool {
    &&& r.crossroad@ == placed(b, Model::Crossroad, (0, 0, 0), 0)
    &&& r.along_x.piece@ == road_piece(Heading::AlongX)
    &&& r.along_z.piece@ == road_piece(Heading::AlongZ)
    &&& r.along_x.start.0 == 7500 && r.along_x.start.1 == 0
    &&& r.along_x.end.0 == 52500 && r.along_x.end.1 == 0
    &&& r.along_z.start.0 == 0 && r.along_z.start.1 == 7500
    &&& r.along_z.end.0 == 0 && r.along_z.end.1 == 37500
    &&& car_views(r.along_x.cars@) == cars_at(Heading::AlongX, taken_x)
    &&& car_views(r.along_z.cars@) == cars_at(Heading::AlongZ, taken_z)
}

/// Lays out the roads of a block with the cars that are on them.
pub fn spawn_roads_and_cars(b: Block, taken_x: &Vec<bool>, taken_z: &Vec<bool>) -> (r: Roads)
    requires
        taken_x@.len() == 18,
        taken_z@.len() == 12,
    ensures
        are_roads(r, b, taken_x@, taken_z@),
{
    Roads {
        crossroad: Prop {
            model: Model::Crossroad,
            x: (b.x as i64) * 55000,
            y: 0,
            z: (b.z as i64) * 40000,
            turns: 0,
            scale: [10000i64, 10000, 10000],
        },
        along_x: plan_road(Heading::AlongX, taken_x),
        along_z: plan_road(Heading::AlongZ, taken_z),
    }
}

proof fn lemma_cars_start(h: Heading, taken: Seq<bool>, c: int)
    requires
        taken.len() <= 2 * lane_length(h),
        0 <= c < cars_at(h, taken).len(),
    ensures
        exists|k: int|
            0 <= k < taken.len() && taken[k] && #[trigger] car_at(h, k) == cars_at(h, taken)[c],
    decreases taken.len(),
{
    let most = cars_at(h, taken.drop_last());
    if c < most.len() {
        lemma_cars_start(h, taken.drop_last(), c);
        let k = choose|k: int|
            0 <= k < taken.drop_last().len() && taken.drop_last()[k] && #[trigger] car_at(h, k)
                == most[c];
        assert(taken[k]);
        assert(car_at(h, k) == cars_at(h, taken)[c]);
    } else {
        assert(car_at(h, taken.len() - 1) == cars_at(h, taken)[c]);
    }
}

/// No car starts beyond the end of its road.
pub proof fn cars_start_on_their_road(h: Heading, taken: Seq<bool>, c: int)
    requires
        taken.len() == 2 * lane_length(h),
        0 <= c < cars_at(h, taken).len(),
    ensures
        ({
            let (start, end) = road_ends(h);
            0 <= cars_at(h, taken)[c].distance_traveled < end.0 - start.0 + (end.1 - start.1)
        }),
{
    lemma_cars_start(h, taken, c);
}

/// The blocks of a column of a city, from end to end.
pub open spec fn block_column(size: int, i: int) -> Seq<Block> {
    Seq::new(
        size as nat,
        |j: int| Block { x: (i - size / 2) as i32, z: (j - size / 2) as i32 },
    )
}

/// The blocks of the first columns of a city of `size` blocks per side.
pub open spec fn blocks_before(size: int, columns: nat) -> Seq<Block>
    decreases columns,
{
    if columns == 0 {
        seq![]
    } else {
        blocks_before(size, (columns - 1) as nat) + block_column(size, columns - 1)
    }
}

/// The first columns of a city hold as many blocks as a column does, each.
proof fn lemma_block_count(size: int, columns: nat)
    requires
        0 <= size,
    ensures
        blocks_before(size, columns).len() == size * columns,
    decreases columns,
{
    if columns > 0 {
        lemma_block_count(size, (columns - 1) as nat);
        assert(size * columns == size * (columns - 1) + size) by (nonlinear_arith);
    } else {
        assert(size * 0 == 0);
    }
}

/// The blocks of a city of `size` blocks per side, about the centre.
pub fn list_blocks(size: u32) -> (r: Vec<Block>)
    ensures
        r@ == blocks_before(size as int, size as nat),
        r@.len() == size * size,
{
    let half: i64 = (size / 2) as i64;
    let mut out: Vec<Block> = Vec::new();
    for i in 0u32..size
        invariant
            half == size as int / 2,
            out@ == blocks_before(size as int, i as nat),
    {
        let ghost before = out@;
        let ghost column = block_column(size as int, i as int);
        assert(out@ =~= before + column.take(0));
        for j in 0u32..size
            invariant
                half == size as int / 2,
                0 <= i < size,
                column == block_column(size as int, i as int),
                out@ == before + column.take(j as int),
        {
            let (x, z): (i64, i64) = (i as i64 - half, j as i64 - half);
            out.push(Block { x: x as i32, z: z as i32 });
            assert(out@ =~= before + column.take(j + 1));
        }
        assert(column.take(size as int) =~= column);
        assert(out@ =~= blocks_before(size as int, (i + 1) as nat));
    }
    proof {
        lemma_block_count(size as int, size as nat);
    }
    out
}

/// A city has a block in every column and row of its square.
pub proof fn blocks_fill_the_square(size: u32, i: int, j: int)
    requires
        0 <= i < size,
        0 <= j < size,
    ensures
        blocks_before(size as int, size as nat)[i * size + j].x == i - size as int / 2,
        blocks_before(size as int, size as nat)[i * size + j].z == j - size as int / 2,
{
    lemma_block_at(size as int, size as nat, i, j);
}

proof fn lemma_block_at(size: int, columns: nat, i: int, j: int)
    requires
        0 <= size <= u32::MAX,
        columns <= size,
        0 <= i < columns,
        0 <= j < size,
    ensures
        0 <= i * size + j < blocks_before(size, columns).len(),
        blocks_before(size, columns)[i * size + j] == block_column(size, i)[j],
    decreases columns,
{
    let before = blocks_before(size, (columns - 1) as nat);
    lemma_block_count(size, (columns - 1) as nat);
    lemma_block_count(size, columns);
    if i < columns - 1 {
        lemma_block_at(size, (columns - 1) as nat, i, j);
        assert(size * (columns - 1) <= size * columns) by (nonlinear_arith)
            requires
                0 <= size,
        ;
    } else {
        assert(i * size == size * (columns - 1)) by (nonlinear_arith)
            requires
                i == columns - 1,
        ;
        assert(size * columns == size * (columns - 1) + size) by (nonlinear_arith);
    }
}

/// What the city's statistics count.
#[derive(Clone, Copy, Debug, PartialEq, Eq, Structural)]
pub enum Counted {
    Building,
    Tree,
    Fence,
    Path,
    Road,
    GroundTile,
}

/// What a model counts as.
pub open spec fn counted(m: Model) -> Counted {
    match m {
        Model::Crossroad => Counted::Road,
        Model::RoadStraight => Counted::Road,
        Model::GrassTile => Counted::GroundTile,
        Model::RoadTile => Counted::GroundTile,
        Model::LowBuilding => Counted::Building,
        Model::MediumBuilding => Counted::Building,
        Model::HighBuilding => Counted::Building,
        Model::TreeSmall => Counted::Tree,
        Model::TreeLarge => Counted::Tree,
        Model::Fence => Counted::Fence,
        Model::PathStones => Counted::Path,
    }
}

/// How many props count as `c`.
pub open spec fn count(props: Seq<PropView>, c: Counted) -> nat
    decreases props.len(),
{
    if props.len() == 0 {
        0
    } else {
        count(props.drop_last(), c) + (if counted(props.last().model) == c {
            1nat
        } else {
            0
        })
    }
}

/// What a city holds.
#[derive(Clone, Copy, Debug, PartialEq, Eq)]
pub struct CityStats {
    pub buildings: u32,
    pub trees: u32,
    pub cars: u32,
    pub fences: u32,
    pub paths: u32,
    pub roads: u32,
    pub ground_tile: u32,
}

impl Default for CityStats {
    fn default() -> (r: CityStats)
        ensures
            r == (CityStats {
                buildings: 0,
                trees: 0,
                cars: 0,
                fences: 0,
                paths: 0,
                roads: 0,
                ground_tile: 0,
            }),
    {
        CityStats {
            buildings: 0,
            trees: 0,
            cars: 0,
            fences: 0,
            paths: 0,
            roads: 0,
            ground_tile: 0,
        }
    }
}

/// Whether `n` more of anything can be counted.
pub open spec fn has_room(s: CityStats, n: nat) -> bool {
    &&& s.buildings + n <= u32::MAX
    &&& s.trees + n <= u32::MAX
    &&& s.cars + n <= u32::MAX
    &&& s.fences + n <= u32::MAX
    &&& s.paths + n <= u32::MAX
    &&& s.roads + n <= u32::MAX
    &&& s.ground_tile + n <= u32::MAX
}

/// Whether statistics grew by props and nothing else.
pub open spec fn grew(before: CityStats, after: CityStats, props: Seq<PropView>) -> bool {
    &&& after.buildings == before.buildings + count(props, Counted::Building)
    &&& after.trees == before.trees + count(props, Counted::Tree)
    &&& after.fences == before.fences + count(props, Counted::Fence)
    &&& after.paths == before.paths + count(props, Counted::Path)
    &&& after.roads == before.roads + count(props, Counted::Road)
    &&& after.ground_tile == before.ground_tile + count(props, Counted::GroundTile)
    &&& after.cars == before.cars
}

/// No more props count as anything than there are.
pub(crate) proof fn lemma_count_len(props: Seq<PropView>, c: Counted)
    ensures
        count(props, c) <= props.len(),
    decreases props.len(),
{
    if props.len() > 0 {
        lemma_count_len(props.drop_last(), c);
    }
}

impl CityStats {
    fn add_one(&mut self, m: Model)
        requires
            has_room(*old(self), 1),
        ensures
            ({
                let c = counted(m);
                let one = |k: Counted| -> int
                    {
                        if c == k {
                            1int
                        } else {
                            0
                        }
                    };
                &&& final(self).buildings == old(self).buildings + one(Counted::Building)
                &&& final(self).trees == old(self).trees + one(Counted::Tree)
                &&& final(self).fences == old(self).fences + one(Counted::Fence)
                &&& final(self).paths == old(self).paths + one(Counted::Path)
                &&& final(self).roads == old(self).roads + one(Counted::Road)
                &&& final(self).ground_tile == old(self).ground_tile + one(Counted::GroundTile)
                &&& final(self).cars == old(self).cars
            }),
    {
        match m {
            Model::Crossroad => self.roads = self.roads + 1,
            Model::RoadStraight => self.roads = self.roads + 1,
            Model::GrassTile => self.ground_tile = self.ground_tile + 1,
            Model::RoadTile => self.ground_tile = self.ground_tile + 1,
            Model::LowBuilding => self.buildings = self.buildings + 1,
            Model::MediumBuilding => self.buildings = self.buildings + 1,
            Model::HighBuilding => self.buildings = self.buildings + 1,
            Model::TreeSmall => self.trees = self.trees + 1,
            Model::TreeLarge => self.trees = self.trees + 1,
            Model::Fence => self.fences = self.fences + 1,
            Model::PathStones => self.paths = self.paths + 1,
        }
    }

    /// Counts props.
    pub fn add_props(&mut self, props: &Vec<Prop>)
        requires
            has_room(*old(self), props@.len()),
        ensures
            grew(*old(self), *final(self), prop_views(props@)),
    {
        let ghost before = *self;
        let ghost all = prop_views(props@);
        for i in 0..props.len()
            invariant
                all == prop_views(props@),
                has_room(before, props@.len()),
                grew(before, *self, all.take(i as int)),
        {
            proof {
                lemma_count_len(all.take(i as int), Counted::Building);
                lemma_count_len(all.take(i as int), Counted::Tree);
                lemma_count_len(all.take(i as int), Counted::Fence);
                lemma_count_len(all.take(i as int), Counted::Path);
                lemma_count_len(all.take(i as int), Counted::Road);
                lemma_count_len(all.take(i as int), Counted::GroundTile);
                assert(all.take(i + 1).drop_last() =~= all.take(i as int));
                assert(all.take(i + 1).last().model == props@[i as int].model);
            }
            self.add_one(props[i].model);
        }
        assert(all.take(props@.len() as int) =~= all);
    }

    /// Counts the crossroad, the roads and the cars of a block.
    pub fn add_roads(&mut self, roads: &Roads)
        requires
            old(self).roads + 3 <= u32::MAX,
            old(self).cars + roads.along_x.cars@.len() + roads.along_z.cars@.len() <= u32::MAX,
        ensures
            *final(self) == (CityStats {
                roads: (old(self).roads + 3) as u32,
                cars: (old(self).cars + roads.along_x.cars@.len() + roads.along_z.cars@.len()) as u32,
                ..*old(self)
            }),
    {
        self.roads = self.roads + 3;
        self.cars = self.cars + roads.along_x.cars.len() as u32;
        self.cars = self.cars + roads.along_z.cars.len() as u32;
    }
}

proof fn lemma_count_join(a: Seq<PropView>, b: Seq<PropView>, c: Counted)
    ensures
        count(a + b, c) == count(a, c) + count(b, c),
    decreases b.len(),
{
    if b.len() == 0 {
        assert(a + b =~= a);
    } else {
        lemma_count_join(a, b.drop_last(), c);
        assert((a + b).drop_last() =~= a + b.drop_last());
    }
}

/// Props that all count as one thing.
proof fn lemma_count_alike(props: Seq<PropView>, kind: Counted, c: Counted)
    requires
        forall|k: int| 0 <= k < props.len() ==> counted((#[trigger] props[k]).model) == kind,
    ensures
        count(props, c) == (if c == kind {
            props.len()
        } else {
            0
        }),
    decreases props.len(),
{
    if props.len() > 0 {
        lemma_count_alike(props.drop_last(), kind, c);
        assert(props[props.len() - 1] == props.last());
    }
}

/// A block of houses has four of them, seven pieces of fence and eighteen trees.
pub proof fn low_density_counts(b: Block)
    ensures
        count(low_density(b), Counted::Building) == 4,
        count(low_density(b), Counted::Fence) == 7,
        count(low_density(b), Counted::Tree) == 18,
        low_density(b).len() == 29,
{
    let houses = Seq::new(4, |k: int| low_building(b, k));
    let fences = Seq::new(7, |k: int| low_fence(b, k));
    let trees = Seq::new(18, |k: int| low_tree(b, k));
    lemma_three_counts(
        houses,
        Counted::Building,
        fences,
        Counted::Fence,
        trees,
        Counted::Tree,
    );
}

proof fn lemma_three_counts(
    a: Seq<PropView>,
    ka: Counted,
    b: Seq<PropView>,
    kb: Counted,
    c: Seq<PropView>,
    kc: Counted,
)
    requires
        ka != kb && kb != kc && ka != kc,
        forall|k: int| 0 <= k < a.len() ==> counted((#[trigger] a[k]).model) == ka,
        forall|k: int| 0 <= k < b.len() ==> counted((#[trigger] b[k]).model) == kb,
        forall|k: int| 0 <= k < c.len() ==> counted((#[trigger] c[k]).model) == kc,
    ensures
        count(a + b + c, ka) == a.len(),
        count(a + b + c, kb) == b.len(),
        count(a + b + c, kc) == c.len(),
{
    lemma_count_join(a + b, c, ka);
    lemma_count_join(a + b, c, kb);
    lemma_count_join(a + b, c, kc);
    lemma_count_join(a, b, ka);
    lemma_count_join(a, b, kb);
    lemma_count_join(a, b, kc);
    lemma_count_alike(a, ka, ka);
    lemma_count_alike(a, ka, kb);
    lemma_count_alike(a, ka, kc);
    lemma_count_alike(b, kb, ka);
    lemma_count_alike(b, kb, kb);
    lemma_count_alike(b, kb, kc);
    lemma_count_alike(c, kc, ka);
    lemma_count_alike(c, kc, kb);
    lemma_count_alike(c, kc, kc);
}

proof fn lemma_medium_row(b: Block, x: int, c: Counted)
    ensures
        count(medium_row(b, x), c) == (if c == Counted::Building {
            2nat
        } else if c == Counted::Tree {
            if x == 5 {
                2nat
            } else {
                4
            }
        } else {
            0
        }),
{
    let first = seq![placed(b, Model::MediumBuilding, (x * 9000, 0, 10000), 0)];
    let trees = Seq::new(
        if x == 5 {
            2nat
        } else {
            4
        },
        |k: int| medium_tree(b, x, k),
    );
    let last = seq![placed(b, Model::MediumBuilding, (x * 9000, 0, 30000), 2)];
    lemma_count_join(first + trees, last, c);
    lemma_count_join(first, trees, c);
    lemma_count_alike(first, Counted::Building, c);
    lemma_count_alike(trees, Counted::Tree, c);
    lemma_count_alike(last, Counted::Building, c);
}

proof fn lemma_medium_rows(b: Block, n: nat, c: Counted)
    requires
        n <= 5,
    ensures
        count(medium_rows(b, n), c) == (if c == Counted::Building {
            2 * n
        } else if c == Counted::Tree {
            if n == 5 {
                18nat
            } else {
                4 * n
            }
        } else {
            0
        }),
    decreases n,
{
    if n > 0 {
        lemma_medium_rows(b, (n - 1) as nat, c);
        lemma_medium_row(b, n as int, c);
        lemma_count_join(medium_rows(b, (n - 1) as nat), medium_row(b, n as int), c);
    }
}

proof fn lemma_path_counts(b: Block, n: nat, c: Counted)
    ensures
        count(Seq::new(3 * n, |k: int| medium_path(b, k)), c) == (if c == Counted::Path {
            n
        } else if c == Counted::Fence {
            2 * n
        } else {
            0
        }),
    decreases n,
{
    let path = Seq::new(3 * n, |k: int| medium_path(b, k));
    if n > 0 {
        let m = (n - 1) as nat;
        lemma_path_counts(b, m, c);
        let shorter = Seq::new(3 * m, |k: int| medium_path(b, k));
        assert(path.drop_last().drop_last().drop_last() =~= shorter);
        assert(path.last() == medium_path(b, (3 * m + 2) as int));
        assert(path.drop_last().last() == medium_path(b, (3 * m + 1) as int));
        assert(path.drop_last().drop_last().last() == medium_path(b, (3 * m) as int));
        assert(count(path, c) == count(path.drop_last(), c) + (if c == Counted::Fence {
            1nat
        } else {
            0
        }));
        assert(count(path.drop_last(), c) == count(path.drop_last().drop_last(), c) + (if c
            == Counted::Fence {
            1nat
        } else {
            0
        }));
        assert(count(path.drop_last().drop_last(), c) == count(shorter, c) + (if c
            == Counted::Path {
            1nat
        } else {
            0
        }));
    }
}

/// A commercial block has ten buildings, eighteen trees, eleven stones and twice as many pieces
/// of fence.
pub proof fn medium_density_counts(b: Block)
    ensures
        count(medium_density(b), Counted::Building) == 10,
        count(medium_density(b), Counted::Tree) == 18,
        count(medium_density(b), Counted::Path) == 11,
        count(medium_density(b), Counted::Fence) == 22,
{
    let rows = medium_rows(b, 5);
    let path = Seq::new(33, |k: int| medium_path(b, k));
    assert(path =~= Seq::new(3 * 11nat, |k: int| medium_path(b, k)));
    lemma_count_join(rows, path, Counted::Building);
    lemma_count_join(rows, path, Counted::Tree);
    lemma_count_join(rows, path, Counted::Path);
    lemma_count_join(rows, path, Counted::Fence);
    lemma_medium_rows(b, 5, Counted::Building);
    lemma_medium_rows(b, 5, Counted::Tree);
    lemma_medium_rows(b, 5, Counted::Path);
    lemma_medium_rows(b, 5, Counted::Fence);
    lemma_path_counts(b, 11, Counted::Building);
    lemma_path_counts(b, 11, Counted::Tree);
    lemma_path_counts(b, 11, Counted::Path);
    lemma_path_counts(b, 11, Counted::Fence);
}

/// A block of skyscrapers has six of them, and nothing else.
pub proof fn high_density_counts(b: Block)
    ensures
        count(high_density(b), Counted::Building) == 6,
        high_density(b).len() == 6,
{
    lemma_count_alike(high_density(b), Counted::Building, Counted::Building);
}

/// A forest has trees only, no more than it has places.
pub proof fn forests_are_trees(b: Block, draws: Seq<usize>)
    ensures
        count(forest(b, draws), Counted::Tree) == forest(b, draws).len(),
        forest(b, draws).len() <= draws.len(),
    decreases draws.len(),
{
    if draws.len() > 0 {
        forests_are_trees(b, draws.drop_last());
        let most = forest(b, draws.drop_last());
        let all = forest(b, draws);
        if all.len() > most.len() {
            assert(all.drop_last() =~= most);
        }
    }
}

/// How many cars the taken slots of a block's roads hold.
pub open spec fn car_count(taken_x: Seq<bool>, taken_z: Seq<bool>) -> nat {
    cars_at(Heading::AlongX, taken_x).len() + cars_at(Heading::AlongZ, taken_z).len()
}

/// A road has no more cars than taken slots: none where none is taken, one for each where all are.
pub(crate) proof fn lemma_car_count(h: Heading, taken: Seq<bool>)
    ensures
        cars_at(h, taken).len() <= taken.len(),
        (forall|k: int| 0 <= k < taken.len() ==> !#[trigger] taken[k]) ==> cars_at(h, taken).len()
            == 0,
        (forall|k: int| 0 <= k < taken.len() ==> #[trigger] taken[k]) ==> cars_at(h, taken).len()
            == taken.len(),
    decreases taken.len(),
{
    if taken.len() > 0 {
        lemma_car_count(h, taken.drop_last());
        if forall|k: int| 0 <= k < taken.len() ==> #[trigger] taken[k] {
            assert forall|k: int| 0 <= k < taken.drop_last().len() implies #[trigger] taken.drop_last()[k] by {
                assert(taken[k]);
            }
            assert(taken[taken.len() - 1]);
        }
        if forall|k: int| 0 <= k < taken.len() ==> !#[trigger] taken[k] {
            assert forall|k: int| 0 <= k < taken.drop_last().len() implies !#[trigger] taken.drop_last()[k] by {
                assert(!taken[k]);
            }
            assert(!taken[taken.len() - 1]);
        }
    }
}

/// A block holds one ground tile and no road, and no more than a forest has places besides.
pub(crate) proof fn lemma_block_counts(props: Seq<PropView>, b: Block, zone: Zone)
    requires
        is_block(props, b, zone),
    ensures
        props.len() <= 118,
        count(props, Counted::GroundTile) == 1,
        count(props, Counted::Road) == 0,
{
    let draws = choose|draws: Seq<usize>| #[trigger]
        forest_draws(draws) && props == block_props(b, zone, draws);
    let first = seq![ground(b, zone)];
    let rest = props.skip(1);
    assert(props =~= first + rest);
    lemma_count_join(first, rest, Counted::GroundTile);
    lemma_count_join(first, rest, Counted::Road);
    lemma_count_alike(first, Counted::GroundTile, Counted::GroundTile);
    lemma_count_alike(first, Counted::GroundTile, Counted::Road);
    match zone {
        Zone::Forest => {
            assert(rest =~= forest(b, draws));
            lemma_forest_alike(b, draws);
            forests_are_trees(b, draws);
            lemma_count_alike(rest, Counted::Tree, Counted::GroundTile);
            lemma_count_alike(rest, Counted::Tree, Counted::Road);
        },
        Zone::Low => {
            assert(rest =~= low_density(b));
            let houses = Seq::new(4, |k: int| low_building(b, k));
            let fences = Seq::new(7, |k: int| low_fence(b, k));
            let trees = Seq::new(18, |k: int| low_tree(b, k));
            lemma_none_of_three(houses, fences, trees, Counted::GroundTile);
            lemma_none_of_three(houses, fences, trees, Counted::Road);
        },
        Zone::Medium => {
            assert(rest =~= medium_density(b));
            let rows = medium_rows(b, 5);
            let path = Seq::new(33, |k: int| medium_path(b, k));
            assert(path =~= Seq::new(3 * 11nat, |k: int| medium_path(b, k)));
            lemma_count_join(rows, path, Counted::GroundTile);
            lemma_count_join(rows, path, Counted::Road);
            lemma_medium_rows(b, 5, Counted::GroundTile);
            lemma_medium_rows(b, 5, Counted::Road);
            lemma_path_counts(b, 11, Counted::GroundTile);
            lemma_path_counts(b, 11, Counted::Road);
            reveal_with_fuel(medium_rows, 6);
        },
        Zone::High => {
            assert(rest =~= high_density(b));
            lemma_count_alike(rest, Counted::Building, Counted::GroundTile);
            lemma_count_alike(rest, Counted::Building, Counted::Road);
        },
    }
}

proof fn lemma_none_of_three(a: Seq<PropView>, b: Seq<PropView>, c: Seq<PropView>, k: Counted)
    requires
        k == Counted::GroundTile || k == Counted::Road,
        forall|i: int| 0 <= i < a.len() ==> counted((#[trigger] a[i]).model) == Counted::Building,
        forall|i: int| 0 <= i < b.len() ==> counted((#[trigger] b[i]).model) == Counted::Fence,
        forall|i: int| 0 <= i < c.len() ==> counted((#[trigger] c[i]).model) == Counted::Tree,
    ensures
        count(a + b + c, k) == 0,
{
    lemma_count_join(a + b, c, k);
    lemma_count_join(a, b, k);
    lemma_count_alike(a, Counted::Building, k);
    lemma_count_alike(b, Counted::Fence, k);
    lemma_count_alike(c, Counted::Tree, k);
}

proof fn lemma_forest_alike(b: Block, draws: Seq<usize>)
    ensures
        forall|i: int|
            0 <= i < forest(b, draws).len() ==> counted((#[trigger] forest(b, draws)[i]).model)
                == Counted::Tree,
    decreases draws.len(),
{
    if draws.len() > 0 {
        lemma_forest_alike(b, draws.drop_last());
        let most = forest(b, draws.drop_last());
        let all = forest(b, draws);
        assert forall|i: int| 0 <= i < all.len() implies counted((#[trigger] all[i]).model)
            == Counted::Tree by {
            if i < most.len() {
                assert(all[i] == most[i]);
            }
        }
    }
}

/// A block with its roads.
pub struct BlockPlan {
    pub roads: Roads,
    pub props: Vec<Prop>,
}

/// Whether statistics grew by one block with `cars` cars and `props`, and by nothing else: a block
/// has a crossroad, two roads and one ground tile.
pub open spec fn grew_by_block(
    before: CityStats,
    after: CityStats,
    cars: nat,
    props: Seq<PropView>,
) -> bool {
    &&& after.roads == before.roads + 3
    &&& after.ground_tile == before.ground_tile + 1
    &&& after.cars == before.cars + cars
    &&& after.buildings == before.buildings + count(props, Counted::Building)
    &&& after.trees == before.trees + count(props, Counted::Tree)
    &&& after.fences == before.fences + count(props, Counted::Fence)
    &&& after.paths == before.paths + count(props, Counted::Path)
}

/// What draws lay out is a block, whatever is drawn for one that is no forest.
pub(crate) proof fn lemma_some_block(props: Seq<PropView>, b: Block, zone: Zone, draws: Seq<usize>)
    requires
        zone == Zone::Forest ==> forest_draws(draws),
        props == block_props(b, zone, draws),
    ensures
        is_block(props, b, zone),
{
    if zone == Zone::Forest {
        assert(forest_draws(draws));
    } else {
        let some = Seq::new(117, |k: int| 0usize);
        assert(forest_draws(some));
        assert(props == block_props(b, zone, some));
    }
}

/// Lays out one block of a city, its roads and what stands on it, from the draws for the places of
/// a forest, and counts it all.
pub fn lay_block(
    b: Block,
    taken_x: &Vec<bool>,
    taken_z: &Vec<bool>,
    density: u64,
    draws: &Vec<usize>,
    stats: &mut CityStats,
) -> (r: BlockPlan)
    requires
        taken_x@.len() == 18,
        taken_z@.len() == 12,
        zone_in(density) == Zone::Forest ==> forest_draws(draws@),
        has_room(*old(stats), 118),
    ensures
        are_roads(r.roads, b, taken_x@, taken_z@),
        prop_views(r.props@) == block_props(b, zone_in(density), draws@),
        grew_by_block(
            *old(stats),
            *final(stats),
            car_count(taken_x@, taken_z@),
            prop_views(r.props@),
        ),
{
    let roads = spawn_roads_and_cars(b, taken_x, taken_z);
    proof {
        lemma_car_count(Heading::AlongX, taken_x@);
        lemma_car_count(Heading::AlongZ, taken_z@);
        assert(roads.along_x.cars@.len() == car_views(roads.along_x.cars@).len());
        assert(roads.along_z.cars@.len() == car_views(roads.along_z.cars@).len());
    }
    let props = plan_block(b, density, draws);
    proof {
        lemma_some_block(prop_views(props@), b, zone_in(density), draws@);
        lemma_block_counts(prop_views(props@), b, zone_in(density));
        assert(props@.len() == prop_views(props@).len());
    }
    stats.add_props(&props);
    stats.add_roads(&roads);
    BlockPlan { roads, props }
}

/// A block's roads hold at most thirty cars, and none where no slot is taken.
pub proof fn car_slots_are_thirty(taken_x: Seq<bool>, taken_z: Seq<bool>)
    requires
        taken_x.len() == 18,
        taken_z.len() == 12,
    ensures
        car_count(taken_x, taken_z) <= 30,
        (forall|k: int| 0 <= k < 18 ==> !#[trigger] taken_x[k]) && (forall|k: int|
            0 <= k < 12 ==> !#[trigger] taken_z[k]) ==> car_count(taken_x, taken_z) == 0,
{
    lemma_car_count(Heading::AlongX, taken_x);
    lemma_car_count(Heading::AlongZ, taken_z);
}

/// Whether a prop is a building.
pub open spec fn is_building(p: PropView) -> bool {
    p.model == Model::LowBuilding || p.model == Model::MediumBuilding || p.model
        == Model::HighBuilding
}

/// How far two numbers are apart.
pub open spec fn apart(a: int, b: int) -> int {
    if a < b {
        b - a
    } else {
        a - b
    }
}

/// Whether the buildings among props keep their distance: two in one row are at least `width`
/// apart along x, and two rows are at least `depth` apart along z and face each other.
pub open spec fn buildings_stand_apart(props: Seq<PropView>, width: int, depth: int) -> bool {
    forall|i: int, j: int|
        #![trigger props[i], props[j]]
        0 <= i < j < props.len() && is_building(props[i]) && is_building(props[j]) ==> if props[i].z
            == props[j].z {
            apart(props[i].x, props[j].x) >= width && props[i].turns == props[j].turns
        } else {
            apart(props[i].z, props[j].z) >= depth && apart(props[i].turns, props[j].turns) == 2
        }
}

/// No two buildings of a block of houses stand at one place: those of a row are at least 1.8 units
/// apart, and the rows are 1.5 units apart and face each other.
pub proof fn houses_stand_apart(b: Block)
    ensures
        buildings_stand_apart(low_density(b), 18000, 15000),
{
    let all = low_density(b);
    assert forall|i: int, j: int|
        #![trigger all[i], all[j]]
        0 <= i < j < all.len() && is_building(all[i]) && is_building(all[j]) implies if all[i].z
        == all[j].z {
        apart(all[i].x, all[j].x) >= 18000 && all[i].turns == all[j].turns
    } else {
        apart(all[i].z, all[j].z) >= 15000 && apart(all[i].turns, all[j].turns) == 2
    } by {
        assert(j < 4) by {
            if 4 <= j < 11 {
                assert(all[j] == low_fence(b, j - 4));
            } else if 11 <= j {
                assert(all[j] == low_tree(b, j - 11));
            }
        }
        assert(all[i] == low_building(b, i) && all[j] == low_building(b, j));
    }
}

/// The towers of a block stand at 1.25, 2.75 and 4.25 units from its crossroad in each of two rows,
/// 1.25 and 2.75 units from it, that face each other: every such place has one tower, and no two
/// share a place.
pub proof fn towers_stand_apart(b: Block)
    ensures
        buildings_stand_apart(high_density(b), 15000, 15000),
        forall|k: int|
            0 <= k < high_density(b).len() ==> ({
                let p = #[trigger] high_density(b)[k];
                let (x, z) = (p.x - b.x * 55000, p.z - b.z * 40000);
                &&& p.model == Model::HighBuilding
                &&& x == 12500 || x == 27500 || x == 42500
                &&& (z == 12500 && p.turns == 0) || (z == 27500 && p.turns == 2)
                &&& p.y == 0 && p.scale == (10000int, 10000int, 10000int)
            }),
        high_density(b).len() == 6,
{
    let all = high_density(b);
    assert forall|k: int| 0 <= k < all.len() implies #[trigger] all[k] == high_building(b, k) by {}
    assert forall|i: int, j: int|
        #![trigger all[i], all[j]]
        0 <= i < j < all.len() implies if all[i].z == all[j].z {
        apart(all[i].x, all[j].x) >= 15000 && all[i].turns == all[j].turns
    } else {
        apart(all[i].z, all[j].z) >= 15000 && apart(all[i].turns, all[j].turns) == 2
    } by {
        assert(all[i] == high_building(b, i) && all[j] == high_building(b, j));
    }
}

proof fn lemma_medium_at(b: Block, n: nat, k: int)
    requires
        n <= 5,
        0 <= k < medium_rows(b, n).len(),
    ensures
        ({
            let p = medium_rows(b, n)[k];
            let (x, z) = (p.x - b.x * 55000, p.z - b.z * 40000);
            &&& is_building(p) ==> exists|r: int|
                1 <= r <= n && x == #[trigger] (r * 9000) && ((z == 10000 && p.turns == 0) || (z
                    == 30000 && p.turns == 2))
            &&& !is_building(p) ==> p.model == Model::TreeLarge && (z == 17500 || z == 22500)
                && p.turns == 0 && 9000 <= x <= 45000
            &&& p.y == 0 && p.scale == (10000int, 10000int, 10000int)
        }),
    decreases n,
{
    let before = medium_rows(b, (n - 1) as nat);
    let row = medium_row(b, n as int);
    if k < before.len() {
        lemma_medium_at(b, (n - 1) as nat, k);
    } else {
        let q = k - before.len();
        assert(medium_rows(b, n)[k] == row[q]);
        assert(row[q] == row[q]);
        if q == 0 || q == row.len() - 1 {
            assert(n * 9000 == (n as int) * 9000);
        } else {
            assert(row[q] == medium_tree(b, n as int, q - 1));
        }
    }
}

proof fn lemma_medium_apart(b: Block, n: nat, i: int, j: int)
    requires
        n <= 5,
        0 <= i < j < medium_rows(b, n).len(),
        is_building(medium_rows(b, n)[i]),
        is_building(medium_rows(b, n)[j]),
    ensures
        ({
            let (p, q) = (medium_rows(b, n)[i], medium_rows(b, n)[j]);
            if p.z == q.z {
                apart(p.x, q.x) >= 9000 && p.turns == q.turns
            } else {
                apart(p.z, q.z) >= 20000 && apart(p.turns, q.turns) == 2
            }
        }),
    decreases n,
{
    let before = medium_rows(b, (n - 1) as nat);
    let row = medium_row(b, n as int);
    let (p, q) = (medium_rows(b, n)[i], medium_rows(b, n)[j]);
    if j < before.len() {
        lemma_medium_apart(b, (n - 1) as nat, i, j);
    } else {
        let t = j - before.len();
        assert(q == row[t]);
        assert(t == 0 || t == row.len() - 1) by {
            if t != 0 && t != row.len() - 1 {
                assert(row[t] == medium_tree(b, n as int, t - 1));
            }
        }
        if i < before.len() {
            assert(p == before[i]);
            lemma_medium_at(b, (n - 1) as nat, i);
            let r = choose|r: int|
                1 <= r <= n - 1 && p.x - b.x * 55000 == #[trigger] (r * 9000) && ((p.z - b.z * 40000
                    == 10000 && p.turns == 0) || (p.z - b.z * 40000 == 30000 && p.turns == 2));
            assert(q.x - b.x * 55000 == n * 9000);
        } else {
            let s = i - before.len();
            assert(p == row[s]);
            assert(s == 0) by {
                if s != 0 {
                    assert(row[s] == medium_tree(b, n as int, s - 1));
                }
            }
        }
    }
}

/// No two buildings of a commercial block stand at one place: those of a row are at least 0.9 units
/// apart, and the rows are two units apart and face each other, with trees between them.
pub proof fn shops_stand_apart(b: Block)
    ensures
        buildings_stand_apart(medium_density(b), 9000, 20000),
{
    let all = medium_density(b);
    let rows = medium_rows(b, 5);
    assert forall|i: int, j: int|
        #![trigger all[i], all[j]]
        0 <= i < j < all.len() && is_building(all[i]) && is_building(all[j]) implies if all[i].z
        == all[j].z {
        apart(all[i].x, all[j].x) >= 9000 && all[i].turns == all[j].turns
    } else {
        apart(all[i].z, all[j].z) >= 20000 && apart(all[i].turns, all[j].turns) == 2
    } by {
        assert(j < rows.len()) by {
            if j >= rows.len() {
                assert(all[j] == medium_path(b, j - rows.len()));
            }
        }
        assert(all[i] == rows[i] && all[j] == rows[j]);
        lemma_medium_apart(b, 5, i, j);
    }
}

/// Whether a prop stands inside its block, clear of the roads around it: more than 0.7 units from
/// its own crossroad either way, and that far before the next one's. A block is 5.5 by 4 units.
pub open spec fn stands_inside(p: PropView, b: Block) -> bool {
    &&& 7000 <= p.x - b.x * 55000 <= 55000 - 7000
    &&& 7000 <= p.z - b.z * 40000 <= 40000 - 7000
}

/// Everything on a block stands inside it: nothing is on a road, whatever the zone and the draws.
pub proof fn props_stand_inside(b: Block, zone: Zone, draws: Seq<usize>, k: int)
    requires
        forest_draws(draws),
        0 <= k < block_props(b, zone, draws).len(),
    ensures
        stands_inside(block_props(b, zone, draws)[k], b),
{
    let all = block_props(b, zone, draws);
    if k > 0 {
        let q = k - 1;
        match zone {
            Zone::Forest => {
                assert(all[k] == forest(b, draws)[q]);
                lemma_forest_inside(b, draws, q);
            },
            Zone::Low => {
                assert(all[k] == low_density(b)[q]);
                if q < 4 {
                    assert(all[k] == low_building(b, q));
                } else if q < 11 {
                    assert(all[k] == low_fence(b, q - 4));
                } else {
                    assert(all[k] == low_tree(b, q - 11));
                }
            },
            Zone::Medium => {
                let rows = medium_rows(b, 5);
                assert(all[k] == medium_density(b)[q]);
                if q < rows.len() {
                    assert(all[k] == rows[q]);
                    lemma_medium_at(b, 5, q);
                } else {
                    assert(all[k] == medium_path(b, q - rows.len()));
                }
            },
            Zone::High => {
                assert(all[k] == high_building(b, q));
            },
        }
    }
}

proof fn lemma_forest_inside(b: Block, draws: Seq<usize>, k: int)
    requires
        draws.len() <= 117,
        0 <= k < forest(b, draws).len(),
    ensures
        stands_inside(forest(b, draws)[k], b),
    decreases draws.len(),
{
    if draws.len() > 0 {
        let most = forest(b, draws.drop_last());
        if k < most.len() {
            lemma_forest_inside(b, draws.drop_last(), k);
        } else {
            let n = draws.len() - 1;
            assert(0 <= n / 9 <= 12);
            assert(0 <= n % 9 <= 8);
        }
    }
}

/// The ground of a block lies under all of it, just below the roads, as large as the block between
/// them; it is grass where nothing commercial stands.
pub proof fn grounds_fill_blocks(b: Block, zone: Zone)
    ensures
        ({
            let g = ground(b, zone);
            &&& g.x - b.x * 55000 - g.scale.0 / 2 == 5000
            &&& g.x - b.x * 55000 + g.scale.0 / 2 == 55000 - 5000
            &&& g.z - b.z * 40000 - g.scale.2 / 2 == 5000
            &&& g.z - b.z * 40000 + g.scale.2 / 2 == 40000 - 5000
            &&& g.y == -5
            &&& g.turns == 0
            &&& g.scale.1 == 10000
            &&& g.model == Model::GrassTile <==> zone == Zone::Forest || zone == Zone::Low
            &&& g.model == Model::RoadTile <==> zone == Zone::Medium || zone == Zone::High
        }),
{
}

/// The places of a forest are 0.325 by 0.3 units apart, nine deep, and no two are the same; a draw
/// of one is a small tree there, a draw of two a large one, and a draw of nothing leaves it empty.
pub proof fn forests_are_planted(b: Block, draws: Seq<usize>, draw: usize)
    requires
        draws.len() < 117,
    ensures
        draw == 0 ==> forest(b, draws.push(draw)) == forest(b, draws),
        draw == 1 || draw == 2 ==> forest(b, draws.push(draw)).len() == forest(b, draws).len() + 1
            && ({
            let p = forest(b, draws.push(draw)).last();
            &&& p.model == (if draw == 1 {
                Model::TreeSmall
            } else {
                Model::TreeLarge
            })
            &&& p.x == b.x * 55000 + 7500 + 3250 * (draws.len() / 9)
            &&& p.z == b.z * 40000 + 8500 + 3000 * (draws.len() % 9)
            &&& p.y == 0 && p.turns == 0
            &&& p.scale == (10000int, 10000int, 10000int)
        }),
        forest(b, draws).is_prefix_of(forest(b, draws.push(draw))),
{
    assert(draws.push(draw).drop_last() =~= draws);
    assert(forest(b, draws).is_prefix_of(forest(b, draws)));
}

/// A road runs from one crossroad's edge to the next one's: cars drive between the crossroads, and
/// its piece lies over that stretch, about its middle, turned along it.
pub proof fn roads_join_crossroads(h: Heading)
    ensures
        ({
            let ((sx, sz), (ex, ez)) = road_ends(h);
            let p = road_piece(h);
            &&& h == Heading::AlongX ==> sz == 0 && ez == 0 && sx == 7500 && ex == 55000 - 2500
            &&& h == Heading::AlongZ ==> sx == 0 && ex == 0 && sz == 7500 && ez == 40000 - 2500
            &&& h == Heading::AlongX ==> p.z == 0 && 2 * p.x == 55000 && p.scale.0 == 55000 - 10000
                && p.turns == 0
            &&& h == Heading::AlongZ ==> p.x == 0 && 2 * p.z == 40000 && p.scale.0 == 40000 - 10000
                && p.turns == 1
            &&& p.model == Model::RoadStraight && p.y == 0 && p.scale.1 == 10000 && p.scale.2
                == 10000
        }),
{
}

/// The two lanes of a road: the cars of one drive forward and those of the other back, facing
/// opposite ways, on either side of the middle; a car is as far along its road as its slot, half a
/// unit a slot, and fifteen hundredths of its natural size.
pub proof fn lanes_run_opposite_ways(h: Heading, i: int)
    requires
        0 <= i < lane_length(h),
    ensures
        ({
            let (p, q) = (car_at(h, 2 * i), car_at(h, 2 * i + 1));
            &&& p.forward != q.forward
            &&& apart(p.turns, q.turns) == 2
            &&& p.distance_traveled == 5000 * i && q.distance_traveled == 5000 * i
            &&& p.scale == 1500 && q.scale == 1500
            &&& h == Heading::AlongX ==> p.x == 0 && q.x == 0 && p.z == 7500 + 5000 * i - 1500
                && q.z == 7500 + 5000 * i + 1500 && p.turns == 3 && !p.forward && p.offset == (
                42500int,
                -1500int,
            ) && q.offset == (-2500int, 1500int) && q.turns == 1 && q.forward
            &&& h == Heading::AlongZ ==> p.z == 7500 + 5000 * i && q.z == p.z && p.x == 1500 && q.x
                == -1500 && p.turns == 0 && p.forward && p.offset == (-1500int, -2500int)
                && q.offset == (1500int, 27500int) && q.turns == 2 && !q.forward
        }),
{
    assert((2 * i) / 2 == i && (2 * i) % 2 == 0);
    assert((2 * i + 1) / 2 == i && (2 * i + 1) % 2 == 1);
}

/// A road has a car for each slot that is taken, in order, and no other.
pub proof fn cars_fill_taken_slots(h: Heading, taken: Seq<bool>, last: bool)
    ensures
        cars_at(h, Seq::<bool>::empty()).len() == 0,
        last ==> cars_at(h, taken.push(last)) == cars_at(h, taken).push(
            car_at(h, taken.len() as int),
        ),
        !last ==> cars_at(h, taken.push(last)) == cars_at(h, taken),
{
    assert(taken.push(last).drop_last() =~= taken);
}

/// A density is a forest under 0.45, houses from there under 0.6, commercial from there under 0.7,
/// and skyscrapers above; denser never goes back. All by the bits of floats from zero up.
pub proof fn zones_follow_density(d: u64)
    requires
        d <= 0x7ff0_0000_0000_0000,
    ensures
        zone_in(d) == Zone::Forest <==> d < 0x3fdc_cccc_cccc_cccd,
        zone_in(d) == Zone::Low <==> 0x3fdc_cccc_cccc_cccd <= d < 0x3fe3_3333_3333_3333,
        zone_in(d) == Zone::Medium <==> 0x3fe3_3333_3333_3333 <= d < 0x3fe6_6666_6666_6666,
        zone_in(d) == Zone::High <==> 0x3fe6_6666_6666_6666 <= d,
{
    assert(d & 0x7fff_ffff_ffff_ffff == d) by (bit_vector)
        requires
            d <= 0x7ff0_0000_0000_0000,
    ;
}

/// Every block of a zone builds what the zone is for: houses among trees, shops, or towers; and a
/// forest only trees.
pub proof fn zones_build_their_kind(b: Block, draws: Seq<usize>, k: int)
    requires
        0 <= k,
    ensures
        k < low_density(b).len() && is_building(low_density(b)[k]) ==> low_density(b)[k].model
            == Model::LowBuilding,
        k < medium_density(b).len() && is_building(medium_density(b)[k]) ==> medium_density(
            b,
        )[k].model == Model::MediumBuilding,
        k < high_density(b).len() ==> high_density(b)[k].model == Model::HighBuilding,
        k < forest(b, draws).len() ==> forest(b, draws)[k].model == Model::TreeSmall || forest(
            b,
            draws,
        )[k].model == Model::TreeLarge,
{
    if k < low_density(b).len() {
        if k < 4 {
            assert(low_density(b)[k] == low_building(b, k));
        } else if k < 11 {
            assert(low_density(b)[k] == low_fence(b, k - 4));
        } else {
            assert(low_density(b)[k] == low_tree(b, k - 11));
        }
    }
    if k < medium_density(b).len() {
        let rows = medium_rows(b, 5);
        if k < rows.len() {
            assert(medium_density(b)[k] == rows[k]);
            lemma_medium_model(b, 5, k);
        } else {
            assert(medium_density(b)[k] == medium_path(b, k - rows.len()));
        }
    }
    if k < forest(b, draws).len() {
        lemma_forest_alike(b, draws);
        assert(counted(forest(b, draws)[k].model) == Counted::Tree);
    }
}

proof fn lemma_medium_model(b: Block, n: nat, k: int)
    requires
        0 <= k < medium_rows(b, n).len(),
    ensures
        is_building(medium_rows(b, n)[k]) ==> medium_rows(b, n)[k].model == Model::MediumBuilding,
    decreases n,
{
    let before = medium_rows(b, (n - 1) as nat);
    if k < before.len() {
        lemma_medium_model(b, (n - 1) as nat, k);
    } else {
        let row = medium_row(b, n as int);
        let q = k - before.len();
        assert(medium_rows(b, n)[k] == row[q]);
        if q != 0 && q != row.len() - 1 {
            assert(row[q] == medium_tree(b, n as int, q - 1));
        }
    }
}

/// Whether a prop of a block stands on the ground at its own size, this far from the crossroad, with
/// so many quarter turns.
pub open spec fn stands_at(p: PropView, b: Block, x: int, z: int, turns: int) -> bool {
    &&& p.x == b.x * 55000 + x
    &&& p.z == b.z * 40000 + z
    &&& p.y == 0
    &&& p.turns == turns
    &&& p.scale == (10000int, 10000int, 10000int)
}

/// A block of houses has two at 1.8 units and two at 3.6, one of each pair 1.25 units in and facing
/// the other, which is 2.75 in. Halfway between the pairs a fence runs from 0.75 to 3.15 units, a
/// piece every 0.4. Along both sides, 0.75 and 4.75 units out, a small tree stands every 0.3 units.
pub proof fn houses_have_their_places(b: Block, k: int)
    ensures
        ({
            let all = low_density(b);
            &&& all.len() == 29
            &&& 0 <= k < 2 ==> all[2 * k].model == Model::LowBuilding && stands_at(
                all[2 * k],
                b,
                18000 + 18000 * k,
                12500,
                0,
            )
            &&& 0 <= k < 2 ==> all[2 * k + 1].model == Model::LowBuilding && stands_at(
                all[2 * k + 1],
                b,
                18000 + 18000 * k,
                27500,
                2,
            )
            &&& 0 <= k < 7 ==> all[4 + k].model == Model::Fence && stands_at(
                all[4 + k],
                b,
                27500,
                7500 + 4000 * k,
                1,
            )
            &&& 0 <= k < 9 ==> all[11 + 2 * k].model == Model::TreeSmall && stands_at(
                all[11 + 2 * k],
                b,
                7500,
                7500 + 3000 * k,
                0,
            )
            &&& 0 <= k < 9 ==> all[12 + 2 * k].model == Model::TreeSmall && stands_at(
                all[12 + 2 * k],
                b,
                47500,
                7500 + 3000 * k,
                0,
            )
        }),
{
    let all = low_density(b);
    if 0 <= k < 2 {
        assert(all[2 * k] == low_building(b, 2 * k));
        assert(all[2 * k + 1] == low_building(b, 2 * k + 1));
    }
    if 0 <= k < 7 {
        assert(all[4 + k] == low_fence(b, k));
    }
    if 0 <= k < 9 {
        assert(all[11 + 2 * k] == low_tree(b, 2 * k));
        assert(all[12 + 2 * k] == low_tree(b, 2 * k + 1));
    }
}

/// A commercial block has a shop every 0.9 units in each of two rows, one unit in and three units
/// in, facing each other. Behind each pair stand four large trees, two and two half a unit apart,
/// but only two behind the last.
pub proof fn shops_have_their_places(b: Block, r: int, k: int)
    requires
        1 <= r <= 5,
    ensures
        ({
            let row = medium_row(b, r);
            let trees = if r == 5 {
                2int
            } else {
                4
            };
            &&& row.len() == trees + 2
            &&& row[0].model == Model::MediumBuilding && stands_at(row[0], b, 9000 * r, 10000, 0)
            &&& row[trees + 1].model == Model::MediumBuilding && stands_at(
                row[trees + 1],
                b,
                9000 * r,
                30000,
                2,
            )
            &&& 1 <= k <= trees ==> row[k].model == Model::TreeLarge && stands_at(
                row[k],
                b,
                9000 * r + (if k <= 2 {
                    0int
                } else {
                    5000
                }),
                if k % 2 == 1 {
                    17500int
                } else {
                    22500
                },
                0,
            )
        }),
{
    let row = medium_row(b, r);
    let trees = if r == 5 {
        2int
    } else {
        4
    };
    if 1 <= k <= trees {
        assert(row[k] == medium_tree(b, r, k - 1));
        assert(k == 1 || k == 2 || k == 3 || k == 4);
    }
}

/// Through a commercial block a path of eleven stones leads, one every 0.4 units from 0.75 on, along
/// its middle, turned and twice as high as they are; a piece of fence stands on either side of each,
/// 0.15 units off. All of it lies a fiftieth of a unit above the ground.
pub proof fn paths_lead_through(b: Block, k: int)
    requires
        0 <= k < 11,
    ensures
        ({
            let all = medium_density(b);
            let at = medium_rows(b, 5).len() + 3 * k;
            let x = b.x * 55000 + 7500 + 4000 * k;
            let z = b.z * 40000 + 20000;
            &&& at + 2 < all.len()
            &&& all[at].model == Model::PathStones && all[at].x == x && all[at].z == z && all[at].y == 200
                && all[at].turns == 1 && all[at].scale == (10000int, 20000int, 10000int)
            &&& all[at + 1].model == Model::Fence && all[at + 1].x == x && all[at + 1].z == z - 1500
                && all[at + 1].y == 200 && all[at + 1].turns == 0
            &&& all[at + 2].model == Model::Fence && all[at + 2].x == x && all[at + 2].z == z + 1500
                && all[at + 2].y == 200 && all[at + 2].turns == 0
        }),
{
    let all = medium_density(b);
    let n = medium_rows(b, 5).len() as int;
    assert(all[n + 3 * k] == medium_path(b, 3 * k));
    assert(all[n + 3 * k + 1] == medium_path(b, 3 * k + 1));
    assert(all[n + 3 * k + 2] == medium_path(b, 3 * k + 2));
}

/// Props are counted by what they are.
pub proof fn counts_are_by_model(props: Seq<PropView>, c: Counted)
    ensures
        count(props, c) == props.filter(
            |p: PropView|
                match c {
                    Counted::Building => is_building(p),
                    Counted::Tree => p.model == Model::TreeSmall || p.model == Model::TreeLarge,
                    Counted::Fence => p.model == Model::Fence,
                    Counted::Path => p.model == Model::PathStones,
                    Counted::Road => p.model == Model::Crossroad || p.model == Model::RoadStraight,
                    Counted::GroundTile => p.model == Model::GrassTile || p.model == Model::RoadTile,
                },
        ).len(),
    decreases props.len(),
{
    reveal(Seq::filter);
    if props.len() > 0 {
        counts_are_by_model(props.drop_last(), c);
    }
}

/// Buildings and trees are parents with their mesh below them; nothing else is.
pub proof fn buildings_and_trees_are_parents(m: Model)
    ensures
        two_levels(m) <==> (m == Model::LowBuilding || m == Model::MediumBuilding || m
            == Model::HighBuilding || m == Model::TreeSmall || m == Model::TreeLarge),
{
}

/// Statistics grow by what props are: each count by the props of its own sort.
pub proof fn statistics_grow_by_sort(before: CityStats, after: CityStats, props: Seq<PropView>)
    requires
        grew(before, after, props),
    ensures
        after.buildings - before.buildings == props.filter(|p: PropView| is_building(p)).len(),
        after.trees - before.trees == props.filter(
            |p: PropView| p.model == Model::TreeSmall || p.model == Model::TreeLarge,
        ).len(),
        after.fences - before.fences == props.filter(|p: PropView| p.model == Model::Fence).len(),
        after.paths - before.paths == props.filter(|p: PropView| p.model == Model::PathStones).len(),
        after.ground_tile - before.ground_tile == props.filter(
            |p: PropView| p.model == Model::GrassTile || p.model == Model::RoadTile,
        ).len(),
        after.roads - before.roads == props.filter(
            |p: PropView| p.model == Model::Crossroad || p.model == Model::RoadStraight,
        ).len(),
        after.cars == before.cars,
{
    lemma_count_filter(props, Counted::Building, |p: PropView| is_building(p));
    lemma_count_filter(
        props,
        Counted::Tree,
        |p: PropView| p.model == Model::TreeSmall || p.model == Model::TreeLarge,
    );
    lemma_count_filter(props, Counted::Fence, |p: PropView| p.model == Model::Fence);
    lemma_count_filter(props, Counted::Path, |p: PropView| p.model == Model::PathStones);
    lemma_count_filter(
        props,
        Counted::GroundTile,
        |p: PropView| p.model == Model::GrassTile || p.model == Model::RoadTile,
    );
    lemma_count_filter(
        props,
        Counted::Road,
        |p: PropView| p.model == Model::Crossroad || p.model == Model::RoadStraight,
    );
}

proof fn lemma_count_filter(props: Seq<PropView>, c: Counted, f: spec_fn(PropView) -> bool)
    requires
        forall|p: PropView| #[trigger] f(p) <==> counted(p.model) == c,
    ensures
        count(props, c) == props.filter(f).len(),
    decreases props.len(),
{
    reveal(Seq::filter);
    if props.len() > 0 {
        lemma_count_filter(props.drop_last(), c, f);
        assert(f(props.last()) <==> counted(props.last().model) == c);
    }
}

/// One more block adds a crossroad and two roads, one ground tile, its cars, and its props by sort.
pub proof fn statistics_grow_by_block(
    before: CityStats,
    after: CityStats,
    cars: nat,
    props: Seq<PropView>,
)
    requires
        grew_by_block(before, after, cars, props),
    ensures
        after.roads - before.roads == 3,
        after.ground_tile - before.ground_tile == 1,
        after.cars - before.cars == cars,
        after.buildings - before.buildings == props.filter(|p: PropView| is_building(p)).len(),
        after.trees - before.trees == props.filter(
            |p: PropView| p.model == Model::TreeSmall || p.model == Model::TreeLarge,
        ).len(),
        after.fences - before.fences == props.filter(|p: PropView| p.model == Model::Fence).len(),
        after.paths - before.paths == props.filter(|p: PropView| p.model == Model::PathStones).len(),
{
    lemma_count_filter(props, Counted::Building, |p: PropView| is_building(p));
    lemma_count_filter(
        props,
        Counted::Tree,
        |p: PropView| p.model == Model::TreeSmall || p.model == Model::TreeLarge,
    );
    lemma_count_filter(props, Counted::Fence, |p: PropView| p.model == Model::Fence);
    lemma_count_filter(props, Counted::Path, |p: PropView| p.model == Model::PathStones);
}

/// A block's roads leave its crossroad, one along each side, with a car in each taken slot.
pub proof fn roads_leave_their_crossroad(r: Roads, b: Block, taken_x: Seq<bool>, taken_z: Seq<bool>)
    requires
        are_roads(r, b, taken_x, taken_z),
    ensures
        r.crossroad.model == Model::Crossroad,
        r.crossroad.x == b.x * 55000 && r.crossroad.z == b.z * 40000,
        r.along_x.start == (7500i64, 0i64) && r.along_x.end == (52500i64, 0i64),
        r.along_z.start == (0i64, 7500i64) && r.along_z.end == (0i64, 37500i64),
        r.along_x.piece.model == Model::RoadStraight && r.along_z.piece.model == Model::RoadStraight,
        r.along_x.cars@.len() == taken_x.filter(|t: bool| t).len(),
        r.along_z.cars@.len() == taken_z.filter(|t: bool| t).len(),
{
    lemma_taken(Heading::AlongX, taken_x);
    lemma_taken(Heading::AlongZ, taken_z);
    assert(car_views(r.along_x.cars@).len() == r.along_x.cars@.len());
    assert(car_views(r.along_z.cars@).len() == r.along_z.cars@.len());
}

proof fn lemma_taken(h: Heading, taken: Seq<bool>)
    ensures
        cars_at(h, taken).len() == taken.filter(|t: bool| t).len(),
    decreases taken.len(),
{
    reveal(Seq::filter);
    if taken.len() > 0 {
        lemma_taken(h, taken.drop_last());
    }
}

/// Props and cars keep each of their numbers.
pub proof fn props_and_cars_keep_their_fields(p: Prop, c: Car)
    ensures
        p@.model == p.model && p@.x == p.x && p@.y == p.y && p@.z == p.z && p@.turns == p.turns,
        p@.scale == (p.scale@[0] as int, p.scale@[1] as int, p.scale@[2] as int),
        c@.x == c.x && c@.z == c.z && c@.turns == c.turns && c@.forward == c.forward,
        c@.distance_traveled == c.distance_traveled && c@.scale == c.scale,
        c@.offset == (c.offset.0 as int, c.offset.1 as int),
{
}

/// A negative density is a forest's, and one that is no number a block of skyscrapers'.
pub proof fn odd_densities_have_zones(d: u64)
    ensures
        0x8000_0000_0000_0000 <= d <= 0xfff0_0000_0000_0000 ==> zone_in(d) == Zone::Forest,
        0x7ff0_0000_0000_0000 < d < 0x8000_0000_0000_0000 || 0xfff0_0000_0000_0000 < d ==> zone_in(d)
            == Zone::High,
{
    assert(0x8000_0000_0000_0000 <= d <= 0xfff0_0000_0000_0000 ==> d & 0x7fff_ffff_ffff_ffff
        <= 0x7ff0_0000_0000_0000) by (bit_vector);
    assert(0x7ff0_0000_0000_0000 < d < 0x8000_0000_0000_0000 || 0xfff0_0000_0000_0000 < d ==> d
        & 0x7fff_ffff_ffff_ffff > 0x7ff0_0000_0000_0000) by (bit_vector);
}

} // verus!
