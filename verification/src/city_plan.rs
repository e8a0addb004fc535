//! A whole city from what was drawn for it: every block with its roads, its cars and its props, and
//! the entities that show them.

use vstd::prelude::*;
use crate::city::{
    block_props, blocks_before, car_views, cars_at, count, draw_forest, forest_draws, grew_by_block,
    has_room, lane_length, lay_block, lemma_block_counts, lemma_car_count, lemma_count_len,
    lemma_some_block, list_blocks, placed, plan_block, prop_views, road_ends, road_piece,
    spawn_prop, spawn_two_level, two_levels, zone_in, zone_of, Block, BlockPlan, CarView, CityStats,
    Counted, Entity, Heading, Model, Prop, PropView, Road, Zone,
};
use crate::city_assets::{draw_pick, parts_at, parts_with, pick_fits, CityAssets};

verus! {

/// The bits of the float one.
pub const ONE: u32 = 0x3f80_0000;

/// The bits of the largest float.
pub const INFINITE: u32 = 0x7f80_0000;

/// Whether a slot is taken: its draw, a float of at least zero and under one, is under the density.
/// Both are given as float bits. Nothing is under what is negative or no number.
pub open spec fn takes(unit: u32, density: u32) -> bool {
    unit < density && density <= INFINITE
}

/// Tests whether a slot is taken.
pub fn is_taken(unit: u32, density: u32) -> (r: bool)
    requires
        unit < ONE,
    ensures
        r == takes(unit, density),
{
    unit < density && density <= INFINITE
}

/// What is drawn for a road: a float for each slot, as bits, and a mesh for each car.
pub struct RoadDraws {
    pub units: Vec<u32>,
    pub meshes: Vec<usize>,
}

/// What is drawn for a block: its two roads, the places of a forest where it is one, and a mesh and
/// a material for each prop. Only buildings are picked: what is drawn for another prop is not used.
pub struct BlockDraws {
    pub along_x: RoadDraws,
    pub along_z: RoadDraws,
    pub forest: Vec<usize>,
    pub picks: Vec<(usize, usize)>,
}

/// The slots that are taken.
pub open spec fn taken_slots(units: Seq<u32>, density: u32) -> Seq<bool> {
    units.map_values(|u: u32| takes(u, density))
}

impl RoadDraws {
    /// Whether each draw is for a slot of a road, with a mesh for each that is taken.
    pub open spec fn agrees(self, h: Heading, density: u32, cars: nat) -> bool {
        &&& forall|k: int| 0 <= k < self.units@.len() ==> #[trigger] self.units@[k] < ONE
        &&& self.meshes@.len() == cars_at(h, taken_slots(self.units@, density)).len()
        &&& forall|k: int| 0 <= k < self.meshes@.len() ==> #[trigger] self.meshes@[k] < cars
    }

    /// Whether this is drawn for a road: every slot is.
    pub open spec fn fits(self, h: Heading, density: u32, cars: nat) -> bool {
        self.units@.len() == 2 * lane_length(h) && self.agrees(h, density, cars)
    }

    /// Nothing drawn yet.
    pub fn new() -> (r: RoadDraws)
        ensures
            r.units@.len() == 0,
            r.meshes@.len() == 0,
            forall|h: Heading, density: u32, cars: nat| #[trigger] r.agrees(h, density, cars),
    {
        RoadDraws { units: Vec::new(), meshes: Vec::new() }
    }

    /// Adds what was drawn for the next slot, and a random mesh where that takes it.
    pub fn add_slot(
        &mut self,
        unit: u32,
        density: u32,
        assets: &CityAssets,
        rng: &mut rand::rngs::SmallRng,
    )
        requires
            unit < ONE,
            assets.cars@.len() > 0,
        ensures
            final(self).units@ == old(self).units@.push(unit),
            takes(unit, density) ==> final(self).meshes@.len() == old(self).meshes@.len() + 1
                && final(self).meshes@.drop_last() == old(self).meshes@
                && final(self).meshes@.last() < assets.cars@.len(),
            !takes(unit, density) ==> final(self).meshes@ == old(self).meshes@,
            forall|h: Heading| #[trigger]
                old(self).agrees(h, density, assets.cars@.len()) ==> final(self).agrees(
                    h,
                    density,
                    assets.cars@.len(),
                ),
    {
        let ghost before = *self;
        self.units.push(unit);
        if is_taken(unit, density) {
            let mesh: usize = assets.draw_car(rng);
            self.meshes.push(mesh);
            assert(self.meshes@.drop_last() =~= before.meshes@);
        }
        assert forall|h: Heading| #[trigger]
            before.agrees(h, density, assets.cars@.len()) implies self.agrees(
            h,
            density,
            assets.cars@.len(),
        ) by {
            assert(taken_slots(self.units@, density).drop_last() =~= taken_slots(
                before.units@,
                density,
            ));
            assert(taken_slots(self.units@, density).last() == takes(unit, density));
        }
    }
}

impl BlockDraws {
    /// Whether this is drawn for a block.
    pub open spec fn fits(
        self,
        b: Block,
        density: u64,
        car_density: u32,
        assets: CityAssets,
    ) -> bool {
        let props = block_props(b, zone_in(density), self.forest@);
        &&& self.along_x.fits(Heading::AlongX, car_density, assets.cars@.len())
        &&& self.along_z.fits(Heading::AlongZ, car_density, assets.cars@.len())
        &&& zone_in(density) == Zone::Forest ==> forest_draws(self.forest@)
        &&& self.picks@.len() == props.len()
        &&& forall|k: int|
            0 <= k < props.len() ==> pick_fits(assets, props[k].model, #[trigger] self.picks@[k])
    }
}

/// A road, in plain numbers.
pub ghost struct RoadView {
    pub start: (int, int),
    pub end: (int, int),
    pub piece: PropView,
    pub cars: Seq<CarView>,
}

impl View for Road {
    type V = RoadView;

    open spec fn view(&self) -> RoadView {
        RoadView {
            start: (self.start.0 as int, self.start.1 as int),
            end: (self.end.0 as int, self.end.1 as int),
            piece: self.piece@,
            cars: car_views(self.cars@),
        }
    }
}

/// The texts of a mesh and a material.
pub open spec fn part_texts(parts: (String, String)) -> (Seq<char>, Seq<char>) {
    (parts.0@, parts.1@)
}

/// An entity, in plain texts.
pub ghost struct EntityView {
    pub own: Option<(Seq<char>, Seq<char>)>,
    pub child: Option<(Seq<char>, Seq<char>)>,
}

impl View for Entity {
    type V = EntityView;

    open spec fn view(&self) -> EntityView {
        EntityView {
            own: match self.own {
                Some(p) => Some(part_texts(p)),
                None => None,
            },
            child: match self.child {
                Some(p) => Some(part_texts(p)),
                None => None,
            },
        }
    }
}

/// Entities, in plain texts.
pub open spec fn entity_views(list: Seq<Entity>) -> Seq<EntityView> {
    list.map_values(|e: Entity| e@)
}

/// A block of a city with the entities that show it: the crossroad's, that of the piece of either
/// road, those of the cars of each, and one for each prop.
pub struct CityBlock {
    pub plan: BlockPlan,
    pub crossroad: Entity,
    pub piece: Entity,
    pub cars_x: Vec<Entity>,
    pub cars_z: Vec<Entity>,
    pub entities: Vec<Entity>,
}

/// A block of a city, in plain numbers and texts.
pub ghost struct CityBlockView {
    pub crossroad: (PropView, EntityView),
    pub piece: EntityView,
    pub along_x: RoadView,
    pub along_z: RoadView,
    pub cars_x: Seq<EntityView>,
    pub cars_z: Seq<EntityView>,
    pub props: Seq<PropView>,
    pub entities: Seq<EntityView>,
}

impl View for CityBlock {
    type V = CityBlockView;

    open spec fn view(&self) -> CityBlockView {
        CityBlockView {
            crossroad: (self.plan.roads.crossroad@, self.crossroad@),
            piece: self.piece@,
            along_x: self.plan.roads.along_x@,
            along_z: self.plan.roads.along_z@,
            cars_x: entity_views(self.cars_x@),
            cars_z: entity_views(self.cars_z@),
            props: prop_views(self.plan.props@),
            entities: entity_views(self.entities@),
        }
    }
}

/// Blocks, in plain numbers and texts.
pub open spec fn city_block_views(blocks: Seq<CityBlock>) -> Seq<CityBlockView> {
    blocks.map_values(|c: CityBlock| c@)
}

/// The road that taken slots lay out.
pub open spec fn planned_road(h: Heading, taken: Seq<bool>) -> RoadView {
    RoadView {
        start: road_ends(h).0,
        end: road_ends(h).1,
        piece: road_piece(h),
        cars: cars_at(h, taken),
    }
}

/// The entity of a model with its parts: buildings and trees have theirs in a child.
pub open spec fn model_entity(m: Model, parts: (Seq<char>, Seq<char>)) -> EntityView {
    if two_levels(m) {
        EntityView { own: None, child: Some(parts) }
    } else {
        EntityView { own: Some(parts), child: None }
    }
}

/// The entities of cars: each has its parts in a child.
pub open spec fn car_entities(assets: CityAssets, meshes: Seq<usize>) -> Seq<EntityView> {
    meshes.map_values(
        |m: usize|
            EntityView { own: None, child: Some((assets.cars@[m as int]@, assets.car_material@)) },
    )
}

/// The entities of props, from the pick for each.
pub open spec fn prop_entities(
    assets: CityAssets,
    props: Seq<PropView>,
    picks: Seq<(usize, usize)>,
) -> Seq<EntityView> {
    Seq::new(
        props.len(),
        |k: int| model_entity(props[k].model, parts_with(assets, props[k].model, picks[k])),
    )
}

/// The block that draws lay out.
pub open spec fn planned_block(
    b: Block,
    density: u64,
    car_density: u32,
    assets: CityAssets,
    draws: BlockDraws,
) -> CityBlockView {
    let props = block_props(b, zone_in(density), draws.forest@);
    CityBlockView {
        crossroad: (
            placed(b, Model::Crossroad, (0, 0, 0), 0),
            model_entity(Model::Crossroad, parts_with(assets, Model::Crossroad, (0, 0))),
        ),
        piece: model_entity(Model::RoadStraight, parts_with(assets, Model::RoadStraight, (0, 0))),
        along_x: planned_road(Heading::AlongX, taken_slots(draws.along_x.units@, car_density)),
        along_z: planned_road(Heading::AlongZ, taken_slots(draws.along_z.units@, car_density)),
        cars_x: car_entities(assets, draws.along_x.meshes@),
        cars_z: car_entities(assets, draws.along_z.meshes@),
        props,
        entities: prop_entities(assets, props, draws.picks@),
    }
}

fn mark_slots(units: &Vec<u32>, density: u32) -> (r: Vec<bool>)
    requires
        forall|k: int| 0 <= k < units@.len() ==> #[trigger] units@[k] < ONE,
    ensures
        r@ == taken_slots(units@, density),
{
    let mut out: Vec<bool> = Vec::new();
    for k in 0..units.len()
        invariant
            forall|k: int| 0 <= k < units@.len() ==> #[trigger] units@[k] < ONE,
            out@ == taken_slots(units@, density).take(k as int),
    {
        assert(units@[k as int] < ONE);
        out.push(is_taken(units[k], density));
        assert(out@ =~= taken_slots(units@, density).take(k + 1));
    }
    assert(out@ =~= taken_slots(units@, density));
    out
}

fn show_cars(assets: &CityAssets, meshes: &Vec<usize>) -> (r: Vec<Entity>)
    requires
        forall|k: int| 0 <= k < meshes@.len() ==> #[trigger] meshes@[k] < assets.cars@.len(),
    ensures
        entity_views(r@) == car_entities(*assets, meshes@),
{
    let mut out: Vec<Entity> = Vec::new();
    for k in 0..meshes.len()
        invariant
            forall|k: int| 0 <= k < meshes@.len() ==> #[trigger] meshes@[k] < assets.cars@.len(),
            entity_views(out@) == car_entities(*assets, meshes@).take(k as int),
    {
        assert(meshes@[k as int] < assets.cars@.len());
        let parts = (assets.cars[meshes[k]].clone(), assets.car_material.clone());
        let ghost before = out@;
        out.push(spawn_two_level(parts));
        assert(entity_views(out@) =~= entity_views(before).push(out@.last()@));
        assert(entity_views(out@) =~= car_entities(*assets, meshes@).take(k + 1));
    }
    assert(entity_views(out@) =~= car_entities(*assets, meshes@));
    out
}

fn show_model(assets: &CityAssets, m: Model, pick: (usize, usize)) -> (r: Entity)
    requires
        pick_fits(*assets, m, pick),
    ensures
        r@ == model_entity(m, parts_with(*assets, m, pick)),
{
    let parts = parts_at(m, assets, pick);
    spawn_prop(m, parts)
}

fn show_props(assets: &CityAssets, props: &Vec<Prop>, picks: &Vec<(usize, usize)>) -> (r: Vec<
    Entity,
>)
    requires
        picks@.len() == props@.len(),
        forall|k: int|
            0 <= k < props@.len() ==> pick_fits(*assets, props@[k].model, #[trigger] picks@[k]),
    ensures
        entity_views(r@) == prop_entities(*assets, prop_views(props@), picks@),
{
    let mut out: Vec<Entity> = Vec::new();
    let ghost all = prop_entities(*assets, prop_views(props@), picks@);
    for k in 0..props.len()
        invariant
            picks@.len() == props@.len(),
            forall|k: int|
                0 <= k < props@.len() ==> pick_fits(*assets, props@[k].model, #[trigger] picks@[k]),
            all == prop_entities(*assets, prop_views(props@), picks@),
            entity_views(out@) == all.take(k as int),
    {
        assert(pick_fits(*assets, props@[k as int].model, picks@[k as int]));
        let ghost before = out@;
        out.push(show_model(assets, props[k].model, picks[k]));
        assert(entity_views(out@) =~= entity_views(before).push(out@.last()@));
        assert(entity_views(out@) =~= all.take(k + 1));
    }
    assert(entity_views(out@) =~= all);
    out
}

/// Lays out a block from what was drawn for it, with its entities, and counts it.
pub fn plan_city_block(
    b: Block,
    density: u64,
    car_density: u32,
    assets: &CityAssets,
    draws: &BlockDraws,
    stats: &mut CityStats,
) -> (r: CityBlock)
    requires
        draws.fits(b, density, car_density, *assets),
        has_room(*old(stats), 118),
    ensures
        r@ == planned_block(b, density, car_density, *assets, *draws),
        grew_by_block(
            *old(stats),
            *final(stats),
            r@.along_x.cars.len() + r@.along_z.cars.len(),
            r@.props,
        ),
{
    let taken_x = mark_slots(&draws.along_x.units, car_density);
    let taken_z = mark_slots(&draws.along_z.units, car_density);
    let plan = lay_block(b, &taken_x, &taken_z, density, &draws.forest, stats);
    let ghost props = block_props(b, zone_in(density), draws.forest@);
    assert forall|k: int| 0 <= k < plan.props@.len() implies pick_fits(
        *assets,
        plan.props@[k].model,
        #[trigger] draws.picks@[k],
    ) by {
        assert(prop_views(plan.props@)[k] == props[k]);
    }
    assert(plan.props@.len() == prop_views(plan.props@).len());
    CityBlock {
        crossroad: show_model(assets, Model::Crossroad, (0, 0)),
        piece: show_model(assets, Model::RoadStraight, (0, 0)),
        cars_x: show_cars(assets, &draws.along_x.meshes),
        cars_z: show_cars(assets, &draws.along_z.meshes),
        entities: show_props(assets, &plan.props, &draws.picks),
        plan,
    }
}

fn draw_picks(props: &Vec<Prop>, assets: &CityAssets, rng: &mut rand::rngs::SmallRng) -> (r: Vec<
    (usize, usize),
>)
    requires
        assets.some(),
    ensures
        r@.len() == props@.len(),
        forall|k: int|
            0 <= k < props@.len() ==> pick_fits(*assets, props@[k].model, #[trigger] r@[k]),
{
    let mut out: Vec<(usize, usize)> = Vec::new();
    for k in 0..props.len()
        invariant
            assets.some(),
            out@.len() == k,
            forall|j: int|
                0 <= j < k ==> pick_fits(*assets, props@[j].model, #[trigger] out@[j]),
    {
        out.push(draw_pick(props[k].model, assets, rng));
    }
    out
}

/// Draws what a block needs besides its cars: the places of a forest where it is one, then a pick
/// for each building.
pub fn draw_block(
    b: Block,
    density: u64,
    assets: &CityAssets,
    along_x: RoadDraws,
    along_z: RoadDraws,
    rng: &mut rand::rngs::SmallRng,
) -> (r: BlockDraws)
    requires
        assets.some(),
    ensures
        r.along_x == along_x,
        r.along_z == along_z,
        forall|car_density: u32|
            along_x.fits(Heading::AlongX, car_density, assets.cars@.len()) && along_z.fits(
                Heading::AlongZ,
                car_density,
                assets.cars@.len(),
            ) ==> #[trigger] r.fits(b, density, car_density, *assets),
{
    let forest = match zone_of(density) {
        Zone::Forest => draw_forest(rng),
        _ => Vec::new(),
    };
    let props = plan_block(b, density, &forest);
    let picks = draw_picks(&props, assets, rng);
    let ghost views = block_props(b, zone_in(density), forest@);
    assert(views == prop_views(props@));
    assert forall|k: int| 0 <= k < views.len() implies pick_fits(
        *assets,
        views[k].model,
        #[trigger] picks@[k],
    ) by {
        assert(prop_views(props@)[k] == props@[k]@);
    }
    BlockDraws { along_x, along_z, forest, picks }
}

/// A city: its blocks, and what they hold.
pub struct City {
    pub blocks: Vec<CityBlock>,
    pub stats: CityStats,
}

/// How many props of blocks count as `c`.
pub open spec fn tally(blocks: Seq<CityBlockView>, c: Counted) -> nat
    decreases blocks.len(),
{
    if blocks.len() == 0 {
        0
    } else {
        tally(blocks.drop_last(), c) + count(blocks.last().props, c)
    }
}

/// How many cars are on the roads of blocks.
pub open spec fn car_total(blocks: Seq<CityBlockView>) -> nat
    decreases blocks.len(),
{
    if blocks.len() == 0 {
        0
    } else {
        let last = blocks.last();
        car_total(blocks.drop_last()) + last.along_x.cars.len() + last.along_z.cars.len()
    }
}

/// Whether statistics are those of blocks: a crossroad, two roads and one ground tile for each, and
/// what stands and drives on them.
pub open spec fn are_stats(s: CityStats, blocks: Seq<CityBlockView>) -> bool {
    &&& s.roads == 3 * blocks.len()
    &&& s.ground_tile == blocks.len()
    &&& s.cars == car_total(blocks)
    &&& s.buildings == tally(blocks, Counted::Building)
    &&& s.trees == tally(blocks, Counted::Tree)
    &&& s.fences == tally(blocks, Counted::Fence)
    &&& s.paths == tally(blocks, Counted::Path)
}

/// Whether draws are those of a city of `size` blocks per side.
pub open spec fn are_drawn(
    draws: Seq<BlockDraws>,
    size: u32,
    densities: Seq<u64>,
    car_density: u32,
    assets: CityAssets,
) -> bool {
    &&& draws.len() == size * size
    &&& densities.len() == size * size
    &&& forall|k: int|
        0 <= k < draws.len() ==> (#[trigger] draws[k]).fits(
            blocks_before(size as int, size as nat)[k],
            densities[k],
            car_density,
            assets,
        )
}

/// The city that draws lay out, block by block.
pub open spec fn planned_city(
    size: u32,
    densities: Seq<u64>,
    car_density: u32,
    assets: CityAssets,
    draws: Seq<BlockDraws>,
) -> Seq<CityBlockView> {
    Seq::new(
        draws.len(),
        |k: int|
            planned_block(
                blocks_before(size as int, size as nat)[k],
                densities[k],
                car_density,
                assets,
                draws[k],
            ),
    )
}

/// A planned block is small: it has one ground tile, no road among its props, and at most as many
/// of anything as a forest has places, and the ground.
proof fn lemma_planned_block(
    b: Block,
    density: u64,
    car_density: u32,
    assets: CityAssets,
    draws: BlockDraws,
)
    requires
        draws.fits(b, density, car_density, assets),
    ensures
        ({
            let v = planned_block(b, density, car_density, assets, draws);
            &&& v.props.len() <= 118
            &&& v.along_x.cars.len() + v.along_z.cars.len() <= 30
            &&& count(v.props, Counted::GroundTile) == 1
            &&& count(v.props, Counted::Road) == 0
        }),
{
    let v = planned_block(b, density, car_density, assets, draws);
    lemma_some_block(v.props, b, zone_in(density), draws.forest@);
    lemma_block_counts(v.props, b, zone_in(density));
    lemma_car_count(Heading::AlongX, taken_slots(draws.along_x.units@, car_density));
    lemma_car_count(Heading::AlongZ, taken_slots(draws.along_z.units@, car_density));
}

/// Blocks that are small hold no more than so many of anything.
proof fn lemma_totals(blocks: Seq<CityBlockView>)
    requires
        forall|k: int|
            0 <= k < blocks.len() ==> (#[trigger] blocks[k]).props.len() <= 118
                && blocks[k].along_x.cars.len() + blocks[k].along_z.cars.len() <= 30,
    ensures
        forall|c: Counted| #[trigger] tally(blocks, c) <= 118 * blocks.len(),
        car_total(blocks) <= 30 * blocks.len(),
    decreases blocks.len(),
{
    if blocks.len() > 0 {
        let most = blocks.drop_last();
        assert forall|k: int| 0 <= k < most.len() implies (#[trigger] most[k]).props.len() <= 118
            && most[k].along_x.cars.len() + most[k].along_z.cars.len() <= 30 by {
            assert(blocks[k] == most[k]);
        }
        lemma_totals(most);
        assert(blocks[blocks.len() - 1] == blocks.last());
        assert forall|c: Counted| #[trigger] tally(blocks, c) <= 118 * blocks.len() by {
            lemma_count_len(blocks.last().props, c);
            assert(tally(most, c) <= 118 * most.len());
            assert(tally(blocks, c) == tally(most, c) + count(blocks.last().props, c));
        }
    }
}

/// Lays out a city from what was drawn for its blocks, and counts it.
pub fn plan_city(
    size: u32,
    densities: &Vec<u64>,
    car_density: u32,
    assets: &CityAssets,
    draws: &Vec<BlockDraws>,
) -> (r: City)
    requires
        are_drawn(draws@, size, densities@, car_density, *assets),
        118 * (size * size) <= u32::MAX,
    ensures
        city_block_views(r.blocks@) == planned_city(
            size,
            densities@,
            car_density,
            *assets,
            draws@,
        ),
        are_stats(r.stats, city_block_views(r.blocks@)),
{
    let at = list_blocks(size);
    let mut blocks: Vec<CityBlock> = Vec::new();
    let mut stats = CityStats::default();
    let ghost all = planned_city(size, densities@, car_density, *assets, draws@);
    assert(city_block_views(blocks@) =~= all.take(0));
    for k in 0..draws.len()
        invariant
            at@ == blocks_before(size as int, size as nat),
            at@.len() == size * size,
            are_drawn(draws@, size, densities@, car_density, *assets),
            118 * (size * size) <= u32::MAX,
            all == planned_city(size, densities@, car_density, *assets, draws@),
            city_block_views(blocks@) == all.take(k as int),
            are_stats(stats, all.take(k as int)),
    {
        let ghost done = all.take(k as int);
        let ghost n = size * size;
        assert(draws@[k as int].fits(at@[k as int], densities@[k as int], car_density, *assets));
        proof {
            assert forall|j: int| 0 <= j < done.len() implies (#[trigger] done[j]).props.len()
                <= 118 && done[j].along_x.cars.len() + done[j].along_z.cars.len() <= 30 by {
                assert(draws@[j].fits(at@[j], densities@[j], car_density, *assets));
                lemma_planned_block(at@[j], densities@[j], car_density, *assets, draws@[j]);
            }
            lemma_totals(done);
            assert(tally(done, Counted::Building) <= 118 * k);
            assert(tally(done, Counted::Tree) <= 118 * k);
            assert(tally(done, Counted::Fence) <= 118 * k);
            assert(tally(done, Counted::Path) <= 118 * k);
            assert(118 * k + 118 <= 118 * n);
            assert(all.take(k + 1).drop_last() =~= done);
            assert(all.take(k + 1).last() == all[k as int]);
        }
        let ghost before = blocks@;
        let block = plan_city_block(
            at[k],
            densities[k],
            car_density,
            assets,
            &draws[k],
            &mut stats,
        );
        let ghost view = block@;
        blocks.push(block);
        assert(city_block_views(blocks@) =~= city_block_views(before).push(view));
        assert(city_block_views(blocks@) =~= all.take(k + 1));
    }
    assert(all.take(draws@.len() as int) =~= all);
    City { blocks, stats }
}

/// A city has a block in every column and row of its square, and no more cars than slots.
pub proof fn cities_add_up(
    size: u32,
    densities: Seq<u64>,
    car_density: u32,
    assets: CityAssets,
    draws: Seq<BlockDraws>,
)
    requires
        are_drawn(draws, size, densities, car_density, assets),
    ensures
        ({
            let city = planned_city(size, densities, car_density, assets, draws);
            &&& city.len() == size * size
            &&& tally(city, Counted::GroundTile) == size * size
            &&& car_total(city) <= 30 * (size * size)
        }),
{
    let city = planned_city(size, densities, car_density, assets, draws);
    let at = blocks_before(size as int, size as nat);
    assert forall|k: int| 0 <= k < city.len() implies (#[trigger] city[k]).props.len() <= 118
        && city[k].along_x.cars.len() + city[k].along_z.cars.len() <= 30 && count(
        city[k].props,
        Counted::GroundTile,
    ) == 1 by {
        assert(draws[k].fits(at[k], densities[k], car_density, assets));
        lemma_planned_block(at[k], densities[k], car_density, assets, draws[k]);
    }
    lemma_totals(city);
    lemma_one_each(city);
}

proof fn lemma_one_each(blocks: Seq<CityBlockView>)
    requires
        forall|k: int|
            0 <= k < blocks.len() ==> count((#[trigger] blocks[k]).props, Counted::GroundTile) == 1,
    ensures
        tally(blocks, Counted::GroundTile) == blocks.len(),
    decreases blocks.len(),
{
    if blocks.len() > 0 {
        let most = blocks.drop_last();
        assert forall|k: int| 0 <= k < most.len() implies count(
            (#[trigger] most[k]).props,
            Counted::GroundTile,
        ) == 1 by {
            assert(blocks[k] == most[k]);
        }
        lemma_one_each(most);
        assert(blocks[blocks.len() - 1] == blocks.last());
    }
}

/// The car density is a probability: at zero, or below it, no slot is taken, and from one up every
/// slot is.
pub proof fn densities_are_probabilities(h: Heading, draws: RoadDraws, density: u32, cars: nat)
    requires
        draws.fits(h, density, cars),
    ensures
        density == 0 || density > INFINITE ==> cars_at(
            h,
            taken_slots(draws.units@, density),
        ).len() == 0,
        ONE <= density <= INFINITE ==> cars_at(h, taken_slots(draws.units@, density)).len() == 2
            * lane_length(h),
{
    let taken = taken_slots(draws.units@, density);
    assert forall|k: int| 0 <= k < taken.len() implies #[trigger] taken[k] == takes(
        draws.units@[k],
        density,
    ) && draws.units@[k] < ONE by {
        assert(draws.units@[k] < ONE);
    }
    lemma_car_count(h, taken);
}

/// What is drawn decides the city: two cities of equal draws are the same, block by block, and so
/// are their statistics.
pub proof fn equal_draws_give_equal_cities(
    size: u32,
    densities: Seq<u64>,
    car_density: u32,
    assets: CityAssets,
    draws: Seq<BlockDraws>,
    p: City,
    q: City,
)
    requires
        are_drawn(draws, size, densities, car_density, assets),
        city_block_views(p.blocks@) == planned_city(size, densities, car_density, assets, draws),
        city_block_views(q.blocks@) == planned_city(size, densities, car_density, assets, draws),
        are_stats(p.stats, city_block_views(p.blocks@)),
        are_stats(q.stats, city_block_views(q.blocks@)),
    ensures
        city_block_views(p.blocks@) == city_block_views(q.blocks@),
        p.stats == q.stats,
{
}

/// An entity has the parts of its model: buildings and trees in a child, all else itself.
pub proof fn entities_have_their_parts(
    assets: CityAssets,
    props: Seq<PropView>,
    picks: Seq<(usize, usize)>,
    k: int,
)
    requires
        0 <= k < props.len(),
    ensures
        ({
            let e = prop_entities(assets, props, picks);
            let parts = parts_with(assets, props[k].model, picks[k]);
            &&& e.len() == props.len()
            &&& match props[k].model {
                Model::LowBuilding | Model::MediumBuilding | Model::HighBuilding | Model::TreeSmall
                | Model::TreeLarge => e[k].own is None && e[k].child == Some(parts),
                _ => e[k].own == Some(parts) && e[k].child is None,
            }
        }),
{
}

/// Each car has the mesh drawn for it and the cars' one material, in a child.
pub proof fn cars_have_their_meshes(assets: CityAssets, meshes: Seq<usize>, k: int)
    requires
        0 <= k < meshes.len(),
    ensures
        car_entities(assets, meshes).len() == meshes.len(),
        car_entities(assets, meshes)[k].own is None,
        car_entities(assets, meshes)[k].child == Some(
            (assets.cars@[meshes[k] as int]@, assets.car_material@),
        ),
{
}

/// A slot is taken exactly where its draw is under the density.
pub proof fn slots_are_taken_by_draw(units: Seq<u32>, density: u32, k: int)
    requires
        0 <= k < units.len(),
    ensures
        taken_slots(units, density).len() == units.len(),
        density <= 0x7f80_0000 ==> (taken_slots(units, density)[k] <==> units[k] < density),
        density > 0x7f80_0000 ==> !taken_slots(units, density)[k],
{
}

/// Each road of a block has the cars of its own draws, each in a slot that is taken, and the block
/// has the props of its own zone, each with its own pick.
pub proof fn blocks_use_their_own_draws(
    b: Block,
    density: u64,
    car_density: u32,
    assets: CityAssets,
    draws: BlockDraws,
    other: BlockDraws,
)
    ensures
        ({
            let p = planned_block(b, density, car_density, assets, draws);
            let q = planned_block(b, density, car_density, assets, other);
            &&& p.crossroad.0.model == Model::Crossroad
            &&& p.crossroad.0.x == b.x * 55000 && p.crossroad.0.z == b.z * 40000
            &&& p.crossroad.1.own == Some((assets.crossroad@, assets.road_material@))
            &&& p.piece.own == Some((assets.road_straight@, assets.road_material@))
            &&& draws.along_x == other.along_x ==> p.along_x == q.along_x && p.cars_x == q.cars_x
            &&& draws.along_z == other.along_z ==> p.along_z == q.along_z && p.cars_z == q.cars_z
            &&& draws.forest == other.forest ==> p.props == q.props
            &&& p.along_x.cars == cars_at(Heading::AlongX, taken_slots(draws.along_x.units@, car_density))
            &&& p.along_z.cars == cars_at(Heading::AlongZ, taken_slots(draws.along_z.units@, car_density))
            &&& p.along_x.start.1 == p.along_x.end.1 && p.along_x.start.0 < p.along_x.end.0
            &&& p.along_z.start.0 == p.along_z.end.0 && p.along_z.start.1 < p.along_z.end.1
            &&& p.cars_x == car_entities(assets, draws.along_x.meshes@)
            &&& p.cars_z == car_entities(assets, draws.along_z.meshes@)
            &&& p.entities.len() == p.props.len()
        }),
{
}

/// A city's counts are those of its blocks together.
pub proof fn blocks_add_up(blocks: Seq<CityBlockView>, b: CityBlockView, c: Counted)
    ensures
        tally(blocks.push(b), c) == tally(blocks, c) + count(b.props, c),
        car_total(blocks.push(b)) == car_total(blocks) + b.along_x.cars.len() + b.along_z.cars.len(),
        tally(Seq::<CityBlockView>::empty(), c) == 0,
        car_total(Seq::<CityBlockView>::empty()) == 0,
{
    assert(blocks.push(b).drop_last() =~= blocks);
}

/// The statistics of a city tell its roads, cars, buildings, trees, fences, paths and tiles, each
/// under its own name.
pub proof fn statistics_tell_each_count(s: CityStats, blocks: Seq<CityBlockView>)
    requires
        are_stats(s, blocks),
    ensures
        s.roads == 3 * blocks.len(),
        s.ground_tile == blocks.len(),
        s.cars == car_total(blocks),
        s.buildings == tally(blocks, Counted::Building),
        s.trees == tally(blocks, Counted::Tree),
        s.fences == tally(blocks, Counted::Fence),
        s.paths == tally(blocks, Counted::Path),
{
}

/// Each block of a city is planned from its own place, density and draws.
pub proof fn cities_plan_each_block(
    size: u32,
    densities: Seq<u64>,
    car_density: u32,
    assets: CityAssets,
    draws: Seq<BlockDraws>,
    i: int,
    j: int,
)
    requires
        draws.len() == size * size,
        0 <= i < size,
        0 <= j < size,
    ensures
        ({
            let k = i * size + j;
            let city = planned_city(size, densities, car_density, assets, draws);
            let b = Block { x: (i - size as int / 2) as i32, z: (j - size as int / 2) as i32 };
            &&& 0 <= k < city.len()
            &&& city[k] == planned_block(b, densities[k], car_density, assets, draws[k])
        }),
{
    let k = i * size + j;
    assert(0 <= k < size * size) by (nonlinear_arith)
        requires
            k == i * size + j,
            0 <= i < size,
            0 <= j < size,
    ;
    crate::city::blocks_fill_the_square(size, i, j);
}

/// A block, its roads and its entities keep each of their parts.
pub proof fn blocks_keep_their_parts(c: CityBlock, r: Road, e: Entity, a: String, b: String)
    ensures
        c@.crossroad == (c.plan.roads.crossroad@, c.crossroad@),
        c@.piece == c.piece@,
        c@.along_x == c.plan.roads.along_x@,
        c@.along_z == c.plan.roads.along_z@,
        c@.cars_x == c.cars_x@.map_values(|e: Entity| e@),
        c@.cars_z == c.cars_z@.map_values(|e: Entity| e@),
        c@.entities == c.entities@.map_values(|e: Entity| e@),
        c@.props == prop_views(c.plan.props@),
        r@.start == (r.start.0 as int, r.start.1 as int),
        r@.end == (r.end.0 as int, r.end.1 as int),
        r@.piece == r.piece@,
        r@.cars == car_views(r.cars@),
        e.own == Some((a, b)) ==> e@.own == Some((a@, b@)),
        e.child == Some((a, b)) ==> e@.child == Some((a@, b@)),
        e.own is None ==> e@.own is None,
        e.child is None ==> e@.child is None,
{
}

} // verus!
