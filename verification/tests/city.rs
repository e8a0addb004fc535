use rand::rngs::SmallRng;
use rand::SeedableRng;
use scene_tools::city::{
    draw_forest, list_blocks, plan_block, plan_forest, plan_road, spawn_block, spawn_forest, spawn_ground, spawn_high_density,
    spawn_low_density, spawn_medium_density, spawn_prop, spawn_roads_and_cars, spawn_two_level, zone_of, Block, CityStats,
    Heading, Model, Zone,
};
use scene_tools::city_assets::{load_assets, name_color, parts_of};
use scene_tools::city_plan::{draw_block, is_taken, plan_city, BlockDraws, RoadDraws};

const AT: Block = Block { x: 1, z: -2 };

#[test]
fn blocks_surround_the_centre() {
    let b = list_blocks(5);
    assert_eq!(b.len(), 25);
    assert_eq!(b[0], Block { x: -2, z: -2 });
    assert_eq!(b[1], Block { x: -2, z: -1 });
    assert_eq!(b[24], Block { x: 2, z: 2 });
    assert_eq!(list_blocks(1), vec![Block { x: 0, z: 0 }]);
    assert_eq!(list_blocks(4)[15], Block { x: 1, z: 1 });
    assert!(list_blocks(0).is_empty());
}

#[test]
fn zones_follow_the_density() {
    let zone = |d: f64| zone_of(d.to_bits());
    assert_eq!(zone(-0.1), Zone::Forest);
    assert_eq!(zone(0.449), Zone::Forest);
    assert_eq!(zone(0.45), Zone::Low);
    assert_eq!(zone(0.6), Zone::Medium);
    assert_eq!(zone(0.7), Zone::High);
    assert_eq!(zone(f64::NAN), Zone::High);
    assert_eq!(zone(-f64::NAN), Zone::High);
    assert_eq!(spawn_ground(AT, Zone::Low).model, Model::GrassTile);
    let g = spawn_ground(AT, Zone::Medium);
    assert_eq!((g.model, g.x, g.y, g.z), (Model::RoadTile, 82500, -5, -60000));
}

#[test]
fn houses_face_each_other() {
    let p = spawn_low_density(AT);
    assert_eq!(p.len(), 29);
    assert_eq!((p[0].x, p[0].z, p[0].turns), (55000 + 18000, -80000 + 12500, 0));
    assert_eq!((p[3].x, p[3].z, p[3].turns), (55000 + 36000, -80000 + 27500, 2));
    assert_eq!((p[4].model, p[4].turns), (Model::Fence, 1));
    assert_eq!(p[28].z, -80000 + 7500 + 8 * 3000);
    let mut s = CityStats::default();
    s.add_props(&p);
    assert_eq!((s.buildings, s.fences, s.trees), (4, 7, 18));
}

#[test]
fn commercial_blocks_have_a_path() {
    let p = spawn_medium_density(AT);
    let mut s = CityStats::default();
    s.add_props(&p);
    assert_eq!((s.buildings, s.trees, s.paths, s.fences), (10, 18, 11, 22));
    let stones = p.iter().find(|q| q.model == Model::PathStones).unwrap();
    assert_eq!(stones.scale, [10000, 20000, 10000]);
    assert_eq!(spawn_high_density(AT).len(), 6);
}

#[test]
fn forests_follow_their_draws() {
    let p = plan_forest(AT, &vec![0, 1, 2, 0, 0, 0, 0, 0, 0, 2]);
    let got: Vec<(Model, i64, i64)> = p.iter().map(|q| (q.model, q.x, q.z)).collect();
    assert_eq!(
        got,
        vec![
            (Model::TreeSmall, 62500, -80000 + 11500),
            (Model::TreeLarge, 62500, -80000 + 14500),
            (Model::TreeLarge, 55000 + 10750, -80000 + 8500),
        ]
    );
    let mut rng = SmallRng::seed_from_u64(42);
    let mut seen = Vec::new();
    for _ in 0..4 {
        let f = spawn_forest(AT, &mut rng);
        assert!(f.len() < 117 && f.len() > 40);
        seen.push(f);
    }
    assert_ne!(seen[0], seen[1]);
}

#[test]
fn cars_take_their_places() {
    let mut taken = vec![false; 18];
    taken[0] = true;
    taken[17] = true;
    let r = plan_road(Heading::AlongX, &taken);
    assert_eq!((r.start, r.end), ((7500, 0), (52500, 0)));
    assert_eq!(r.cars.len(), 2);
    assert_eq!((r.cars[0].turns, r.cars[0].forward, r.cars[0].z), (3, false, 6000));
    assert_eq!((r.cars[1].distance_traveled, r.cars[1].z), (40000, 49000));
    let roads = spawn_roads_and_cars(AT, &taken, &vec![true; 12]);
    assert_eq!((roads.crossroad.x, roads.crossroad.z), (55000, -80000));
    assert_eq!(roads.along_z.cars[1].offset, (1500, 27500));
    assert!(roads.along_z.cars.iter().chain(&roads.along_x.cars).all(|c| c.scale == 1500));
    let mut s = CityStats::default();
    s.add_roads(&roads);
    assert_eq!((s.roads, s.cars), (3, 14));
}

#[test]
fn picks_come_from_the_lists() {
    let a = load_assets();
    assert_eq!(a.cars.len(), 15);
    assert_eq!(a.cars[0], "kenney/car-kit/meshes/hatchback-sports.cluster_mesh");
    assert_eq!(a.high_density.meshes[5], "kenney/city-kit-commercial/meshes/building-m.cluster_mesh");
    assert_eq!(a.low_density.materials[3], "kenney/city-kit-suburban/textures/variation-c.png");
    assert_eq!(a.grass_color, [97, 203, 139]);
    let mut rng = SmallRng::seed_from_u64(7);
    let mut different = std::collections::BTreeSet::new();
    for _ in 0..50 {
        let (mesh, material) = a.medium_density.random(&mut rng);
        assert!(a.medium_density.meshes.contains(&mesh));
        assert!(a.medium_density.materials.contains(&material));
        different.insert(mesh);
        assert!(a.cars.contains(&a.random_car(&mut rng).0));
    }
    assert!(different.len() > 1);
    assert_eq!(a.low_density.at(0, 1).0, a.low_density.meshes[0]);
}

#[test]
fn blocks_are_built_up_by_density() {
    let b = Block { x: 0, z: 0 };
    let mut rng = SmallRng::seed_from_u64(7);
    let mut build = |density: f64| spawn_block(b, density.to_bits(), &mut rng);
    let low = build(0.5);
    assert_eq!(low.len(), 30);
    assert_eq!(low[0].model, Model::GrassTile);
    let high = build(0.9);
    assert_eq!(high.len(), 7);
    assert_eq!(high[0].model, Model::RoadTile);
    assert!(high[1..].iter().all(|p| p.model == Model::HighBuilding));
    let forest = build(0.1);
    assert!(forest.len() > 20 && forest.len() < 118);
    assert!(forest[1..].iter().all(|p| matches!(p.model, Model::TreeSmall | Model::TreeLarge)));
}

/// What is drawn for a city of random blocks, a float for each slot handed in.
fn draw(size: u32, densities: &[u64], unit: f32, density: f32, seed: u64) -> Vec<BlockDraws> {
    let a = load_assets();
    let mut rng = SmallRng::seed_from_u64(seed);
    let mut out = Vec::new();
    for (b, d) in list_blocks(size).into_iter().zip(densities) {
        let (mut x, mut z) = (RoadDraws::new(), RoadDraws::new());
        for _ in 0..18 {
            x.add_slot(unit.to_bits(), density.to_bits(), &a, &mut rng);
        }
        for _ in 0..12 {
            z.add_slot(unit.to_bits(), density.to_bits(), &a, &mut rng);
        }
        out.push(draw_block(b, *d, &a, x, z, &mut rng));
    }
    out
}

#[test]
fn cities_count_every_block() {
    let a = load_assets();
    let densities: Vec<u64> = (0..9).map(|i| [0.2f64, 0.5, 0.65, 0.9][i % 4].to_bits()).collect();
    let plan = |unit: f32, density: f32| {
        let draws = draw(3, &densities, unit, density, 7);
        plan_city(3, &densities, density.to_bits(), &a, &draws)
    };
    let city = plan(0.25, 0.3);
    let s = city.stats;
    assert_eq!((s.ground_tile, s.roads, s.cars), (9, 27, 270));
    let props: u32 = city.blocks.iter().map(|b| b.plan.props.len() as u32).sum();
    assert_eq!(s.buildings + s.trees + s.fences + s.paths + s.ground_tile, props);
    assert_eq!(plan(0.5, 0.3).stats.cars, 0);
    assert_eq!(plan(0.0, 0.0).stats.cars, 0);
    assert_eq!(plan(0.0, -1.0).stats.cars, 0);
    assert_eq!(plan(0.0, f32::NAN).stats.cars, 0);
    assert_eq!(plan(0.999, f32::INFINITY).stats.cars, 270);
    assert_eq!(plan(0.999, 1.0).stats.cars, 270);
}

#[test]
fn blocks_show_what_was_drawn() {
    let a = load_assets();
    let densities = vec![0.9f64.to_bits()];
    let mut draws = draw(1, &densities, 0.1, 0.2, 3);
    assert_eq!((draws[0].along_x.meshes.len(), draws[0].along_z.meshes.len()), (18, 12));
    draws[0].along_x.meshes[2] = 4;
    draws[0].picks[3] = (6, 2);
    let city = plan_city(1, &densities, 0.2f32.to_bits(), &a, &draws);
    let block = &city.blocks[0];
    let parts = |mesh: &String, material: &String| Some((mesh.clone(), material.clone()));
    assert_eq!(block.cars_x[2].child, parts(&a.cars[4], &a.car_material));
    let tower = (&a.high_density.meshes[6], &a.high_density.materials[2]);
    assert_eq!(block.entities[3].child, parts(tower.0, tower.1));
    assert_eq!(block.entities[0].own, parts(&a.ground_tile, &a.road_material));
    assert_eq!(block.crossroad.own, parts(&a.crossroad, &a.road_material));
    assert_eq!(block.piece.own, parts(&a.road_straight, &a.road_material));
    assert_eq!(block.entities.len(), block.plan.props.len());
    assert!(is_taken(0.1f32.to_bits(), 0.2f32.to_bits()));
    assert!(!is_taken(0.2f32.to_bits(), 0.2f32.to_bits()));
}

#[test]
fn equal_draws_make_equal_cities() {
    let a = load_assets();
    let densities = vec![0.1f64.to_bits(); 4];
    let plan = |seed: u64| {
        let draws = draw(2, &densities, 0.1, 0.5, seed);
        plan_city(2, &densities, 0.5f32.to_bits(), &a, &draws)
    };
    let (p, q, other) = (plan(42), plan(42), plan(43));
    assert_eq!(p.stats, q.stats);
    for (x, y) in p.blocks.iter().zip(&q.blocks) {
        assert_eq!(x.plan.props, y.plan.props);
        assert_eq!(x.plan.roads.along_x.cars, y.plan.roads.along_x.cars);
        assert_eq!(x.cars_x[0].child, y.cars_x[0].child);
    }
    assert_ne!(p.blocks[0].plan.props, other.blocks[0].plan.props);
}

#[test]
fn props_are_made_of_their_parts() {
    let a = load_assets();
    let mut rng = SmallRng::seed_from_u64(3);
    let mut of = |m: Model| parts_of(m, &a, &mut rng);
    assert_eq!(of(Model::TreeSmall), (a.tree_small.clone(), a.suburban_material.clone()));
    assert_eq!(of(Model::TreeLarge).0, a.tree_large);
    assert_eq!(of(Model::Fence), (a.fence.clone(), a.suburban_material.clone()));
    assert_eq!(of(Model::PathStones).0, a.path_stones_long);
    assert_eq!(of(Model::Crossroad), (a.crossroad.clone(), a.road_material.clone()));
    assert_eq!(of(Model::RoadStraight).0, a.road_straight);
    assert_eq!(of(Model::RoadTile), (a.ground_tile.clone(), a.road_material.clone()));
    assert_eq!(of(Model::GrassTile), (a.ground_tile.clone(), "#61cb8b".to_string()));
    let (mesh, material) = of(Model::HighBuilding);
    assert!(a.high_density.meshes.contains(&mesh) && a.high_density.materials.contains(&material));
    assert!(a.low_density.meshes.contains(&of(Model::LowBuilding).0));
    assert!(a.medium_density.meshes.contains(&of(Model::MediumBuilding).0));
    assert_eq!(name_color(&[0, 255, 16]), "#00ff10");
}

#[test]
fn buildings_and_trees_have_two_levels() {
    let parts = || ("mesh".to_string(), "material".to_string());
    for m in [Model::LowBuilding, Model::MediumBuilding, Model::HighBuilding, Model::TreeSmall, Model::TreeLarge] {
        let e = spawn_prop(m, parts());
        assert_eq!((e.own, e.child), (None, Some(parts())));
    }
    for m in [Model::Crossroad, Model::RoadStraight, Model::GrassTile, Model::RoadTile, Model::Fence, Model::PathStones] {
        let e = spawn_prop(m, parts());
        assert_eq!((e.own, e.child), (Some(parts()), None));
    }
    assert_eq!(spawn_two_level(parts()).child, Some(parts()));
}

#[test]
fn blocks_follow_their_draws() {
    let draws = draw_forest(&mut SmallRng::seed_from_u64(11));
    assert_eq!(draws.len(), 117);
    assert!(draws.iter().all(|d| *d < 3));
    let wood = plan_block(AT, 0.2f64.to_bits(), &draws);
    assert_eq!(wood, plan_block(AT, 0.2f64.to_bits(), &draws));
    assert_eq!(wood.len(), 1 + draws.iter().filter(|d| **d > 0).count());
    assert_eq!(wood[1..], plan_forest(AT, &draws)[..]);
    assert_eq!(plan_block(AT, 0.9f64.to_bits(), &vec![]).len(), 7);
    let mut rng = SmallRng::seed_from_u64(5);
    let (a, b) = (
        spawn_block(AT, 0.65f64.to_bits(), &mut rng),
        spawn_block(AT, 0.65f64.to_bits(), &mut rng),
    );
    assert_eq!(a, b);
}
