use scene_tools::furnace::{
    setup_bistro, setup_furnace, setup_room, setup_yard, Camera, Expect, Shape, Sky, Spot, Sun, Turn,
};

#[test]
fn the_furnace_has_a_row_of_balls() {
    let s = setup_furnace();
    assert_eq!(s.bodies.len(), 11);
    assert_eq!(s.probes.len(), 12);
    assert_eq!(s.bodies[0].at, (-10500, 0, 0));
    assert_eq!(s.bodies[7].at, (10500, 0, 0));
    assert_eq!(s.bodies[6].name, "metal_r0.15");
    assert_eq!(s.bodies[6].look.roughness, Some(150));
    assert_eq!(s.probes[1].spot, Spot::At(-10500, 0, 1400));
    assert_eq!(s.probes[7].expect, Expect::Sky);
    assert_eq!(s.probes[8].expect, Expect::Anything);
    assert_eq!(s.bodies[9].turn, Turn::EighthAboutY);
    assert_eq!(s.probes[11].spot, Spot::Toward { x: 0, y: -7000, z: 0, distance: 1500 });
}

#[test]
fn lamps_follow_their_law() {
    let pilot = setup_room(false);
    let equal = setup_room(true);
    assert_eq!(pilot.bodies.len(), 33);
    let lamps: Vec<u32> = pilot.bodies[15..31].iter().map(|b| b.look.emissive.unwrap()).collect();
    assert_eq!(lamps, vec![2, 2, 2, 2, 12000, 2, 2, 2, 2, 12000, 2, 2, 2, 2, 12000, 2]);
    assert!(equal.bodies[15..31].iter().all(|b| b.look.emissive == Some(800)));
    assert_eq!(pilot.bodies[15].name, "lamp_0");
    assert_eq!(pilot.bodies[15].at, (-5700, 2900, -5700));
    assert_eq!(pilot.bodies[30].at, (5700, 2900, 5700));
    assert_eq!(pilot.bodies[31].at, (-1500, -500, -1000));
}

#[test]
fn boxes_stand_on_the_floor() {
    let s = setup_room(true);
    for b in &s.bodies[6..11] {
        match b.shape {
            Shape::Cuboid { y, .. } => assert_eq!(b.at.1 * 2 - y, -6000),
            Shape::Sphere { .. } => unreachable!(),
        }
    }
}

#[test]
fn the_yard_has_four_lamps() {
    let s = setup_yard();
    assert_eq!(s.bodies.len(), 8);
    assert_eq!(s.bodies[7].name, "yard_lamp_3");
    assert_eq!(s.bodies[7].at, (-7000, 4000, 8000));
    assert_eq!(s.probes[3].spot, Spot::At(-4000, 1200, 1010));
}

#[test]
fn white_bodies_are_judged_against_the_sky() {
    let s = setup_furnace();
    for (body, probe) in s.bodies.iter().zip(&s.probes[1..]) {
        assert_eq!(body.name, probe.name);
        if body.look.base == Some(1000) {
            assert_eq!(probe.expect, Expect::Sky);
        }
        if body.look.tint.is_some() {
            assert_eq!(probe.expect, Expect::TintedSky);
        }
    }
}

#[test]
fn scenes_have_their_camera_and_light() {
    let furnace = setup_furnace();
    assert_eq!(furnace.camera, Camera { at: (0, 0, 42000), target: None });
    let white = Sky::Uniform { texel: (0x3c00, 0x3c00, 0x3c00, 0x3c00), nits: 1000 };
    assert_eq!((furnace.sky, furnace.sun), (white, None));
    assert!(furnace.file.is_none());
    let room = setup_room(true);
    assert_eq!(room.camera, Camera { at: (3500, 1600, 7000), target: Some((-500, -2200, 0)) });
    assert_eq!((room.sky, room.sun), (Sky::Dark, None));
    let yard = setup_yard();
    assert_eq!(yard.camera, Camera { at: (2000, 7000, 20000), target: Some((-1000, 0, 0)) });
    let ray = Some(((8000, 16000, 8000), (0, 0, 0)));
    assert_eq!(yard.sun, Some(Sun { ray, illuminance: Some(5000), color: None }));
    let bistro = setup_bistro();
    assert_eq!(bistro.camera.at, (-10000, 2000, 0));
    assert_eq!(bistro.sun.and_then(|s| s.color), Some((1000, 870, 780)));
    assert!(bistro.file.is_some() && bistro.bodies.is_empty());
}
