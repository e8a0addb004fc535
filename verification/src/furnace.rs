//! The exam scenes of the path tracer: which bodies stand where, what they are made of, and where
//! the probes look. Lengths are in thousandths of a unit, material values in thousandths.

use vstd::prelude::*;
use crate::text;

verus! {

/// The shape of a body.
#[derive(Clone, Copy, Debug, PartialEq, Eq)]
pub enum Shape {
    Sphere { radius: i64 },
    Cuboid { x: i64, y: i64, z: i64 },
}

/// How a body is turned.
#[derive(Clone, Copy, Debug, PartialEq, Eq)]
pub enum Turn {
    Upright,
    /// By an eighth of a circle about the vertical.
    EighthAboutY,
    /// By thousandths of a radian.
    AboutX(i64),
    AboutZ(i64),
    /// Towards the scene's camera.
    FacingCamera,
}

/// What a body is made of: only what differs from an ordinary material.
#[derive(Clone, Copy, Debug, PartialEq, Eq)]
pub struct Look {
    /// Grey value of the base colour.
    pub base: Option<u32>,
    pub metallic: Option<u32>,
    pub roughness: Option<u32>,
    pub transmission: Option<u32>,
    /// Emitted power, in whole units.
    pub emissive: Option<u32>,
    /// The colour that light takes on over the body's own thickness.
    pub tint: Option<(u32, u32, u32)>,
}

/// A body of a scene.
pub struct Body {
    pub name: String,
    pub shape: Shape,
    pub at: (i64, i64, i64),
    pub turn: Turn,
    pub look: Look,
}

/// A body, by its contents.
pub ghost struct BodyView {
    pub name: Seq<char>,
    pub shape: Shape,
    pub at: (int, int, int),
    pub turn: Turn,
    pub look: Look,
}

impl View for Body {
    type V = BodyView;

    open spec fn view(&self) -> BodyView {
        BodyView {
            name: self.name@,
            shape: self.shape,
            at: (self.at.0 as int, self.at.1 as int, self.at.2 as int),
            turn: self.turn,
            look: self.look,
        }
    }
}

/// Bodies, by their contents.
pub open spec fn body_views(bodies: Seq<Body>) -> Seq<BodyView> {
    bodies.map_values(|b: Body| b@)
}

/// Where a probe looks.
#[derive(Clone, Copy, Debug, PartialEq, Eq)]
pub enum Spot {
    At(i64, i64, i64),
    /// From a point, a distance towards the scene's camera.
    Toward { x: i64, y: i64, z: i64, distance: i64 },
}

/// A spot, in plain numbers.
pub ghost enum SpotView {
    At(int, int, int),
    Toward { x: int, y: int, z: int, distance: int },
}

impl View for Spot {
    type V = SpotView;

    open spec fn view(&self) -> SpotView {
        match self {
            Spot::At(x, y, z) => SpotView::At(*x as int, *y as int, *z as int),
            Spot::Toward { x, y, z, distance } => SpotView::Toward {
                x: *x as int,
                y: *y as int,
                z: *z as int,
                distance: *distance as int,
            },
        }
    }
}

/// What a probe must see, as a ratio to the sky.
#[derive(Clone, Copy, Debug, PartialEq, Eq, Structural)]
pub enum Expect {
    /// Anything: the value is only logged.
    Anything,
    /// The sky itself.
    Sky,
    /// The sky through a tinted slab.
    TintedSky,
}

/// A named point whose surrounding pixels get averaged.
pub struct Probe {
    pub name: String,
    pub spot: Spot,
    pub expect: Expect,
}

/// A probe, by its contents.
pub ghost struct ProbeView {
    pub name: Seq<char>,
    pub spot: SpotView,
    pub expect: Expect,
}

impl View for Probe {
    type V = ProbeView;

    open spec fn view(&self) -> ProbeView {
        ProbeView { name: self.name@, spot: self.spot@, expect: self.expect }
    }
}

/// Probes, by their contents.
pub open spec fn probe_views(probes: Seq<Probe>) -> Seq<ProbeView> {
    probes.map_values(|p: Probe| p@)
}

/// A point of a scene.
pub type Point = (i64, i64, i64);

/// Where a camera stands, and the point it looks at; straight ahead, along falling `z`, where it
/// looks at none.
#[derive(Clone, Copy, Debug, PartialEq, Eq)]
pub struct Camera {
    pub at: Point,
    pub target: Option<Point>,
}

/// What surrounds a scene.
#[derive(Clone, Copy, Debug, PartialEq, Eq)]
pub enum Sky {
    /// Nothing.
    Dark,
    /// The same light from every direction: one texel of four half floats for each face of a cube,
    /// times a brightness in nits.
    Uniform { texel: (u16, u16, u16, u16), nits: u32 },
    /// An atmosphere.
    Atmosphere,
}

/// A sun: where its light comes from and which point it shines at, where the scene says so, its
/// power in whole units, and its colour in thousandths, where they differ from an ordinary light's.
#[derive(Clone, Copy, Debug, PartialEq, Eq)]
pub struct Sun {
    pub ray: Option<(Point, Point)>,
    pub illuminance: Option<u32>,
    pub color: Option<(u32, u32, u32)>,
}

/// A scene: the file it is spawned from, its bodies and its probes, the camera, and what lights it
/// beside its own lamps.
pub struct ExamScene {
    pub file: Option<String>,
    pub bodies: Vec<Body>,
    pub probes: Vec<Probe>,
    pub camera: Camera,
    pub sky: Sky,
    pub sun: Option<Sun>,
}

/// The half float one.
pub const HALF_ONE: u16 = 0x3c00;

/// The camera of the furnace: before the middle of the row.
pub open spec fn furnace_camera() -> Camera {
    Camera { at: (0, 0, 42000), target: None }
}

/// The sky of the furnace: white, and equally bright in every direction.
pub open spec fn furnace_sky() -> Sky {
    Sky::Uniform { texel: (HALF_ONE, HALF_ONE, HALF_ONE, HALF_ONE), nits: 1000 }
}

/// The camera of the room: in one corner, looking down at the boxes.
pub open spec fn room_camera() -> Camera {
    Camera { at: (3500, 1600, 7000), target: Some((-500i64, -2200i64, 0i64)) }
}

/// The camera of the yard: above its edge, looking at its middle.
pub open spec fn yard_camera() -> Camera {
    Camera { at: (2000, 7000, 20000), target: Some((-1000i64, 0i64, 0i64)) }
}

/// The sun of the yard: from above one corner onto its middle.
pub open spec fn yard_sun() -> Sun {
    Sun {
        ray: Some(((8000i64, 16000i64, 8000i64), (0i64, 0i64, 0i64))),
        illuminance: Some(5000),
        color: None,
    }
}

/// The camera of the bistro: down the street, looking at its middle.
pub open spec fn bistro_camera() -> Camera {
    Camera { at: (-10000i64, 2000i64, 0i64), target: Some((0i64, 0i64, 0i64)) }
}

/// The sun of the bistro: warm, its direction and power set by whoever runs the scene.
pub open spec fn bistro_sun() -> Sun {
    Sun { ray: None, illuminance: None, color: Some((1000u32, 870u32, 780u32)) }
}

fn push_body(
    out: &mut Vec<Body>,
    name: &str,
    shape: Shape,
    at: (i64, i64, i64),
    turn: Turn,
    look: Look,
)
    ensures
        body_views(final(out)@) == body_views(old(out)@).push(
            (BodyView {
                name: name@,
                shape,
                at: (at.0 as int, at.1 as int, at.2 as int),
                turn,
                look,
            }),
        ),
{
    let ghost before = out@;
    out.push(Body { name: name.to_owned(), shape, at, turn, look });
    assert(body_views(out@) =~= body_views(before).push(out@.last()@));
}

fn push_probe(out: &mut Vec<Probe>, name: &str, spot: Spot, expect: Expect)
    ensures
        probe_views(final(out)@) == probe_views(old(out)@).push(
            (ProbeView { name: name@, spot: spot@, expect }),
        ),
{
    let ghost before = out@;
    out.push(Probe { name: name.to_owned(), spot, expect });
    assert(probe_views(out@) =~= probe_views(before).push(out@.last()@));
}

/// A plain material.
pub open spec fn plain(base: u32, metallic: u32, roughness: u32) -> Look {
    Look {
        base: Some(base),
        metallic: Some(metallic),
        roughness: Some(roughness),
        transmission: None,
        emissive: None,
        tint: None,
    }
}

/// Clear glass, or glass with a tint.
pub open spec fn glass(tint: Option<(u32, u32, u32)>) -> Look {
    Look {
        base: None,
        metallic: None,
        roughness: None,
        transmission: Some(1000),
        emissive: None,
        tint,
    }
}

fn make_plain(base: u32, metallic: u32, roughness: u32) -> (r: Look)
    ensures
        r == plain(base, metallic, roughness),
{
    Look {
        base: Some(base),
        metallic: Some(metallic),
        roughness: Some(roughness),
        transmission: None,
        emissive: None,
        tint: None,
    }
}

fn make_glass(tint: Option<(u32, u32, u32)>) -> (r: Look)
    ensures
        r == glass(tint),
{
    Look {
        base: None,
        metallic: None,
        roughness: None,
        transmission: Some(1000),
        emissive: None,
        tint,
    }
}

/// The balls in a row: their names and what they are made of.
pub open spec fn ball_kind(i: int) -> (Seq<char>, Look) {
    if i == 0 {
        ("diffuse_white"@, plain(1000, 0, 1000))
    } else if i == 1 {
        ("metal_r1.0"@, plain(1000, 1000, 1000))
    } else if i == 2 {
        ("metal_r0.9"@, plain(1000, 1000, 900))
    } else if i == 3 {
        ("metal_r0.8"@, plain(1000, 1000, 800))
    } else if i == 4 {
        ("metal_r0.6"@, plain(1000, 1000, 600))
    } else if i == 5 {
        ("metal_r0.3"@, plain(1000, 1000, 300))
    } else if i == 6 {
        ("metal_r0.15"@, plain(1000, 1000, 150))
    } else {
        ("diffuse_grey"@, plain(500, 0, 1000))
    }
}

/// Where ball `i` of the row stands.
pub open spec fn ball_x(i: int) -> int {
    (2 * i - 7) * 1500
}

/// Ball `i` of the row.
pub open spec fn ball(i: int) -> BodyView {
    BodyView {
        name: ball_kind(i).0,
        shape: Shape::Sphere { radius: 1400 },
        at: (ball_x(i), 0, 0),
        turn: Turn::Upright,
        look: ball_kind(i).1,
    }
}

/// The probe of ball `i`: the middle of its front. A white ball must look like the sky.
pub open spec fn ball_probe(i: int) -> ProbeView {
    ProbeView {
        name: ball_kind(i).0,
        spot: SpotView::At(ball_x(i), 0, 1400),
        expect: if i < 7 {
            Expect::Sky
        } else {
            Expect::Anything
        },
    }
}

/// The bodies of the furnace: a row of balls, a clear ball, a turned clear cube and a tinted slab.
pub open spec fn furnace_bodies() -> Seq<BodyView> {
    Seq::new(8, |i: int| ball(i)) + seq![
        (BodyView {
            name: "glass_clear"@,
            shape: Shape::Sphere { radius: 1400 },
            at: (-13500, 0, 0),
            turn: Turn::Upright,
            look: glass(None),
        }),
        (BodyView {
            name: "glass_tir"@,
            shape: Shape::Cuboid { x: 3000, y: 3000, z: 3000 },
            at: (0, 7000, 0),
            turn: Turn::EighthAboutY,
            look: glass(None),
        }),
        (BodyView {
            name: "glass_tinted"@,
            shape: Shape::Cuboid { x: 6000, y: 4000, z: 3000 },
            at: (0, -7000, 0),
            turn: Turn::FacingCamera,
            look: glass(Some((900, 600, 300))),
        }),
    ]
}

/// The probes of the furnace: the sky, then one in front of each body.
pub open spec fn furnace_probes() -> Seq<ProbeView> {
    seq![
        (ProbeView { name: "sky"@, spot: SpotView::At(0, 14000, -14000), expect: Expect::Anything }),
    ] + Seq::new(8, |i: int| ball_probe(i)) + seq![
        (ProbeView { name: "glass_clear"@, spot: SpotView::At(-13500, 0, 1400), expect: Expect::Sky }),
        (ProbeView { name: "glass_tir"@, spot: SpotView::At(0, 7000, 2000), expect: Expect::Sky }),
        (ProbeView {
            name: "glass_tinted"@,
            spot: SpotView::Toward { x: 0, y: -7000, z: 0, distance: 1500 },
            expect: Expect::TintedSky,
        }),
    ]
}

fn name_ball(i: usize) -> (r: (&'static str, Look))
    ensures
        r.0@ == ball_kind(i as int).0,
        r.1 == ball_kind(i as int).1,
{
    if i == 0 {
        ("diffuse_white", make_plain(1000, 0, 1000))
    } else if i == 1 {
        ("metal_r1.0", make_plain(1000, 1000, 1000))
    } else if i == 2 {
        ("metal_r0.9", make_plain(1000, 1000, 900))
    } else if i == 3 {
        ("metal_r0.8", make_plain(1000, 1000, 800))
    } else if i == 4 {
        ("metal_r0.6", make_plain(1000, 1000, 600))
    } else if i == 5 {
        ("metal_r0.3", make_plain(1000, 1000, 300))
    } else if i == 6 {
        ("metal_r0.15", make_plain(1000, 1000, 150))
    } else {
        ("diffuse_grey", make_plain(500, 0, 1000))
    }
}

/// The furnace: bodies in a uniform white environment. A white ball of any roughness, and
/// lossless glass, must look like the sky.
pub fn setup_furnace() -> (r: ExamScene)
    ensures
        body_views(r.bodies@) == furnace_bodies(),
        probe_views(r.probes@) == furnace_probes(),
        r.camera == furnace_camera(),
        r.sky == furnace_sky(),
        r.sun is None,
        r.file is None,
{
    let mut bodies: Vec<Body> = Vec::new();
    let mut probes: Vec<Probe> = Vec::new();
    let ghost all = furnace_bodies();
    let ghost seen = furnace_probes();
    push_probe(&mut probes, "sky", Spot::At(0, 14000, -14000), Expect::Anything);
    assert(body_views(bodies@) =~= all.take(0));
    assert(probe_views(probes@) =~= seen.take(1));
    for i in 0usize..8
        invariant
            all == furnace_bodies(),
            seen == furnace_probes(),
            body_views(bodies@) == all.take(i as int),
            probe_views(probes@) == seen.take(1 + i as int),
    {
        let (name, look) = name_ball(i);
        let x: i64 = (2 * (i as i64) - 7) * 1500;
        push_body(
            &mut bodies,
            name,
            Shape::Sphere { radius: 1400 },
            (x, 0, 0),
            Turn::Upright,
            look,
        );
        let expect = if i < 7 {
            Expect::Sky
        } else {
            Expect::Anything
        };
        push_probe(&mut probes, name, Spot::At(x, 0, 1400), expect);
        assert(all[i as int] == ball(i as int));
        assert(seen[1 + i as int] == ball_probe(i as int));
        assert(body_views(bodies@) =~= all.take(i + 1));
        assert(probe_views(probes@) =~= seen.take(2 + i as int));
    }
    push_body(
        &mut bodies,
        "glass_clear",
        Shape::Sphere { radius: 1400 },
        (-13500, 0, 0),
        Turn::Upright,
        make_glass(None),
    );
    push_body(
        &mut bodies,
        "glass_tir",
        Shape::Cuboid { x: 3000, y: 3000, z: 3000 },
        (0, 7000, 0),
        Turn::EighthAboutY,
        make_glass(None),
    );
    push_body(
        &mut bodies,
        "glass_tinted",
        Shape::Cuboid { x: 6000, y: 4000, z: 3000 },
        (0, -7000, 0),
        Turn::FacingCamera,
        make_glass(Some((900, 600, 300))),
    );
    push_probe(&mut probes, "glass_clear", Spot::At(-13500, 0, 1400), Expect::Sky);
    push_probe(&mut probes, "glass_tir", Spot::At(0, 7000, 2000), Expect::Sky);
    push_probe(
        &mut probes,
        "glass_tinted",
        Spot::Toward { x: 0, y: -7000, z: 0, distance: 1500 },
        Expect::TintedSky,
    );
    assert(body_views(bodies@) =~= all);
    assert(probe_views(probes@) =~= seen);
    let sky = Sky::Uniform { texel: (HALF_ONE, HALF_ONE, HALF_ONE, HALF_ONE), nits: 1000 };
    ExamScene {
        file: None,
        bodies,
        probes,
        camera: Camera { at: (0, 0, 42000), target: None },
        sky,
        sun: None,
    }
}

/// Each body of the furnace has a probe of its own name. A white body of any roughness, and clear
/// glass, must look like the sky; tinted glass like the sky through it.
pub proof fn white_bodies_must_look_like_the_sky(i: int)
    requires
        0 <= i < furnace_bodies().len(),
    ensures
        furnace_probes().len() == furnace_bodies().len() + 1,
        furnace_probes()[i + 1].name == furnace_bodies()[i].name,
        furnace_bodies()[i].look.base == Some(1000u32) || (furnace_bodies()[i].look.transmission
            is Some && furnace_bodies()[i].look.tint is None)
            ==> furnace_probes()[i + 1].expect == Expect::Sky,
        furnace_bodies()[i].look.tint is Some ==> furnace_probes()[i + 1].expect
            == Expect::TintedSky,
{
}

/// The balls of the row do not touch each other.
pub proof fn balls_stand_apart(i: int, j: int)
    requires
        0 <= i < j < 8,
    ensures
        ball_x(j) - ball_x(i) > 2 * 1400,
{
}

/// A rough material without metal.
pub open spec fn matte(base: u32) -> Look {
    Look {
        base: Some(base),
        metallic: None,
        roughness: Some(1000),
        transmission: None,
        emissive: None,
        tint: None,
    }
}

fn make_matte(base: u32) -> (r: Look)
    ensures
        r == matte(base),
{
    Look {
        base: Some(base),
        metallic: None,
        roughness: Some(1000),
        transmission: None,
        emissive: None,
        tint: None,
    }
}

/// A lamp of some power.
pub open spec fn lamp(power: u32) -> Look {
    Look {
        base: Some(1000),
        metallic: None,
        roughness: None,
        transmission: None,
        emissive: Some(power),
        tint: None,
    }
}

fn make_lamp(power: u32) -> (r: Look)
    ensures
        r == lamp(power),
{
    Look {
        base: Some(1000),
        metallic: None,
        roughness: None,
        transmission: None,
        emissive: Some(power),
        tint: None,
    }
}

/// The power of lamp `k`: all equal, or a few floods over a sea of pilots.
pub open spec fn lamp_power(k: int, equal: bool) -> u32 {
    if equal {
        800
    } else if k % 5 == 4 {
        12000
    } else {
        2
    }
}

/// Lamp `k` of the room's ceiling: four to a row.
pub open spec fn room_lamp(k: int, equal: bool) -> BodyView {
    BodyView {
        name: "lamp_"@ + text::decimal(k as nat),
        shape: Shape::Cuboid { x: 900, y: 100, z: 900 },
        at: ((2 * (k % 4) - 3) * 1900, 2900, (2 * (k / 4) - 3) * 1900),
        turn: Turn::Upright,
        look: lamp(lamp_power(k, equal)),
    }
}

/// The room itself and what stands in it: a box 16 wide and 6 high whose floor is at -3, boxes on
/// the floor, two tilted ramps, and two pillars.
pub open spec fn room_fixtures() -> Seq<BodyView> {
    seq![
        (BodyView {
            name: "floor"@,
            shape: Shape::Cuboid { x: 16400, y: 200, z: 16400 },
            at: (0, -3100, 0),
            turn: Turn::Upright,
            look: matte(600),
        }),
        (BodyView {
            name: "ceiling"@,
            shape: Shape::Cuboid { x: 16400, y: 200, z: 16400 },
            at: (0, 3100, 0),
            turn: Turn::Upright,
            look: matte(600),
        }),
        (BodyView {
            name: "wall_x-"@,
            shape: Shape::Cuboid { x: 200, y: 6400, z: 16400 },
            at: (-8100, 0, 0),
            turn: Turn::Upright,
            look: matte(600),
        }),
        (BodyView {
            name: "wall_x+"@,
            shape: Shape::Cuboid { x: 200, y: 6400, z: 16400 },
            at: (8100, 0, 0),
            turn: Turn::Upright,
            look: matte(600),
        }),
        (BodyView {
            name: "wall_z-"@,
            shape: Shape::Cuboid { x: 16400, y: 6400, z: 200 },
            at: (0, 0, -8100),
            turn: Turn::Upright,
            look: matte(600),
        }),
        (BodyView {
            name: "wall_z+"@,
            shape: Shape::Cuboid { x: 16400, y: 6400, z: 200 },
            at: (0, 0, 8100),
            turn: Turn::Upright,
            look: matte(600),
        }),
        (BodyView {
            name: "box_0"@,
            shape: Shape::Cuboid { x: 1500, y: 1000, z: 1500 },
            at: (2600, -2500, 1200),
            turn: Turn::Upright,
            look: matte(600),
        }),
        (BodyView {
            name: "box_1"@,
            shape: Shape::Cuboid { x: 1000, y: 2200, z: 1000 },
            at: (200, -1900, 3000),
            turn: Turn::Upright,
            look: matte(600),
        }),
        (BodyView {
            name: "box_2"@,
            shape: Shape::Cuboid { x: 2200, y: 600, z: 1100 },
            at: (-2200, -2700, 2400),
            turn: Turn::Upright,
            look: matte(600),
        }),
        (BodyView {
            name: "box_3"@,
            shape: Shape::Cuboid { x: 800, y: 1800, z: 800 },
            at: (3200, -2100, -3000),
            turn: Turn::Upright,
            look: matte(600),
        }),
        (BodyView {
            name: "box_4"@,
            shape: Shape::Cuboid { x: 1300, y: 1400, z: 1300 },
            at: (-4200, -2300, 3600),
            turn: Turn::Upright,
            look: matte(600),
        }),
        (BodyView {
            name: "ramp_0"@,
            shape: Shape::Cuboid { x: 2600, y: 150, z: 1600 },
            at: (4200, -1900, 3200),
            turn: Turn::AboutZ(600),
            look: matte(600),
        }),
        (BodyView {
            name: "ramp_1"@,
            shape: Shape::Cuboid { x: 1800, y: 150, z: 2200 },
            at: (-1200, -2100, -3800),
            turn: Turn::AboutX(550),
            look: matte(600),
        }),
        (BodyView {
            name: "pillar_diffuse"@,
            shape: Shape::Cuboid { x: 700, y: 1800, z: 700 },
            at: (-1500, -2100, -1000),
            turn: Turn::Upright,
            look: matte(600),
        }),
        (BodyView {
            name: "pillar_metal"@,
            shape: Shape::Cuboid { x: 700, y: 1800, z: 700 },
            at: (500, -2100, -1000),
            turn: Turn::Upright,
            look: matte(600),
        }),
    ]
}

/// The balls on the pillars.
pub open spec fn room_balls() -> Seq<BodyView> {
    seq![
        (BodyView {
            name: "ball_diffuse"@,
            shape: Shape::Sphere { radius: 700 },
            at: (-1500, -500, -1000),
            turn: Turn::Upright,
            look: matte(1000),
        }),
        (BodyView {
            name: "ball_metal"@,
            shape: Shape::Sphere { radius: 700 },
            at: (500, -500, -1000),
            turn: Turn::Upright,
            look: plain(1000, 1000, 400),
        }),
    ]
}

/// The bodies of the room.
pub open spec fn room_bodies(equal: bool) -> Seq<BodyView> {
    room_fixtures() + Seq::new(16, |k: int| room_lamp(k, equal)) + room_balls()
}

/// The probes of the room.
pub open spec fn room_probes() -> Seq<ProbeView> {
    seq![
        (ProbeView { name: "floor_open"@, spot: SpotView::At(5500, -3000, -5500), expect: Expect::Anything }),
        (ProbeView { name: "floor_amid"@, spot: SpotView::At(-1200, -3000, 500), expect: Expect::Anything }),
        (ProbeView { name: "box_top"@, spot: SpotView::At(200, 0, 3000), expect: Expect::Anything }),
        (ProbeView { name: "ball_diffuse"@, spot: SpotView::At(-1500, -500, -300), expect: Expect::Anything }),
        (ProbeView { name: "ball_metal"@, spot: SpotView::At(500, -500, -300), expect: Expect::Anything }),
        (ProbeView { name: "wall_z-"@, spot: SpotView::At(0, 500, -8000), expect: Expect::Anything }),
    ]
}

fn push_lamp(bodies: &mut Vec<Body>, prefix: &str, k: u32, at: (i64, i64, i64), power: u32)
    ensures
        body_views(final(bodies)@) == body_views(old(bodies)@).push(
            (BodyView {
                name: prefix@ + text::decimal(k as nat),
                shape: Shape::Cuboid { x: 900, y: 100, z: 900 },
                at: (at.0 as int, at.1 as int, at.2 as int),
                turn: Turn::Upright,
                look: lamp(power),
            }),
        ),
{
    let mut name = prefix.to_owned();
    text::push_decimal(&mut name, k as u64);
    push_body(
        bodies,
        name.as_str(),
        Shape::Cuboid { x: 900, y: 100, z: 900 },
        at,
        Turn::Upright,
        make_lamp(power),
    );
}

#[verifier::rlimit(40)]
fn furnish_room() -> (r: Vec<Body>)
    ensures
        body_views(r@) == room_fixtures(),
{
    let mut bodies: Vec<Body> = Vec::new();
    assert(body_views(bodies@) =~= seq![]);
    let grey = make_matte(600);
    push_body(
        &mut bodies,
        "floor",
        Shape::Cuboid { x: 16400, y: 200, z: 16400 },
        (0, -3100, 0),
        Turn::Upright,
        grey,
    );
    push_body(
        &mut bodies,
        "ceiling",
        Shape::Cuboid { x: 16400, y: 200, z: 16400 },
        (0, 3100, 0),
        Turn::Upright,
        grey,
    );
    push_body(
        &mut bodies,
        "wall_x-",
        Shape::Cuboid { x: 200, y: 6400, z: 16400 },
        (-8100, 0, 0),
        Turn::Upright,
        grey,
    );
    push_body(
        &mut bodies,
        "wall_x+",
        Shape::Cuboid { x: 200, y: 6400, z: 16400 },
        (8100, 0, 0),
        Turn::Upright,
        grey,
    );
    push_body(
        &mut bodies,
        "wall_z-",
        Shape::Cuboid { x: 16400, y: 6400, z: 200 },
        (0, 0, -8100),
        Turn::Upright,
        grey,
    );
    push_body(
        &mut bodies,
        "wall_z+",
        Shape::Cuboid { x: 16400, y: 6400, z: 200 },
        (0, 0, 8100),
        Turn::Upright,
        grey,
    );
    push_body(
        &mut bodies,
        "box_0",
        Shape::Cuboid { x: 1500, y: 1000, z: 1500 },
        (2600, -2500, 1200),
        Turn::Upright,
        grey,
    );
    push_body(
        &mut bodies,
        "box_1",
        Shape::Cuboid { x: 1000, y: 2200, z: 1000 },
        (200, -1900, 3000),
        Turn::Upright,
        grey,
    );
    push_body(
        &mut bodies,
        "box_2",
        Shape::Cuboid { x: 2200, y: 600, z: 1100 },
        (-2200, -2700, 2400),
        Turn::Upright,
        grey,
    );
    push_body(
        &mut bodies,
        "box_3",
        Shape::Cuboid { x: 800, y: 1800, z: 800 },
        (3200, -2100, -3000),
        Turn::Upright,
        grey,
    );
    push_body(
        &mut bodies,
        "box_4",
        Shape::Cuboid { x: 1300, y: 1400, z: 1300 },
        (-4200, -2300, 3600),
        Turn::Upright,
        grey,
    );
    push_body(
        &mut bodies,
        "ramp_0",
        Shape::Cuboid { x: 2600, y: 150, z: 1600 },
        (4200, -1900, 3200),
        Turn::AboutZ(600),
        grey,
    );
    push_body(
        &mut bodies,
        "ramp_1",
        Shape::Cuboid { x: 1800, y: 150, z: 2200 },
        (-1200, -2100, -3800),
        Turn::AboutX(550),
        grey,
    );
    push_body(
        &mut bodies,
        "pillar_diffuse",
        Shape::Cuboid { x: 700, y: 1800, z: 700 },
        (-1500, -2100, -1000),
        Turn::Upright,
        grey,
    );
    push_body(
        &mut bodies,
        "pillar_metal",
        Shape::Cuboid { x: 700, y: 1800, z: 700 },
        (500, -2100, -1000),
        Turn::Upright,
        grey,
    );
    assert(body_views(bodies@) =~= room_fixtures());
    bodies
}

/// The room: a static grey box of boxes, ramps, and balls on pillars under a grid of lamps.
pub fn setup_room(equal: bool) -> (r: ExamScene)
    ensures
        body_views(r.bodies@) == room_bodies(equal),
        probe_views(r.probes@) == room_probes(),
        r.camera == room_camera(),
        r.sky == Sky::Dark,
        r.sun is None,
        r.file is None,
{
    let mut bodies = furnish_room();
    let ghost all = room_bodies(equal);
    let ghost n = room_fixtures().len();
    assert(body_views(bodies@) =~= all.take(n as int));
    for k in 0u32..16
        invariant
            all == room_bodies(equal),
            n == room_fixtures().len(),
            body_views(bodies@) == all.take(n + k),
    {
        let power: u32 = if equal {
            800
        } else if k % 5 == 4 {
            12000
        } else {
            2
        };
        let x: i64 = (2 * ((k % 4) as i64) - 3) * 1900;
        let z: i64 = (2 * ((k / 4) as i64) - 3) * 1900;
        push_lamp(&mut bodies, "lamp_", k, (x, 2900, z), power);
        assert(all[n + k] == room_lamp(k as int, equal));
        assert(body_views(bodies@) =~= all.take(n + k + 1));
    }
    push_body(
        &mut bodies,
        "ball_diffuse",
        Shape::Sphere { radius: 700 },
        (-1500, -500, -1000),
        Turn::Upright,
        make_matte(1000),
    );
    push_body(
        &mut bodies,
        "ball_metal",
        Shape::Sphere { radius: 700 },
        (500, -500, -1000),
        Turn::Upright,
        make_plain(1000, 1000, 400),
    );
    assert(body_views(bodies@) =~= all);
    let mut probes: Vec<Probe> = Vec::new();
    assert(probe_views(probes@) =~= seq![]);
    push_probe(&mut probes, "floor_open", Spot::At(5500, -3000, -5500), Expect::Anything);
    push_probe(&mut probes, "floor_amid", Spot::At(-1200, -3000, 500), Expect::Anything);
    push_probe(&mut probes, "box_top", Spot::At(200, 0, 3000), Expect::Anything);
    push_probe(&mut probes, "ball_diffuse", Spot::At(-1500, -500, -300), Expect::Anything);
    push_probe(&mut probes, "ball_metal", Spot::At(500, -500, -300), Expect::Anything);
    push_probe(&mut probes, "wall_z-", Spot::At(0, 500, -8000), Expect::Anything);
    assert(probe_views(probes@) =~= room_probes());
    ExamScene {
        file: None,
        bodies,
        probes,
        camera: Camera { at: (3500, 1600, 7000), target: Some((-500, -2200, 0)) },
        sky: Sky::Dark,
        sun: None,
    }
}

/// Whether a body rests on a height.
pub open spec fn rests_on(b: BodyView, height: int) -> bool {
    match b.shape {
        Shape::Sphere { radius } => b.at.1 - radius == height,
        Shape::Cuboid { y, .. } => 2 * b.at.1 - y == 2 * height,
    }
}

/// The boxes and the pillars of the room rest on its floor, and each ball on its pillar.
pub proof fn room_stands(k: int)
    ensures
        rests_on(room_fixtures()[0], -3000 - 200),
        6 <= k < 11 || 13 <= k < 15 ==> rests_on(room_fixtures()[k], -3000),
        0 <= k < 2 ==> rests_on(room_balls()[k], -3000 + 1800),
        0 <= k < 2 ==> room_balls()[k].at.0 == room_fixtures()[13 + k].at.0
            && room_balls()[k].at.2 == room_fixtures()[13 + k].at.2,
{
}

/// Lamp `k` of the yard: two by two over one corner.
pub open spec fn yard_lamp(k: int) -> BodyView {
    BodyView {
        name: "yard_lamp_"@ + text::decimal(k as nat),
        shape: Shape::Cuboid { x: 900, y: 100, z: 900 },
        at: (-9000 + (k % 2) * 2000, 4000, 6000 + (k / 2) * 2000),
        turn: Turn::Upright,
        look: lamp(800),
    }
}

/// The ground of the yard and the boxes on it.
pub open spec fn yard_fixtures() -> Seq<BodyView> {
    seq![
        (BodyView {
            name: "ground"@,
            shape: Shape::Cuboid { x: 40000, y: 300, z: 40000 },
            at: (0, -150, 0),
            turn: Turn::Upright,
            look: matte(600),
        }),
        (BodyView {
            name: "box_a"@,
            shape: Shape::Cuboid { x: 2000, y: 2000, z: 2000 },
            at: (-4000, 1000, 0),
            turn: Turn::Upright,
            look: matte(600),
        }),
        (BodyView {
            name: "box_b"@,
            shape: Shape::Cuboid { x: 2000, y: 2000, z: 2000 },
            at: (0, 1000, -3000),
            turn: Turn::Upright,
            look: matte(600),
        }),
        (BodyView {
            name: "box_c"@,
            shape: Shape::Cuboid { x: 2000, y: 2000, z: 2000 },
            at: (5000, 1000, 2000),
            turn: Turn::Upright,
            look: matte(600),
        }),
    ]
}

/// The bodies of the yard.
pub open spec fn yard_bodies() -> Seq<BodyView> {
    yard_fixtures() + Seq::new(4, |k: int| yard_lamp(k))
}

/// The probes of the yard.
pub open spec fn yard_probes() -> Seq<ProbeView> {
    seq![
        (ProbeView { name: "sun_ground"@, spot: SpotView::At(8000, 0, 8000), expect: Expect::Anything }),
        (ProbeView { name: "shadow_ground"@, spot: SpotView::At(-1600, 0, -4800), expect: Expect::Anything }),
        (ProbeView { name: "lamp_ground"@, spot: SpotView::At(-8000, 0, 7000), expect: Expect::Anything }),
        (ProbeView { name: "box_face"@, spot: SpotView::At(-4000, 1200, 1010), expect: Expect::Anything }),
    ]
}

/// The yard: sun and a cluster of lamps over one open ground.
pub fn setup_yard() -> (r: ExamScene)
    ensures
        body_views(r.bodies@) == yard_bodies(),
        probe_views(r.probes@) == yard_probes(),
        r.camera == yard_camera(),
        r.sky == Sky::Dark,
        r.sun == Some(yard_sun()),
        r.file is None,
{
    let mut bodies: Vec<Body> = Vec::new();
    assert(body_views(bodies@) =~= seq![]);
    let grey = make_matte(600);
    push_body(
        &mut bodies,
        "ground",
        Shape::Cuboid { x: 40000, y: 300, z: 40000 },
        (0, -150, 0),
        Turn::Upright,
        grey,
    );
    push_body(
        &mut bodies,
        "box_a",
        Shape::Cuboid { x: 2000, y: 2000, z: 2000 },
        (-4000, 1000, 0),
        Turn::Upright,
        grey,
    );
    push_body(
        &mut bodies,
        "box_b",
        Shape::Cuboid { x: 2000, y: 2000, z: 2000 },
        (0, 1000, -3000),
        Turn::Upright,
        grey,
    );
    push_body(
        &mut bodies,
        "box_c",
        Shape::Cuboid { x: 2000, y: 2000, z: 2000 },
        (5000, 1000, 2000),
        Turn::Upright,
        grey,
    );
    let ghost all = yard_bodies();
    assert(body_views(bodies@) =~= all.take(4));
    for k in 0u32..4
        invariant
            all == yard_bodies(),
            body_views(bodies@) == all.take(4 + k),
    {
        let x: i64 = -9000 + ((k % 2) as i64) * 2000;
        let z: i64 = 6000 + ((k / 2) as i64) * 2000;
        push_lamp(&mut bodies, "yard_lamp_", k, (x, 4000, z), 800);
        assert(all[4 + k] == yard_lamp(k as int));
        assert(body_views(bodies@) =~= all.take(5 + k));
    }
    assert(body_views(bodies@) =~= all);
    let mut probes: Vec<Probe> = Vec::new();
    assert(probe_views(probes@) =~= seq![]);
    push_probe(&mut probes, "sun_ground", Spot::At(8000, 0, 8000), Expect::Anything);
    push_probe(&mut probes, "shadow_ground", Spot::At(-1600, 0, -4800), Expect::Anything);
    push_probe(&mut probes, "lamp_ground", Spot::At(-8000, 0, 7000), Expect::Anything);
    push_probe(&mut probes, "box_face", Spot::At(-4000, 1200, 1010), Expect::Anything);
    assert(probe_views(probes@) =~= yard_probes());
    let sun = Sun { ray: Some(((8000, 16000, 8000), (0, 0, 0))), illuminance: Some(5000), color: None };
    ExamScene {
        file: None,
        bodies,
        probes,
        camera: Camera { at: (2000, 7000, 20000), target: Some((-1000, 0, 0)) },
        sky: Sky::Dark,
        sun: Some(sun),
    }
}

/// The bistro: a baked scene under a sun and an atmosphere, without a body or a probe of its own.
pub fn setup_bistro() -> (r: ExamScene)
    ensures
        r.file is Some && r.file->0@ == "bistro/bistro.bsn"@,
        r.bodies@.len() == 0,
        r.probes@.len() == 0,
        r.camera == bistro_camera(),
        r.sky == Sky::Atmosphere,
        r.sun == Some(bistro_sun()),
{
    ExamScene {
        file: Some("bistro/bistro.bsn".to_owned()),
        bodies: Vec::new(),
        probes: Vec::new(),
        camera: Camera { at: (-10000, 2000, 0), target: Some((0, 0, 0)) },
        sky: Sky::Atmosphere,
        sun: Some(Sun { ray: None, illuminance: None, color: Some((1000, 870, 780)) }),
    }
}

/// The furnace's camera looks along the row's fronts: every judged probe stands nearer to it than
/// the body it is named after.
pub proof fn furnace_probes_face_the_camera(i: int)
    requires
        0 <= i < 9,
    ensures
        furnace_probes()[1 + i].name == furnace_bodies()[i].name,
        furnace_probes()[1 + i].spot matches SpotView::At(x, y, z) && (x, y)
            == (furnace_bodies()[i].at.0, furnace_bodies()[i].at.1) && furnace_bodies()[i].at.2 < z
            < furnace_camera().at.2,
{
}

/// Every judged probe of the furnace touches its body: that of a ball lies on the ball, right before
/// its middle.
pub proof fn probes_touch_their_balls(i: int)
    requires
        0 <= i < 9,
    ensures
        ({
            let b = furnace_bodies()[i];
            &&& b.shape == (Shape::Sphere { radius: 1400 })
            &&& furnace_probes()[i + 1].spot == SpotView::At(b.at.0, b.at.1, b.at.2 + 1400)
        }),
{
}

/// The row has a white ball without metal, then six white metal ones, each smoother than the one
/// before it, and at its end a grey one without metal.
pub proof fn metals_get_smoother(i: int)
    ensures
        furnace_bodies()[0].look.metallic == Some(0u32) && furnace_bodies()[0].look.base == Some(1000u32),
        1 <= i < 7 ==> furnace_bodies()[i].look.metallic == Some(1000u32)
            && furnace_bodies()[i].look.base == Some(1000u32),
        1 <= i < 6 ==> furnace_bodies()[i].look.roughness is Some && furnace_bodies()[i
            + 1].look.roughness is Some && furnace_bodies()[i].look.roughness->0 > furnace_bodies()[i
            + 1].look.roughness->0,
        furnace_bodies()[1].look.roughness == Some(1000u32),
        furnace_bodies()[6].look.roughness == Some(150u32),
        furnace_bodies()[7].look.base == Some(500u32) && furnace_bodies()[7].look.metallic == Some(0u32),
        0 <= i < 7 ==> furnace_bodies()[i + 1].at.0 - furnace_bodies()[i].at.0 == 3000,
        0 <= i < 8 ==> furnace_bodies()[i].at.1 == 0 && furnace_bodies()[i].at.2 == 0,
        furnace_bodies()[0].at.0 == -furnace_bodies()[7].at.0,
{
}

/// The furnace's sky is white and the same from every direction, and nothing else lights it: what is
/// seen of a body that loses no light is the sky.
pub proof fn the_furnace_is_white()
    ensures
        furnace_sky() matches Sky::Uniform { texel, nits } && texel.0 == texel.1 && texel.1 == texel.2
            && texel.0 == 0x3c00 && nits == 1000,
        forall|i: int|
            0 <= i < furnace_bodies().len() ==> (#[trigger] furnace_bodies()[i]).look.emissive is None,
{
}

/// The room's walls, floor and ceiling enclose it: their inner faces lie eight units from its middle
/// each way, and three below and above it.
pub proof fn walls_enclose_the_room()
    ensures
        ({
            let r = room_fixtures();
            let faces = |b: BodyView, axis: int| -> (int, int) {
                match b.shape {
                    Shape::Cuboid { x, y, z } => if axis == 0 {
                        (2 * b.at.0 - x, 2 * b.at.0 + x)
                    } else if axis == 1 {
                        (2 * b.at.1 - y, 2 * b.at.1 + y)
                    } else {
                        (2 * b.at.2 - z, 2 * b.at.2 + z)
                    },
                    _ => (0, 0),
                }
            };
            &&& faces(r[0], 1).1 == 2 * -3000
            &&& faces(r[1], 1).0 == 2 * 3000
            &&& faces(r[2], 0).1 == 2 * -8000
            &&& faces(r[3], 0).0 == 2 * 8000
            &&& faces(r[4], 2).1 == 2 * -8000
            &&& faces(r[5], 2).0 == 2 * 8000
        }),
        forall|k: int|
            0 <= k < room_fixtures().len() ==> (#[trigger] room_fixtures()[k]).look == matte(600),
{
}

/// Sixteen lamps hang under the room's ceiling, four by four, 3.8 units apart and about its middle.
/// They are equally strong, or three of them are floods and the others pilots.
pub proof fn lamps_hang_in_a_grid(k: int, equal: bool)
    requires
        0 <= k < 16,
    ensures
        ({
            let l = room_lamp(k, equal);
            &&& room_bodies(equal)[15 + k] == l
            &&& l.at.1 == 2900
            &&& l.at.0 == -5700 + 3800 * (k % 4)
            &&& l.at.2 == -5700 + 3800 * (k / 4)
            &&& l.shape == (Shape::Cuboid { x: 900, y: 100, z: 900 })
            &&& equal ==> l.look.emissive == Some(800u32)
            &&& !equal ==> l.look.emissive == Some(
                if k == 4 || k == 9 || k == 14 {
                    12000u32
                } else {
                    2u32
                },
            )
        }),
        room_bodies(equal).len() == 33,
{
}

/// The yard's boxes stand on its ground, whose top is at zero, and four equal lamps hang over one
/// corner, two units apart.
pub proof fn the_yard_stands(k: int)
    ensures
        rests_on(yard_fixtures()[0], -300),
        1 <= k < 4 ==> rests_on(yard_fixtures()[k], 0),
        0 <= k < 4 ==> yard_bodies()[4 + k] == yard_lamp(k) && yard_lamp(k).at == (
            -9000 + 2000 * (k % 2),
            4000int,
            6000 + 2000 * (k / 2),
        ) && yard_lamp(k).look.emissive == Some(800u32),
        yard_bodies().len() == 8,
{
}

/// Bodies, spots and probes keep each of their parts.
pub proof fn bodies_and_probes_keep_their_parts(b: Body, p: Probe)
    ensures
        b@.name == b.name@ && b@.shape == b.shape && b@.turn == b.turn && b@.look == b.look,
        b@.at == (b.at.0 as int, b.at.1 as int, b.at.2 as int),
        p@.name == p.name@ && p@.expect == p.expect,
        match p.spot {
            Spot::At(x, y, z) => p@.spot == SpotView::At(x as int, y as int, z as int),
            Spot::Toward { x, y, z, distance } => p@.spot == (SpotView::Toward {
                x: x as int,
                y: y as int,
                z: z as int,
                distance: distance as int,
            }),
        },
{
}

/// The room's probes lie on what they are named after: two on the floor, one over the middle box, one
/// on the front of each ball and one on the far wall.
pub proof fn room_probes_lie_on_their_bodies(k: int)
    requires
        0 <= k < 2,
    ensures
        room_probes().len() == 6,
        room_probes()[k].spot matches SpotView::At(_, y, _) && y == -3000,
        room_probes()[2].spot matches SpotView::At(x, y, z) && x == room_fixtures()[7].at.0 && y == 0
            && z == room_fixtures()[7].at.2,
        room_probes()[3 + k].name == room_balls()[k].name,
        room_probes()[3 + k].spot == SpotView::At(
            room_balls()[k].at.0,
            room_balls()[k].at.1,
            room_balls()[k].at.2 + 700,
        ),
        room_balls()[k].shape == (Shape::Sphere { radius: 700 }),
        room_probes()[5].spot matches SpotView::At(_, _, z) && z == -8000,
        room_balls()[0].look.metallic is None,
        room_balls()[1].look.metallic == Some(1000u32),
{
}

/// The cameras and the suns of the scenes stand where they do, and look at what they do.
pub proof fn scenes_are_seen_from_their_cameras()
    ensures
        furnace_camera().at == (0i64, 0i64, 42000i64) && furnace_camera().target is None,
        room_camera().at == (3500i64, 1600i64, 7000i64) && room_camera().target == Some(
            (-500i64, -2200i64, 0i64),
        ),
        yard_camera().at == (2000i64, 7000i64, 20000i64) && yard_camera().target == Some(
            (-1000i64, 0i64, 0i64),
        ),
        bistro_camera().at == (-10000i64, 2000i64, 0i64) && bistro_camera().target == Some(
            (0i64, 0i64, 0i64),
        ),
        yard_sun().ray == Some(((8000i64, 16000i64, 8000i64), (0i64, 0i64, 0i64))),
        yard_sun().illuminance == Some(5000u32) && yard_sun().color is None,
        bistro_sun().ray is None && bistro_sun().illuminance is None,
        bistro_sun().color == Some((1000u32, 870u32, 780u32)),
{
}

/// The yard's probes lie in the sun, in a box's shadow, under the lamps and on a box's face.
pub proof fn yard_probes_lie_where_they_say()
    ensures
        yard_probes().len() == 4,
        yard_probes()[0].name == "sun_ground"@ && yard_probes()[0].spot == SpotView::At(8000, 0, 8000),
        yard_probes()[1].name == "shadow_ground"@ && yard_probes()[1].spot == SpotView::At(
            -1600,
            0,
            -4800,
        ),
        yard_probes()[2].name == "lamp_ground"@ && yard_probes()[2].spot == SpotView::At(
            (yard_lamp(0).at.0 + yard_lamp(3).at.0) / 2,
            0,
            (yard_lamp(0).at.2 + yard_lamp(3).at.2) / 2,
        ),
        yard_probes()[3].name == "box_face"@ && yard_probes()[3].spot == SpotView::At(-4000, 1200, 1010),
{
}

/// The furnace's glass stands apart from the row: a clear ball left of it, a clear cube of three
/// units, turned by an eighth, above it, and a tinted slab of six by four by three units, which
/// faces the camera, below it. The probe of the cube lies before its edge, that of the slab on its
/// face.
pub proof fn glass_stands_apart()
    ensures
        furnace_bodies().len() == 11,
        furnace_bodies()[8].at == (-13500int, 0int, 0int),
        furnace_bodies()[9].at == (0int, 7000int, 0int) && furnace_bodies()[9].turn is EighthAboutY
            && furnace_bodies()[9].shape == (Shape::Cuboid { x: 3000, y: 3000, z: 3000 }),
        furnace_bodies()[10].at == (0int, -7000int, 0int) && furnace_bodies()[10].turn is FacingCamera
            && furnace_bodies()[10].shape == (Shape::Cuboid { x: 6000, y: 4000, z: 3000 }),
        furnace_bodies()[10].look.tint == Some((900u32, 600u32, 300u32)),
        forall|i: int|
            8 <= i < 11 ==> (#[trigger] furnace_bodies()[i]).look.transmission == Some(1000u32)
                && furnace_bodies()[i].look.base is None,
        furnace_probes()[0].name == "sky"@ && furnace_probes()[0].spot == SpotView::At(0, 14000, -14000),
        furnace_probes()[10].spot == SpotView::At(0, 7000, 2000),
        furnace_probes()[11].spot == (SpotView::Toward { x: 0, y: -7000, z: 0, distance: 1500 }),
{
}

/// The room's boxes, ramps and pillars stand where they do.
pub proof fn room_furniture_has_its_places(k: int)
    ensures
        room_fixtures().len() == 15,
        ({
            let r = room_fixtures();
            &&& r[6].at == (2600int, -2500int, 1200int)
            &&& r[7].at == (200int, -1900int, 3000int)
            &&& r[8].at == (-2200int, -2700int, 2400int)
            &&& r[9].at == (3200int, -2100int, -3000int)
            &&& r[10].at == (-4200int, -2300int, 3600int)
            &&& r[11].at == (4200int, -1900int, 3200int) && r[11].turn == Turn::AboutZ(600)
            &&& r[12].at == (-1200int, -2100int, -3800int) && r[12].turn == Turn::AboutX(550)
            &&& r[13].at == (-1500int, -2100int, -1000int)
            &&& r[14].at == (500int, -2100int, -1000int)
            &&& 0 <= k < 15 && k != 11 && k != 12 ==> r[k].turn is Upright
        }),
{
}

/// The yard's boxes are two units each way and stand where they do.
pub proof fn yard_boxes_have_their_places(k: int)
    ensures
        yard_fixtures().len() == 4,
        yard_fixtures()[1].at == (-4000int, 1000int, 0int),
        yard_fixtures()[2].at == (0int, 1000int, -3000int),
        yard_fixtures()[3].at == (5000int, 1000int, 2000int),
        1 <= k < 4 ==> yard_fixtures()[k].shape == (Shape::Cuboid { x: 2000, y: 2000, z: 2000 })
            && yard_fixtures()[k].turn is Upright,
{
}

/// The bodies of the scenes go by their names, and lamps by their numbers.
pub proof fn bodies_go_by_name(k: int)
    ensures
        furnace_bodies()[0].name == "diffuse_white"@,
        furnace_bodies()[1].name == "metal_r1.0"@,
        furnace_bodies()[2].name == "metal_r0.9"@,
        furnace_bodies()[3].name == "metal_r0.8"@,
        furnace_bodies()[4].name == "metal_r0.6"@,
        furnace_bodies()[5].name == "metal_r0.3"@,
        furnace_bodies()[6].name == "metal_r0.15"@,
        furnace_bodies()[7].name == "diffuse_grey"@,
        furnace_bodies()[8].name == "glass_clear"@,
        furnace_bodies()[9].name == "glass_tir"@,
        furnace_bodies()[10].name == "glass_tinted"@,
        room_fixtures()[0].name == "floor"@,
        room_fixtures()[1].name == "ceiling"@,
        room_fixtures()[2].name == "wall_x-"@,
        room_fixtures()[3].name == "wall_x+"@,
        room_fixtures()[4].name == "wall_z-"@,
        room_fixtures()[5].name == "wall_z+"@,
        room_fixtures()[6].name == "box_0"@,
        room_fixtures()[7].name == "box_1"@,
        room_fixtures()[8].name == "box_2"@,
        room_fixtures()[9].name == "box_3"@,
        room_fixtures()[10].name == "box_4"@,
        room_fixtures()[11].name == "ramp_0"@,
        room_fixtures()[12].name == "ramp_1"@,
        room_fixtures()[13].name == "pillar_diffuse"@,
        room_fixtures()[14].name == "pillar_metal"@,
        room_balls()[0].name == "ball_diffuse"@ && room_balls()[1].name == "ball_metal"@,
        yard_fixtures()[0].name == "ground"@ && yard_fixtures()[1].name == "box_a"@,
        yard_fixtures()[2].name == "box_b"@ && yard_fixtures()[3].name == "box_c"@,
        0 <= k ==> room_lamp(k, true).name == "lamp_"@ + text::decimal(k as nat),
        0 <= k ==> yard_lamp(k).name == "yard_lamp_"@ + text::decimal(k as nat),
{
}

/// The sizes of the room's furniture: boxes and pillars are as large as they are, and ramps are thin.
pub proof fn room_furniture_has_its_sizes()
    ensures
        ({
            let r = room_fixtures();
            &&& r[6].shape == (Shape::Cuboid { x: 1500, y: 1000, z: 1500 })
            &&& r[7].shape == (Shape::Cuboid { x: 1000, y: 2200, z: 1000 })
            &&& r[8].shape == (Shape::Cuboid { x: 2200, y: 600, z: 1100 })
            &&& r[9].shape == (Shape::Cuboid { x: 800, y: 1800, z: 800 })
            &&& r[10].shape == (Shape::Cuboid { x: 1300, y: 1400, z: 1300 })
            &&& r[11].shape == (Shape::Cuboid { x: 2600, y: 150, z: 1600 })
            &&& r[12].shape == (Shape::Cuboid { x: 1800, y: 150, z: 2200 })
            &&& r[13].shape == (Shape::Cuboid { x: 700, y: 1800, z: 700 })
            &&& r[14].shape == (Shape::Cuboid { x: 700, y: 1800, z: 700 })
            &&& yard_fixtures()[0].shape == (Shape::Cuboid { x: 40000, y: 300, z: 40000 })
        }),
{
}

} // verus!
