//! The props and textures of the procedural city, and random picks among them.

use vstd::prelude::*;
use crate::city;
use crate::city::Model;
use crate::exam;
use crate::text;

verus! {

/// The path of a mesh of a kit.
pub open spec fn mesh_path(kit: Seq<char>, name: Seq<char>) -> Seq<char> {
    "kenney/"@ + kit + "/meshes/"@ + name + ".cluster_mesh"@
}

/// The path of a texture of a kit.
pub open spec fn texture_path(kit: Seq<char>, name: Seq<char>) -> Seq<char> {
    "kenney/"@ + kit + "/textures/"@ + name + ".png"@
}

/// The path of the mesh `prefix` + `name` of a kit.
pub fn name_mesh(kit: &str, prefix: &str, name: &str) -> (r: String)
    ensures
        r@ == mesh_path(kit@, prefix@ + name@),
{
    let mut out = "kenney/".to_owned();
    out.append(kit);
    out.append("/meshes/");
    out.append(prefix);
    out.append(name);
    out.append(".cluster_mesh");
    assert(out@ =~= mesh_path(kit@, prefix@ + name@));
    out
}

/// The path of a mesh of a kit.
pub fn name_plain(kit: &str, name: &str) -> (r: String)
    ensures
        r@ == mesh_path(kit@, name@),
{
    let r = name_mesh(kit, "", name);
    proof {
        reveal_strlit("");
        assert(""@ + name@ =~= name@);
    }
    r
}

/// The path of a texture of a kit.
pub fn name_texture(kit: &str, name: &str) -> (r: String)
    ensures
        r@ == texture_path(kit@, name@),
{
    let mut out = "kenney/".to_owned();
    out.append(kit);
    out.append("/textures/");
    out.append(name);
    out.append(".png");
    out
}

fn push_mesh(out: &mut Vec<String>, kit: &str, prefix: &str, name: &str)
    ensures
        text::texts(final(out)@) == text::texts(old(out)@).push(mesh_path(kit@, prefix@ + name@)),
{
    let path = name_mesh(kit, prefix, name);
    proof {
        text::lemma_texts_push(out@, path);
    }
    out.push(path);
}

fn push_plain(out: &mut Vec<String>, kit: &str, name: &str)
    ensures
        text::texts(final(out)@) == text::texts(old(out)@).push(mesh_path(kit@, name@)),
{
    let path = name_plain(kit, name);
    proof {
        text::lemma_texts_push(out@, path);
    }
    out.push(path);
}

fn push_texture(out: &mut Vec<String>, kit: &str, name: &str)
    ensures
        text::texts(final(out)@) == text::texts(old(out)@).push(texture_path(kit@, name@)),
{
    let path = name_texture(kit, name);
    proof {
        text::lemma_texts_push(out@, path);
    }
    out.push(path);
}

/// The buildings of a zone: any mesh goes with any material.
pub struct Buildings {
    pub meshes: Vec<String>,
    pub materials: Vec<String>,
}

/// What a pick among buildings gives: a mesh and a material.
pub open spec fn is_pick(b: Buildings, mesh: Seq<char>, material: Seq<char>) -> bool {
    text::texts(b.meshes@).contains(mesh) && text::texts(b.materials@).contains(material)
}

impl Buildings {
    /// Whether there is something to pick.
    pub open spec fn some(self) -> bool {
        self.meshes@.len() > 0 && self.materials@.len() > 0
    }

    /// The mesh and the material at two places.
    pub fn at(&self, mesh: usize, material: usize) -> (r: (String, String))
        requires
            mesh < self.meshes@.len(),
            material < self.materials@.len(),
        ensures
            r.0@ == self.meshes@[mesh as int]@,
            r.1@ == self.materials@[material as int]@,
    {
        (self.meshes[mesh].clone(), self.materials[material].clone())
    }

    /// The places of a random mesh and a random material.
    pub fn draw(&self, rng: &mut rand::rngs::SmallRng) -> (r: (usize, usize))
        requires
            self.some(),
        ensures
            r.0 < self.meshes@.len(),
            r.1 < self.materials@.len(),
    {
        let mesh: usize = city::draw_below(rng, self.meshes.len());
        let material: usize = city::draw_below(rng, self.materials.len());
        (mesh, material)
    }

    /// A random mesh and a random material.
    pub fn random(&self, rng: &mut rand::rngs::SmallRng) -> (r: (String, String))
        requires
            self.some(),
        ensures
            is_pick(*self, r.0@, r.1@),
    {
        let (mesh, material) = self.draw(rng);
        let r = self.at(mesh, material);
        assert(text::texts(self.meshes@)[mesh as int] == r.0@);
        assert(text::texts(self.materials@)[material as int] == r.1@);
        r
    }
}

/// The city's props.
pub struct CityAssets {
    pub cars: Vec<String>,
    pub car_material: String,
    pub crossroad: String,
    pub road_straight: String,
    pub road_material: String,
    pub high_density: Buildings,
    pub medium_density: Buildings,
    pub low_density: Buildings,
    pub ground_tile: String,
    /// The colour of grass, as sRGB bytes.
    pub grass_color: [u8; 3],
    pub tree_small: String,
    pub tree_large: String,
    pub path_stones_long: String,
    pub fence: String,
    pub suburban_material: String,
}

/// A colour as text: six hexadecimal digits.
pub open spec fn color_text(c: Seq<u8>) -> Seq<char> {
    "#"@ + exam::hex_digits(c[0] as nat, 2) + exam::hex_digits(c[1] as nat, 2) + exam::hex_digits(
        c[2] as nat,
        2,
    )
}

/// A colour as text.
pub fn name_color(c: &[u8; 3]) -> (r: String)
    ensures
        r@ == color_text(c@),
{
    let mut out = "#".to_owned();
    exam::push_hex(&mut out, c[0] as u64, 2);
    exam::push_hex(&mut out, c[1] as u64, 2);
    exam::push_hex(&mut out, c[2] as u64, 2);
    out
}

/// The mesh and the material of a prop that is no building: a road piece has the roads' material,
/// grass its own colour, and all else the suburban one.
pub open spec fn fixed_parts(a: CityAssets, m: Model) -> (Seq<char>, Seq<char>) {
    match m {
        Model::Crossroad => (a.crossroad@, a.road_material@),
        Model::RoadStraight => (a.road_straight@, a.road_material@),
        Model::RoadTile => (a.ground_tile@, a.road_material@),
        Model::GrassTile => (a.ground_tile@, color_text(a.grass_color@)),
        Model::TreeSmall => (a.tree_small@, a.suburban_material@),
        Model::TreeLarge => (a.tree_large@, a.suburban_material@),
        Model::Fence => (a.fence@, a.suburban_material@),
        _ => (a.path_stones_long@, a.suburban_material@),
    }
}

/// The buildings that a model is picked from, where it is one.
pub open spec fn buildings_of(a: CityAssets, m: Model) -> Option<Buildings> {
    match m {
        Model::LowBuilding => Some(a.low_density),
        Model::MediumBuilding => Some(a.medium_density),
        Model::HighBuilding => Some(a.high_density),
        _ => None,
    }
}

/// Whether a mesh and a material can be those of a prop.
pub open spec fn are_parts(a: CityAssets, m: Model, mesh: Seq<char>, material: Seq<char>) -> bool {
    match buildings_of(a, m) {
        Some(b) => is_pick(b, mesh, material),
        None => (mesh, material) == fixed_parts(a, m),
    }
}

/// Whether a pick is one for a prop: a building's mesh and material must be there.
pub open spec fn pick_fits(a: CityAssets, m: Model, pick: (usize, usize)) -> bool {
    buildings_of(a, m) matches Some(b) ==> pick.0 < b.meshes@.len() && pick.1 < b.materials@.len()
}

/// The mesh and the material of a prop, from the pick for it where it is a building.
pub open spec fn parts_with(a: CityAssets, m: Model, pick: (usize, usize)) -> (
    Seq<char>,
    Seq<char>,
) {
    match buildings_of(a, m) {
        Some(b) => (b.meshes@[pick.0 as int]@, b.materials@[pick.1 as int]@),
        None => fixed_parts(a, m),
    }
}

/// The mesh and the material of a prop, from the pick for it where it is a building.
pub fn parts_at(model: Model, assets: &CityAssets, pick: (usize, usize)) -> (r: (String, String))
    requires
        pick_fits(*assets, model, pick),
    ensures
        (r.0@, r.1@) == parts_with(*assets, model, pick),
{
    match model {
        Model::LowBuilding => assets.low_density.at(pick.0, pick.1),
        Model::MediumBuilding => assets.medium_density.at(pick.0, pick.1),
        Model::HighBuilding => assets.high_density.at(pick.0, pick.1),
        Model::Crossroad => (assets.crossroad.clone(), assets.road_material.clone()),
        Model::RoadStraight => (assets.road_straight.clone(), assets.road_material.clone()),
        Model::RoadTile => (assets.ground_tile.clone(), assets.road_material.clone()),
        Model::GrassTile => (assets.ground_tile.clone(), name_color(&assets.grass_color)),
        Model::TreeSmall => (assets.tree_small.clone(), assets.suburban_material.clone()),
        Model::TreeLarge => (assets.tree_large.clone(), assets.suburban_material.clone()),
        Model::Fence => (assets.fence.clone(), assets.suburban_material.clone()),
        Model::PathStones => (assets.path_stones_long.clone(), assets.suburban_material.clone()),
    }
}

/// A random pick for a prop: a mesh and a material where it is a building; else nothing is drawn.
pub fn draw_pick(model: Model, assets: &CityAssets, rng: &mut rand::rngs::SmallRng) -> (r: (
    usize,
    usize,
))
    requires
        assets.some(),
    ensures
        pick_fits(*assets, model, r),
{
    match model {
        Model::LowBuilding => assets.low_density.draw(rng),
        Model::MediumBuilding => assets.medium_density.draw(rng),
        Model::HighBuilding => assets.high_density.draw(rng),
        _ => (0, 0),
    }
}

/// A prop's parts are what its pick gives, whatever the pick is.
pub proof fn picks_give_parts(a: CityAssets, m: Model, pick: (usize, usize))
    requires
        pick_fits(a, m, pick),
    ensures
        are_parts(a, m, parts_with(a, m, pick).0, parts_with(a, m, pick).1),
{
    if let Some(b) = buildings_of(a, m) {
        assert(text::texts(b.meshes@)[pick.0 as int] == b.meshes@[pick.0 as int]@);
        assert(text::texts(b.materials@)[pick.1 as int] == b.materials@[pick.1 as int]@);
    }
}

/// The mesh and the material of a prop, random ones where it is a building.
pub fn parts_of(model: Model, assets: &CityAssets, rng: &mut rand::rngs::SmallRng) -> (r: (
    String,
    String,
))
    requires
        assets.some(),
    ensures
        are_parts(*assets, model, r.0@, r.1@),
{
    let pick = draw_pick(model, assets, rng);
    proof {
        picks_give_parts(*assets, model, pick);
    }
    parts_at(model, assets, pick)
}

impl CityAssets {
    /// Whether every list has something to pick.
    pub open spec fn some(self) -> bool {
        &&& self.cars@.len() > 0
        &&& self.high_density.some()
        &&& self.medium_density.some()
        &&& self.low_density.some()
    }

    /// The place of a random car's mesh.
    pub fn draw_car(&self, rng: &mut rand::rngs::SmallRng) -> (r: usize)
        requires
            self.cars@.len() > 0,
        ensures
            r < self.cars@.len(),
    {
        city::draw_below(rng, self.cars.len())
    }

    /// A random car.
    pub fn random_car(&self, rng: &mut rand::rngs::SmallRng) -> (r: (String, String))
        requires
            self.cars@.len() > 0,
        ensures
            text::texts(self.cars@).contains(r.0@),
            r.1@ == self.car_material@,
    {
        let i: usize = self.draw_car(rng);
        let mesh = self.cars[i].clone();
        assert(text::texts(self.cars@)[i as int] == mesh@);
        (mesh, self.car_material.clone())
    }
}

/// The meshes of cars.
pub open spec fn car_meshes() -> Seq<Seq<char>> {
    seq![
        mesh_path("car-kit"@, "hatchback-sports"@),
        mesh_path("car-kit"@, "suv"@),
        mesh_path("car-kit"@, "suv-luxury"@),
        mesh_path("car-kit"@, "sedan"@),
        mesh_path("car-kit"@, "sedan-sports"@),
        mesh_path("car-kit"@, "truck"@),
        mesh_path("car-kit"@, "truck-flat"@),
        mesh_path("car-kit"@, "van"@),
        mesh_path("car-kit"@, "delivery"@),
        mesh_path("car-kit"@, "delivery-flat"@),
        mesh_path("car-kit"@, "taxi"@),
        mesh_path("car-kit"@, "garbage-truck"@),
        mesh_path("car-kit"@, "ambulance"@),
        mesh_path("car-kit"@, "police"@),
        mesh_path("car-kit"@, "firetruck"@),
    ]
}

fn list_cars() -> (r: Vec<String>)
    ensures
        text::texts(r@) == car_meshes(),
{
    let mut out: Vec<String> = Vec::new();
    assert(text::texts(out@) =~= seq![]);
    push_plain(&mut out, "car-kit", "hatchback-sports");
    push_plain(&mut out, "car-kit", "suv");
    push_plain(&mut out, "car-kit", "suv-luxury");
    push_plain(&mut out, "car-kit", "sedan");
    push_plain(&mut out, "car-kit", "sedan-sports");
    push_plain(&mut out, "car-kit", "truck");
    push_plain(&mut out, "car-kit", "truck-flat");
    push_plain(&mut out, "car-kit", "van");
    push_plain(&mut out, "car-kit", "delivery");
    push_plain(&mut out, "car-kit", "delivery-flat");
    push_plain(&mut out, "car-kit", "taxi");
    push_plain(&mut out, "car-kit", "garbage-truck");
    push_plain(&mut out, "car-kit", "ambulance");
    push_plain(&mut out, "car-kit", "police");
    push_plain(&mut out, "car-kit", "firetruck");
    assert(text::texts(out@) =~= car_meshes());
    out
}

/// The meshes of skyscrapers.
pub open spec fn high_meshes() -> Seq<Seq<char>> {
    seq![
        mesh_path("city-kit-commercial"@, "building-skyscraper-"@ + "a"@),
        mesh_path("city-kit-commercial"@, "building-skyscraper-"@ + "b"@),
        mesh_path("city-kit-commercial"@, "building-skyscraper-"@ + "c"@),
        mesh_path("city-kit-commercial"@, "building-skyscraper-"@ + "d"@),
        mesh_path("city-kit-commercial"@, "building-skyscraper-"@ + "e"@),
        mesh_path("city-kit-commercial"@, "building-"@ + "m"@),
        mesh_path("city-kit-commercial"@, "building-"@ + "l"@),
    ]
}

fn list_high() -> (r: Vec<String>)
    ensures
        text::texts(r@) == high_meshes(),
{
    let mut out: Vec<String> = Vec::new();
    assert(text::texts(out@) =~= seq![]);
    push_mesh(&mut out, "city-kit-commercial", "building-skyscraper-", "a");
    push_mesh(&mut out, "city-kit-commercial", "building-skyscraper-", "b");
    push_mesh(&mut out, "city-kit-commercial", "building-skyscraper-", "c");
    push_mesh(&mut out, "city-kit-commercial", "building-skyscraper-", "d");
    push_mesh(&mut out, "city-kit-commercial", "building-skyscraper-", "e");
    push_mesh(&mut out, "city-kit-commercial", "building-", "m");
    push_mesh(&mut out, "city-kit-commercial", "building-", "l");
    assert(text::texts(out@) =~= high_meshes());
    out
}

/// The meshes of commercial buildings.
pub open spec fn medium_meshes() -> Seq<Seq<char>> {
    seq![
        mesh_path("city-kit-commercial"@, "building-"@ + "a"@),
        mesh_path("city-kit-commercial"@, "building-"@ + "b"@),
        mesh_path("city-kit-commercial"@, "building-"@ + "c"@),
        mesh_path("city-kit-commercial"@, "building-"@ + "d"@),
        mesh_path("city-kit-commercial"@, "building-"@ + "f"@),
        mesh_path("city-kit-commercial"@, "building-"@ + "g"@),
        mesh_path("city-kit-commercial"@, "building-"@ + "h"@),
    ]
}

fn list_medium() -> (r: Vec<String>)
    ensures
        text::texts(r@) == medium_meshes(),
{
    let mut out: Vec<String> = Vec::new();
    assert(text::texts(out@) =~= seq![]);
    push_mesh(&mut out, "city-kit-commercial", "building-", "a");
    push_mesh(&mut out, "city-kit-commercial", "building-", "b");
    push_mesh(&mut out, "city-kit-commercial", "building-", "c");
    push_mesh(&mut out, "city-kit-commercial", "building-", "d");
    push_mesh(&mut out, "city-kit-commercial", "building-", "f");
    push_mesh(&mut out, "city-kit-commercial", "building-", "g");
    push_mesh(&mut out, "city-kit-commercial", "building-", "h");
    assert(text::texts(out@) =~= medium_meshes());
    out
}

/// The meshes of houses.
pub open spec fn low_meshes() -> Seq<Seq<char>> {
    seq![
        mesh_path("city-kit-suburban"@, "building-type-"@ + "b"@),
        mesh_path("city-kit-suburban"@, "building-type-"@ + "c"@),
        mesh_path("city-kit-suburban"@, "building-type-"@ + "d"@),
        mesh_path("city-kit-suburban"@, "building-type-"@ + "e"@),
        mesh_path("city-kit-suburban"@, "building-type-"@ + "f"@),
        mesh_path("city-kit-suburban"@, "building-type-"@ + "g"@),
        mesh_path("city-kit-suburban"@, "building-type-"@ + "h"@),
        mesh_path("city-kit-suburban"@, "building-type-"@ + "i"@),
        mesh_path("city-kit-suburban"@, "building-type-"@ + "k"@),
        mesh_path("city-kit-suburban"@, "building-type-"@ + "l"@),
        mesh_path("city-kit-suburban"@, "building-type-"@ + "o"@),
        mesh_path("city-kit-suburban"@, "building-type-"@ + "u"@),
    ]
}

fn list_low() -> (r: Vec<String>)
    ensures
        text::texts(r@) == low_meshes(),
{
    let mut out: Vec<String> = Vec::new();
    assert(text::texts(out@) =~= seq![]);
    push_mesh(&mut out, "city-kit-suburban", "building-type-", "b");
    push_mesh(&mut out, "city-kit-suburban", "building-type-", "c");
    push_mesh(&mut out, "city-kit-suburban", "building-type-", "d");
    push_mesh(&mut out, "city-kit-suburban", "building-type-", "e");
    push_mesh(&mut out, "city-kit-suburban", "building-type-", "f");
    push_mesh(&mut out, "city-kit-suburban", "building-type-", "g");
    push_mesh(&mut out, "city-kit-suburban", "building-type-", "h");
    push_mesh(&mut out, "city-kit-suburban", "building-type-", "i");
    push_mesh(&mut out, "city-kit-suburban", "building-type-", "k");
    push_mesh(&mut out, "city-kit-suburban", "building-type-", "l");
    push_mesh(&mut out, "city-kit-suburban", "building-type-", "o");
    push_mesh(&mut out, "city-kit-suburban", "building-type-", "u");
    assert(text::texts(out@) =~= low_meshes());
    out
}

/// The textures of commercial buildings.
pub open spec fn commercial_textures() -> Seq<Seq<char>> {
    seq![
        texture_path("city-kit-commercial"@, "colormap"@),
        texture_path("city-kit-commercial"@, "variation-a"@),
        texture_path("city-kit-commercial"@, "variation-b"@),
    ]
}

fn list_commercial() -> (r: Vec<String>)
    ensures
        text::texts(r@) == commercial_textures(),
{
    let mut out: Vec<String> = Vec::new();
    assert(text::texts(out@) =~= seq![]);
    push_texture(&mut out, "city-kit-commercial", "colormap");
    push_texture(&mut out, "city-kit-commercial", "variation-a");
    push_texture(&mut out, "city-kit-commercial", "variation-b");
    assert(text::texts(out@) =~= commercial_textures());
    out
}

/// The textures of houses.
pub open spec fn suburban_textures() -> Seq<Seq<char>> {
    seq![
        texture_path("city-kit-suburban"@, "colormap"@),
        texture_path("city-kit-suburban"@, "variation-a"@),
        texture_path("city-kit-suburban"@, "variation-b"@),
        texture_path("city-kit-suburban"@, "variation-c"@),
    ]
}

fn list_suburban() -> (r: Vec<String>)
    ensures
        text::texts(r@) == suburban_textures(),
{
    let mut out: Vec<String> = Vec::new();
    assert(text::texts(out@) =~= seq![]);
    push_texture(&mut out, "city-kit-suburban", "colormap");
    push_texture(&mut out, "city-kit-suburban", "variation-a");
    push_texture(&mut out, "city-kit-suburban", "variation-b");
    push_texture(&mut out, "city-kit-suburban", "variation-c");
    assert(text::texts(out@) =~= suburban_textures());
    out
}

/// Whether assets are the city's own.
pub open spec fn are_city_assets(r: CityAssets) -> bool {
    &&& text::texts(r.cars@) == car_meshes()
    &&& r.car_material@ == texture_path("car-kit"@, "colormap"@)
    &&& r.crossroad@ == mesh_path("city-kit-roads"@, "road-crossroad-path"@)
    &&& r.road_straight@ == mesh_path("city-kit-roads"@, "road-straight"@)
    &&& r.road_material@ == texture_path("city-kit-roads"@, "colormap"@)
    &&& text::texts(r.high_density.meshes@) == high_meshes()
    &&& text::texts(r.high_density.materials@) == commercial_textures()
    &&& text::texts(r.medium_density.meshes@) == medium_meshes()
    &&& text::texts(r.medium_density.materials@) == commercial_textures()
    &&& text::texts(r.low_density.meshes@) == low_meshes()
    &&& text::texts(r.low_density.materials@) == suburban_textures()
    &&& r.ground_tile@ == mesh_path("city-kit-roads"@, "tile-low"@)
    &&& r.grass_color@ == seq![97u8, 203, 139]
    &&& r.tree_small@ == mesh_path("city-kit-suburban"@, "tree-small"@)
    &&& r.tree_large@ == mesh_path("city-kit-suburban"@, "tree-large"@)
    &&& r.path_stones_long@ == mesh_path("city-kit-suburban"@, "path-stones-long"@)
    &&& r.fence@ == mesh_path("city-kit-suburban"@, "fence"@)
    &&& r.suburban_material@ == texture_path("city-kit-suburban"@, "colormap"@)
}

/// Names the city's props. Every list has something to pick.
pub fn load_assets() -> (r: CityAssets)
    ensures
        text::texts(r.cars@) == car_meshes(),
        r.car_material@ == texture_path("car-kit"@, "colormap"@),
        r.crossroad@ == mesh_path("city-kit-roads"@, "road-crossroad-path"@),
        r.road_straight@ == mesh_path("city-kit-roads"@, "road-straight"@),
        r.road_material@ == texture_path("city-kit-roads"@, "colormap"@),
        text::texts(r.high_density.meshes@) == high_meshes(),
        text::texts(r.high_density.materials@) == commercial_textures(),
        text::texts(r.medium_density.meshes@) == medium_meshes(),
        text::texts(r.medium_density.materials@) == commercial_textures(),
        text::texts(r.low_density.meshes@) == low_meshes(),
        text::texts(r.low_density.materials@) == suburban_textures(),
        r.ground_tile@ == mesh_path("city-kit-roads"@, "tile-low"@),
        r.grass_color@ == seq![97u8, 203, 139],
        r.tree_small@ == mesh_path("city-kit-suburban"@, "tree-small"@),
        r.tree_large@ == mesh_path("city-kit-suburban"@, "tree-large"@),
        r.path_stones_long@ == mesh_path("city-kit-suburban"@, "path-stones-long"@),
        r.fence@ == mesh_path("city-kit-suburban"@, "fence"@),
        r.suburban_material@ == texture_path("city-kit-suburban"@, "colormap"@),
        are_city_assets(r),
        r.some(),
{
    let cars = list_cars();
    let high = Buildings { meshes: list_high(), materials: list_commercial() };
    let medium = Buildings { meshes: list_medium(), materials: list_commercial() };
    let low = Buildings { meshes: list_low(), materials: list_suburban() };
    proof {
        assert(cars@.len() == text::texts(cars@).len());
        assert(high.meshes@.len() == text::texts(high.meshes@).len());
        assert(high.materials@.len() == text::texts(high.materials@).len());
        assert(medium.meshes@.len() == text::texts(medium.meshes@).len());
        assert(medium.materials@.len() == text::texts(medium.materials@).len());
        assert(low.meshes@.len() == text::texts(low.meshes@).len());
        assert(low.materials@.len() == text::texts(low.materials@).len());
    }
    CityAssets {
        cars,
        car_material: name_texture("car-kit", "colormap"),
        crossroad: name_plain("city-kit-roads", "road-crossroad-path"),
        road_straight: name_plain("city-kit-roads", "road-straight"),
        road_material: name_texture("city-kit-roads", "colormap"),
        high_density: high,
        medium_density: medium,
        low_density: low,
        ground_tile: name_plain("city-kit-roads", "tile-low"),
        grass_color: [97u8, 203, 139],
        tree_small: name_plain("city-kit-suburban", "tree-small"),
        tree_large: name_plain("city-kit-suburban", "tree-large"),
        path_stones_long: name_plain("city-kit-suburban", "path-stones-long"),
        fence: name_plain("city-kit-suburban", "fence"),
        suburban_material: name_texture("city-kit-suburban", "colormap"),
    }
}

/// A mesh's path is that of its kit's meshes, and its name; a texture's that of its kit's textures.
pub proof fn paths_tell_the_kit(kit: Seq<char>, name: Seq<char>)
    ensures
        mesh_path(kit, name) == "kenney/"@ + kit + "/meshes/"@ + name + ".cluster_mesh"@,
        texture_path(kit, name) == "kenney/"@ + kit + "/textures/"@ + name + ".png"@,
{
}

/// What the city shows each model with: roads and their tiles in the roads' colours, grass in its
/// own, and trees, fences and stones, each by its own mesh, in the suburb's.
pub proof fn models_have_their_assets(a: CityAssets, m: Model)
    requires
        are_city_assets(a),
        buildings_of(a, m) is None,
    ensures
        ({
            let roads = "kenney/"@ + "city-kit-roads"@ + "/textures/"@ + "colormap"@ + ".png"@;
            let suburb = "kenney/"@ + "city-kit-suburban"@ + "/textures/"@ + "colormap"@ + ".png"@;
            let road = |name: Seq<char>|
                "kenney/"@ + "city-kit-roads"@ + "/meshes/"@ + name + ".cluster_mesh"@;
            let green = |name: Seq<char>|
                "kenney/"@ + "city-kit-suburban"@ + "/meshes/"@ + name + ".cluster_mesh"@;
            parts_with(a, m, (0, 0)) == match m {
                Model::Crossroad => (road("road-crossroad-path"@), roads),
                Model::RoadStraight => (road("road-straight"@), roads),
                Model::RoadTile => (road("tile-low"@), roads),
                Model::GrassTile => (road("tile-low"@), color_text(seq![97u8, 203, 139])),
                Model::TreeSmall => (green("tree-small"@), suburb),
                Model::TreeLarge => (green("tree-large"@), suburb),
                Model::Fence => (green("fence"@), suburb),
                _ => (green("path-stones-long"@), suburb),
            }
        }),
{
}

/// Houses are picked among the suburb's meshes and textures, shops and towers among the commercial
/// ones. Nothing else is picked.
pub proof fn zones_pick_their_buildings(a: CityAssets, m: Model, i: usize, j: usize)
    requires
        are_city_assets(a),
    ensures
        buildings_of(a, m) is Some <==> (m == Model::LowBuilding || m == Model::MediumBuilding || m
            == Model::HighBuilding),
        i < 12 && j < 4 ==> parts_with(a, Model::LowBuilding, (i, j)) == (
            low_meshes()[i as int],
            suburban_textures()[j as int],
        ),
        i < 7 && j < 3 ==> parts_with(a, Model::MediumBuilding, (i, j)) == (
            medium_meshes()[i as int],
            commercial_textures()[j as int],
        ),
        i < 7 && j < 3 ==> parts_with(a, Model::HighBuilding, (i, j)) == (
            high_meshes()[i as int],
            commercial_textures()[j as int],
        ),
        low_meshes().len() == 12 && medium_meshes().len() == 7 && high_meshes().len() == 7,
        suburban_textures().len() == 4 && commercial_textures().len() == 3,
        car_meshes().len() == 15,
{
    assert(a.low_density.meshes@.len() == text::texts(a.low_density.meshes@).len());
    assert(a.low_density.materials@.len() == text::texts(a.low_density.materials@).len());
    assert(a.medium_density.meshes@.len() == text::texts(a.medium_density.meshes@).len());
    assert(a.medium_density.materials@.len() == text::texts(a.medium_density.materials@).len());
    assert(a.high_density.meshes@.len() == text::texts(a.high_density.meshes@).len());
    assert(a.high_density.materials@.len() == text::texts(a.high_density.materials@).len());
    if i < 12 && j < 4 {
        assert(text::texts(a.low_density.meshes@)[i as int] == a.low_density.meshes@[i as int]@);
        assert(text::texts(a.low_density.materials@)[j as int] == a.low_density.materials@[j as int]@);
    }
    if i < 7 && j < 3 {
        assert(text::texts(a.medium_density.meshes@)[i as int] == a.medium_density.meshes@[i as int]@);
        assert(text::texts(a.medium_density.materials@)[j as int]
            == a.medium_density.materials@[j as int]@);
        assert(text::texts(a.high_density.meshes@)[i as int] == a.high_density.meshes@[i as int]@);
        assert(text::texts(a.high_density.materials@)[j as int] == a.high_density.materials@[j as int]@);
    }
}

/// A colour's text has two digits for red, then two for green, then two for blue.
pub proof fn colors_are_written_red_first(c: Seq<u8>)
    requires
        c.len() == 3,
    ensures
        color_text(c).len() == 7,
        color_text(c)[0] == '#',
        color_text(c).subrange(1, 3) == exam::hex_digits(c[0] as nat, 2),
        color_text(c).subrange(3, 5) == exam::hex_digits(c[1] as nat, 2),
        color_text(c).subrange(5, 7) == exam::hex_digits(c[2] as nat, 2),
{
    reveal_strlit("#");
    exam::lemma_hex_digits(c[0] as nat, 2);
    exam::lemma_hex_digits(c[1] as nat, 2);
    exam::lemma_hex_digits(c[2] as nat, 2);
    assert(color_text(c).subrange(1, 3) =~= exam::hex_digits(c[0] as nat, 2));
    assert(color_text(c).subrange(3, 5) =~= exam::hex_digits(c[1] as nat, 2));
    assert(color_text(c).subrange(5, 7) =~= exam::hex_digits(c[2] as nat, 2));
}

/// The houses of the suburb are those of twelve letters, the shops those of seven, and the towers
/// the five skyscrapers and the two tallest shops.
pub proof fn buildings_go_by_letters(i: int)
    ensures
        0 <= i < 12 ==> low_meshes()[i] == mesh_path(
            "city-kit-suburban"@,
            "building-type-"@ + seq!["bcdefghiklou"@[i]],
        ),
        0 <= i < 7 ==> medium_meshes()[i] == mesh_path(
            "city-kit-commercial"@,
            "building-"@ + seq!["abcdfgh"@[i]],
        ),
        0 <= i < 5 ==> high_meshes()[i] == mesh_path(
            "city-kit-commercial"@,
            "building-skyscraper-"@ + seq!["abcde"@[i]],
        ),
        high_meshes()[5] == mesh_path("city-kit-commercial"@, "building-"@ + seq!['m']),
        high_meshes()[6] == mesh_path("city-kit-commercial"@, "building-"@ + seq!['l']),
{
    reveal_strlit("bcdefghiklou");
    reveal_strlit("abcdfgh");
    reveal_strlit("abcde");
    reveal_strlit("a");
    reveal_strlit("b");
    reveal_strlit("c");
    reveal_strlit("d");
    reveal_strlit("e");
    reveal_strlit("f");
    reveal_strlit("g");
    reveal_strlit("h");
    reveal_strlit("i");
    reveal_strlit("k");
    reveal_strlit("l");
    reveal_strlit("m");
    reveal_strlit("o");
    reveal_strlit("u");
    assert("a"@ =~= seq!['a']);
    assert("b"@ =~= seq!['b']);
    assert("c"@ =~= seq!['c']);
    assert("d"@ =~= seq!['d']);
    assert("e"@ =~= seq!['e']);
    assert("f"@ =~= seq!['f']);
    assert("g"@ =~= seq!['g']);
    assert("h"@ =~= seq!['h']);
    assert("i"@ =~= seq!['i']);
    assert("k"@ =~= seq!['k']);
    assert("l"@ =~= seq!['l']);
    assert("m"@ =~= seq!['m']);
    assert("o"@ =~= seq!['o']);
    assert("u"@ =~= seq!['u']);
}

/// The cars of the city, in order, and the textures that buildings are picked from: each kit's own
/// colours first, then its variations.
pub proof fn cars_and_textures_go_by_name(a: CityAssets)
    requires
        are_city_assets(a),
    ensures
        ({
            let car = |name: Seq<char>| "kenney/"@ + "car-kit"@ + "/meshes/"@ + name + ".cluster_mesh"@;
            text::texts(a.cars@) == seq![
                car("hatchback-sports"@),
                car("suv"@),
                car("suv-luxury"@),
                car("sedan"@),
                car("sedan-sports"@),
                car("truck"@),
                car("truck-flat"@),
                car("van"@),
                car("delivery"@),
                car("delivery-flat"@),
                car("taxi"@),
                car("garbage-truck"@),
                car("ambulance"@),
                car("police"@),
                car("firetruck"@),
            ]
        }),
        a.car_material@ == "kenney/"@ + "car-kit"@ + "/textures/"@ + "colormap"@ + ".png"@,
        ({
            let shop = |name: Seq<char>|
                "kenney/"@ + "city-kit-commercial"@ + "/textures/"@ + name + ".png"@;
            text::texts(a.medium_density.materials@) == seq![
                shop("colormap"@),
                shop("variation-a"@),
                shop("variation-b"@),
            ]
        }),
        ({
            let house = |name: Seq<char>|
                "kenney/"@ + "city-kit-suburban"@ + "/textures/"@ + name + ".png"@;
            text::texts(a.low_density.materials@) == seq![
                house("colormap"@),
                house("variation-a"@),
                house("variation-b"@),
                house("variation-c"@),
            ]
        }),
{
}

} // verus!
