# scene_tools

Verified logic for a set of scene tools: importers that turn glTF, OBJ and tree models into scenes
for a ray tracer, a grader that compares renders with a converged truth, an exam harness, a city
generator, a viewer and two editors.

`src/` is the library. Every item in it is checked by Verus: its contracts say what each function
returns or changes, over spec functions on mathematical values, and the public proof functions
state what holds across them. Calls into other crates (`gltf`, `png`, `serde_json`, `rand`) stand
behind small functions whose contracts say what is believed of the crate.

- importers: `document`, `extras`, `material`, `repairs`, `lint`, `tree`, `walk`, `scene`,
  `groups`, `collider`, `clip_reader`, `clip_targets`, `animclip`, `speedtree`, `obj`, `mesh`,
  `streams`
- images and masks: `img`, `islands`, `mask`, `omm`
- grading and tasks: `grader`, `report`, `tasks`, `calendar`
- exams: `furnace`, `exam`
- city: `city`, `city_assets`, `city_plan`
- viewer and editors: `viewer`, `kit`, `browser`, `boxes`, `canvas`, `layers`, `labels`, `rig`,
  `skeleton`
- shared: `text`, `names`, `order`, `bytes`

Lengths are whole numbers: ten-thousandths of a unit in a city, thousandths in an exam scene.
Floats that a function only orders, compares or copies are held by their bits.

`tests/` runs the library on concrete values. `app/` is the command line and the input and output
around the library, with the floating-point geometry.
