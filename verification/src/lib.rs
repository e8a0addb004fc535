//! Scene-asset tooling: the decisions behind an importer, a grader and a few editors.
pub mod animclip;
pub mod boxes;
pub mod browser;
pub mod bytes;
pub mod calendar;
pub mod canvas;
pub mod city;
pub mod city_assets;
pub mod city_plan;
pub mod clip_reader;
pub mod clip_targets;
pub mod collider;
pub mod document;
pub mod exam;
pub mod extras;
pub mod furnace;
pub mod grader;
pub mod groups;
pub mod img;
pub mod islands;
pub mod kit;
pub mod labels;
pub mod layers;
pub mod lint;
pub mod mask;
pub mod material;
pub mod mesh;
pub mod names;
pub mod obj;
pub mod omm;
pub mod order;
pub mod repairs;
pub mod report;
pub mod rig;
pub mod scene;
pub mod skeleton;
pub mod speedtree;
pub mod streams;
pub mod tasks;
pub mod text;
pub mod tree;
pub mod viewer;
pub mod walk;
