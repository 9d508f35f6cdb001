//! Verified integer core of a geodesic wallpaper generator: cellular automata,
//! dithering, mosaics, L-systems, PNG framing and friends.

pub mod spirograph;
pub mod cellular_automata_2d;
pub mod text;
pub mod cellular_automata;
pub mod png;
pub mod animation;
pub mod timelapse;
pub mod noise_field;
pub mod dithering;
pub mod mosaic;
pub mod l_system;
pub mod gallery;
pub mod line;
pub mod flow_field;
pub mod flow_field_render;
pub mod iso_surface;
pub mod mesh;
pub mod palette;
pub mod parameter_tuner;
pub mod user_defined;
pub mod wave_function_collapse;
pub mod procedural;
pub mod strange_attractor;
pub mod config;
pub mod events;
pub mod escher;
pub mod hyperbolic_tiling;
pub mod topology_art;
pub mod preview;
pub mod trail;
