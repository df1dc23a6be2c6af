//! Audio visualizer core: audio bookkeeping, band grouping, drawing primitives,
//! the visual styles and the debug HUD, as verified logic on plain values.

pub mod area;
pub mod bands;
pub mod bars;
pub mod bloom;
pub mod capture;
pub mod color;
pub mod controls;
pub mod font;
pub mod geometry;
pub mod gpu;
pub mod hud;
pub mod mesh;
pub mod motion;
pub mod number;
pub mod overlay;
pub mod palette;
pub mod panel;
pub mod radial;
pub mod ridge;
pub mod scope;
pub mod session;
pub mod settings;
pub mod shape;
pub mod spline;
pub mod srgb;
pub mod stats;
pub mod summary;
pub mod text;
pub mod visuals;
