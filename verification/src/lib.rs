//! Flame graph toolchain: collapse raw profiler dumps into folded stack
//! lines, and render folded stacks as a deterministic SVG flame graph.
//!
//! The crate is organized along the data flow: input bytes are split into
//! lines (`util`), a collapser (`perf`, `dtrace`) turns profiler records
//! into folded stack entries aggregated by `accum`, the folded form itself
//! is defined in `folded`, and the renderer (`tree`, `layout`, `color`,
//! `svg`) turns folded entries into SVG bytes under `options`.

pub mod accum;
pub mod attrs;
pub mod collapse;
pub mod color;
pub mod dtrace;
pub mod fold;
pub mod folded;
pub mod layout;
pub mod options;
pub mod palette_map;
pub mod perf;
pub mod svg;
pub mod tree;
pub mod util;
