//! Layer exploration for container images: file trees built from image layers,
//! whiteout-aware stacking, diff marking, layer analyses and the state of the
//! interactive explorer.
pub mod text;
pub mod paths;
pub mod matching;
pub mod filetree;
pub mod image;
pub mod comparer;
pub mod analyzers;
pub mod report;
pub mod utils;
pub mod config;
pub mod state;
pub mod widgets;
pub mod archive;
pub mod resolvers;
pub mod registry;
pub mod controls;
