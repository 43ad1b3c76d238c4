//! Skybox composer: classifies directionally-named image tiles, groups them
//! into complete six-face sets, and composites each set into one unfolded-cube
//! ("cross" layout) image.

pub mod compose;
pub mod generation;
pub mod grouping;
pub mod skybox_tile;
