use vstd::prelude::*;

pub mod shape;
pub mod util;
pub mod input;
pub mod render;
pub mod controls;
pub mod material;
pub mod scene;
pub mod surface;
pub mod simulation;

verus! {
}
