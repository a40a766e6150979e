//! Dynamic connectivity over the objects `0..n`: `union` joins the
//! components of two objects and `connected` asks whether two objects share
//! a component. Three strategies are offered.

pub mod quickfind;
pub mod quickunion;
pub mod weighting;
