use vstd::prelude::*;

pub mod cvfull;
pub mod dbl;
pub mod detect;
pub mod geom;
pub mod glyph;
pub mod live;
pub mod mnist;
pub mod pics;
pub mod screen;
pub mod snap;
pub mod ui;

verus! {

} // verus!
