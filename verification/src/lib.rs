pub mod geom;
pub mod loader;
pub mod math;
pub mod renderer;

use vstd::prelude::*;

verus! {

} // verus!
