//! The renderer's primitive record: a triangle naming its geometry by index
//! into shared vertex and normal storage, plus a material id. The geometry
//! itself stays with the caller; floating-point work on it (exact
//! intersection, shading) lives outside this crate.

use vstd::prelude::*;

verus! {

/// A triangle as three vertex indices, three normal indices, and the index
/// of its material.
#[derive(Copy, Clone, Debug)]
pub struct Triangle {
    pub pos: [usize; 3],
    pub nor: [usize; 3],
    pub mat: usize,
}

impl Triangle {
    pub fn new(pos: [usize; 3], nor: [usize; 3], mat: usize) -> (r: Triangle)
        ensures
            r.pos == pos,
            r.nor == nor,
            r.mat == mat,
    {
        Triangle { pos, nor, mat }
    }
}

} // verus!
