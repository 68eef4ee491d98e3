use vstd::prelude::*;

verus! {

/// The texture that gives every point of a surface the fully transparent colour, so that the
/// surface shows what lies behind it.
#[derive(Clone, Copy, Debug, Default, PartialEq, Eq, Structural)]
pub struct MappedTextureTransparent {}

impl MappedTextureTransparent {
    pub fn new() -> (texture: Self)
        ensures
            texture == (MappedTextureTransparent {}),
    {
        MappedTextureTransparent {}
    }
}

} // verus!
