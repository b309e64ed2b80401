use vstd::prelude::*;

verus! {

/// Specifies if a material is allowed to be transparent.
#[derive(Clone, Copy, Debug)]
pub enum AlphaMode {
    /// Material is always opaque (this is the default): the base color's
    /// alpha is always taken as 1.0.
    Opaque,
    /// Material is allowed to be transparent: the alpha channel of the base
    /// color and of its texture is honored. Non-opaque materials need special
    /// handling while rays traverse the scene, so this is best kept to
    /// materials that do use transparency.
    Blend,
}

impl Default for AlphaMode {
    fn default() -> (r: Self)
        ensures
            r == AlphaMode::Opaque,
    {
        AlphaMode::Opaque
    }
}

} // verus!
