//! Render target handles and blend modes.

use vstd::prelude::*;

verus! {

/// Opaque handle to an offscreen render target; 0 is the screen.
#[derive(Clone, Copy, Debug, PartialEq, Eq, Structural, Hash)]
pub struct RenderTargetId(pub u32);

impl RenderTargetId {
    /// The default framebuffer (the screen).
    pub fn screen() -> (r: Self)
        ensures
            r.0 == 0,
    {
        RenderTargetId(0)
    }
}

/// Blend mode for draw operations.
#[derive(Debug, Clone, Copy, PartialEq, Eq, Structural)]
pub enum BlendMode {
    /// Standard alpha blending: src * srcA + dst * (1 - srcA).
    Alpha,
    /// Additive blending: src * srcA + dst.
    Additive,
    /// Multiply blending: src * dst.
    Multiply,
}

} // verus!
