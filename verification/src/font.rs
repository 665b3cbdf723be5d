//! Font handles.

use vstd::prelude::*;

verus! {

/// Opaque handle to a font asset registered with the engine; `u32::MAX` is
/// the null handle.
#[derive(Clone, Copy, Debug, PartialEq, Eq, Structural, Hash)]
pub struct FontId(pub u32);

impl FontId {
    /// The null (invalid) font id.
    pub fn none() -> (f: Self)
        ensures
            f.0 == u32::MAX,
    {
        FontId(u32::MAX)
    }

    /// Whether this is not the null font id.
    pub fn is_valid(self) -> (b: bool)
        ensures
            b == (self.0 != u32::MAX),
    {
        self.0 != u32::MAX
    }

    /// The raw value (for serialization, FFI and scripting).
    pub fn raw(self) -> (r: u32)
        ensures
            r == self.0,
    {
        self.0
    }

    /// The font id with raw value `val`.
    pub fn from_raw(val: u32) -> (f: Self)
        ensures
            f.0 == val,
    {
        FontId(val)
    }
}

/// A raw value converts back to the same id: `from_raw(f.raw()) == f`.
pub proof fn lemma_font_id_raw_round_trip(f: FontId)
    ensures
        FontId(f.0) == f,
{
}

} // verus!
