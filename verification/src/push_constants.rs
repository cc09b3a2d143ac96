//! The small blocks of data that the ray tracers get with each dispatch.
use vstd::prelude::*;

verus! {

/// Switches for the ray tracer, one bit each.
#[derive(Clone, Copy, Debug, PartialEq, Eq, Structural)]
pub struct RtFlags {
    pub bits: u32,
}

/// Trace through the bounding interval hierarchy instead of testing every triangle.
pub const USE_BIH_BIT: u32 = 1u32;

/// Output the surface normals instead of a shaded image.
pub const RENDER_NORMALS_BIT: u32 = 2u32;

impl RtFlags {
    /// The bits that are set.
    pub open spec fn value(self) -> u32 {
        self.bits
    }

    /// Every bit of `other` is set in `self`.
    pub open spec fn has(self, other: RtFlags) -> bool {
        self.bits & other.bits == other.bits
    }

    /// `self` with the bits of `other` set when `on`, cleared otherwise.
    pub open spec fn with(self, other: RtFlags, on: bool) -> RtFlags {
        if on {
            RtFlags { bits: self.bits | other.bits }
        } else {
            RtFlags { bits: self.bits & !other.bits }
        }
    }

    /// Tracing through the hierarchy.
    pub fn use_bih() -> (f: RtFlags)
        ensures
            f.value() == USE_BIH_BIT,
    {
        RtFlags { bits: USE_BIH_BIT }
    }

    /// Rendering normals.
    pub fn render_normals() -> (f: RtFlags)
        ensures
            f.value() == RENDER_NORMALS_BIT,
    {
        RtFlags { bits: RENDER_NORMALS_BIT }
    }

    /// No switch set.
    pub fn empty() -> (f: RtFlags)
        ensures
            f.value() == 0,
    {
        RtFlags { bits: 0 }
    }

    /// The bits that are set.
    pub fn bits(&self) -> (b: u32)
        ensures
            b == self.value(),
    {
        self.bits
    }

    /// Whether every switch of `other` is set.
    pub fn contains(&self, other: RtFlags) -> (r: bool)
        ensures
            r == self.has(other),
    {
        self.bits & other.bits == other.bits
    }

    /// Sets the switches of `other`.
    pub fn insert(&mut self, other: RtFlags)
        ensures
            *final(self) == old(self).with(other, true),
    {
        self.bits = self.bits | other.bits;
    }

    /// Clears the switches of `other`.
    pub fn remove(&mut self, other: RtFlags)
        ensures
            *final(self) == old(self).with(other, false),
    {
        self.bits = self.bits & !other.bits;
    }

    /// Sets the switches of `other` when `value`, clears them otherwise.
    pub fn set(&mut self, other: RtFlags, value: bool)
        ensures
            *final(self) == old(self).with(other, value),
    {
        if value {
            self.insert(other);
        } else {
            self.remove(other);
        }
    }
}

/// Setting a switch turns it on and clearing it turns it off, and neither touches
/// a switch that shares no bit with it.
pub proof fn lemma_set_switch(flags: RtFlags, switch: RtFlags, other: RtFlags, on: bool)
    requires
        switch.value() != 0,
        switch.value() & other.value() == 0,
    ensures
        flags.with(switch, on).has(switch) == on,
        flags.with(switch, on).has(other) == flags.has(other),
{
    let f = flags.value();
    let s = switch.value();
    let o = other.value();
    assert((f | s) & s == s) by (bit_vector);
    assert(s != 0 ==> (f & !s) & s != s) by (bit_vector);
    assert(s & o == 0 ==> (((f | s) & o == o) == (f & o == o))) by (bit_vector);
    assert(s & o == 0 ==> (((f & !s) & o == o) == (f & o == o))) by (bit_vector);
}

/// What the ray tracer gets with each dispatch: how many triangles to test and
/// its switches.
#[derive(Clone, Copy, Debug, PartialEq, Eq, Structural)]
pub struct RtPushConstants {
    pub n_triangles: u32,
    pub flags: RtFlags,
}

} // verus!
