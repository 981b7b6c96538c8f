//! Per-box header: the color of a box and its three flags, packed into one byte.

use vstd::prelude::*;
use crate::gc::Edge;

verus! {

/// The color of a managed box in the current collection cycle.
#[derive(Copy, Clone, Debug, PartialEq, Eq, Structural)]
pub enum GcColor {
    /// Born while a cycle was in flight; held over to the next cycle.
    FreshWhite,
    /// Not reached by marking.
    White,
    /// Reached; its outgoing edges are not visited yet.
    Gray,
    /// Reached, and its outgoing edges are visited.
    Black,
}

/// What a header byte stands for.
pub struct FlagsView {
    pub color: GcColor,
    pub needs_trace: bool,
    pub has_weak_ref: bool,
    pub alive: bool,
}

/// The header byte of a managed box: two bits of color, then one bit each
/// for `needs_trace`, `has_weak_ref` and `alive`.
#[derive(Copy, Clone, Debug)]
pub struct GcFlags(u8);

/// The color that the two low bits of a header byte encode.
pub open spec fn color_of_bits(bits: u8) -> GcColor {
    let low = bits & 0x3;
    if low == 0x0 {
        GcColor::FreshWhite
    } else if low == 0x1 {
        GcColor::White
    } else if low == 0x2 {
        GcColor::Gray
    } else {
        GcColor::Black
    }
}

/// The two bits that encode a color.
pub open spec fn bits_of_color(color: GcColor) -> u8 {
    match color {
        GcColor::FreshWhite => 0x0,
        GcColor::White => 0x1,
        GcColor::Gray => 0x2,
        GcColor::Black => 0x3,
    }
}

impl View for GcFlags {
    type V = FlagsView;

    closed spec fn view(&self) -> FlagsView {
        FlagsView {
            color: color_of_bits(self.0),
            needs_trace: self.0 & 0x4 != 0,
            has_weak_ref: self.0 & 0x8 != 0,
            alive: self.0 & 0x10 != 0,
        }
    }
}

impl GcFlags {
    /// The byte itself.
    pub closed spec fn bits(self) -> u8 {
        self.0
    }

    /// How the byte is read: the color in the two low bits, then
    /// `needs_trace` in bit 2, `has_weak_ref` in bit 3 and `alive` in bit 4.
    pub proof fn lemma_layout(self)
        ensures
            self@.color == color_of_bits(self.bits()),
            self@.needs_trace == (self.bits() & 0x4 != 0),
            self@.has_weak_ref == (self.bits() & 0x8 != 0),
            self@.alive == (self.bits() & 0x10 != 0),
    {
    }

    /// A header with color `FreshWhite` and every flag clear.
    pub fn new() -> (flags: GcFlags)
        ensures
            flags@.color == GcColor::FreshWhite,
            !flags@.needs_trace,
            !flags@.has_weak_ref,
            !flags@.alive,
            flags.bits() == 0,
    {
        assert(0u8 & 0x3 == 0 && 0u8 & 0x4 == 0 && 0u8 & 0x8 == 0 && 0u8 & 0x10 == 0)
            by (bit_vector);
        GcFlags(0)
    }

    /// The color.
    pub fn color(&self) -> (color: GcColor)
        ensures
            color == self@.color,
    {
        let bits: u8 = self.0;
        let low: u8 = bits & 0x3;
        assert(low == 0 || low == 1 || low == 2 || low == 3) by (bit_vector)
            requires
                low == bits & 0x3,
        ;
        if low == 0x0 {
            GcColor::FreshWhite
        } else if low == 0x1 {
            GcColor::White
        } else if low == 0x2 {
            GcColor::Gray
        } else {
            GcColor::Black
        }
    }

    /// Replaces the color and leaves the three flags as they are.
    pub fn set_color(&mut self, color: GcColor)
        ensures
            final(self)@ == (FlagsView { color, ..old(self)@ }),
            final(self).bits() == (old(self).bits() & !0x3) | bits_of_color(color),
    {
        let code: u8 = match color {
            GcColor::FreshWhite => 0x0,
            GcColor::White => 0x1,
            GcColor::Gray => 0x2,
            GcColor::Black => 0x3,
        };
        let before: u8 = self.0;
        let after: u8 = (before & !0x3) | code;
        assert(after & 0x3 == code && after & 0x4 == before & 0x4 && after & 0x8 == before & 0x8
            && after & 0x10 == before & 0x10) by (bit_vector)
            requires
                after == (before & !0x3) | code,
                code <= 3,
        ;
        self.0 = after;
    }

    /// Whether the payload can hold a managed pointer.
    pub fn needs_trace(&self) -> (set: bool)
        ensures
            set == self@.needs_trace,
    {
        self.0 & 0x4 != 0x0
    }

    /// Whether a weak pointer to the box was made or traced.
    pub fn has_weak_ref(&self) -> (set: bool)
        ensures
            set == self@.has_weak_ref,
    {
        self.0 & 0x8 != 0x0
    }

    /// Whether the box is alive: set at allocation, cleared when the sweep
    /// frees the box.
    pub fn alive(&self) -> (set: bool)
        ensures
            set == self@.alive,
    {
        self.0 & 0x10 != 0x0
    }

    /// Sets or clears `needs_trace` and leaves the rest as it is.
    pub fn set_needs_trace(&mut self, needs_trace: bool)
        ensures
            final(self)@ == (FlagsView { needs_trace, ..old(self)@ }),
            final(self).bits() == (old(self).bits() & !0x4) | (if needs_trace {
                0x4u8
            } else {
                0x0u8
            }),
    {
        let bit: u8 = if needs_trace { 0x4 } else { 0x0 };
        let before: u8 = self.0;
        let after: u8 = (before & !0x4) | bit;
        assert(after & 0x3 == before & 0x3 && (after & 0x4 != 0) == (bit != 0) && after & 0x8
            == before & 0x8 && after & 0x10 == before & 0x10) by (bit_vector)
            requires
                after == (before & !0x4) | bit,
                bit == 0x4 || bit == 0x0,
        ;
        self.0 = after;
    }

    /// Sets or clears `has_weak_ref` and leaves the rest as it is.
    pub fn set_has_weak_ref(&mut self, has_weak_ref: bool)
        ensures
            final(self)@ == (FlagsView { has_weak_ref, ..old(self)@ }),
            final(self).bits() == (old(self).bits() & !0x8) | (if has_weak_ref {
                0x8u8
            } else {
                0x0u8
            }),
    {
        let bit: u8 = if has_weak_ref { 0x8 } else { 0x0 };
        let before: u8 = self.0;
        let after: u8 = (before & !0x8) | bit;
        assert(after & 0x3 == before & 0x3 && after & 0x4 == before & 0x4 && (after & 0x8 != 0)
            == (bit != 0) && after & 0x10 == before & 0x10) by (bit_vector)
            requires
                after == (before & !0x8) | bit,
                bit == 0x8 || bit == 0x0,
        ;
        self.0 = after;
    }

    /// Sets or clears `alive` and leaves the rest as it is.
    pub fn set_alive(&mut self, alive: bool)
        ensures
            final(self)@ == (FlagsView { alive, ..old(self)@ }),
            final(self).bits() == (old(self).bits() & !0x10) | (if alive {
                0x10u8
            } else {
                0x0u8
            }),
    {
        let bit: u8 = if alive { 0x10 } else { 0x0 };
        let before: u8 = self.0;
        let after: u8 = (before & !0x10) | bit;
        assert(after & 0x3 == before & 0x3 && after & 0x4 == before & 0x4 && after & 0x8
            == before & 0x8 && (after & 0x10 != 0) == (bit != 0)) by (bit_vector)
            requires
                after == (before & !0x10) | bit,
                bit == 0x10 || bit == 0x0,
        ;
        self.0 = after;
    }
}

/// A managed box: the header, the link to the box allocated after it, the
/// edges that the payload reported when it was installed, and the payload.
pub struct GcBox<T> {
    pub flags: GcFlags,
    pub next: Option<usize>,
    /// The epoch in which the mutator was last handed this box.
    pub seen: u64,
    pub edges: Vec<Edge>,
    pub value: T,
}

/// What a managed box stands for: its header, its edges and its payload.
pub struct BoxView<T> {
    pub flags: FlagsView,
    pub seen: u64,
    pub edges: Seq<Edge>,
    pub value: T,
}

impl<T> View for GcBox<T> {
    type V = BoxView<T>;

    open spec fn view(&self) -> BoxView<T> {
        BoxView { flags: self.flags@, seen: self.seen, edges: self.edges@, value: self.value }
    }
}

} // verus!
