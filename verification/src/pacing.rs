//! When the collector works and how much: the parameters of an arena and
//! the debt that allocation runs up.

use vstd::prelude::*;

verus! {

/// The tuning of an arena. The two factors are in hundredths: 50 is a half.
#[derive(Copy, Clone, Debug, PartialEq, Eq, Structural)]
pub struct ArenaParameters {
    /// The debt that each allocated byte runs up; and the fraction of the
    /// bytes that the last sweep kept that allocation must reach before a
    /// sleeping collector starts a cycle.
    pub pause_factor: u64,
    /// The bytes of collection work done for each byte of debt.
    pub timing_factor: u64,
    /// The debt, in bytes, below which the collector is left alone.
    pub min_sleep: u64,
}

impl Default for ArenaParameters {
    /// A pause factor of a half, a timing factor of one and a half, and a
    /// minimum sleep of 4 KiB.
    fn default() -> (parameters: ArenaParameters)
        ensures
            parameters == (ArenaParameters { pause_factor: 50, timing_factor: 150, min_sleep: 4096 }),
    {
        ArenaParameters { pause_factor: 50, timing_factor: 150, min_sleep: 4096 }
    }
}

impl ArenaParameters {
    /// The same parameters with another pause factor.
    pub fn set_pause_factor(self, pause_factor: u64) -> (parameters: ArenaParameters)
        ensures
            parameters == (ArenaParameters { pause_factor, ..self }),
    {
        ArenaParameters { pause_factor, ..self }
    }

    /// The same parameters with another timing factor.
    pub fn set_timing_factor(self, timing_factor: u64) -> (parameters: ArenaParameters)
        ensures
            parameters == (ArenaParameters { timing_factor, ..self }),
    {
        ArenaParameters { timing_factor, ..self }
    }

    /// The same parameters with another minimum sleep.
    pub fn set_min_sleep(self, min_sleep: u64) -> (parameters: ArenaParameters)
        ensures
            parameters == (ArenaParameters { min_sleep, ..self }),
    {
        ArenaParameters { min_sleep, ..self }
    }
}

/// `amount` taken `factor` hundredths of times, rounded down.
pub open spec fn scaled(amount: nat, factor: nat) -> nat {
    amount * factor / 100
}

/// `n`, or the largest `u64` where `n` is larger.
pub open spec fn saturated(n: nat) -> u64 {
    if n > u64::MAX {
        u64::MAX
    } else {
        n as u64
    }
}

/// The boxes of `size` bytes that it takes to make up `bytes`.
pub open spec fn boxes_for(bytes: nat, size: nat) -> nat
    recommends
        size > 0,
{
    (bytes + size - 1) as nat / size
}

/// What was allocated since the collector last worked, and what the last
/// sweep kept.
#[derive(Copy, Clone, Debug, PartialEq, Eq, Structural)]
pub struct Pacing {
    /// The bytes allocated since the collector last worked.
    pub allocated: u64,
    /// The bytes that the last sweep kept.
    pub remembered: u64,
}

impl Pacing {
    /// The allocation debt: the bytes allocated since the collector last
    /// worked, by the pause factor.
    pub open spec fn debt(self, parameters: ArenaParameters) -> u64 {
        saturated(scaled(self.allocated as nat, parameters.pause_factor as nat))
    }

    /// Whether the collector is to work now: the debt has reached the
    /// minimum sleep and, where the collector sleeps, the allocation has
    /// reached the pause factor's share of what the last sweep kept.
    pub open spec fn due(self, parameters: ArenaParameters, asleep: bool) -> bool {
        &&& self.debt(parameters) >= parameters.min_sleep
        &&& asleep ==> self.allocated >= saturated(
            scaled(self.remembered as nat, parameters.pause_factor as nat),
        )
    }

    /// The boxes' worth of work that pays the debt off: the debt by the
    /// timing factor, in boxes of `size` bytes, a part of a box counting as
    /// a box.
    pub open spec fn budget(self, parameters: ArenaParameters, size: u64) -> u64
        recommends
            size > 0,
    {
        saturated(
            boxes_for(
                saturated(
                    scaled(self.debt(parameters) as nat, parameters.timing_factor as nat),
                ) as nat,
                size as nat,
            ),
        )
    }

    /// The pacing after an allocation of `size` bytes.
    pub open spec fn charged(self, size: u64) -> Pacing {
        Pacing { allocated: saturated(self.allocated as nat + size as nat), ..self }
    }
}

/// `amount` taken `factor` hundredths of times, rounded down and saturated.
pub fn scale(amount: u64, factor: u64) -> (out: u64)
    ensures
        out == saturated(scaled(amount as nat, factor as nat)),
{
    assert(0 <= (amount as int) * (factor as int) <= 0xffff_ffff_ffff_ffff
        * 0xffff_ffff_ffff_ffff) by (nonlinear_arith)
        requires
            0 <= amount <= 0xffff_ffff_ffff_ffff,
            0 <= factor <= 0xffff_ffff_ffff_ffff,
    ;
    let product: u128 = (amount as u128) * (factor as u128);
    let quotient: u128 = product / 100;
    if quotient > u64::MAX as u128 {
        u64::MAX
    } else {
        quotient as u64
    }
}

/// The bytes that `count` boxes of `size` bytes take, saturated.
pub fn bytes_of(count: usize, size: u64) -> (out: u64)
    ensures
        out == saturated(count as nat * size as nat),
{
    assert(0 <= (count as int) * (size as int) <= 0xffff_ffff_ffff_ffff
        * 0xffff_ffff_ffff_ffff) by (nonlinear_arith)
        requires
            0 <= count <= 0xffff_ffff_ffff_ffff,
            0 <= size <= 0xffff_ffff_ffff_ffff,
    ;
    let product: u128 = (count as u128) * (size as u128);
    if product > u64::MAX as u128 {
        u64::MAX
    } else {
        product as u64
    }
}

impl Pacing {
    /// Nothing allocated, and nothing kept.
    pub fn new() -> (pacing: Pacing)
        ensures
            pacing == (Pacing { allocated: 0, remembered: 0 }),
    {
        Pacing { allocated: 0, remembered: 0 }
    }

    /// The allocation debt, in bytes.
    pub fn allocation_debt(&self, parameters: &ArenaParameters) -> (debt: u64)
        ensures
            debt == self.debt(*parameters),
    {
        scale(self.allocated, parameters.pause_factor)
    }

    /// Whether the collector is to work now.
    pub fn is_due(&self, parameters: &ArenaParameters, asleep: bool) -> (due: bool)
        ensures
            due == self.due(*parameters, asleep),
    {
        if self.allocation_debt(parameters) < parameters.min_sleep {
            false
        } else if asleep {
            self.allocated >= scale(self.remembered, parameters.pause_factor)
        } else {
            true
        }
    }

    /// The boxes' worth of work that pays the debt off.
    pub fn work_budget(&self, parameters: &ArenaParameters, size: u64) -> (boxes: u64)
        requires
            size > 0,
        ensures
            boxes == self.budget(*parameters, size),
    {
        let bytes: u64 = scale(self.allocation_debt(parameters), parameters.timing_factor);
        let padded: u128 = bytes as u128 + (size as u128 - 1);
        let boxes: u128 = padded / (size as u128);
        assert(boxes <= u64::MAX) by {
            assert(padded / (size as u128) <= padded) by (nonlinear_arith)
                requires
                    size >= 1,
                    padded >= 0,
            ;
            if size == 1 {
                assert(padded == bytes);
            } else {
                assert(padded / (size as u128) <= padded / 2) by (nonlinear_arith)
                    requires
                        size >= 2,
                        padded >= 0,
                ;
            }
        }
        boxes as u64
    }

    /// Counts an allocation of `size` bytes.
    pub fn charge(&mut self, size: u64)
        ensures
            *final(self) == old(self).charged(size),
    {
        self.allocated = self.allocated.saturating_add(size);
    }
}

} // verus!
