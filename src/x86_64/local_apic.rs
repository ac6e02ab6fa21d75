//! Register values of the local APIC.

use vstd::prelude::*;

use crate::types::{PhysAddr, VirtAddr};

verus! {

/// Flag bits of a local vector table entry.
pub const LVT_FLAGS: u32 = 0x1_f000;

/// Vector used for spurious interrupts unless told otherwise.
pub const DEFAULT_SPURIOUS_VECTOR: u8 = 0xff;

/// Gathers what enabling a local APIC needs.
#[derive(Debug, Clone, Copy)]
pub struct LocalApicBuilder {
    pub addr: VirtAddr,
    pub spurious_interrupt_vector: u8,
    pub physical: PhysAddr,
}

impl LocalApicBuilder {
    /// A builder for the local APIC at `physical`, mapped at `ptr`.
    pub fn with_addresses(physical: PhysAddr, ptr: VirtAddr) -> (r: LocalApicBuilder)
        ensures
            r.addr == ptr,
            r.physical == physical,
            r.spurious_interrupt_vector == DEFAULT_SPURIOUS_VECTOR,
    {
        LocalApicBuilder { addr: ptr, physical, spurious_interrupt_vector: DEFAULT_SPURIOUS_VECTOR }
    }
}

/// A local vector table entry.
#[derive(Debug, Clone, Copy, PartialEq, Eq, Structural)]
pub struct LvtEntry(pub u32);

impl LvtEntry {
    /// The entry for `vector` with the known flags among `flags`.
    pub fn new(vector: u8, flags: u32) -> (r: LvtEntry)
        ensures
            r.0 == (vector as u32) | (flags & LVT_FLAGS),
    {
        LvtEntry((vector as u32) | (flags & LVT_FLAGS))
    }
}

/// When a local APIC timer interrupt is signalled.
#[derive(Debug, Clone, Copy, PartialEq, Eq, Structural)]
pub enum TriggerMode {
    Edge,
    Level,
}

/// How the local APIC timer counts.
#[derive(Debug, Clone, Copy, PartialEq, Eq, Structural)]
pub enum TimerMode {
    OneShot,
    Periodic,
    TscDeadline,
}

/// The two-bit code of a timer mode.
pub open spec fn timer_mode_bits(mode: TimerMode) -> u32 {
    match mode {
        TimerMode::OneShot => 0,
        TimerMode::Periodic => 1,
        TimerMode::TscDeadline => 2,
    }
}

/// The one-bit code of a trigger mode.
pub open spec fn trigger_mode_bits(mode: TriggerMode) -> u32 {
    match mode {
        TriggerMode::Edge => 0,
        TriggerMode::Level => 1,
    }
}

/// The timer entry of the local vector table: the vector in bits 0 to 7,
/// the mask in bit 16, the trigger mode in bit 15 and the timer mode from
/// bit 17 on.
pub fn pack_timer_lvt_entry(vector: u8, timer_mode: TimerMode, trigger_mode: TriggerMode, mask: bool) -> (r: u32)
    ensures
        r == (vector as u32) | (timer_mode_bits(timer_mode) << 17u32) | ((if mask { 1u32 } else { 0u32 })
            << 16u32) | (trigger_mode_bits(trigger_mode) << 15u32),
{
    let timer: u32 = match timer_mode {
        TimerMode::OneShot => 0,
        TimerMode::Periodic => 1,
        TimerMode::TscDeadline => 2,
    };
    let trigger: u32 = match trigger_mode {
        TriggerMode::Edge => 0,
        TriggerMode::Level => 1,
    };
    let masked: u32 = if mask { 1 } else { 0 };
    (vector as u32) | (timer << 17u32) | (masked << 16u32) | (trigger << 15u32)
}

} // verus!
