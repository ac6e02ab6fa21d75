//! Interrupt descriptor table entries.

use vstd::prelude::*;

verus! {

/// Number of gates in the interrupt descriptor table.
pub const IDT_ENTRIES: usize = 256;

/// Option bit that marks a gate present.
pub const GATE_PRESENT: u16 = 0x8000;

/// A code segment selector.
#[derive(Debug, Clone, Copy, PartialEq, Eq, Structural)]
pub struct Selector(pub u16);

/// Type and attribute bits of a gate.
#[derive(Debug, Clone, Copy, PartialEq, Eq, Structural)]
pub struct GateOptions(pub u16);

impl GateOptions {
    /// An interrupt gate that is not present.
    pub fn new() -> (r: GateOptions)
        ensures
            r.0 == 0x0e00,
    {
        GateOptions(0b1110_0000_0000)
    }

    /// Sets or clears the present bit, keeping the others.
    pub fn set_present(&mut self, present: bool)
        ensures
            final(self).0 == if present {
                old(self).0 | GATE_PRESENT
            } else {
                old(self).0 & !GATE_PRESENT
            },
    {
        if present {
            self.0 = self.0 | GATE_PRESENT;
        } else {
            self.0 = self.0 & !GATE_PRESENT;
        }
    }
}

/// One 16-byte gate of the interrupt descriptor table.
#[derive(Debug, Clone, Copy, PartialEq, Eq, Structural)]
pub struct RawGate {
    pub offset_low: u16,
    pub selector: Selector,
    pub options: GateOptions,
    pub offset_mid: u16,
    pub offset_high: u32,
    pub reserved: u32,
}

impl RawGate {
    /// The handler address held by the three offset fields.
    pub open spec fn target(&self) -> u64 {
        (self.offset_low as u64) | ((self.offset_mid as u64) << 16u64) | ((self.offset_high as u64) << 32u64)
    }

    /// Whether this gate is marked present.
    pub open spec fn present(&self) -> bool {
        self.options.0 & GATE_PRESENT == GATE_PRESENT
    }

    /// A gate that is not present and points nowhere.
    pub fn missing() -> (r: RawGate)
        ensures
            r == (RawGate {
                offset_low: 0,
                selector: Selector(0),
                options: GateOptions(0x0e00),
                offset_mid: 0,
                offset_high: 0,
                reserved: 0,
            }),
            r.target() == 0,
            !r.present(),
    {
        assert((0x0e00u16 & 0x8000) != 0x8000) by (bit_vector);
        assert((0u64 | (0u64 << 16u64) | (0u64 << 32u64)) == 0) by (bit_vector);
        RawGate {
            offset_low: 0,
            selector: Selector(0),
            options: GateOptions::new(),
            offset_mid: 0,
            offset_high: 0,
            reserved: 0,
        }
    }

    /// A present gate to the handler at `addr` in the code segment `selector`.
    pub fn with_addr(addr: usize, selector: Selector) -> (r: RawGate)
        ensures
            r.target() == addr as u64,
            r.present(),
            r.selector == selector,
            r.reserved == 0,
    {
        let mut gate = RawGate::missing();
        gate.set_addr(addr, selector);
        gate
    }

    /// Points this gate at the handler at `addr` in the code segment
    /// `selector`, and marks it present.
    pub fn set_addr(&mut self, addr: usize, selector: Selector)
        ensures
            final(self).target() == addr as u64,
            final(self).present(),
            final(self).selector == selector,
            final(self).reserved == old(self).reserved,
            final(self).options.0 == old(self).options.0 | GATE_PRESENT,
    {
        let a = addr as u64;
        assert(a & 0xffff <= 0xffff) by (bit_vector);
        assert((a >> 16u64) & 0xffff <= 0xffff) by (bit_vector);
        assert(a >> 32u64 <= 0xffff_ffff) by (bit_vector);
        self.selector = selector;
        self.offset_low = (a & 0xffff) as u16;
        self.offset_mid = ((a >> 16u64) & 0xffff) as u16;
        self.offset_high = (a >> 32u64) as u32;
        self.options.set_present(true);
        proof {
            let o = old(self).options.0;
            assert((o | 0x8000u16) & 0x8000 == 0x8000) by (bit_vector);
            assert(((a & 0xffff) | (((a >> 16u64) & 0xffff) << 16u64) | ((a >> 32u64) << 32u64)) == a) by (bit_vector);
        }
    }
}

/// The interrupt descriptor table: one gate per vector.
#[derive(Debug)]
pub struct Idt {
    gates: Vec<RawGate>,
}

impl Idt {
    /// The gates, by vector.
    pub closed spec fn view_gates(&self) -> Seq<RawGate> {
        self.gates@
    }

    /// A table whose every gate is missing.
    pub fn empty() -> (r: Idt)
        ensures
            r.view_gates().len() == IDT_ENTRIES,
            forall|v: int|
                0 <= v < IDT_ENTRIES ==> #[trigger] r.view_gates()[v] == (RawGate {
                    offset_low: 0,
                    selector: Selector(0),
                    options: GateOptions(0x0e00),
                    offset_mid: 0,
                    offset_high: 0,
                    reserved: 0,
                }),
    {
        let mut gates: Vec<RawGate> = Vec::new();
        let mut v: usize = 0;
        while v < IDT_ENTRIES
            invariant
                v <= IDT_ENTRIES,
                gates@.len() == v,
                forall|u: int|
                    0 <= u < v ==> #[trigger] gates@[u] == (RawGate {
                        offset_low: 0,
                        selector: Selector(0),
                        options: GateOptions(0x0e00),
                        offset_mid: 0,
                        offset_high: 0,
                        reserved: 0,
                    }),
            decreases IDT_ENTRIES - v,
        {
            gates.push(RawGate::missing());
            v = v + 1;
        }
        Idt { gates }
    }

    /// Installs `gate` for `vector`.
    pub fn set_gate(&mut self, vector: u8, gate: RawGate)
        requires
            old(self).view_gates().len() == IDT_ENTRIES,
        ensures
            final(self).view_gates() == old(self).view_gates().update(vector as int, gate),
    {
        self.gates.set(vector as usize, gate);
    }

    /// The entry for `vector`.
    pub fn gate(&self, vector: u8) -> (r: RawGate)
        requires
            self.view_gates().len() == IDT_ENTRIES,
        ensures
            r == self.view_gates()[vector as int],
    {
        self.gates[vector as usize]
    }
}

} // verus!
