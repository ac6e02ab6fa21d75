//! x86-64 structures whose encoding the kernel computes: interrupt gates
//! and local APIC register values.

pub mod apic;
pub mod idt;
pub mod local_apic;
