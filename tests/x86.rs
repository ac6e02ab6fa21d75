use kernel::hhdm::Hhdm;
use kernel::types::{PhysAddr, VirtAddr};
use kernel::x86_64::apic::XApic;
use kernel::x86_64::idt::{GateOptions, Idt, RawGate, Selector};
use kernel::x86_64::local_apic::{pack_timer_lvt_entry, LocalApicBuilder, LvtEntry, TimerMode, TriggerMode};

#[test]
fn direct_map_adds_and_removes_the_offset() {
    let hhdm = Hhdm::with_limine(0xffff_8000_0000_0000);
    let alias = hhdm.to_virtual(PhysAddr(0x1234_5000));
    assert_eq!(alias.as_ptr(), 0xffff_8000_1234_5000);
    assert_eq!(alias.as_nonnull(), VirtAddr(0xffff_8000_1234_5000));
    assert_eq!(hhdm.to_physical(alias), PhysAddr(0x1234_5000));
}

#[test]
fn missing_gate_is_not_present() {
    let gate = RawGate::missing();
    assert_eq!(gate.offset_low, 0);
    assert_eq!(gate.offset_mid, 0);
    assert_eq!(gate.offset_high, 0);
    assert_eq!(gate.options, GateOptions(0x0e00));
    assert_eq!(gate.selector, Selector(0));
}

#[test]
fn gate_splits_the_handler_address() {
    let gate = RawGate::with_addr(0xffff_ffff_8012_3456, Selector(0x28));
    assert_eq!(gate.offset_low, 0x3456);
    assert_eq!(gate.offset_mid, 0x8012);
    assert_eq!(gate.offset_high, 0xffff_ffff);
    assert_eq!(gate.options, GateOptions(0x8e00));
    assert_eq!(gate.selector, Selector(0x28));
    assert_eq!(gate.reserved, 0);
}

#[test]
fn gate_options_present_bit() {
    let mut options = GateOptions::new();
    options.set_present(true);
    assert_eq!(options, GateOptions(0x8e00));
    options.set_present(false);
    assert_eq!(options, GateOptions(0x0e00));
}

#[test]
fn empty_table_then_one_gate() {
    let mut idt = Idt::empty();
    assert_eq!(idt.gate(255), RawGate::missing());
    let gate = RawGate::with_addr(0x1000, Selector(8));
    idt.set_gate(32, gate);
    assert_eq!(idt.gate(32), gate);
    assert_eq!(idt.gate(31), RawGate::missing());
}

#[test]
fn xapic_registers_are_sixteen_bytes_apart() {
    assert_eq!(XApic::physical_address(), PhysAddr(0xfee0_0000));
    let apic = XApic::with_higher_half(&Hhdm::with_limine(0xffff_8000_0000_0000));
    assert_eq!(apic.register_address(0), 0xffff_8000_fee0_0000);
    assert_eq!(apic.register_address(0xf), 0xffff_8000_fee0_00f0);
    let direct = XApic::with_address(VirtAddr(0x10_0000));
    assert_eq!(direct.register_address(2), 0x10_0020);
}

#[test]
fn local_apic_builder_and_lvt_entries() {
    let b = LocalApicBuilder::with_addresses(PhysAddr(0xfee0_0000), VirtAddr(0x2000));
    assert_eq!(b.spurious_interrupt_vector, 0xff);
    assert_eq!(b.addr, VirtAddr(0x2000));
    assert_eq!(b.physical, PhysAddr(0xfee0_0000));
    assert_eq!(LvtEntry::new(32, 1 << 16), LvtEntry(0x1_0020));
    assert_eq!(LvtEntry::new(32, 0xffff_ffff), LvtEntry(0x1_f020));
}

#[test]
fn timer_entry_packs_each_field() {
    assert_eq!(pack_timer_lvt_entry(32, TimerMode::Periodic, TriggerMode::Edge, false), 0x2_0020);
    assert_eq!(pack_timer_lvt_entry(0xff, TimerMode::TscDeadline, TriggerMode::Level, true), 0x5_80ff);
    assert_eq!(pack_timer_lvt_entry(0, TimerMode::OneShot, TriggerMode::Edge, false), 0);
}
