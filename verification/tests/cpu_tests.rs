use uxn_core::Console;
use uxn_core::Device;
use uxn_core::Fault;
use uxn_core::SetupError;
use uxn_core::StepOutcome;
use uxn_core::Uxn;

const FUEL: u64 = 100_000;

fn run(rom: &[u8]) -> Uxn<Console> {
    let mut uxn: Uxn<Console> = Uxn::new();
    uxn.load_rom(rom).unwrap();
    let out = uxn.eval_vector(0x0100, FUEL);
    assert_eq!(out, StepOutcome::Halt);
    uxn
}

#[test]
fn test_load_rom() {
    let mut uxn: Uxn<Console> = Uxn::new();
    let rom: [u8; 4] = [0x12, 0x34, 0x56, 0x78];

    // Verify that first four bytes are the ROM bytes
    uxn.load_rom(&rom).unwrap();
    assert_eq!(uxn.mem[0x0100..0x0104], [0x12, 0x34, 0x56, 0x78]);

    // Verify that the rest of the memory is zeroed
    for byte in uxn.mem[0x0104..].iter() {
        assert_eq!(*byte, 0_u8);
    }
}

#[test]
fn test_cpu_opcodes() {
    // LIT 12 ( 12 )
    let uxn = run(&[0x80, 0x12]);
    assert_eq!(uxn.wst.data.as_slice(), [0x12]);
    // LIT2 1234 ADD ( 46 )
    let uxn = run(&[0xa0, 0x12, 0x34, 0x18]);
    assert_eq!(uxn.wst.data.as_slice(), [0x46]);
    // LIT 10 DUP ( 10 10 )
    let uxn = run(&[0x80, 0x10, 0x06]);
    assert_eq!(uxn.wst.data.as_slice(), [0x10, 0x10]);
    // LIT2 1234 SWP ( 34 12 )
    let uxn = run(&[0xa0, 0x12, 0x34, 0x04]);
    assert_eq!(uxn.wst.data.as_slice(), [0x34, 0x12]);
    // LIT2 1234 ADDk ( 12 34 46 )
    let uxn = run(&[0xa0, 0x12, 0x34, 0x98]);
    assert_eq!(uxn.wst.data.as_slice(), [0x12, 0x34, 0x46]);
    // LIT 02 JMP LIT 12 LIT 34 ( 34 )
    let uxn = run(&[0x80, 0x02, 0x0c, 0x80, 0x12, 0x80, 0x34]);
    assert_eq!(uxn.wst.data.as_slice(), [0x34]);
}

#[test]
fn test_return_mode_is_scoped() {
    // LITr 10 LITr 20 ADDr: everything happens on the return stack, and the
    // working stack the next instructions see is untouched.
    let uxn = run(&[0xc0, 0x10, 0xc0, 0x20, 0x58]);
    assert_eq!(uxn.wst.data.as_slice(), [0u8; 0]);
    assert_eq!(uxn.rst.data.as_slice(), [0x30]);
}

#[test]
fn test_memory_wraps() {
    // LIT2 1234 LIT2 ffff STA2: the high byte lands at 0xffff, the low byte
    // wraps to address 0x0000; LIT 00 LDZ reads it back.
    let uxn = run(&[0xa0, 0x12, 0x34, 0xa0, 0xff, 0xff, 0x35, 0x80, 0x00, 0x10]);
    assert_eq!(uxn.wst.data.as_slice(), [0x34]);
    assert_eq!(uxn.mem[0xffff], 0x12);
    assert_eq!(uxn.mem[0x0000], 0x34);
}

#[test]
fn test_dup_pop_is_identity() {
    // LIT 10 DUP POP ( 10 )
    let uxn = run(&[0x80, 0x10, 0x06, 0x02]);
    assert_eq!(uxn.wst.data.as_slice(), [0x10]);
}

#[test]
fn test_short_width_add() {
    // LIT2 1234 LIT2 0001 ADD2 ( 12 35 )
    let uxn = run(&[0xa0, 0x12, 0x34, 0xa0, 0x00, 0x01, 0x38]);
    assert_eq!(uxn.wst.data.as_slice(), [0x12, 0x35]);
}

#[test]
fn test_division_by_zero_pushes_zero() {
    // LIT 08 LIT 00 DIV ( 00 )
    let uxn = run(&[0x80, 0x08, 0x80, 0x00, 0x1b]);
    assert_eq!(uxn.wst.data.as_slice(), [0x00]);
}

#[test]
fn test_arithmetic_wraps() {
    // LIT ff INC ( 00 ) and LIT2 ffff INC2 ( 00 00 ) on a fresh machine.
    let uxn = run(&[0x80, 0xff, 0x01]);
    assert_eq!(uxn.wst.data.as_slice(), [0x00]);
    let uxn = run(&[0xa0, 0xff, 0xff, 0x21]);
    assert_eq!(uxn.wst.data.as_slice(), [0x00, 0x00]);
}

#[test]
fn test_jmi_skips() {
    // JMI +2 skips the first LIT.
    let uxn = run(&[0x40, 0x00, 0x02, 0x80, 0x12, 0x80, 0x34]);
    assert_eq!(uxn.wst.data.as_slice(), [0x34]);
}

#[test]
fn test_jsi_pushes_return_address() {
    // JSI +2 pushes the address after its immediate (0x0103) onto the
    // return stack and jumps past the two zero bytes.
    let uxn = run(&[0x60, 0x00, 0x02, 0x00, 0x00, 0x80, 0x07]);
    assert_eq!(uxn.wst.data.as_slice(), [0x07]);
    assert_eq!(uxn.rst.data.as_slice(), [0x01, 0x03]);
}

#[test]
fn test_jci_taken_and_not_taken() {
    // LIT 01 JCI +2: taken, skips the LIT 12.
    let uxn = run(&[0x80, 0x01, 0x20, 0x00, 0x02, 0x80, 0x12, 0x80, 0x34]);
    assert_eq!(uxn.wst.data.as_slice(), [0x34]);
    // LIT 00 JCI +2: not taken, runs both LITs.
    let uxn = run(&[0x80, 0x00, 0x20, 0x00, 0x02, 0x80, 0x12, 0x80, 0x34]);
    assert_eq!(uxn.wst.data.as_slice(), [0x12, 0x34]);
}

#[test]
fn test_pop_on_empty_stack_faults() {
    let mut uxn: Uxn<Console> = Uxn::new();
    uxn.load_rom(&[0x02]).unwrap();
    let out = uxn.eval_vector(0x0100, FUEL);
    assert_eq!(out, StepOutcome::Fault(Fault::StackUnderflow));
}

#[test]
fn test_push_past_capacity_faults() {
    let mut rom = Vec::new();
    for _ in 0..256 {
        rom.push(0x80);
        rom.push(0x01);
    }
    let mut uxn: Uxn<Console> = Uxn::new();
    uxn.load_rom(&rom).unwrap();
    let out = uxn.eval_vector(0x0100, FUEL);
    assert_eq!(out, StepOutcome::Fault(Fault::StackOverflow));
    assert_eq!(uxn.wst.data.len(), 255);
}

#[test]
fn test_fuel_runs_out() {
    // JMI -3 jumps back onto itself forever.
    let mut uxn: Uxn<Console> = Uxn::new();
    uxn.load_rom(&[0x40, 0xff, 0xfd]).unwrap();
    let out = uxn.eval_vector(0x0100, 1000);
    assert_eq!(out, StepOutcome::Continue);
}

#[test]
fn test_rom_too_large() {
    let mut uxn: Uxn<Console> = Uxn::new();
    let big = vec![0u8; 0xff00];
    assert_eq!(uxn.load_rom(&big), Err(SetupError::RomTooLarge));
    let fitting = vec![0x07u8; 0xfeff];
    assert_eq!(uxn.load_rom(&fitting), Ok(()));
    assert_eq!(uxn.mem[0x0100], 0x07);
    assert_eq!(uxn.mem[0xfffe], 0x07);
    assert_eq!(uxn.mem[0xffff], 0x00);
}

#[test]
fn test_slot_occupied() {
    let mut uxn: Uxn<Console> = Uxn::new();
    assert_eq!(uxn.mount_device(Console::new(), 1), Ok(()));
    assert_eq!(
        uxn.mount_device(Console::new(), 1),
        Err(SetupError::SlotOccupied)
    );
    assert_eq!(uxn.mount_device(Console::new(), 2), Ok(()));
}

#[test]
fn test_console_collects_output() {
    // LIT 48 LIT 18 DEO: write 'H' to device slot 1, port 8.
    let mut uxn: Uxn<Console> = Uxn::new();
    uxn.mount_device(Console::new(), 1).unwrap();
    uxn.load_rom(&[0x80, 0x48, 0x80, 0x18, 0x17]).unwrap();
    assert_eq!(uxn.eval_vector(0x0100, FUEL), StepOutcome::Halt);
    assert_eq!(uxn.wst.data.as_slice(), [0u8; 0]);
    match &uxn.devices[1] {
        Some(console) => assert_eq!(console.out, vec![0x48]),
        None => panic!("console is mounted"),
    }
}

#[test]
fn test_device_write_then_read() {
    // LIT 41 LIT 12 DEO: store 0x41 at slot 1 port 2; LIT 12 DEI reads it
    // back onto the working stack.
    let mut uxn: Uxn<Console> = Uxn::new();
    uxn.mount_device(Console::new(), 1).unwrap();
    uxn.load_rom(&[0x80, 0x41, 0x80, 0x12, 0x17, 0x80, 0x12, 0x16])
        .unwrap();
    assert_eq!(uxn.eval_vector(0x0100, FUEL), StepOutcome::Halt);
    assert_eq!(uxn.wst.data.as_slice(), [0x41]);
}

#[test]
fn test_device_short_write_then_read() {
    // LIT2 1234 LIT 12 DEO2 stores the short at slot 1, ports 2 and 3;
    // LIT 12 DEI2 reads both bytes back as one short.
    let mut uxn: Uxn<Console> = Uxn::new();
    uxn.mount_device(Console::new(), 1).unwrap();
    uxn.load_rom(&[0xa0, 0x12, 0x34, 0x80, 0x12, 0x37, 0x80, 0x12, 0x36])
        .unwrap();
    assert_eq!(uxn.eval_vector(0x0100, FUEL), StepOutcome::Halt);
    assert_eq!(uxn.wst.data.as_slice(), [0x12, 0x34]);
}

#[test]
fn test_console_byte_write_stores_and_collects() {
    // A write to port 8 stores the byte and collects it for output; a write
    // elsewhere stores without collecting, and reads return what was stored.
    let mut c = Console::new();
    c.set_byte(0x18, 0x58);
    assert_eq!(c.mem[0x08], 0x58);
    assert_eq!(c.get(0x08), 0x58);
    assert_eq!(c.out, vec![0x58]);
    c.set_byte(0x02, 0x41);
    assert_eq!(c.get(0x02), 0x41);
    assert_eq!(c.out, vec![0x58]);
}

#[test]
fn test_console_short_write_collects_low_byte() {
    // A short write to ports 7 and 8 puts the high byte at 7 and the low
    // byte at 8; only the byte landing on port 8 is collected.
    let mut c = Console::new();
    c.set_short(0x07, 0x4142);
    assert_eq!(c.mem[0x07], 0x41);
    assert_eq!(c.mem[0x08], 0x42);
    assert_eq!(c.out, vec![0x42]);
}

#[test]
fn test_unmounted_device_short_read_zero() {
    // LIT 42 DEI2: slot 4 is empty, so the read pushes a zero short.
    let uxn = run(&[0x80, 0x42, 0x36]);
    assert_eq!(uxn.wst.data.as_slice(), [0x00, 0x00]);
}

#[test]
fn test_unmounted_device_reads_zero() {
    // LIT 42 DEI: slot 4 is empty, so the read pushes 0.
    let uxn = run(&[0x80, 0x42, 0x16]);
    assert_eq!(uxn.wst.data.as_slice(), [0x00]);
}

#[test]
fn test_shift() {
    // LIT 41 LIT 03 SFT: the value 0x03 shifted right by 1 and left by 4:
    // (3 >> 1) << 4 = 0x10.
    let uxn = run(&[0x80, 0x41, 0x80, 0x03, 0x1f]);
    assert_eq!(uxn.wst.data.as_slice(), [0x10]);
}

#[test]
fn test_comparisons() {
    // LIT2 0102 LTH ( 01 ), then GTH on the same operands gives 0.
    let uxn = run(&[0xa0, 0x01, 0x02, 0x0b]);
    assert_eq!(uxn.wst.data.as_slice(), [0x01]);
    let uxn = run(&[0xa0, 0x01, 0x02, 0x0a]);
    assert_eq!(uxn.wst.data.as_slice(), [0x00]);
}

#[test]
fn test_stack_shuffle_ops() {
    // LIT 01 LIT 02 LIT 03 ROT ( 02 03 01 )
    let uxn = run(&[0x80, 0x01, 0x80, 0x02, 0x80, 0x03, 0x05]);
    assert_eq!(uxn.wst.data.as_slice(), [0x02, 0x03, 0x01]);
    // LIT 01 LIT 02 NIP ( 02 )
    let uxn = run(&[0x80, 0x01, 0x80, 0x02, 0x03]);
    assert_eq!(uxn.wst.data.as_slice(), [0x02]);
    // LIT 01 LIT 02 OVR ( 01 02 01 )
    let uxn = run(&[0x80, 0x01, 0x80, 0x02, 0x07]);
    assert_eq!(uxn.wst.data.as_slice(), [0x01, 0x02, 0x01]);
    // LIT 05 STH moves a byte to the return stack.
    let uxn = run(&[0x80, 0x05, 0x0f]);
    assert_eq!(uxn.wst.data.as_slice(), [0u8; 0]);
    assert_eq!(uxn.rst.data.as_slice(), [0x05]);
}

#[test]
fn test_zero_page_and_relative_memory() {
    // LIT 07 LIT 20 STZ stores 0x07 at zero-page 0x20; LIT 20 LDZ loads it.
    let uxn = run(&[0x80, 0x07, 0x80, 0x20, 0x11, 0x80, 0x20, 0x10]);
    assert_eq!(uxn.wst.data.as_slice(), [0x07]);
    assert_eq!(uxn.mem[0x20], 0x07);
    // LIT 01 LDR loads the byte one past the next instruction: the 0xab.
    let uxn = run(&[0x80, 0x01, 0x12, 0x00, 0xab]);
    assert_eq!(uxn.wst.data.as_slice(), [0xab]);
}

#[test]
fn test_short_width_shuffle_and_stash() {
    // LIT2 1122 LIT2 3344 SWP2 exchanges whole shorts ( 33 44 11 22 ).
    let uxn = run(&[0xa0, 0x11, 0x22, 0xa0, 0x33, 0x44, 0x24]);
    assert_eq!(uxn.wst.data.as_slice(), [0x33, 0x44, 0x11, 0x22]);
    // LIT2 1234 STH2 moves the whole short to the return stack.
    let uxn = run(&[0xa0, 0x12, 0x34, 0x2f]);
    assert_eq!(uxn.wst.data.as_slice(), [0u8; 0]);
    assert_eq!(uxn.rst.data.as_slice(), [0x12, 0x34]);
}

#[test]
fn test_short_width_absolute_load() {
    // LIT2 0100 LDA2 loads the two ROM bytes at the entry point big-endian.
    let uxn = run(&[0xa0, 0x01, 0x00, 0x34]);
    assert_eq!(uxn.wst.data.as_slice(), [0xa0, 0x01]);
}

#[test]
fn test_jsr_pushes_return_address() {
    // LIT 02 JSR: jumps over the LIT 12 and leaves 0x0103 on the return
    // stack.
    let uxn = run(&[0x80, 0x02, 0x0e, 0x80, 0x12, 0x80, 0x34]);
    assert_eq!(uxn.wst.data.as_slice(), [0x34]);
    assert_eq!(uxn.rst.data.as_slice(), [0x01, 0x03]);
}
