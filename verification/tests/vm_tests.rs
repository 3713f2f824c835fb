use rum::rum::{Effect, Status, Trap, Vm};

/// Encode a three-register instruction.
fn op3(op: u32, a: u32, b: u32, c: u32) -> u32 {
    (op << 28) | (a << 6) | (b << 3) | c
}

/// Encode a load-value instruction.
fn load_value(r: u32, v: u32) -> u32 {
    (13 << 28) | (r << 25) | v
}

/// A program image: each word big-endian, no framing.
fn to_bytes(words: &[u32]) -> Vec<u8> {
    let mut bytes = Vec::new();
    for w in words {
        bytes.extend_from_slice(&w.to_be_bytes());
    }
    bytes
}

/// A machine booted with the given program.
fn boot_vm(words: &[u32]) -> Vm {
    let mut vm = Vm::new_vm();
    let ok = vm.boot(&to_bytes(words));
    assert!(ok);
    vm
}

const HALT: u32 = 0x7000_0000;

#[test]
fn halt_immediate() {
    let mut vm = boot_vm(&[HALT]);
    let (out, status) = vm.run(&Vec::new(), 1000);
    assert_eq!(status, Status::Halted);
    assert!(out.is_empty());
}

#[test]
fn load_value_and_output() {
    let mut vm = boot_vm(&[0xD020_0041, 0xA000_0000, HALT]);
    let (out, status) = vm.run(&Vec::new(), 1000);
    assert_eq!(status, Status::Halted);
    assert_eq!(out, vec![0x41u8]);
}

#[test]
fn add_with_wrap() {
    // R1 takes all-ones by NAND of two zeroed registers, R2 takes 1,
    // and the add of the two wraps to zero.
    let program = [
        op3(6, 1, 0, 0),      // R1 = !(R0 & R0) = 0xFFFF_FFFF
        load_value(2, 1),     // R2 = 1
        op3(3, 0, 1, 2),      // R0 = (R1 + R2) mod 2^32
        HALT,
    ];
    let mut vm = boot_vm(&program);
    let (_, status) = vm.run(&Vec::new(), 1000);
    assert_eq!(status, Status::Halted);
    assert_eq!(vm.registers[1], 0xFFFF_FFFF);
    assert_eq!(vm.registers[0], 0);
}

#[test]
fn multiply_with_wrap() {
    let program = [
        load_value(1, 0x1_0000),  // R1 = 2^16
        op3(4, 0, 1, 1),          // R0 = (R1 * R1) mod 2^32 = 0
        load_value(2, 6),
        load_value(3, 7),
        op3(4, 4, 2, 3),          // R4 = 42
        HALT,
    ];
    let mut vm = boot_vm(&program);
    let (_, status) = vm.run(&Vec::new(), 1000);
    assert_eq!(status, Status::Halted);
    assert_eq!(vm.registers[0], 0);
    assert_eq!(vm.registers[4], 42);
}

#[test]
fn divide_truncates() {
    let program = [
        load_value(1, 7),
        load_value(2, 2),
        op3(5, 0, 1, 2),      // R0 = 7 / 2 = 3
        HALT,
    ];
    let mut vm = boot_vm(&program);
    let (_, status) = vm.run(&Vec::new(), 1000);
    assert_eq!(status, Status::Halted);
    assert_eq!(vm.registers[0], 3);
}

#[test]
fn nand_of_disjoint_masks() {
    let program = [
        load_value(1, 0x00F0F0F),  // 25-bit immediates
        load_value(2, 0x10F0F0),
        op3(6, 0, 1, 2),           // R0 = !(R1 & R2), operands disjoint
        HALT,
    ];
    let mut vm = boot_vm(&program);
    let (_, status) = vm.run(&Vec::new(), 1000);
    assert_eq!(status, Status::Halted);
    assert_eq!(vm.registers[0], 0xFFFF_FFFF);
}

#[test]
fn conditional_move_both_ways() {
    let program = [
        load_value(1, 5),
        load_value(2, 9),
        op3(0, 3, 1, 0),      // R0 = 0: no effect, R3 stays 0
        op3(0, 3, 1, 2),      // R2 != 0: R3 = R1
        HALT,
    ];
    let mut vm = boot_vm(&program);
    let (_, status) = vm.run(&Vec::new(), 1000);
    assert_eq!(status, Status::Halted);
    assert_eq!(vm.registers[3], 5);
}

#[test]
fn segment_round_trip() {
    // Map a segment of length 4 into R1, store a built word at offset 0,
    // and load it back.
    let program = [
        load_value(2, 4),          // R2 = 4
        op3(8, 0, 1, 2),           // map: R1 = fresh id, length R2
        load_value(3, 0xDEAD),     // R3 = 0xDEAD
        load_value(4, 0x1_0000),   // R4 = 2^16
        op3(4, 3, 3, 4),           // R3 = 0xDEAD_0000
        load_value(5, 0xBEEF),     // R5 = 0xBEEF
        op3(3, 3, 3, 5),           // R3 = 0xDEAD_BEEF
        op3(2, 1, 0, 3),           // memory[R1][R0] = R3 (offset 0)
        op3(1, 6, 1, 0),           // R6 = memory[R1][R0]
        HALT,
    ];
    let mut vm = boot_vm(&program);
    let (_, status) = vm.run(&Vec::new(), 1000);
    assert_eq!(status, Status::Halted);
    assert_eq!(vm.registers[3], 0xDEAD_BEEF);
    assert_eq!(vm.registers[6], 0xDEAD_BEEF);
}

#[test]
fn identifier_reuse() {
    // Map three segments, unmap the middle one, map a fourth: the fourth
    // takes the identifier the middle one had (LIFO reuse).
    let program = [
        op3(8, 0, 1, 0),      // R1 = first id
        op3(8, 0, 2, 0),      // R2 = second id
        op3(8, 0, 3, 0),      // R3 = third id
        op3(9, 0, 0, 2),      // unmap the segment named by R2
        op3(8, 0, 4, 0),      // R4 = fourth id
        HALT,
    ];
    let mut vm = boot_vm(&program);
    let (_, status) = vm.run(&Vec::new(), 1000);
    assert_eq!(status, Status::Halted);
    assert_eq!(vm.registers[1], 1);
    assert_eq!(vm.registers[2], 2);
    assert_eq!(vm.registers[3], 3);
    assert_eq!(vm.registers[4], vm.registers[2]);
    // the free list is empty again
    assert!(vm.unmapped_segs.is_empty());
}

#[test]
fn load_program_with_self() {
    // With R1 = 0 and R2 = 0, Load Program leaves segment 0 alone and
    // restarts at the beginning.
    let mut vm = boot_vm(&[HALT]);
    let program_before = vm.memory[0].clone();
    let effect = vm.execute(op3(12, 0, 1, 2));
    assert_eq!(effect, Effect::Next);
    assert_eq!(vm.memory[0], program_before);
    assert_eq!(vm.prog_count, 0);
}

#[test]
fn load_program_duplicates_segment() {
    // Build a one-word segment holding a halt instruction, branch into it,
    // and check that the halt executes while the source stays mapped.
    let program = [
        load_value(2, 1),          // R2 = 1
        op3(8, 0, 1, 2),           // R1 = id of a one-word segment
        load_value(3, 0x7000),     // R3 = 0x7000
        load_value(4, 0x1_0000),   // R4 = 2^16
        op3(4, 3, 3, 4),           // R3 = 0x7000_0000 (halt)
        op3(2, 1, 0, 3),           // memory[R1][0] = halt
        op3(12, 0, 1, 0),          // load program from R1, pc = R0 = 0
        0xE000_0000,               // never reached
    ];
    let mut vm = boot_vm(&program);
    let (_, status) = vm.run(&Vec::new(), 1000);
    assert_eq!(status, Status::Halted);
    // the source segment is still mapped and unchanged
    assert_eq!(vm.memory[1], vec![0x7000_0000]);
}

#[test]
fn input_reads_bytes_then_eof() {
    // Two input instructions against a one-byte stream: the first byte
    // arrives, end-of-file becomes the all-ones word.
    let program = [
        op3(11, 0, 0, 0),     // R0 = input
        op3(11, 0, 0, 1),     // R1 = input (end of file)
        0xA000_0000,          // output R0
        HALT,
    ];
    let mut vm = boot_vm(&program);
    let (out, status) = vm.run(&vec![0x5Au8], 1000);
    assert_eq!(status, Status::Halted);
    assert_eq!(vm.registers[0], 0x5A);
    assert_eq!(vm.registers[1], 0xFFFF_FFFF);
    assert_eq!(out, vec![0x5Au8]);
}

#[test]
fn output_emits_low_byte() {
    // Output of a register above 255 emits only the low eight bits.
    let program = [
        op3(6, 1, 0, 0),      // R1 = 0xFFFF_FFFF
        op3(10, 0, 0, 1),     // output R1
        HALT,
    ];
    let mut vm = boot_vm(&program);
    let (out, status) = vm.run(&Vec::new(), 1000);
    assert_eq!(status, Status::Halted);
    assert_eq!(out, vec![0xFFu8]);
}

#[test]
fn trap_undefined_opcode() {
    let mut vm = boot_vm(&[0xE000_0000]);
    let (_, status) = vm.run(&Vec::new(), 1000);
    assert_eq!(status, Status::Trapped(Trap::UndefinedOpcode));
}

#[test]
fn trap_divide_by_zero() {
    let mut vm = boot_vm(&[op3(5, 0, 0, 0)]);
    let (_, status) = vm.run(&Vec::new(), 1000);
    assert_eq!(status, Status::Trapped(Trap::DivideByZero));
}

#[test]
fn trap_running_off_the_program() {
    let mut vm = boot_vm(&[op3(3, 0, 0, 0)]);
    let (_, status) = vm.run(&Vec::new(), 1000);
    assert_eq!(status, Status::Trapped(Trap::BadFetch));
}

#[test]
fn trap_load_from_unmapped_segment() {
    let program = [
        load_value(1, 5),
        op3(1, 0, 1, 0),      // load from segment 5, never allocated
    ];
    let mut vm = boot_vm(&program);
    let (_, status) = vm.run(&Vec::new(), 1000);
    assert_eq!(status, Status::Trapped(Trap::BadSegment));
}

#[test]
fn trap_store_outside_segment() {
    let program = [
        load_value(2, 1),
        op3(8, 0, 1, 2),      // R1 = id of a one-word segment
        load_value(3, 4),
        op3(2, 1, 3, 0),      // memory[R1][4]: offset out of range
    ];
    let mut vm = boot_vm(&program);
    let (_, status) = vm.run(&Vec::new(), 1000);
    assert_eq!(status, Status::Trapped(Trap::BadSegment));
}

#[test]
fn trap_unmap_segment_zero() {
    let mut vm = boot_vm(&[op3(9, 0, 0, 0)]);
    let (_, status) = vm.run(&Vec::new(), 1000);
    assert_eq!(status, Status::Trapped(Trap::UnmapZero));
}

#[test]
fn trap_unmap_twice() {
    let program = [
        op3(8, 0, 1, 0),      // R1 = fresh id
        op3(9, 0, 0, 1),      // unmap it
        op3(9, 0, 0, 1),      // unmap it again
    ];
    let mut vm = boot_vm(&program);
    let (_, status) = vm.run(&Vec::new(), 1000);
    assert_eq!(status, Status::Trapped(Trap::UnmapFree));
}

#[test]
fn step_budget_runs_out() {
    // Load Program with both registers zero restarts forever.
    let mut vm = boot_vm(&[op3(12, 0, 1, 2)]);
    let (_, status) = vm.run(&Vec::new(), 10);
    assert_eq!(status, Status::Running);
}

#[test]
fn boot_reads_big_endian_words() {
    let mut vm = Vm::new_vm();
    let ok = vm.boot(&vec![0x12u8, 0x34, 0x56, 0x78, 0xDE, 0xAD, 0xBE, 0xEF]);
    assert!(ok);
    assert_eq!(vm.memory[0], vec![0x1234_5678u32, 0xDEAD_BEEFu32]);
    assert_eq!(vm.registers, vec![0u32; 8]);
    assert_eq!(vm.prog_count, 0);
}

#[test]
fn boot_refuses_ragged_stream() {
    let mut vm = Vm::new_vm();
    let ok = vm.boot(&vec![0x12u8, 0x34, 0x56]);
    assert!(!ok);
    assert!(vm.memory.is_empty());
}

#[test]
fn mapped_segment_starts_zeroed() {
    let program = [
        load_value(2, 3),
        op3(8, 0, 1, 2),      // R1 = id of a three-word segment
        op3(1, 3, 1, 0),      // R3 = memory[R1][0]
        HALT,
    ];
    let mut vm = boot_vm(&program);
    let (_, status) = vm.run(&Vec::new(), 1000);
    assert_eq!(status, Status::Halted);
    assert_eq!(vm.registers[3], 0);
    assert_eq!(vm.memory[1], vec![0u32; 3]);
}
