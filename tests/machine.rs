use lc3sim::machine::{ExecError, State};

fn machine_with(words: &[u16]) -> State {
    let mut mem = vec![0i16; 65536];
    for (k, w) in words.iter().enumerate() {
        mem[0x3000 + k] = *w as i16;
    }
    State::new(mem)
}

fn flags(s: &State) -> u16 {
    s.psr as u16 & 0b111
}

#[test]
fn new_machine_starts_at_x3000() {
    let s = machine_with(&[]);
    assert_eq!(s.pc, 0x3000);
    assert_eq!(s.ir, 0);
    assert_eq!(s.reg, [0x8888u16 as i16; 8]);
    assert_eq!(s.psr as u16, 0x8700);
}

#[test]
fn branch_not_taken_keeps_pc() {
    // brz +5 with only the P flag set
    let mut s = machine_with(&[0b0000_010_000000101]);
    s.psr = 0b001;
    assert_eq!(s.execute_next_instruction(), Ok(()));
    assert_eq!(s.pc, 0x3001);
    assert_eq!(s.ir as u16, 0b0000_010_000000101);
}

#[test]
fn branch_taken_adds_offset() {
    let mut s = machine_with(&[0b0000_011_111111110]);
    s.psr = 0b010;
    assert_eq!(s.execute_next_instruction(), Ok(()));
    assert_eq!(s.pc, 0x2fff);
}

#[test]
fn add_registers_and_flags() {
    let mut s = machine_with(&[0b0001_000_001_0_00_010]);
    s.reg[1] = 5;
    s.reg[2] = -7;
    s.execute_next_instruction().unwrap();
    assert_eq!(s.reg[0], -2);
    assert_eq!(flags(&s), 0b100);
    assert_eq!(s.psr as u16 & !0b111, 0x8700);
}

#[test]
fn add_immediate_wraps() {
    let mut s = machine_with(&[0b0001_000_000_1_00001]);
    s.reg[0] = i16::MAX;
    s.execute_next_instruction().unwrap();
    assert_eq!(s.reg[0], i16::MIN);
    assert_eq!(flags(&s), 0b100);
}

#[test]
fn and_immediate_zero_sets_z() {
    let mut s = machine_with(&[0b0101_011_011_1_00000]);
    s.reg[3] = 0x1234;
    s.execute_next_instruction().unwrap();
    assert_eq!(s.reg[3], 0);
    assert_eq!(flags(&s), 0b010);
}

#[test]
fn and_registers() {
    let mut s = machine_with(&[0b0101_000_001_0_00_010]);
    s.reg[1] = 0b1100;
    s.reg[2] = 0b1010;
    s.execute_next_instruction().unwrap();
    assert_eq!(s.reg[0], 0b1000);
    assert_eq!(flags(&s), 0b001);
}

#[test]
fn not_complements() {
    let mut s = machine_with(&[0b1001_001_010_111111]);
    s.reg[2] = 0;
    s.execute_next_instruction().unwrap();
    assert_eq!(s.reg[1], -1);
    assert_eq!(flags(&s), 0b100);
}

#[test]
fn malformed_add_leaves_state() {
    let mut s = machine_with(&[0b0001_000_001_0_01_010]);
    let before_reg = s.reg;
    assert_eq!(s.execute_next_instruction(), Err(ExecError::MalformedAdd));
    assert_eq!(s.pc, 0x3000);
    assert_eq!(s.ir, 0);
    assert_eq!(s.reg, before_reg);
    let mut s = machine_with(&[0b0101_000_001_0_10_010]);
    assert_eq!(s.execute_next_instruction(), Err(ExecError::MalformedAnd));
}

#[test]
fn loads_and_lea() {
    // ld r0, +3 ; ldi r1, +2 ; ldr r2, r3, -1 ; lea r4, -3 ; x3004: x3005 ; x3005: 42
    let mut s = machine_with(&[
        0b0010_000_000000011,
        0b1010_001_000000010,
        0b0110_010_011_111111,
        0b1110_100_111111101,
        0x3005,
        42,
    ]);
    s.reg[3] = 0x3006;
    for _ in 0..4 {
        s.execute_next_instruction().unwrap();
    }
    assert_eq!(s.reg[0], 0x3005);
    assert_eq!(s.reg[1], 42);
    assert_eq!(s.reg[2], 42);
    assert_eq!(s.reg[4], 0x3001);
    assert_eq!(s.pc, 0x3004);
}

#[test]
fn stores() {
    // st r0, +3 ; sti r1, +3 ; str r2, r3, 1
    let mut s = machine_with(&[
        0b0011_000_000000011,
        0b1011_001_000000011,
        0b0111_010_011_000001,
        0,
        0,
        0x4000,
    ]);
    s.reg[0] = 7;
    s.reg[1] = 8;
    s.reg[2] = 9;
    s.reg[3] = 0x4fff;
    for _ in 0..3 {
        s.execute_next_instruction().unwrap();
    }
    assert_eq!(s.mem[0x3004], 7);
    assert_eq!(s.mem[0x4000], 8);
    assert_eq!(s.mem[0x5000], 9);
}

#[test]
fn jumps_and_subroutines() {
    let mut s = machine_with(&[0b1100_000_001_000000]);
    s.reg[1] = 0x4000;
    s.execute_next_instruction().unwrap();
    assert_eq!(s.pc, 0x4000);

    let mut s = machine_with(&[0b0100_1_00000000100]);
    s.execute_next_instruction().unwrap();
    assert_eq!(s.reg[7], 0x3001);
    assert_eq!(s.pc, 0x3005);

    let mut s = machine_with(&[0b0100_0_00_010_000000]);
    s.reg[2] = 0x5000;
    s.execute_next_instruction().unwrap();
    assert_eq!(s.reg[7], 0x3001);
    assert_eq!(s.pc, 0x5000);
}

#[test]
fn traps_are_inert() {
    let mut s = machine_with(&[0xf025, 0x8000, 0xd000]);
    let reg = s.reg;
    for _ in 0..3 {
        assert_eq!(s.execute_next_instruction(), Ok(()));
    }
    assert_eq!(s.pc, 0x3003);
    assert_eq!(s.reg, reg);
    assert_eq!(s.ir as u16, 0xd000);
}

#[test]
fn pc_wraps_at_top_of_memory() {
    let mut s = machine_with(&[]);
    s.pc = -1;
    s.execute_next_instruction().unwrap();
    assert_eq!(s.pc, 0);
}
