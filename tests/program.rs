use lc3sim::assembler::parse_asm;
use lc3sim::machine::State;

#[test]
fn assembled_loop_runs_to_halt() {
    // Sums 1..=4 into r0 with a counted loop, then halts.
    let src = ".orig x3000\n\
               and r0, r0, 0\n\
               and r1, r1, 0\n\
               add r1, r1, 4\n\
               loop add r0, r0, r1\n\
               add r1, r1, -1\n\
               brp loop\n\
               st r0, result\n\
               halt\n\
               result .blkw 1\n\
               .end";
    let mem = parse_asm(src).unwrap();
    let mut s = State::new(mem);
    let mut steps = 0;
    while s.mem[(s.pc as u16) as usize] as u16 != 0xf025 && steps < 100 {
        s.execute_next_instruction().unwrap();
        steps += 1;
    }
    assert_eq!(s.reg[0], 10);
    assert_eq!(s.reg[1], 0);
    assert_eq!(s.mem[0x3008], 10);
    assert_eq!(s.pc, 0x3007);
    assert_eq!(s.psr as u16 & 0b111, 0b010);
}

#[test]
fn forward_branch_lands_on_target() {
    let mem = parse_asm(".orig x3000\nbrnzp skip\nadd r0, r0, 1\nskip halt\n.end").unwrap();
    let mut s = State::new(mem);
    s.psr = 0b010;
    s.execute_next_instruction().unwrap();
    assert_eq!(s.pc, 0x3002);
}
