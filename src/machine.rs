//! The execution engine: machine state and the single-step transition.

use crate::numeral::{lemma_u16_as_i16, word_of};
use crate::util::{bits, bits_of, sext, sign_extended, unsext, unsigned_of};
use vstd::arithmetic::power2::lemma2_to64;
use vstd::prelude::*;

verus! {

/// Registers, memory and status of the machine. Bits 2..0 of `psr` are the
/// condition flags `N Z P`, most significant first.
pub struct State {
    pub pc: i16,
    pub ir: i16,
    pub mem: Vec<i16>,
    pub reg: [i16; 8],
    pub psr: i16,
}

/// What the machine state holds.
pub struct Machine {
    pub pc: i16,
    pub ir: i16,
    pub mem: Seq<i16>,
    pub reg: Seq<i16>,
    pub psr: i16,
}

impl View for State {
    type V = Machine;

    open spec fn view(&self) -> Machine {
        Machine { pc: self.pc, ir: self.ir, mem: self.mem@, reg: self.reg@, psr: self.psr }
    }
}

/// A malformed instruction: ADD or AND in register mode with bits 4..3 set.
#[derive(Clone, Copy, PartialEq, Eq, Structural, Debug)]
pub enum ExecError {
    MalformedAdd,
    MalformedAnd,
}

/// The sum of two words, wrapping round 16 bits.
pub open spec fn wadd(a: int, b: int) -> i16 {
    word_of(a + b) as i16
}

/// The condition flags that reflect the sign of `v`.
pub open spec fn flags_for(v: i16) -> int {
    if v < 0 {
        0b100
    } else if v == 0 {
        0b010
    } else {
        0b001
    }
}

/// `psr` with its condition flags replaced by those for `v`.
pub open spec fn psr_for(psr: i16, v: i16) -> i16 {
    word_of(unsigned_of(psr as int) - bits_of(psr as int, 2, 0) + flags_for(v)) as i16
}

/// `m` with register `r` set to `v` and the flags set by `v`.
pub open spec fn load_register(m: Machine, r: int, v: i16) -> Machine {
    Machine { reg: m.reg.update(r, v), psr: psr_for(m.psr, v), ..m }
}

/// The 9-bit PC-relative offset of `ir`.
pub open spec fn offset9(ir: i16) -> int {
    sign_extended(bits_of(ir as int, 8, 0), 9)
}

/// The 6-bit base-relative offset of `ir`.
pub open spec fn offset6(ir: i16) -> int {
    sign_extended(bits_of(ir as int, 5, 0), 6)
}

/// The 11-bit PC-relative offset of `ir`.
pub open spec fn offset11(ir: i16) -> int {
    sign_extended(bits_of(ir as int, 10, 0), 11)
}

/// The 5-bit immediate of `ir`.
pub open spec fn imm5(ir: i16) -> int {
    sign_extended(bits_of(ir as int, 4, 0), 5)
}

/// Whether a branch with condition mask `nzp` is taken under `flags`.
pub open spec fn branch_taken(nzp: int, flags: int) -> bool {
    (nzp as u16) & (flags as u16) != 0
}

/// The state after fetching, decoding and executing one instruction, or the
/// reason the fetched instruction is malformed.
///
/// ADD, AND, NOT, LD, LDI and LDR set the condition flags to the sign of the
/// value they write; LEA, stores and control transfers leave them alone.
/// TRAP, RTI and the reserved opcode only fetch.
pub open spec fn execute(m: Machine) -> Result<Machine, ExecError> {
    let ir = m.mem[unsigned_of(m.pc as int)];
    let pc = wadd(m.pc as int, 1);
    let f = Machine { pc, ir, ..m };
    let op = bits_of(ir as int, 15, 12);
    let dr = bits_of(ir as int, 11, 9);
    let sr1 = m.reg[bits_of(ir as int, 8, 6)];
    if op == 0b0001 || op == 0b0101 {
        if bits_of(ir as int, 5, 5) == 0 && bits_of(ir as int, 4, 3) != 0 {
            Err(
                if op == 0b0001 {
                    ExecError::MalformedAdd
                } else {
                    ExecError::MalformedAnd
                },
            )
        } else {
            let sr2 = m.reg[bits_of(ir as int, 2, 0)];
            let v = if op == 0b0001 {
                if bits_of(ir as int, 5, 5) == 0 {
                    wadd(sr1 as int, sr2 as int)
                } else {
                    wadd(sr1 as int, imm5(ir))
                }
            } else {
                if bits_of(ir as int, 5, 5) == 0 {
                    sr1 & sr2
                } else {
                    sr1 & (imm5(ir) as i16)
                }
            };
            Ok(load_register(f, dr, v))
        }
    } else if op == 0b0000 {
        if branch_taken(dr, bits_of(m.psr as int, 2, 0)) {
            Ok(Machine { pc: wadd(pc as int, offset9(ir)), ..f })
        } else {
            Ok(f)
        }
    } else if op == 0b1001 {
        Ok(load_register(f, dr, !sr1))
    } else if op == 0b1100 {
        Ok(Machine { pc: sr1, ..f })
    } else if op == 0b0100 {
        let g = Machine { reg: f.reg.update(7, pc), ..f };
        if bits_of(ir as int, 11, 11) == 1 {
            Ok(Machine { pc: wadd(pc as int, offset11(ir)), ..g })
        } else {
            Ok(Machine { pc: g.reg[bits_of(ir as int, 8, 6)], ..g })
        }
    } else if op == 0b0010 {
        Ok(load_register(f, dr, m.mem[unsigned_of(wadd(pc as int, offset9(ir)) as int)]))
    } else if op == 0b1010 {
        let p = m.mem[unsigned_of(wadd(pc as int, offset9(ir)) as int)];
        Ok(load_register(f, dr, m.mem[unsigned_of(p as int)]))
    } else if op == 0b0110 {
        Ok(load_register(f, dr, m.mem[unsigned_of(wadd(sr1 as int, offset6(ir)) as int)]))
    } else if op == 0b1110 {
        Ok(Machine { reg: f.reg.update(dr, wadd(pc as int, offset9(ir))), ..f })
    } else if op == 0b0011 {
        Ok(
            Machine {
                mem: m.mem.update(unsigned_of(wadd(pc as int, offset9(ir)) as int), m.reg[dr]),
                ..f
            },
        )
    } else if op == 0b1011 {
        let p = m.mem[unsigned_of(wadd(pc as int, offset9(ir)) as int)];
        Ok(Machine { mem: m.mem.update(unsigned_of(p as int), m.reg[dr]), ..f })
    } else if op == 0b0111 {
        Ok(
            Machine {
                mem: m.mem.update(unsigned_of(wadd(sr1 as int, offset6(ir)) as int), m.reg[dr]),
                ..f
            },
        )
    } else {
        Ok(f)
    }
}

/// A branch whose condition mask shares no bit with the flags is not
/// taken: `pc` stays at the address after the branch, and nothing else but
/// `ir` changes.
pub proof fn lemma_branch_not_taken(m: Machine)
    requires
        bits_of(m.mem[unsigned_of(m.pc as int)] as int, 15, 12) == 0,
        !branch_taken(
            bits_of(m.mem[unsigned_of(m.pc as int)] as int, 11, 9),
            bits_of(m.psr as int, 2, 0),
        ),
    ensures
        execute(m) matches Ok(n) && n.pc == wadd(m.pc as int, 1) && n.reg == m.reg && n.mem
            == m.mem && n.psr == m.psr,
{
}

/// Every step fetches: afterwards `ir` holds the word that `pc` addressed
/// before the step.
pub proof fn lemma_step_fetches(m: Machine)
    ensures
        execute(m) matches Ok(n) ==> n.ir == m.mem[unsigned_of(m.pc as int)],
{
}

/// After an instruction that sets the flags, exactly the flag for the sign
/// of the loaded value is set.
pub proof fn lemma_flags_reflect_sign(psr: i16, v: i16)
    ensures
        bits_of(psr_for(psr, v) as int, 2, 0) == flags_for(v),
{
    lemma2_to64();
    let u = unsigned_of(psr as int);
    let y = u - bits_of(psr as int, 2, 0) + flags_for(v);
    assert(0 <= y < 0x10000 && y % 8 == flags_for(v)) by (nonlinear_arith)
        requires
            0 <= u < 0x10000,
            bits_of(psr as int, 2, 0) == (u / 1) % 8,
            y == u - bits_of(psr as int, 2, 0) + flags_for(v),
            1 <= flags_for(v) <= 4,
    ;
    assert(word_of(y) as i16 as int == word_of(y));
    assert(unsigned_of(word_of(y)) == y);
}

/// The sum of two words, wrapping round 16 bits.
pub fn add_words(a: i16, b: i16) -> (r: i16)
    ensures
        r == wadd(a as int, b as int),
{
    a.wrapping_add(b)
}

/// The memory index that a word addresses.
pub fn address(w: i16) -> (r: usize)
    ensures
        r as int == unsigned_of(w as int),
        r < 0x10000,
{
    unsext(w) as usize
}

impl State {
    pub open spec fn wf(&self) -> bool {
        self.mem@.len() == 0x10000
    }

    /// A machine with `mem` loaded, ready to run from address `x3000`.
    pub fn new(mem: Vec<i16>) -> (r: State)
        requires
            mem@.len() == 0x10000,
        ensures
            r.wf(),
            r.mem@ == mem@,
            r.pc == 0x3000,
            r.ir == 0,
            r.reg@ == Seq::new(8, |k: int| 0x8888u16 as i16),
            r.psr == 0x8700u16 as i16,
    {
        let r = State {
            pc: 0x3000,
            ir: 0,
            mem,
            reg: [0x8888u16 as i16; 8],
            psr: 0x8700u16 as i16,
        };
        assert(r.reg@ =~= Seq::new(8, |k: int| 0x8888u16 as i16));
        r
    }

    /// Sets register `r` to `v` and the condition flags to the sign of `v`.
    fn load_register(&mut self, r: u16, v: i16)
        requires
            r < 8,
        ensures
            final(self)@ == load_register(old(self)@, r as int, v),
    {
        self.reg[r as usize] = v;
        let flags: u16 = if v < 0 {
            0b100
        } else if v == 0 {
            0b010
        } else {
            0b001
        };
        let low = bits(self.psr, 2, 0);
        let u = unsext(self.psr);
        proof {
            lemma2_to64();
            assert(u as int - low as int <= 0xfff8) by (nonlinear_arith)
                requires
                    low as int == (u as int / 1) % 8,
                    u <= 0xffff,
            ;
        }
        let w = u - low + flags;
        proof {
            lemma_u16_as_i16(w);
        }
        self.psr = #[verifier::truncate] (w as i16);
    }

    /// Fetches the instruction at `pc`, advances `pc` past it, and executes
    /// it. A malformed instruction leaves the state as it was.
    pub fn execute_next_instruction(&mut self) -> (r: Result<(), ExecError>)
        requires
            old(self).wf(),
        ensures
            final(self).wf(),
            match execute(old(self)@) {
                Ok(m) => r is Ok && final(self)@ == m,
                Err(e) => r == Err::<(), ExecError>(e) && final(self)@ == old(self)@,
            },
    {
        proof {
            lemma2_to64();
        }
        let ir = self.mem[address(self.pc)];
        let pc = add_words(self.pc, 1);
        let op = bits(ir, 15, 12);
        let dr = bits(ir, 11, 9);
        let sr1 = self.reg[bits(ir, 8, 6) as usize];
        if op == 0b0001 || op == 0b0101 {
            let immediate = bits(ir, 5, 5) == 1;
            if !immediate && bits(ir, 4, 3) != 0 {
                return Err(
                    if op == 0b0001 {
                        ExecError::MalformedAdd
                    } else {
                        ExecError::MalformedAnd
                    },
                );
            }
            self.ir = ir;
            self.pc = pc;
            let sr2 = self.reg[bits(ir, 2, 0) as usize];
            let v = if op == 0b0001 {
                if !immediate {
                    add_words(sr1, sr2)
                } else {
                    add_words(sr1, sext(bits(ir, 4, 0), 5))
                }
            } else {
                if !immediate {
                    sr1 & sr2
                } else {
                    sr1 & sext(bits(ir, 4, 0), 5)
                }
            };
            self.load_register(dr, v);
            return Ok(());
        }
        self.ir = ir;
        self.pc = pc;
        if op == 0b0000 {
            if dr & bits(self.psr, 2, 0) != 0 {
                self.pc = add_words(pc, sext(bits(ir, 8, 0), 9));
            }
        } else if op == 0b1001 {
            self.load_register(dr, !sr1);
        } else if op == 0b1100 {
            self.pc = sr1;
        } else if op == 0b0100 {
            self.reg[7] = pc;
            if bits(ir, 11, 11) == 1 {
                self.pc = add_words(pc, sext(bits(ir, 10, 0), 11));
            } else {
                self.pc = self.reg[bits(ir, 8, 6) as usize];
            }
        } else if op == 0b0010 {
            let v = self.mem[address(add_words(pc, sext(bits(ir, 8, 0), 9)))];
            self.load_register(dr, v);
        } else if op == 0b1010 {
            let p = self.mem[address(add_words(pc, sext(bits(ir, 8, 0), 9)))];
            let v = self.mem[address(p)];
            self.load_register(dr, v);
        } else if op == 0b0110 {
            let v = self.mem[address(add_words(sr1, sext(bits(ir, 5, 0), 6)))];
            self.load_register(dr, v);
        } else if op == 0b1110 {
            self.reg[dr as usize] = add_words(pc, sext(bits(ir, 8, 0), 9));
        } else if op == 0b0011 {
            let a = address(add_words(pc, sext(bits(ir, 8, 0), 9)));
            let v = self.reg[dr as usize];
            self.mem.set(a, v);
        } else if op == 0b1011 {
            let p = self.mem[address(add_words(pc, sext(bits(ir, 8, 0), 9)))];
            let v = self.reg[dr as usize];
            self.mem.set(address(p), v);
        } else if op == 0b0111 {
            let a = address(add_words(sr1, sext(bits(ir, 5, 0), 6)));
            let v = self.reg[dr as usize];
            self.mem.set(a, v);
        }
        Ok(())
    }
}

} // verus!
