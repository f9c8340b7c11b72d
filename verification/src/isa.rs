//! The mathematical small-step semantics of the instruction set.
//!
//! A machine state between instructions is a [`VmState`]: the 64 KiB memory,
//! the program counter and the two stacks as plain byte sequences (keep mode
//! is never active between instructions).  [`step_spec`] maps a state to the
//! outcome of executing exactly one instruction: the next state, a halt (a
//! terminating BRK), or a fault together with the state left behind.
//!
//! Device reads are the one source of outside input: [`step_spec`] takes the
//! byte or bytes that the device gateway would hand back as explicit
//! arguments, and the relations [`steps_to`], [`halts_to`] and [`faults_to`]
//! quantify over them.
//!
//! An instruction is one base byte, `k r 2 ooooo`: bit 7 selects keep mode
//! (non-destructive pops), bit 6 swaps the roles of the working and return
//! stacks for the duration of the instruction, bit 5 selects 16-bit operand
//! width, and the low five bits select the opcode.  Opcode 0 instead uses the
//! three mode bits to select one of BRK, JCI, JMI, JSI, LIT, LIT2, LITr and
//! LIT2r.

use vstd::prelude::*;

use crate::Fault;
use crate::stack::be_bytes;
use crate::stack::top_at;
use crate::stack::top_val;

verus! {

/// A machine state between instructions.
#[verifier::ext_equal]
pub ghost struct VmState {
    /// The 65 536 memory bytes.
    pub mem: Seq<u8>,
    /// The program counter.
    pub pc: u16,
    /// The working stack, bottom first.
    pub wst: Seq<u8>,
    /// The return stack, bottom first.
    pub rst: Seq<u8>,
}

/// The outcome of executing one instruction.
pub ghost enum Outcome {
    /// Execution continues in the given state.
    Next(VmState),
    /// A terminating BRK: the vector is done, leaving the given state.
    Halted(VmState),
    /// A fault; the state the machine is left in accompanies it.
    Faulted(Fault, VmState),
}

/// The effect of a mode-respecting opcode, oriented by source and destination
/// stack rather than by working and return stack.
pub ghost enum OpEff {
    /// New source stack, destination stack, memory and program counter.
    Go { src: Seq<u8>, dst: Seq<u8>, mem: Seq<u8>, pc: u16 },
    /// The opcode faults; the stacks and memory are left untouched.
    Fail(Fault),
}

/// A state is well formed when its memory spans the full address space and
/// both stacks fit their maximum depth.
pub open spec fn vm_wf(s: VmState) -> bool {
    &&& s.mem.len() == 0x10000
    &&& s.wst.len() <= 255
    &&& s.rst.len() <= 255
}

/// 16-bit wrap-around: every address and program-counter computation is
/// reduced modulo 2^16.
pub open spec fn wrap16(a: int) -> u16 {
    (a % 0x10000) as u16
}

/// The memory byte at address `a`, taken modulo 2^16.
pub open spec fn mem_at(mem: Seq<u8>, a: int) -> u8 {
    mem[a % 0x10000]
}

/// Memory with the byte at address `a` (modulo 2^16) replaced.
pub open spec fn mem_put(mem: Seq<u8>, a: int, v: u8) -> Seq<u8> {
    mem.update(a % 0x10000, v)
}

/// A load of width `short` at address `a`: one byte, or a big-endian short
/// read at `a` (high) and `a + 1` (low), the second address wrapping.
pub open spec fn peek(mem: Seq<u8>, a: int, short: bool) -> u16 {
    if short {
        ((mem_at(mem, a) as int) * 256 + mem_at(mem, a + 1) as int) as u16
    } else {
        mem_at(mem, a) as u16
    }
}

/// A store of width `short` at address `a`, big-endian, the second address
/// wrapping.
pub open spec fn poke(mem: Seq<u8>, a: int, v: u16, short: bool) -> Seq<u8> {
    if short {
        mem_put(mem_put(mem, a, (v / 256) as u8), a + 1, (v % 256) as u8)
    } else {
        mem_put(mem, a, (v % 256) as u8)
    }
}

/// The 16-bit big-endian immediate stored at `pc`.
pub open spec fn imm16(mem: Seq<u8>, pc: u16) -> u16 {
    peek(mem, pc as int, true)
}

/// A byte read as a signed 8-bit offset.
pub open spec fn sign8(b: u8) -> int {
    if b < 128 {
        b as int
    } else {
        b as int - 256
    }
}

/// `pc` displaced by a signed 8-bit offset, wrapping.
pub open spec fn rel_pc(pc: u16, b: u8) -> u16 {
    wrap16(pc + sign8(b) + 0x10000)
}

/// Operand width in bytes.
pub open spec fn width(short: bool) -> int {
    if short {
        2
    } else {
        1
    }
}

/// A value wrapped to the operand width: modulo 2^16 or 2^8.
pub open spec fn wrapv(a: int, short: bool) -> u16 {
    if short {
        (a % 0x10000) as u16
    } else {
        (a % 0x100) as u16
    }
}

/// The source stack after an opcode body: `taken` bytes are consumed unless
/// keep mode left them in place, then the result bytes are appended.
pub open spec fn src_out(src: Seq<u8>, taken: int, keep: bool, pushed: Seq<u8>) -> Seq<u8> {
    (if keep {
        src
    } else {
        src.take(src.len() - taken)
    }) + pushed
}

/// The depth the source stack reaches after consuming `taken` bytes (kept in
/// place under keep mode) and appending `pushed` bytes.
pub open spec fn out_len(len: int, taken: int, keep: bool, pushed: int) -> int {
    (if keep {
        len
    } else {
        len - taken
    }) + pushed
}

/// The result byte of a comparison opcode: 1 or 0.
pub open spec fn cmp_byte(op: u8, a: u16, b: u16) -> u8 {
    let t = if op == 0x08 {
        a == b
    } else if op == 0x09 {
        a != b
    } else if op == 0x0a {
        a > b
    } else {
        a < b
    };
    if t {
        1
    } else {
        0
    }
}

/// The result of an arithmetic or bitwise opcode (0x18..=0x1e), wrapped to
/// the operand width; division by zero yields 0.
pub open spec fn alu(op: u8, a: u16, b: u16, short: bool) -> u16 {
    if op == 0x18 {
        wrapv(a + b, short)
    } else if op == 0x19 {
        wrapv(a - b, short)
    } else if op == 0x1a {
        wrapv(a * b, short)
    } else if op == 0x1b {
        if b == 0 {
            0
        } else {
            a / b
        }
    } else if op == 0x1c {
        a & b
    } else if op == 0x1d {
        a | b
    } else {
        a ^ b
    }
}

/// The shift opcode: shift right by the low nibble of `s`, then left by the
/// high nibble, truncated to the operand width.
pub open spec fn sft(v: u16, s: u8, short: bool) -> u16 {
    wrapv((((v as u32) >> ((s & 0x0f) as u32)) << (((s >> 4) & 0x0f) as u32)) as int, short)
}

/// The target of JMP, JCN and JSR: an absolute address in short mode, a
/// signed 8-bit displacement of `pc` otherwise.
pub open spec fn jump_target(pc: u16, addr: u16, short: bool) -> u16 {
    if short {
        addr
    } else {
        rel_pc(pc, (addr % 256) as u8)
    }
}

/// The effect of mode-respecting opcode `op` (1..=31) on the source stack
/// `src`, the destination stack `dst`, memory and the already-advanced
/// program counter `pc`.  `d0` and `d1` are the bytes a DEI read would
/// obtain; every other opcode ignores them.
pub open spec fn op_eff(
    op: u8,
    k: bool,
    sh: bool,
    src: Seq<u8>,
    dst: Seq<u8>,
    mem: Seq<u8>,
    pc: u16,
    d0: u8,
    d1: u8,
) -> OpEff {
    let w = width(sh);
    let len = src.len() as int;
    if op == 0x01 {
        // INC
        if len < w {
            OpEff::Fail(Fault::StackUnderflow)
        } else if out_len(len, w, k, w) > 255 {
            OpEff::Fail(Fault::StackOverflow)
        } else {
            let v = top_val(src, 0, sh);
            OpEff::Go {
                src: src_out(src, w, k, be_bytes(wrapv(v + 1, sh), sh)),
                dst,
                mem,
                pc,
            }
        }
    } else if op == 0x02 {
        // POP
        if len < w {
            OpEff::Fail(Fault::StackUnderflow)
        } else {
            OpEff::Go { src: src_out(src, w, k, Seq::empty()), dst, mem, pc }
        }
    } else if op == 0x03 {
        // NIP
        if len < 2 * w {
            OpEff::Fail(Fault::StackUnderflow)
        } else if out_len(len, 2 * w, k, w) > 255 {
            OpEff::Fail(Fault::StackOverflow)
        } else {
            let a = top_val(src, 0, sh);
            OpEff::Go { src: src_out(src, 2 * w, k, be_bytes(a, sh)), dst, mem, pc }
        }
    } else if op == 0x04 {
        // SWP
        if len < 2 * w {
            OpEff::Fail(Fault::StackUnderflow)
        } else if out_len(len, 2 * w, k, 2 * w) > 255 {
            OpEff::Fail(Fault::StackOverflow)
        } else {
            let a = top_val(src, 0, sh);
            let b = top_val(src, w, sh);
            OpEff::Go {
                src: src_out(src, 2 * w, k, be_bytes(a, sh) + be_bytes(b, sh)),
                dst,
                mem,
                pc,
            }
        }
    } else if op == 0x05 {
        // ROT
        if len < 3 * w {
            OpEff::Fail(Fault::StackUnderflow)
        } else if out_len(len, 3 * w, k, 3 * w) > 255 {
            OpEff::Fail(Fault::StackOverflow)
        } else {
            let a = top_val(src, 0, sh);
            let b = top_val(src, w, sh);
            let c = top_val(src, 2 * w, sh);
            OpEff::Go {
                src: src_out(src, 3 * w, k, be_bytes(b, sh) + be_bytes(a, sh) + be_bytes(c, sh)),
                dst,
                mem,
                pc,
            }
        }
    } else if op == 0x06 {
        // DUP
        if len < w {
            OpEff::Fail(Fault::StackUnderflow)
        } else if out_len(len, w, k, 2 * w) > 255 {
            OpEff::Fail(Fault::StackOverflow)
        } else {
            let a = top_val(src, 0, sh);
            OpEff::Go {
                src: src_out(src, w, k, be_bytes(a, sh) + be_bytes(a, sh)),
                dst,
                mem,
                pc,
            }
        }
    } else if op == 0x07 {
        // OVR
        if len < 2 * w {
            OpEff::Fail(Fault::StackUnderflow)
        } else if out_len(len, 2 * w, k, 3 * w) > 255 {
            OpEff::Fail(Fault::StackOverflow)
        } else {
            let a = top_val(src, 0, sh);
            let b = top_val(src, w, sh);
            OpEff::Go {
                src: src_out(src, 2 * w, k, be_bytes(b, sh) + be_bytes(a, sh) + be_bytes(b, sh)),
                dst,
                mem,
                pc,
            }
        }
    } else if 0x08 <= op && op <= 0x0b {
        // EQU NEQ GTH LTH
        if len < 2 * w {
            OpEff::Fail(Fault::StackUnderflow)
        } else if out_len(len, 2 * w, k, 1) > 255 {
            OpEff::Fail(Fault::StackOverflow)
        } else {
            let b = top_val(src, 0, sh);
            let a = top_val(src, w, sh);
            OpEff::Go { src: src_out(src, 2 * w, k, seq![cmp_byte(op, a, b)]), dst, mem, pc }
        }
    } else if op == 0x0c {
        // JMP
        if len < w {
            OpEff::Fail(Fault::StackUnderflow)
        } else {
            OpEff::Go {
                src: src_out(src, w, k, Seq::empty()),
                dst,
                mem,
                pc: jump_target(pc, top_val(src, 0, sh), sh),
            }
        }
    } else if op == 0x0d {
        // JCN
        if len < w + 1 {
            OpEff::Fail(Fault::StackUnderflow)
        } else {
            let addr = top_val(src, 0, sh);
            let cond = top_at(src, w);
            OpEff::Go {
                src: src_out(src, w + 1, k, Seq::empty()),
                dst,
                mem,
                pc: if cond != 0 {
                    jump_target(pc, addr, sh)
                } else {
                    pc
                },
            }
        }
    } else if op == 0x0e {
        // JSR
        if len < w {
            OpEff::Fail(Fault::StackUnderflow)
        } else if dst.len() + 2 > 255 {
            OpEff::Fail(Fault::StackOverflow)
        } else {
            OpEff::Go {
                src: src_out(src, w, k, Seq::empty()),
                dst: dst + be_bytes(pc, true),
                mem,
                pc: jump_target(pc, top_val(src, 0, sh), sh),
            }
        }
    } else if op == 0x0f {
        // STH
        if len < w {
            OpEff::Fail(Fault::StackUnderflow)
        } else if dst.len() + w > 255 {
            OpEff::Fail(Fault::StackOverflow)
        } else {
            OpEff::Go {
                src: src_out(src, w, k, Seq::empty()),
                dst: dst + be_bytes(top_val(src, 0, sh), sh),
                mem,
                pc,
            }
        }
    } else if op == 0x10 {
        // LDZ
        if len < 1 {
            OpEff::Fail(Fault::StackUnderflow)
        } else if out_len(len, 1, k, w) > 255 {
            OpEff::Fail(Fault::StackOverflow)
        } else {
            let a = top_at(src, 0) as int;
            OpEff::Go { src: src_out(src, 1, k, be_bytes(peek(mem, a, sh), sh)), dst, mem, pc }
        }
    } else if op == 0x11 {
        // STZ
        if len < 1 + w {
            OpEff::Fail(Fault::StackUnderflow)
        } else {
            let a = top_at(src, 0) as int;
            let v = top_val(src, 1, sh);
            OpEff::Go { src: src_out(src, 1 + w, k, Seq::empty()), dst, mem: poke(mem, a, v, sh), pc }
        }
    } else if op == 0x12 {
        // LDR
        if len < 1 {
            OpEff::Fail(Fault::StackUnderflow)
        } else if out_len(len, 1, k, w) > 255 {
            OpEff::Fail(Fault::StackOverflow)
        } else {
            let a = rel_pc(pc, top_at(src, 0)) as int;
            OpEff::Go { src: src_out(src, 1, k, be_bytes(peek(mem, a, sh), sh)), dst, mem, pc }
        }
    } else if op == 0x13 {
        // STR
        if len < 1 + w {
            OpEff::Fail(Fault::StackUnderflow)
        } else {
            let a = rel_pc(pc, top_at(src, 0)) as int;
            let v = top_val(src, 1, sh);
            OpEff::Go { src: src_out(src, 1 + w, k, Seq::empty()), dst, mem: poke(mem, a, v, sh), pc }
        }
    } else if op == 0x14 {
        // LDA
        if len < 2 {
            OpEff::Fail(Fault::StackUnderflow)
        } else if out_len(len, 2, k, w) > 255 {
            OpEff::Fail(Fault::StackOverflow)
        } else {
            let a = top_val(src, 0, true) as int;
            OpEff::Go { src: src_out(src, 2, k, be_bytes(peek(mem, a, sh), sh)), dst, mem, pc }
        }
    } else if op == 0x15 {
        // STA
        if len < 2 + w {
            OpEff::Fail(Fault::StackUnderflow)
        } else {
            let a = top_val(src, 0, true) as int;
            let v = top_val(src, 2, sh);
            OpEff::Go { src: src_out(src, 2 + w, k, Seq::empty()), dst, mem: poke(mem, a, v, sh), pc }
        }
    } else if op == 0x16 {
        // DEI
        if len < 1 {
            OpEff::Fail(Fault::StackUnderflow)
        } else if out_len(len, 1, k, w) > 255 {
            OpEff::Fail(Fault::StackOverflow)
        } else {
            let pushed = if sh {
                seq![d0, d1]
            } else {
                seq![d0]
            };
            OpEff::Go { src: src_out(src, 1, k, pushed), dst, mem, pc }
        }
    } else if op == 0x17 {
        // DEO
        if len < 1 + w {
            OpEff::Fail(Fault::StackUnderflow)
        } else {
            OpEff::Go { src: src_out(src, 1 + w, k, Seq::empty()), dst, mem, pc }
        }
    } else if 0x18 <= op && op <= 0x1e {
        // ADD SUB MUL DIV AND ORA EOR
        if len < 2 * w {
            OpEff::Fail(Fault::StackUnderflow)
        } else if out_len(len, 2 * w, k, w) > 255 {
            OpEff::Fail(Fault::StackOverflow)
        } else {
            let b = top_val(src, 0, sh);
            let a = top_val(src, w, sh);
            OpEff::Go { src: src_out(src, 2 * w, k, be_bytes(alu(op, a, b, sh), sh)), dst, mem, pc }
        }
    } else if op == 0x1f {
        // SFT
        if len < w + 1 {
            OpEff::Fail(Fault::StackUnderflow)
        } else if out_len(len, w + 1, k, w) > 255 {
            OpEff::Fail(Fault::StackOverflow)
        } else {
            let v = top_val(src, 0, sh);
            let s = top_at(src, w);
            OpEff::Go { src: src_out(src, w + 1, k, be_bytes(sft(v, s, sh), sh)), dst, mem, pc }
        }
    } else {
        OpEff::Fail(Fault::InvalidOpcode)
    }
}

/// The swap of the two stacks of a state.
pub open spec fn swap_vm(s: VmState) -> VmState {
    VmState { wst: s.rst, rst: s.wst, ..s }
}

/// An outcome with the stacks of its state swapped.
pub open spec fn swap_outcome(o: Outcome) -> Outcome {
    match o {
        Outcome::Next(t) => Outcome::Next(swap_vm(t)),
        Outcome::Halted(t) => Outcome::Halted(swap_vm(t)),
        Outcome::Faulted(f, t) => Outcome::Faulted(f, swap_vm(t)),
    }
}

/// One of the eight immediate-style instructions selected by the mode bits of
/// base opcode 0: the upper three bits of `instr` are 1..=7 here (0 is the
/// terminating BRK, handled by the caller).  `s1` is the state after the
/// instruction byte was fetched.
pub open spec fn brk_step(s1: VmState, instr: u8) -> Outcome {
    let upper = instr >> 5;
    if upper == 1 {
        // JCI: pop a condition byte; skip or take a 16-bit relative jump.
        if s1.wst.len() < 1 {
            Outcome::Faulted(Fault::StackUnderflow, s1)
        } else {
            let cond = top_at(s1.wst, 0);
            Outcome::Next(
                VmState {
                    wst: s1.wst.take(s1.wst.len() - 1),
                    pc: if cond != 0 {
                        wrap16(s1.pc + 2 + imm16(s1.mem, s1.pc))
                    } else {
                        wrap16(s1.pc + 2)
                    },
                    ..s1
                },
            )
        }
    } else if upper == 2 {
        // JMI: unconditional 16-bit relative jump past the immediate.
        Outcome::Next(VmState { pc: wrap16(s1.pc + 2 + imm16(s1.mem, s1.pc)), ..s1 })
    } else if upper == 3 {
        // JSI: push the return address, then jump as JMI.
        if s1.rst.len() + 2 > 255 {
            Outcome::Faulted(Fault::StackOverflow, s1)
        } else {
            Outcome::Next(
                VmState {
                    rst: s1.rst + be_bytes(wrap16(s1.pc + 2), true),
                    pc: wrap16(s1.pc + 2 + imm16(s1.mem, s1.pc)),
                    ..s1
                },
            )
        }
    } else {
        // LIT, LIT2, LITr, LIT2r: push immediate bytes and step over them.
        let short = instr & 0x20 != 0;
        let to_r = instr & 0x40 != 0;
        let w = width(short);
        let bytes = if short {
            seq![mem_at(s1.mem, s1.pc as int), mem_at(s1.mem, s1.pc + 1)]
        } else {
            seq![mem_at(s1.mem, s1.pc as int)]
        };
        let target_len = if to_r {
            s1.rst.len()
        } else {
            s1.wst.len()
        };
        if target_len + w > 255 {
            Outcome::Faulted(Fault::StackOverflow, s1)
        } else if to_r {
            Outcome::Next(VmState { rst: s1.rst + bytes, pc: wrap16(s1.pc + w), ..s1 })
        } else {
            Outcome::Next(VmState { wst: s1.wst + bytes, pc: wrap16(s1.pc + w), ..s1 })
        }
    }
}

/// The dispatch of instruction byte `instr` from the post-fetch state `s1`
/// (the program counter already stepped past the instruction byte).
pub open spec fn instr_step(s1: VmState, instr: u8, d0: u8, d1: u8) -> Outcome {
    if instr == 0x00 {
        Outcome::Halted(s1)
    } else if instr & 0x1f == 0 {
        brk_step(s1, instr)
    } else {
        let op = instr & 0x1f;
        let k = instr & 0x80 != 0;
        let r = instr & 0x40 != 0;
        let sh = instr & 0x20 != 0;
        let src = if r {
            s1.rst
        } else {
            s1.wst
        };
        let dst = if r {
            s1.wst
        } else {
            s1.rst
        };
        match op_eff(op, k, sh, src, dst, s1.mem, s1.pc, d0, d1) {
            OpEff::Go { src, dst, mem, pc } => Outcome::Next(
                VmState {
                    mem,
                    pc,
                    wst: if r {
                        dst
                    } else {
                        src
                    },
                    rst: if r {
                        src
                    } else {
                        dst
                    },
                },
            ),
            OpEff::Fail(f) => Outcome::Faulted(f, s1),
        }
    }
}

/// One full fetch-decode-dispatch step from state `s`: the instruction byte
/// at the program counter is fetched, the counter steps past it, and the
/// instruction executes.  `d0` and `d1` are the bytes a DEI device read would
/// obtain.
pub open spec fn step_spec(s: VmState, d0: u8, d1: u8) -> Outcome {
    let instr = mem_at(s.mem, s.pc as int);
    let s1 = VmState { pc: wrap16(s.pc + 1), ..s };
    instr_step(s1, instr, d0, d1)
}

/// The next instruction of `s` reaches the device gateway: its base opcode
/// is DEI or DEO.
pub open spec fn touches_devices(s: VmState) -> bool {
    mem_at(s.mem, s.pc as int) & 0x1f == 0x16 || mem_at(s.mem, s.pc as int) & 0x1f == 0x17
}

/// No state of the trace is about to execute a device instruction.
pub open spec fn device_free(tr: Seq<VmState>) -> bool {
    forall|i: int| 0 <= i < tr.len() ==> !touches_devices(#[trigger] tr[i])
}

/// A device-free trace stays device-free when its last state is dropped.
pub proof fn lemma_device_free_drop(tr: Seq<VmState>)
    requires
        device_free(tr),
        tr.len() >= 1,
    ensures
        device_free(tr.drop_last()),
{
    assert forall|i: int| 0 <= i < tr.drop_last().len() implies !touches_devices(
        #[trigger] tr.drop_last()[i],
    ) by {
        assert(tr.drop_last()[i] == tr[i]);
    }
}

/// `b` is reachable from `a` in one step, for some device input.
pub open spec fn steps_to(a: VmState, b: VmState) -> bool {
    exists|d0: u8, d1: u8| step_spec(a, d0, d1) == Outcome::Next(b)
}

/// The instruction at `a` is a terminating BRK leaving state `b`.
pub open spec fn halts_to(a: VmState, b: VmState) -> bool {
    exists|d0: u8, d1: u8| step_spec(a, d0, d1) == Outcome::Halted(b)
}

/// The instruction at `a` faults with `f`, leaving state `b`.
pub open spec fn faults_to(a: VmState, b: VmState, f: Fault) -> bool {
    exists|d0: u8, d1: u8| step_spec(a, d0, d1) == Outcome::Faulted(f, b)
}

/// Every adjacent pair of `tr` is one execution step.
pub open spec fn is_chain(tr: Seq<VmState>) -> bool {
    forall|i: int| 0 <= i < tr.len() - 1 ==> #[trigger] steps_to(tr[i], tr[i + 1])
}

/// `tr` is a complete run from `s0` to the final state `sf`: a chain of
/// steps whose last state halts into `sf` (result `Ok`) or faults into `sf`
/// (result `Err`).
pub open spec fn run_trace(tr: Seq<VmState>, s0: VmState, sf: VmState, r: Result<(), Fault>) -> bool {
    &&& tr.len() >= 1
    &&& tr[0] == s0
    &&& is_chain(tr)
    &&& match r {
        Ok(()) => halts_to(tr[tr.len() - 1], sf),
        Err(f) => faults_to(tr[tr.len() - 1], sf, f),
    }
}

/// Some complete run leads from `s0` to `sf` with result `r`.
pub open spec fn run_result(s0: VmState, sf: VmState, r: Result<(), Fault>) -> bool {
    exists|tr: Seq<VmState>| #[trigger] run_trace(tr, s0, sf, r)
}

/// Exactly `n` execution steps lead from `s0` to `sf`.
pub open spec fn runs_for(s0: VmState, sf: VmState, n: int) -> bool {
    exists|tr: Seq<VmState>|
        {
            &&& tr.len() == n + 1
            &&& tr[0] == s0
            &&& tr[tr.len() - 1] == sf
            &&& #[trigger] is_chain(tr)
        }
}

} // verus!
