//! The general laws of the machine, proved once over the stack model and the
//! small-step semantics.

use vstd::prelude::*;
use vstd::arithmetic::div_mod::lemma_add_mod_noop_right;
use vstd::arithmetic::div_mod::lemma_mod_twice;

use crate::isa::Outcome;
use crate::isa::VmState;
use crate::isa::OpEff;
use crate::isa::alu;
use crate::isa::cmp_byte;
use crate::isa::instr_step;
use crate::isa::sft;
use crate::isa::mem_at;
use crate::isa::op_eff;
use crate::isa::peek;
use crate::isa::poke;
use crate::isa::step_spec;
use crate::isa::steps_to;
use crate::isa::swap_outcome;
use crate::isa::swap_vm;
use crate::isa::vm_wf;
use crate::isa::width;
use crate::isa::wrap16;
use crate::stack::be_bytes;
use crate::stack::top_at;
use crate::stack::top_val;

verus! {

/// Bytes pushed onto a stack pop back in reverse order: the `i`-th pop reads
/// the `i`-th byte from the end of what was pushed, whatever lay below.
pub proof fn lemma_push_pop_reverse(s: Seq<u8>, pushed: Seq<u8>, i: int)
    requires
        0 <= i < pushed.len(),
    ensures
        top_at(s + pushed, i) == pushed[pushed.len() - 1 - i],
{
}

/// A byte pushed onto a stack pops back unchanged, and the bytes below it
/// are untouched.
pub proof fn lemma_byte_round_trip(s: Seq<u8>, b: u8)
    ensures
        top_at(s + be_bytes(b as u16, false), 0) == b,
        (s + be_bytes(b as u16, false)).take(s.len() as int) == s,
{
    assert((s + be_bytes(b as u16, false)).take(s.len() as int) =~= s);
}

/// A short pushed onto a stack pops back unchanged, and the bytes below it
/// are untouched.
pub proof fn lemma_short_round_trip(s: Seq<u8>, v: u16)
    ensures
        top_val(s + be_bytes(v, true), 0, true) == v,
        (s + be_bytes(v, true)).take(s.len() as int) == s,
{
    assert((s + be_bytes(v, true)).take(s.len() as int) =~= s);
}

/// Two bytes pushed `hi` then `lo` pop back as the single short
/// `hi * 256 + lo`.
pub proof fn lemma_bytes_make_short(s: Seq<u8>, hi: u8, lo: u8)
    ensures
        top_val(s + seq![hi, lo], 0, true) == hi as int * 256 + lo as int,
{
}

/// A stack is its remainder below the top value plus the top value pushed
/// back: popping a value and pushing it again restores the stack.
pub proof fn lemma_top_decomp(s: Seq<u8>, sh: bool)
    requires
        s.len() >= width(sh),
    ensures
        s.take(s.len() - width(sh)) + be_bytes(top_val(s, 0, sh), sh) == s,
{
    if sh {
        let hi = top_at(s, 1);
        let lo = top_at(s, 0);
        assert((hi as int * 256 + lo as int) / 256 == hi as int) by (nonlinear_arith)
            requires
                0 <= lo < 256,
                0 <= hi,
        ;
        assert((hi as int * 256 + lo as int) % 256 == lo as int) by (nonlinear_arith)
            requires
                0 <= lo < 256,
                0 <= hi,
        ;
    }
    assert(s.take(s.len() - width(sh)) + be_bytes(top_val(s, 0, sh), sh) =~= s);
}

/// Keep mode is non-destructive: whatever a keep-mode opcode does, the
/// source stack it leaves behind starts with the source stack it was given;
/// the logically consumed operands are still in place underneath any
/// results.
#[verifier::rlimit(100)]
#[verifier::spinoff_prover]
pub proof fn lemma_keep_mode_non_destructive(
    op: u8,
    sh: bool,
    src: Seq<u8>,
    dst: Seq<u8>,
    mem: Seq<u8>,
    pc: u16,
    d0: u8,
    d1: u8,
)
    requires
        1 <= op <= 0x1f,
    ensures
        match op_eff(op, true, sh, src, dst, mem, pc, d0, d1) {
            OpEff::Go { src: after, .. } => {
                &&& after.len() >= src.len()
                &&& after.take(src.len() as int) == src
            },
            OpEff::Fail(_) => true,
        },
{
    match op_eff(op, true, sh, src, dst, mem, pc, d0, d1) {
        OpEff::Go { src: after, dst: d2, mem: m2, pc: p2 } => {
            assert(after.take(src.len() as int) =~= src);
        },
        OpEff::Fail(_) => {},
    }
}

/// Loads and stores see addresses modulo 2^16: an access at any address `a`
/// is the access at `a % 0x10000`.
pub proof fn lemma_mem_wrap(mem: Seq<u8>, a: int, v: u16, sh: bool)
    ensures
        peek(mem, a % 0x10000, sh) == peek(mem, a, sh),
        poke(mem, a % 0x10000, v, sh) == poke(mem, a, v, sh),
{
    lemma_mod_twice(a, 0x10000);
    lemma_add_mod_noop_right(1, a, 0x10000);
    assert((a % 0x10000 + 1) % 0x10000 == (a + 1) % 0x10000) by {
        assert((1 + a % 0x10000) % 0x10000 == (1 + a) % 0x10000);
    }
}

/// The swap of the working and return stacks under the return flag is scoped
/// to the one instruction: executing a mode-respecting opcode with the flag
/// set is exactly executing it with the flag clear on the swapped stacks and
/// swapping the outcome back.  No residue of the swap survives into the next
/// state.
pub proof fn lemma_return_mode_scoped(s1: VmState, instr: u8, d0: u8, d1: u8)
    requires
        instr & 0x1f != 0,
        instr & 0x40 != 0,
    ensures
        instr_step(s1, instr, d0, d1) == swap_outcome(
            instr_step(swap_vm(s1), instr & 0xbf, d0, d1),
        ),
{
    assert(instr & 0x1f != 0 && instr & 0x40 != 0 ==> {
        &&& (instr & 0xbf) & 0x1f == instr & 0x1f
        &&& (instr & 0xbf) & 0x80 == instr & 0x80
        &&& (instr & 0xbf) & 0x20 == instr & 0x20
        &&& (instr & 0xbf) & 0x40 == 0
        &&& instr & 0xbf != 0
        &&& instr != 0
    }) by (bit_vector);
    assert(swap_vm(swap_vm(s1)) == s1);
}

/// Opcodes with no explicit jump advance the program counter by exactly one:
/// the instruction byte, which carries no immediates.
pub proof fn lemma_pc_sequential(s: VmState, d0: u8, d1: u8)
    requires
        ({
            let op = mem_at(s.mem, s.pc as int) & 0x1f;
            op != 0 && op != 0x0c && op != 0x0d && op != 0x0e
        }),
    ensures
        match step_spec(s, d0, d1) {
            Outcome::Next(t) => t.pc == wrap16(s.pc + 1),
            _ => true,
        },
{
}

/// The LIT instructions advance the program counter by exactly one plus the
/// width of their immediate.
pub proof fn lemma_pc_literal(s: VmState, d0: u8, d1: u8)
    requires
        mem_at(s.mem, s.pc as int) & 0x1f == 0,
        mem_at(s.mem, s.pc as int) >> 5 >= 4,
    ensures
        match step_spec(s, d0, d1) {
            Outcome::Next(t) => t.pc == wrap16(
                s.pc + 1 + width(mem_at(s.mem, s.pc as int) & 0x20 != 0),
            ),
            _ => true,
        },
{
    let instr = mem_at(s.mem, s.pc as int);
    assert(instr & 0x1f == 0 && instr >> 5 >= 4 ==> instr != 0) by (bit_vector);
    let w = width(instr & 0x20 != 0);
    lemma_add_mod_noop_right(w, s.pc + 1, 0x10000);
    assert((w + (s.pc + 1) % 0x10000) % 0x10000 == (w + (s.pc + 1)) % 0x10000);
}

/// One DUP step: duplicates the top value of the source stack and steps the
/// program counter past the instruction byte.
#[verifier::rlimit(100)]
#[verifier::spinoff_prover]
proof fn lemma_dup_makes(s: VmState, r: bool, sh: bool) -> (t: VmState)
    requires
        vm_wf(s),
        ({
            let i = mem_at(s.mem, s.pc as int);
            &&& i & 0x1f == 0x06
            &&& i & 0x80 == 0
            &&& (i & 0x40 != 0) == r
            &&& (i & 0x20 != 0) == sh
            &&& i != 0
        }),
        (if r {
            s.rst
        } else {
            s.wst
        }).len() >= width(sh),
        (if r {
            s.rst
        } else {
            s.wst
        }).len() + width(sh) <= 255,
    ensures
        steps_to(s, t),
        t.mem == s.mem,
        t.pc == wrap16(s.pc + 1),
        ({
            let src = if r {
                s.rst
            } else {
                s.wst
            };
            let a = top_val(src, 0, sh);
            let src1 = src.take(src.len() - width(sh)) + be_bytes(a, sh) + be_bytes(a, sh);
            &&& (if r {
                t.rst
            } else {
                t.wst
            }) == src1
            &&& (if r {
                t.wst
            } else {
                t.rst
            }) == (if r {
                s.wst
            } else {
                s.rst
            })
        }),
{
    let src = if r {
        s.rst
    } else {
        s.wst
    };
    let a = top_val(src, 0, sh);
    let src1 = src.take(src.len() - width(sh)) + be_bytes(a, sh) + be_bytes(a, sh);
    let t = VmState {
        pc: wrap16(s.pc + 1),
        wst: if r {
            s.wst
        } else {
            src1
        },
        rst: if r {
            src1
        } else {
            s.rst
        },
        ..s
    };
    crate::stack::lemma_concat_assoc(
        src.take(src.len() - width(sh)),
        be_bytes(a, sh),
        be_bytes(a, sh),
    );
    assert(step_spec(s, 0, 0) == Outcome::Next(t));
    assert(steps_to(s, t));
    t
}

/// One POP step: removes the top value of the source stack and steps the
/// program counter past the instruction byte.
#[verifier::rlimit(100)]
#[verifier::spinoff_prover]
proof fn lemma_pop_makes(s: VmState, r: bool, sh: bool) -> (t: VmState)
    requires
        s.mem.len() == 0x10000,
        ({
            let i = mem_at(s.mem, s.pc as int);
            &&& i & 0x1f == 0x02
            &&& i & 0x80 == 0
            &&& (i & 0x40 != 0) == r
            &&& (i & 0x20 != 0) == sh
            &&& i != 0
        }),
        (if r {
            s.rst
        } else {
            s.wst
        }).len() >= width(sh),
    ensures
        steps_to(s, t),
        t.mem == s.mem,
        t.pc == wrap16(s.pc + 1),
        ({
            let src = if r {
                s.rst
            } else {
                s.wst
            };
            let src1 = src.take(src.len() - width(sh)) + Seq::<u8>::empty();
            &&& (if r {
                t.rst
            } else {
                t.wst
            }) == src1
            &&& (if r {
                t.wst
            } else {
                t.rst
            }) == (if r {
                s.wst
            } else {
                s.rst
            })
        }),
{
    let src = if r {
        s.rst
    } else {
        s.wst
    };
    let src1 = src.take(src.len() - width(sh)) + Seq::<u8>::empty();
    let t = VmState {
        pc: wrap16(s.pc + 1),
        wst: if r {
            s.wst
        } else {
            src1
        },
        rst: if r {
            src1
        } else {
            s.rst
        },
        ..s
    };
    assert(step_spec(s, 0, 0) == Outcome::Next(t));
    assert(steps_to(s, t));
    t
}

/// Executing DUP and then POP, with the same width and return flags and keep
/// clear, leaves the machine state unchanged but for the program counter
/// stepping over the two instruction bytes.
#[verifier::rlimit(100)]
#[verifier::spinoff_prover]
pub proof fn lemma_dup_pop(s: VmState, r: bool, sh: bool)
    requires
        vm_wf(s),
        mem_at(s.mem, s.pc as int) == 0x06 | (if r {
            0x40u8
        } else {
            0u8
        }) | (if sh {
            0x20u8
        } else {
            0u8
        }),
        mem_at(s.mem, s.pc + 1) == 0x02 | (if r {
            0x40u8
        } else {
            0u8
        }) | (if sh {
            0x20u8
        } else {
            0u8
        }),
        (if r {
            s.rst
        } else {
            s.wst
        }).len() >= width(sh),
        (if r {
            s.rst
        } else {
            s.wst
        }).len() + width(sh) <= 255,
    ensures
        ({
            let u = VmState { pc: wrap16(s.pc + 2), ..s };
            exists|t: VmState| #[trigger] steps_to(s, t) && steps_to(t, u)
        }),
{
    let instr1 = mem_at(s.mem, s.pc as int);
    let instr2 = mem_at(s.mem, s.pc + 1);
    assert({
        &&& instr1 & 0x1f == 0x06
        &&& instr1 & 0x80 == 0
        &&& (instr1 & 0x40 != 0) == r
        &&& (instr1 & 0x20 != 0) == sh
        &&& instr1 != 0
        &&& instr2 & 0x1f == 0x02
        &&& instr2 & 0x80 == 0
        &&& (instr2 & 0x40 != 0) == r
        &&& (instr2 & 0x20 != 0) == sh
        &&& instr2 != 0
    }) by (bit_vector)
        requires
            instr1 == 0x06 | (if r {
                0x40u8
            } else {
                0u8
            }) | (if sh {
                0x20u8
            } else {
                0u8
            }),
            instr2 == 0x02 | (if r {
                0x40u8
            } else {
                0u8
            }) | (if sh {
                0x20u8
            } else {
                0u8
            }),
    ;
    let w = width(sh);
    let src = if r {
        s.rst
    } else {
        s.wst
    };
    let a = top_val(src, 0, sh);
    let t = lemma_dup_makes(s, r, sh);
    // The second fetch reads the POP byte.
    lemma_add_mod_noop_right(1, s.pc as int, 0x10000);
    assert((1 + (s.pc as int) % 0x10000) % 0x10000 == (1 + s.pc as int) % 0x10000);
    assert(mem_at(t.mem, t.pc as int) == instr2);
    let src1 = src.take(src.len() - w) + be_bytes(a, sh) + be_bytes(a, sh);
    let u = lemma_pop_makes(t, r, sh);
    // Popping the duplicate restores the original stack.
    lemma_top_decomp(src, sh);
    assert(src1.take(src1.len() - w) + Seq::<u8>::empty() =~= src.take(src.len() - w)
        + be_bytes(a, sh));
    lemma_add_mod_noop_right(1, s.pc + 1, 0x10000);
    assert((1 + ((s.pc + 1) as int) % 0x10000) % 0x10000 == (1 + (s.pc + 1) as int) % 0x10000);
    assert(u == VmState { pc: wrap16(s.pc + 2), ..s });
}

/// Width uniformity of the arithmetic opcodes: with the short bit set, the
/// top short of the source stack afterwards is the mathematical operation,
/// modulo 2^16, of the two big-endian operand shorts.
pub proof fn lemma_width_uniformity_alu(s: VmState, op: u8, r: bool)
    requires
        vm_wf(s),
        0x18 <= op <= 0x1e,
        mem_at(s.mem, s.pc as int) == op | 0x20 | (if r {
            0x40u8
        } else {
            0u8
        }),
        (if r {
            s.rst
        } else {
            s.wst
        }).len() >= 4,
    ensures
        match step_spec(s, 0, 0) {
            Outcome::Next(t) => {
                let src0 = if r {
                    s.rst
                } else {
                    s.wst
                };
                let src1 = if r {
                    t.rst
                } else {
                    t.wst
                };
                &&& src1.len() == src0.len() - 2
                &&& top_val(src1, 0, true) == alu(
                    op,
                    top_val(src0, 2, true),
                    top_val(src0, 0, true),
                    true,
                )
            },
            _ => false,
        },
{
    let instr = mem_at(s.mem, s.pc as int);
    assert(0x18 <= op <= 0x1e ==> {
        &&& (op | 0x20 | (if r {
            0x40u8
        } else {
            0u8
        })) & 0x1f == op
        &&& (op | 0x20 | (if r {
            0x40u8
        } else {
            0u8
        })) & 0x80 == 0
        &&& ((op | 0x20 | (if r {
            0x40u8
        } else {
            0u8
        })) & 0x40 != 0) == r
        &&& (op | 0x20 | (if r {
            0x40u8
        } else {
            0u8
        })) & 0x20 != 0
        &&& (op | 0x20 | (if r {
            0x40u8
        } else {
            0u8
        })) != 0
    }) by (bit_vector);
    let src0 = if r {
        s.rst
    } else {
        s.wst
    };
    let v = alu(op, top_val(src0, 2, true), top_val(src0, 0, true), true);
    lemma_short_round_trip(src0.take(src0.len() - 4), v);
}

/// Width uniformity of the comparison opcodes: with the short bit set, the
/// two big-endian operand shorts are compared as 16-bit values, and a single
/// 0/1 result byte is pushed in their place.
pub proof fn lemma_width_uniformity_cmp(s: VmState, op: u8, r: bool)
    requires
        vm_wf(s),
        0x08 <= op <= 0x0b,
        mem_at(s.mem, s.pc as int) == op | 0x20 | (if r {
            0x40u8
        } else {
            0u8
        }),
        (if r {
            s.rst
        } else {
            s.wst
        }).len() >= 4,
    ensures
        match step_spec(s, 0, 0) {
            Outcome::Next(t) => {
                let src0 = if r {
                    s.rst
                } else {
                    s.wst
                };
                let src1 = if r {
                    t.rst
                } else {
                    t.wst
                };
                &&& src1.len() == src0.len() - 3
                &&& top_at(src1, 0) == cmp_byte(
                    op,
                    top_val(src0, 2, true),
                    top_val(src0, 0, true),
                )
            },
            _ => false,
        },
{
    assert(0x08 <= op <= 0x0b ==> {
        &&& (op | 0x20 | (if r {
            0x40u8
        } else {
            0u8
        })) & 0x1f == op
        &&& (op | 0x20 | (if r {
            0x40u8
        } else {
            0u8
        })) & 0x80 == 0
        &&& ((op | 0x20 | (if r {
            0x40u8
        } else {
            0u8
        })) & 0x40 != 0) == r
        &&& (op | 0x20 | (if r {
            0x40u8
        } else {
            0u8
        })) & 0x20 != 0
        &&& (op | 0x20 | (if r {
            0x40u8
        } else {
            0u8
        })) != 0
    }) by (bit_vector);
}

/// Width uniformity of the shift opcode: with the short bit set, the popped
/// big-endian short is shifted as a 16-bit value by the nibbles of the shift
/// byte and pushed back big-endian.
pub proof fn lemma_width_uniformity_sft(s: VmState, r: bool)
    requires
        vm_wf(s),
        mem_at(s.mem, s.pc as int) == 0x1fu8 | 0x20 | (if r {
            0x40u8
        } else {
            0u8
        }),
        (if r {
            s.rst
        } else {
            s.wst
        }).len() >= 3,
    ensures
        match step_spec(s, 0, 0) {
            Outcome::Next(t) => {
                let src0 = if r {
                    s.rst
                } else {
                    s.wst
                };
                let src1 = if r {
                    t.rst
                } else {
                    t.wst
                };
                &&& src1.len() == src0.len() - 1
                &&& top_val(src1, 0, true) == sft(top_val(src0, 0, true), top_at(src0, 2), true)
            },
            _ => false,
        },
{
    assert({
        &&& (0x1fu8 | 0x20 | (if r {
            0x40u8
        } else {
            0u8
        })) & 0x1f == 0x1f
        &&& (0x1fu8 | 0x20 | (if r {
            0x40u8
        } else {
            0u8
        })) & 0x80 == 0
        &&& ((0x1fu8 | 0x20 | (if r {
            0x40u8
        } else {
            0u8
        })) & 0x40 != 0) == r
        &&& (0x1fu8 | 0x20 | (if r {
            0x40u8
        } else {
            0u8
        })) & 0x20 != 0
        &&& (0x1fu8 | 0x20 | (if r {
            0x40u8
        } else {
            0u8
        })) != 0
    }) by (bit_vector);
    let src0 = if r {
        s.rst
    } else {
        s.wst
    };
    let v = sft(top_val(src0, 0, true), top_at(src0, 2), true);
    lemma_short_round_trip(src0.take(src0.len() - 3), v);
}

/// Width uniformity of INC: with the short bit set, the popped big-endian
/// short is incremented modulo 2^16 and pushed back big-endian.
pub proof fn lemma_width_uniformity_inc(s: VmState, r: bool)
    requires
        vm_wf(s),
        mem_at(s.mem, s.pc as int) == 0x01u8 | 0x20 | (if r {
            0x40u8
        } else {
            0u8
        }),
        (if r {
            s.rst
        } else {
            s.wst
        }).len() >= 2,
    ensures
        match step_spec(s, 0, 0) {
            Outcome::Next(t) => {
                let src0 = if r {
                    s.rst
                } else {
                    s.wst
                };
                let src1 = if r {
                    t.rst
                } else {
                    t.wst
                };
                &&& src1.len() == src0.len()
                &&& top_val(src1, 0, true) == wrap16(top_val(src0, 0, true) + 1)
            },
            _ => false,
        },
{
    assert({
        &&& (0x01u8 | 0x20 | (if r {
            0x40u8
        } else {
            0u8
        })) & 0x1f == 0x01
        &&& (0x01u8 | 0x20 | (if r {
            0x40u8
        } else {
            0u8
        })) & 0x80 == 0
        &&& ((0x01u8 | 0x20 | (if r {
            0x40u8
        } else {
            0u8
        })) & 0x40 != 0) == r
        &&& (0x01u8 | 0x20 | (if r {
            0x40u8
        } else {
            0u8
        })) & 0x20 != 0
        &&& (0x01u8 | 0x20 | (if r {
            0x40u8
        } else {
            0u8
        })) != 0
    }) by (bit_vector);
    let src0 = if r {
        s.rst
    } else {
        s.wst
    };
    let v = wrap16(top_val(src0, 0, true) + 1);
    lemma_short_round_trip(src0.take(src0.len() - 2), v);
}

/// Width uniformity of SWP: with the short bit set, the top two big-endian
/// shorts exchange places as whole 16-bit values and the stack below them is
/// untouched.
#[verifier::rlimit(100)]
#[verifier::spinoff_prover]
pub proof fn lemma_width_uniformity_swp(s: VmState, r: bool)
    requires
        vm_wf(s),
        mem_at(s.mem, s.pc as int) == 0x04u8 | 0x20 | (if r {
            0x40u8
        } else {
            0u8
        }),
        (if r {
            s.rst
        } else {
            s.wst
        }).len() >= 4,
    ensures
        match step_spec(s, 0, 0) {
            Outcome::Next(t) => {
                let src0 = if r {
                    s.rst
                } else {
                    s.wst
                };
                let src1 = if r {
                    t.rst
                } else {
                    t.wst
                };
                &&& src1.len() == src0.len()
                &&& top_val(src1, 0, true) == top_val(src0, 2, true)
                &&& top_val(src1, 2, true) == top_val(src0, 0, true)
                &&& src1.take(src1.len() - 4) == src0.take(src0.len() - 4)
            },
            _ => false,
        },
{
    assert({
        &&& (0x04u8 | 0x20 | (if r {
            0x40u8
        } else {
            0u8
        })) & 0x1f == 0x04
        &&& (0x04u8 | 0x20 | (if r {
            0x40u8
        } else {
            0u8
        })) & 0x80 == 0
        &&& ((0x04u8 | 0x20 | (if r {
            0x40u8
        } else {
            0u8
        })) & 0x40 != 0) == r
        &&& (0x04u8 | 0x20 | (if r {
            0x40u8
        } else {
            0u8
        })) & 0x20 != 0
        &&& (0x04u8 | 0x20 | (if r {
            0x40u8
        } else {
            0u8
        })) != 0
    }) by (bit_vector);
    let src0 = if r {
        s.rst
    } else {
        s.wst
    };
    let a = top_val(src0, 0, true);
    let b = top_val(src0, 2, true);
    let base = src0.take(src0.len() - 4);
    let src1 = base + (be_bytes(a, true) + be_bytes(b, true));
    crate::stack::lemma_concat_assoc(base, be_bytes(a, true), be_bytes(b, true));
    lemma_short_round_trip(base + be_bytes(a, true), b);
    assert(top_val(src1, 2, true) == a) by {
        assert(src1[src1.len() - 4] == (a / 256) as u8);
        assert(src1[src1.len() - 3] == (a % 256) as u8);
    }
    assert(src1.take(src1.len() - 4) =~= base);
}

/// Width uniformity of STH: with the short bit set, the popped big-endian
/// short arrives on the destination stack as the same 16-bit value.
pub proof fn lemma_width_uniformity_sth(s: VmState, r: bool)
    requires
        vm_wf(s),
        mem_at(s.mem, s.pc as int) == 0x0fu8 | 0x20 | (if r {
            0x40u8
        } else {
            0u8
        }),
        (if r {
            s.rst
        } else {
            s.wst
        }).len() >= 2,
        (if r {
            s.wst
        } else {
            s.rst
        }).len() + 2 <= 255,
    ensures
        match step_spec(s, 0, 0) {
            Outcome::Next(t) => {
                let src0 = if r {
                    s.rst
                } else {
                    s.wst
                };
                let dst1 = if r {
                    t.wst
                } else {
                    t.rst
                };
                &&& (if r {
                    t.rst
                } else {
                    t.wst
                }) == src0.take(src0.len() - 2)
                &&& dst1.len() == (if r {
                    s.wst
                } else {
                    s.rst
                }).len() + 2
                &&& top_val(dst1, 0, true) == top_val(src0, 0, true)
            },
            _ => false,
        },
{
    assert({
        &&& (0x0fu8 | 0x20 | (if r {
            0x40u8
        } else {
            0u8
        })) & 0x1f == 0x0f
        &&& (0x0fu8 | 0x20 | (if r {
            0x40u8
        } else {
            0u8
        })) & 0x80 == 0
        &&& ((0x0fu8 | 0x20 | (if r {
            0x40u8
        } else {
            0u8
        })) & 0x40 != 0) == r
        &&& (0x0fu8 | 0x20 | (if r {
            0x40u8
        } else {
            0u8
        })) & 0x20 != 0
        &&& (0x0fu8 | 0x20 | (if r {
            0x40u8
        } else {
            0u8
        })) != 0
    }) by (bit_vector);
    let src0 = if r {
        s.rst
    } else {
        s.wst
    };
    let dst0 = if r {
        s.wst
    } else {
        s.rst
    };
    let v = top_val(src0, 0, true);
    lemma_short_round_trip(dst0, v);
    assert(src0.take(src0.len() - 2) + Seq::<u8>::empty() =~= src0.take(src0.len() - 2));
}

/// Width uniformity of the absolute load: with the short bit set, the two
/// memory bytes at the popped address arrive as one big-endian short.
pub proof fn lemma_width_uniformity_lda(s: VmState, r: bool)
    requires
        vm_wf(s),
        mem_at(s.mem, s.pc as int) == 0x14u8 | 0x20 | (if r {
            0x40u8
        } else {
            0u8
        }),
        (if r {
            s.rst
        } else {
            s.wst
        }).len() >= 2,
    ensures
        match step_spec(s, 0, 0) {
            Outcome::Next(t) => {
                let src0 = if r {
                    s.rst
                } else {
                    s.wst
                };
                let src1 = if r {
                    t.rst
                } else {
                    t.wst
                };
                let a = top_val(src0, 0, true) as int;
                &&& src1.len() == src0.len()
                &&& top_val(src1, 0, true) == mem_at(s.mem, a) as int * 256 + mem_at(
                    s.mem,
                    a + 1,
                ) as int
            },
            _ => false,
        },
{
    assert({
        &&& (0x14u8 | 0x20 | (if r {
            0x40u8
        } else {
            0u8
        })) & 0x1f == 0x14
        &&& (0x14u8 | 0x20 | (if r {
            0x40u8
        } else {
            0u8
        })) & 0x80 == 0
        &&& ((0x14u8 | 0x20 | (if r {
            0x40u8
        } else {
            0u8
        })) & 0x40 != 0) == r
        &&& (0x14u8 | 0x20 | (if r {
            0x40u8
        } else {
            0u8
        })) & 0x20 != 0
        &&& (0x14u8 | 0x20 | (if r {
            0x40u8
        } else {
            0u8
        })) != 0
    }) by (bit_vector);
    let src0 = if r {
        s.rst
    } else {
        s.wst
    };
    let a = top_val(src0, 0, true) as int;
    let v = peek(s.mem, a, true);
    lemma_short_round_trip(src0.take(src0.len() - 2), v);
}

} // verus!
