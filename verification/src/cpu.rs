//! The machine: memory, program counter, the two stacks and the device
//! slots, with the verified fetch-decode-dispatch engine.
//!
//! [`Uxn::step`] executes exactly one instruction and is proved to implement
//! the small-step semantics [`crate::isa::step_spec`]; [`Uxn::eval_vector`]
//! drives it in a loop and yields a complete run in the sense of
//! [`crate::isa::run_result`].

use vstd::prelude::*;
use vstd::pervasive::VecAdditionalExecFns;

use crate::Fault;
use crate::SetupError;
use crate::devices::Device;
use crate::isa::OpEff;
use crate::isa::Outcome;
use crate::isa::VmState;
use crate::isa::alu;
use crate::isa::brk_step;
use crate::isa::cmp_byte;
use crate::isa::faults_to;
use crate::isa::halts_to;
use crate::isa::device_free;
use crate::isa::is_chain;
use crate::isa::lemma_device_free_drop;
use crate::isa::jump_target;
use crate::isa::mem_at;
use crate::isa::op_eff;
use crate::isa::out_len;
use crate::isa::peek;
use crate::isa::poke;
use crate::isa::runs_for;
use crate::isa::rel_pc;
use crate::isa::run_result;
use crate::isa::sft;
use crate::isa::run_trace;
use crate::isa::src_out;
use crate::isa::step_spec;
use crate::isa::steps_to;
use crate::isa::touches_devices;
use crate::isa::width;
use crate::isa::wrap16;
use crate::isa::wrapv;
use crate::stack::Stack;
use crate::stack::be_bytes;
use crate::stack::lemma_concat_assoc;
use crate::stack::lemma_concat_empty;
use crate::stack::lemma_push_concat;
use crate::stack::lemma_take_take;
use crate::stack::lemma_top_take;
use crate::stack::top_at;
use crate::stack::top_val;

verus! {

/// What one executed instruction led to.
#[derive(Clone, Copy, Debug, PartialEq, Eq, Structural)]
pub enum StepOutcome {
    /// The instruction completed; execution may continue.
    Continue,
    /// The instruction was a terminating BRK.
    Halt,
    /// The instruction faulted; the machine state stays observable.
    Fault(Fault),
}

/// Two stacks hold the same bytes, mode and cursor.
pub open spec fn stk_eq(a: Stack, b: Stack) -> bool {
    &&& a.data@ == b.data@
    &&& a.keep_mode == b.keep_mode
    &&& a.pop_offset == b.pop_offset
}

/// The machine.  The sixteen device slots share one device type; a host
/// that mounts devices of several kinds gives `D` an enum over them.
pub struct Uxn<D: Device> {
    /// The 65 536 bytes of memory.
    pub mem: Vec<u8>,
    /// The program counter.
    pub pc: u16,
    /// The working stack.
    pub wst: Stack,
    /// The return stack.
    pub rst: Stack,
    /// The sixteen device slots.
    pub devices: Vec<Option<D>>,
}

impl<D: Device> Uxn<D> {
    /// Well-formedness between instructions: full memory, bounded stacks with
    /// keep mode off, sixteen device slots.
    pub open spec fn wf(&self) -> bool {
        &&& self.mem@.len() == 0x10000
        &&& self.wst.wf()
        &&& !self.wst.keep_mode
        &&& self.rst.wf()
        &&& !self.rst.keep_mode
        &&& self.devices@.len() == 16
    }

    /// The mathematical state this machine is in.
    pub open spec fn vm(&self) -> VmState {
        VmState { mem: self.mem@, pc: self.pc, wst: self.wst.data@, rst: self.rst.data@ }
    }

    /// The stack an instruction with return flag `r` pops from: the return
    /// stack under the flag, the working stack otherwise.
    pub open spec fn src_stk(&self, r: bool) -> Stack {
        if r {
            self.rst
        } else {
            self.wst
        }
    }

    /// The opposite stack: where STH and JSR push.
    pub open spec fn dst_stk(&self, r: bool) -> Stack {
        if r {
            self.wst
        } else {
            self.rst
        }
    }

    /// The byte the device gateway hands a read at slot `slot` and port
    /// offset `lo`: the mounted device's current value, or 0 from an empty
    /// slot.
    pub open spec fn dev_read(self, slot: u8, lo: u8) -> u8 {
        match self.devices@[slot as int] {
            Some(d) => d.port_val(lo),
            None => 0,
        }
    }

    /// Every device slot of `post` answers reads as in `pre`: the same slots
    /// are mounted and every port reads back the same byte.  A device read
    /// may advance hidden device state but never what the ports return.
    pub open spec fn dev_reads_preserved(pre: Self, post: Self) -> bool {
        &&& post.devices@.len() == pre.devices@.len()
        &&& forall|i: int|
            0 <= i < pre.devices@.len() ==> ((#[trigger] post.devices@[i]) is Some
                <==> pre.devices@[i] is Some)
        &&& forall|slot: u8, p: u8|
            slot < pre.devices@.len() ==> #[trigger] post.dev_read(slot, p) == pre.dev_read(
                slot,
                p,
            )
    }

    /// The device slots of `post` are those of `pre` after the write a DEO at
    /// port byte `p` of value `v` performs: the addressed slot's device
    /// relates to its old state by the write relation it declares, an empty
    /// slot discards the write, and every other slot is untouched.
    pub open spec fn deo_writes(pre: Self, post: Self, p: u8, v: u16, sh: bool) -> bool {
        let slot = (p >> 4) as int;
        &&& post.devices@ == pre.devices@.update(slot, post.devices@[slot])
        &&& match (pre.devices@[slot], post.devices@[slot]) {
            (Some(d), Some(d2)) => if sh {
                d.write_short_ok(d2, p & 0x0f, v)
            } else {
                d.write_byte_ok(d2, p & 0x0f, (v % 256) as u8)
            },
            (None, None) => true,
            _ => false,
        }
    }

    /// The instruction byte the next step fetches.
    pub open spec fn cur_instr(self) -> u8 {
        mem_at(self.mem@, self.pc as int)
    }

    /// The port byte a DEI or DEO at the next instruction pops: the top of
    /// the source stack its return flag selects.
    pub open spec fn cur_port(self) -> u8 {
        top_at(self.src_stk(self.cur_instr() & 0x40 != 0).data@, 0)
    }

    /// The value a DEO at the next instruction hands the device: the value
    /// of its operand width directly below the port byte.
    pub open spec fn cur_deo_val(self) -> u16 {
        top_val(self.src_stk(self.cur_instr() & 0x40 != 0).data@, 1, self.cur_instr() & 0x20 != 0)
    }

    /// The first byte a DEI at the next instruction reads from the device
    /// gateway; 0 when the next instruction is not a DEI.
    pub open spec fn dei_in0(self) -> u8 {
        if self.cur_instr() & 0x1f == 0x16 {
            self.dev_read(self.cur_port() >> 4, self.cur_port() & 0x0f)
        } else {
            0
        }
    }

    /// The second byte a short-width DEI at the next instruction reads, at
    /// the next port offset; 0 when the next instruction is not a short DEI.
    pub open spec fn dei_in1(self) -> u8 {
        if self.cur_instr() & 0x1f == 0x16 && self.cur_instr() & 0x20 != 0 {
            self.dev_read(self.cur_port() >> 4, ((self.cur_port() & 0x0f) + 1) as u8)
        } else {
            0
        }
    }

    /// Two machines with the same device slots answer reads alike.
    proof fn lemma_dev_reads_refl(a: Self, b: Self)
        requires
            b.devices@ == a.devices@,
        ensures
            Self::dev_reads_preserved(a, b),
    {
        assert forall|slot: u8, p: u8| slot < a.devices@.len() implies #[trigger] b.dev_read(
            slot,
            p,
        ) == a.dev_read(slot, p) by {
            assert(b.devices@[slot as int] == a.devices@[slot as int]);
        }
    }

    /// Read-preservation composes across consecutive machine states.
    proof fn lemma_dev_reads_trans(a: Self, b: Self, c: Self)
        requires
            Self::dev_reads_preserved(a, b),
            Self::dev_reads_preserved(b, c),
        ensures
            Self::dev_reads_preserved(a, c),
    {
        assert forall|slot: u8, p: u8| slot < a.devices@.len() implies #[trigger] c.dev_read(
            slot,
            p,
        ) == a.dev_read(slot, p) by {
            assert(b.dev_read(slot, p) == a.dev_read(slot, p));
            assert(c.dev_read(slot, p) == b.dev_read(slot, p));
        }
    }

    /// A machine with zeroed memory, the program counter at the ROM entry
    /// point 0x0100, empty stacks and no devices mounted.
    pub fn new() -> (u: Uxn<D>)
        ensures
            u.wf(),
            u.pc == 0x0100,
            forall|i: int| 0 <= i < 0x10000 ==> u.mem@[i] == 0,
            u.wst.data@ == Seq::<u8>::empty(),
            u.rst.data@ == Seq::<u8>::empty(),
            forall|i: int| 0 <= i < 16 ==> u.devices@[i] is None,
    {
        let mem = vec![0u8; 0x10000];
        let mut devices: Vec<Option<D>> = Vec::new();
        let mut i: usize = 0;
        while i < 16
            invariant
                i <= 16,
                devices@.len() == i,
                forall|j: int| 0 <= j < i ==> devices@[j] is None,
            decreases 16 - i,
        {
            devices.push(None);
            i = i + 1;
        }
        Uxn { mem, pc: 0x0100, wst: Stack::new(), rst: Stack::new(), devices }
    }

    /// Mounts a device on a slot; fails with `SlotOccupied`, changing
    /// nothing, exactly when the slot already holds one.
    pub fn mount_device(&mut self, device: D, port: u8) -> (r: Result<(), SetupError>)
        requires
            old(self).wf(),
            port < 16,
        ensures
            final(self).wf(),
            final(self).vm() == old(self).vm(),
            match r {
                Ok(()) => {
                    &&& old(self).devices@[port as int] is None
                    &&& final(self).devices@ == old(self).devices@.update(
                        port as int,
                        Some(device),
                    )
                },
                Err(e) => {
                    &&& e == SetupError::SlotOccupied
                    &&& old(self).devices@[port as int] is Some
                    &&& final(self).devices@ == old(self).devices@
                },
            },
    {
        if self.devices[port as usize].is_some() {
            return Err(SetupError::SlotOccupied);
        }
        self.devices.set(port as usize, Some(device));
        Ok(())
    }

    /// Copies a ROM image into memory at 0x0100 and resets the program
    /// counter there.  Fails with `RomTooLarge`, changing nothing, exactly
    /// when the image runs past the end of memory.
    pub fn load_rom(&mut self, rom: &[u8]) -> (r: Result<(), SetupError>)
        requires
            old(self).wf(),
        ensures
            final(self).wf(),
            stk_eq(final(self).wst, old(self).wst),
            stk_eq(final(self).rst, old(self).rst),
            final(self).devices@ == old(self).devices@,
            match r {
                Ok(()) => {
                    &&& rom@.len() <= 0xfeff
                    &&& final(self).pc == 0x0100
                    &&& forall|i: int|
                        0 <= i < 0x10000 ==> final(self).mem@[i] == (
                            if 0x100 <= i < 0x100 + rom@.len() {
                                rom@[i - 0x100]
                            } else {
                                old(self).mem@[i]
                            }
                        )
                },
                Err(e) => {
                    &&& e == SetupError::RomTooLarge
                    &&& rom@.len() > 0xfeff
                    &&& final(self).mem@ == old(self).mem@
                    &&& final(self).pc == old(self).pc
                },
            },
    {
        if rom.len() > 0xfeff {
            return Err(SetupError::RomTooLarge);
        }
        let mut i: usize = 0;
        while i < rom.len()
            invariant
                i <= rom@.len(),
                rom@.len() <= 0xfeff,
                self.mem@.len() == 0x10000,
                self.pc == old(self).pc,
                stk_eq(self.wst, old(self).wst),
                stk_eq(self.rst, old(self).rst),
                self.devices@ == old(self).devices@,
                forall|j: int| 0x100 <= j < 0x100 + i ==> self.mem@[j] == rom@[j - 0x100],
                forall|j: int|
                    0 <= j < 0x10000 && !(0x100 <= j < 0x100 + i) ==> self.mem@[j] == old(
                        self,
                    ).mem@[j],
            decreases rom@.len() - i,
        {
            let b = rom[i];
            self.mem.set(0x100 + i, b);
            i = i + 1;
        }
        self.pc = 0x0100;
        Ok(())
    }

    /// Reduces a 17-bit-or-so intermediate to a 16-bit value, as every
    /// address computation of the machine does.
    fn w16(a: u32) -> (r: u16)
        ensures
            r == wrap16(a as int),
    {
        (a % 0x10000) as u16
    }

    /// The memory byte at `addr`.
    fn mem_get(&self, addr: u16) -> (b: u8)
        requires
            self.mem@.len() == 0x10000,
        ensures
            b == mem_at(self.mem@, addr as int),
    {
        self.mem[addr as usize]
    }

    /// A load of width `sh` at `addr`, the second address wrapping.
    fn mem_read(&self, addr: u16, sh: bool) -> (v: u16)
        requires
            self.mem@.len() == 0x10000,
        ensures
            v == peek(self.mem@, addr as int, sh),
    {
        if sh {
            let hi = self.mem_get(addr);
            let lo = self.mem_get(addr.wrapping_add(1));
            proof {
                assert((addr as int + 1) % 0x10000 == addr.wrapping_add(1) as int % 0x10000);
            }
            (hi as u16) * 256 + (lo as u16)
        } else {
            self.mem_get(addr) as u16
        }
    }

    /// A store of width `sh` at `addr`, the second address wrapping.  Only
    /// memory changes.
    fn mem_write(&mut self, addr: u16, v: u16, sh: bool)
        requires
            old(self).mem@.len() == 0x10000,
        ensures
            final(self).mem@ == poke(old(self).mem@, addr as int, v, sh),
            final(self).mem@.len() == 0x10000,
            final(self).pc == old(self).pc,
            stk_eq(final(self).wst, old(self).wst),
            stk_eq(final(self).rst, old(self).rst),
            final(self).devices@ == old(self).devices@,
    {
        if sh {
            self.mem.set(addr as usize, (v / 256) as u8);
            let a2 = addr.wrapping_add(1);
            self.mem.set(a2 as usize, (v % 256) as u8);
            proof {
                assert((addr as int + 1) % 0x10000 == a2 as int % 0x10000);
                assert(final(self).mem@ =~= poke(old(self).mem@, addr as int, v, true));
            }
        } else {
            self.mem.set(addr as usize, (v % 256) as u8);
            proof {
                assert(final(self).mem@ =~= poke(old(self).mem@, addr as int, v, false));
            }
        }
    }

    /// Depth of the source stack of an instruction with return flag `r`.
    fn src_len(&self, r: bool) -> (n: usize)
        ensures
            n == self.src_stk(r).data@.len(),
    {
        if r {
            self.rst.data.len()
        } else {
            self.wst.data.len()
        }
    }

    /// Depth of the destination stack.
    fn dst_len(&self, r: bool) -> (n: usize)
        ensures
            n == self.dst_stk(r).data@.len(),
    {
        if r {
            self.wst.data.len()
        } else {
            self.rst.data.len()
        }
    }

    /// Sets or clears keep mode on the source stack.
    fn set_keep(&mut self, r: bool, m: bool)
        requires
            old(self).src_stk(r).wf(),
        ensures
            final(self).src_stk(r).wf(),
            final(self).src_stk(r).data@ == old(self).src_stk(r).data@,
            final(self).src_stk(r).keep_mode == m,
            final(self).src_stk(r).pop_offset == 0,
            stk_eq(final(self).dst_stk(r), old(self).dst_stk(r)),
            final(self).mem@ == old(self).mem@,
            final(self).pc == old(self).pc,
            final(self).devices@ == old(self).devices@,
    {
        if r {
            self.rst.set_keep_mode(m);
        } else {
            self.wst.set_keep_mode(m);
        }
    }

    /// Pops one byte from the source stack; the caller has checked that one
    /// is available.
    fn pop_one(&mut self, r: bool) -> (b: u8)
        requires
            old(self).src_stk(r).wf(),
            old(self).src_stk(r).avail() >= 1,
        ensures
            final(self).src_stk(r).wf(),
            final(self).src_stk(r).keep_mode == old(self).src_stk(r).keep_mode,
            if old(self).src_stk(r).keep_mode {
                &&& b == top_at(
                    old(self).src_stk(r).data@,
                    old(self).src_stk(r).pop_offset as int,
                )
                &&& final(self).src_stk(r).data@ == old(self).src_stk(r).data@
                &&& final(self).src_stk(r).pop_offset == old(self).src_stk(r).pop_offset + 1
            } else {
                &&& b == top_at(old(self).src_stk(r).data@, 0)
                &&& final(self).src_stk(r).data@ == old(self).src_stk(r).data@.take(
                    old(self).src_stk(r).data@.len() - 1,
                )
                &&& final(self).src_stk(r).pop_offset == 0
            },
            stk_eq(final(self).dst_stk(r), old(self).dst_stk(r)),
            final(self).mem@ == old(self).mem@,
            final(self).pc == old(self).pc,
            final(self).devices@ == old(self).devices@,
    {
        let res = if r {
            self.rst.pop_byte()
        } else {
            self.wst.pop_byte()
        };
        match res {
            Ok(b) => b,
            Err(_) => {
                proof {
                    assert(false);
                }
                0
            },
        }
    }

    /// Pops a value of width `sh` from the source stack; the caller has
    /// checked that enough bytes are available.
    fn pop_val(&mut self, r: bool, sh: bool) -> (v: u16)
        requires
            old(self).src_stk(r).wf(),
            old(self).src_stk(r).avail() >= width(sh),
        ensures
            final(self).src_stk(r).wf(),
            final(self).src_stk(r).keep_mode == old(self).src_stk(r).keep_mode,
            v < if sh { 0x10000int } else { 0x100int },
            if old(self).src_stk(r).keep_mode {
                &&& v == top_val(
                    old(self).src_stk(r).data@,
                    old(self).src_stk(r).pop_offset as int,
                    sh,
                )
                &&& final(self).src_stk(r).data@ == old(self).src_stk(r).data@
                &&& final(self).src_stk(r).pop_offset == old(self).src_stk(r).pop_offset
                    + width(sh)
            } else {
                &&& v == top_val(old(self).src_stk(r).data@, 0, sh)
                &&& final(self).src_stk(r).data@ == old(self).src_stk(r).data@.take(
                    old(self).src_stk(r).data@.len() - width(sh),
                )
                &&& final(self).src_stk(r).pop_offset == 0
            },
            stk_eq(final(self).dst_stk(r), old(self).dst_stk(r)),
            final(self).mem@ == old(self).mem@,
            final(self).pc == old(self).pc,
            final(self).devices@ == old(self).devices@,
    {
        if sh {
            let lo = self.pop_one(r);
            let hi = self.pop_one(r);
            proof {
                if !old(self).src_stk(r).keep_mode {
                    assert(final(self).src_stk(r).data@ =~= old(self).src_stk(r).data@.take(
                        old(self).src_stk(r).data@.len() - 2,
                    ));
                }
            }
            (hi as u16) * 256 + (lo as u16)
        } else {
            self.pop_one(r) as u16
        }
    }

    /// Pushes one byte onto the source stack; the caller has checked the
    /// room.
    fn push_one(&mut self, r: bool, b: u8)
        requires
            old(self).src_stk(r).wf(),
            old(self).src_stk(r).data@.len() < 255,
        ensures
            final(self).src_stk(r).wf(),
            final(self).src_stk(r).keep_mode == old(self).src_stk(r).keep_mode,
            final(self).src_stk(r).data@ == old(self).src_stk(r).data@.push(b),
            final(self).src_stk(r).pop_offset == old(self).src_stk(r).pop_offset + (
                if old(self).src_stk(r).keep_mode { 1int } else { 0int }
            ),
            stk_eq(final(self).dst_stk(r), old(self).dst_stk(r)),
            final(self).mem@ == old(self).mem@,
            final(self).pc == old(self).pc,
            final(self).devices@ == old(self).devices@,
    {
        let res = if r {
            self.rst.push_byte(b)
        } else {
            self.wst.push_byte(b)
        };
        match res {
            Ok(()) => {},
            Err(_) => {
                proof {
                    assert(false);
                }
            },
        }
    }

    /// Pushes a value of width `sh` onto the source stack; the caller has
    /// checked the room.
    fn push_val(&mut self, r: bool, sh: bool, v: u16)
        requires
            old(self).src_stk(r).wf(),
            old(self).src_stk(r).data@.len() + width(sh) <= 255,
        ensures
            final(self).src_stk(r).wf(),
            final(self).src_stk(r).keep_mode == old(self).src_stk(r).keep_mode,
            final(self).src_stk(r).data@ == old(self).src_stk(r).data@ + be_bytes(v, sh),
            final(self).src_stk(r).pop_offset == old(self).src_stk(r).pop_offset + (
                if old(self).src_stk(r).keep_mode { width(sh) } else { 0int }
            ),
            stk_eq(final(self).dst_stk(r), old(self).dst_stk(r)),
            final(self).mem@ == old(self).mem@,
            final(self).pc == old(self).pc,
            final(self).devices@ == old(self).devices@,
    {
        if sh {
            self.push_one(r, (v / 256) as u8);
            self.push_one(r, (v % 256) as u8);
            proof {
                assert(final(self).src_stk(r).data@ =~= old(self).src_stk(r).data@ + be_bytes(
                    v,
                    true,
                ));
            }
        } else {
            self.push_one(r, (v % 256) as u8);
            proof {
                assert(final(self).src_stk(r).data@ =~= old(self).src_stk(r).data@ + be_bytes(
                    v,
                    false,
                ));
            }
        }
    }
    /// The opcode effect holds between `self` (post-fetch) and `post`, with
    /// device input `d0`, `d1`.
    pub open spec fn op_matches(
        self,
        post: Self,
        op: u8,
        k: bool,
        r: bool,
        sh: bool,
        d0: u8,
        d1: u8,
    ) -> bool {
        match op_eff(
            op,
            k,
            sh,
            self.src_stk(r).data@,
            self.dst_stk(r).data@,
            self.mem@,
            self.pc,
            d0,
            d1,
        ) {
            OpEff::Go { src, dst, mem, pc } => {
                &&& post.src_stk(r).data@ == src
                &&& post.dst_stk(r).data@ == dst
                &&& post.mem@ == mem
                &&& post.pc == pc
            },
            OpEff::Fail(_) => false,
        }
    }

    /// The opcode faults with `f` between `self` (post-fetch) and `post`,
    /// which is left exactly at the post-fetch state.
    pub open spec fn op_faults(
        self,
        post: Self,
        op: u8,
        k: bool,
        r: bool,
        sh: bool,
        f: Fault,
        d0: u8,
        d1: u8,
    ) -> bool {
        &&& op_eff(
            op,
            k,
            sh,
            self.src_stk(r).data@,
            self.dst_stk(r).data@,
            self.mem@,
            self.pc,
            d0,
            d1,
        ) == OpEff::Fail(f)
        &&& post.vm() == self.vm()
    }

    /// `pc` displaced by the byte `b` read as a signed 8-bit offset.
    fn rel(pc: u16, b: u8) -> (r: u16)
        ensures
            r == rel_pc(pc, b),
    {
        let adj: u32 = if b < 128 {
            0x10000 + b as u32
        } else {
            0xff00 + b as u32
        };
        Self::w16(pc as u32 + adj)
    }

    /// The arithmetic and bitwise opcodes on already-popped operands.
    fn alu_exec(op: u8, a: u16, b: u16, sh: bool) -> (v: u16)
        requires
            0x18 <= op <= 0x1e,
            !sh ==> a < 0x100 && b < 0x100,
        ensures
            v == alu(op, a, b, sh),
    {
        let m: u32 = if sh {
            0x10000
        } else {
            0x100
        };
        if op == 0x18 {
            ((a as u32 + b as u32) % m) as u16
        } else if op == 0x19 {
            let v = ((a as u32 + m - b as u32) % m) as u16;
            proof {
                assert(v == wrapv(a - b, sh)) by {
                    if a >= b {
                        assert((a + m - b) % (m as int) == a - b);
                        assert((a - b) % (m as int) == a - b);
                    } else {
                        assert((a + m - b) % (m as int) == a - b + m);
                        assert((a - b) % (m as int) == a - b + m);
                    }
                }
            }
            v
        } else if op == 0x1a {
            proof {
                assert((a as int) * (b as int) < 0x100000000) by (nonlinear_arith)
                    requires
                        a < 0x10000,
                        b < 0x10000,
                ;
            }
            ((a as u32 * b as u32) % m) as u16
        } else if op == 0x1b {
            if b == 0 {
                0
            } else {
                a / b
            }
        } else if op == 0x1c {
            a & b
        } else if op == 0x1d {
            a | b
        } else {
            a ^ b
        }
    }

    /// The shift opcode on already-popped operands.
    fn sft_exec(v: u16, s: u8, sh: bool) -> (r: u16)
        ensures
            r == sft(v, s, sh),
    {
        proof {
            assert((s & 0x0f) < 16 && ((s >> 4) & 0x0f) < 16) by (bit_vector);
        }
        let right: u32 = (s & 0x0f) as u32;
        let left: u32 = ((s >> 4) & 0x0f) as u32;
        let x: u32 = ((v as u32) >> right) << left;
        if sh {
            (x % 0x10000) as u16
        } else {
            (x % 0x100) as u16
        }
    }

    /// One device-gateway read: the mounted device's value at the port, or 0
    /// from an empty slot.  Stacks, memory and the program counter are
    /// untouched.
    fn dev_get(&mut self, slot: u8, lo: u8) -> (b: u8)
        requires
            old(self).devices@.len() == 16,
            slot < 16,
        ensures
            final(self).devices@.len() == 16,
            b == old(self).dev_read(slot, lo),
            final(self).devices@ == old(self).devices@.update(
                slot as int,
                final(self).devices@[slot as int],
            ),
            Self::dev_reads_preserved(*old(self), *final(self)),
            stk_eq(final(self).wst, old(self).wst),
            stk_eq(final(self).rst, old(self).rst),
            final(self).mem@ == old(self).mem@,
            final(self).pc == old(self).pc,
    {
        let idx = slot as usize;
        let d = self.devices.remove(idx);
        let b: u8;
        let d2: Option<D>;
        match d {
            Some(mut dev) => {
                b = dev.get(lo);
                d2 = Some(dev);
            },
            None => {
                b = 0;
                d2 = None;
            },
        }
        self.devices.insert(idx, d2);
        proof {
            assert(self.devices@ =~= old(self).devices@.update(slot as int, d2));
            assert forall|s2: u8, p: u8| s2 < 16 implies #[trigger] self.dev_read(s2, p) == old(
                self,
            ).dev_read(s2, p) by {
                if s2 != slot {
                    assert(self.devices@[s2 as int] == old(self).devices@[s2 as int]);
                }
            }
        }
        b
    }

    /// One device-gateway write of the given width; an empty slot discards
    /// it.  Stacks, memory and the program counter are untouched.
    fn dev_put(&mut self, slot: u8, lo: u8, v: u16, sh: bool)
        requires
            old(self).devices@.len() == 16,
            slot < 16,
            !sh ==> v < 0x100,
        ensures
            final(self).devices@.len() == 16,
            final(self).devices@ == old(self).devices@.update(
                slot as int,
                final(self).devices@[slot as int],
            ),
            match (old(self).devices@[slot as int], final(self).devices@[slot as int]) {
                (Some(d), Some(d2)) => if sh {
                    d.write_short_ok(d2, lo, v)
                } else {
                    d.write_byte_ok(d2, lo, (v % 256) as u8)
                },
                (None, None) => true,
                _ => false,
            },
            stk_eq(final(self).wst, old(self).wst),
            stk_eq(final(self).rst, old(self).rst),
            final(self).mem@ == old(self).mem@,
            final(self).pc == old(self).pc,
    {
        let idx = slot as usize;
        let d = self.devices.remove(idx);
        let d2: Option<D>;
        match d {
            Some(mut dev) => {
                if sh {
                    dev.set_short(lo, v);
                } else {
                    dev.set_byte(lo, v as u8);
                }
                d2 = Some(dev);
            },
            None => {
                d2 = None;
            },
        }
        self.devices.insert(idx, d2);
        proof {
            assert(self.devices@ =~= old(self).devices@.update(slot as int, d2));
        }
    }

    /// INC: pop a value, push its successor, wrapping at the operand width.
    #[verifier::rlimit(100)]
    #[verifier::spinoff_prover]
    fn do_inc(&mut self, k: bool, r: bool, sh: bool) -> (out: Result<(), Fault>)
        requires
            old(self).wf(),
        ensures
            final(self).wf(),
            final(self).devices@ == old(self).devices@,
            match out {
                Ok(()) => old(self).op_matches(*final(self), 0x01, k, r, sh, 0, 0),
                Err(f) => old(self).op_faults(*final(self), 0x01, k, r, sh, f, 0, 0),
            },
    {
        let w: usize = if sh {
            2
        } else {
            1
        };
        let len = self.src_len(r);
        if len < w {
            return Err(Fault::StackUnderflow);
        }
        let nl = if k {
            len + w
        } else {
            len
        };
        if nl > 255 {
            return Err(Fault::StackOverflow);
        }
        if k {
            self.set_keep(r, true);
        }
        let v = self.pop_val(r, sh);
        let m: u32 = if sh {
            0x10000
        } else {
            0x100
        };
        let res = ((v as u32 + 1) % m) as u16;
        self.push_val(r, sh, res);
        if k {
            self.set_keep(r, false);
        }
        proof {
            assert(self.src_stk(r).data@ =~= src_out(
                old(self).src_stk(r).data@,
                w as int,
                k,
                be_bytes(wrapv(top_val(old(self).src_stk(r).data@, 0, sh) + 1, sh), sh),
            ));
        }
        Ok(())
    }

    /// POP: pop a value and discard it.
    #[verifier::rlimit(100)]
    #[verifier::spinoff_prover]
    fn do_pop(&mut self, k: bool, r: bool, sh: bool) -> (out: Result<(), Fault>)
        requires
            old(self).wf(),
        ensures
            final(self).wf(),
            final(self).devices@ == old(self).devices@,
            match out {
                Ok(()) => old(self).op_matches(*final(self), 0x02, k, r, sh, 0, 0),
                Err(f) => old(self).op_faults(*final(self), 0x02, k, r, sh, f, 0, 0),
            },
    {
        let w: usize = if sh {
            2
        } else {
            1
        };
        let len = self.src_len(r);
        if len < w {
            return Err(Fault::StackUnderflow);
        }
        if k {
            self.set_keep(r, true);
        }
        let _ = self.pop_val(r, sh);
        if k {
            self.set_keep(r, false);
        }
        proof {
            assert(self.src_stk(r).data@ =~= src_out(
                old(self).src_stk(r).data@,
                w as int,
                k,
                Seq::empty(),
            ));
        }
        Ok(())
    }

    /// SWP: exchange the top two values.
    #[verifier::rlimit(100)]
    #[verifier::spinoff_prover]
    fn do_swp(&mut self, k: bool, r: bool, sh: bool) -> (out: Result<(), Fault>)
        requires
            old(self).wf(),
        ensures
            final(self).wf(),
            final(self).devices@ == old(self).devices@,
            match out {
                Ok(()) => old(self).op_matches(*final(self), 0x04, k, r, sh, 0, 0),
                Err(f) => old(self).op_faults(*final(self), 0x04, k, r, sh, f, 0, 0),
            },
    {
        let w: usize = if sh {
            2
        } else {
            1
        };
        let len = self.src_len(r);
        if len < 2 * w {
            return Err(Fault::StackUnderflow);
        }
        let nl = if k {
            len + 2 * w
        } else {
            len
        };
        if nl > 255 {
            return Err(Fault::StackOverflow);
        }
        if k {
            self.set_keep(r, true);
        }
        let a = self.pop_val(r, sh);
        let b = self.pop_val(r, sh);
        self.push_val(r, sh, a);
        self.push_val(r, sh, b);
        if k {
            self.set_keep(r, false);
        }
        proof {
            let s0 = old(self).src_stk(r).data@;
            let wd = width(sh);
            let p1 = be_bytes(a, sh);
            let p2 = be_bytes(b, sh);
            let base = if k {
                s0
            } else {
                s0.take(s0.len() - 2 * wd)
            };
            assert(a == top_val(s0, 0, sh));
            if !k {
                lemma_top_take(s0, wd, 0, sh);
                assert(b == top_val(s0, wd, sh));
                lemma_take_take(s0, s0.len() - wd, s0.len() - 2 * wd);
            } else {
                assert(b == top_val(s0, wd, sh));
            }
            lemma_concat_assoc(base, p1, p2);
            assert(self.src_stk(r).data@ == src_out(s0, 2 * wd, k, p1 + p2));
        }
        Ok(())
    }

    /// NIP: drop the value under the top.
    #[verifier::rlimit(100)]
    #[verifier::spinoff_prover]
    fn do_nip(&mut self, k: bool, r: bool, sh: bool) -> (out: Result<(), Fault>)
        requires
            old(self).wf(),
        ensures
            final(self).wf(),
            final(self).devices@ == old(self).devices@,
            match out {
                Ok(()) => old(self).op_matches(*final(self), 0x03, k, r, sh, 0, 0),
                Err(f) => old(self).op_faults(*final(self), 0x03, k, r, sh, f, 0, 0),
            },
    {
        let w: usize = if sh {
            2
        } else {
            1
        };
        let len = self.src_len(r);
        if len < 2 * w {
            return Err(Fault::StackUnderflow);
        }
        let nl = if k {
            len + w
        } else {
            len - w
        };
        if nl > 255 {
            return Err(Fault::StackOverflow);
        }
        if k {
            self.set_keep(r, true);
        }
        let a = self.pop_val(r, sh);
        let ghost s1 = self.src_stk(r).data@;
        let _ = self.pop_val(r, sh);
        if k {
            self.set_keep(r, false);
        }
        self.push_val(r, sh, a);
        proof {
            let s0 = old(self).src_stk(r).data@;
            let wd = width(sh);
            let pushed = be_bytes(a, sh);
            assert(a == top_val(s0, 0, sh));
            if !k {
                assert(s1.take(s1.len() - wd) =~= s0.take(s0.len() - 2 * wd));
                assert(self.src_stk(r).data@ =~= s0.take(s0.len() - 2 * wd) + pushed);
            } else {
                assert(self.src_stk(r).data@ =~= s0 + pushed);
            }
            assert(self.src_stk(r).data@ == src_out(s0, 2 * wd, k, pushed));
        }
        Ok(())
    }

    /// ROT: rotate the top three values, the third coming to the top.
    #[verifier::rlimit(100)]
    #[verifier::spinoff_prover]
    fn do_rot(&mut self, k: bool, r: bool, sh: bool) -> (out: Result<(), Fault>)
        requires
            old(self).wf(),
        ensures
            final(self).wf(),
            final(self).devices@ == old(self).devices@,
            match out {
                Ok(()) => old(self).op_matches(*final(self), 0x05, k, r, sh, 0, 0),
                Err(f) => old(self).op_faults(*final(self), 0x05, k, r, sh, f, 0, 0),
            },
    {
        let w: usize = if sh {
            2
        } else {
            1
        };
        let len = self.src_len(r);
        if len < 3 * w {
            return Err(Fault::StackUnderflow);
        }
        let nl = if k {
            len + 3 * w
        } else {
            len
        };
        if nl > 255 {
            return Err(Fault::StackOverflow);
        }
        self.rot_go(k, r, sh);
        Ok(())
    }

    /// The successful path of ROT, once the depth checks have passed.
    #[verifier::rlimit(100)]
    #[verifier::spinoff_prover]
    fn rot_go(&mut self, k: bool, r: bool, sh: bool)
        requires
            old(self).wf(),
            old(self).src_stk(r).data@.len() >= 3 * width(sh),
            out_len(old(self).src_stk(r).data@.len() as int, 3 * width(sh), k, 3 * width(sh))
                <= 255,
        ensures
            final(self).wf(),
            final(self).devices@ == old(self).devices@,
            old(self).op_matches(*final(self), 0x05, k, r, sh, 0, 0),
    {
        if k {
            self.set_keep(r, true);
        }
        let a = self.pop_val(r, sh);
        let b = self.pop_val(r, sh);
        let ghost s2 = self.src_stk(r).data@;
        let c = self.pop_val(r, sh);
        if k {
            self.set_keep(r, false);
        }
        self.push_val(r, sh, b);
        self.push_val(r, sh, a);
        self.push_val(r, sh, c);
        proof {
            let s0 = old(self).src_stk(r).data@;
            let wd = width(sh);
            let p1 = be_bytes(b, sh);
            let p2 = be_bytes(a, sh);
            let p3 = be_bytes(c, sh);
            let base = if k {
                s0
            } else {
                s0.take(s0.len() - 3 * wd)
            };
            assert(a == top_val(s0, 0, sh));
            if !k {
                lemma_top_take(s0, wd, 0, sh);
                assert(b == top_val(s0, wd, sh));
                lemma_take_take(s0, s0.len() - wd, s0.len() - 2 * wd);
                assert(s2 == s0.take(s0.len() - 2 * wd));
                lemma_top_take(s0, 2 * wd, 0, sh);
                assert(c == top_val(s0, 2 * wd, sh));
                lemma_take_take(s0, s0.len() - 2 * wd, s0.len() - 3 * wd);
            } else {
                assert(b == top_val(s0, wd, sh));
                assert(c == top_val(s0, 2 * wd, sh));
            }
            lemma_concat_assoc(base + p1, p2, p3);
            lemma_concat_assoc(base, p1, p2 + p3);
            lemma_concat_assoc(p1, p2, p3);
            assert(self.src_stk(r).data@ == src_out(s0, 3 * wd, k, p1 + p2 + p3));
        }
    }

    /// DUP: duplicate the top value.
    #[verifier::rlimit(100)]
    #[verifier::spinoff_prover]
    fn do_dup(&mut self, k: bool, r: bool, sh: bool) -> (out: Result<(), Fault>)
        requires
            old(self).wf(),
        ensures
            final(self).wf(),
            final(self).devices@ == old(self).devices@,
            match out {
                Ok(()) => old(self).op_matches(*final(self), 0x06, k, r, sh, 0, 0),
                Err(f) => old(self).op_faults(*final(self), 0x06, k, r, sh, f, 0, 0),
            },
    {
        let w: usize = if sh {
            2
        } else {
            1
        };
        let len = self.src_len(r);
        if len < w {
            return Err(Fault::StackUnderflow);
        }
        let nl = if k {
            len + 2 * w
        } else {
            len + w
        };
        if nl > 255 {
            return Err(Fault::StackOverflow);
        }
        if k {
            self.set_keep(r, true);
        }
        let a = self.pop_val(r, sh);
        if k {
            self.set_keep(r, false);
        }
        self.push_val(r, sh, a);
        self.push_val(r, sh, a);
        proof {
            let s0 = old(self).src_stk(r).data@;
            let wd = width(sh);
            let p = be_bytes(a, sh);
            let base = if k {
                s0
            } else {
                s0.take(s0.len() - wd)
            };
            assert(a == top_val(s0, 0, sh));
            lemma_concat_assoc(base, p, p);
            assert(self.src_stk(r).data@ == src_out(s0, wd, k, p + p));
        }
        Ok(())
    }

    /// OVR: push a copy of the value under the top.
    #[verifier::rlimit(100)]
    #[verifier::spinoff_prover]
    fn do_ovr(&mut self, k: bool, r: bool, sh: bool) -> (out: Result<(), Fault>)
        requires
            old(self).wf(),
        ensures
            final(self).wf(),
            final(self).devices@ == old(self).devices@,
            match out {
                Ok(()) => old(self).op_matches(*final(self), 0x07, k, r, sh, 0, 0),
                Err(f) => old(self).op_faults(*final(self), 0x07, k, r, sh, f, 0, 0),
            },
    {
        let w: usize = if sh {
            2
        } else {
            1
        };
        let len = self.src_len(r);
        if len < 2 * w {
            return Err(Fault::StackUnderflow);
        }
        let nl = if k {
            len + 3 * w
        } else {
            len + w
        };
        if nl > 255 {
            return Err(Fault::StackOverflow);
        }
        self.ovr_go(k, r, sh);
        Ok(())
    }

    /// The successful path of OVR, once the depth checks have passed.
    #[verifier::rlimit(100)]
    #[verifier::spinoff_prover]
    fn ovr_go(&mut self, k: bool, r: bool, sh: bool)
        requires
            old(self).wf(),
            old(self).src_stk(r).data@.len() >= 2 * width(sh),
            out_len(old(self).src_stk(r).data@.len() as int, 2 * width(sh), k, 3 * width(sh))
                <= 255,
        ensures
            final(self).wf(),
            final(self).devices@ == old(self).devices@,
            old(self).op_matches(*final(self), 0x07, k, r, sh, 0, 0),
    {
        if k {
            self.set_keep(r, true);
        }
        let a = self.pop_val(r, sh);
        let b = self.pop_val(r, sh);
        if k {
            self.set_keep(r, false);
        }
        self.push_val(r, sh, b);
        self.push_val(r, sh, a);
        self.push_val(r, sh, b);
        proof {
            let s0 = old(self).src_stk(r).data@;
            let wd = width(sh);
            let p1 = be_bytes(b, sh);
            let p2 = be_bytes(a, sh);
            let p3 = be_bytes(b, sh);
            let base = if k {
                s0
            } else {
                s0.take(s0.len() - 2 * wd)
            };
            assert(a == top_val(s0, 0, sh));
            if !k {
                lemma_top_take(s0, wd, 0, sh);
                assert(b == top_val(s0, wd, sh));
                lemma_take_take(s0, s0.len() - wd, s0.len() - 2 * wd);
            } else {
                assert(b == top_val(s0, wd, sh));
            }
            lemma_concat_assoc(base + p1, p2, p3);
            lemma_concat_assoc(base, p1, p2 + p3);
            lemma_concat_assoc(p1, p2, p3);
            assert(self.src_stk(r).data@ == src_out(s0, 2 * wd, k, p1 + p2 + p3));
        }
    }

    /// EQU, NEQ, GTH, LTH: compare the two top values and push a 0/1 byte.
    #[verifier::rlimit(100)]
    #[verifier::spinoff_prover]
    fn do_cmp(&mut self, op: u8, k: bool, r: bool, sh: bool) -> (out: Result<(), Fault>)
        requires
            old(self).wf(),
            0x08 <= op <= 0x0b,
        ensures
            final(self).wf(),
            final(self).devices@ == old(self).devices@,
            match out {
                Ok(()) => old(self).op_matches(*final(self), op, k, r, sh, 0, 0),
                Err(f) => old(self).op_faults(*final(self), op, k, r, sh, f, 0, 0),
            },
    {
        let w: usize = if sh {
            2
        } else {
            1
        };
        let len = self.src_len(r);
        if len < 2 * w {
            return Err(Fault::StackUnderflow);
        }
        let nl = if k {
            len + 1
        } else {
            len - 2 * w + 1
        };
        if nl > 255 {
            return Err(Fault::StackOverflow);
        }
        if k {
            self.set_keep(r, true);
        }
        let b = self.pop_val(r, sh);
        let a = self.pop_val(r, sh);
        if k {
            self.set_keep(r, false);
        }
        let c: u8 = if op == 0x08 {
            if a == b {
                1
            } else {
                0
            }
        } else if op == 0x09 {
            if a != b {
                1
            } else {
                0
            }
        } else if op == 0x0a {
            if a > b {
                1
            } else {
                0
            }
        } else {
            if a < b {
                1
            } else {
                0
            }
        };
        self.push_one(r, c);
        proof {
            let s0 = old(self).src_stk(r).data@;
            let wd = width(sh);
            assert(c == cmp_byte(op, a, b));
            assert(b == top_val(s0, 0, sh));
            if !k {
                lemma_top_take(s0, wd, 0, sh);
                assert(a == top_val(s0, wd, sh));
                assert(self.src_stk(r).data@ =~= s0.take(s0.len() - 2 * wd) + seq![c]);
            } else {
                assert(a == top_val(s0, wd, sh));
                assert(self.src_stk(r).data@ =~= s0 + seq![c]);
            }
            assert(self.src_stk(r).data@ == src_out(s0, 2 * wd, k, seq![cmp_byte(op, a, b)]));
        }
        Ok(())
    }

    /// JMP: jump to an absolute address (short mode) or by a signed offset.
    #[verifier::rlimit(100)]
    #[verifier::spinoff_prover]
    fn do_jmp(&mut self, k: bool, r: bool, sh: bool) -> (out: Result<(), Fault>)
        requires
            old(self).wf(),
        ensures
            final(self).wf(),
            final(self).devices@ == old(self).devices@,
            match out {
                Ok(()) => old(self).op_matches(*final(self), 0x0c, k, r, sh, 0, 0),
                Err(f) => old(self).op_faults(*final(self), 0x0c, k, r, sh, f, 0, 0),
            },
    {
        let w: usize = if sh {
            2
        } else {
            1
        };
        let len = self.src_len(r);
        if len < w {
            return Err(Fault::StackUnderflow);
        }
        if k {
            self.set_keep(r, true);
        }
        let addr = self.pop_val(r, sh);
        if k {
            self.set_keep(r, false);
        }
        let t = if sh {
            addr
        } else {
            Self::rel(self.pc, addr as u8)
        };
        self.pc = t;
        proof {
            let s0 = old(self).src_stk(r).data@;
            let wd = width(sh);
            let base = if k {
                s0
            } else {
                s0.take(s0.len() - wd)
            };
            lemma_concat_empty(base);
            assert(self.src_stk(r).data@ == src_out(s0, wd, k, Seq::empty()));
            assert(t == jump_target(old(self).pc, top_val(s0, 0, sh), sh));
        }
        Ok(())
    }

    /// JCN: pop a target and a condition byte; jump when the byte is
    /// non-zero.
    #[verifier::rlimit(100)]
    #[verifier::spinoff_prover]
    fn do_jcn(&mut self, k: bool, r: bool, sh: bool) -> (out: Result<(), Fault>)
        requires
            old(self).wf(),
        ensures
            final(self).wf(),
            final(self).devices@ == old(self).devices@,
            match out {
                Ok(()) => old(self).op_matches(*final(self), 0x0d, k, r, sh, 0, 0),
                Err(f) => old(self).op_faults(*final(self), 0x0d, k, r, sh, f, 0, 0),
            },
    {
        let w: usize = if sh {
            2
        } else {
            1
        };
        let len = self.src_len(r);
        if len < w + 1 {
            return Err(Fault::StackUnderflow);
        }
        if k {
            self.set_keep(r, true);
        }
        let addr = self.pop_val(r, sh);
        let cond = self.pop_one(r);
        if k {
            self.set_keep(r, false);
        }
        let t = if sh {
            addr
        } else {
            Self::rel(self.pc, addr as u8)
        };
        if cond != 0 {
            self.pc = t;
        }
        proof {
            let s0 = old(self).src_stk(r).data@;
            let wd = width(sh);
            if !k {
                lemma_top_take(s0, wd, 0, false);
            }
            assert(cond == top_at(s0, wd));
            assert(self.src_stk(r).data@ =~= src_out(s0, wd + 1, k, Seq::empty()));
        }
        Ok(())
    }

    /// JSR: push the return address onto the destination stack and jump.
    #[verifier::rlimit(100)]
    #[verifier::spinoff_prover]
    fn do_jsr(&mut self, k: bool, r: bool, sh: bool) -> (out: Result<(), Fault>)
        requires
            old(self).wf(),
        ensures
            final(self).wf(),
            final(self).devices@ == old(self).devices@,
            match out {
                Ok(()) => old(self).op_matches(*final(self), 0x0e, k, r, sh, 0, 0),
                Err(f) => old(self).op_faults(*final(self), 0x0e, k, r, sh, f, 0, 0),
            },
    {
        let w: usize = if sh {
            2
        } else {
            1
        };
        let len = self.src_len(r);
        if len < w {
            return Err(Fault::StackUnderflow);
        }
        if self.dst_len(r) + 2 > 255 {
            return Err(Fault::StackOverflow);
        }
        if k {
            self.set_keep(r, true);
        }
        let addr = self.pop_val(r, sh);
        if k {
            self.set_keep(r, false);
        }
        let t = if sh {
            addr
        } else {
            Self::rel(self.pc, addr as u8)
        };
        let ret = self.pc;
        self.push_val(!r, true, ret);
        self.pc = t;
        proof {
            let s0 = old(self).src_stk(r).data@;
            let wd = width(sh);
            let base = if k {
                s0
            } else {
                s0.take(s0.len() - wd)
            };
            lemma_concat_empty(base);
            assert(self.src_stk(r).data@ == src_out(s0, wd, k, Seq::empty()));
            assert(t == jump_target(old(self).pc, top_val(s0, 0, sh), sh));
        }
        Ok(())
    }

    /// STH: move a value from the source stack to the destination stack.
    #[verifier::rlimit(100)]
    #[verifier::spinoff_prover]
    fn do_sth(&mut self, k: bool, r: bool, sh: bool) -> (out: Result<(), Fault>)
        requires
            old(self).wf(),
        ensures
            final(self).wf(),
            final(self).devices@ == old(self).devices@,
            match out {
                Ok(()) => old(self).op_matches(*final(self), 0x0f, k, r, sh, 0, 0),
                Err(f) => old(self).op_faults(*final(self), 0x0f, k, r, sh, f, 0, 0),
            },
    {
        let w: usize = if sh {
            2
        } else {
            1
        };
        let len = self.src_len(r);
        if len < w {
            return Err(Fault::StackUnderflow);
        }
        if self.dst_len(r) + w > 255 {
            return Err(Fault::StackOverflow);
        }
        if k {
            self.set_keep(r, true);
        }
        let v = self.pop_val(r, sh);
        if k {
            self.set_keep(r, false);
        }
        self.push_val(!r, sh, v);
        proof {
            let s0 = old(self).src_stk(r).data@;
            let wd = width(sh);
            assert(self.src_stk(r).data@ =~= src_out(s0, wd, k, Seq::empty()));
        }
        Ok(())
    }

    /// LDZ: pop a zero-page address byte and push the loaded value.
    #[verifier::rlimit(100)]
    #[verifier::spinoff_prover]
    fn do_ldz(&mut self, k: bool, r: bool, sh: bool) -> (out: Result<(), Fault>)
        requires
            old(self).wf(),
        ensures
            final(self).wf(),
            final(self).devices@ == old(self).devices@,
            match out {
                Ok(()) => old(self).op_matches(*final(self), 0x10, k, r, sh, 0, 0),
                Err(f) => old(self).op_faults(*final(self), 0x10, k, r, sh, f, 0, 0),
            },
    {
        let w: usize = if sh {
            2
        } else {
            1
        };
        let len = self.src_len(r);
        if len < 1 {
            return Err(Fault::StackUnderflow);
        }
        let nl = if k {
            len + w
        } else {
            len - 1 + w
        };
        if nl > 255 {
            return Err(Fault::StackOverflow);
        }
        if k {
            self.set_keep(r, true);
        }
        let a = self.pop_one(r);
        if k {
            self.set_keep(r, false);
        }
        let v = self.mem_read(a as u16, sh);
        self.push_val(r, sh, v);
        proof {
            let s0 = old(self).src_stk(r).data@;
            assert(a == top_at(s0, 0));
            assert(self.src_stk(r).data@ == src_out(
                s0,
                1,
                k,
                be_bytes(peek(old(self).mem@, top_at(s0, 0) as int, sh), sh),
            ));
        }
        Ok(())
    }

    /// STZ: pop a zero-page address byte and a value; store the value there.
    #[verifier::rlimit(100)]
    #[verifier::spinoff_prover]
    fn do_stz(&mut self, k: bool, r: bool, sh: bool) -> (out: Result<(), Fault>)
        requires
            old(self).wf(),
        ensures
            final(self).wf(),
            final(self).devices@ == old(self).devices@,
            match out {
                Ok(()) => old(self).op_matches(*final(self), 0x11, k, r, sh, 0, 0),
                Err(f) => old(self).op_faults(*final(self), 0x11, k, r, sh, f, 0, 0),
            },
    {
        let w: usize = if sh {
            2
        } else {
            1
        };
        let len = self.src_len(r);
        if len < 1 + w {
            return Err(Fault::StackUnderflow);
        }
        if k {
            self.set_keep(r, true);
        }
        let a = self.pop_one(r);
        let v = self.pop_val(r, sh);
        if k {
            self.set_keep(r, false);
        }
        self.mem_write(a as u16, v, sh);
        proof {
            let s0 = old(self).src_stk(r).data@;
            let wd = width(sh);
            assert(a == top_at(s0, 0));
            if !k {
                lemma_top_take(s0, 1, 0, sh);
                lemma_take_take(s0, s0.len() - 1, s0.len() - (1 + wd));
            }
            assert(v == top_val(s0, 1, sh));
            let base = if k {
                s0
            } else {
                s0.take(s0.len() - (1 + wd))
            };
            lemma_concat_empty(base);
            assert(self.src_stk(r).data@ == src_out(s0, 1 + wd, k, Seq::empty()));
        }
        Ok(())
    }

    /// LDR: pop a signed displacement byte and push the value loaded
    /// relative to the program counter.
    #[verifier::rlimit(100)]
    #[verifier::spinoff_prover]
    fn do_ldr(&mut self, k: bool, r: bool, sh: bool) -> (out: Result<(), Fault>)
        requires
            old(self).wf(),
        ensures
            final(self).wf(),
            final(self).devices@ == old(self).devices@,
            match out {
                Ok(()) => old(self).op_matches(*final(self), 0x12, k, r, sh, 0, 0),
                Err(f) => old(self).op_faults(*final(self), 0x12, k, r, sh, f, 0, 0),
            },
    {
        let w: usize = if sh {
            2
        } else {
            1
        };
        let len = self.src_len(r);
        if len < 1 {
            return Err(Fault::StackUnderflow);
        }
        let nl = if k {
            len + w
        } else {
            len - 1 + w
        };
        if nl > 255 {
            return Err(Fault::StackOverflow);
        }
        if k {
            self.set_keep(r, true);
        }
        let a = self.pop_one(r);
        if k {
            self.set_keep(r, false);
        }
        let t = Self::rel(self.pc, a);
        let v = self.mem_read(t, sh);
        self.push_val(r, sh, v);
        proof {
            let s0 = old(self).src_stk(r).data@;
            assert(a == top_at(s0, 0));
            assert(self.src_stk(r).data@ == src_out(
                s0,
                1,
                k,
                be_bytes(peek(old(self).mem@, rel_pc(old(self).pc, top_at(s0, 0)) as int, sh), sh),
            ));
        }
        Ok(())
    }

    /// STR: pop a signed displacement byte and a value; store the value
    /// relative to the program counter.
    #[verifier::rlimit(100)]
    #[verifier::spinoff_prover]
    fn do_str(&mut self, k: bool, r: bool, sh: bool) -> (out: Result<(), Fault>)
        requires
            old(self).wf(),
        ensures
            final(self).wf(),
            final(self).devices@ == old(self).devices@,
            match out {
                Ok(()) => old(self).op_matches(*final(self), 0x13, k, r, sh, 0, 0),
                Err(f) => old(self).op_faults(*final(self), 0x13, k, r, sh, f, 0, 0),
            },
    {
        let w: usize = if sh {
            2
        } else {
            1
        };
        let len = self.src_len(r);
        if len < 1 + w {
            return Err(Fault::StackUnderflow);
        }
        if k {
            self.set_keep(r, true);
        }
        let a = self.pop_one(r);
        let v = self.pop_val(r, sh);
        if k {
            self.set_keep(r, false);
        }
        let t = Self::rel(self.pc, a);
        self.mem_write(t, v, sh);
        proof {
            let s0 = old(self).src_stk(r).data@;
            let wd = width(sh);
            assert(a == top_at(s0, 0));
            if !k {
                lemma_top_take(s0, 1, 0, sh);
                lemma_take_take(s0, s0.len() - 1, s0.len() - (1 + wd));
            }
            assert(v == top_val(s0, 1, sh));
            let base = if k {
                s0
            } else {
                s0.take(s0.len() - (1 + wd))
            };
            lemma_concat_empty(base);
            assert(self.src_stk(r).data@ == src_out(s0, 1 + wd, k, Seq::empty()));
        }
        Ok(())
    }

    /// LDA: pop an absolute address short and push the loaded value.
    #[verifier::rlimit(100)]
    #[verifier::spinoff_prover]
    fn do_lda(&mut self, k: bool, r: bool, sh: bool) -> (out: Result<(), Fault>)
        requires
            old(self).wf(),
        ensures
            final(self).wf(),
            final(self).devices@ == old(self).devices@,
            match out {
                Ok(()) => old(self).op_matches(*final(self), 0x14, k, r, sh, 0, 0),
                Err(f) => old(self).op_faults(*final(self), 0x14, k, r, sh, f, 0, 0),
            },
    {
        let w: usize = if sh {
            2
        } else {
            1
        };
        let len = self.src_len(r);
        if len < 2 {
            return Err(Fault::StackUnderflow);
        }
        let nl = if k {
            len + w
        } else {
            len - 2 + w
        };
        if nl > 255 {
            return Err(Fault::StackOverflow);
        }
        if k {
            self.set_keep(r, true);
        }
        let addr = self.pop_val(r, true);
        if k {
            self.set_keep(r, false);
        }
        let v = self.mem_read(addr, sh);
        self.push_val(r, sh, v);
        proof {
            let s0 = old(self).src_stk(r).data@;
            assert(addr == top_val(s0, 0, true));
            assert(self.src_stk(r).data@ == src_out(
                s0,
                2,
                k,
                be_bytes(peek(old(self).mem@, top_val(s0, 0, true) as int, sh), sh),
            ));
        }
        Ok(())
    }

    /// STA: pop an absolute address short and a value; store the value
    /// there.
    #[verifier::rlimit(100)]
    #[verifier::spinoff_prover]
    fn do_sta(&mut self, k: bool, r: bool, sh: bool) -> (out: Result<(), Fault>)
        requires
            old(self).wf(),
        ensures
            final(self).wf(),
            final(self).devices@ == old(self).devices@,
            match out {
                Ok(()) => old(self).op_matches(*final(self), 0x15, k, r, sh, 0, 0),
                Err(f) => old(self).op_faults(*final(self), 0x15, k, r, sh, f, 0, 0),
            },
    {
        let w: usize = if sh {
            2
        } else {
            1
        };
        let len = self.src_len(r);
        if len < 2 + w {
            return Err(Fault::StackUnderflow);
        }
        if k {
            self.set_keep(r, true);
        }
        let addr = self.pop_val(r, true);
        let v = self.pop_val(r, sh);
        if k {
            self.set_keep(r, false);
        }
        self.mem_write(addr, v, sh);
        proof {
            let s0 = old(self).src_stk(r).data@;
            let wd = width(sh);
            assert(addr == top_val(s0, 0, true));
            if !k {
                lemma_top_take(s0, 2, 0, sh);
                lemma_take_take(s0, s0.len() - 2, s0.len() - (2 + wd));
            }
            assert(v == top_val(s0, 2, sh));
            let base = if k {
                s0
            } else {
                s0.take(s0.len() - (2 + wd))
            };
            lemma_concat_empty(base);
            assert(self.src_stk(r).data@ == src_out(s0, 2 + wd, k, Seq::empty()));
        }
        Ok(())
    }

    /// DEI: pop a port byte and push what the device gateway reads there:
    /// the mounted device's current port value, or 0 from an empty slot.
    #[verifier::rlimit(100)]
    #[verifier::spinoff_prover]
    fn do_dei(&mut self, k: bool, r: bool, sh: bool) -> (out: Result<(), Fault>)
        requires
            old(self).wf(),
        ensures
            final(self).wf(),
            match out {
                Ok(()) => ({
                    let p = top_at(old(self).src_stk(r).data@, 0);
                    let d0 = old(self).dev_read(p >> 4, p & 0x0f);
                    let d1 = if sh {
                        old(self).dev_read(p >> 4, ((p & 0x0f) + 1) as u8)
                    } else {
                        0u8
                    };
                    &&& old(self).op_matches(*final(self), 0x16, k, r, sh, d0, d1)
                    &&& Self::dev_reads_preserved(*old(self), *final(self))
                }),
                Err(f) => {
                    &&& old(self).op_faults(*final(self), 0x16, k, r, sh, f, 0, 0)
                    &&& final(self).devices@ == old(self).devices@
                },
            },
    {
        let w: usize = if sh {
            2
        } else {
            1
        };
        let len = self.src_len(r);
        if len < 1 {
            return Err(Fault::StackUnderflow);
        }
        let nl = if k {
            len + w
        } else {
            len - 1 + w
        };
        if nl > 255 {
            return Err(Fault::StackOverflow);
        }
        if k {
            self.set_keep(r, true);
        }
        let port = self.pop_one(r);
        if k {
            self.set_keep(r, false);
        }
        proof {
            assert(port >> 4 < 16 && port & 0x0f < 16) by (bit_vector);
        }
        let slot = port >> 4;
        let lo = port & 0x0f;
        let ghost ga = *self;
        let b0 = self.dev_get(slot, lo);
        let ghost gb = *self;
        let b1 = if sh {
            self.dev_get(slot, lo + 1)
        } else {
            0
        };
        let ghost gc = *self;
        self.push_one(r, b0);
        if sh {
            self.push_one(r, b1);
        }
        proof {
            let s0 = old(self).src_stk(r).data@;
            let base = if k {
                s0
            } else {
                s0.take(s0.len() - 1)
            };
            if sh {
                lemma_push_concat(base, b0);
                lemma_push_concat(base + seq![b0], b1);
                lemma_concat_assoc(base, seq![b0], seq![b1]);
                assert(seq![b0] + seq![b1] =~= seq![b0, b1]);
                assert(self.src_stk(r).data@ == src_out(s0, 1, k, seq![b0, b1]));
            } else {
                lemma_push_concat(base, b0);
                assert(self.src_stk(r).data@ == src_out(s0, 1, k, seq![b0]));
            }
            assert(old(self).op_matches(*self, 0x16, k, r, sh, b0, b1));
            // The read bytes are the mounted device's port values before the
            // instruction, and no port value changed.
            Self::lemma_dev_reads_refl(*old(self), ga);
            Self::lemma_dev_reads_trans(*old(self), ga, gb);
            if !sh {
                Self::lemma_dev_reads_refl(gb, gc);
            }
            Self::lemma_dev_reads_trans(*old(self), gb, gc);
            Self::lemma_dev_reads_refl(gc, *self);
            Self::lemma_dev_reads_trans(*old(self), gc, *self);
            assert(port == top_at(s0, 0));
            assert(b0 == old(self).dev_read(port >> 4, port & 0x0f));
            if sh {
                assert(b1 == old(self).dev_read(port >> 4, ((port & 0x0f) + 1) as u8));
            }
        }
        Ok(())
    }

    /// DEO: pop a port byte and a value; hand the value to the device
    /// gateway at that port.  The addressed slot's device receives the write
    /// as its declared write relation says; an empty slot discards it.
    #[verifier::rlimit(100)]
    #[verifier::spinoff_prover]
    fn do_deo(&mut self, k: bool, r: bool, sh: bool) -> (out: Result<(), Fault>)
        requires
            old(self).wf(),
        ensures
            final(self).wf(),
            match out {
                Ok(()) => {
                    &&& old(self).op_matches(*final(self), 0x17, k, r, sh, 0, 0)
                    &&& Self::deo_writes(
                        *old(self),
                        *final(self),
                        top_at(old(self).src_stk(r).data@, 0),
                        top_val(old(self).src_stk(r).data@, 1, sh),
                        sh,
                    )
                },
                Err(f) => {
                    &&& old(self).op_faults(*final(self), 0x17, k, r, sh, f, 0, 0)
                    &&& final(self).devices@ == old(self).devices@
                },
            },
    {
        let w: usize = if sh {
            2
        } else {
            1
        };
        let len = self.src_len(r);
        if len < 1 + w {
            return Err(Fault::StackUnderflow);
        }
        if k {
            self.set_keep(r, true);
        }
        let port = self.pop_one(r);
        let v = self.pop_val(r, sh);
        if k {
            self.set_keep(r, false);
        }
        proof {
            assert(port >> 4 < 16 && port & 0x0f < 16) by (bit_vector);
        }
        let slot = port >> 4;
        let lo = port & 0x0f;
        let ghost gd = *self;
        self.dev_put(slot, lo, v, sh);
        proof {
            let s0 = old(self).src_stk(r).data@;
            let wd = width(sh);
            if !k {
                lemma_top_take(s0, 1, 0, sh);
                lemma_take_take(s0, s0.len() - 1, s0.len() - (1 + wd));
            }
            let base = if k {
                s0
            } else {
                s0.take(s0.len() - (1 + wd))
            };
            lemma_concat_empty(base);
            assert(self.src_stk(r).data@ == src_out(s0, 1 + wd, k, Seq::empty()));
            // The popped port and value reached the device gateway.
            assert(port == top_at(s0, 0));
            assert(v == top_val(s0, 1, sh));
            assert(gd.devices@ == old(self).devices@);
            assert(Self::deo_writes(*old(self), *self, port, v, sh));
        }
        Ok(())
    }

    /// ADD, SUB, MUL, DIV, AND, ORA, EOR: pop two values and push the
    /// result, wrapping at the operand width; division by zero pushes 0.
    #[verifier::rlimit(100)]
    #[verifier::spinoff_prover]
    fn do_alu(&mut self, op: u8, k: bool, r: bool, sh: bool) -> (out: Result<(), Fault>)
        requires
            old(self).wf(),
            0x18 <= op <= 0x1e,
        ensures
            final(self).wf(),
            final(self).devices@ == old(self).devices@,
            match out {
                Ok(()) => old(self).op_matches(*final(self), op, k, r, sh, 0, 0),
                Err(f) => old(self).op_faults(*final(self), op, k, r, sh, f, 0, 0),
            },
    {
        let w: usize = if sh {
            2
        } else {
            1
        };
        let len = self.src_len(r);
        if len < 2 * w {
            return Err(Fault::StackUnderflow);
        }
        let nl = if k {
            len + w
        } else {
            len - w
        };
        if nl > 255 {
            return Err(Fault::StackOverflow);
        }
        if k {
            self.set_keep(r, true);
        }
        let b = self.pop_val(r, sh);
        let a = self.pop_val(r, sh);
        if k {
            self.set_keep(r, false);
        }
        let v = Self::alu_exec(op, a, b, sh);
        self.push_val(r, sh, v);
        proof {
            let s0 = old(self).src_stk(r).data@;
            let wd = width(sh);
            assert(b == top_val(s0, 0, sh));
            if !k {
                lemma_top_take(s0, wd, 0, sh);
                lemma_take_take(s0, s0.len() - wd, s0.len() - 2 * wd);
            }
            assert(a == top_val(s0, wd, sh));
            assert(self.src_stk(r).data@ == src_out(s0, 2 * wd, k, be_bytes(alu(op, a, b, sh), sh)));
        }
        Ok(())
    }

    /// SFT: pop a value and a shift byte; shift right by the low nibble,
    /// left by the high nibble, and push at the operand width.
    #[verifier::rlimit(100)]
    #[verifier::spinoff_prover]
    fn do_sft(&mut self, k: bool, r: bool, sh: bool) -> (out: Result<(), Fault>)
        requires
            old(self).wf(),
        ensures
            final(self).wf(),
            final(self).devices@ == old(self).devices@,
            match out {
                Ok(()) => old(self).op_matches(*final(self), 0x1f, k, r, sh, 0, 0),
                Err(f) => old(self).op_faults(*final(self), 0x1f, k, r, sh, f, 0, 0),
            },
    {
        let w: usize = if sh {
            2
        } else {
            1
        };
        let len = self.src_len(r);
        if len < w + 1 {
            return Err(Fault::StackUnderflow);
        }
        let nl = if k {
            len + w
        } else {
            len - 1
        };
        if nl > 255 {
            return Err(Fault::StackOverflow);
        }
        if k {
            self.set_keep(r, true);
        }
        let v = self.pop_val(r, sh);
        let sb = self.pop_one(r);
        if k {
            self.set_keep(r, false);
        }
        let x = Self::sft_exec(v, sb, sh);
        self.push_val(r, sh, x);
        proof {
            let s0 = old(self).src_stk(r).data@;
            let wd = width(sh);
            assert(v == top_val(s0, 0, sh));
            if !k {
                lemma_top_take(s0, wd, 0, false);
                lemma_take_take(s0, s0.len() - wd, s0.len() - (wd + 1));
            }
            assert(sb == top_at(s0, wd));
            assert(self.src_stk(r).data@ == src_out(s0, wd + 1, k, be_bytes(sft(v, sb, sh), sh)));
        }
        Ok(())
    }

    /// The eight immediate-style instructions that share base opcode 0 with
    /// the terminating BRK: JCI, JMI, JSI and the four LIT forms.  The caller
    /// has already fetched `instr` and stepped the program counter past it.
    #[verifier::rlimit(100)]
    #[verifier::spinoff_prover]
    fn op_brk(&mut self, instr: u8) -> (out: Result<(), Fault>)
        requires
            old(self).wf(),
            instr & 0x1f == 0,
            instr != 0,
        ensures
            final(self).wf(),
            final(self).devices@ == old(self).devices@,
            match out {
                Ok(()) => brk_step(old(self).vm(), instr) == Outcome::Next(final(self).vm()),
                Err(f) => {
                    &&& brk_step(old(self).vm(), instr) == Outcome::Faulted(f, final(self).vm())
                    &&& final(self).vm() == old(self).vm()
                },
            },
    {
        let upper = instr >> 5;
        proof {
            let i = instr;
            assert(i & 0x1f == 0 && i != 0 ==> 1 <= (i >> 5) < 8) by (bit_vector);
        }
        if upper == 1 {
            // JCI
            if self.wst.data.len() == 0 {
                return Err(Fault::StackUnderflow);
            }
            let cond = self.pop_one(false);
            let imm = self.mem_read(self.pc, true);
            if cond != 0 {
                self.pc = Self::w16(self.pc as u32 + 2 + imm as u32);
            } else {
                self.pc = Self::w16(self.pc as u32 + 2);
            }
            proof {
                assert(brk_step(old(self).vm(), instr) == Outcome::Next(self.vm()));
            }
            Ok(())
        } else if upper == 2 {
            // JMI
            let imm = self.mem_read(self.pc, true);
            self.pc = Self::w16(self.pc as u32 + 2 + imm as u32);
            proof {
                assert(brk_step(old(self).vm(), instr) == Outcome::Next(self.vm()));
            }
            Ok(())
        } else if upper == 3 {
            // JSI
            if self.rst.data.len() + 2 > 255 {
                return Err(Fault::StackOverflow);
            }
            let ret = Self::w16(self.pc as u32 + 2);
            let imm = self.mem_read(self.pc, true);
            self.push_val(true, true, ret);
            self.pc = Self::w16(self.pc as u32 + 2 + imm as u32);
            proof {
                assert(brk_step(old(self).vm(), instr) == Outcome::Next(self.vm()));
            }
            Ok(())
        } else {
            // LIT, LIT2, LITr, LIT2r
            let sh = instr & 0x20 != 0;
            let to_r = instr & 0x40 != 0;
            let w: usize = if sh {
                2
            } else {
                1
            };
            let tlen = if to_r {
                self.rst.data.len()
            } else {
                self.wst.data.len()
            };
            if tlen + w > 255 {
                return Err(Fault::StackOverflow);
            }
            let b0 = self.mem_get(self.pc);
            self.push_one(to_r, b0);
            if sh {
                let a2 = self.pc.wrapping_add(1);
                let b1 = self.mem_get(a2);
                self.push_one(to_r, b1);
                proof {
                    assert((old(self).pc as int + 1) % 0x10000 == a2 as int % 0x10000);
                }
            }
            self.pc = Self::w16(self.pc as u32 + w as u32);
            proof {
                let s1 = old(self).vm();
                let base = if to_r {
                    s1.rst
                } else {
                    s1.wst
                };
                let b0g = mem_at(s1.mem, s1.pc as int);
                let b1g = mem_at(s1.mem, s1.pc + 1);
                if sh {
                    lemma_push_concat(base, b0g);
                    lemma_push_concat(base + seq![b0g], b1g);
                    lemma_concat_assoc(base, seq![b0g], seq![b1g]);
                    assert(seq![b0g] + seq![b1g] =~= seq![b0g, b1g]);
                } else {
                    lemma_push_concat(base, b0g);
                }
                assert(brk_step(old(self).vm(), instr) == Outcome::Next(self.vm()));
            }
            Ok(())
        }
    }

    /// Dispatches one mode-respecting opcode (1..=31) after the fetch.  A
    /// DEI's device inputs are the mounted device's port values; a DEO's
    /// write reaches the addressed device; no other opcode touches the
    /// device slots.
    fn dispatch_op(&mut self, op: u8, k: bool, r: bool, sh: bool) -> (res: Result<(), Fault>)
        requires
            old(self).wf(),
            1 <= op <= 0x1f,
        ensures
            final(self).wf(),
            match res {
                Ok(()) => ({
                    let p = top_at(old(self).src_stk(r).data@, 0);
                    let d0 = if op == 0x16 {
                        old(self).dev_read(p >> 4, p & 0x0f)
                    } else {
                        0u8
                    };
                    let d1 = if op == 0x16 && sh {
                        old(self).dev_read(p >> 4, ((p & 0x0f) + 1) as u8)
                    } else {
                        0u8
                    };
                    old(self).op_matches(*final(self), op, k, r, sh, d0, d1)
                }),
                Err(f) => old(self).op_faults(*final(self), op, k, r, sh, f, 0, 0),
            },
            op != 0x16 && op != 0x17 ==> final(self).devices@ == old(self).devices@,
            res is Err ==> final(self).devices@ == old(self).devices@,
            op == 0x16 && res is Ok ==> Self::dev_reads_preserved(*old(self), *final(self)),
            op == 0x17 && res is Ok ==> Self::deo_writes(
                *old(self),
                *final(self),
                top_at(old(self).src_stk(r).data@, 0),
                top_val(old(self).src_stk(r).data@, 1, sh),
                sh,
            ),
    {
        if op == 0x01 {
            self.do_inc(k, r, sh)
        } else if op == 0x02 {
            self.do_pop(k, r, sh)
        } else if op == 0x03 {
            self.do_nip(k, r, sh)
        } else if op == 0x04 {
            self.do_swp(k, r, sh)
        } else if op == 0x05 {
            self.do_rot(k, r, sh)
        } else if op == 0x06 {
            self.do_dup(k, r, sh)
        } else if op == 0x07 {
            self.do_ovr(k, r, sh)
        } else if op <= 0x0b {
            self.do_cmp(op, k, r, sh)
        } else if op == 0x0c {
            self.do_jmp(k, r, sh)
        } else if op == 0x0d {
            self.do_jcn(k, r, sh)
        } else if op == 0x0e {
            self.do_jsr(k, r, sh)
        } else if op == 0x0f {
            self.do_sth(k, r, sh)
        } else if op == 0x10 {
            self.do_ldz(k, r, sh)
        } else if op == 0x11 {
            self.do_stz(k, r, sh)
        } else if op == 0x12 {
            self.do_ldr(k, r, sh)
        } else if op == 0x13 {
            self.do_str(k, r, sh)
        } else if op == 0x14 {
            self.do_lda(k, r, sh)
        } else if op == 0x15 {
            self.do_sta(k, r, sh)
        } else if op == 0x16 {
            self.do_dei(k, r, sh)
        } else if op == 0x17 {
            self.do_deo(k, r, sh)
        } else if op <= 0x1e {
            self.do_alu(op, k, r, sh)
        } else {
            self.do_sft(k, r, sh)
        }
    }

    /// Executes exactly one instruction: fetch the byte at the program
    /// counter, step past it, decode and dispatch.  The result is one
    /// execution step of the small-step semantics: a `Continue` is a
    /// [`steps_to`] step, a `Halt` a [`halts_to`] one and a `Fault` a
    /// [`faults_to`] one.
    #[verifier::rlimit(100)]
    #[verifier::spinoff_prover]
    pub fn step(&mut self) -> (out: StepOutcome)
        requires
            old(self).wf(),
        ensures
            final(self).wf(),
            ({
                let o = step_spec(old(self).vm(), old(self).dei_in0(), old(self).dei_in1());
                match out {
                    StepOutcome::Continue => o == Outcome::Next(final(self).vm()),
                    StepOutcome::Halt => o == Outcome::Halted(final(self).vm()),
                    StepOutcome::Fault(f) => o == Outcome::Faulted(f, final(self).vm()),
                }
            }),
            match out {
                StepOutcome::Continue => steps_to(old(self).vm(), final(self).vm()),
                StepOutcome::Halt => halts_to(old(self).vm(), final(self).vm()),
                StepOutcome::Fault(f) => faults_to(old(self).vm(), final(self).vm(), f),
            },
            !touches_devices(old(self).vm()) ==> final(self).devices@ == old(self).devices@,
            out is Fault ==> final(self).devices@ == old(self).devices@,
            old(self).cur_instr() & 0x1f == 0x16 && out is Continue ==> Self::dev_reads_preserved(
                *old(self),
                *final(self),
            ),
            old(self).cur_instr() & 0x1f == 0x17 && out is Continue ==> Self::deo_writes(
                *old(self),
                *final(self),
                old(self).cur_port(),
                old(self).cur_deo_val(),
                old(self).cur_instr() & 0x20 != 0,
            ),
    {
        let ghost s0 = self.vm();
        let instr = self.mem_get(self.pc);
        self.pc = self.pc.wrapping_add(1);
        let ghost mid = *self;
        proof {
            assert(mid.vm() == VmState { pc: wrap16(s0.pc + 1), ..s0 });
            assert(instr == mem_at(s0.mem, s0.pc as int));
            assert(old(self).cur_instr() == instr);
        }
        if instr == 0x00 {
            proof {
                assert(0u8 & 0x1f == 0) by (bit_vector);
                assert(old(self).dei_in0() == 0 && old(self).dei_in1() == 0);
                assert(step_spec(s0, 0, 0) == Outcome::Halted(self.vm()));
            }
            return StepOutcome::Halt;
        }
        if instr & 0x1f == 0 {
            proof {
                assert(old(self).dei_in0() == 0 && old(self).dei_in1() == 0);
            }
            match self.op_brk(instr) {
                Ok(()) => {
                    proof {
                        assert(step_spec(s0, 0, 0) == Outcome::Next(self.vm()));
                    }
                    StepOutcome::Continue
                },
                Err(f) => {
                    proof {
                        assert(step_spec(s0, 0, 0) == Outcome::Faulted(f, self.vm()));
                    }
                    StepOutcome::Fault(f)
                },
            }
        } else {
            let op = instr & 0x1f;
            let k = instr & 0x80 != 0;
            let r = instr & 0x40 != 0;
            let sh = instr & 0x20 != 0;
            proof {
                let i = instr;
                assert(i & 0x1f != 0 ==> 1 <= (i & 0x1f) <= 0x1f) by (bit_vector);
                assert(mid.devices@ == old(self).devices@);
                if op != 0x16 {
                    assert(old(self).dei_in0() == 0 && old(self).dei_in1() == 0);
                }
            }
            match self.dispatch_op(op, k, r, sh) {
                Ok(()) => {
                    proof {
                        let p = top_at(mid.src_stk(r).data@, 0);
                        assert(p == old(self).cur_port());
                        if op == 0x16 {
                            assert(mid.dev_read(p >> 4, p & 0x0f) == old(self).dev_read(
                                p >> 4,
                                p & 0x0f,
                            ));
                            assert(mid.dev_read(p >> 4, ((p & 0x0f) + 1) as u8) == old(
                                self,
                            ).dev_read(p >> 4, ((p & 0x0f) + 1) as u8));
                            Self::lemma_dev_reads_refl(*old(self), mid);
                            Self::lemma_dev_reads_trans(*old(self), mid, *self);
                        }
                        if op == 0x17 {
                            assert(Self::deo_writes(
                                *old(self),
                                *self,
                                old(self).cur_port(),
                                old(self).cur_deo_val(),
                                sh,
                            ));
                        }
                        assert(step_spec(s0, old(self).dei_in0(), old(self).dei_in1())
                            == Outcome::Next(self.vm()));
                        assert(steps_to(s0, self.vm()));
                    }
                    StepOutcome::Continue
                },
                Err(f) => {
                    proof {
                        assert(step_spec(s0, old(self).dei_in0(), old(self).dei_in1())
                            == Outcome::Faulted(f, self.vm()));
                    }
                    StepOutcome::Fault(f)
                },
            }
        }
    }

    /// Sets the program counter to `addr` and executes instructions until a
    /// terminating BRK (`Halt`), a fault (`Fault`), or `fuel` instructions
    /// have run (`Continue`: the machine is still mid-run; a host bounding
    /// execution time picks the budget).
    ///
    /// A `Halt` or `Fault` result is a complete run of the small-step
    /// semantics from the starting state; a `Continue` leaves the machine in
    /// the state the semantics reaches after exactly `fuel` steps.  A run
    /// whose trace never reaches a DEI or DEO leaves every device slot
    /// exactly as it was.
    pub fn eval_vector(&mut self, addr: u16, fuel: u64) -> (out: StepOutcome)
        requires
            old(self).wf(),
        ensures
            final(self).wf(),
            ({
                let s0 = VmState { pc: addr, ..old(self).vm() };
                match out {
                    StepOutcome::Halt => run_result(s0, final(self).vm(), Ok(())),
                    StepOutcome::Fault(f) => run_result(s0, final(self).vm(), Err(f)),
                    StepOutcome::Continue => runs_for(s0, final(self).vm(), fuel as int),
                }
            }),
            ({
                let s0 = VmState { pc: addr, ..old(self).vm() };
                match out {
                    StepOutcome::Halt => exists|tr: Seq<VmState>|
                        #[trigger] run_trace(tr, s0, final(self).vm(), Ok(())) && (device_free(tr)
                            ==> final(self).devices@ == old(self).devices@),
                    StepOutcome::Fault(f) => exists|tr: Seq<VmState>|
                        #[trigger] run_trace(tr, s0, final(self).vm(), Err(f)) && (device_free(tr)
                            ==> final(self).devices@ == old(self).devices@),
                    StepOutcome::Continue => exists|tr: Seq<VmState>|
                        {
                            &&& tr.len() == fuel + 1
                            &&& tr[0] == s0
                            &&& tr[tr.len() - 1] == final(self).vm()
                            &&& #[trigger] is_chain(tr)
                            &&& (device_free(tr.drop_last()) ==> final(self).devices@ == old(
                                self,
                            ).devices@)
                        },
                }
            }),
    {
        self.pc = addr;
        let ghost s0 = self.vm();
        let ghost mut tr: Seq<VmState> = seq![s0];
        let mut n: u64 = 0;
        loop
            invariant
                self.wf(),
                n <= fuel,
                tr.len() == n + 1,
                tr[0] == s0,
                tr[tr.len() - 1] == self.vm(),
                is_chain(tr),
                s0 == (VmState { pc: addr, ..old(self).vm() }),
                device_free(tr.drop_last()) ==> self.devices@ == old(self).devices@,
            decreases fuel - n,
        {
            if n >= fuel {
                proof {
                    assert(runs_for(s0, self.vm(), fuel as int));
                }
                return StepOutcome::Continue;
            }
            n = n + 1;
            let ghost pre = tr;
            let ghost prev = *self;
            match self.step() {
                StepOutcome::Continue => {
                    proof {
                        tr = tr.push(self.vm());
                        assert forall|i: int| 0 <= i < tr.len() - 1 implies #[trigger] steps_to(
                            tr[i],
                            tr[i + 1],
                        ) by {
                            if i < pre.len() - 1 {
                                assert(steps_to(pre[i], pre[i + 1]));
                            }
                        }
                        assert(tr.drop_last() =~= pre);
                        if device_free(pre) {
                            lemma_device_free_drop(pre);
                            assert(!touches_devices(pre[pre.len() - 1]));
                            assert(self.devices@ == old(self).devices@);
                        }
                    }
                },
                StepOutcome::Halt => {
                    proof {
                        assert(run_trace(tr, s0, self.vm(), Ok(())));
                        if device_free(tr) {
                            lemma_device_free_drop(tr);
                            assert(!touches_devices(tr[tr.len() - 1]));
                            assert(self.devices@ == old(self).devices@);
                        }
                    }
                    return StepOutcome::Halt;
                },
                StepOutcome::Fault(f) => {
                    proof {
                        assert(run_trace(tr, s0, self.vm(), Err(f)));
                        if device_free(tr) {
                            lemma_device_free_drop(tr);
                            assert(self.devices@ == old(self).devices@);
                        }
                    }
                    return StepOutcome::Fault(f);
                },
            }
        }
    }
}

} // verus!
