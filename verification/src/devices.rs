//! The device gateway contract and the console device.
//!
//! A machine has sixteen device slots.  The 8-bit port operand of the I/O
//! opcodes splits into a slot index (high nibble) and a port offset (low
//! nibble) that is passed to the device.  Reads return the device's current
//! value at the offset; writes may raise device-defined side effects.

use vstd::prelude::*;

verus! {

/// A mountable device.
///
/// A read (`get`) returns the device's current value at the port and leaves
/// the port values as they are; a write's side effects are whatever the
/// device declares in its write relations.  The port argument a device
/// receives from the machine is always a low nibble, or that nibble plus one
/// for the second byte of a short-width read.
///
/// A device holds no reference back into the machine: every call hands it
/// only the port and value.  A host that wants a device to observe machine
/// state passes it along between vector evaluations, through the machine's
/// public fields.
pub trait Device: Sized {
    /// The byte a read at `port` currently returns.
    spec fn port_val(&self, port: u8) -> u8;

    /// The effect the device declares for a byte-width write: how the state
    /// after `set_byte(port, value)` relates to the state before it.
    spec fn write_byte_ok(&self, post: Self, port: u8, value: u8) -> bool;

    /// The effect the device declares for a short-width write.
    spec fn write_short_ok(&self, post: Self, port: u8, value: u16) -> bool;

    /// Invoked once when the device is mounted.
    fn init(&mut self);

    /// Invoked by a host between vector evaluations.
    fn cycle(&mut self);

    /// Reads the device's current value at `port`.
    fn get(&mut self, port: u8) -> (r: u8)
        ensures
            r == old(self).port_val(port),
            forall|p: u8| final(self).port_val(p) == old(self).port_val(p);

    /// A byte-width write; its side effects are whatever the device declares
    /// in its write relation.
    fn set_byte(&mut self, port: u8, value: u8)
        ensures
            old(self).write_byte_ok(*final(self), port, value);

    /// A short-width write; its side effects are whatever the device declares
    /// in its write relation.
    fn set_short(&mut self, port: u8, value: u16)
        ensures
            old(self).write_short_ok(*final(self), port, value);
}

/// A console device: sixteen port bytes, of which port 0x8 is the character
/// output.  Bytes written there are collected in `out`, oldest first, for a
/// host to emit.
pub struct Console {
    /// The sixteen port bytes.
    pub mem: [u8; 16],
    /// Every byte written to the output port so far, oldest first.
    pub out: Vec<u8>,
}

impl Console {
    /// A console with all ports zero and nothing written yet.
    pub fn new() -> (c: Console)
        ensures
            forall|p: u8| c.port_val(p) == 0,
            c.out@ == Seq::<u8>::empty(),
    {
        let c = Console { mem: [0; 16], out: Vec::new() };
        proof {
            assert forall|p: u8| c.port_val(p) == 0 by {
                assert((p & 0x0f) < 16) by (bit_vector);
            }
        }
        c
    }
}

impl Device for Console {
    /// The stored port byte; the port argument is reduced to its low nibble.
    open spec fn port_val(&self, port: u8) -> u8 {
        self.mem@[(port & 0x0f) as int]
    }

    /// A byte write stores the byte at the port's low nibble; a write to the
    /// output port 0x8 also appends the byte to the collected output.
    open spec fn write_byte_ok(&self, post: Console, port: u8, value: u8) -> bool {
        &&& post.mem@ == self.mem@.update((port & 0x0f) as int, value)
        &&& post.out@ == (if port & 0x0f == 0x08 {
            self.out@.push(value)
        } else {
            self.out@
        })
    }

    /// A short write is the byte write of the high byte at the port followed
    /// by the byte write of the low byte at the next port, the port wrapping
    /// as an 8-bit value.
    open spec fn write_short_ok(&self, post: Console, port: u8, value: u16) -> bool {
        let hi = (value / 256) as u8;
        let lo = (value % 256) as u8;
        let p2 = ((port + 1) % 256) as u8;
        let mem1 = self.mem@.update((port & 0x0f) as int, hi);
        let out1 = if port & 0x0f == 0x08 {
            self.out@.push(hi)
        } else {
            self.out@
        };
        &&& post.mem@ == mem1.update((p2 & 0x0f) as int, lo)
        &&& post.out@ == (if p2 & 0x0f == 0x08 {
            out1.push(lo)
        } else {
            out1
        })
    }

    fn init(&mut self) {
    }

    fn cycle(&mut self) {
    }

    /// A pure read: the console is left exactly as it was.
    fn get(&mut self, port: u8) -> (r: u8)
        ensures
            *final(self) == *old(self),
    {
        proof {
            assert((port & 0x0f) < 16) by (bit_vector);
        }
        self.mem[(port & 0x0f) as usize]
    }

    /// Stores the byte at the port; a write to port 0x8 also appends the byte
    /// to the collected output.
    fn set_byte(&mut self, port: u8, value: u8) {
        proof {
            assert((port & 0x0f) < 16) by (bit_vector);
        }
        self.mem[(port & 0x0f) as usize] = value;
        if port & 0x0f == 0x08 {
            self.out.push(value);
        }
    }

    /// Stores the high byte at the port and the low byte at the next one.
    fn set_short(&mut self, port: u8, value: u16) {
        self.set_byte(port, (value / 256) as u8);
        self.set_byte(port.wrapping_add(1), (value % 256) as u8);
    }
}

} // verus!
