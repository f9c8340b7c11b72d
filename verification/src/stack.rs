//! A bounded byte stack with byte and short (big-endian pair) push and pop,
//! and a non-destructive "keep" read mode.
//!
//! The logical top is the most recently pushed byte.  A short is stored as two
//! adjacent bytes with the high byte deeper in the stack: pushing a short
//! pushes the high byte and then the low byte; popping a short pops the low
//! byte and then the high byte.
//!
//! While `keep_mode` is set, pops do not remove bytes: `pop_offset` counts how
//! many bytes below the top have been logically consumed, so successive pops
//! read progressively deeper bytes, and pushes made meanwhile advance the
//! counter so that later pops still read the bytes that were present when the
//! reads began.

use vstd::prelude::*;

use crate::Fault;

verus! {

/// The byte that the `off`-th logical pop reads from the byte sequence `s`:
/// offset 0 is the top.
pub open spec fn top_at(s: Seq<u8>, off: int) -> u8 {
    s[s.len() - 1 - off]
}

/// The value that a pop of width `short` reads at logical offset `off`: a
/// single byte, or a big-endian short whose low byte is shallower.
pub open spec fn top_val(s: Seq<u8>, off: int, short: bool) -> u16 {
    if short {
        ((top_at(s, off + 1) as int) * 256 + top_at(s, off) as int) as u16
    } else {
        top_at(s, off) as u16
    }
}

/// The bytes a push of width `short` appends: the low byte of a short lands on
/// top of its high byte.
pub open spec fn be_bytes(v: u16, short: bool) -> Seq<u8> {
    if short {
        seq![(v / 256) as u8, (v % 256) as u8]
    } else {
        seq![(v % 256) as u8]
    }
}

/// Dropping `d` bytes from the top moves every logical read offset down by
/// `d`: reads below the dropped bytes see the same values.
pub proof fn lemma_top_take(s: Seq<u8>, d: int, off: int, sh: bool)
    requires
        0 <= d,
        0 <= off,
        off + (if sh {
            2int
        } else {
            1int
        }) + d <= s.len(),
    ensures
        top_at(s.take(s.len() - d), off) == top_at(s, off + d),
        top_val(s.take(s.len() - d), off, sh) == top_val(s, off + d, sh),
{
}

/// Taking a shorter prefix of a prefix is taking it directly.
pub proof fn lemma_take_take(s: Seq<u8>, a: int, b: int)
    requires
        0 <= b <= a <= s.len(),
    ensures
        s.take(a).take(b) == s.take(b),
{
    assert(s.take(a).take(b) =~= s.take(b));
}

/// Appending one byte is concatenating a singleton.
pub proof fn lemma_push_concat(s: Seq<u8>, c: u8)
    ensures
        s.push(c) == s + seq![c],
{
    assert(s.push(c) =~= s + seq![c]);
}

/// Concatenation is associative.
pub proof fn lemma_concat_assoc(a: Seq<u8>, b: Seq<u8>, c: Seq<u8>)
    ensures
        (a + b) + c == a + (b + c),
{
    assert((a + b) + c =~= a + (b + c));
}

/// The empty sequence is a right identity of concatenation.
pub proof fn lemma_concat_empty(s: Seq<u8>)
    ensures
        s + Seq::<u8>::empty() == s,
{
    assert(s + Seq::<u8>::empty() =~= s);
}

/// A byte stack of maximum depth 255 with a keep (non-destructive read) mode.
pub struct Stack {
    /// The stored bytes; the last element is the logical top.
    pub data: Vec<u8>,
    /// While set, pops read without removing.
    pub keep_mode: bool,
    /// How many bytes below the top have been logically consumed by keep-mode
    /// pops (always 0 outside keep mode).
    pub pop_offset: usize,
}

impl Stack {
    /// Well-formedness: bounded depth, and the pop cursor never runs past the
    /// stored bytes nor survives outside keep mode.
    pub open spec fn wf(&self) -> bool {
        &&& self.data@.len() <= 255
        &&& self.pop_offset <= self.data@.len()
        &&& (!self.keep_mode ==> self.pop_offset == 0)
    }

    /// How many bytes the next pops may still read.
    pub open spec fn avail(&self) -> int {
        self.data@.len() - self.pop_offset
    }

    /// An empty stack, not in keep mode.
    pub fn new() -> (s: Stack)
        ensures
            s.wf(),
            s.data@ == Seq::<u8>::empty(),
            !s.keep_mode,
            s.pop_offset == 0,
    {
        Stack { data: Vec::new(), keep_mode: false, pop_offset: 0 }
    }

    /// Sets or clears keep mode; either way the pop cursor restarts at the
    /// top.  The stored bytes are untouched.
    pub fn set_keep_mode(&mut self, mode: bool)
        requires
            old(self).wf(),
        ensures
            final(self).wf(),
            final(self).data@ == old(self).data@,
            final(self).keep_mode == mode,
            final(self).pop_offset == 0,
    {
        self.pop_offset = 0;
        self.keep_mode = mode;
    }

    /// Appends one byte; fails with `StackOverflow` exactly when the stack
    /// already holds 255 bytes, leaving it unchanged.  In keep mode the pop
    /// cursor advances so that pending reads skip the new byte.
    pub fn push_byte(&mut self, byte: u8) -> (r: Result<(), Fault>)
        requires
            old(self).wf(),
        ensures
            final(self).wf(),
            final(self).keep_mode == old(self).keep_mode,
            match r {
                Ok(()) => {
                    &&& old(self).data@.len() < 255
                    &&& final(self).data@ == old(self).data@.push(byte)
                    &&& final(self).pop_offset == old(self).pop_offset + (
                        if old(self).keep_mode { 1int } else { 0int }
                    )
                },
                Err(f) => {
                    &&& f == Fault::StackOverflow
                    &&& old(self).data@.len() == 255
                    &&& final(self).data@ == old(self).data@
                    &&& final(self).pop_offset == old(self).pop_offset
                },
            },
    {
        if self.data.len() == 255 {
            return Err(Fault::StackOverflow);
        }
        self.data.push(byte);
        if self.keep_mode {
            self.pop_offset = self.pop_offset + 1;
        }
        Ok(())
    }

    /// Pops one byte.  Outside keep mode the top byte is removed and
    /// returned; in keep mode the byte at the pop cursor is returned and the
    /// cursor moves one deeper.  Fails with `StackUnderflow` exactly when no
    /// byte is available, leaving the stack unchanged.
    pub fn pop_byte(&mut self) -> (r: Result<u8, Fault>)
        requires
            old(self).wf(),
        ensures
            final(self).wf(),
            final(self).keep_mode == old(self).keep_mode,
            match r {
                Ok(b) => {
                    &&& old(self).avail() >= 1
                    &&& if old(self).keep_mode {
                        &&& b == top_at(old(self).data@, old(self).pop_offset as int)
                        &&& final(self).data@ == old(self).data@
                        &&& final(self).pop_offset == old(self).pop_offset + 1
                    } else {
                        &&& b == top_at(old(self).data@, 0)
                        &&& final(self).data@ == old(self).data@.take(old(self).data@.len() - 1)
                        &&& final(self).pop_offset == 0
                    }
                },
                Err(f) => {
                    &&& f == Fault::StackUnderflow
                    &&& old(self).avail() == 0
                    &&& final(self).data@ == old(self).data@
                    &&& final(self).pop_offset == old(self).pop_offset
                },
            },
    {
        if self.keep_mode {
            if self.pop_offset >= self.data.len() {
                return Err(Fault::StackUnderflow);
            }
            let idx = self.data.len() - 1 - self.pop_offset;
            let b = self.data[idx];
            self.pop_offset = self.pop_offset + 1;
            Ok(b)
        } else {
            match self.data.pop() {
                Some(b) => {
                    proof {
                        assert(self.data@ =~= old(self).data@.take(
                            old(self).data@.len() - 1,
                        ));
                    }
                    Ok(b)
                },
                None => Err(Fault::StackUnderflow),
            }
        }
    }

    /// Pushes a short: high byte first, then low byte.  Fails with
    /// `StackOverflow` when the two bytes do not both fit; with one byte of
    /// room the high byte is appended before the failure, as two byte pushes
    /// would leave it.
    pub fn push_short(&mut self, short: u16) -> (r: Result<(), Fault>)
        requires
            old(self).wf(),
        ensures
            final(self).wf(),
            final(self).keep_mode == old(self).keep_mode,
            match r {
                Ok(()) => {
                    &&& old(self).data@.len() + 2 <= 255
                    &&& final(self).data@ == old(self).data@ + be_bytes(short, true)
                    &&& final(self).pop_offset == old(self).pop_offset + (
                        if old(self).keep_mode { 2int } else { 0int }
                    )
                },
                Err(f) => {
                    &&& f == Fault::StackOverflow
                    &&& old(self).data@.len() + 2 > 255
                    &&& if old(self).data@.len() == 254 {
                        &&& final(self).data@ == old(self).data@.push((short / 256) as u8)
                        &&& final(self).pop_offset == old(self).pop_offset + (
                            if old(self).keep_mode { 1int } else { 0int }
                        )
                    } else {
                        &&& final(self).data@ == old(self).data@
                        &&& final(self).pop_offset == old(self).pop_offset
                    }
                },
            },
    {
        match self.push_byte((short / 256) as u8) {
            Ok(()) => {},
            Err(f) => {
                return Err(f);
            },
        }
        match self.push_byte((short % 256) as u8) {
            Ok(()) => {},
            Err(f) => {
                return Err(f);
            },
        }
        proof {
            assert(self.data@ =~= old(self).data@ + be_bytes(short, true));
        }
        Ok(())
    }

    /// Pops a short: low byte first, then high byte; returns high * 256 + low.
    /// Fails with `StackUnderflow` when fewer than two bytes are available;
    /// with exactly one, that byte is consumed before the failure, as two byte
    /// pops would leave it.
    pub fn pop_short(&mut self) -> (r: Result<u16, Fault>)
        requires
            old(self).wf(),
        ensures
            final(self).wf(),
            final(self).keep_mode == old(self).keep_mode,
            match r {
                Ok(v) => {
                    &&& old(self).avail() >= 2
                    &&& v == top_val(old(self).data@, old(self).pop_offset as int, true)
                    &&& if old(self).keep_mode {
                        &&& final(self).data@ == old(self).data@
                        &&& final(self).pop_offset == old(self).pop_offset + 2
                    } else {
                        &&& final(self).data@ == old(self).data@.take(old(self).data@.len() - 2)
                        &&& final(self).pop_offset == 0
                    }
                },
                Err(f) => {
                    &&& f == Fault::StackUnderflow
                    &&& old(self).avail() < 2
                    &&& if old(self).avail() == 0 {
                        &&& final(self).data@ == old(self).data@
                        &&& final(self).pop_offset == old(self).pop_offset
                    } else if old(self).keep_mode {
                        &&& final(self).data@ == old(self).data@
                        &&& final(self).pop_offset == old(self).pop_offset + 1
                    } else {
                        &&& final(self).data@ == old(self).data@.take(old(self).data@.len() - 1)
                        &&& final(self).pop_offset == 0
                    }
                },
            },
    {
        let lower = match self.pop_byte() {
            Ok(b) => b,
            Err(f) => {
                return Err(f);
            },
        };
        let upper = match self.pop_byte() {
            Ok(b) => b,
            Err(f) => {
                return Err(f);
            },
        };
        proof {
            if !old(self).keep_mode {
                assert(self.data@ =~= old(self).data@.take(old(self).data@.len() - 2));
            }
        }
        Ok((upper as u16) * 256 + lower as u16)
    }
}

} // verus!
