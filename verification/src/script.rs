//! Instruction-word decoding and the virtual-machine scaffolding around the
//! byte memory: narrow register and constant fields, operand decoding from a
//! packed 64-bit instruction word, and a machine state that reads
//! instructions and stack values through the codec. The instruction set's
//! semantics are not defined here; only the encoding layer is.

use crate::mem::{
    spliced, u64_from_le_bytes, u64_le_bytes, Loadable, Mem, MemBuf, MemError, MemLike, PtrType,
    Storable,
};
use vstd::prelude::*;

verus! {

/// A four-bit register number.
#[allow(non_camel_case_types)]
pub struct u4(u8);

impl View for u4 {
    type V = u8;

    closed spec fn view(&self) -> u8 {
        self.0
    }
}

impl u4 {
    /// A four-bit value never exceeds 0xf.
    pub open spec fn wf(&self) -> bool {
        self@ <= 0xf
    }

    /// Wraps a byte as a four-bit value; larger bytes are not four-bit
    /// values and are refused outright.
    pub fn new(value: u8) -> (r: Self)
        requires
            value <= 0xf,
        ensures
            r@ == value,
            r.wf(),
    {
        u4(value)
    }

    /// The value as a byte.
    pub fn get(&self) -> (r: u8)
        ensures
            r == self@,
    {
        self.0
    }
}

/// A thirteen-bit constant field.
#[allow(non_camel_case_types)]
pub struct u13(u16);

impl View for u13 {
    type V = u16;

    closed spec fn view(&self) -> u16 {
        self.0
    }
}

impl u13 {
    /// A thirteen-bit value never exceeds 0x1fff.
    pub open spec fn wf(&self) -> bool {
        self@ <= 0x1fff
    }

    /// Wraps a sixteen-bit value as a thirteen-bit one; larger values are
    /// not thirteen-bit values and are refused outright.
    pub fn new(value: u16) -> (r: Self)
        requires
            value <= 0x1fff,
        ensures
            r@ == value,
            r.wf(),
    {
        u13(value)
    }

    /// The value as a sixteen-bit number.
    pub fn get(&self) -> (r: u16)
        ensures
            r == self@,
    {
        self.0
    }
}

/// Which half of a copy's destination an instruction addresses.
#[derive(Debug, Clone, Copy, PartialEq, Eq, Structural)]
pub enum TargetRegion {
    High,
    Low,
}

/// One operand of an instruction: a memory reference through a register
/// plus constant, or a direct register-plus-constant value.
pub enum Input {
    Ref { register: u4, constant: u13 },
    Value { register: u4, constant: u13 },
}

/// A partially consumed instruction word: fields are read from the low end
/// and shifted away.
pub struct Instruction(u64);

impl View for Instruction {
    type V = u64;

    closed spec fn view(&self) -> u64 {
        self.0
    }
}

impl Instruction {
    /// Wraps an instruction word.
    pub fn new(word: u64) -> (r: Self)
        ensures
            r@ == word,
    {
        Instruction(word)
    }

    /// Reads the eight-bit opcode from the low end of the word and shifts
    /// it away.
    pub fn read_opcode(&mut self) -> (op: u8)
        ensures
            op == (old(self)@ & 0xff) as u8,
            final (self)@ == old(self)@ >> 8,
    {
        let opcode = (self.0 & 0xff) as u8;
        self.0 = self.0 >> 8;
        opcode
    }

    /// Reads the one-bit high/low region selector from the low end of the
    /// word and shifts it away.
    pub fn read_target_region(&mut self) -> (r: TargetRegion)
        ensures
            r == (if old(self)@ & 0x1 == 1 {
                TargetRegion::High
            } else {
                TargetRegion::Low
            }),
            final (self)@ == old(self)@ >> 1,
    {
        let bit = self.0 & 0x1;
        self.0 = self.0 >> 1;
        if bit == 1 {
            TargetRegion::High
        } else {
            TargetRegion::Low
        }
    }

    /// Reads one operand from the low end of the word and shifts it away:
    /// a memory-reference bit, a four-bit register and a thirteen-bit
    /// constant, eighteen bits in all.
    pub fn read_input(&mut self) -> (r: Input)
        ensures
            final (self)@ == old(self)@ >> 18,
            ({
                let w = old(self)@;
                match r {
                    Input::Ref { register, constant } => w & 0x1 == 1 && register@ == ((w >> 1)
                        & 0xf) as u8 && constant@ == ((w >> 5) & 0x1fff) as u16,
                    Input::Value { register, constant } => w & 0x1 == 0 && register@ == ((w >> 1)
                        & 0xf) as u8 && constant@ == ((w >> 5) & 0x1fff) as u16,
                }
            }),
    {
        let ghost w = self.0;
        let is_mem = (self.0 & 0x1) != 0;
        self.0 = self.0 >> 1;
        proof {
            assert((w >> 1) & 0xf <= 0xf) by (bit_vector);
        }
        let register = u4::new((self.0 & 0xf) as u8);
        self.0 = self.0 >> 4;
        proof {
            assert((w >> 1) >> 4 == w >> 5) by (bit_vector);
            assert((w >> 5) & 0x1fff <= 0x1fff) by (bit_vector);
        }
        let constant = u13::new((self.0 & 0x1fff) as u16);
        self.0 = self.0 >> 13;
        proof {
            assert((w >> 5) >> 13 == w >> 18) by (bit_vector);
            assert((w & 0x1 == 1) == (w & 0x1 != 0)) by (bit_vector);
        }
        if is_mem {
            Input::Ref { register, constant }
        } else {
            Input::Value { register, constant }
        }
    }
}

impl Storable for Instruction {
    /// An instruction's image is its word's little-endian image.
    open spec fn repr(&self) -> Seq<u8> {
        u64_le_bytes(self@)
    }

    fn store_to(&self, dest: &mut Mem, start: PtrType) -> (r: Result<PtrType, MemError>) {
        self.0.store_to(dest, start)
    }
}

impl Loadable for Instruction {
    open spec fn can_load(bytes: Seq<u8>, start: int) -> bool {
        start + 8 <= bytes.len()
    }

    open spec fn is_load_of(&self, bytes: Seq<u8>, start: int, end: int) -> bool {
        end == start + 8 && self@ == u64_from_le_bytes(bytes.subrange(start, start + 8))
    }

    fn load_from(src: &Mem, start: PtrType) -> (r: Result<(PtrType, Self), MemError>) {
        match u64::load_from(src, start) {
            Result::Ok((end, value)) => Result::Ok((end, Instruction(value))),
            Result::Err(e) => Result::Err(e),
        }
    }
}

/// The machine's state: its memory, an instruction pointer and a stack
/// pointer, both advancing upward through the memory.
pub struct VM {
    pub memory: MemBuf,
    pub ip_ptr: u32,
    pub stack_ptr: u32,
}

impl VM {
    /// A machine over the given memory with both cursors placed.
    pub fn new(memory: MemBuf, ip_ptr: u32, stack_ptr: u32) -> (r: Self)
        ensures
            r.memory@ == memory@,
            r.ip_ptr == ip_ptr,
            r.stack_ptr == stack_ptr,
    {
        VM { memory, ip_ptr, stack_ptr }
    }

    /// Reads the instruction word under the instruction pointer and
    /// advances the pointer past it. The pointer must sit on a full word:
    /// running off the code is a machine defect, not a handled condition.
    pub fn pop_instruction(&mut self) -> (r: Instruction)
        requires
            old(self).memory.wf(),
            old(self).ip_ptr as int + 8 <= old(self).memory@.len(),
        ensures
            r@ == u64_from_le_bytes(
                old(self).memory@.subrange(old(self).ip_ptr as int, old(self).ip_ptr as int + 8),
            ),
            final (self).ip_ptr == old(self).ip_ptr + 8,
            final (self).memory@ == old(self).memory@,
            final (self).stack_ptr == old(self).stack_ptr,
    {
        let r: Result<Instruction, MemError> = self.memory.load_and_advance(&mut self.ip_ptr);
        match r {
            Result::Ok(instruction) => instruction,
            Result::Err(_) => vstd::pervasive::unreached(),
        }
    }

    /// Reads a value from under the stack pointer and advances the pointer
    /// past it. The bytes must be there: underflowing the stack is a
    /// machine defect, not a handled condition.
    pub fn pop<T: Loadable>(&mut self) -> (r: T)
        requires
            old(self).memory.wf(),
            T::can_load(old(self).memory@, old(self).stack_ptr as int),
        ensures
            old(self).stack_ptr <= final (self).stack_ptr,
            final (self).stack_ptr as int <= old(self).memory@.len(),
            r.is_load_of(
                old(self).memory@,
                old(self).stack_ptr as int,
                final (self).stack_ptr as int,
            ),
            final (self).memory@ == old(self).memory@,
            final (self).ip_ptr == old(self).ip_ptr,
    {
        let r: Result<T, MemError> = self.memory.load_and_advance(&mut self.stack_ptr);
        match r {
            Result::Ok(value) => value,
            Result::Err(_) => vstd::pervasive::unreached(),
        }
    }

    /// Writes a value under the stack pointer and advances the pointer past
    /// it. The value must fit: overflowing the memory is a machine defect,
    /// not a handled condition.
    pub fn push<T: Storable>(&mut self, value: &T)
        requires
            old(self).memory.wf(),
            old(self).stack_ptr as int + value.repr().len() <= old(self).memory@.len(),
        ensures
            final (self).stack_ptr as int == old(self).stack_ptr as int + value.repr().len(),
            final (self).memory@ == spliced(
                old(self).memory@,
                old(self).stack_ptr as int,
                value.repr(),
            ),
            final (self).memory.wf(),
            final (self).ip_ptr == old(self).ip_ptr,
    {
        let r: Result<(), MemError> = self.memory.store_and_advance(&mut self.stack_ptr, value);
        match r {
            Result::Ok(_) => {},
            Result::Err(_) => vstd::pervasive::unreached(),
        }
    }
}

} // verus!
