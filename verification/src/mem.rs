//! A flat byte memory and a codec for fixed-width values: `Storable` values
//! write a little-endian byte image into a memory, `Loadable` values read
//! one back out. Every operation either succeeds exactly within the buffer
//! or fails with `OutOfMemory` and leaves the buffer unchanged.

use vstd::prelude::*;

verus! {

/// One addressable unit of a memory.
pub type Word = u8;

/// An address into a memory.
pub type PtrType = u32;

/// The size of a memory.
pub type SizeType = u32;

/// Why a memory operation failed: the bytes it needed lie beyond the end
/// of the buffer.
#[derive(Debug, Clone, Copy, PartialEq, Eq, Structural)]
pub enum MemError {
    OutOfMemory,
}

/// The bytes of `bytes` with `image` written over the range starting at
/// `start`: everything outside that range is unchanged.
pub open spec fn spliced(bytes: Seq<u8>, start: int, image: Seq<u8>) -> Seq<u8>
    recommends
        0 <= start,
        start + image.len() <= bytes.len(),
{
    bytes.subrange(0, start) + image + bytes.subrange(start + image.len(), bytes.len() as int)
}

/// A flat byte memory. Its size never exceeds what a `PtrType` can
/// address, so every valid position fits in an address.
pub struct Mem {
    words: Vec<Word>,
}

impl View for Mem {
    type V = Seq<u8>;

    closed spec fn view(&self) -> Seq<u8> {
        self.words@
    }
}

impl Mem {
    /// Every address into this memory fits in a `PtrType`.
    pub open spec fn wf(&self) -> bool {
        self@.len() <= u32::MAX
    }

    /// Wraps a byte vector as a memory.
    pub fn new(words: Vec<Word>) -> (r: Self)
        requires
            words@.len() <= u32::MAX,
        ensures
            r@ == words@,
            r.wf(),
    {
        Mem { words }
    }

    /// The bytes of this memory, as a fresh vector.
    pub fn to_words(&self) -> (r: Vec<Word>)
        ensures
            r@ == self@,
    {
        copy_words(&self.words)
    }

    /// An owned copy of this memory's bytes.
    pub fn to_buffer(&self) -> (r: MemBuf)
        requires
            self.wf(),
        ensures
            r@ == self@,
            r.wf(),
    {
        MemBuf { mem: Mem { words: copy_words(&self.words) } }
    }
}

/// An owned byte buffer, usable wherever a memory is.
pub struct MemBuf {
    mem: Mem,
}

impl View for MemBuf {
    type V = Seq<u8>;

    closed spec fn view(&self) -> Seq<u8> {
        self.mem@
    }
}

impl MemBuf {
    /// Every address into this buffer fits in a `PtrType`.
    pub open spec fn wf(&self) -> bool {
        self@.len() <= u32::MAX
    }

    /// Wraps a byte vector as an owned buffer.
    pub fn from_words(words: Vec<Word>) -> (r: Self)
        requires
            words@.len() <= u32::MAX,
        ensures
            r@ == words@,
            r.wf(),
    {
        MemBuf { mem: Mem::new(words) }
    }

    /// The bytes of this buffer, as a fresh vector.
    pub fn to_words(&self) -> (r: Vec<Word>)
        ensures
            r@ == self@,
    {
        copy_words(&self.mem.words)
    }

    /// This buffer seen as a memory.
    pub fn as_mem(&self) -> (r: &Mem)
        ensures
            r@ == self@,
    {
        &self.mem
    }

}

/// A fresh vector holding the same bytes.
fn copy_words(v: &Vec<Word>) -> (r: Vec<Word>)
    ensures
        r@ == v@,
{
    let mut out: Vec<Word> = Vec::new();
    let mut i: usize = 0;
    while i < v.len()
        invariant
            i <= v.len(),
            out@ == v@.take(i as int),
        decreases v.len() - i,
    {
        out.push(v[i]);
        proof {
            assert(out@ =~= v@.take(i as int + 1));
        }
        i += 1;
    }
    proof {
        assert(out@ =~= v@);
    }
    out
}

// ------------------------------------------------------------------
// The codec traits.
// ------------------------------------------------------------------

/// A value with a byte image that can be written into a memory.
pub trait Storable {
    /// The byte image of the value (little-endian for numbers).
    spec fn repr(&self) -> Seq<u8>;

    /// Writes the image at `start`; on success returns the address one past
    /// it. Fails, leaving the memory unchanged, exactly when the image
    /// would not fit.
    fn store_to(&self, target: &mut Mem, start: PtrType) -> (r: Result<PtrType, MemError>)
        requires
            old(target).wf(),
        ensures
            final (target).wf(),
            match r {
                Result::Ok(end) => start as int + self.repr().len() <= old(target)@.len() && end
                    as int == start as int + self.repr().len() && final (target)@ == spliced(
                    old(target)@,
                    start as int,
                    self.repr(),
                ),
                Result::Err(e) => e == MemError::OutOfMemory && final (target)@ == old(target)@
                    && start as int + self.repr().len() > old(target)@.len(),
            },
    ;
}

/// A value that can be read back out of a memory.
pub trait Loadable: Sized {
    /// Whether a value of this type can be read at `start`.
    spec fn can_load(bytes: Seq<u8>, start: int) -> bool;

    /// How a loaded value relates to the bytes it was read from.
    spec fn is_load_of(&self, bytes: Seq<u8>, start: int, end: int) -> bool;

    /// Reads a value at `start`; on success returns the address one past
    /// the bytes consumed together with the value.
    fn load_from(m: &Mem, start: PtrType) -> (r: Result<(PtrType, Self), MemError>)
        requires
            m.wf(),
        ensures
            (r is Ok) == Self::can_load(m@, start as int),
            match r {
                Result::Ok((end, v)) => start <= end && end as int <= m@.len() && v.is_load_of(
                    m@,
                    start as int,
                    end as int,
                ),
                Result::Err(e) => e == MemError::OutOfMemory,
            },
    ;
}

// ------------------------------------------------------------------
// Whole memories as storable / loadable values.
// ------------------------------------------------------------------

impl Storable for Mem {
    /// A memory's image is its own bytes.
    open spec fn repr(&self) -> Seq<u8> {
        self@
    }

    #[verifier::loop_isolation(false)]
    fn store_to(&self, target: &mut Mem, start: PtrType) -> (r: Result<PtrType, MemError>) {
        let start_us = start as usize;
        if start_us > target.words.len() || self.words.len() > target.words.len() - start_us {
            return Result::Err(MemError::OutOfMemory);
        }
        let mut i: usize = 0;
        while i < self.words.len()
            invariant
                i <= self.words.len(),
                target.words@.len() == old(target)@.len(),
                forall|j: int| 0 <= j < start_us ==> target.words@[j] == old(target)@[j],
                forall|j: int|
                    start_us <= j < start_us + i ==> target.words@[j] == self.words@[j - start_us],
                forall|j: int|
                    start_us + self.words@.len() <= j < target.words@.len() ==> target.words@[j]
                        == old(target)@[j],
            decreases self.words.len() - i,
        {
            target.words.set(start_us + i, self.words[i]);
            i += 1;
        }
        proof {
            assert(target.words@ =~= spliced(old(target)@, start as int, self@));
        }
        Result::Ok((start_us + self.words.len()) as u32)
    }
}

impl Loadable for MemBuf {
    /// The remainder of a memory can be read from any position inside it.
    open spec fn can_load(bytes: Seq<u8>, start: int) -> bool {
        start <= bytes.len()
    }

    /// Loading a buffer takes every byte from `start` to the end.
    open spec fn is_load_of(&self, bytes: Seq<u8>, start: int, end: int) -> bool {
        end == bytes.len() && self@ == bytes.subrange(start, bytes.len() as int)
    }

    #[verifier::loop_isolation(false)]
    fn load_from(m: &Mem, start: PtrType) -> (r: Result<(PtrType, Self), MemError>) {
        let start_us = start as usize;
        if start_us > m.words.len() {
            return Result::Err(MemError::OutOfMemory);
        }
        let mut out: Vec<Word> = Vec::new();
        let mut i: usize = start_us;
        while i < m.words.len()
            invariant
                start_us <= i <= m.words.len(),
                out@ == m@.subrange(start as int, i as int),
            decreases m.words.len() - i,
        {
            out.push(m.words[i]);
            proof {
                assert(out@ =~= m@.subrange(start as int, i as int + 1));
            }
            i += 1;
        }
        let end = m.words.len() as u32;
        Result::Ok((end, MemBuf::from_words(out)))
    }
}

// ------------------------------------------------------------------
// Numbers as storable / loadable values, little-endian.
// ------------------------------------------------------------------

/// The little-endian image of a `u64`.
pub open spec fn u64_le_bytes(x: u64) -> Seq<u8> {
    seq![
        (x & 0xff) as u8,
        ((x >> 8) & 0xff) as u8,
        ((x >> 16) & 0xff) as u8,
        ((x >> 24) & 0xff) as u8,
        ((x >> 32) & 0xff) as u8,
        ((x >> 40) & 0xff) as u8,
        ((x >> 48) & 0xff) as u8,
        ((x >> 56) & 0xff) as u8,
    ]
}

/// The `u64` read little-endian from eight bytes.
pub open spec fn u64_from_le_bytes(s: Seq<u8>) -> u64
    recommends
        s.len() == 8,
{
    (s[0] as u64) | (s[1] as u64) << 8 | (s[2] as u64) << 16 | (s[3] as u64) << 24 | (s[4] as u64)
        << 32 | (s[5] as u64) << 40 | (s[6] as u64) << 48 | (s[7] as u64) << 56
}

/// Reading back the image of a `u64` yields the number again.
pub proof fn lemma_u64_le_round_trip(x: u64)
    ensures
        u64_le_bytes(x).len() == 8,
        u64_from_le_bytes(u64_le_bytes(x)) == x,
{
    assert(((x & 0xff) as u8 as u64) | (((x >> 8) & 0xff) as u8 as u64) << 8 | (((x >> 16)
        & 0xff) as u8 as u64) << 16 | (((x >> 24) & 0xff) as u8 as u64) << 24 | (((x >> 32)
        & 0xff) as u8 as u64) << 32 | (((x >> 40) & 0xff) as u8 as u64) << 40 | (((x >> 48)
        & 0xff) as u8 as u64) << 48 | (((x >> 56) & 0xff) as u8 as u64) << 56 == x)
        by (bit_vector);
}

impl Storable for u64 {
    open spec fn repr(&self) -> Seq<u8> {
        u64_le_bytes(*self)
    }

    #[verifier::loop_isolation(false)]
    fn store_to(&self, target: &mut Mem, start: PtrType) -> (r: Result<PtrType, MemError>) {
        let start_us = start as usize;
        if start_us > target.words.len() || 8 > target.words.len() - start_us {
            return Result::Err(MemError::OutOfMemory);
        }
        let x = *self;
        target.words.set(start_us, (x & 0xff) as u8);
        target.words.set(start_us + 1, ((x >> 8) & 0xff) as u8);
        target.words.set(start_us + 2, ((x >> 16) & 0xff) as u8);
        target.words.set(start_us + 3, ((x >> 24) & 0xff) as u8);
        target.words.set(start_us + 4, ((x >> 32) & 0xff) as u8);
        target.words.set(start_us + 5, ((x >> 40) & 0xff) as u8);
        target.words.set(start_us + 6, ((x >> 48) & 0xff) as u8);
        target.words.set(start_us + 7, ((x >> 56) & 0xff) as u8);
        proof {
            assert(target.words@ =~= spliced(old(target)@, start as int, u64_le_bytes(x)));
        }
        Result::Ok((start_us + 8) as u32)
    }
}

impl Loadable for u64 {
    open spec fn can_load(bytes: Seq<u8>, start: int) -> bool {
        start + 8 <= bytes.len()
    }

    open spec fn is_load_of(&self, bytes: Seq<u8>, start: int, end: int) -> bool {
        end == start + 8 && *self == u64_from_le_bytes(bytes.subrange(start, start + 8))
    }

    fn load_from(m: &Mem, start: PtrType) -> (r: Result<(PtrType, Self), MemError>) {
        let start_us = start as usize;
        if start_us > m.words.len() || 8 > m.words.len() - start_us {
            return Result::Err(MemError::OutOfMemory);
        }
        let value = (m.words[start_us] as u64) | (m.words[start_us + 1] as u64) << 8 | (
        m.words[start_us + 2] as u64) << 16 | (m.words[start_us + 3] as u64) << 24 | (
        m.words[start_us + 4] as u64) << 32 | (m.words[start_us + 5] as u64) << 40 | (
        m.words[start_us + 6] as u64) << 48 | (m.words[start_us + 7] as u64) << 56;
        proof {
            let sub = m@.subrange(start as int, start as int + 8);
            assert(sub[0] == m@[start as int]);
            assert(sub[1] == m@[start as int + 1]);
            assert(sub[2] == m@[start as int + 2]);
            assert(sub[3] == m@[start as int + 3]);
            assert(sub[4] == m@[start as int + 4]);
            assert(sub[5] == m@[start as int + 5]);
            assert(sub[6] == m@[start as int + 6]);
            assert(sub[7] == m@[start as int + 7]);
        }
        Result::Ok(((start_us + 8) as u32, value))
    }
}

impl Storable for u8 {
    open spec fn repr(&self) -> Seq<u8> {
        seq![*self]
    }

    fn store_to(&self, target: &mut Mem, start: PtrType) -> (r: Result<PtrType, MemError>) {
        let start_us = start as usize;
        if start_us >= target.words.len() {
            return Result::Err(MemError::OutOfMemory);
        }
        target.words.set(start_us, *self);
        proof {
            assert(target.words@ =~= spliced(old(target)@, start as int, seq![*self]));
        }
        Result::Ok((start_us + 1) as u32)
    }
}

impl Loadable for u8 {
    open spec fn can_load(bytes: Seq<u8>, start: int) -> bool {
        start + 1 <= bytes.len()
    }

    open spec fn is_load_of(&self, bytes: Seq<u8>, start: int, end: int) -> bool {
        end == start + 1 && *self == bytes[start]
    }

    fn load_from(m: &Mem, start: PtrType) -> (r: Result<(PtrType, Self), MemError>) {
        let start_us = start as usize;
        if start_us >= m.words.len() {
            return Result::Err(MemError::OutOfMemory);
        }
        Result::Ok(((start_us + 1) as u32, m.words[start_us]))
    }
}


/// The little-endian image of a `u16`.
pub open spec fn u16_le_bytes(x: u16) -> Seq<u8> {
    seq![(x & 0xff) as u8, ((x >> 8) & 0xff) as u8]
}

/// The `u16` read little-endian from two bytes.
pub open spec fn u16_from_le_bytes(s: Seq<u8>) -> u16
    recommends
        s.len() == 2,
{
    (s[0] as u16) | (s[1] as u16) << 8
}

/// Reading back the image of a `u16` yields the number again.
pub proof fn lemma_u16_le_round_trip(x: u16)
    ensures
        u16_le_bytes(x).len() == 2,
        u16_from_le_bytes(u16_le_bytes(x)) == x,
{
    assert(((x & 0xff) as u8 as u16) | (((x >> 8) & 0xff) as u8 as u16) << 8 == x)
        by (bit_vector);
}

impl Storable for u16 {
    open spec fn repr(&self) -> Seq<u8> {
        u16_le_bytes(*self)
    }

    fn store_to(&self, target: &mut Mem, start: PtrType) -> (r: Result<PtrType, MemError>) {
        let start_us = start as usize;
        if start_us > target.words.len() || 2 > target.words.len() - start_us {
            return Result::Err(MemError::OutOfMemory);
        }
        let x = *self;
        target.words.set(start_us, (x & 0xff) as u8);
        target.words.set(start_us + 1, ((x >> 8) & 0xff) as u8);
        proof {
            assert(target.words@ =~= spliced(old(target)@, start as int, u16_le_bytes(x)));
        }
        Result::Ok((start_us + 2) as u32)
    }
}

impl Loadable for u16 {
    open spec fn can_load(bytes: Seq<u8>, start: int) -> bool {
        start + 2 <= bytes.len()
    }

    open spec fn is_load_of(&self, bytes: Seq<u8>, start: int, end: int) -> bool {
        end == start + 2 && *self == u16_from_le_bytes(bytes.subrange(start, start + 2))
    }

    fn load_from(m: &Mem, start: PtrType) -> (r: Result<(PtrType, Self), MemError>) {
        let start_us = start as usize;
        if start_us > m.words.len() || 2 > m.words.len() - start_us {
            return Result::Err(MemError::OutOfMemory);
        }
        let value = (m.words[start_us] as u16) | (m.words[start_us + 1] as u16) << 8;
        proof {
            let sub = m@.subrange(start as int, start as int + 2);
            assert(sub[0] == m@[start as int]);
            assert(sub[1] == m@[start as int + 1]);
        }
        Result::Ok(((start_us + 2) as u32, value))
    }
}

/// The little-endian image of a `u32`.
pub open spec fn u32_le_bytes(x: u32) -> Seq<u8> {
    seq![
        (x & 0xff) as u8,
        ((x >> 8) & 0xff) as u8,
        ((x >> 16) & 0xff) as u8,
        ((x >> 24) & 0xff) as u8,
    ]
}

/// The `u32` read little-endian from four bytes.
pub open spec fn u32_from_le_bytes(s: Seq<u8>) -> u32
    recommends
        s.len() == 4,
{
    (s[0] as u32) | (s[1] as u32) << 8 | (s[2] as u32) << 16 | (s[3] as u32) << 24
}

/// Reading back the image of a `u32` yields the number again.
pub proof fn lemma_u32_le_round_trip(x: u32)
    ensures
        u32_le_bytes(x).len() == 4,
        u32_from_le_bytes(u32_le_bytes(x)) == x,
{
    assert(((x & 0xff) as u8 as u32) | (((x >> 8) & 0xff) as u8 as u32) << 8 | (((x >> 16)
        & 0xff) as u8 as u32) << 16 | (((x >> 24) & 0xff) as u8 as u32) << 24 == x)
        by (bit_vector);
}

impl Storable for u32 {
    open spec fn repr(&self) -> Seq<u8> {
        u32_le_bytes(*self)
    }

    fn store_to(&self, target: &mut Mem, start: PtrType) -> (r: Result<PtrType, MemError>) {
        let start_us = start as usize;
        if start_us > target.words.len() || 4 > target.words.len() - start_us {
            return Result::Err(MemError::OutOfMemory);
        }
        let x = *self;
        target.words.set(start_us, (x & 0xff) as u8);
        target.words.set(start_us + 1, ((x >> 8) & 0xff) as u8);
        target.words.set(start_us + 2, ((x >> 16) & 0xff) as u8);
        target.words.set(start_us + 3, ((x >> 24) & 0xff) as u8);
        proof {
            assert(target.words@ =~= spliced(old(target)@, start as int, u32_le_bytes(x)));
        }
        Result::Ok((start_us + 4) as u32)
    }
}

impl Loadable for u32 {
    open spec fn can_load(bytes: Seq<u8>, start: int) -> bool {
        start + 4 <= bytes.len()
    }

    open spec fn is_load_of(&self, bytes: Seq<u8>, start: int, end: int) -> bool {
        end == start + 4 && *self == u32_from_le_bytes(bytes.subrange(start, start + 4))
    }

    fn load_from(m: &Mem, start: PtrType) -> (r: Result<(PtrType, Self), MemError>) {
        let start_us = start as usize;
        if start_us > m.words.len() || 4 > m.words.len() - start_us {
            return Result::Err(MemError::OutOfMemory);
        }
        let value = (m.words[start_us] as u32) | (m.words[start_us + 1] as u32) << 8 | (
        m.words[start_us + 2] as u32) << 16 | (m.words[start_us + 3] as u32) << 24;
        proof {
            let sub = m@.subrange(start as int, start as int + 4);
            assert(sub[0] == m@[start as int]);
            assert(sub[1] == m@[start as int + 1]);
            assert(sub[2] == m@[start as int + 2]);
            assert(sub[3] == m@[start as int + 3]);
        }
        Result::Ok(((start_us + 4) as u32, value))
    }
}

/// Law: storing a number and loading it back at the same address yields the
/// number again, whatever else the buffer holds.
pub proof fn lemma_u16_store_load_round_trip(x: u16, bytes: Seq<u8>, start: int)
    requires
        0 <= start,
        start + 2 <= bytes.len(),
    ensures
        u16_from_le_bytes(spliced(bytes, start, u16_le_bytes(x)).subrange(start, start + 2))
            == x,
{
    assert(spliced(bytes, start, u16_le_bytes(x)).subrange(start, start + 2) =~= u16_le_bytes(
        x,
    ));
    lemma_u16_le_round_trip(x);
}

/// Law: storing a number and loading it back at the same address yields the
/// number again, whatever else the buffer holds.
pub proof fn lemma_u32_store_load_round_trip(x: u32, bytes: Seq<u8>, start: int)
    requires
        0 <= start,
        start + 4 <= bytes.len(),
    ensures
        u32_from_le_bytes(spliced(bytes, start, u32_le_bytes(x)).subrange(start, start + 4))
            == x,
{
    assert(spliced(bytes, start, u32_le_bytes(x)).subrange(start, start + 4) =~= u32_le_bytes(
        x,
    ));
    lemma_u32_le_round_trip(x);
}

/// Law: storing a number and loading it back at the same address yields the
/// number again, whatever else the buffer holds.
pub proof fn lemma_u64_store_load_round_trip(x: u64, bytes: Seq<u8>, start: int)
    requires
        0 <= start,
        start + 8 <= bytes.len(),
    ensures
        u64_from_le_bytes(spliced(bytes, start, u64_le_bytes(x)).subrange(start, start + 8))
            == x,
{
    assert(spliced(bytes, start, u64_le_bytes(x)).subrange(start, start + 8) =~= u64_le_bytes(
        x,
    ));
    lemma_u64_le_round_trip(x);
}

// ------------------------------------------------------------------
// Anything that behaves like a memory: load and store any codec value
// at an address, with or without advancing a cursor.
// ------------------------------------------------------------------

/// A byte store that codec values can be read from and written into.
pub trait MemLike {
    /// The bytes held.
    spec fn contents(&self) -> Seq<u8>;

    /// Every address into the store fits in a `PtrType`.
    spec fn mem_wf(&self) -> bool;

    /// How many bytes are held.
    fn size(&self) -> (r: SizeType)
        requires
            self.mem_wf(),
        ensures
            r == self.contents().len(),
    ;

    /// Reads a `T` at `start`.
    fn load<T: Loadable>(&self, start: PtrType) -> (r: Result<(PtrType, T), MemError>)
        requires
            self.mem_wf(),
        ensures
            (r is Ok) == T::can_load(self.contents(), start as int),
            match r {
                Result::Ok((end, v)) => start <= end && end as int <= self.contents().len()
                    && v.is_load_of(self.contents(), start as int, end as int),
                Result::Err(e) => e == MemError::OutOfMemory,
            },
    ;

    /// Reads a `T` at the cursor and moves the cursor past it.
    fn load_and_advance<T: Loadable>(&self, start: &mut PtrType) -> (r: Result<T, MemError>)
        requires
            self.mem_wf(),
        ensures
            (r is Ok) == T::can_load(self.contents(), *old(start) as int),
            match r {
                Result::Ok(v) => *old(start) <= *final(start) && *final(start) as int
                    <= self.contents().len() && v.is_load_of(
                    self.contents(),
                    *old(start) as int,
                    *final(start) as int,
                ),
                Result::Err(e) => e == MemError::OutOfMemory && *final(start) == *old(start),
            },
    ;

    /// Writes a `T` at `start`.
    fn store<T: Storable>(&mut self, start: PtrType, value: &T) -> (r: Result<PtrType, MemError>)
        requires
            old(self).mem_wf(),
        ensures
            final (self).mem_wf(),
            match r {
                Result::Ok(end) => start as int + value.repr().len() <= old(self).contents().len()
                    && end as int == start as int + value.repr().len() && final (self).contents()
                    == spliced(old(self).contents(), start as int, value.repr()),
                Result::Err(e) => e == MemError::OutOfMemory && final (self).contents() == old(
                    self,
                ).contents() && start as int + value.repr().len() > old(self).contents().len(),
            },
    ;

    /// Writes a `T` at the cursor and moves the cursor past it.
    fn store_and_advance<T: Storable>(&mut self, start: &mut PtrType, value: &T) -> (r: Result<
        (),
        MemError,
    >)
        requires
            old(self).mem_wf(),
        ensures
            final (self).mem_wf(),
            match r {
                Result::Ok(_) => *old(start) as int + value.repr().len() <= old(
                    self,
                ).contents().len() && *final(start) as int == *old(start) as int
                    + value.repr().len() && final (self).contents() == spliced(
                    old(self).contents(),
                    *old(start) as int,
                    value.repr(),
                ),
                Result::Err(e) => e == MemError::OutOfMemory && final (self).contents() == old(
                    self,
                ).contents() && *final(start) == *old(start) && *old(start) as int
                    + value.repr().len() > old(self).contents().len(),
            },
    ;
}

impl MemLike for Mem {
    open spec fn contents(&self) -> Seq<u8> {
        self@
    }

    open spec fn mem_wf(&self) -> bool {
        self.wf()
    }

    fn size(&self) -> (r: SizeType) {
        self.words.len() as u32
    }

    fn load<T: Loadable>(&self, start: PtrType) -> (r: Result<(PtrType, T), MemError>) {
        T::load_from(self, start)
    }

    fn load_and_advance<T: Loadable>(&self, start: &mut PtrType) -> (r: Result<T, MemError>) {
        match T::load_from(self, *start) {
            Result::Ok((end, v)) => {
                *start = end;
                Result::Ok(v)
            },
            Result::Err(e) => Result::Err(e),
        }
    }

    fn store<T: Storable>(&mut self, start: PtrType, value: &T) -> (r: Result<PtrType, MemError>) {
        value.store_to(self, start)
    }

    fn store_and_advance<T: Storable>(&mut self, start: &mut PtrType, value: &T) -> (r: Result<
        (),
        MemError,
    >) {
        match value.store_to(self, *start) {
            Result::Ok(end) => {
                *start = end;
                Result::Ok(())
            },
            Result::Err(e) => Result::Err(e),
        }
    }
}

impl MemLike for MemBuf {
    open spec fn contents(&self) -> Seq<u8> {
        self@
    }

    open spec fn mem_wf(&self) -> bool {
        self.wf()
    }

    fn size(&self) -> (r: SizeType) {
        self.mem.words.len() as u32
    }

    fn load<T: Loadable>(&self, start: PtrType) -> (r: Result<(PtrType, T), MemError>) {
        T::load_from(&self.mem, start)
    }

    fn load_and_advance<T: Loadable>(&self, start: &mut PtrType) -> (r: Result<T, MemError>) {
        match T::load_from(&self.mem, *start) {
            Result::Ok((end, v)) => {
                *start = end;
                Result::Ok(v)
            },
            Result::Err(e) => Result::Err(e),
        }
    }

    fn store<T: Storable>(&mut self, start: PtrType, value: &T) -> (r: Result<PtrType, MemError>) {
        value.store_to(&mut self.mem, start)
    }

    fn store_and_advance<T: Storable>(&mut self, start: &mut PtrType, value: &T) -> (r: Result<
        (),
        MemError,
    >) {
        match value.store_to(&mut self.mem, *start) {
            Result::Ok(end) => {
                *start = end;
                Result::Ok(())
            },
            Result::Err(e) => Result::Err(e),
        }
    }
}

} // verus!
