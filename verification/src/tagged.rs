//! Tagged node pointers: an aligned node address with the mark in the low bit.

use vstd::prelude::*;

verus! {

/// A pointer to a node together with a one-bit mark, packed into one word.
///
/// The address occupies every bit but the lowest and is therefore even; the
/// lowest bit is the mark. Two tagged pointers are equal exactly when both
/// the address and the mark agree.
#[derive(Clone, Copy, Debug, PartialEq, Eq, Structural)]
pub struct TaggedPtr {
    word: usize,
}

impl TaggedPtr {
    /// The address part: the word with its low bit cleared.
    pub closed spec fn addr(self) -> usize {
        (self.word - self.word % 2) as usize
    }

    /// The mark: 1 when the low bit is set, else 0.
    pub closed spec fn mark(self) -> usize {
        self.word % 2
    }

    /// Whether the address part is the null address.
    pub open spec fn null(self) -> bool {
        self.addr() == 0
    }

    /// The tagged pointer with the given address and mark.
    pub closed spec fn make(addr: usize, mark: usize) -> TaggedPtr {
        TaggedPtr { word: (addr + mark) as usize }
    }

    /// A tagged pointer is determined by its address and its mark.
    pub proof fn lemma_parts(self)
        ensures
            self.addr() % 2 == 0,
            self.mark() == 0 || self.mark() == 1,
            self == Self::make(self.addr(), self.mark()),
    {
    }

    /// The parts of a pointer made from an even address and a one-bit mark.
    pub proof fn lemma_make(addr: usize, mark: usize)
        requires
            addr % 2 == 0,
            mark <= 1,
        ensures
            Self::make(addr, mark).addr() == addr,
            Self::make(addr, mark).mark() == mark,
    {
    }

    /// Pointers with the same address and the same mark are the same pointer.
    pub proof fn lemma_equal(self, other: TaggedPtr)
        requires
            self.addr() == other.addr(),
            self.mark() == other.mark(),
        ensures
            self == other,
    {
    }

    /// Clearing the mark of a pointer gives the unmarked pointer to the same
    /// address.
    pub proof fn lemma_cleared(self, other: TaggedPtr)
        requires
            self.addr() == other.addr(),
            other.mark() == 0,
        ensures
            Self::make(self.addr(), 0) == other,
    {
    }

    /// The null pointer, unmarked.
    pub fn null_ptr() -> (p: TaggedPtr)
        ensures
            p == Self::make(0, 0),
            p.null(),
            p.mark() == 0,
    {
        TaggedPtr { word: 0 }
    }

    /// Packs an aligned address and a mark. Only the low bit of `tag` counts.
    pub fn new(addr: usize, tag: usize) -> (p: TaggedPtr)
        requires
            addr % 2 == 0,
        ensures
            p == Self::make(addr, (tag % 2) as usize),
            p.addr() == addr,
            p.mark() == tag % 2,
    {
        let bit: usize = tag & 1;
        let word: usize = addr | bit;
        assert(bit == tag % 2) by (bit_vector)
            requires
                bit == tag & 1,
        ;
        assert(word == addr + bit) by (bit_vector)
            requires
                word == addr | bit,
                addr % 2 == 0,
                bit <= 1,
        ;
        TaggedPtr { word }
    }

    /// The address part, with the mark cleared.
    pub fn address(&self) -> (a: usize)
        ensures
            a == self.addr(),
    {
        let w: usize = self.word;
        let a: usize = w & !1usize;
        assert(a == w - w % 2) by (bit_vector)
            requires
                a == w & !1usize,
        ;
        a
    }

    /// The mark bit, as 0 or 1.
    pub fn tag(&self) -> (t: usize)
        ensures
            t == self.mark(),
            t <= 1,
    {
        let w: usize = self.word;
        let t: usize = w & 1;
        assert(t == w % 2) by (bit_vector)
            requires
                t == w & 1,
        ;
        t
    }

    /// The same address with the mark replaced by the low bit of `tag`.
    pub fn with_tag(&self, tag: usize) -> (p: TaggedPtr)
        ensures
            p.addr() == self.addr(),
            p.mark() == tag % 2,
            p == Self::make(self.addr(), (tag % 2) as usize),
    {
        TaggedPtr::new(self.address(), tag)
    }

    /// Whether the address part is null, whatever the mark.
    pub fn is_null(&self) -> (b: bool)
        ensures
            b == self.null(),
    {
        self.address() == 0
    }
}

} // verus!
