//! Places of nodes with a tag against reuse.
//!
//! A place is the address of a node, which is a multiple of 64, together
//! with a tag of six bits. Both fit one word: the tag takes the bits that
//! the address leaves clear. Every time a place is put into a queue its
//! tag moves one on, so that a node which left the queue and came back is
//! not taken for the node that was there before.
use vstd::prelude::*;

verus! {

/// The bits of a word that hold the tag.
pub const FLAG: usize = 0b111111;

/// The address of a node, with a tag.
#[derive(Debug, Clone, Copy, PartialEq, Eq, Structural)]
pub struct Ptr {
    flag: usize,
    inner: usize,
}

impl Ptr {
    /// The tag.
    pub closed spec fn tag(self) -> usize {
        self.flag
    }

    /// The address.
    pub closed spec fn address(self) -> usize {
        self.inner
    }

    /// The tag takes six bits, and the address leaves them clear.
    pub open spec fn wf(self) -> bool {
        self.tag() <= FLAG && self.address() % 64 == 0
    }

    /// The place of the node at `inner`, with the tag zero.
    pub fn new(inner: usize) -> (p: Self)
        ensures
            p.tag() == 0,
            p.address() == inner,
    {
        Ptr { flag: 0, inner }
    }

    /// The place of no node, with the tag zero.
    pub fn null() -> (p: Self)
        ensures
            p.tag() == 0,
            p.address() == 0,
            p.wf(),
    {
        Ptr { flag: 0, inner: 0 }
    }

    /// Whether this is the place of no node.
    pub fn is_null(self) -> (r: bool)
        ensures
            r == (self.address() == 0),
    {
        self.inner == 0
    }

    /// Increment inner ABA flag.
    pub fn next(self) -> (p: Self)
        requires
            self.wf(),
        ensures
            p.wf(),
            p.address() == self.address(),
            p.tag() == if self.tag() == FLAG {
                0
            } else {
                (self.tag() + 1) as usize
            },
    {
        let mut this = self;
        let bumped = this.flag + 1;
        assert(bumped & 0b111111 == if bumped == 64 {
            0
        } else {
            bumped
        }) by (bit_vector)
            requires
                bumped <= 64,
        ;
        this.flag = bumped & FLAG;
        this
    }

    /// The word that holds the address and the tag.
    pub open spec fn merged(self) -> usize {
        (self.address() + self.tag()) as usize
    }

    /// The place that a word holds.
    pub fn restore(value: usize) -> (p: Self)
        ensures
            p.wf(),
            p.merged() == value,
            p == Self::restore_spec(value),
    {
        assert(value & 0b111111 <= 0b111111 && (value & !0b111111usize) % 64 == 0 && (value
            & !0b111111usize) + (value & 0b111111) == value) by (bit_vector);
        Ptr { flag: value & FLAG, inner: value & !FLAG }
    }

    /// The word that holds the address and the tag.
    pub fn merge(self) -> (value: usize)
        requires
            self.wf(),
        ensures
            value == self.merged(),
            Self::restore_spec(value) == self,
    {
        let address = self.inner;
        let tag = self.flag;
        assert(address | tag == address + tag && (address | tag) & 0b111111 == tag && (address
            | tag) & !0b111111usize == address) by (bit_vector)
            requires
                tag <= 0b111111,
                address % 64 == 0,
        ;
        self.inner | self.flag
    }

    /// The place that a word holds.
    pub closed spec fn restore_spec(value: usize) -> Ptr {
        Ptr { flag: value & FLAG, inner: value & !FLAG }
    }
}

} // verus!
