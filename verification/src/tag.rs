use std::ops::{Add, Not};
use vstd::prelude::*;
use vstd::std_specs::ops::{AddSpecImpl, NotSpecImpl};

verus! {

/// [`Tag`] is a four-state `Enum` that can be embedded in a pointer as the two least
/// significant bits of the pointer value.
#[derive(Clone, Copy, Debug, Eq, Ord, PartialEq, PartialOrd, Structural)]
pub enum Tag {
    /// Neither bit is tagged.
    Neither,
    /// The first bit is tagged.
    First,
    /// The second bit is tagged.
    Second,
    /// Both bits are tagged.
    Both,
}

impl View for Tag {
    type V = nat;

    open spec fn view(&self) -> nat {
        match *self {
            Tag::Neither => 0,
            Tag::First => 1,
            Tag::Second => 2,
            Tag::Both => 3,
        }
    }
}

impl Tag {
    /// Returns the two bits that stand for the tag.
    pub fn bits(self) -> (bits: usize)
        ensures
            bits == self@,
    {
        match self {
            Tag::Neither => 0,
            Tag::First => 1,
            Tag::Second => 2,
            Tag::Both => 3,
        }
    }

    /// Returns the tag whose bits are given.
    pub fn from_bits(bits: usize) -> (tag: Tag)
        requires
            bits < 4,
        ensures
            tag@ == bits,
    {
        if bits == 0 {
            Tag::Neither
        } else if bits == 1 {
            Tag::First
        } else if bits == 2 {
            Tag::Second
        } else {
            Tag::Both
        }
    }

    /// Returns the tag embedded in the pointer.
    pub fn into_tag(ptr: usize) -> (tag: Tag)
        ensures
            tag@ == ptr % 4,
    {
        assert(ptr & 3 == ptr % 4) by (bit_vector);
        Tag::from_bits(ptr & Tag::Both.bits())
    }

    /// Sets a tag, overwriting any existing tag in the pointer.
    pub fn update_tag(ptr: usize, tag: Tag) -> (tagged: usize)
        ensures
            tagged == retagged(ptr, tag),
    {
        let bits: usize = tag.bits();
        assert((ptr & !3 | bits) == (ptr - ptr % 4) + bits) by (bit_vector)
            requires
                bits < 4,
        ;
        ptr & !Tag::Both.bits() | bits
    }

    /// Returns the pointer with the tag bits erased.
    pub fn unset_tag(ptr: usize) -> (untagged: usize)
        ensures
            untagged == self::untagged(ptr),
    {
        assert(ptr & !3 == (ptr - ptr % 4)) by (bit_vector);
        ptr & !Tag::Both.bits()
    }
}

impl AddSpecImpl for Tag {
    open spec fn obeys_add_spec() -> bool {
        true
    }

    open spec fn add_req(self, rhs: Tag) -> bool {
        self@ + rhs@ < 4
    }

    open spec fn add_spec(self, rhs: Tag) -> Tag {
        tag_of((self@ + rhs@) as nat)
    }
}

impl Add for Tag {
    type Output = Tag;

    fn add(self, rhs: Self) -> (sum: Tag) {
        Tag::from_bits(self.bits() + rhs.bits())
    }
}

impl NotSpecImpl for Tag {
    open spec fn obeys_not_spec() -> bool {
        true
    }

    open spec fn not_req(self) -> bool {
        true
    }

    open spec fn not_spec(self) -> usize {
        !(self@ as usize)
    }
}

impl Not for Tag {
    type Output = usize;

    fn not(self) -> (mask: usize) {
        !self.bits()
    }
}

/// The pointer without its tag.
pub open spec fn untagged(ptr: usize) -> usize {
    (ptr - ptr % 4) as usize
}

/// The pointer with another tag.
pub open spec fn retagged(ptr: usize, mark: Tag) -> usize {
    (ptr - ptr % 4 + mark@) as usize
}

/// The tag whose two bits form `bits`.
pub open spec fn tag_of(bits: nat) -> Tag {
    if bits % 4 == 0 {
        Tag::Neither
    } else if bits % 4 == 1 {
        Tag::First
    } else if bits % 4 == 2 {
        Tag::Second
    } else {
        Tag::Both
    }
}

} // verus!
