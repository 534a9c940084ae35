use vstd::prelude::*;
use vstd::std_specs::convert::FromSpecImpl;

verus! {

/// [`Epoch`] represents the period of time the global epoch value stays the same.
///
/// [`Epoch`] rotates [`u8`] values in a range of `[0..3]` while reclamation itself functions
/// correctly if the range is limited to `[0..2]`. The one additional state is useful for users to
/// determine whether a certain memory chunk can be deallocated or not by using values returned
/// from [`Guard::epoch`](crate::Guard::epoch), e.g., if an [`Owned`](crate::Owned) was retired in
/// epoch `1`, then the [`Owned`](crate::Owned) will become completely unreachable in epoch `0`.
#[derive(Clone, Copy, Debug, Eq, Ord, PartialEq, PartialOrd, Structural)]
pub struct Epoch(pub u8);

impl View for Epoch {
    type V = nat;

    open spec fn view(&self) -> nat {
        self.0 as nat
    }
}

/// The number of distinct epoch values less one; `AND` with it stands for a modulo operation.
pub const EPOCHS: u8 = 3;

/// The value by which the `count`-th period is known.
pub open spec fn epoch_word(count: nat) -> u8 {
    (count % 4) as u8
}

impl Epoch {
    /// The value after a number of epoch changes.
    pub open spec fn later(self, changes: nat) -> nat {
        (self@ + changes) % 4
    }

    /// Returns a future [`Epoch`] when the current readers will not be present.
    ///
    /// The current [`Epoch`] may lag behind the global epoch value by `1`, therefore this method
    /// returns an [`Epoch`] three epochs next to `self`.
    #[must_use]
    pub fn next_generation(self) -> (epoch: Epoch)
        requires
            self@ + 3 <= u8::MAX,
        ensures
            epoch@ == self.later(3),
    {
        self.prev()
    }

    /// Returns the next [`Epoch`] value.
    #[must_use]
    pub fn next(self) -> (epoch: Epoch)
        requires
            self@ + 1 <= u8::MAX,
        ensures
            epoch@ == self.later(1),
    {
        let sum: u8 = self.0 + 1;
        assert(sum & 3 == sum % 4) by (bit_vector);
        Epoch(sum & EPOCHS)
    }

    /// Returns the previous [`Epoch`] value.
    #[must_use]
    pub fn prev(self) -> (epoch: Epoch)
        requires
            self@ + 3 <= u8::MAX,
        ensures
            epoch@ == self.later(3),
    {
        let sum: u8 = self.0 + EPOCHS;
        assert(sum & 3 == sum % 4) by (bit_vector);
        Epoch(sum & EPOCHS)
    }
}

impl Default for Epoch {
    fn default() -> (epoch: Self)
        ensures
            epoch@ == 0,
    {
        Epoch(0)
    }
}

impl FromSpecImpl<Epoch> for u8 {
    open spec fn obeys_from_spec() -> bool {
        true
    }

    open spec fn from_spec(epoch: Epoch) -> u8 {
        epoch.0
    }
}

impl From<Epoch> for u8 {
    fn from(epoch: Epoch) -> (value: Self) {
        epoch.0
    }
}

impl FromSpecImpl<u8> for Epoch {
    open spec fn obeys_from_spec() -> bool {
        true
    }

    open spec fn from_spec(value: u8) -> Epoch {
        Epoch(value)
    }
}

impl From<u8> for Epoch {
    fn from(value: u8) -> (epoch: Self) {
        Epoch(value)
    }
}

} // verus!
