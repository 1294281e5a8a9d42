//! The two roles of an endpoint, and what each does to a slot.
use vstd::prelude::*;

use std::marker::PhantomData;

verus! {

/// Which of the two roles an endpoint plays.
#[derive(Debug, Clone, Copy, PartialEq, Eq, Structural)]
pub enum Kind {
    Send,
    Receive,
}

impl Kind {
    /// The other role.
    pub open spec fn other(self) -> Kind {
        match self {
            Kind::Send => Kind::Receive,
            Kind::Receive => Kind::Send,
        }
    }

    /// The other role.
    pub fn opposite(self) -> (k: Kind)
        ensures
            k == self.other(),
    {
        match self {
            Kind::Send => Kind::Receive,
            Kind::Receive => Kind::Send,
        }
    }
}

/// Keeps the roles to the two of this module.
pub trait Sealed {

}

/// A role: what an endpoint hands to a slot, and what it gets from it.
pub trait Role: Sealed {
    /// What the slots hold.
    type Item;

    /// What the endpoint hands in.
    type Input;

    /// What the endpoint gets out.
    type Output;

    /// Which role this is.
    spec fn kind_of() -> Kind;

    /// Whether a slot is in the state in which this role can work on it.
    spec fn ready(slot: Option<Self::Item>) -> bool;

    /// The slot after the exchange, and what the endpoint gets out.
    spec fn exchanged(slot: Option<Self::Item>, input: Self::Input) -> (
        Option<Self::Item>,
        Self::Output,
    );

    /// Which role this is.
    fn kind() -> (k: Kind)
        ensures
            k == Self::kind_of(),
    ;

    /// Works on the slot: hands `input` in and gets the output.
    fn interact(target: &mut Option<Self::Item>, input: Self::Input) -> (output: Self::Output)
        requires
            Self::ready(*old(target)),
        ensures
            (*final(target), output) == Self::exchanged(*old(target), input),
    ;
}

/// The role of a sender: it fills an empty slot.
#[derive(Debug)]
pub struct Send<T> {
    _marker: PhantomData<T>,
}

/// The role of a receiver: it empties a filled slot.
#[derive(Debug)]
pub struct Receive<T> {
    _marker: PhantomData<T>,
}

impl<T> Sealed for Send<T> {

}

impl<T> Sealed for Receive<T> {

}

impl<T> Role for Send<T> {
    type Item = T;

    type Input = T;

    type Output = ();

    open spec fn kind_of() -> Kind {
        Kind::Send
    }

    open spec fn ready(slot: Option<T>) -> bool {
        slot is None
    }

    open spec fn exchanged(slot: Option<T>, input: T) -> (Option<T>, ()) {
        (Some(input), ())
    }

    fn kind() -> (k: Kind) {
        Kind::Send
    }

    fn interact(target: &mut Option<T>, input: T) -> (output: ()) {
        *target = Some(input);
    }
}

impl<T> Role for Receive<T> {
    type Item = T;

    type Input = ();

    type Output = T;

    open spec fn kind_of() -> Kind {
        Kind::Receive
    }

    open spec fn ready(slot: Option<T>) -> bool {
        slot is Some
    }

    open spec fn exchanged(slot: Option<T>, input: ()) -> (Option<T>, T) {
        (None, slot->Some_0)
    }

    fn kind() -> (k: Kind) {
        Kind::Receive
    }

    fn interact(target: &mut Option<T>, input: ()) -> (output: T) {
        target.take().unwrap()
    }
}

} // verus!
