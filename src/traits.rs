use crate::language::Error;
use vstd::prelude::*;

verus! {

/// Adding and removing states and accept states.
pub trait State {
    fn add_state(&mut self);

    fn remove_state(&mut self);

    fn add_accept_state(&mut self, state: u32);

    fn remove_accept_state(&mut self, target: u32);
}

/// Adding and removing symbols of the alphabet.
pub trait Alphabet {
    fn add_symbol(&mut self, symbol: char);

    fn remove_symbol(&mut self, symbol: char);
}

/// Adding transitions.
pub trait Transition {
    fn add_transition(&mut self, source: &(u32, char), target: u32) -> Result<(), Error>;
}

/// Read access to the states and accept states.
pub trait StateIter {
    fn is_empty(&self) -> bool;

    fn states(&self) -> Vec<u32>;

    fn accept_states(&self) -> Vec<u32>;
}

/// Read access to the alphabet.
pub trait AlphabetIter {
    fn alphabet(&self) -> Vec<char>;
}

} // verus!
