use vstd::prelude::*;

verus! {

/// The symbol that marks the empty word. It is always present in an NFA's
/// alphabet, where it labels the transitions taken without reading input, and
/// it is how a synthesised expression writes the empty word.
pub const EMPTY_STRING: char = '\u{3b5}';

/// The kinds of failure that the library reports.
#[derive(Debug, Clone, Copy, PartialEq, Eq, Structural)]
pub enum Error {
    /// The validator rejected the expression: unbalanced parentheses or a
    /// forbidden pair of adjacent operators.
    MalformedRegex,
    /// The parser could not assemble the expression.
    StructuralRegex,
    /// The source state of a transition is not a state of the automaton.
    InvalidState,
    /// The target state of a transition is not a state of the automaton.
    InvalidTarget,
    /// The symbol of a transition is not in the alphabet.
    InvalidSymbol,
    /// A deterministic automaton already has a transition for that state and symbol.
    DuplicateTransition,
    /// A run met a state with no transition on a symbol of the alphabet.
    IncompleteAutomaton,
    /// The subset construction would need more states than `u32` can number.
    TooManyStates,
}

impl Error {
    /// A short description of the error.
    pub fn message(&self) -> &'static str {
        match self {
            Error::MalformedRegex => "Regex contains an invalid pattern or unbalanced brackets",
            Error::StructuralRegex => "Regex is not in the correct form",
            Error::InvalidState => "The source state isn't a valid state",
            Error::InvalidTarget => "The target state isn't a valid state",
            Error::InvalidSymbol => "The symbol is not in the alphabet",
            Error::DuplicateTransition => "The transition already exists",
            Error::IncompleteAutomaton => "The automata is incomplete",
            Error::TooManyStates => "The automaton needs more states than can be numbered",
        }
    }
}

} // verus!
