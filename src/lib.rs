pub mod conversion;
pub mod dfa;
pub mod language;
pub mod minimize;
pub mod nfa;
pub mod operators;
pub mod regex;
pub mod test_utils;
pub mod traits;
pub mod util;

pub use nfa::Nfa;
pub use dfa::Dfa;
