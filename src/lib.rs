//! Visibly pushdown automata: deterministic and nondeterministic recognizers
//! whose stack discipline is dictated by the kind of each input token, with
//! determinization by subset construction.

pub mod alphabet;
pub mod automaton;
pub mod call;
pub mod curry_opt;
pub mod edge;
pub mod error;
pub mod indices;
pub mod lookup;
pub mod merge;
pub mod range;
pub mod soundness;
pub mod state;
pub mod subc;
pub mod wildcard;

pub use alphabet::{Alphabet, Kind, Symbol};
pub use automaton::{Automaton, AutomatonView, Deterministic, Execution, Nondeterministic};
pub use call::Call;
pub use curry_opt::{CurryOpt, CurryOptView, Layer};
pub use edge::{Edge, EdgeView};
pub use error::IllFormed;
pub use indices::Indices;
pub use lookup::Return;
pub use merge::merge;
pub use range::Range;
pub use state::{State, StateView};
pub use wildcard::Wildcard;
