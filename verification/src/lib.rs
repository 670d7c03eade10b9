//! A deterministic recognizer for languages given by a right-linear grammar:
//! rules of the shape `A -> a B` (a transition on a terminal) and `A -> a`
//! (a terminal that may legally end the input). A validated grammar and an
//! input string go in; acceptance, or a diagnostic naming the first point of
//! failure, comes out.

pub mod error;
pub mod recognizer;
pub mod regular;
pub mod regular_grammar;
pub mod symbol;

pub use crate::error::Diagnostic;
pub use crate::error::GrammarError;
pub use crate::error::InputDiagnostic;
pub use crate::error::RuleDiagnostic;
pub use crate::recognizer::NextState;
pub use crate::recognizer::Recognizer;
pub use crate::regular_grammar::Next;
pub use crate::regular_grammar::RegularGrammar;
pub use crate::symbol::Interner;
pub use crate::symbol::Symbol;
