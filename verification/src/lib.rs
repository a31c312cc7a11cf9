pub mod alternatives;
pub mod error;
pub mod flatten;
pub mod generator;
pub mod grammar;
pub mod parser;
pub mod prng;
pub mod rule;
pub mod sppf;
pub mod term;
pub mod text;

pub use alternatives::Alternatives;
pub use error::Error;
pub use generator::GenerationStrategy;
pub use grammar::{Grammar, GrammarBuilder};
pub use parser::ExtendedEarleyParser;
pub use rule::Rule;
pub use term::{Term, TermKind};
