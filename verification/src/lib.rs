pub mod base;
pub mod cfgrammar;
pub mod markov;
pub mod name;
pub mod part;
pub mod seqsum;
pub mod formatting;
pub mod rng;
pub mod sample;
pub mod wordlist;

pub use crate::base::LearnError;
pub use crate::cfgrammar::CFGrammar;
pub use crate::markov::Markov;
pub use crate::name::Name;
pub use crate::name::NameFormat;
pub use crate::part::NamePart;
pub use crate::formatting::FormattingRule;
pub use crate::formatting::format_string;
pub use crate::base::ValidationError;
pub use crate::base::WorkingSet;
pub use crate::rng::Prng;
pub use crate::sample::Sample;
pub use crate::sample::SampleSet;
pub use crate::wordlist::WordList;
