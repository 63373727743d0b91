//! Interactive picker engine: a cursor-addressable query buffer, two
//! candidate-filtering strategies (case-insensitive substring and fuzzy
//! subsequence with scoring), and a selection state machine that keeps a
//! highlighted index consistent with the filtered view.

use vstd::prelude::*;

mod app;
mod contains_filterer;
mod filterer;
mod fuzzy_filterer;
mod query;
mod selection;
mod text;

pub use app::App;
pub use app::EngineState;
pub use app::Key;
pub use app::KeyEvent;
pub use app::Strategy;
pub use contains_filterer::ContainsFilterer;
pub use filterer::Filterer;
pub use fuzzy_filterer::FuzzyFilterer;
pub use fuzzy_filterer::MatchResult;
pub use query::QueryBuffer;
pub use selection::SelectionList;
pub use text::lower_char;
pub use text::to_lower_char;

verus! {

} // verus!
