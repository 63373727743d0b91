//! The common contract of the two filtering strategies: narrowing an
//! owned candidate set against a query, returning matching candidates
//! drawn from that set.

use vstd::prelude::*;

verus! {

/// A filtering strategy over a fixed candidate set.
pub trait Filterer {
    /// The candidate set the strategy was built over, as character
    /// sequences in their original order.
    spec fn options(&self) -> Seq<Seq<char>>;

    /// The candidates matching `query`, each drawn from the strategy's
    /// candidate set.
    fn filter(&self, query: &str) -> (r: Vec<String>)
        ensures
            forall|i: int| 0 <= i < r@.len() ==> self.options().contains(#[trigger] r@[i]@),
    ;
}

} // verus!
