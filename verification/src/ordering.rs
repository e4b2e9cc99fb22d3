//! Listing what was counted by frequency.

use vstd::prelude::*;

verus! {

/// Something counted that can be listed by frequency.
pub trait Ops<T: View> {
    /// Whether the value is fit to be listed.
    spec fn listable(&self) -> bool;

    /// The items by falling count; items with the same count in the order in
    /// which they were first counted.
    spec fn ordered(&self) -> Seq<T::V>;

    /// Lists the items, the most frequent first.
    fn get_ordered_characters(&self) -> (list: Vec<T>)
        requires
            self.listable(),
        ensures
            list@.map_values(|item: T| item@) == self.ordered(),
    ;
}

} // verus!
