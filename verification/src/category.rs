//! Category labels of pages.

use vstd::prelude::*;
use vstd::string::*;

verus! {

/// The name of a category, without its name space.
#[derive(Clone, Debug, PartialEq)]
pub struct Category(pub String);

impl View for Category {
    type V = Seq<char>;

    open spec fn view(&self) -> Seq<char> {
        self.0@
    }
}

impl Category {
    /// The fully qualified name: the name behind `Category:`.
    pub fn fqn(&self) -> (s: String)
        ensures
            s@ == "Category:"@ + self@,
    {
        String::from_str("Category:").concat(self.0.as_str())
    }
}

} // verus!
