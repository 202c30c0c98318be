//! Documents of the store: a page and the counts of its links.

use std::collections::HashMap;
use vstd::prelude::*;
use vstd::string::*;

verus! {

/// The title of a page with the counts of its links.
#[derive(Clone, Debug, Default)]
pub struct Doc {
    /// The title of the page.
    pub id: String,
    /// How often each link occurs.
    pub anchor: HashMap<String, usize>,
}

impl Doc {
    /// A document for the page `id` without links.
    pub fn new(id: &str) -> (d: Doc)
        ensures
            d.id@ == id@,
            d.anchor@ == Map::<String, usize>::empty(),
    {
        Doc { id: String::from_str(id), anchor: HashMap::new() }
    }
}

} // verus!
