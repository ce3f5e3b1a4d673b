use vstd::prelude::*;

use crate::options::entry::EntryItem;

verus! {

/// The build's configuration: the named entries, in the order they were
/// given, and the project root path.
#[derive(Debug)]
pub struct ComplierOptions {
    pub entries: Vec<(String, EntryItem)>,
    pub root: String,
}

impl Default for ComplierOptions {
    fn default() -> (r: Self)
        ensures
            r.entries@.len() == 0,
            r.root@ == Seq::<char>::empty(),
    {
        ComplierOptions { entries: Vec::new(), root: String::new() }
    }
}

} // verus!
