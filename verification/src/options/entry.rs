use vstd::prelude::*;

verus! {

/// One requested entry: the path its chunk starts from.
#[derive(Debug)]
pub struct EntryItem {
    pub path: String,
}

impl Clone for EntryItem {
    fn clone(&self) -> (r: Self)
        ensures
            r.path@ == self.path@,
    {
        EntryItem { path: self.path.clone() }
    }
}

impl From<String> for EntryItem {
    fn from(path: String) -> (r: Self) {
        Self { path }
    }
}

impl vstd::std_specs::convert::FromSpecImpl<String> for EntryItem {
    open spec fn obeys_from_spec() -> bool {
        true
    }

    open spec fn from_spec(path: String) -> Self {
        EntryItem { path }
    }
}

} // verus!
