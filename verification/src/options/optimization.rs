use vstd::prelude::*;

verus! {

/// How chunk ids are generated: from the entry module's path, or by a
/// running number.
#[derive(Debug, Clone, Copy, PartialEq, Eq, Structural)]
pub enum ChunkIdAlgo {
    Named,
    Numeric,
}

impl ChunkIdAlgo {
    pub fn is_named(&self) -> (r: bool)
        ensures
            r == (*self is Named),
    {
        matches!(self, Self::Named)
    }

    pub fn is_numeric(&self) -> (r: bool)
        ensures
            r == (*self is Numeric),
    {
        matches!(self, Self::Numeric)
    }
}

/// How module ids are generated.
#[derive(Debug, Clone, Copy, PartialEq, Eq, Structural)]
pub enum ModuleIdAlgo {
    Named,
    Numeric,
}

impl ModuleIdAlgo {
    pub fn is_named(&self) -> (r: bool)
        ensures
            r == (*self is Named),
    {
        matches!(self, Self::Named)
    }

    pub fn is_numeric(&self) -> (r: bool)
        ensures
            r == (*self is Numeric),
    {
        matches!(self, Self::Numeric)
    }
}

impl core::str::FromStr for ModuleIdAlgo {
    type Err = ();

    fn from_str(s: &str) -> Result<Self, Self::Err> {
        if crate::str_eq(s, "named") {
            Ok(Self::Named)
        } else {
            Err(())
        }
    }
}

impl core::str::FromStr for ChunkIdAlgo {
    type Err = ();

    fn from_str(s: &str) -> Result<Self, Self::Err> {
        if crate::str_eq(s, "named") {
            Ok(Self::Named)
        } else {
            Err(())
        }
    }
}

} // verus!
