use vstd::prelude::*;

pub mod split_chunker;
