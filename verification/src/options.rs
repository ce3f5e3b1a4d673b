use vstd::prelude::*;

pub mod complier_options;
pub mod entry;
pub mod optimization;
