use vstd::prelude::*;

pub mod api;
pub mod plugin_deriver;
