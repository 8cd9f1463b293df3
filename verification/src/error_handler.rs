//! The custom error pages of a server block.
use vstd::prelude::*;
use std::collections::HashMap;
use crate::config::ServerConfig;

verus! {

broadcast use vstd::std_specs::hash::group_hash_axioms;

pub struct ErrorHandler {
    error_pages: HashMap<u16, String>,
}

impl ErrorHandler {
    /// The error pages, by status code.
    pub closed spec fn pages(&self) -> Map<u16, String> {
        self.error_pages@
    }

    pub fn new(config: &ServerConfig) -> (r: Self)
        ensures
            r.pages() == config.error_pages@,
    {
        ErrorHandler { error_pages: config.error_pages.clone() }
    }
}

} // verus!
