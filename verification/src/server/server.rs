//! The hosts that one listening address serves.
use vstd::prelude::*;

verus! {

/// A host name and the directory its files are served from.
pub struct VirtualHost {
    pub hostname: String,
    pub root_directory: String,
}

} // verus!
