//! The interface of file connectors.
use vstd::prelude::*;

verus! {

/// Reads a file into the connector's own kind of result.
pub trait FileConnector {
    type Result;

    fn load_file(&self, file_path: &str) -> Self::Result;
}

} // verus!
