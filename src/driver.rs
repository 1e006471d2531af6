//! The owner of an analysis session.

use vstd::prelude::*;
use crate::codemap::{CodeMap, FileMapView};

verus! {

/// Holds the `CodeMap` of the files being analysed.
#[derive(Debug)]
pub struct Driver {
    codemap: CodeMap,
}

impl Driver {
    /// The `CodeMap` that this driver owns.
    pub closed spec fn map(&self) -> CodeMap {
        self.codemap
    }

    /// Create a new driver, with no files.
    pub fn new() -> (r: Driver)
        ensures
            r.map()@ == Seq::<FileMapView>::empty(),
            r.map().wf(),
    {
        Driver { codemap: CodeMap::new() }
    }

    /// Get access to the driver's `CodeMap`.
    pub fn codemap(&mut self) -> (r: &mut CodeMap)
        ensures
            *r == old(self).map(),
            final(self).map() == *final(r),
    {
        &mut self.codemap
    }
}

impl Default for Driver {
    fn default() -> (r: Driver)
        ensures
            r.map()@ == Seq::<FileMapView>::empty(),
            r.map().wf(),
    {
        Driver::new()
    }
}

} // verus!
