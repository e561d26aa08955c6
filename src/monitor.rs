//! The cancellation flag shared by the readers of one archive session.

use vstd::prelude::*;
use std::sync::atomic::{AtomicBool, Ordering};
use crate::error::ArchiveError;

verus! {

/// Once canceled, every later check fails; it is never reset.
pub struct Monitor {
    flag: AtomicBool,
}

impl Monitor {
    pub fn new() -> (r: Monitor) {
        Monitor { flag: AtomicBool::new(false) }
    }

    /// Asks every reader that checks this monitor to stop.
    pub fn cancel(&self) {
        self.flag.store(true, Ordering::SeqCst);
    }

    /// Fails with `Canceled` once the monitor has been canceled.
    pub fn stopped(&self) -> (r: Result<(), ArchiveError>)
        ensures
            r is Err ==> r->Err_0 == ArchiveError::Canceled,
    {
        if self.flag.load(Ordering::SeqCst) {
            Err(ArchiveError::Canceled)
        } else {
            Ok(())
        }
    }
}

} // verus!
