//! Removing the name of a queue.

use crate::error::ShmError;
use crate::os::OsAction;
use vstd::prelude::*;

verus! {

/// The removal of a name, before the request to the system.
pub struct UnlinkCall {
    /// The name of the shared memory object.
    pub name: String,
}

impl UnlinkCall {
    /// The one request of the removal.
    pub fn action(&self) -> (action: OsAction)
        ensures
            action == OsAction::Unlink,
    {
        OsAction::Unlink
    }

    /// The outcome of the removal, given what the request returned.
    pub fn finish(self, code: i32, errno: i32) -> (result: Result<(), ShmError>)
        ensures
            result is Ok <==> code == 0,
            result matches Err(error) ==> error == (ShmError::Os { errno }),
    {
        if code != 0 {
            Err(ShmError::Os { errno })
        } else {
            Ok(())
        }
    }
}

} // verus!
