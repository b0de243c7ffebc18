//! The exit status of a run: zero on success, else the error's code.
use vstd::prelude::*;

verus! {

pub struct ReturnWrapper {
    pub val: u8,
}

impl ReturnWrapper {
    pub fn new(r: Result<(), u8>) -> (w: ReturnWrapper)
        ensures
            w.val == match r {
                Ok(_) => 0u8,
                Err(e) => e,
            },
    {
        match r {
            Ok(_) => ReturnWrapper { val: 0 },
            Err(e) => ReturnWrapper { val: e },
        }
    }
}

} // verus!
