//! The state of a network listener: whether it is open, and on which address. Binding the
//! socket is the caller's part; the listener records the outcome.
use vstd::prelude::*;

verus! {

pub struct Server {
    pub listening: bool,
    pub listening_addr: String,
}

impl Server {
    pub fn new() -> (r: Server)
        ensures
            !r.listening,
            r.listening_addr@.len() == 0,
    {
        Server { listening: false, listening_addr: String::new() }
    }

    pub fn is_open(&self) -> (r: bool)
        ensures
            r == self.listening,
    {
        self.listening
    }

    /// Records an attempt to listen on `addr`: where binding succeeded the listener is open on
    /// `addr`; where it failed nothing changes.
    pub fn open(&mut self, addr: &str, bound: bool)
        ensures
            bound ==> final(self).listening && final(self).listening_addr@ == addr@,
            !bound ==> *final(self) == *old(self),
    {
        if bound {
            self.listening = true;
            self.listening_addr = String::from_str(addr);
        }
    }
}

} // verus!
