//! The composition root's server handle: the listen address and the
//! controller that serves it.  Binding, serving and middleware are the
//! embedding program's work.

use vstd::prelude::*;

verus! {

/// A server: a listen address and the controller to serve on it.
#[derive(Debug)]
pub struct Server<C> {
    listen_address: String,
    controller: C,
}

impl<C> Server<C> {
    /// The address the server will listen on.
    pub closed spec fn spec_listen_address(&self) -> Seq<char> {
        self.listen_address@
    }

    /// The controller the server dispatches to.
    pub closed spec fn spec_controller(&self) -> C {
        self.controller
    }

    /// A server over the given address and controller.
    pub fn new(listen_address: String, controller: C) -> (r: Server<C>)
        ensures
            r.spec_listen_address() == listen_address@,
            r.spec_controller() == controller,
    {
        Server { listen_address, controller }
    }

    /// The address the server will listen on.
    pub fn listen_address(&self) -> (r: &str)
        ensures
            r@ == self.spec_listen_address(),
    {
        self.listen_address.as_str()
    }

    /// The controller the server dispatches to.
    pub fn controller(&self) -> (r: &C)
        ensures
            *r == self.spec_controller(),
    {
        &self.controller
    }
}

} // verus!
