//! A connector and a waiter together with the record, kept for
//! specification only, of the attempts and the waits made through them.

use crate::client::{connect_to_server, connects_to, local_server, ServerConnection};
use crate::connection::Connection;
use crate::net::SocketAddr;
use vstd::prelude::*;

verus! {

/// One thing that a dialer did.
pub enum DialEvent {
    /// An attempt to connect, and whether it gave a connection.
    Attempt { succeeded: bool },
    /// A wait, of so many milliseconds.
    Wait { delay: u32 },
}

/// A connector and a waiter, with the record of what was done through them.
pub struct Dialer<F, W> {
    connect: F,
    wait: W,
    log: Ghost<Seq<DialEvent>>,
}

impl<F, W> Dialer<F, W> {
    /// The attempts and the waits made so far, oldest first.
    pub closed spec fn log(&self) -> Seq<DialEvent> {
        self.log@
    }

    /// The connector: it is given an address and gives a connection.
    pub closed spec fn connector(&self) -> &F {
        &self.connect
    }

    /// The waiter: it is given a time in milliseconds and lets it pass.
    pub closed spec fn waiter(&self) -> W {
        self.wait
    }

    /// Begins a record for `connect` and `wait`.
    pub fn new(connect: F, wait: W) -> (dialer: Self)
        ensures
            dialer.connector() == &connect,
            dialer.waiter() == wait,
            dialer.log() == Seq::<DialEvent>::empty(),
    {
        Dialer { connect, wait, log: Ghost(Seq::empty()) }
    }

    /// Makes one attempt to connect to the server on `port` of this machine:
    /// one call of the connector, whose outcome is handed on and recorded.
    pub fn attempt<C>(&mut self, port: u16) -> (r: Result<ServerConnection<C>, C::Error>) where
        C: Connection,
        F: Fn(&SocketAddr) -> Result<C, C::Error>,

        requires
            forall|addr: &SocketAddr|
                addr@ == local_server(port) ==> #[trigger] old(self).connector().requires((addr,)),
        ensures
            final(self).connector() == old(self).connector(),
            final(self).waiter() == old(self).waiter(),
            final(self).log() == old(self).log().push(DialEvent::Attempt { succeeded: r is Ok }),
            r is Ok ==> connects_to(old(self).connector(), port, Ok(r->Ok_0.stream())),
            r is Err ==> connects_to(old(self).connector(), port, Err(r->Err_0)),
    {
        assert(self.connector() == &self.connect);
        let r = connect_to_server(port, &self.connect);
        self.log = Ghost(self.log@.push(DialEvent::Attempt { succeeded: r is Ok }));
        r
    }

    /// Waits for `delay` milliseconds: one call of the waiter, recorded.
    pub fn pause(&mut self, delay: u32) where W: Fn(u32)
        requires
            old(self).waiter().requires((delay,)),
        ensures
            old(self).waiter().ensures((delay,), ()),
            final(self).connector() == old(self).connector(),
            final(self).waiter() == old(self).waiter(),
            final(self).log() == old(self).log().push(DialEvent::Wait { delay }),
    {
        assert(self.waiter() == self.wait);
        (self.wait)(delay);
        self.log = Ghost(self.log@.push(DialEvent::Wait { delay }));
    }
}

} // verus!
