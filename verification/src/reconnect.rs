//! A client that reconnects on demand.
//!
//! The connection is (re)established lazily on first use and rebuilt
//! transparently whenever the underlying QUIC connection has been closed,
//! except after an explicit [`close`](ReconnectableClient::close).

use vstd::prelude::*;

use crate::config::Config;
use crate::error::Error;

verus! {

/// Where a [`ReconnectableClient`] stands.
pub ghost struct Link<C> {
    /// The current connection, which may have been closed by now.
    pub client: Option<C>,
    /// Number of successful connects so far.
    pub count: nat,
    /// Permanently closed by the caller.
    pub closed: bool,
}

/// What happens to a [`ReconnectableClient`].
pub ghost enum LinkEvent<C> {
    /// A connection was made. That is not tried once the client is closed.
    Connected(C),
    Invalidated,
    Closed,
}

impl<C> Link<C> {
    /// Where a new client stands.
    pub open spec fn start() -> Link<C> {
        Link { client: None, count: 0, closed: false }
    }

    /// A closed client has no connection.
    pub open spec fn wf(self) -> bool {
        self.closed ==> self.client is None
    }

    /// Where the client stands after an event.
    pub open spec fn after(self, event: LinkEvent<C>) -> Link<C> {
        match event {
            LinkEvent::Connected(c) => if self.closed {
                self
            } else {
                Link { client: Some(c), count: self.count + 1, ..self }
            },
            LinkEvent::Invalidated => Link { client: None, ..self },
            LinkEvent::Closed => Link { client: None, closed: true, ..self },
        }
    }

    /// Where the client stands after some events, in order.
    pub open spec fn after_all(self, events: Seq<LinkEvent<C>>) -> Link<C>
        decreases events.len(),
    {
        if events.len() == 0 {
            self
        } else {
            self.after_all(events.drop_last()).after(events.last())
        }
    }
}

/// What to do to get a live connection.
#[derive(Debug, Clone, Copy, PartialEq, Eq, Structural)]
pub enum Step {
    /// Take the current one.
    Reuse,
    /// Make a new one.
    Connect,
}

/// What to do to get a live connection, where the current one, if there is one, has ended if
/// `ended`; `None` if there is none to be had.
pub open spec fn next_step<C>(link: Link<C>, ended: bool) -> Option<Step> {
    if link.closed {
        None
    } else if link.client is None || ended {
        Some(Step::Connect)
    } else {
        Some(Step::Reuse)
    }
}

/// Closing is for good: whatever happens afterwards, there is no connection to be had.
pub proof fn law_closed_for_good<C>(link: Link<C>, events: Seq<LinkEvent<C>>, ended: bool)
    requires
        link.wf(),
        link.closed,
    ensures
        link.after_all(events).closed,
        link.after_all(events).client is None,
        link.after_all(events).count == link.count,
        next_step(link.after_all(events), ended) is None,
    decreases events.len(),
{
    if events.len() > 0 {
        law_closed_for_good(link, events.drop_last(), ended);
    }
}

/// As long as the client is not closed there is always a way to a live connection: a new one
/// after it was invalidated or has ended, and the same one otherwise.
pub proof fn law_reconnects_on_demand<C>(link: Link<C>, c: C, ended: bool)
    requires
        !link.closed,
    ensures
        next_step(link.after(LinkEvent::Invalidated), ended) == Some(Step::Connect),
        next_step(link.after(LinkEvent::Connected(c)), true) == Some(Step::Connect),
        next_step(link.after(LinkEvent::Connected(c)), false) == Some(Step::Reuse),
        link.after(LinkEvent::Connected(c)).count == link.count + 1,
{
}

/// A client that reconnects on demand. `C` is a connection.
pub struct ReconnectableClient<C> {
    config: Config,
    client: Option<C>,
    count: u64,
    closed: bool,
}

impl<C> View for ReconnectableClient<C> {
    type V = Link<C>;

    closed spec fn view(&self) -> Link<C> {
        Link { client: self.client, count: self.count as nat, closed: self.closed }
    }
}

impl<C> ReconnectableClient<C> {
    /// The configuration to connect with.
    pub closed spec fn settings(&self) -> Config {
        self.config
    }

    /// Create a lazy reconnectable client; the first connection is made on first use.
    pub fn new(config: Config) -> (c: ReconnectableClient<C>)
        ensures
            c@ == Link::<C>::start(),
            c@.wf(),
            c.settings() == config,
    {
        ReconnectableClient { config, client: None, count: 0, closed: false }
    }

    /// The configuration to connect with.
    pub fn config(&self) -> (c: &Config)
        ensures
            *c == self.settings(),
    {
        &self.config
    }

    /// Number of times a connection has been (re)established.
    pub fn connect_count(&self) -> (n: u64)
        ensures
            n == self@.count,
    {
        self.count
    }

    /// The current connection, if there is one.
    pub fn client(&self) -> (c: Option<&C>)
        ensures
            match c {
                Some(c) => self@.client == Some(*c),
                None => self@.client is None,
            },
    {
        self.client.as_ref()
    }

    /// What to do to get a live connection, where the current one, if there is one, has ended
    /// if `ended`.
    pub fn current(&self, ended: bool) -> (r: Result<Step, Error>)
        ensures
            match r {
                Ok(step) => next_step(self@, ended) == Some(step),
                Err(e) => self@.closed && e.is_protocol("client permanently closed"@),
            },
    {
        if self.closed {
            return Err(Error::protocol("client permanently closed"));
        }
        let stale: bool = match &self.client {
            Some(_) => ended,
            None => true,
        };
        if stale {
            Ok(Step::Connect)
        } else {
            Ok(Step::Reuse)
        }
    }

    /// A new connection was made.
    pub fn connected(&mut self, client: C)
        requires
            !old(self)@.closed,
            old(self)@.count < u64::MAX,
        ensures
            final(self)@ == old(self)@.after(LinkEvent::Connected(client)),
            final(self)@.wf(),
            final(self).settings() == old(self).settings(),
    {
        self.client = Some(client);
        self.count += 1;
    }

    /// Drop the current connection so the next call reconnects (e.g. after the
    /// device wakes from sleep with a dead UDP socket).
    pub fn invalidate(&mut self)
        ensures
            final(self)@ == old(self)@.after(LinkEvent::Invalidated),
            final(self)@.wf(),
            final(self).settings() == old(self).settings(),
    {
        self.client = None;
    }

    /// Opening a proxied TCP connection failed. Whether to try again on a fresh connection: only
    /// after the first try, and only if the connection that it was tried on has ended, which is
    /// then dropped.
    pub fn on_tcp_failure(&mut self, first: bool, ended: bool) -> (retry: bool)
        requires
            old(self)@.wf(),
        ensures
            retry == (first && ended),
            final(self)@ == if retry {
                old(self)@.after(LinkEvent::Invalidated)
            } else {
                old(self)@
            },
            final(self)@.wf(),
            final(self).settings() == old(self).settings(),
    {
        if first && ended {
            self.invalidate();
            true
        } else {
            false
        }
    }

    /// Permanently close the client. Subsequent calls return an error.
    pub fn close(&mut self)
        ensures
            final(self)@ == old(self)@.after(LinkEvent::Closed),
            final(self)@.wf(),
            final(self).settings() == old(self).settings(),
    {
        self.closed = true;
        self.client = None;
    }
}

/// Where each event leaves a client. Connecting is counted and ends being without a connection;
/// dropping the connection is not closing; closing is both.
pub proof fn law_link_events<C>(link: Link<C>, c: C)
    ensures
        Link::<C>::start().client is None,
        Link::<C>::start().count == 0,
        !Link::<C>::start().closed,
        !link.closed ==> {
            let t = link.after(LinkEvent::Connected(c));
            t.client == Some(c) && t.count == link.count + 1 && !t.closed
        },
        link.closed ==> link.after(LinkEvent::Connected(c)) == link,
        ({
            let t = link.after(LinkEvent::Invalidated);
            t.client is None && t.count == link.count && t.closed == link.closed
        }),
        ({
            let t = link.after(LinkEvent::Closed);
            t.client is None && t.count == link.count && t.closed
        }),
{
}

/// Events take effect one after the other.
pub proof fn law_link_events_in_order<C>(link: Link<C>, events: Seq<LinkEvent<C>>, e: LinkEvent<C>)
    ensures
        link.after_all(Seq::empty()) == link,
        link.after_all(events.push(e)) == link.after_all(events).after(e),
{
    assert(events.push(e).drop_last() =~= events);
}

/// A connection is reused exactly if there is one that has not ended, and a new one is made
/// otherwise; a closed client does neither.
pub proof fn law_next_step<C>(link: Link<C>, ended: bool)
    ensures
        next_step(link, ended) is None <==> link.closed,
        next_step(link, ended) == Some(Step::Reuse) <==> !link.closed && link.client is Some
            && !ended,
        next_step(link, ended) == Some(Step::Connect) <==> !link.closed && (link.client is None
            || ended),
{
}

} // verus!
