use vstd::prelude::*;

verus! {

/// The readiness events a connection waits for.
#[derive(Clone, Copy, Debug, PartialEq, Eq, Structural)]
pub struct Interest {
    pub readable: bool,
    pub writable: bool,
}

impl Interest {
    /// Waiting for input.
    pub fn readable() -> (r: Interest)
        ensures
            r.readable,
            !r.writable,
    {
        Interest { readable: true, writable: false }
    }

    /// Waiting for room to write.
    pub fn writable() -> (r: Interest)
        ensures
            !r.readable,
            r.writable,
    {
        Interest { readable: false, writable: true }
    }

    /// Waiting for either kind of event.
    pub fn add(self, other: Interest) -> (r: Interest)
        ensures
            r.readable == (self.readable || other.readable),
            r.writable == (self.writable || other.writable),
    {
        Interest { readable: self.readable || other.readable, writable: self.writable || other.writable }
    }
}

/// The interest that a connection with `outgoing` left to send should wait on.
pub open spec fn interest_for(outgoing: Seq<u8>) -> Interest {
    Interest { readable: true, writable: outgoing.len() > 0 }
}

/// A connection always waits to read, and waits to write exactly while some
/// bytes of replies are pending, however many.
pub proof fn lemma_writable_while_pending(outgoing: Seq<u8>)
    ensures
        interest_for(outgoing).readable,
        interest_for(outgoing).writable <==> outgoing.len() > 0,
{
}

/// Queuing more bytes never stops a connection from waiting to write, and
/// queuing some makes it wait to write.
pub proof fn lemma_queued_bytes_make_writable(outgoing: Seq<u8>, more: Seq<u8>)
    requires
        outgoing.len() > 0 || more.len() > 0,
    ensures
        interest_for(outgoing + more).writable,
        interest_for(outgoing + more).readable,
{
}

/// What one read from the socket gave.
pub enum ReadEvent<'a> {
    /// Some bytes arrived.
    Data(&'a [u8]),
    /// The peer closed its side.
    Eof,
    /// Nothing more to read for now.
    WouldBlock,
    /// A signal interrupted the read; it may be tried again.
    Interrupted,
    /// Any other error.
    Failed,
}

/// What one write to the socket gave.
pub enum WriteEvent {
    /// This many bytes from the front of the outgoing buffer were sent.
    Wrote(usize),
    /// No room to write for now.
    WouldBlock,
    /// A signal interrupted the write; it may be tried again.
    Interrupted,
    /// Any other error.
    Failed,
}

/// Whether an I/O loop should go on.
#[derive(Clone, Copy, Debug, PartialEq, Eq, Structural)]
pub enum IoStep {
    Continue,
    Stop,
}

/// A client connection's state: the bytes received and not yet answered, the
/// replies not yet sent, and whether the connection should be closed.
pub struct Conn {
    pub want_close: bool,
    pub incoming: Vec<u8>,
    pub outgoing: Vec<u8>,
    pub current_interest: Interest,
}

impl Conn {
    /// A fresh connection: nothing received, nothing to send, waiting for input.
    pub fn new() -> (c: Conn)
        ensures
            !c.want_close,
            c.incoming@ == Seq::<u8>::empty(),
            c.outgoing@ == Seq::<u8>::empty(),
            c.current_interest == interest_for(Seq::empty()),
    {
        Conn {
            want_close: false,
            incoming: Vec::new(),
            outgoing: Vec::new(),
            current_interest: Interest::readable(),
        }
    }

    /// Always readable; writable too while replies wait to be sent.
    pub fn desired_interest(&self) -> (i: Interest)
        ensures
            i == interest_for(self.outgoing@),
    {
        if self.outgoing.len() > 0 {
            Interest::readable().add(Interest::writable())
        } else {
            Interest::readable()
        }
    }

    /// Takes in the outcome of one read: received bytes are queued as input;
    /// the peer closing marks the connection for closing unless replies are
    /// still waiting to be sent.
    pub fn on_readable(&mut self, event: ReadEvent) -> (step: IoStep)
        ensures
            final(self).outgoing@ == old(self).outgoing@,
            final(self).current_interest == old(self).current_interest,
            match event {
                ReadEvent::Data(bytes) => {
                    &&& step == IoStep::Continue
                    &&& final(self).incoming@ == old(self).incoming@ + bytes@
                    &&& final(self).want_close == old(self).want_close
                },
                ReadEvent::Eof => {
                    &&& step == IoStep::Stop
                    &&& final(self).incoming@ == old(self).incoming@
                    &&& final(self).want_close == (old(self).want_close || old(
                        self,
                    ).outgoing@.len() == 0)
                },
                ReadEvent::Interrupted => {
                    &&& step == IoStep::Continue
                    &&& final(self).incoming@ == old(self).incoming@
                    &&& final(self).want_close == old(self).want_close
                },
                _ => {
                    &&& step == IoStep::Stop
                    &&& final(self).incoming@ == old(self).incoming@
                    &&& final(self).want_close == old(self).want_close
                },
            },
    {
        match event {
            ReadEvent::Data(bytes) => {
                let mut i: usize = 0;
                while i < bytes.len()
                    invariant
                        i <= bytes@.len(),
                        self.incoming@ == old(self).incoming@ + bytes@.subrange(0, i as int),
                        self.outgoing@ == old(self).outgoing@,
                        self.current_interest == old(self).current_interest,
                        self.want_close == old(self).want_close,
                    decreases bytes@.len() - i,
                {
                    self.incoming.push(bytes[i]);
                    i = i + 1;
                    proof {
                        assert(self.incoming@ =~= old(self).incoming@ + bytes@.subrange(0, i as int));
                    }
                }
                proof {
                    assert(bytes@.subrange(0, bytes@.len() as int) =~= bytes@);
                }
                IoStep::Continue
            },
            ReadEvent::Eof => {
                if self.outgoing.len() == 0 {
                    self.want_close = true;
                }
                IoStep::Stop
            },
            ReadEvent::WouldBlock => IoStep::Stop,
            ReadEvent::Interrupted => IoStep::Continue,
            ReadEvent::Failed => IoStep::Stop,
        }
    }

    /// Takes in the outcome of one write: sent bytes leave the outgoing buffer.
    pub fn on_writable(&mut self, event: WriteEvent) -> (step: IoStep)
        requires
            old(self).outgoing@.len() >= match event {
                WriteEvent::Wrote(n) => n as nat,
                _ => 0,
            },
        ensures
            final(self).incoming@ == old(self).incoming@,
            final(self).want_close == old(self).want_close,
            final(self).current_interest == old(self).current_interest,
            match event {
                WriteEvent::Wrote(n) => {
                    &&& step == (if n == 0 { IoStep::Stop } else { IoStep::Continue })
                    &&& final(self).outgoing@ == old(self).outgoing@.subrange(
                        n as int,
                        old(self).outgoing@.len() as int,
                    )
                },
                WriteEvent::Interrupted => {
                    &&& step == IoStep::Continue
                    &&& final(self).outgoing@ == old(self).outgoing@
                },
                _ => {
                    &&& step == IoStep::Stop
                    &&& final(self).outgoing@ == old(self).outgoing@
                },
            },
    {
        match event {
            WriteEvent::Wrote(n) => {
                if n == 0 {
                    proof {
                        assert(self.outgoing@.subrange(0, self.outgoing@.len() as int) =~= self.outgoing@);
                    }
                    IoStep::Stop
                } else {
                    let rest = self.outgoing.split_off(n);
                    self.outgoing = rest;
                    IoStep::Continue
                }
            },
            WriteEvent::WouldBlock => IoStep::Stop,
            WriteEvent::Interrupted => IoStep::Continue,
            WriteEvent::Failed => IoStep::Stop,
        }
    }

    /// Sets the current interest to the desired one; tells whether it changed.
    pub fn refresh_interest(&mut self) -> (changed: bool)
        ensures
            final(self).current_interest == interest_for(old(self).outgoing@),
            changed == (old(self).current_interest != interest_for(old(self).outgoing@)),
            final(self).incoming@ == old(self).incoming@,
            final(self).outgoing@ == old(self).outgoing@,
            final(self).want_close == old(self).want_close,
    {
        let desired = self.desired_interest();
        if self.current_interest != desired {
            self.current_interest = desired;
            true
        } else {
            false
        }
    }
}

} // verus!
