//! The connection server's state machine, kept apart from the sockets
//! that drive it. A connection moves from reading a request to waiting on
//! the application, then either drains one response and closes, or turns
//! into a writability-driven stream. The bytes a connection writes are
//! always a prefix of the bytes fed to it, in order; `Server` accounts
//! for a bounded pool of connection slots.

use vstd::prelude::*;

verus! {

/// What the request parser made of the buffered bytes so far.
pub enum Receive<T> {
    Receive(T),
    Invalid,
    Incomplete,
}

/// What the streaming queue hands the driver.
#[derive(Clone, Copy, Debug, PartialEq, Eq, Structural)]
pub enum StreamingEvent {
    Event,
    Shutdown,
}

/// How a streaming connection looks to the driver.
#[derive(Clone, Copy, Debug, PartialEq, Eq, Structural)]
pub enum StreamingClientStatus {
    Ready,
    Closed,
    Waiting,
}

#[derive(Clone, Copy, Debug, PartialEq, Eq, Structural)]
pub enum ConnState {
    Incoming,
    Waiting,
    Drain,
    Streaming,
    Closed,
}

/// One connection: its state, the bytes still to write, and ghost logs of
/// everything fed to and written through it.
pub struct Connection {
    pub state: ConnState,
    pub buffer: Vec<u8>,
    pub fed: Ghost<Seq<u8>>,
    pub written: Ghost<Seq<u8>>,
}

impl Connection {
    /// Bytes leave in the order they came: what was written plus what is
    /// still buffered is exactly what was fed.
    pub open spec fn wf(&self) -> bool {
        self.fed@ == self.written@ + self.buffer@
    }

    /// A freshly accepted connection, reading its request.
    pub fn accept() -> (r: Connection)
        ensures
            r.wf(),
            r.state == ConnState::Incoming,
            r.buffer@.len() == 0,
            r.written@.len() == 0,
    {
        Connection {
            state: ConnState::Incoming,
            buffer: Vec::new(),
            fed: Ghost(Seq::empty()),
            written: Ghost(Seq::empty()),
        }
    }

    /// Request bytes arrive; the connection keeps reading.
    pub fn on_readable(&mut self, data: &[u8])
        requires
            old(self).wf(),
            old(self).state == ConnState::Incoming,
        ensures
            final(self).wf(),
            final(self).state == ConnState::Incoming,
            final(self).buffer@ == old(self).buffer@ + data@,
            final(self).written@ == old(self).written@,
    {
        let mut i: usize = 0;
        while i < data.len()
            invariant
                i <= data.len(),
                self.buffer@ == old(self).buffer@ + data@.take(i as int),
                self.state == old(self).state,
                self.fed@ == old(self).fed@,
                self.written@ == old(self).written@,
            decreases data.len() - i,
        {
            self.buffer.push(data[i]);
            proof {
                assert(self.buffer@ =~= old(self).buffer@ + data@.take(i + 1));
            }
            i += 1;
        }
        proof {
            assert(data@.take(data@.len() as int) =~= data@);
        }
        self.fed = Ghost(self.fed@ + data@);
        proof {
            assert(self.fed@ =~= self.written@ + self.buffer@);
        }
    }

    /// The application consumed the parser's outcome: a full request puts
    /// the connection on hold, an invalid one closes it, and an
    /// incomplete one keeps reading. The request buffer is handed off.
    pub fn apply_parse<T>(&mut self, outcome: &Receive<T>)
        requires
            old(self).wf(),
            old(self).state == ConnState::Incoming,
        ensures
            final(self).wf(),
            outcome matches Receive::Receive(_) ==> final(self).state == ConnState::Waiting
                && final(self).buffer@.len() == 0,
            outcome is Invalid ==> final(self).state == ConnState::Closed,
            outcome is Incomplete ==> *final(self) == *old(self),
    {
        match outcome {
            Receive::Receive(_) => {
                self.state = ConnState::Waiting;
                self.buffer = Vec::new();
                self.fed = Ghost(self.written@);
            },
            Receive::Invalid => {
                self.state = ConnState::Closed;
            },
            Receive::Incomplete => {},
        }
    }

    /// One response to drain, then close.
    pub fn send(&mut self, data: &[u8])
        requires
            old(self).wf(),
            old(self).state == ConnState::Waiting,
        ensures
            final(self).wf(),
            final(self).state == ConnState::Drain,
            final(self).buffer@ == old(self).buffer@ + data@,
            final(self).written@ == old(self).written@,
    {
        self.append(data);
        self.state = ConnState::Drain;
    }

    /// The connection commits to streaming, seeded with a prelude.
    pub fn into_stream(&mut self, prelude: &[u8])
        requires
            old(self).wf(),
            old(self).state == ConnState::Waiting,
        ensures
            final(self).wf(),
            final(self).state == ConnState::Streaming,
            final(self).buffer@ == old(self).buffer@ + prelude@,
            final(self).written@ == old(self).written@,
    {
        self.append(prelude);
        self.state = ConnState::Streaming;
    }

    /// More stream bytes to write.
    pub fn feed(&mut self, data: &[u8])
        requires
            old(self).wf(),
            old(self).state == ConnState::Streaming,
        ensures
            final(self).wf(),
            final(self).state == ConnState::Streaming,
            final(self).buffer@ == old(self).buffer@ + data@,
            final(self).written@ == old(self).written@,
    {
        self.append(data);
    }

    /// The stream's last bytes: append and drain to close.
    pub fn drain(&mut self, data: &[u8])
        requires
            old(self).wf(),
            old(self).state == ConnState::Streaming,
        ensures
            final(self).wf(),
            final(self).state == ConnState::Drain,
            final(self).buffer@ == old(self).buffer@ + data@,
            final(self).written@ == old(self).written@,
    {
        self.append(data);
        self.state = ConnState::Drain;
    }

    fn append(&mut self, data: &[u8])
        requires
            old(self).wf(),
        ensures
            final(self).wf(),
            final(self).state == old(self).state,
            final(self).buffer@ == old(self).buffer@ + data@,
            final(self).written@ == old(self).written@,
    {
        let mut i: usize = 0;
        while i < data.len()
            invariant
                i <= data.len(),
                self.buffer@ == old(self).buffer@ + data@.take(i as int),
                self.state == old(self).state,
                self.fed@ == old(self).fed@,
                self.written@ == old(self).written@,
            decreases data.len() - i,
        {
            self.buffer.push(data[i]);
            proof {
                assert(self.buffer@ =~= old(self).buffer@ + data@.take(i + 1));
            }
            i += 1;
        }
        proof {
            assert(data@.take(data@.len() as int) =~= data@);
        }
        self.fed = Ghost(self.fed@ + data@);
        proof {
            assert(self.fed@ =~= self.written@ + self.buffer@);
        }
    }

    /// The socket accepted `n` bytes: the buffer advances, the written
    /// log grows by exactly that prefix. An emptied drain closes; an
    /// emptied stream reports readiness to the streaming queue.
    pub fn on_writable(&mut self, n: usize) -> (emit_ready: bool)
        requires
            old(self).wf(),
            old(self).state == ConnState::Drain || old(self).state == ConnState::Streaming,
            n <= old(self).buffer@.len(),
        ensures
            final(self).wf(),
            final(self).written@ == old(self).written@ + old(self).buffer@.take(n as int),
            final(self).buffer@ == old(self).buffer@.skip(n as int),
            old(self).buffer@.len() == n && old(self).state == ConnState::Drain
                ==> final(self).state == ConnState::Closed,
            old(self).buffer@.len() == n && old(self).state == ConnState::Streaming
                ==> final(self).state == ConnState::Streaming && emit_ready,
            old(self).buffer@.len() > n ==> final(self).state == old(self).state && !emit_ready,
    {
        let ghost b0 = self.buffer@;
        let mut rest: Vec<u8> = Vec::new();
        let mut i: usize = n;
        while i < self.buffer.len()
            invariant
                n <= i <= self.buffer@.len(),
                self.buffer@ == b0,
                rest@ =~= b0.subrange(n as int, i as int),
                self.state == old(self).state,
                self.fed@ == old(self).fed@,
                self.written@ == old(self).written@,
            decreases self.buffer@.len() - i,
        {
            let b = self.buffer[i];
            rest.push(b);
            i += 1;
        }
        proof {
            assert(rest@ =~= b0.skip(n as int));
        }
        self.written = Ghost(self.written@ + b0.take(n as int));
        self.buffer = rest;
        proof {
            assert(self.fed@ =~= self.written@ + self.buffer@);
        }
        if self.buffer.len() == 0 {
            match self.state {
                ConnState::Drain => {
                    self.state = ConnState::Closed;
                    false
                },
                _ => true,
            }
        } else {
            false
        }
    }

    /// How the streaming driver sees this connection.
    pub fn status(&self) -> (r: StreamingClientStatus)
        ensures
            self.state == ConnState::Closed ==> r == StreamingClientStatus::Closed,
            self.state != ConnState::Closed && self.buffer@.len() == 0 ==> r
                == StreamingClientStatus::Ready,
            self.state != ConnState::Closed && self.buffer@.len() > 0 ==> r
                == StreamingClientStatus::Waiting,
    {
        if matches!(self.state, ConnState::Closed) {
            StreamingClientStatus::Closed
        } else if self.buffer.len() == 0 {
            StreamingClientStatus::Ready
        } else {
            StreamingClientStatus::Waiting
        }
    }
}

/// What the streaming driver does with one registered stream after a
/// ready event.
#[derive(Clone, Copy, Debug, PartialEq, Eq, Structural)]
pub enum StreamAction {
    Skip,
    Remove,
    Feed,
    DrainAndRemove,
}

/// The driver's decision for one stream: closed clients are dropped,
/// busy clients skipped, ready clients fed, and a finished producer
/// drains the client and drops the pair.
pub fn drive_decision(status: StreamingClientStatus, producer_has_more: bool) -> (r: StreamAction)
    ensures
        status == StreamingClientStatus::Closed ==> r == StreamAction::Remove,
        status == StreamingClientStatus::Waiting ==> r == StreamAction::Skip,
        status == StreamingClientStatus::Ready && producer_has_more ==> r == StreamAction::Feed,
        status == StreamingClientStatus::Ready && !producer_has_more ==> r
            == StreamAction::DrainAndRemove,
{
    match status {
        StreamingClientStatus::Closed => StreamAction::Remove,
        StreamingClientStatus::Waiting => StreamAction::Skip,
        StreamingClientStatus::Ready => if producer_has_more {
            StreamAction::Feed
        } else {
            StreamAction::DrainAndRemove
        },
    }
}

/// The flush threshold of the audio pump: buffers are handed on once
/// they reach 10 KiB or the stream ends.
pub fn should_flush(buffered: usize, producer_has_more: bool) -> (r: bool)
    ensures
        r == (buffered >= 10240 || !producer_has_more),
{
    buffered >= 10240 || !producer_has_more
}

/// The bounded pool of connection slots: acceptance takes a slot and
/// closing returns it; a full pool refuses.
pub struct Server {
    capacity: usize,
    in_use: usize,
}

impl Server {
    pub closed spec fn spec_capacity(&self) -> usize {
        self.capacity
    }

    pub closed spec fn spec_in_use(&self) -> usize {
        self.in_use
    }

    pub open spec fn wf(&self) -> bool {
        self.spec_in_use() <= self.spec_capacity()
    }

    pub fn launch_new(capacity: usize) -> (r: Server)
        ensures
            r.wf(),
            r.spec_capacity() == capacity,
            r.spec_in_use() == 0,
    {
        Server { capacity, in_use: 0 }
    }

    /// Takes a slot for a new connection; a full pool refuses.
    pub fn try_accept(&mut self) -> (r: bool)
        requires
            old(self).wf(),
        ensures
            final(self).wf(),
            final(self).spec_capacity() == old(self).spec_capacity(),
            r <==> old(self).spec_in_use() < old(self).spec_capacity(),
            r ==> final(self).spec_in_use() == old(self).spec_in_use() + 1,
            !r ==> final(self).spec_in_use() == old(self).spec_in_use(),
    {
        if self.in_use < self.capacity {
            self.in_use = self.in_use + 1;
            true
        } else {
            false
        }
    }

    /// Returns a closed connection's slot.
    pub fn release(&mut self)
        requires
            old(self).wf(),
            old(self).spec_in_use() > 0,
        ensures
            final(self).wf(),
            final(self).spec_capacity() == old(self).spec_capacity(),
            final(self).spec_in_use() == old(self).spec_in_use() - 1,
    {
        self.in_use = self.in_use - 1;
    }
}

} // verus!
