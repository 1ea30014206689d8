use vstd::prelude::*;

use crate::dict::Dict;
use crate::protocol::{
    command_response, command_store, handle_and_encode_request, parse_request, spec_parse_request,
    strings_view, ParseError,
};

verus! {

/// What a connection waits for next.
#[derive(Clone, Copy, Debug, PartialEq, Eq, Structural)]
pub enum ConnectionState {
    /// It waits for request bytes; nothing is queued to send.
    WantRead,
    /// Responses are queued to send.
    WantWrite,
    /// It is done: the event loop should tear it down.
    WantClose,
}

/// How a round of reading from the socket ended.
#[derive(Clone, Copy, Debug, PartialEq, Eq, Structural)]
pub enum ReadEnd {
    /// The socket had nothing more for now.
    WouldBlock,
    /// The peer closed its side.
    Eof,
    /// Reading failed.
    Failed,
}

/// How one write to the socket went.
#[derive(Clone, Copy, Debug, PartialEq, Eq, Structural)]
pub enum WriteOutcome {
    /// The socket took this many bytes from the front of the outbound buffer.
    Wrote(usize),
    /// The socket takes nothing for now.
    WouldBlock,
    /// Writing failed.
    Failed,
}

/// Serving the requests at the front of `inc` against the store `m`, one after the
/// other: the bytes left over, the store after them, the responses, and the state
/// that the last attempt to read a request called for.
pub open spec fn serve(inc: Seq<u8>, m: Map<Seq<char>, Seq<char>>) -> (
    Seq<u8>,
    Map<Seq<char>, Seq<char>>,
    Seq<u8>,
    ConnectionState,
)
    decreases inc.len(),
{
    match spec_parse_request(inc) {
        Ok((args, end)) => {
            if 0 < end <= inc.len() {
                let (rest, m2, out, st) = serve(inc.subrange(end, inc.len() as int), command_store(args, m));
                (rest, m2, command_response(args, m) + out, st)
            } else {
                (inc, m, Seq::empty(), ConnectionState::WantRead)
            }
        },
        Err(ParseError::NotEnoughBytes { .. }) => (inc, m, Seq::empty(), ConnectionState::WantRead),
        Err(ParseError::ProtocolError) => (inc, m, Seq::empty(), ConnectionState::WantClose),
    }
}

/// The state after a read that ended in `WouldBlock` and served the requests it
/// completed: closing on a protocol violation, writing when responses are queued,
/// reading again otherwise.
pub open spec fn state_after_serving(last: ConnectionState, out: Seq<u8>) -> ConnectionState {
    if last == ConnectionState::WantClose {
        ConnectionState::WantClose
    } else if out.len() > 0 {
        ConnectionState::WantWrite
    } else {
        ConnectionState::WantRead
    }
}

/// One client's side of the server, without its socket: the bytes received and not
/// yet served, the responses not yet sent, and what to wait for next.
pub struct Connection {
    state: ConnectionState,
    incoming: Vec<u8>,
    outgoing: Vec<u8>,
}

impl Connection {
    pub closed spec fn spec_state(&self) -> ConnectionState {
        self.state
    }

    pub closed spec fn spec_incoming(&self) -> Seq<u8> {
        self.incoming@
    }

    pub closed spec fn spec_outgoing(&self) -> Seq<u8> {
        self.outgoing@
    }

    /// Waiting to read means nothing is queued; waiting to write means something is.
    pub open spec fn wf(&self) -> bool {
        &&& self.spec_state() == ConnectionState::WantRead ==> self.spec_outgoing().len() == 0
        &&& self.spec_state() == ConnectionState::WantWrite ==> self.spec_outgoing().len() > 0
    }

    pub fn new() -> (r: Connection)
        ensures
            r.wf(),
            r.spec_state() == ConnectionState::WantRead,
            r.spec_incoming() == Seq::<u8>::empty(),
            r.spec_outgoing() == Seq::<u8>::empty(),
    {
        Connection { state: ConnectionState::WantRead, incoming: Vec::new(), outgoing: Vec::new() }
    }

    pub fn state(&self) -> (r: ConnectionState)
        ensures
            r == self.spec_state(),
    {
        self.state
    }

    /// The bytes received and not yet served.
    pub fn incoming(&self) -> (r: &[u8])
        ensures
            r@ == self.spec_incoming(),
    {
        self.incoming.as_slice()
    }

    /// The responses not yet sent.
    pub fn outgoing(&self) -> (r: &[u8])
        ensures
            r@ == self.spec_outgoing(),
    {
        self.outgoing.as_slice()
    }

    pub fn close(&mut self)
        ensures
            final(self).spec_state() == ConnectionState::WantClose,
            final(self).spec_incoming() == old(self).spec_incoming(),
            final(self).spec_outgoing() == old(self).spec_outgoing(),
            final(self).wf(),
    {
        self.state = ConnectionState::WantClose;
    }

    pub fn want_read(&self) -> (r: bool)
        ensures
            r == (self.spec_state() == ConnectionState::WantRead),
    {
        self.state == ConnectionState::WantRead
    }

    pub fn want_write(&self) -> (r: bool)
        ensures
            r == (self.spec_state() == ConnectionState::WantWrite),
    {
        self.state == ConnectionState::WantWrite
    }

    pub fn want_close(&self) -> (r: bool)
        ensures
            r == (self.spec_state() == ConnectionState::WantClose),
    {
        self.state == ConnectionState::WantClose
    }

    /// Reads one request from the front of the inbound bytes, carries it out against
    /// `store`, queues the response, and tells what comes next: `WantWrite` when a
    /// request was served, `WantRead` when the bytes end inside a frame, `WantClose`
    /// on a protocol violation.
    fn try_one_request(&mut self, store: &mut Dict) -> (r: ConnectionState)
        requires
            old(store).wf(),
        ensures
            final(store).wf(),
            final(self).state == old(self).state,
            match spec_parse_request(old(self).incoming@) {
                Ok((args, end)) => {
                    &&& r == ConnectionState::WantWrite
                    &&& 0 < end <= old(self).incoming@.len()
                    &&& final(self).incoming@ == old(self).incoming@.subrange(end, old(self).incoming@.len() as int)
                    &&& final(store)@ == command_store(args, old(store)@)
                    &&& final(self).outgoing@ == old(self).outgoing@ + command_response(args, old(store)@)
                },
                Err(e) => {
                    &&& r == (if e is ProtocolError {
                        ConnectionState::WantClose
                    } else {
                        ConnectionState::WantRead
                    })
                    &&& final(self).incoming@ == old(self).incoming@
                    &&& final(self).outgoing@ == old(self).outgoing@
                    &&& final(store)@ == old(store)@
                },
            },
    {
        match parse_request(self.incoming.as_slice()) {
            Ok((cmds, offset)) => {
                proof {
                    lemma_parse_consumes(self.incoming@);
                }
                let rest = self.incoming.split_off(offset);
                self.incoming = rest;
                handle_and_encode_request(cmds, store, &mut self.outgoing);
                ConnectionState::WantWrite
            },
            Err(ParseError::ProtocolError) => ConnectionState::WantClose,
            Err(ParseError::NotEnoughBytes { .. }) => ConnectionState::WantRead,
        }
    }

    /// Takes the bytes that a round of reading brought and how that round ended.
    ///
    /// At end of input or on a failed read the connection is to be closed. Otherwise
    /// every complete request in the inbound bytes is served in turn and its response
    /// queued; the connection then closes on a protocol violation, waits to write
    /// when responses are queued, and waits to read otherwise.
    pub fn on_read(&mut self, data: &[u8], end: ReadEnd, store: &mut Dict)
        requires
            old(self).wf(),
            old(self).spec_state() == ConnectionState::WantRead,
            old(store).wf(),
        ensures
            final(self).wf(),
            final(store).wf(),
            end != ReadEnd::WouldBlock ==> {
                &&& final(self).spec_state() == ConnectionState::WantClose
                &&& final(self).spec_outgoing() == old(self).spec_outgoing()
                &&& final(store)@ == old(store)@
            },
            end == ReadEnd::WouldBlock ==> {
                let (rest, m, out, last) = serve(old(self).spec_incoming() + data@, old(store)@);
                &&& final(self).spec_incoming() == rest
                &&& final(store)@ == m
                &&& final(self).spec_outgoing() == old(self).spec_outgoing() + out
                &&& final(self).spec_state() == state_after_serving(last, final(self).spec_outgoing())
            },
    {
        let ghost start = self.incoming@ + data@;
        let mut i: usize = 0;
        while i < data.len()
            invariant
                i <= data@.len(),
                self.incoming@ == old(self).incoming@ + data@.subrange(0, i as int),
                self.outgoing@ == old(self).outgoing@,
                self.state == old(self).state,
            decreases data@.len() - i,
        {
            self.incoming.push(data[i]);
            i += 1;
            assert(self.incoming@ =~= old(self).incoming@ + data@.subrange(0, i as int));
        }
        assert(data@.subrange(0, i as int) =~= data@);
        match end {
            ReadEnd::Eof => {
                self.close();
                return;
            },
            ReadEnd::Failed => {
                self.close();
                return;
            },
            ReadEnd::WouldBlock => {},
        }
        let ghost m0 = store@;
        let mut last = ConnectionState::WantWrite;
        while last == ConnectionState::WantWrite
            invariant
                store.wf(),
                self.state == old(self).state,
                self.outgoing@.len() >= old(self).outgoing@.len(),
                last == ConnectionState::WantWrite ==> {
                    let (rest, m, out, st) = serve(self.incoming@, store@);
                    let (rest0, m00, out0, st0) = serve(start, m0);
                    &&& rest == rest0
                    &&& m == m00
                    &&& st == st0
                    &&& old(self).outgoing@ + out0 == self.outgoing@ + out
                },
                last != ConnectionState::WantWrite ==> {
                    let (rest0, m00, out0, st0) = serve(start, m0);
                    &&& self.incoming@ == rest0
                    &&& store@ == m00
                    &&& last == st0
                    &&& old(self).outgoing@ + out0 == self.outgoing@
                },
            decreases self.incoming@.len(), (if last == ConnectionState::WantWrite { 1int } else { 0int }),
        {
            let ghost inc0 = self.incoming@;
            let ghost store0 = store@;
            let ghost out_before = self.outgoing@;
            last = self.try_one_request(store);
            proof {
                let (rest, m, out, st) = serve(inc0, store0);
                if last == ConnectionState::WantWrite {
                    match spec_parse_request(inc0) {
                        Ok((args, end)) => {
                            assert(out == command_response(args, store0) + serve(self.incoming@, store@).2);
                            assert(self.outgoing@ + serve(self.incoming@, store@).2 =~= out_before + out);
                        },
                        Err(e) => {},
                    }
                } else {
                    assert(out =~= Seq::<u8>::empty());
                    assert(out_before + out =~= out_before);
                }
            }
        }
        if last == ConnectionState::WantClose {
            self.state = ConnectionState::WantClose;
        } else if self.outgoing.len() > 0 {
            self.state = ConnectionState::WantWrite;
        } else {
            self.state = ConnectionState::WantRead;
        }
    }

    /// Takes how a write of the outbound bytes went: the bytes that were sent leave
    /// the buffer, and the connection reads again once it is empty. A write of no
    /// bytes means the peer is gone, and a failed write closes the connection too.
    pub fn on_write(&mut self, outcome: WriteOutcome)
        requires
            old(self).wf(),
            old(self).spec_state() == ConnectionState::WantWrite,
            outcome matches WriteOutcome::Wrote(n) ==> n <= old(self).spec_outgoing().len(),
        ensures
            final(self).wf(),
            final(self).spec_incoming() == old(self).spec_incoming(),
            match outcome {
                WriteOutcome::Wrote(n) => if n == 0 {
                    &&& final(self).spec_state() == ConnectionState::WantClose
                    &&& final(self).spec_outgoing() == old(self).spec_outgoing()
                } else {
                    &&& final(self).spec_outgoing() == old(self).spec_outgoing().subrange(
                        n as int,
                        old(self).spec_outgoing().len() as int,
                    )
                    &&& final(self).spec_state() == if n == old(self).spec_outgoing().len() {
                        ConnectionState::WantRead
                    } else {
                        ConnectionState::WantWrite
                    }
                },
                WriteOutcome::WouldBlock => *final(self) == *old(self),
                WriteOutcome::Failed => {
                    &&& final(self).spec_state() == ConnectionState::WantClose
                    &&& final(self).spec_outgoing() == old(self).spec_outgoing()
                },
            },
    {
        match outcome {
            WriteOutcome::Wrote(n) => {
                if n == 0 {
                    self.close();
                } else {
                    let rest = self.outgoing.split_off(n);
                    self.outgoing = rest;
                    if self.outgoing.len() == 0 {
                        self.state = ConnectionState::WantRead;
                    } else {
                        self.state = ConnectionState::WantWrite;
                    }
                }
            },
            WriteOutcome::WouldBlock => {},
            WriteOutcome::Failed => {
                self.close();
            },
        }
    }
}

/// A request that parses ends past its first byte and within the buffer.
pub proof fn lemma_parse_consumes(buf: Seq<u8>)
    ensures
        spec_parse_request(buf) matches Ok((args, end)) ==> 4 <= end <= buf.len(),
{
    if buf.len() >= 4 && be_u32_ok(buf) {
        lemma_args_end(buf, 4, crate::protocol::be_u32(buf, 0) as nat);
    }
}

spec fn be_u32_ok(buf: Seq<u8>) -> bool {
    crate::protocol::be_u32(buf, 0) <= crate::protocol::MAX_ARGS
}

proof fn lemma_args_end(buf: Seq<u8>, pos: int, n: nat)
    requires
        0 <= pos <= buf.len(),
    ensures
        crate::protocol::parse_args_from(buf, pos, n) matches Ok((args, end)) ==> pos <= end <= buf.len(),
    decreases n,
{
    if n > 0 && buf.len() >= pos + 4 {
        let len = crate::protocol::be_u32(buf, pos);
        if len <= crate::protocol::MAX_ARGS && buf.len() >= pos + 4 + len {
            assert(len >= 0);
            lemma_args_end(buf, pos + 4 + len, (n - 1) as nat);
        }
    }
}

/// Hands out the numbers that name connections, in increasing order, starting just
/// past the number of the listening socket.
pub struct TokenGen {
    next: usize,
}

/// The number that names the listening socket.
pub const SERVER_TOKEN: usize = 0;

impl TokenGen {
    pub closed spec fn spec_next(&self) -> usize {
        self.next
    }

    pub fn new() -> (r: TokenGen)
        ensures
            r.spec_next() == SERVER_TOKEN + 1,
    {
        TokenGen { next: SERVER_TOKEN + 1 }
    }

    /// The next number, or `None` once every number has been handed out.
    pub fn next(&mut self) -> (r: Option<usize>)
        ensures
            old(self).spec_next() < usize::MAX ==> r == Some(old(self).spec_next())
                && final(self).spec_next() == old(self).spec_next() + 1,
            old(self).spec_next() == usize::MAX ==> r is None && final(self).spec_next() == old(self).spec_next(),
    {
        if self.next == usize::MAX {
            None
        } else {
            let t = self.next;
            self.next = self.next + 1;
            Some(t)
        }
    }
}

} // verus!
