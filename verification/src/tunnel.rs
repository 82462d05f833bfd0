//! The running tunnel: what its reader makes of the PDUs on the OUT channel, what its
//! writer sends on the IN channel, and the buffers of the byte stream in between.
//!
//! The two channels are independent sockets, so a reader and a writer run beside each
//! other. The reader takes the bytes of the target off the pipe and asks the writer
//! for flow control acknowledgements and pings. The writer turns each buffer of
//! outbound bytes into one `TsProxySendToServer`.
use vstd::prelude::*;
use vstd::string::*;

use crate::auth;
use crate::auth::{NtlmAuth, RPC_SIGNATURE_SIZE};
use crate::error;
use crate::error::{ErrorView, GatewayError};
use crate::pdu;
use crate::pdu::{CommonHeader, PType};
use crate::request;
use crate::rts;
use crate::rts::{Cookie, FLOW_CONTROL_ACK_THRESHOLD};
use crate::tsgu;
use crate::tsgu::{ContextHandle, PipeRead, PipeView, OP_SEND_TO_SERVER};
use crate::wire;

verus! {

/// Backlog of write acknowledgements.
pub const CHANNEL_DEPTH: usize = 16;

/// Backlog of inbound chunks. It is deep, because a reader that waits for its consumer
/// stops acknowledging, and a gateway that is not acknowledged stops sending.
pub const READ_DEPTH: usize = 1024;

/// An error as the byte stream reports it.
pub enum StreamError {
    /// The error of the operating system itself, with its kind.
    Io(std::io::Error),
    /// The text of any other error.
    Other(String),
}

/// How the byte stream reports an error: a network error as it came, so that it is
/// not prefixed twice, any other by its text.
pub fn other(e: GatewayError) -> (r: StreamError)
    ensures
        match e@ {
            ErrorView::Network(io) => r == StreamError::Io(io),
            _ => r matches StreamError::Other(text) && error::error_text(e@, text@),
        },
{
    match e {
        GatewayError::Network(io) => StreamError::Io(io),
        e => StreamError::Other(e.message()),
    }
}

/// A control PDU that the reader asks the writer to send on the IN channel.
#[derive(Debug, Clone, Copy, PartialEq, Eq, Structural)]
pub enum InChannelMsg {
    /// Replenish the window the gateway sends into; carries the count of the bytes
    /// received so far.
    FlowControlAck(u32),
    /// Echo a Ping, so that an idle tunnel is not torn down.
    Ping,
}

/// Flow control of the OUT channel.
#[derive(Debug, Clone, Copy)]
pub struct FlowState {
    /// Bytes of responses received in all, modulo 2^32.
    pub total_received: u32,
    /// Bytes of responses received since the last acknowledgement.
    pub since_ack: u32,
}

/// A count of bytes as the window counts it.
pub open spec fn counted(n: nat) -> u32 {
    if n > u32::MAX {
        u32::MAX
    } else {
        n as u32
    }
}

/// The flow after a response of `n` bytes, and whether an acknowledgement is due.
pub open spec fn flow_after(flow: FlowState, n: nat) -> (FlowState, bool) {
    let total_received = wire::low32((flow.total_received + counted(n)) as nat);
    let since = flow.since_ack + counted(n);
    if since >= FLOW_CONTROL_ACK_THRESHOLD {
        (FlowState { total_received, since_ack: 0 }, true)
    } else {
        (FlowState { total_received, since_ack: since as u32 }, false)
    }
}

/// The flow before anything came.
pub open spec fn fresh_flow() -> FlowState {
    FlowState { total_received: 0, since_ack: 0 }
}

impl FlowState {
    /// Nothing received yet.
    pub fn new() -> (flow: Self)
        ensures
            flow == fresh_flow(),
    {
        FlowState { total_received: 0, since_ack: 0 }
    }

    /// Count `n` bytes of a response toward the window; an acknowledgement is due at
    /// half the window.
    pub fn on_received(&mut self, n: usize) -> (r: Option<InChannelMsg>)
        ensures
            *final(self) == flow_after(*old(self), n as nat).0,
            r == if flow_after(*old(self), n as nat).1 {
                Some(InChannelMsg::FlowControlAck(final(self).total_received))
            } else {
                None
            },
    {
        let n: u32 = if n as u64 > u32::MAX as u64 {
            u32::MAX
        } else {
            n as u32
        };
        self.total_received = self.total_received.wrapping_add(n);
        self.since_ack = self.since_ack.saturating_add(n);
        if self.since_ack >= FLOW_CONTROL_ACK_THRESHOLD {
            self.since_ack = 0;
            return Some(InChannelMsg::FlowControlAck(self.total_received));
        }
        None
    }
}

/// The reader of the tunnel.
#[derive(Debug, Clone, Copy)]
pub struct PipeReader {
    pub pipe_call_id: u32,
    pub flow: FlowState,
}

/// What a PDU off the OUT channel makes of the flow.
pub open spec fn reader_flow(flow: FlowState, pdu: Seq<u8>) -> FlowState {
    match pdu::decoded_header(pdu) {
        Ok(h) => if h.ptype == PType::Response {
            flow_after(flow, pdu.len()).0
        } else {
            flow
        },
        Err(_) => flow,
    }
}

/// The control PDU that a PDU off the OUT channel asks for: a Ping is echoed, and a
/// response that fills half the window is acknowledged, whatever its stub holds.
pub open spec fn reader_control(flow: FlowState, pdu: Seq<u8>) -> Option<InChannelMsg> {
    match pdu::decoded_header(pdu) {
        Ok(h) => if h.ptype == PType::Rts {
            if rts::pings(pdu) {
                Some(InChannelMsg::Ping)
            } else {
                None
            }
        } else if h.ptype == PType::Response && flow_after(flow, pdu.len()).1 {
            Some(InChannelMsg::FlowControlAck(flow_after(flow, pdu.len()).0.total_received))
        } else {
            None
        },
        Err(_) => None,
    }
}

/// What a PDU off the OUT channel means to the byte stream: an RTS PDU means nothing.
pub open spec fn reader_outcome(pipe_call_id: u32, pdu: Seq<u8>) -> Result<PipeView, ErrorView> {
    match pdu::decoded_header(pdu) {
        Err(e) => Err(e),
        Ok(h) => if h.ptype == PType::Rts {
            Ok(PipeView::Skip)
        } else {
            tsgu::pipe_step(pipe_call_id, pdu)
        },
    }
}

impl PipeReader {
    pub fn new(pipe_call_id: u32) -> (reader: Self)
        ensures
            reader == (PipeReader {
                pipe_call_id,
                flow: fresh_flow(),
            }),
    {
        PipeReader { pipe_call_id, flow: FlowState::new() }
    }

    /// Take in a PDU off the OUT channel: the control PDU it asks for, and what it means
    /// to the byte stream. RTS PDUs are not counted toward the window, because the
    /// gateway does not count them; acknowledgements of other calls are.
    pub fn on_pdu(&mut self, pdu: &[u8]) -> (r: (
        Option<InChannelMsg>,
        Result<PipeRead, GatewayError>,
    ))
        ensures
            r.0 == reader_control(old(self).flow, pdu@),
            error::outcome_view(r.1) == reader_outcome(old(self).pipe_call_id, pdu@),
            final(self).flow == reader_flow(old(self).flow, pdu@),
            final(self).pipe_call_id == old(self).pipe_call_id,
    {
        let h = match CommonHeader::decode(pdu) {
            Ok(h) => h,
            Err(e) => {
                return (None, Err(e));
            },
        };
        if h.ptype == PType::Rts {
            let control = if rts::is_ping(pdu) {
                Some(InChannelMsg::Ping)
            } else {
                None
            };
            return (control, Ok(PipeRead::Skip));
        }
        match request::check_response(&h, pdu) {
            Ok(()) => {},
            Err(e) => {
                return (None, Err(e));
            },
        }
        let control = self.flow.on_received(pdu.len());
        (control, tsgu::read_pipe(self.pipe_call_id, pdu, &h))
    }
}

/// The writer of the tunnel: the context that signs, the counter of the calls, and the
/// cookie of the flow control acknowledgements.
pub struct Writer {
    pub ntlm: NtlmAuth,
    pub call_id: u32,
    pub channel: ContextHandle,
    pub out_cookie: Cookie,
}

/// The bytes of a control PDU.
pub open spec fn control_bytes(out_cookie: Cookie, msg: InChannelMsg) -> Seq<u8> {
    match msg {
        InChannelMsg::FlowControlAck(bytes) => rts::flow_control_ack_bytes(out_cookie, bytes),
        InChannelMsg::Ping => rts::ping_bytes(),
    }
}

/// What the writer can be woken by; no message means that the other side is gone.
pub enum WriterEvent {
    Control(Option<InChannelMsg>),
    Data(Option<Vec<u8>>),
    Tick,
}

/// What the writer does about it.
pub enum WriterAction {
    /// Send a control PDU. Should that fail, report the error and stop.
    SendControl(Vec<u8>),
    /// Send the PDU of a buffer, and report how it went.
    SendData(Vec<u8>),
    /// Report that a buffer could not be sent, and go on.
    Report(GatewayError),
    /// Stop.
    Stop,
}

impl Writer {
    /// The request that takes a buffer to the target. A call id is used up even where
    /// signing fails.
    pub fn send(&mut self, data: &[u8]) -> (r: Result<Vec<u8>, GatewayError>)
        requires
            old(self).ntlm@.stage() != auth::NtlmStage::Server,
        ensures
            ({
                let unsigned = tsgu::data_request(
                    old(self).call_id,
                    old(self).channel.0@,
                    data@,
                );
                let (signed, after) = auth::signature_of(
                    old(self).ntlm@.ntlm,
                    unsigned,
                    RPC_SIGNATURE_SIZE as nat,
                );
                &&& error::outcome_view(r) == request::request_outcome(unsigned, signed)
                &&& final(self).ntlm@ == (auth::NtlmView { ntlm: after, ..old(self).ntlm@ })
            }),
            auth::signs(old(self).ntlm@.stage(), r is Ok, final(self).ntlm@.stage()),
            final(self).call_id == request::next_call(old(self).call_id),
            final(self).channel == old(self).channel,
            final(self).out_cookie == old(self).out_cookie,
    {
        let stub = tsgu::send_to_server_stub(&self.channel, data);
        let call_id: u32 = self.call_id;
        self.call_id = self.call_id.wrapping_add(1);
        request::build_and_sign_request(&mut self.ntlm, call_id, OP_SEND_TO_SERVER, stub.as_slice())
    }

    /// The PDU that the reader asked for. It is not signed.
    pub fn send_control(&self, msg: InChannelMsg) -> (pdu: Vec<u8>)
        ensures
            pdu@ == control_bytes(self.out_cookie, msg),
    {
        match msg {
            InChannelMsg::FlowControlAck(bytes) => rts::flow_control_ack(&self.out_cookie, bytes),
            InChannelMsg::Ping => rts::ping(),
        }
    }

    /// What to do about an event: a buffer becomes one request, a request of the reader
    /// or a tick of the keepalive becomes a control PDU.
    pub fn on_event(&mut self, event: WriterEvent) -> (action: WriterAction)
        requires
            event matches WriterEvent::Data(Some(_)) ==> old(self).ntlm@.stage()
                != auth::NtlmStage::Server,
        ensures
            match event {
                WriterEvent::Control(Some(msg)) => {
                    &&& action matches WriterAction::SendControl(pdu)
                    &&& pdu@ == control_bytes(old(self).out_cookie, msg)
                },
                WriterEvent::Tick => {
                    &&& action matches WriterAction::SendControl(pdu)
                    &&& pdu@ == rts::ping_bytes()
                },
                WriterEvent::Control(None) => action == WriterAction::Stop,
                WriterEvent::Data(None) => action == WriterAction::Stop,
                WriterEvent::Data(Some(data)) => {
                    let unsigned = tsgu::data_request(
                        old(self).call_id,
                        old(self).channel.0@,
                        data@,
                    );
                    let (signed, after) = auth::signature_of(
                        old(self).ntlm@.ntlm,
                        unsigned,
                        RPC_SIGNATURE_SIZE as nat,
                    );
                    &&& match request::request_outcome(unsigned, signed) {
                        Ok(bytes) => action matches WriterAction::SendData(pdu) && pdu@ == bytes,
                        Err(e) => action matches WriterAction::Report(err) && err@ == e,
                    }
                    &&& final(self).ntlm@ == (auth::NtlmView { ntlm: after, ..old(self).ntlm@ })
                    &&& auth::signs(
                        old(self).ntlm@.stage(),
                        action is SendData,
                        final(self).ntlm@.stage(),
                    )
                    &&& final(self).call_id == request::next_call(old(self).call_id)
                },
            },
            !(event matches WriterEvent::Data(Some(_))) ==> final(self).ntlm@ == old(self).ntlm@
                && final(self).call_id == old(self).call_id,
            final(self).channel == old(self).channel,
            final(self).out_cookie == old(self).out_cookie,
    {
        match event {
            WriterEvent::Control(Some(msg)) => WriterAction::SendControl(self.send_control(msg)),
            WriterEvent::Control(None) => WriterAction::Stop,
            WriterEvent::Data(Some(data)) => match self.send(data.as_slice()) {
                Ok(pdu) => WriterAction::SendData(pdu),
                Err(e) => WriterAction::Report(e),
            },
            WriterEvent::Data(None) => WriterAction::Stop,
            WriterEvent::Tick => WriterAction::SendControl(self.send_control(InChannelMsg::Ping)),
        }
    }
}

/// The shortest time between two pings, in milliseconds.
pub const MIN_PING_PERIOD: u64 = 15_000;

/// The longest time between two pings, in milliseconds.
pub const MAX_PING_PERIOD: u64 = 300_000;

/// The time between two pings: half the timeout of the server, within bounds.
pub open spec fn ping_period(connection_timeout: u32) -> u64 {
    let half = connection_timeout / 2;
    if half < MIN_PING_PERIOD {
        MIN_PING_PERIOD
    } else if half > MAX_PING_PERIOD {
        MAX_PING_PERIOD
    } else {
        half as u64
    }
}

/// The time between two pings in milliseconds, for a server with that timeout; zero is
/// a server that says to use a default.
pub fn keepalive_period(connection_timeout: u32) -> (ms: u64)
    ensures
        ms == ping_period(connection_timeout),
{
    let half: u64 = connection_timeout as u64 / 2;
    if half < MIN_PING_PERIOD {
        MIN_PING_PERIOD
    } else if half > MAX_PING_PERIOD {
        MAX_PING_PERIOD
    } else {
        half
    }
}

/// The buffers of the byte stream: inbound bytes that were not read yet, outbound bytes
/// that were not flushed yet, and the buffers that were handed to the writer and not
/// acknowledged yet.
pub struct StreamState {
    pub read_leftover: Vec<u8>,
    pub write_buf: Vec<u8>,
    pub pending: usize,
}

impl StreamState {
    pub fn new() -> (s: Self)
        ensures
            s.read_leftover@.len() == 0,
            s.write_buf@.len() == 0,
            s.pending == 0,
    {
        StreamState { read_leftover: Vec::new(), write_buf: Vec::new(), pending: 0 }
    }

    /// Whether the next chunk is needed before anything can be read.
    pub fn needs_chunk(&self) -> (b: bool)
        ensures
            b == (self.read_leftover@.len() == 0),
    {
        self.read_leftover.len() == 0
    }

    /// Take in the next chunk off the pipe.
    pub fn on_chunk(&mut self, data: Vec<u8>)
        requires
            old(self).read_leftover@.len() == 0,
        ensures
            final(self).read_leftover == data,
            final(self).read_leftover@ == refilled(old(self).read_leftover@, data@),
            final(self).write_buf == old(self).write_buf,
            final(self).pending == old(self).pending,
    {
        self.read_leftover = data;
    }

    /// Hand out as many bytes as there is room for.
    pub fn read(&mut self, room: usize) -> (out: Vec<u8>)
        ensures
            out@ == read_part(old(self).read_leftover@, room as nat),
            final(self).read_leftover@ == unread_part(old(self).read_leftover@, room as nat),
            final(self).write_buf == old(self).write_buf,
            final(self).pending == old(self).pending,
    {
        let n: usize = if room < self.read_leftover.len() {
            room
        } else {
            self.read_leftover.len()
        };
        let mut out: Vec<u8> = Vec::new();
        core::mem::swap(&mut out, &mut self.read_leftover);
        let rest = out.split_off(n);
        self.read_leftover = rest;
        assert(out@ =~= read_part(old(self).read_leftover@, room as nat));
        assert(self.read_leftover@ =~= unread_part(old(self).read_leftover@, room as nat));
        out
    }

    /// Buffer outbound bytes; all of them are taken.
    pub fn write(&mut self, buf: &[u8]) -> (n: usize)
        ensures
            n == buf@.len(),
            final(self).write_buf@ == old(self).write_buf@ + buf@,
            final(self).write_buf@ == buffered(old(self).write_buf@, buf@),
            final(self).read_leftover == old(self).read_leftover,
            final(self).pending == old(self).pending,
    {
        wire::push_bytes(&mut self.write_buf, buf);
        buf.len()
    }

    /// The buffered bytes as one buffer for the writer, if there are any.
    pub fn take_buffer(&mut self) -> (r: Option<Vec<u8>>)
        ensures
            match r {
                Some(data) => data == old(self).write_buf && data@.len() > 0,
                None => old(self).write_buf@.len() == 0,
            },
            final(self).write_buf@.len() == 0,
            (auth::held_bytes(r), final(self).write_buf@) == handed_over(old(self).write_buf@),
            final(self).read_leftover == old(self).read_leftover,
            final(self).pending == old(self).pending,
    {
        if self.write_buf.len() == 0 {
            assert(self.write_buf@ =~= Seq::empty());
            return None;
        }
        let mut data: Vec<u8> = Vec::new();
        core::mem::swap(&mut data, &mut self.write_buf);
        assert(self.write_buf@ =~= Seq::empty());
        Some(data)
    }

    /// Note that the writer has been handed a buffer.
    pub fn submitted(&mut self)
        requires
            old(self).pending < usize::MAX,
        ensures
            final(self).pending == old(self).pending + 1,
            final(self).read_leftover == old(self).read_leftover,
            final(self).write_buf == old(self).write_buf,
    {
        self.pending = self.pending + 1;
    }

    /// Note that the writer is done with a buffer, well or not.
    pub fn acknowledged(&mut self)
        requires
            old(self).pending > 0,
        ensures
            final(self).pending == old(self).pending - 1,
            final(self).read_leftover == old(self).read_leftover,
            final(self).write_buf == old(self).write_buf,
    {
        self.pending = self.pending - 1;
    }

    /// Whether everything that was handed to the writer is acknowledged.
    pub fn is_flushed(&self) -> (b: bool)
        ensures
            b == (self.pending == 0),
    {
        self.pending == 0
    }
}

/// The part of `leftover` that a read with that much room hands out.
pub open spec fn read_part(leftover: Seq<u8>, room: nat) -> Seq<u8> {
    if room < leftover.len() {
        leftover.take(room as int)
    } else {
        leftover
    }
}

/// The part of `leftover` that a read with that much room leaves.
pub open spec fn unread_part(leftover: Seq<u8>, room: nat) -> Seq<u8> {
    if room < leftover.len() {
        leftover.skip(room as int)
    } else {
        Seq::empty()
    }
}

/// What is left to read once the next chunk came.
pub open spec fn refilled(leftover: Seq<u8>, chunk: Seq<u8>) -> Seq<u8> {
    chunk
}

/// What waits to be flushed once more was written.
pub open spec fn buffered(waiting: Seq<u8>, data: Seq<u8>) -> Seq<u8> {
    waiting + data
}

/// The buffer that a flush hands to the writer, if anything waits, and what waits behind it.
pub open spec fn handed_over(waiting: Seq<u8>) -> (Option<Seq<u8>>, Seq<u8>) {
    if waiting.len() == 0 {
        (None, Seq::empty())
    } else {
        (Some(waiting), Seq::empty())
    }
}

/// What happens on the reading side of the stream.
pub enum ReadEvent {
    /// A chunk comes off the pipe.
    Chunk(Seq<u8>),
    /// The consumer reads with that much room.
    Read(nat),
}

/// The chunks among some events, joined.
pub open spec fn chunks_in(events: Seq<ReadEvent>) -> Seq<u8>
    decreases events.len(),
{
    if events.len() == 0 {
        Seq::empty()
    } else {
        match events.last() {
            ReadEvent::Chunk(data) => chunks_in(events.drop_last()) + data,
            ReadEvent::Read(_) => chunks_in(events.drop_last()),
        }
    }
}

/// What the consumer has read after some events, and what it has not read yet.
pub open spec fn read_run(events: Seq<ReadEvent>) -> (Seq<u8>, Seq<u8>)
    decreases events.len(),
{
    if events.len() == 0 {
        (Seq::empty(), Seq::empty())
    } else {
        let (out, leftover) = read_run(events.drop_last());
        match events.last() {
            ReadEvent::Chunk(data) => (out, refilled(leftover, data)),
            ReadEvent::Read(room) => (
                out + read_part(leftover, room),
                unread_part(leftover, room),
            ),
        }
    }
}

/// Whether a chunk is only taken in where nothing is left of the one before.
pub open spec fn chunks_wait(events: Seq<ReadEvent>) -> bool
    decreases events.len(),
{
    events.len() == 0 || (chunks_wait(events.drop_last()) && (events.last() is Chunk ==> read_run(
        events.drop_last(),
    ).1.len() == 0))
}

/// The consumer reads the bytes of the chunks in order, each of them once: what it has
/// read and what is left for it are the chunks, whatever room it had.
pub proof fn reads_lose_nothing(events: Seq<ReadEvent>)
    requires
        chunks_wait(events),
    ensures
        read_run(events).0 + read_run(events).1 == chunks_in(events),
    decreases events.len(),
{
    if events.len() > 0 {
        let front = events.drop_last();
        reads_lose_nothing(front);
        let (out, leftover) = read_run(front);
        match events.last() {
            ReadEvent::Chunk(data) => {
                assert(out + leftover =~= out);
                assert(read_run(events).0 + read_run(events).1 =~= out + data);
            },
            ReadEvent::Read(room) => {
                assert(read_run(events).0 + read_run(events).1 =~= out + leftover);
            },
        }
    } else {
        assert(read_run(events).0 + read_run(events).1 =~= Seq::<u8>::empty());
    }
}

/// What happens on the writing side of the stream.
pub enum WriteEvent {
    /// The producer writes.
    Write(Seq<u8>),
    /// The producer flushes.
    Flush,
}

/// The bytes written in some events.
pub open spec fn bytes_in(events: Seq<WriteEvent>) -> Seq<u8>
    decreases events.len(),
{
    if events.len() == 0 {
        Seq::empty()
    } else {
        match events.last() {
            WriteEvent::Write(data) => bytes_in(events.drop_last()) + data,
            WriteEvent::Flush => bytes_in(events.drop_last()),
        }
    }
}

/// The buffers that the writer has been handed after some events, and the bytes that
/// still wait.
pub open spec fn write_run(events: Seq<WriteEvent>) -> (Seq<Seq<u8>>, Seq<u8>)
    decreases events.len(),
{
    if events.len() == 0 {
        (Seq::empty(), Seq::empty())
    } else {
        let (sent, waiting) = write_run(events.drop_last());
        match events.last() {
            WriteEvent::Write(data) => (sent, buffered(waiting, data)),
            WriteEvent::Flush => match handed_over(waiting) {
                (Some(buffer), left) => (sent.push(buffer), left),
                (None, left) => (sent, left),
            },
        }
    }
}

/// The writer is handed the bytes in order, each of them once, and never an empty
/// buffer; and a flush hands it everything that waits, as one buffer.
pub proof fn writes_lose_nothing(events: Seq<WriteEvent>)
    ensures
        rts::joined(write_run(events).0) + write_run(events).1 == bytes_in(events),
        forall|i: int| 0 <= i < write_run(events).0.len() ==> #[trigger] write_run(events).0[i].len()
            > 0,
        write_run(events.push(WriteEvent::Flush)).1.len() == 0,
        rts::joined(write_run(events.push(WriteEvent::Flush)).0) == bytes_in(events),
        write_run(events.push(WriteEvent::Flush)).0.len() <= write_run(events).0.len() + 1,
    decreases events.len(),
{
    lemma_writes(events);
    let flushed = events.push(WriteEvent::Flush);
    assert(flushed.drop_last() =~= events);
    lemma_writes(flushed);
    let run = write_run(flushed);
    assert(rts::joined(run.0) + run.1 =~= rts::joined(run.0));
}

proof fn lemma_writes(events: Seq<WriteEvent>)
    ensures
        rts::joined(write_run(events).0) + write_run(events).1 == bytes_in(events),
        forall|i: int| 0 <= i < write_run(events).0.len() ==> #[trigger] write_run(events).0[i].len()
            > 0,
    decreases events.len(),
{
    if events.len() > 0 {
        let front = events.drop_last();
        lemma_writes(front);
        let (sent, waiting) = write_run(front);
        match events.last() {
            WriteEvent::Write(data) => {
                assert(rts::joined(sent) + (waiting + data) =~= rts::joined(sent) + waiting + data);
            },
            WriteEvent::Flush => {
                if waiting.len() > 0 {
                    assert(sent.push(waiting).drop_last() =~= sent);
                    assert(rts::joined(sent.push(waiting)) + Seq::<u8>::empty() =~= rts::joined(sent)
                        + waiting);
                }
            },
        }
    } else {
        assert(rts::joined(write_run(events).0) + write_run(events).1 =~= Seq::<u8>::empty());
    }
}

/// Less than half a window is ever left unacknowledged, and an acknowledgement reports
/// everything received so far.
pub proof fn acknowledged_at_half_window(flow: FlowState, pdu: Seq<u8>)
    requires
        flow.since_ack < FLOW_CONTROL_ACK_THRESHOLD,
    ensures
        reader_flow(flow, pdu).since_ack < FLOW_CONTROL_ACK_THRESHOLD,
        reader_control(flow, pdu) matches Some(InChannelMsg::FlowControlAck(bytes)) ==> bytes
            == reader_flow(flow, pdu).total_received && reader_flow(flow, pdu).since_ack == 0,
{
}

/// The bytes of the responses among some PDUs.
pub open spec fn response_bytes_in(pdus: Seq<Seq<u8>>) -> nat
    decreases pdus.len(),
{
    if pdus.len() == 0 {
        0
    } else {
        response_bytes_in(pdus.drop_last()) + match pdu::decoded_header(pdus.last()) {
            Ok(h) => if h.ptype == PType::Response {
                pdus.last().len()
            } else {
                0
            },
            Err(_) => 0,
        }
    }
}

/// The flow after some PDUs.
pub open spec fn flow_run(pdus: Seq<Seq<u8>>) -> FlowState
    decreases pdus.len(),
{
    if pdus.len() == 0 {
        fresh_flow()
    } else {
        reader_flow(flow_run(pdus.drop_last()), pdus.last())
    }
}

/// The count that acknowledgements report is that of the bytes of the responses,
/// modulo 2^32. No RTS PDU counts, so it never runs ahead of what the gateway counts.
pub proof fn only_responses_are_counted(pdus: Seq<Seq<u8>>)
    requires
        forall|i: int| 0 <= i < pdus.len() ==> #[trigger] pdus[i].len() <= u32::MAX,
    ensures
        flow_run(pdus).total_received == wire::low32(response_bytes_in(pdus)),
        flow_run(pdus).since_ack < FLOW_CONTROL_ACK_THRESHOLD,
    decreases pdus.len(),
{
    if pdus.len() > 0 {
        let front = pdus.drop_last();
        assert forall|i: int| 0 <= i < front.len() implies #[trigger] front[i].len() <= u32::MAX by {
            assert(front[i] == pdus[i]);
        }
        only_responses_are_counted(front);
        assert(pdus.last() == pdus[pdus.len() - 1]);
        lemma_low32_sum(response_bytes_in(front), pdus.last().len());
    }
}

proof fn lemma_low32_sum(a: nat, n: nat)
    ensures
        wire::low32((wire::low32(a) + n) as nat) == wire::low32(a + n),
{
}

/// Where the timeout of the server leaves room for it, at least two pings fit into it.
pub proof fn two_pings_per_timeout(connection_timeout: u32)
    requires
        connection_timeout >= 2 * MIN_PING_PERIOD,
    ensures
        2 * ping_period(connection_timeout) <= connection_timeout,
{
}

/// The time between two pings is within its bounds for any timeout.
pub proof fn ping_period_is_bounded(connection_timeout: u32)
    ensures
        MIN_PING_PERIOD <= ping_period(connection_timeout) <= MAX_PING_PERIOD,
{
}

/// An acknowledgement is due exactly where 32768 bytes or more came since the last one;
/// until then they add up, and all of them are counted.
pub proof fn window_is_counted(flow: FlowState, n: nat)
    requires
        n <= u32::MAX,
    ensures
        ({
            let (after, due) = flow_after(flow, n);
            &&& due <==> flow.since_ack + n >= 32768
            &&& due ==> after.since_ack == 0
            &&& !due ==> after.since_ack == flow.since_ack + n
            &&& after.total_received == (flow.total_received + n) % 4294967296
        }),
{
}

/// An RTS PDU means nothing to the byte stream and is not counted; the lowest bit of its
/// flags asks for a Ping. Any other PDU means what it means to the pipe, and asks for
/// nothing but an acknowledgement, where it is a response and one is due.
pub proof fn control_follows_the_type(flow: FlowState, pipe_call_id: u32, pdu: Seq<u8>)
    requires
        pdu.len() >= 18,
        pdu.len() <= u32::MAX,
        pdu::decoded_header(pdu) is Ok,
    ensures
        pdu[2] == 20 ==> reader_outcome(pipe_call_id, pdu) == Ok::<PipeView, ErrorView>(
            PipeView::Skip,
        ) && reader_flow(flow, pdu) == flow && reader_control(flow, pdu) == if pdu[16] % 2 == 1 {
            Some(InChannelMsg::Ping)
        } else {
            None
        },
        pdu[2] != 20 ==> reader_outcome(pipe_call_id, pdu) == tsgu::pipe_step(pipe_call_id, pdu),
        pdu[2] == 2 ==> reader_control(flow, pdu) == if flow.since_ack + pdu.len() >= 32768 {
            Some(
                InChannelMsg::FlowControlAck(
                    ((flow.total_received + pdu.len()) % 4294967296) as u32,
                ),
            )
        } else {
            None
        },
        pdu[2] != 20 && pdu[2] != 2 ==> reader_control(flow, pdu) is None && reader_flow(flow, pdu)
            == flow,
{
    pdu::header_is_read_at_its_places(pdu);
    window_is_counted(flow, pdu.len());
}

/// What the reader asks for goes out as it asked: an acknowledgement with its count and the
/// cookie of the OUT channel, and a Ping that the other side reads as one.
pub proof fn control_goes_out_as_asked(out_cookie: Cookie, bytes: u32, flow: FlowState)
    ensures
        ({
            let b = control_bytes(out_cookie, InChannelMsg::FlowControlAck(bytes));
            &&& rts::is_rts(b, 2, 2)
            &&& wire::u32_at(rts::rts_body(b), 12) == bytes
            &&& b.subrange(40, 56) == out_cookie.0@
            &&& reader_control(flow, b) is None
        }),
        ({
            let b = control_bytes(out_cookie, InChannelMsg::Ping);
            &&& rts::is_rts(b, 1, 0)
            &&& reader_control(flow, b) == Some(InChannelMsg::Ping)
        }),
{
    rts::flow_control_ack_reads_back(out_cookie, out_cookie, bytes, Seq::empty());
    rts::ping_reads_back();
}

/// The time between two pings is half the timeout of the server, but never less than 15
/// seconds, nor more than five minutes.
pub proof fn pings_come_at_half_the_timeout(connection_timeout: u32)
    ensures
        connection_timeout <= 30000 ==> ping_period(connection_timeout) == 15000,
        30000 <= connection_timeout <= 600000 ==> ping_period(connection_timeout)
            == connection_timeout / 2,
        connection_timeout >= 600000 ==> ping_period(connection_timeout) == 300000,
{
}

/// A read fills the room it has as far as there are bytes, and leaves the others in order.
pub proof fn reads_fill_their_room(leftover: Seq<u8>, room: nat)
    ensures
        read_part(leftover, room).len() <= room,
        read_part(leftover, room).len() == room || unread_part(leftover, room).len() == 0,
        read_part(leftover, room) + unread_part(leftover, room) == leftover,
{
    assert(read_part(leftover, room) + unread_part(leftover, room) =~= leftover);
}

/// Nothing is acknowledged before 32768 bytes of responses came: until then all of them
/// are still to be acknowledged.
pub proof fn first_acknowledgement_waits(pdus: Seq<Seq<u8>>)
    requires
        response_bytes_in(pdus) < 32768,
    ensures
        flow_run(pdus).since_ack == response_bytes_in(pdus),
        flow_run(pdus).total_received == response_bytes_in(pdus),
    decreases pdus.len(),
{
    if pdus.len() > 0 {
        first_acknowledgement_waits(pdus.drop_last());
    }
}

} // verus!
