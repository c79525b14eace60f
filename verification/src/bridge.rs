//! The bounded conduit between the encoding producer and the consumer that
//! feeds the transport. The bridge itself never blocks: a full buffer and an
//! empty one are answers, on which the caller waits and tries again.

use crate::entry::ArchiveError;
use std::collections::VecDeque;
use vstd::prelude::*;

verus! {

/// A piece of the encoded stream with its place in it.
pub struct EncodedChunk {
    pub sequence: u64,
    pub data: Vec<u8>,
}

/// A chunk as a plain value.
pub struct ChunkView {
    pub sequence: u64,
    pub data: Seq<u8>,
}

impl View for EncodedChunk {
    type V = ChunkView;

    open spec fn view(&self) -> ChunkView {
        ChunkView { sequence: self.sequence, data: self.data@ }
    }
}

/// How many bytes the chunks of `q` hold together.
pub open spec fn queued_bytes(q: Seq<ChunkView>) -> nat
    decreases q.len(),
{
    if q.len() == 0 {
        0
    } else {
        queued_bytes(q.drop_last()) + q.last().data.len()
    }
}

/// The data of the chunks of `q`, strung together.
pub open spec fn chunk_bytes(q: Seq<ChunkView>) -> Seq<u8>
    decreases q.len(),
{
    if q.len() == 0 {
        Seq::empty()
    } else {
        chunk_bytes(q.drop_last()) + q.last().data
    }
}

/// What became of a chunk offered to the bridge.
#[derive(Clone, Copy, Debug, PartialEq, Eq, Structural)]
pub enum SendVerdict {
    /// The chunk is buffered.
    Accepted,
    /// There is no room now: wait for the consumer and offer it again.
    Full,
    /// The chunk is larger than the whole buffer and will never fit.
    Oversized,
    /// The consumer has gone: stop producing.
    Cancelled,
    /// The bridge is closed: nothing more is taken.
    Closed,
}

/// What the consumer finds at the bridge.
pub enum Received {
    /// The next chunk of the stream.
    Chunk(ChunkView),
    /// Nothing yet: wait for the producer and ask again.
    Pending,
    /// The stream is complete, or the consumer has cancelled it.
    End,
    /// The stream is broken.
    Failed(ArchiveError),
}

/// The bookkeeping that both sides share.
pub struct PipeState {
    pub capacity: nat,
    pub queue: Seq<ChunkView>,
    pub closed: bool,
    pub cancelled: bool,
    pub error: Option<ArchiveError>,
    pub expected: u64,
}

impl PipeState {
    /// The bytes that wait in the buffer.
    pub open spec fn buffered(self) -> nat {
        queued_bytes(self.queue)
    }

    /// The buffer never holds more than its capacity.
    pub open spec fn wf(self) -> bool {
        self.buffered() <= self.capacity
    }

    /// The state of a fresh bridge.
    pub open spec fn fresh(capacity: nat) -> PipeState {
        PipeState {
            capacity,
            queue: Seq::empty(),
            closed: false,
            cancelled: false,
            error: None,
            expected: 0,
        }
    }

    pub open spec fn send_verdict(self, chunk: ChunkView) -> SendVerdict {
        if self.cancelled {
            SendVerdict::Cancelled
        } else if self.closed {
            SendVerdict::Closed
        } else if chunk.data.len() > self.capacity {
            SendVerdict::Oversized
        } else if self.buffered() + chunk.data.len() > self.capacity {
            SendVerdict::Full
        } else {
            SendVerdict::Accepted
        }
    }

    pub open spec fn after_send(self, chunk: ChunkView) -> PipeState {
        if self.send_verdict(chunk) == SendVerdict::Accepted {
            PipeState { queue: self.queue.push(chunk), ..self }
        } else {
            self
        }
    }

    /// The chunk at the head of the buffer continues the stream.
    pub open spec fn head_in_sequence(self) -> bool {
        self.queue.len() > 0 && self.queue[0].sequence == self.expected && self.expected < u64::MAX
    }

    pub open spec fn receive_verdict(self) -> Received {
        if self.error.is_some() {
            Received::Failed(self.error.unwrap())
        } else if self.cancelled {
            Received::End
        } else if self.queue.len() == 0 {
            if self.closed {
                Received::End
            } else {
                Received::Pending
            }
        } else if self.head_in_sequence() {
            Received::Chunk(self.queue[0])
        } else {
            Received::Failed(ArchiveError::SequenceViolation)
        }
    }

    pub open spec fn after_receive(self) -> PipeState {
        if self.error.is_some() || self.cancelled || self.queue.len() == 0 {
            self
        } else if self.head_in_sequence() {
            PipeState {
                queue: self.queue.drop_first(),
                expected: (self.expected + 1) as u64,
                ..self
            }
        } else {
            PipeState {
                queue: Seq::empty(),
                closed: true,
                error: Some(ArchiveError::SequenceViolation),
                ..self
            }
        }
    }

    pub open spec fn after_close(self) -> PipeState {
        PipeState { closed: true, ..self }
    }

    pub open spec fn after_fail(self, error: ArchiveError) -> PipeState {
        PipeState {
            closed: true,
            error: if self.error.is_some() {
                self.error
            } else {
                Some(error)
            },
            ..self
        }
    }

    pub open spec fn after_cancel(self) -> PipeState {
        PipeState { queue: Seq::empty(), cancelled: true, ..self }
    }
}

/// Dropping the head of a queue takes its bytes off the count.
pub proof fn lemma_queued_drop_first(q: Seq<ChunkView>)
    requires
        q.len() > 0,
    ensures
        queued_bytes(q) == q[0].data.len() + queued_bytes(q.drop_first()),
    decreases q.len(),
{
    if q.len() == 1 {
        assert(q.drop_last() =~= Seq::<ChunkView>::empty());
        assert(q.drop_first() =~= Seq::<ChunkView>::empty());
    } else {
        lemma_queued_drop_first(q.drop_last());
        assert(q.drop_last().drop_first() =~= q.drop_first().drop_last());
    }
}

/// The bounded buffer between producer and consumer.
pub struct StreamBridge {
    capacity: usize,
    queue: VecDeque<EncodedChunk>,
    buffered: usize,
    closed: bool,
    cancelled: bool,
    error: Option<ArchiveError>,
    expected: u64,
}

impl View for StreamBridge {
    type V = PipeState;

    closed spec fn view(&self) -> PipeState {
        PipeState {
            capacity: self.capacity as nat,
            queue: self.queue@.map_values(|c: EncodedChunk| c@),
            closed: self.closed,
            cancelled: self.cancelled,
            error: self.error,
            expected: self.expected,
        }
    }
}

impl StreamBridge {
    /// The byte count kept beside the queue is right, and within capacity.
    pub closed spec fn wf(&self) -> bool {
        &&& self.buffered == self@.buffered()
        &&& self@.wf()
    }

    /// An open, empty bridge that buffers up to `capacity` bytes.
    pub fn new(capacity: usize) -> (bridge: Self)
        ensures
            bridge.wf(),
            bridge@ == PipeState::fresh(capacity as nat),
    {
        let bridge = StreamBridge {
            capacity,
            queue: VecDeque::new(),
            buffered: 0,
            closed: false,
            cancelled: false,
            error: None,
            expected: 0,
        };
        assert(bridge@.queue =~= Seq::<ChunkView>::empty());
        bridge
    }

    /// Offers `chunk` to the buffer. A chunk that is not accepted comes
    /// back, and the bridge is as it was.
    pub fn try_send(&mut self, chunk: EncodedChunk) -> (out: (SendVerdict, Option<EncodedChunk>))
        requires
            old(self).wf(),
        ensures
            final(self).wf(),
            out.0 == old(self)@.send_verdict(chunk@),
            final(self)@ == old(self)@.after_send(chunk@),
            out.0 == SendVerdict::Accepted ==> out.1.is_none(),
            out.0 != SendVerdict::Accepted ==> out.1.is_some() && out.1.unwrap() == chunk,
    {
        if self.cancelled {
            return (SendVerdict::Cancelled, Some(chunk));
        }
        if self.closed {
            return (SendVerdict::Closed, Some(chunk));
        }
        if chunk.data.len() > self.capacity {
            return (SendVerdict::Oversized, Some(chunk));
        }
        if chunk.data.len() > self.capacity - self.buffered {
            return (SendVerdict::Full, Some(chunk));
        }
        self.buffered = self.buffered + chunk.data.len();
        let ghost before = self@.queue;
        self.queue.push_back(chunk);
        proof {
            assert(self@.queue =~= before.push(chunk@));
            assert(self@.queue.drop_last() =~= before);
        }
        (SendVerdict::Accepted, None)
    }

    /// Takes the next chunk, if there is one to take. A chunk out of
    /// sequence breaks the stream for good.
    pub fn try_receive(&mut self) -> (out: ReceiveOutcome)
        requires
            old(self).wf(),
        ensures
            final(self).wf(),
            out@ == old(self)@.receive_verdict(),
            final(self)@ == old(self)@.after_receive(),
    {
        if let Some(e) = self.error {
            return ReceiveOutcome::Failed(e);
        }
        if self.cancelled {
            return ReceiveOutcome::End;
        }
        let ghost before = self@.queue;
        match self.queue.pop_front() {
            None => {
                assert(before.len() == 0);
                assert(self@.queue =~= before);
                if self.closed {
                    ReceiveOutcome::End
                } else {
                    ReceiveOutcome::Pending
                }
            },
            Some(chunk) => {
                proof {
                    assert(before[0] == chunk@);
                    assert(self@.queue =~= before.drop_first());
                    lemma_queued_drop_first(before);
                }
                if chunk.sequence == self.expected && self.expected < u64::MAX {
                    self.buffered = self.buffered - chunk.data.len();
                    self.expected = self.expected + 1;
                    ReceiveOutcome::Chunk(chunk)
                } else {
                    self.queue.clear();
                    self.buffered = 0;
                    self.closed = true;
                    self.error = Some(ArchiveError::SequenceViolation);
                    assert(self@.queue =~= Seq::<ChunkView>::empty());
                    ReceiveOutcome::Failed(ArchiveError::SequenceViolation)
                }
            },
        }
    }

    /// The producer is done: what is buffered will still be delivered, then
    /// the stream ends. Closing again changes nothing.
    pub fn close(&mut self)
        requires
            old(self).wf(),
        ensures
            final(self).wf(),
            final(self)@ == old(self)@.after_close(),
    {
        self.closed = true;
    }

    /// The producer has failed: the bridge closes and the consumer's next
    /// call meets `error`, unless an earlier error already stands.
    pub fn fail(&mut self, error: ArchiveError)
        requires
            old(self).wf(),
        ensures
            final(self).wf(),
            final(self)@ == old(self)@.after_fail(error),
    {
        if self.error.is_none() {
            self.error = Some(error);
        }
        self.closed = true;
    }

    /// The consumer has gone: what is buffered is dropped, and the producer's
    /// next offer is turned away.
    pub fn cancel(&mut self)
        requires
            old(self).wf(),
        ensures
            final(self).wf(),
            final(self)@ == old(self)@.after_cancel(),
    {
        self.queue.clear();
        self.buffered = 0;
        self.cancelled = true;
        assert(self@.queue =~= Seq::<ChunkView>::empty());
    }

    pub fn capacity_bytes(&self) -> (n: usize)
        ensures
            n == self@.capacity,
    {
        self.capacity
    }

    pub fn buffered_bytes(&self) -> (n: usize)
        requires
            self.wf(),
        ensures
            n == self@.buffered(),
            n <= self@.capacity,
    {
        self.buffered
    }

    pub fn is_closed(&self) -> (b: bool)
        ensures
            b == self@.closed,
    {
        self.closed
    }

    pub fn is_cancelled(&self) -> (b: bool)
        ensures
            b == self@.cancelled,
    {
        self.cancelled
    }

    pub fn terminal_error(&self) -> (e: Option<ArchiveError>)
        ensures
            e == self@.error,
    {
        self.error
    }
}

/// What the consumer finds at the bridge, with the chunk itself.
pub enum ReceiveOutcome {
    Chunk(EncodedChunk),
    Pending,
    End,
    Failed(ArchiveError),
}

impl View for ReceiveOutcome {
    type V = Received;

    open spec fn view(&self) -> Received {
        match self {
            ReceiveOutcome::Chunk(c) => Received::Chunk(c@),
            ReceiveOutcome::Pending => Received::Pending,
            ReceiveOutcome::End => Received::End,
            ReceiveOutcome::Failed(e) => Received::Failed(*e),
        }
    }
}

/// In how many chunks of at most `max_len` bytes a run of `len` bytes is
/// cut.
pub open spec fn pieces(len: nat, max_len: nat) -> nat
    decreases len,
{
    if len == 0 || max_len == 0 {
        0
    } else if len <= max_len {
        1
    } else {
        1 + pieces((len - max_len) as nat, max_len)
    }
}

/// The views of a vector of chunks.
pub open spec fn chunk_views(chunks: Seq<EncodedChunk>) -> Seq<ChunkView> {
    chunks.map_values(|c: EncodedChunk| c@)
}

/// Numbers the pieces of the encoded stream and cuts them to a length that
/// the bridge can take.
pub struct ChunkSequencer {
    next: u64,
    max_len: usize,
}

impl ChunkSequencer {
    /// The number that the next chunk will carry.
    pub closed spec fn next_sequence(&self) -> u64 {
        self.next
    }

    /// The longest chunk that is cut.
    pub closed spec fn max_len(&self) -> usize {
        self.max_len
    }

    /// Chunks have room for at least one byte.
    pub open spec fn wf(&self) -> bool {
        self.max_len() > 0
    }

    /// A sequencer that starts at zero, unless `max_len` is zero.
    pub fn new(max_len: usize) -> (seq: Option<Self>)
        ensures
            seq.is_some() == (max_len > 0),
            seq.is_some() ==> seq.unwrap().wf() && seq.unwrap().next_sequence() == 0
                && seq.unwrap().max_len() == max_len,
    {
        if max_len == 0 {
            None
        } else {
            Some(ChunkSequencer { next: 0, max_len })
        }
    }

    /// Cuts `data` into numbered chunks: all but the last are `max_len`
    /// bytes long, and together they are `data`. When the numbers run out
    /// nothing is cut and the sequencer stays as it was.
    pub fn cut(&mut self, data: &[u8]) -> (out: Result<Vec<EncodedChunk>, ArchiveError>)
        requires
            old(self).wf(),
        ensures
            final(self).wf(),
            final(self).max_len() == old(self).max_len(),
            out.is_ok() <==> old(self).next_sequence() + pieces(
                data@.len(),
                old(self).max_len() as nat,
            ) <= u64::MAX,
            match out {
                Ok(chunks) => {
                    &&& chunks@.len() == pieces(data@.len(), old(self).max_len() as nat)
                    &&& chunk_bytes(chunk_views(chunks@)) == data@
                    &&& final(self).next_sequence() == old(self).next_sequence() + chunks@.len()
                    &&& forall|i: int|
                        0 <= i < chunks@.len() ==> {
                            &&& (#[trigger] chunks@[i]).sequence == old(self).next_sequence() + i
                            &&& 0 < chunks@[i].data@.len() <= old(self).max_len()
                            &&& i + 1 < chunks@.len() ==> chunks@[i].data@.len() == old(self).max_len()
                        }
                },
                Err(e) => {
                    &&& e == ArchiveError::SequenceViolation
                    &&& final(self).next_sequence() == old(self).next_sequence()
                },
            },
    {
        let mut chunks: Vec<EncodedChunk> = Vec::new();
        let mut next: u64 = self.next;
        let mut offset: usize = 0;
        let len: usize = data.len();
        assert(chunk_views(chunks@) =~= Seq::<ChunkView>::empty());
        assert(data@.take(0) =~= Seq::<u8>::empty());
        while offset < len
            invariant
                self.wf(),
                *self == *old(self),
                len == data@.len(),
                offset <= len,
                next == self.next + chunks@.len(),
                pieces(len as nat, self.max_len as nat) == chunks@.len() + pieces(
                    (len - offset) as nat,
                    self.max_len as nat,
                ),
                chunk_bytes(chunk_views(chunks@)) == data@.take(offset as int),
                forall|i: int|
                    0 <= i < chunks@.len() ==> {
                        &&& (#[trigger] chunks@[i]).sequence == self.next + i
                        &&& 0 < chunks@[i].data@.len() <= self.max_len
                        &&& i + 1 < chunks@.len() || offset < len ==> chunks@[i].data@.len()
                            == self.max_len
                    },
            decreases len - offset,
        {
            if next == u64::MAX {
                return Err(ArchiveError::SequenceViolation);
            }
            let take: usize = if len - offset < self.max_len {
                len - offset
            } else {
                self.max_len
            };
            let mut piece: Vec<u8> = Vec::new();
            crate::encoding::push_bytes(
                &mut piece,
                vstd::slice::slice_subrange(data, offset, offset + take),
            );
            let chunk = EncodedChunk { sequence: next, data: piece };
            let ghost before = chunk_views(chunks@);
            chunks.push(chunk);
            proof {
                assert(chunk_views(chunks@).drop_last() =~= before);
                assert(data@.take(offset as int) + data@.subrange(
                    offset as int,
                    offset + take,
                ) =~= data@.take(offset + take));
            }
            next = next + 1;
            offset = offset + take;
        }
        assert(data@.take(len as int) =~= data@);
        self.next = next;
        Ok(chunks)
    }
}

impl PipeState {
    /// The buffered chunks carry consecutive numbers, starting with the one
    /// that the consumer expects.
    pub open spec fn in_sequence(self) -> bool {
        &&& self.expected + self.queue.len() <= u64::MAX
        &&& forall|i: int|
            0 <= i < self.queue.len() ==> (#[trigger] self.queue[i]).sequence == self.expected + i
    }

    /// The state after `n` receives.
    pub open spec fn after_receives(self, n: nat) -> PipeState
        decreases n,
    {
        if n == 0 {
            self
        } else {
            self.after_receive().after_receives((n - 1) as nat)
        }
    }

    /// What `n` receives find, one after the other.
    pub open spec fn receives(self, n: nat) -> Seq<Received>
        decreases n,
    {
        if n == 0 {
            Seq::empty()
        } else {
            seq![self.receive_verdict()] + self.after_receive().receives((n - 1) as nat)
        }
    }
}

/// No step of either side takes the buffer beyond its capacity, and none
/// changes the capacity.
pub proof fn lemma_buffer_stays_bounded(s: PipeState, chunk: ChunkView, error: ArchiveError)
    requires
        s.wf(),
    ensures
        s.after_send(chunk).wf() && s.after_send(chunk).capacity == s.capacity,
        s.after_receive().wf() && s.after_receive().capacity == s.capacity,
        s.after_close().wf() && s.after_close().capacity == s.capacity,
        s.after_fail(error).wf() && s.after_fail(error).capacity == s.capacity,
        s.after_cancel().wf() && s.after_cancel().capacity == s.capacity,
{
    assert(s.queue.push(chunk).drop_last() =~= s.queue);
    if s.queue.len() > 0 {
        lemma_queued_drop_first(s.queue);
    }
}

/// First in, first out: a chunk that is accepted goes behind all that are
/// buffered, and from a buffer in sequence the consumer receives the chunks
/// one by one in the order in which they were sent, each once.
pub proof fn lemma_first_in_first_out(s: PipeState, n: nat)
    requires
        s.error.is_none(),
        !s.cancelled,
        s.in_sequence(),
        n <= s.queue.len(),
    ensures
        s.receives(n) == s.queue.take(n as int).map_values(|c: ChunkView| Received::Chunk(c)),
        s.after_receives(n).queue == s.queue.skip(n as int),
        s.after_receives(n).expected == s.expected + n,
        s.after_receives(n).error.is_none(),
        s.after_receives(n).closed == s.closed,
        !s.after_receives(n).cancelled,
    decreases n,
{
    let want = s.queue.take(n as int).map_values(|c: ChunkView| Received::Chunk(c));
    if n == 0 {
        assert(s.receives(n) =~= want);
        assert(s.queue.skip(0) =~= s.queue);
    } else {
        let t = s.after_receive();
        assert(s.queue[0].sequence == s.expected + 0);
        assert(s.head_in_sequence());
        assert forall|i: int| 0 <= i < t.queue.len() implies (#[trigger] t.queue[i]).sequence
            == t.expected + i by {
            assert(t.queue[i] == s.queue[i + 1]);
        }
        lemma_first_in_first_out(t, (n - 1) as nat);
        assert(t.queue.skip(n - 1) =~= s.queue.skip(n as int));
        assert(s.receives(n) =~= want) by {
            let rest = t.queue.take(n - 1).map_values(|c: ChunkView| Received::Chunk(c));
            assert(s.receives(n) == seq![s.receive_verdict()] + rest);
            assert forall|i: int| 0 <= i < n implies (seq![s.receive_verdict()] + rest)[i]
                == want[i] by {
                if i > 0 {
                    assert(rest[i - 1] == Received::Chunk(t.queue[i - 1]));
                }
            }
        }
    }
}

/// Closing twice is closing once, and a closed bridge takes nothing more.
pub proof fn lemma_close_is_idempotent(s: PipeState, chunk: ChunkView)
    ensures
        s.after_close().after_close() == s.after_close(),
        s.after_close().after_send(chunk) == s.after_close(),
        s.after_close().send_verdict(chunk) != SendVerdict::Accepted,
{
}

/// An error, once set, stays as it is through every later step, keeps the
/// bridge closed to the producer, and is what the consumer meets.
pub proof fn lemma_error_is_final(s: PipeState, chunk: ChunkView, later: ArchiveError)
    requires
        s.error.is_some(),
    ensures
        s.after_send(chunk).error == s.error,
        s.after_receive().error == s.error,
        s.after_close().error == s.error,
        s.after_fail(later).error == s.error,
        s.after_cancel().error == s.error,
        s.receive_verdict() == Received::Failed(s.error.unwrap()),
        s.after_receive() == s,
{
}

/// A failure closes the bridge and is the next thing the consumer meets,
/// whatever is still buffered.
pub proof fn lemma_failure_reaches_consumer(s: PipeState, error: ArchiveError)
    requires
        s.error.is_none(),
    ensures
        s.after_fail(error).closed,
        s.after_fail(error).receive_verdict() == Received::Failed(error),
{
}

/// After the producer has closed an unbroken stream, the consumer still
/// receives what is buffered and then meets the end.
pub proof fn lemma_close_drains_then_ends(s: PipeState)
    requires
        s.error.is_none(),
        !s.cancelled,
        s.in_sequence(),
    ensures
        s.after_close().receives(s.queue.len()) == s.queue.map_values(
            |c: ChunkView| Received::Chunk(c),
        ),
        s.after_close().after_receives(s.queue.len()).receive_verdict() == Received::End,
{
    let c = s.after_close();
    lemma_first_in_first_out(c, s.queue.len());
    assert(c.queue.take(c.queue.len() as int) =~= c.queue);
    assert(c.queue.skip(c.queue.len() as int).len() == 0);
}

/// Once the consumer has cancelled, every offer of the producer is turned
/// away as cancelled, nothing is buffered again, and no later step undoes
/// the cancellation.
pub proof fn lemma_cancellation_stops_producer(s: PipeState, chunk: ChunkView, error: ArchiveError)
    ensures
        s.after_cancel().send_verdict(chunk) == SendVerdict::Cancelled,
        s.after_cancel().after_send(chunk) == s.after_cancel(),
        s.after_cancel().buffered() == 0,
        s.after_cancel().after_cancel() == s.after_cancel(),
        s.cancelled ==> s.after_send(chunk).cancelled && s.after_receive().cancelled
            && s.after_close().cancelled && s.after_fail(error).cancelled,
{
    assert(s.after_cancel().queue =~= Seq::<ChunkView>::empty());
}

/// A chunk that does not continue the sequence breaks the stream: the
/// consumer meets a sequence violation, and the bridge is closed with that
/// error.
pub proof fn lemma_gap_is_fatal(s: PipeState)
    requires
        s.error.is_none(),
        !s.cancelled,
        s.queue.len() > 0,
        s.queue[0].sequence != s.expected,
    ensures
        s.receive_verdict() == Received::Failed(ArchiveError::SequenceViolation),
        s.after_receive().error == Some(ArchiveError::SequenceViolation),
        s.after_receive().closed,
{
}

} // verus!
