//! The producing side of the bridge: encoded bytes are cut into numbered
//! chunks, kept in an outbox, and offered to the bridge as far as it takes
//! them. Here the producer learns that the consumer has gone.

use crate::bridge::{
    chunk_views, pieces, ChunkSequencer, ChunkView, EncodedChunk, PipeState, SendVerdict,
    StreamBridge,
};
use crate::entry::ArchiveError;
use std::collections::VecDeque;
use vstd::prelude::*;

verus! {

/// Whether the producer goes on.
#[derive(Clone, Copy, Debug, PartialEq, Eq, Structural)]
pub enum ProducerPhase {
    /// Entries are walked, encoded and sent.
    Running,
    /// The archive is complete and the bridge closed.
    Finished,
    /// The consumer has gone. This is no error.
    Cancelled,
    /// The bridge was closed under the producer.
    Shut,
    /// The producer has failed and said so to the bridge.
    Failed(ArchiveError),
}

/// How an attempt to empty the outbox ended.
#[derive(Clone, Copy, Debug, PartialEq, Eq, Structural)]
pub enum FlushOutcome {
    /// The outbox is empty: go on producing.
    Drained,
    /// The bridge is full: wait for the consumer, then flush again.
    Blocked,
    /// The producer does not go on.
    Stopped,
}

/// The producer as a plain value.
pub struct ProducerView {
    pub phase: ProducerPhase,
    pub next_sequence: u64,
    pub max_len: usize,
    pub outbox: Seq<ChunkView>,
}

/// Producer and bridge after a flush, and how it ended.
pub struct Flushed {
    pub producer: ProducerView,
    pub pipe: PipeState,
    pub outcome: FlushOutcome,
}

impl ProducerView {
    /// The producer after it has stopped in `phase`: what it still held is
    /// dropped.
    pub open spec fn stopped(self, phase: ProducerPhase) -> ProducerView {
        ProducerView { phase, outbox: Seq::empty(), ..self }
    }

    /// A flush: the chunks of the outbox are offered in order until the
    /// outbox is empty, the bridge is full, or the producer has to stop. A
    /// cancelled bridge stops it even when the outbox is empty.
    pub open spec fn flushed(self, pipe: PipeState) -> Flushed
        decreases self.outbox.len(),
    {
        if self.phase != ProducerPhase::Running {
            Flushed { producer: self, pipe, outcome: FlushOutcome::Stopped }
        } else if pipe.cancelled {
            Flushed {
                producer: self.stopped(ProducerPhase::Cancelled),
                pipe,
                outcome: FlushOutcome::Stopped,
            }
        } else if self.outbox.len() == 0 {
            Flushed { producer: self, pipe, outcome: FlushOutcome::Drained }
        } else {
            match pipe.send_verdict(self.outbox[0]) {
                SendVerdict::Accepted => (ProducerView {
                    outbox: self.outbox.drop_first(),
                    ..self
                }).flushed(pipe.after_send(self.outbox[0])),
                SendVerdict::Full => Flushed { producer: self, pipe, outcome: FlushOutcome::Blocked },
                SendVerdict::Oversized => Flushed {
                    producer: self.stopped(ProducerPhase::Failed(ArchiveError::SequenceViolation)),
                    pipe: pipe.after_fail(ArchiveError::SequenceViolation),
                    outcome: FlushOutcome::Stopped,
                },
                _ => Flushed {
                    producer: self.stopped(ProducerPhase::Shut),
                    pipe,
                    outcome: FlushOutcome::Stopped,
                },
            }
        }
    }
}

/// Cuts, numbers and sends what the encoder hands out.
pub struct Producer {
    phase: ProducerPhase,
    sequencer: ChunkSequencer,
    outbox: VecDeque<EncodedChunk>,
}

impl View for Producer {
    type V = ProducerView;

    closed spec fn view(&self) -> ProducerView {
        ProducerView {
            phase: self.phase,
            next_sequence: self.sequencer.next_sequence(),
            max_len: self.sequencer.max_len(),
            outbox: self.outbox@.map_values(|c: EncodedChunk| c@),
        }
    }
}

impl Producer {
    /// Chunks have room for at least one byte.
    pub open spec fn wf(&self) -> bool {
        self@.max_len > 0
    }

    /// A running producer with an empty outbox that cuts chunks of at most
    /// `max_len` bytes, unless `max_len` is zero.
    pub fn new(max_len: usize) -> (producer: Option<Self>)
        ensures
            producer.is_some() == (max_len > 0),
            producer.is_some() ==> producer.unwrap().wf() && producer.unwrap()@ == (ProducerView {
                phase: ProducerPhase::Running,
                next_sequence: 0,
                max_len,
                outbox: Seq::empty(),
            }),
    {
        match ChunkSequencer::new(max_len) {
            None => None,
            Some(sequencer) => {
                let producer = Producer {
                    phase: ProducerPhase::Running,
                    sequencer,
                    outbox: VecDeque::new(),
                };
                assert(producer@.outbox =~= Seq::<ChunkView>::empty());
                Some(producer)
            },
        }
    }

    /// Whether the producer goes on.
    pub fn phase(&self) -> (phase: ProducerPhase)
        ensures
            phase == self@.phase,
    {
        self.phase
    }

    /// How many chunks wait in the outbox.
    pub fn waiting(&self) -> (n: usize)
        ensures
            n == self@.outbox.len(),
    {
        self.outbox.len()
    }

    /// Cuts `bytes` into chunks and puts them in the outbox behind what
    /// waits there. A producer that has stopped takes nothing, and where the
    /// sequence numbers run out nothing is taken either: the producer stays
    /// as it was, for the caller to fail it.
    pub fn enqueue(&mut self, bytes: &[u8]) -> (taken: bool)
        requires
            old(self).wf(),
        ensures
            final(self).wf(),
            final(self)@.max_len == old(self)@.max_len,
            taken <==> old(self)@.phase == ProducerPhase::Running && old(self)@.next_sequence
                + pieces(bytes@.len(), old(self)@.max_len as nat) <= u64::MAX,
            !taken ==> final(self)@ == old(self)@,
            taken ==> {
                let added = final(self)@.outbox.skip(old(self)@.outbox.len() as int);
                &&& final(self)@.phase == ProducerPhase::Running
                &&& final(self)@.outbox.len() == old(self)@.outbox.len() + pieces(
                    bytes@.len(),
                    old(self)@.max_len as nat,
                )
                &&& final(self)@.outbox.take(old(self)@.outbox.len() as int) == old(self)@.outbox
                &&& crate::bridge::chunk_bytes(added) == bytes@
                &&& final(self)@.next_sequence == old(self)@.next_sequence + added.len()
                &&& forall|i: int|
                    0 <= i < added.len() ==> {
                        &&& (#[trigger] added[i]).sequence == old(self)@.next_sequence + i
                        &&& 0 < added[i].data.len() <= old(self)@.max_len
                    }
            },
    {
        match self.phase {
            ProducerPhase::Running => {},
            _ => {
                return false;
            },
        }
        match self.sequencer.cut(bytes) {
            Err(e) => false,
            Ok(mut chunks) => {
                let ghost cut = chunk_views(chunks@);
                let ghost before = self@.outbox;
                let mut rest: VecDeque<EncodedChunk> = VecDeque::new();
                // The chunks leave the vector from its end, so they pass
                // through a second queue to keep their order.
                while chunks.len() > 0
                    invariant
                        chunks@.len() <= cut.len(),
                        chunk_views(chunks@) == cut.take(chunks@.len() as int),
                        rest@.map_values(|c: EncodedChunk| c@) == cut.skip(chunks@.len() as int),
                    decreases chunks@.len(),
                {
                    let ghost held = chunk_views(chunks@);
                    let ghost queued = rest@.map_values(|c: EncodedChunk| c@);
                    let chunk = chunks.pop().unwrap();
                    assert(chunk@ == held.last());
                    assert(held.last() == cut[held.len() - 1]);
                    rest.push_front(chunk);
                    assert(chunk_views(chunks@) =~= held.drop_last());
                    assert(queued == cut.skip(held.len() as int));
                    assert(rest@.map_values(|c: EncodedChunk| c@) =~= seq![chunk@] + queued);
                    assert(rest@.map_values(|c: EncodedChunk| c@) =~= cut.skip(
                        chunks@.len() as int,
                    ));
                }
                assert(cut.skip(0) =~= cut);
                self.outbox.append(&mut rest);
                assert(self@.outbox =~= before + cut);
                assert(self@.outbox.skip(before.len() as int) =~= cut);
                assert(self@.outbox.take(before.len() as int) =~= before);
                true
            },
        }
    }

    /// Offers the chunks of the outbox to the bridge, in order, as far as it
    /// takes them.
    pub fn flush(&mut self, bridge: &mut StreamBridge) -> (outcome: FlushOutcome)
        requires
            old(self).wf(),
            old(bridge).wf(),
        ensures
            final(self).wf(),
            final(bridge).wf(),
            final(self)@ == old(self)@.flushed(old(bridge)@).producer,
            final(bridge)@ == old(self)@.flushed(old(bridge)@).pipe,
            outcome == old(self)@.flushed(old(bridge)@).outcome,
    {
        match self.phase {
            ProducerPhase::Running => {},
            _ => {
                return FlushOutcome::Stopped;
            },
        }
        loop
            invariant
                self.wf(),
                bridge.wf(),
                self@.phase == ProducerPhase::Running,
                self@.flushed(bridge@) == old(self)@.flushed(old(bridge)@),
            decreases self@.outbox.len(),
        {
            if bridge.is_cancelled() {
                self.phase = ProducerPhase::Cancelled;
                self.outbox.clear();
                assert(self@.outbox =~= Seq::<ChunkView>::empty());
                return FlushOutcome::Stopped;
            }
            let ghost before = self@;
            let chunk = match self.outbox.pop_front() {
                None => {
                    assert(self@.outbox =~= before.outbox);
                    return FlushOutcome::Drained;
                },
                Some(chunk) => chunk,
            };
            let ghost head = chunk@;
            assert(head == before.outbox[0]);
            assert(self@.outbox =~= before.outbox.drop_first());
            let (verdict, back) = bridge.try_send(chunk);
            match verdict {
                SendVerdict::Accepted => {},
                SendVerdict::Full => {
                    self.outbox.push_front(back.unwrap());
                    assert(self@.outbox =~= before.outbox);
                    return FlushOutcome::Blocked;
                },
                SendVerdict::Oversized => {
                    self.phase = ProducerPhase::Failed(ArchiveError::SequenceViolation);
                    self.outbox.clear();
                    assert(self@.outbox =~= Seq::<ChunkView>::empty());
                    bridge.fail(ArchiveError::SequenceViolation);
                    return FlushOutcome::Stopped;
                },
                _ => {
                    self.phase = ProducerPhase::Shut;
                    self.outbox.clear();
                    assert(self@.outbox =~= Seq::<ChunkView>::empty());
                    return FlushOutcome::Stopped;
                },
            }
        }
    }

    /// The producer has met an error: the bridge is told, and the producer
    /// stops. A producer that had stopped before stays as it was.
    pub fn fail(&mut self, bridge: &mut StreamBridge, error: ArchiveError)
        requires
            old(self).wf(),
            old(bridge).wf(),
        ensures
            final(self).wf(),
            final(bridge).wf(),
            old(self)@.phase == ProducerPhase::Running ==> final(self)@ == old(self)@.stopped(
                ProducerPhase::Failed(error),
            ) && final(bridge)@ == old(bridge)@.after_fail(error),
            old(self)@.phase != ProducerPhase::Running ==> final(self)@ == old(self)@ && final(bridge)@ == old(bridge)@,
    {
        match self.phase {
            ProducerPhase::Running => {
                self.phase = ProducerPhase::Failed(error);
                self.outbox.clear();
                assert(self@.outbox =~= Seq::<ChunkView>::empty());
                bridge.fail(error);
            },
            _ => {},
        }
    }

    /// The archive is complete: once the outbox is empty the bridge is
    /// closed and the producer is done. With chunks still waiting, or after
    /// the producer has stopped, nothing happens.
    pub fn finish(&mut self, bridge: &mut StreamBridge) -> (done: bool)
        requires
            old(self).wf(),
            old(bridge).wf(),
        ensures
            final(self).wf(),
            final(bridge).wf(),
            done == (old(self)@.phase == ProducerPhase::Running && old(self)@.outbox.len() == 0),
            done ==> final(self)@ == (ProducerView { phase: ProducerPhase::Finished, ..old(self)@ })
                && final(bridge)@ == old(bridge)@.after_close(),
            !done ==> final(self)@ == old(self)@ && final(bridge)@ == old(bridge)@,
    {
        match self.phase {
            ProducerPhase::Running => {
                if self.outbox.len() == 0 {
                    self.phase = ProducerPhase::Finished;
                    bridge.close();
                    true
                } else {
                    false
                }
            },
            _ => false,
        }
    }
}

/// Cancellation reaches the producer at its next flush, whatever it holds:
/// it stops without an error, drops what waited, and sends nothing. From
/// then on nothing is taken into the outbox and nothing is offered to the
/// bridge.
pub proof fn lemma_cancellation_halts_producer(p: ProducerView, pipe: PipeState)
    requires
        p.phase == ProducerPhase::Running,
        pipe.cancelled,
    ensures
        p.flushed(pipe).outcome == FlushOutcome::Stopped,
        p.flushed(pipe).producer == p.stopped(ProducerPhase::Cancelled),
        p.flushed(pipe).pipe == pipe,
        forall|later: PipeState| #[trigger]
            p.flushed(pipe).producer.flushed(later) == (Flushed {
                producer: p.flushed(pipe).producer,
                pipe: later,
                outcome: FlushOutcome::Stopped,
            }),
{
}

/// A flush sends in order and never beyond capacity: the bridge afterwards
/// holds what it held, then a run of chunks from the head of the outbox, and
/// the outbox holds the rest.
pub proof fn lemma_flush_keeps_order(p: ProducerView, pipe: PipeState)
    requires
        pipe.wf(),
        p.phase == ProducerPhase::Running,
        !pipe.cancelled,
    ensures
        p.flushed(pipe).pipe.wf(),
        p.flushed(pipe).producer.phase == ProducerPhase::Running ==> pipe.queue + p.outbox
            == p.flushed(pipe).pipe.queue + p.flushed(pipe).producer.outbox,
        p.flushed(pipe).outcome == FlushOutcome::Drained ==> p.flushed(pipe).pipe.queue
            == pipe.queue + p.outbox,
    decreases p.outbox.len(),
{
    if p.outbox.len() > 0 {
        let head = p.outbox[0];
        crate::bridge::lemma_buffer_stays_bounded(pipe, head, ArchiveError::SequenceViolation);
        if pipe.send_verdict(head) == SendVerdict::Accepted {
            let q = ProducerView { outbox: p.outbox.drop_first(), ..p };
            lemma_flush_keeps_order(q, pipe.after_send(head));
            assert(pipe.queue.push(head) + p.outbox.drop_first() =~= pipe.queue + p.outbox);
        }
    } else {
        assert(pipe.queue + p.outbox =~= pipe.queue);
    }
}

} // verus!
