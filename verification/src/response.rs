//! The outbound side: the headers that announce an archive, and what to do
//! with each thing that arrives from the bridge.

use crate::bridge::{ReceiveOutcome, Received, StreamBridge};
use crate::encoding::push_bytes;
use crate::entry::{parse_format, ArchiveError, ArchiveFormat, ArchiveRequest, SLASH};
use vstd::prelude::*;

verus! {

/// The media type of an archive.
pub open spec fn content_type_text(format: ArchiveFormat) -> Seq<char> {
    match format {
        ArchiveFormat::Tar => "application/x-tar"@,
        ArchiveFormat::Zip => "application/zip"@,
    }
}

/// The media type of an archive.
pub fn content_type(format: ArchiveFormat) -> (text: &'static str)
    ensures
        text@ == content_type_text(format),
{
    match format {
        ArchiveFormat::Tar => "application/x-tar",
        ArchiveFormat::Zip => "application/zip",
    }
}

/// `tar` or `zip`.
pub open spec fn extension(format: ArchiveFormat) -> Seq<u8> {
    match format {
        ArchiveFormat::Tar => seq![116u8, 97u8, 114u8],
        ArchiveFormat::Zip => seq![122u8, 105u8, 112u8],
    }
}

/// `archive`, the name of an archive of a directory without a name.
pub open spec fn default_name() -> Seq<u8> {
    seq![97u8, 114u8, 99u8, 104u8, 105u8, 118u8, 101u8]
}

/// `path` without the slashes at its end.
pub open spec fn trimmed(path: Seq<u8>) -> Seq<u8>
    decreases path.len(),
{
    if path.len() > 0 && path.last() == SLASH {
        trimmed(path.drop_last())
    } else {
        path
    }
}

/// What follows the last slash of `path`.
pub open spec fn last_segment(path: Seq<u8>) -> Seq<u8>
    decreases path.len(),
{
    if path.len() == 0 || path.last() == SLASH {
        Seq::empty()
    } else {
        last_segment(path.drop_last()).push(path.last())
    }
}

/// The name of the directory that `path` leads to: its last segment,
/// slashes at the end set aside. It is empty for the root.
pub open spec fn basename(path: Seq<u8>) -> Seq<u8> {
    last_segment(trimmed(path))
}

/// The file name offered for the download: the directory's name, or
/// `archive` where it has none, a dot and the extension of the format.
pub open spec fn suggested_name(path: Seq<u8>, format: ArchiveFormat) -> Seq<u8> {
    (if basename(path).len() == 0 {
        default_name()
    } else {
        basename(path)
    }) + seq![46u8] + extension(format)
}

/// A byte as it stands inside the quoted file name of a header: quotes and
/// backslashes are escaped, control characters give way to an underscore.
pub open spec fn quoted_byte(b: u8) -> Seq<u8> {
    if b == 34 || b == 92 {
        seq![92u8, b]
    } else if b < 32 || b == 127 {
        seq![95u8]
    } else {
        seq![b]
    }
}

/// All bytes of `name` as they stand inside quotes.
pub open spec fn quoted(name: Seq<u8>) -> Seq<u8>
    decreases name.len(),
{
    if name.len() == 0 {
        Seq::empty()
    } else {
        quoted(name.drop_last()) + quoted_byte(name.last())
    }
}

/// `attachment; filename="`, the start of the header value.
pub open spec fn disposition_prefix() -> Seq<u8> {
    seq![
        97u8, 116u8, 116u8, 97u8, 99u8, 104u8, 109u8, 101u8, 110u8, 116u8, 59u8, 32u8, 102u8,
        105u8, 108u8, 101u8, 110u8, 97u8, 109u8, 101u8, 61u8, 34u8,
    ]
}

/// The value of the content-disposition header for a download named `name`.
pub open spec fn disposition(name: Seq<u8>) -> Seq<u8> {
    disposition_prefix() + quoted(name) + seq![34u8]
}

/// The name of the directory that `path` leads to.
pub fn directory_basename(path: &[u8]) -> (name: Vec<u8>)
    ensures
        name@ == basename(path@),
{
    let mut end: usize = path.len();
    assert(path@.take(end as int) =~= path@);
    while end > 0 && path[end - 1] == SLASH
        invariant
            end <= path@.len(),
            trimmed(path@) == trimmed(path@.take(end as int)),
        decreases end,
    {
        assert(path@.take(end as int).drop_last() =~= path@.take(end - 1));
        end -= 1;
    }
    let ghost stem = path@.take(end as int);
    assert(trimmed(stem) == stem);
    let mut start: usize = end;
    assert(path@.subrange(start as int, end as int) =~= Seq::<u8>::empty());
    assert(last_segment(stem) =~= last_segment(path@.take(start as int)) + path@.subrange(
        start as int,
        end as int,
    ));
    while start > 0 && path[start - 1] != SLASH
        invariant
            start <= end <= path@.len(),
            stem == path@.take(end as int),
            last_segment(path@.take(start as int)) + path@.subrange(start as int, end as int)
                == last_segment(stem),
        decreases start,
    {
        assert(path@.take(start as int).drop_last() =~= path@.take(start - 1));
        assert(last_segment(path@.take(start - 1)).push(path@[start - 1]) + path@.subrange(
            start as int,
            end as int,
        ) =~= last_segment(path@.take(start - 1)) + path@.subrange(start - 1, end as int));
        start -= 1;
    }
    assert(last_segment(path@.take(start as int)) =~= Seq::<u8>::empty());
    let mut name: Vec<u8> = Vec::new();
    push_bytes(&mut name, vstd::slice::slice_subrange(path, start, end));
    assert(name@ =~= last_segment(stem));
    name
}

/// The file name offered for the download of the directory at `path`.
pub fn suggested_filename(path: &[u8], format: ArchiveFormat) -> (name: Vec<u8>)
    ensures
        name@ == suggested_name(path@, format),
{
    let mut name = directory_basename(path);
    if name.len() == 0 {
        name.push(97u8);
        name.push(114u8);
        name.push(99u8);
        name.push(104u8);
        name.push(105u8);
        name.push(118u8);
        name.push(101u8);
    }
    name.push(46u8);
    match format {
        ArchiveFormat::Tar => {
            name.push(116u8);
            name.push(97u8);
            name.push(114u8);
        },
        ArchiveFormat::Zip => {
            name.push(122u8);
            name.push(105u8);
            name.push(112u8);
        },
    }
    assert(name@ =~= suggested_name(path@, format));
    name
}

/// The value of the content-disposition header for a download named `name`.
pub fn content_disposition(name: &[u8]) -> (value: Vec<u8>)
    ensures
        value@ == disposition(name@),
{
    let mut value: Vec<u8> = Vec::new();
    value.push(97u8);
    value.push(116u8);
    value.push(116u8);
    value.push(97u8);
    value.push(99u8);
    value.push(104u8);
    value.push(109u8);
    value.push(101u8);
    value.push(110u8);
    value.push(116u8);
    value.push(59u8);
    value.push(32u8);
    value.push(102u8);
    value.push(105u8);
    value.push(108u8);
    value.push(101u8);
    value.push(110u8);
    value.push(97u8);
    value.push(109u8);
    value.push(101u8);
    value.push(61u8);
    value.push(34u8);
    assert(value@ =~= disposition_prefix());
    let mut i: usize = 0;
    assert(name@.take(0) =~= Seq::<u8>::empty());
    while i < name.len()
        invariant
            i <= name@.len(),
            value@ == disposition_prefix() + quoted(name@.take(i as int)),
        decreases name@.len() - i,
    {
        let b: u8 = name[i];
        let ghost before = value@;
        if b == 34 || b == 92 {
            value.push(92u8);
            value.push(b);
        } else if b < 32 || b == 127 {
            value.push(95u8);
        } else {
            value.push(b);
        }
        assert(value@ =~= before + quoted_byte(b));
        assert(name@.take(i + 1).drop_last() =~= name@.take(i as int));
        assert(value@ =~= disposition_prefix() + quoted(name@.take(i + 1)));
        i += 1;
    }
    assert(name@.take(i as int) =~= name@);
    value.push(34u8);
    value
}

/// The status that tells of an error met before any byte was sent: not found
/// for an unreadable root, bad request for a tree too deep or a format not
/// supported, and a server error for what should not happen so early.
pub open spec fn status_of(error: ArchiveError) -> u16 {
    match error {
        ArchiveError::RootUnreadable => 404,
        ArchiveError::WalkTooDeep => 400,
        ArchiveError::UnsupportedFormat => 400,
        _ => 500,
    }
}

/// The status that tells of an error met before any byte was sent.
pub fn status_for(error: ArchiveError) -> (status: u16)
    ensures
        status == status_of(error),
{
    match error {
        ArchiveError::RootUnreadable => 404,
        ArchiveError::WalkTooDeep => 400,
        ArchiveError::UnsupportedFormat => 400,
        _ => 500,
    }
}

/// What announces an archive. There is no content length: the size is not
/// known in advance, so the body is sent in chunks.
pub struct ResponseHead {
    pub status: u16,
    pub content_type: &'static str,
    pub filename: Vec<u8>,
    pub content_disposition: Vec<u8>,
    pub content_length: Option<u64>,
    pub chunked: bool,
}

/// The head of the response that carries the archive of the directory at
/// `path`.
pub fn response_head(path: &[u8], format: ArchiveFormat) -> (head: ResponseHead)
    ensures
        head.status == 200,
        head.content_type@ == content_type_text(format),
        head.filename@ == suggested_name(path@, format),
        head.content_disposition@ == disposition(suggested_name(path@, format)),
        head.content_length.is_none(),
        head.chunked,
{
    let filename = suggested_filename(path, format);
    let content_disposition = content_disposition(filename.as_slice());
    ResponseHead {
        status: 200,
        content_type: content_type(format),
        filename,
        content_disposition,
        content_length: None,
        chunked: true,
    }
}

/// A request for an archive and the head of its answer.
pub struct ArchiveJob {
    pub request: ArchiveRequest,
    pub head: ResponseHead,
}

/// The format that `name` stands for, if it is one.
pub open spec fn format_named(name: Seq<u8>) -> Option<ArchiveFormat> {
    if name == extension(ArchiveFormat::Tar) {
        Some(ArchiveFormat::Tar)
    } else if name == extension(ArchiveFormat::Zip) {
        Some(ArchiveFormat::Zip)
    } else {
        None
    }
}

/// Takes up a request for the archive of the directory at `root`: the
/// request itself and the head that announces the download, or the error
/// that the format is not supported. The bytes follow from walking and
/// encoding what the request names.
pub fn generate_archive(root: &[u8], format: &[u8], follow_symlinks: bool) -> (out: Result<
    ArchiveJob,
    ArchiveError,
>)
    ensures
        out.is_ok() <==> format_named(format@).is_some(),
        match out {
            Ok(job) => {
                let chosen = format_named(format@).unwrap();
                &&& job.request.root@ == root@
                &&& job.request.relative_root@ == basename(root@)
                &&& job.request.format == chosen
                &&& job.request.follow_symlinks == follow_symlinks
                &&& job.head.status == 200
                &&& job.head.content_type@ == content_type_text(chosen)
                &&& job.head.filename@ == suggested_name(root@, chosen)
                &&& job.head.content_disposition@ == disposition(suggested_name(root@, chosen))
                &&& job.head.content_length.is_none()
                &&& job.head.chunked
            },
            Err(e) => e == ArchiveError::UnsupportedFormat,
        },
{
    let chosen = match parse_format(format) {
        Ok(chosen) => chosen,
        Err(e) => {
            return Err(ArchiveError::UnsupportedFormat);
        },
    };
    let mut path: Vec<u8> = Vec::new();
    push_bytes(&mut path, root);
    let request = ArchiveRequest {
        root: path,
        relative_root: directory_basename(root),
        format: chosen,
        follow_symlinks,
    };
    Ok(ArchiveJob { request, head: response_head(root, chosen) })
}

/// How far the response has come.
#[derive(Clone, Copy, Debug, PartialEq, Eq, Structural)]
pub enum StreamPhase {
    /// Nothing has been sent: the status can still be chosen.
    Unsent,
    /// The head and some of the body are out.
    Streaming,
    /// The body is complete.
    Finished,
    /// The response was given up.
    Aborted,
}

/// What to do with the transport next.
pub enum Delivery {
    /// Nothing has arrived: wait and pull again.
    Wait,
    /// Send this chunk, after the head if it is the first.
    Forward(Vec<u8>),
    /// End the body.
    Finish,
    /// There is no archive: answer with this status instead.
    Reject(u16),
    /// Break the connection off: the client sees a truncated body.
    Truncate,
    /// The response is over; there is nothing to do.
    Stop,
}

/// A delivery as a plain value.
pub enum DeliveryView {
    Wait,
    Forward(Seq<u8>),
    Finish,
    Reject(u16),
    Truncate,
    Stop,
}

impl View for Delivery {
    type V = DeliveryView;

    open spec fn view(&self) -> DeliveryView {
        match self {
            Delivery::Wait => DeliveryView::Wait,
            Delivery::Forward(data) => DeliveryView::Forward(data@),
            Delivery::Finish => DeliveryView::Finish,
            Delivery::Reject(status) => DeliveryView::Reject(*status),
            Delivery::Truncate => DeliveryView::Truncate,
            Delivery::Stop => DeliveryView::Stop,
        }
    }
}

/// What is done with what arrived, in a given phase. An error before the
/// first byte still becomes a status; after it, the stream can only be cut.
pub open spec fn delivery_of(phase: StreamPhase, arrived: Received) -> DeliveryView {
    match phase {
        StreamPhase::Finished | StreamPhase::Aborted => DeliveryView::Stop,
        _ => match arrived {
            Received::Pending => DeliveryView::Wait,
            Received::Chunk(c) => DeliveryView::Forward(c.data),
            Received::End => DeliveryView::Finish,
            Received::Failed(e) => if phase == StreamPhase::Unsent {
                DeliveryView::Reject(status_of(e))
            } else {
                DeliveryView::Truncate
            },
        },
    }
}

/// The phase after what arrived was dealt with.
pub open spec fn phase_after(phase: StreamPhase, arrived: Received) -> StreamPhase {
    match phase {
        StreamPhase::Finished | StreamPhase::Aborted => phase,
        _ => match arrived {
            Received::Pending => phase,
            Received::Chunk(c) => StreamPhase::Streaming,
            Received::End => StreamPhase::Finished,
            Received::Failed(e) => StreamPhase::Aborted,
        },
    }
}

/// Turns what the bridge hands over into what the transport is to do.
pub struct ResponseStreamer {
    phase: StreamPhase,
}

impl ResponseStreamer {
    pub closed spec fn phase(&self) -> StreamPhase {
        self.phase
    }

    /// A streamer that has sent nothing.
    pub fn new() -> (streamer: Self)
        ensures
            streamer.phase() == StreamPhase::Unsent,
    {
        ResponseStreamer { phase: StreamPhase::Unsent }
    }

    /// How far the response has come.
    pub fn current_phase(&self) -> (phase: StreamPhase)
        ensures
            phase == self.phase(),
    {
        self.phase
    }

    /// Deals with one thing that arrived from the bridge.
    pub fn on_received(&mut self, arrived: ReceiveOutcome) -> (delivery: Delivery)
        ensures
            delivery@ == delivery_of(old(self).phase(), arrived@),
            final(self).phase() == phase_after(old(self).phase(), arrived@),
    {
        match self.phase {
            StreamPhase::Finished => {
                return Delivery::Stop;
            },
            StreamPhase::Aborted => {
                return Delivery::Stop;
            },
            _ => {},
        }
        match arrived {
            ReceiveOutcome::Pending => Delivery::Wait,
            ReceiveOutcome::Chunk(chunk) => {
                self.phase = StreamPhase::Streaming;
                Delivery::Forward(chunk.data)
            },
            ReceiveOutcome::End => {
                self.phase = StreamPhase::Finished;
                Delivery::Finish
            },
            ReceiveOutcome::Failed(e) => {
                let unsent: bool = self.phase == StreamPhase::Unsent;
                self.phase = StreamPhase::Aborted;
                if unsent {
                    Delivery::Reject(status_for(e))
                } else {
                    Delivery::Truncate
                }
            },
        }
    }

    /// Pulls once from the bridge and deals with what was there.
    pub fn pull(&mut self, bridge: &mut StreamBridge) -> (delivery: Delivery)
        requires
            old(bridge).wf(),
        ensures
            final(bridge).wf(),
            old(self).phase() == StreamPhase::Finished || old(self).phase() == StreamPhase::Aborted
                ==> delivery@ == DeliveryView::Stop && final(bridge)@ == old(bridge)@ && final(self).phase() == old(self).phase(),
            old(self).phase() == StreamPhase::Unsent || old(self).phase() == StreamPhase::Streaming
                ==> {
                &&& delivery@ == delivery_of(old(self).phase(), old(bridge)@.receive_verdict())
                &&& final(self).phase() == phase_after(
                    old(self).phase(),
                    old(bridge)@.receive_verdict(),
                )
                &&& final(bridge)@ == old(bridge)@.after_receive()
            },
    {
        match self.phase {
            StreamPhase::Finished => {
                return Delivery::Stop;
            },
            StreamPhase::Aborted => {
                return Delivery::Stop;
            },
            _ => {},
        }
        let arrived = bridge.try_receive();
        self.on_received(arrived)
    }

    /// The client has gone, or the transport failed a write: the response is
    /// given up and the producer is told to stop. After a complete body
    /// there is nothing left to stop.
    pub fn on_disconnect(&mut self, bridge: &mut StreamBridge)
        requires
            old(bridge).wf(),
        ensures
            final(bridge).wf(),
            old(self).phase() == StreamPhase::Finished ==> final(self).phase()
                == StreamPhase::Finished && final(bridge)@ == old(bridge)@,
            old(self).phase() != StreamPhase::Finished ==> final(self).phase()
                == StreamPhase::Aborted && final(bridge)@ == old(bridge)@.after_cancel(),
    {
        match self.phase {
            StreamPhase::Finished => {},
            _ => {
                self.phase = StreamPhase::Aborted;
                bridge.cancel();
            },
        }
    }
}

/// Once the response is over, whatever arrives changes nothing and nothing is
/// sent; and an error never turns into a status once a byte is out.
pub proof fn lemma_response_is_final(phase: StreamPhase, arrived: Received)
    ensures
        phase == StreamPhase::Finished || phase == StreamPhase::Aborted ==> phase_after(
            phase,
            arrived,
        ) == phase && delivery_of(phase, arrived) == DeliveryView::Stop,
        phase == StreamPhase::Streaming ==> !(delivery_of(phase, arrived) is Reject),
        phase == StreamPhase::Unsent ==> !(delivery_of(phase, arrived) is Truncate),
{
}

} // verus!
