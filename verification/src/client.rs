//! The writer client: the per-connection handle that turns logical
//! mutations into protocol messages for the writer server.
//!
//! The client decides; the surrounding process performs the sends.
//! Each operation returns the bytes to put on the wire: point
//! operations yield one serialized envelope, bulk operations stream
//! over a transfer channel that the client opens lazily and closes on
//! the first point operation after it, explicitly via
//! [`Client::stop_transfer`], or at end of transaction.

use vstd::prelude::*;

use crate::codec::{dec_stream, enc_envelope, enc_stream, req_wf, serialize_envelope};
use crate::request::{ChannelAddr, EnvelopeModel, ReqModel, ServerRequest, WriterRequest};
use crate::transfer::TransferProducer;

verus! {

/// A failure surfaced to the caller of one client operation, tagged
/// by category.  All are non-retryable inside the call; the caller
/// decides whether to retry the whole logical operation.
#[derive(Clone, Debug, PartialEq, Eq)]
pub enum ClientError {
    /// The transfer channel's pipe resource could not be opened.
    OpenPipeFile(ChannelAddr),
    /// The transfer channel's pipe resource could not be created.
    CreatePipeFile(ChannelAddr),
    /// The transfer channel's pipe resource could not be removed.
    RemovePipeFile(ChannelAddr),
    /// The server's response could not be read or parsed.
    ResponseParseError,
    /// The server reported a failure; carries the server's text.
    ServerError(String),
    /// The transport failed while sending or receiving.
    IOError,
}

/// One client process's handle to the writer server.
pub struct Client {
    process_id: u64,
    next_serial: u64,
    producer: Option<TransferProducer>,
}

impl Client {
    /// Whether a bulk transfer is open.
    pub closed spec fn transfer_open(&self) -> bool {
        self.producer is Some
    }

    /// The requests buffered in the open transfer, in order; empty
    /// when no transfer is open.
    pub closed spec fn buffered(&self) -> Seq<ReqModel> {
        match self.producer {
            Some(p) => p.messages(),
            None => Seq::empty(),
        }
    }

    pub closed spec fn id(&self) -> u64 {
        self.process_id
    }

    pub fn new(process_id: u64) -> (c: Client)
        ensures
            !c.transfer_open(),
            c.id() == process_id,
    {
        Client { process_id, next_serial: 0, producer: None }
    }

    /// Send one point request.  If a transfer is open it is stopped
    /// first — the server is never asked to service a point request
    /// and a stream at once — and its whole stream comes back in the
    /// first component, to be delivered before the envelope in the
    /// second.  No buffered request is lost or duplicated: the stream
    /// decodes to exactly the requests written to the transfer.
    pub fn request(&mut self, req: &WriterRequest) -> (r: (Option<Vec<u8>>, Vec<u8>))
        ensures
            !final(self).transfer_open(),
            final(self).id() == old(self).id(),
            r.1@ == enc_envelope(EnvelopeModel::Request(req@)),
            match r.0 {
                Some(stream) => old(self).transfer_open() && stream@ == enc_stream(
                    old(self).buffered(),
                ) && dec_stream(stream@) == Some(old(self).buffered()),
                None => !old(self).transfer_open(),
            },
    {
        let closed_stream = self.stop_transfer();
        let envelope = serialize_envelope(&ServerRequest::Request(clone_request(req)));
        (closed_stream, envelope)
    }

    /// Append one request to the open bulk stream, opening the
    /// transfer channel on first use.  On first use the returned
    /// envelope — the `Transfer` control message naming the channel —
    /// must reach the server before the stream does.  The channel's
    /// address is unique per process and per session, so concurrent
    /// bulk sessions never collide.
    pub fn transfer(&mut self, req: &WriterRequest) -> (r: Option<Vec<u8>>)
        requires
            req_wf(req@),
        ensures
            final(self).transfer_open(),
            final(self).id() == old(self).id(),
            final(self).buffered() == old(self).buffered().push(req@),
            match r {
                Some(envelope) => !old(self).transfer_open() && envelope@ == enc_envelope(
                    EnvelopeModel::Transfer(
                        ChannelAddr { process_id: old(self).id(), serial: old(self).serial() },
                    ),
                ),
                None => old(self).transfer_open(),
            },
    {
        let mut taken: Option<TransferProducer> = None;
        std::mem::swap(&mut taken, &mut self.producer);
        let (producer, handshake): (TransferProducer, Option<Vec<u8>>) = match taken {
            Some(p) => (p, None),
            None => {
                let addr = ChannelAddr { process_id: self.process_id, serial: self.next_serial };
                self.next_serial = self.next_serial.wrapping_add(1);
                let envelope = serialize_envelope(&ServerRequest::Transfer(addr));
                (TransferProducer::open(addr), Some(envelope))
            },
        };
        let producer = producer.write_message(req);
        self.producer = Some(producer);
        handshake
    }

    /// Stop the bulk transfer, if one is open: close the channel and
    /// hand back its whole stream for delivery.  Must be called before
    /// any further point request after a bulk session, and should also
    /// be called at end of transaction — the closed channel is the
    /// only end-of-stream signal the server gets.
    pub fn stop_transfer(&mut self) -> (r: Option<Vec<u8>>)
        ensures
            !final(self).transfer_open(),
            final(self).id() == old(self).id(),
            match r {
                Some(stream) => old(self).transfer_open() && stream@ == enc_stream(
                    old(self).buffered(),
                ) && dec_stream(stream@) == Some(old(self).buffered()),
                None => !old(self).transfer_open(),
            },
    {
        let mut taken: Option<TransferProducer> = None;
        std::mem::swap(&mut taken, &mut self.producer);
        match taken {
            Some(p) => Some(p.close()),
            None => None,
        }
    }

    /// Order the writer server to terminate.  Should only be called
    /// by the owning lifecycle manager at shutdown.  An open transfer
    /// is stopped first, as for a point request.
    pub fn stop_server(&mut self) -> (r: (Option<Vec<u8>>, Vec<u8>))
        ensures
            !final(self).transfer_open(),
            final(self).id() == old(self).id(),
            r.1@ == enc_envelope(EnvelopeModel::Shutdown),
            match r.0 {
                Some(stream) => old(self).transfer_open() && stream@ == enc_stream(
                    old(self).buffered(),
                ) && dec_stream(stream@) == Some(old(self).buffered()),
                None => !old(self).transfer_open(),
            },
    {
        let closed_stream = self.stop_transfer();
        let envelope = serialize_envelope(&ServerRequest::Shutdown);
        (closed_stream, envelope)
    }

    /// The serial the next transfer channel will use.
    pub closed spec fn serial(&self) -> u64 {
        self.next_serial
    }
}

/// Duplicate a request value, field for field.
pub fn clone_request(req: &WriterRequest) -> (r: WriterRequest)
    ensures
        r@ == req@,
{
    match req {
        WriterRequest::Insert { directory, document } => {
            let content = clone_bytes(&document.content);
            WriterRequest::Insert {
                directory: *directory,
                document: crate::request::SearchDocument { ctid: document.ctid, content },
            }
        },
        WriterRequest::Delete { directory, field, ctids } => {
            let mut ids: Vec<u64> = Vec::new();
            let mut k: usize = 0;
            while k < ctids.len()
                invariant
                    k <= ctids@.len(),
                    ids@ == ctids@.take(k as int),
                decreases ctids@.len() - k,
            {
                ids.push(ctids[k]);
                proof {
                    assert(ids@ =~= ctids@.take(k as int + 1));
                }
                k = k + 1;
            }
            proof {
                assert(ctids@.take(ctids@.len() as int) =~= ctids@);
            }
            WriterRequest::Delete { directory: *directory, field: *field, ctids: ids }
        },
        WriterRequest::DropIndex { directory } => WriterRequest::DropIndex {
            directory: *directory,
        },
        WriterRequest::Abort => WriterRequest::Abort,
        WriterRequest::Commit => WriterRequest::Commit,
        WriterRequest::Vacuum { directory } => WriterRequest::Vacuum { directory: *directory },
    }
}

fn clone_bytes(v: &Vec<u8>) -> (r: Vec<u8>)
    ensures
        r@ == v@,
{
    let r = v.clone();
    proof {
        assert(r@ =~= v@);
    }
    r
}

} // verus!
