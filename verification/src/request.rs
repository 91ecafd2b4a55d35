//! The writer protocol: the request vocabulary exchanged between
//! clients and the writer server, and the transport envelope around it.

use vstd::prelude::*;

use crate::directory::WriterDirectory;

verus! {

/// One document to be indexed: the key the host addresses it by (its
/// tuple id) and the indexed payload, already rendered to bytes.  The
/// writer never looks inside the payload; the embedded search engine
/// does.
#[derive(Clone, Debug, PartialEq, Eq)]
pub struct SearchDocument {
    pub ctid: u64,
    pub content: Vec<u8>,
}

/// Mathematical model of a [`SearchDocument`].
pub struct DocModel {
    pub ctid: u64,
    pub content: Seq<u8>,
}

impl View for SearchDocument {
    type V = DocModel;

    open spec fn view(&self) -> DocModel {
        DocModel { ctid: self.ctid, content: self.content@ }
    }
}

/// The closed set of actions the writer server performs against an
/// index's writer.  `Commit` and `Abort` are flushing boundaries that
/// apply to every index touched since the previous boundary.
#[derive(Clone, Debug, PartialEq, Eq)]
pub enum WriterRequest {
    Insert { directory: WriterDirectory, document: SearchDocument },
    Delete { directory: WriterDirectory, field: u32, ctids: Vec<u64> },
    DropIndex { directory: WriterDirectory },
    Abort,
    Commit,
    Vacuum { directory: WriterDirectory },
}

/// Mathematical model of a [`WriterRequest`].
pub enum ReqModel {
    Insert { directory: WriterDirectory, document: DocModel },
    Delete { directory: WriterDirectory, field: u32, ctids: Seq<u64> },
    DropIndex { directory: WriterDirectory },
    Abort,
    Commit,
    Vacuum { directory: WriterDirectory },
}

impl View for WriterRequest {
    type V = ReqModel;

    open spec fn view(&self) -> ReqModel {
        match self {
            WriterRequest::Insert { directory, document } => ReqModel::Insert {
                directory: *directory,
                document: document@,
            },
            WriterRequest::Delete { directory, field, ctids } => ReqModel::Delete {
                directory: *directory,
                field: *field,
                ctids: ctids@,
            },
            WriterRequest::DropIndex { directory } => ReqModel::DropIndex {
                directory: *directory,
            },
            WriterRequest::Abort => ReqModel::Abort,
            WriterRequest::Commit => ReqModel::Commit,
            WriterRequest::Vacuum { directory } => ReqModel::Vacuum { directory: *directory },
        }
    }
}

/// Address of one transfer channel.  Channel names must never collide
/// across concurrent bulk sessions, so the address carries the owning
/// client process's identity plus a per-client serial number; the
/// filesystem path of the pipe is derived from the pair outside the
/// library.
#[derive(Clone, Copy, Debug, PartialEq, Eq, Hash, Structural)]
pub struct ChannelAddr {
    pub process_id: u64,
    pub serial: u64,
}

/// The transport envelope around a [`WriterRequest`]: either a single
/// request/response exchange, a switch to streamed bulk mode over the
/// named transfer channel, or the privileged shutdown order.
#[derive(Clone, Debug, PartialEq, Eq)]
pub enum ServerRequest {
    Request(WriterRequest),
    Transfer(ChannelAddr),
    Shutdown,
}

/// Mathematical model of a [`ServerRequest`].
pub enum EnvelopeModel {
    Request(ReqModel),
    Transfer(ChannelAddr),
    Shutdown,
}

impl View for ServerRequest {
    type V = EnvelopeModel;

    open spec fn view(&self) -> EnvelopeModel {
        match self {
            ServerRequest::Request(r) => EnvelopeModel::Request(r@),
            ServerRequest::Transfer(addr) => EnvelopeModel::Transfer(*addr),
            ServerRequest::Shutdown => EnvelopeModel::Shutdown,
        }
    }
}

} // verus!
