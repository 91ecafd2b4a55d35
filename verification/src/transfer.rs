//! The transfer channel's producing end: a single-writer byte stream
//! of length-prefixed frames, one writer request per frame.
//!
//! The producer owns the channel for its lifetime.  Requests written
//! to it are buffered as framed bytes; closing the producer yields the
//! stream exactly as the server will read it to end-of-stream.  The
//! channel's address carries the owning process's identity and a
//! per-client serial, so concurrent bulk sessions never collide.

use vstd::prelude::*;

use crate::codec::{dec_stream, enc_req, enc_stream, frame, lemma_stream_round_trip, push_frame,
    req_wf, stream_wf};
use crate::request::{ChannelAddr, ReqModel, WriterRequest};

verus! {

pub struct TransferProducer {
    addr: ChannelAddr,
    buffer: Vec<u8>,
    msgs: Ghost<Seq<ReqModel>>,
}

impl TransferProducer {
    #[verifier::type_invariant]
    spec fn wf(&self) -> bool {
        self.buffer@ == enc_stream(self.msgs@) && stream_wf(self.msgs@)
    }

    /// The requests written to the channel so far, in order.
    pub closed spec fn messages(&self) -> Seq<ReqModel> {
        self.msgs@
    }

    pub closed spec fn address(&self) -> ChannelAddr {
        self.addr
    }

    /// Open the channel resource under the given address.
    pub fn open(addr: ChannelAddr) -> (p: TransferProducer)
        ensures
            p.messages() == Seq::<ReqModel>::empty(),
            p.address() == addr,
    {
        let p = TransferProducer { addr, buffer: Vec::new(), msgs: Ghost(Seq::empty()) };
        proof {
            assert(p.buffer@ =~= enc_stream(p.msgs@));
        }
        p
    }

    pub fn address_value(&self) -> (a: ChannelAddr)
        ensures
            a == self.address(),
    {
        self.addr
    }

    /// Append one framed request to the stream, passing the channel
    /// through.
    pub fn write_message(self, req: &WriterRequest) -> (p: TransferProducer)
        requires
            req_wf(req@),
        ensures
            p.messages() == self.messages().push(req@),
            p.address() == self.address(),
    {
        proof {
            use_type_invariant(&self);
        }
        let TransferProducer { addr, mut buffer, msgs } = self;
        push_frame(&mut buffer, req);
        let ghost new_msgs = msgs@.push(req@);
        proof {
            lemma_enc_stream_push(msgs@, req@);
            assert(buffer@ == enc_stream(new_msgs));
            assert(stream_wf(new_msgs)) by {
                assert(forall|i: int| 0 <= i < new_msgs.len() ==> req_wf(#[trigger] new_msgs[i]));
            }
        }
        TransferProducer { addr, buffer, msgs: Ghost(new_msgs) }
    }

    /// Close the channel: the producer is consumed and hands back the
    /// whole stream, exactly as the server will read it.  Closing is
    /// the sole end-of-stream signal the server gets.
    pub fn close(self) -> (bytes: Vec<u8>)
        ensures
            bytes@ == enc_stream(self.messages()),
            dec_stream(bytes@) == Some(self.messages()),
    {
        proof {
            use_type_invariant(&self);
            lemma_stream_round_trip(self.msgs@);
        }
        let TransferProducer { addr: _, buffer, msgs: _ } = self;
        buffer
    }
}

/// Appending a request to a stream appends its frame to the encoding.
pub proof fn lemma_enc_stream_push(rs: Seq<ReqModel>, r: ReqModel)
    ensures
        enc_stream(rs.push(r)) == enc_stream(rs) + frame(enc_req(r)),
    decreases rs.len(),
{
    let p = rs.push(r);
    if rs.len() == 0 {
        assert(p[0] == r);
        assert(p.skip(1) =~= Seq::<ReqModel>::empty());
        assert(enc_stream(p.skip(1)) =~= Seq::<u8>::empty());
        assert(enc_stream(p) =~= enc_stream(rs) + frame(enc_req(r)));
    } else {
        assert(p[0] == rs[0]);
        assert(p.skip(1) =~= rs.skip(1).push(r));
        lemma_enc_stream_push(rs.skip(1), r);
        assert(enc_stream(p) == frame(enc_req(rs[0])) + enc_stream(rs.skip(1).push(r)));
        assert(enc_stream(p) =~= enc_stream(rs) + frame(enc_req(r)));
    }
}

} // verus!
