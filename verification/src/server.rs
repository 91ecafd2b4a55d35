//! The writer server: the single process that owns all index-mutating
//! state, consumes requests in arrival order, and exposes shutdown.

use vstd::prelude::*;

use crate::codec::{dec_envelope, dec_stream, decode_stream_vec, deserialize_envelope, models_of};
use crate::index::{apply_request, apply_requests, lemma_apply_requests_push, Handler, StoreModel};
use crate::request::{ChannelAddr, EnvelopeModel, ReqModel, ServerRequest};

verus! {

/// A failure the server reports back to the caller of one request,
/// tagged by category.  A failure is attributed to the one request
/// that caused it; it never corrupts unrelated indexes' state.
#[derive(Clone, Debug, PartialEq, Eq)]
pub enum ServerError {
    /// The bytes received did not decode as a protocol message.
    Protocol,
    /// The engine rejected the request; carries the engine's text.
    Application(String),
}

/// The writer server.  It holds the one live [`Handler`] capability;
/// every mutation of any index's writer state goes through it, in the
/// order received.
pub struct Server<H: Handler> {
    pub handler: H,
    pub running: bool,
}

impl<H: Handler> Server<H> {
    pub open spec fn store_model(&self) -> StoreModel {
        self.handler.store_model()
    }

    pub fn new(handler: H) -> (s: Server<H>)
        ensures
            s.store_model() == handler.store_model(),
            s.running,
    {
        Server { handler, running: true }
    }

    /// Service one point message: decode the envelope and act on it.
    /// A `Request` is applied through the handler; `Transfer` changes
    /// nothing here and tells the surrounding loop to read the named
    /// channel to end-of-stream; `Shutdown` stops the server.  Bytes
    /// that do not decode are a protocol error and leave the store
    /// untouched.
    pub fn handle_message(&mut self, bytes: &Vec<u8>) -> (r: Result<
        Option<ChannelAddr>,
        ServerError,
    >)
        ensures
            ({
                let pre = old(self).store_model();
                let post = final(self).store_model();
                match dec_envelope(bytes@) {
                    Some(EnvelopeModel::Request(q)) => final(self).running == old(self).running
                        && match r {
                        Ok(a) => a is None && post == apply_request(pre, q),
                        Err(e) => post == pre,
                    },
                    Some(EnvelopeModel::Transfer(addr)) => post == pre && final(self).running
                        == old(self).running && r == Ok::<Option<ChannelAddr>, ServerError>(
                        Some(addr),
                    ),
                    Some(EnvelopeModel::Shutdown) => post == pre && !final(self).running && r
                        == Ok::<Option<ChannelAddr>, ServerError>(None),
                    None => post == pre && final(self).running == old(self).running && r
                        == Err::<Option<ChannelAddr>, ServerError>(ServerError::Protocol),
                }
            }),
    {
        match deserialize_envelope(bytes) {
            Some(env) => match env {
                ServerRequest::Request(req) => match self.handler.handle(req) {
                    Ok(()) => Ok(None),
                    Err(e) => Err(e),
                },
                ServerRequest::Transfer(addr) => Ok(Some(addr)),
                ServerRequest::Shutdown => {
                    self.running = false;
                    Ok(None)
                },
            },
            None => Err(ServerError::Protocol),
        }
    }

    /// Consume a whole transfer stream: decode its frames and apply
    /// them in order.  A malformed stream is rejected before anything
    /// is applied; if the engine fails on one request, the requests
    /// before it stay applied and the ones after it are not.
    #[verifier::rlimit(100)]
    pub fn consume_stream(&mut self, bytes: &Vec<u8>) -> (r: Result<(), ServerError>)
        ensures
            final(self).running == old(self).running,
            ({
                let pre = old(self).store_model();
                let post = final(self).store_model();
                match dec_stream(bytes@) {
                    Some(rs) => match r {
                        Ok(()) => post == apply_requests(pre, rs),
                        Err(e) => exists|k: int|
                            0 <= k <= rs.len() && post == apply_requests(
                                pre,
                                #[trigger] rs.take(k),
                            ),
                    },
                    None => r == Err::<(), ServerError>(ServerError::Protocol) && post == pre,
                }
            }),
    {
        let mut reqs = match decode_stream_vec(bytes) {
            Some(v) => v,
            None => {
                return Err(ServerError::Protocol);
            },
        };
        let ghost rs = dec_stream(bytes@)->Some_0;
        let ghost s0 = self.store_model();
        let ghost running0 = self.running;
        let ghost n = rs.len();
        let total: usize = reqs.len();
        let mut failed: Option<ServerError> = None;
        let mut k: usize = 0;
        proof {
            assert(rs.take(0) =~= Seq::<ReqModel>::empty());
            assert(rs.skip(0) =~= rs);
            assert(n == reqs@.len());
            assert(reqs@.len() == total as nat);
        }
        while reqs.len() > 0 && failed.is_none()
            invariant
                n == rs.len(),
                n <= usize::MAX,
                k as int <= n,
                failed is None ==> k as int + reqs@.len() == n && models_of(reqs@) == rs.skip(
                    k as int,
                ),
                self.running == running0,
                self.store_model() == apply_requests(s0, rs.take(k as int)),
            decreases reqs@.len(),
        {
            let ghost prefix = rs.take(k as int);
            let ghost remaining = reqs@;
            let req = reqs.remove(0);
            proof {
                assert(remaining.len() > 0);
                assert(k < n);
                assert(req == remaining[0]);
                assert(models_of(remaining)[0] == remaining[0]@);
                assert(rs.skip(k as int)[0] == rs[k as int + 0]);
                assert(req@ == rs[k as int]);
                assert(reqs@ =~= remaining.skip(1));
                assert(models_of(reqs@) =~= rs.skip(k as int + 1)) by {
                    assert forall|i: int| 0 <= i < reqs@.len() implies models_of(reqs@)[i]
                        == rs.skip(k as int + 1)[i] by {
                        assert(reqs@[i] == remaining[i + 1]);
                        assert(models_of(reqs@)[i] == remaining[i + 1]@);
                        assert(models_of(remaining)[i + 1] == remaining[i + 1]@);
                        assert(rs.skip(k as int)[i + 1] == rs[k as int + (i + 1)]);
                        assert(rs.skip(k as int + 1)[i] == rs[k as int + 1 + i]);
                    }
                }
            }
            let res = self.handler.handle(req);
            proof {
                assert(rs.take(k as int + 1) =~= prefix.push(rs[k as int]));
                lemma_apply_requests_push(s0, prefix, rs[k as int]);
            }
            match res {
                Ok(()) => {
                    k = k + 1;
                },
                Err(e) => {
                    failed = Some(e);
                },
            }
        }
        match failed {
            Some(e) => {
                proof {
                    assert(0 <= k as int <= rs.len() && self.store_model() == apply_requests(
                        s0,
                        rs.take(k as int),
                    ));
                }
                Err(e)
            },
            None => {
                proof {
                    assert(k as int == n);
                    assert(rs.take(n as int) =~= rs);
                }
                Ok(())
            },
        }
    }
}

/// Bulk transfer is observably equivalent to point requests: a
/// transfer channel carrying a sequence of requests, read to
/// end-of-stream, moves the store exactly as the same requests sent
/// as point requests in the same order would.
pub proof fn lemma_bulk_equals_point_requests(s0: StoreModel, rs: Seq<ReqModel>)
    requires
        crate::codec::stream_wf(rs),
    ensures
        dec_stream(crate::codec::enc_stream(rs)) == Some(rs),
        apply_requests(s0, dec_stream(crate::codec::enc_stream(rs))->Some_0) == apply_requests(
            s0,
            rs,
        ),
{
    crate::codec::lemma_stream_round_trip(rs);
}

} // verus!
