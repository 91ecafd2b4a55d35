//! Deterministic wire format for writer requests.
//!
//! Every request serializes to a unique byte string: fixed-width
//! little-endian integers, length-prefixed byte payloads, and a leading
//! tag byte per variant.  Bulk streams are a concatenation of
//! length-prefixed frames, one serialized request per frame.  The
//! encoders and decoders are proved inverse to each other, so nothing
//! survives a round trip changed and nothing decodes ambiguously.

use vstd::prelude::*;

use crate::directory::WriterDirectory;
use crate::request::{DocModel, EnvelopeModel, ReqModel, SearchDocument, ServerRequest,
    WriterRequest};
use crate::request::ChannelAddr;

verus! {

// ---------------------------------------------------------------------
// Encoding (specification)
// ---------------------------------------------------------------------

pub open spec fn enc_u32(n: u32) -> Seq<u8> {
    seq![n as u8, (n >> 8) as u8, (n >> 16) as u8, (n >> 24) as u8]
}

pub open spec fn enc_u64(n: u64) -> Seq<u8> {
    seq![
        n as u8,
        (n >> 8) as u8,
        (n >> 16) as u8,
        (n >> 24) as u8,
        (n >> 32) as u8,
        (n >> 40) as u8,
        (n >> 48) as u8,
        (n >> 56) as u8,
    ]
}

pub open spec fn enc_dir(d: WriterDirectory) -> Seq<u8> {
    enc_u32(d.database_oid) + enc_u32(d.index_oid) + enc_u32(d.relfilenode)
}

pub open spec fn enc_doc(d: DocModel) -> Seq<u8> {
    enc_u64(d.ctid) + enc_u64(d.content.len() as u64) + d.content
}

pub open spec fn enc_ctids(s: Seq<u64>) -> Seq<u8>
    decreases s.len(),
{
    if s.len() == 0 {
        Seq::empty()
    } else {
        enc_u64(s[0]) + enc_ctids(s.skip(1))
    }
}

pub const TAG_INSERT: u8 = 0;

pub const TAG_DELETE: u8 = 1;

pub const TAG_DROP_INDEX: u8 = 2;

pub const TAG_ABORT: u8 = 3;

pub const TAG_COMMIT: u8 = 4;

pub const TAG_VACUUM: u8 = 5;

pub const TAG_ENV_REQUEST: u8 = 0;

pub const TAG_ENV_TRANSFER: u8 = 1;

pub const TAG_ENV_SHUTDOWN: u8 = 2;

/// Sizes the encoding can express: a document payload or a ctid list
/// longer than this cannot be produced by the host database anyway.
pub open spec fn doc_wf(d: DocModel) -> bool {
    d.content.len() < 0x1_0000_0000
}

pub open spec fn req_wf(r: ReqModel) -> bool {
    match r {
        ReqModel::Insert { document, .. } => doc_wf(document),
        ReqModel::Delete { ctids, .. } => ctids.len() < 0x1_0000_0000,
        _ => true,
    }
}

pub open spec fn enc_req(r: ReqModel) -> Seq<u8> {
    match r {
        ReqModel::Insert { directory, document } => seq![TAG_INSERT] + enc_dir(directory)
            + enc_doc(document),
        ReqModel::Delete { directory, field, ctids } => seq![TAG_DELETE] + enc_dir(directory)
            + enc_u32(field) + enc_u64(ctids.len() as u64) + enc_ctids(ctids),
        ReqModel::DropIndex { directory } => seq![TAG_DROP_INDEX] + enc_dir(directory),
        ReqModel::Abort => seq![TAG_ABORT],
        ReqModel::Commit => seq![TAG_COMMIT],
        ReqModel::Vacuum { directory } => seq![TAG_VACUUM] + enc_dir(directory),
    }
}

pub open spec fn enc_envelope(e: EnvelopeModel) -> Seq<u8> {
    match e {
        EnvelopeModel::Request(r) => seq![TAG_ENV_REQUEST] + enc_req(r),
        EnvelopeModel::Transfer(a) => seq![TAG_ENV_TRANSFER] + enc_u64(a.process_id)
            + enc_u64(a.serial),
        EnvelopeModel::Shutdown => seq![TAG_ENV_SHUTDOWN],
    }
}

/// One frame of a bulk stream: the payload length, then the payload.
pub open spec fn frame(payload: Seq<u8>) -> Seq<u8> {
    enc_u64(payload.len() as u64) + payload
}

/// A bulk stream: the frames of the requests, in order.
pub open spec fn enc_stream(rs: Seq<ReqModel>) -> Seq<u8>
    decreases rs.len(),
{
    if rs.len() == 0 {
        Seq::empty()
    } else {
        frame(enc_req(rs[0])) + enc_stream(rs.skip(1))
    }
}

pub open spec fn stream_wf(rs: Seq<ReqModel>) -> bool {
    forall|i: int| 0 <= i < rs.len() ==> req_wf(#[trigger] rs[i])
}

// ---------------------------------------------------------------------
// Decoding (specification)
// ---------------------------------------------------------------------

pub open spec fn u32_from(b0: u8, b1: u8, b2: u8, b3: u8) -> u32 {
    (b0 as u32) | ((b1 as u32) << 8) | ((b2 as u32) << 16) | ((b3 as u32) << 24)
}

pub open spec fn u64_from(
    b0: u8,
    b1: u8,
    b2: u8,
    b3: u8,
    b4: u8,
    b5: u8,
    b6: u8,
    b7: u8,
) -> u64 {
    (b0 as u64) | ((b1 as u64) << 8) | ((b2 as u64) << 16) | ((b3 as u64) << 24) | (
    (b4 as u64) << 32) | ((b5 as u64) << 40) | ((b6 as u64) << 48) | ((b7 as u64) << 56)
}

pub open spec fn dec_u8(b: Seq<u8>) -> Option<(u8, Seq<u8>)> {
    if b.len() >= 1 {
        Some((b[0], b.skip(1)))
    } else {
        None
    }
}

pub open spec fn dec_u32(b: Seq<u8>) -> Option<(u32, Seq<u8>)> {
    if b.len() >= 4 {
        Some((u32_from(b[0], b[1], b[2], b[3]), b.skip(4)))
    } else {
        None
    }
}

pub open spec fn dec_u64(b: Seq<u8>) -> Option<(u64, Seq<u8>)> {
    if b.len() >= 8 {
        Some((u64_from(b[0], b[1], b[2], b[3], b[4], b[5], b[6], b[7]), b.skip(8)))
    } else {
        None
    }
}

pub open spec fn dec_bytes(b: Seq<u8>, n: nat) -> Option<(Seq<u8>, Seq<u8>)> {
    if b.len() >= n {
        Some((b.take(n as int), b.skip(n as int)))
    } else {
        None
    }
}

pub open spec fn dec_dir(b: Seq<u8>) -> Option<(WriterDirectory, Seq<u8>)> {
    match dec_u32(b) {
        None => None,
        Some((database_oid, b1)) => match dec_u32(b1) {
            None => None,
            Some((index_oid, b2)) => match dec_u32(b2) {
                None => None,
                Some((relfilenode, b3)) => Some(
                    (WriterDirectory { database_oid, index_oid, relfilenode }, b3),
                ),
            },
        },
    }
}

pub open spec fn dec_doc(b: Seq<u8>) -> Option<(DocModel, Seq<u8>)> {
    match dec_u64(b) {
        None => None,
        Some((ctid, b1)) => match dec_u64(b1) {
            None => None,
            Some((len, b2)) => match dec_bytes(b2, len as nat) {
                None => None,
                Some((content, b3)) => Some((DocModel { ctid, content }, b3)),
            },
        },
    }
}

pub open spec fn dec_ctids(b: Seq<u8>, n: nat) -> Option<(Seq<u64>, Seq<u8>)>
    decreases n,
{
    if n == 0 {
        Some((Seq::empty(), b))
    } else {
        match dec_u64(b) {
            None => None,
            Some((x, b1)) => match dec_ctids(b1, (n - 1) as nat) {
                None => None,
                Some((s, b2)) => Some((seq![x] + s, b2)),
            },
        }
    }
}

/// Decode one request from the front of `b`, returning what follows it.
pub open spec fn dec_req_prefix(b: Seq<u8>) -> Option<(ReqModel, Seq<u8>)> {
    match dec_u8(b) {
        None => None,
        Some((tag, b1)) => if tag == TAG_INSERT {
            match dec_dir(b1) {
                None => None,
                Some((directory, b2)) => match dec_doc(b2) {
                    None => None,
                    Some((document, b3)) => Some((ReqModel::Insert { directory, document }, b3)),
                },
            }
        } else if tag == TAG_DELETE {
            match dec_dir(b1) {
                None => None,
                Some((directory, b2)) => match dec_u32(b2) {
                    None => None,
                    Some((field, b3)) => match dec_u64(b3) {
                        None => None,
                        Some((n, b4)) => match dec_ctids(b4, n as nat) {
                            None => None,
                            Some((ctids, b5)) => Some(
                                (ReqModel::Delete { directory, field, ctids }, b5),
                            ),
                        },
                    },
                },
            }
        } else if tag == TAG_DROP_INDEX {
            match dec_dir(b1) {
                None => None,
                Some((directory, b2)) => Some((ReqModel::DropIndex { directory }, b2)),
            }
        } else if tag == TAG_ABORT {
            Some((ReqModel::Abort, b1))
        } else if tag == TAG_COMMIT {
            Some((ReqModel::Commit, b1))
        } else if tag == TAG_VACUUM {
            match dec_dir(b1) {
                None => None,
                Some((directory, b2)) => Some((ReqModel::Vacuum { directory }, b2)),
            }
        } else {
            None
        },
    }
}

/// Decode a request from a buffer that must hold exactly one request.
pub open spec fn dec_req(b: Seq<u8>) -> Option<ReqModel> {
    match dec_req_prefix(b) {
        None => None,
        Some((r, rest)) => if rest.len() == 0 {
            Some(r)
        } else {
            None
        },
    }
}

/// Decode a transport envelope from a buffer holding exactly one.
pub open spec fn dec_envelope(b: Seq<u8>) -> Option<EnvelopeModel> {
    match dec_u8(b) {
        None => None,
        Some((tag, b1)) => if tag == TAG_ENV_REQUEST {
            match dec_req(b1) {
                None => None,
                Some(r) => Some(EnvelopeModel::Request(r)),
            }
        } else if tag == TAG_ENV_TRANSFER {
            match dec_u64(b1) {
                None => None,
                Some((process_id, b2)) => match dec_u64(b2) {
                    None => None,
                    Some((serial, b3)) => if b3.len() == 0 {
                        Some(EnvelopeModel::Transfer(ChannelAddr { process_id, serial }))
                    } else {
                        None
                    },
                },
            }
        } else if tag == TAG_ENV_SHUTDOWN {
            if b1.len() == 0 {
                Some(EnvelopeModel::Shutdown)
            } else {
                None
            }
        } else {
            None
        },
    }
}

/// Decode a whole bulk stream, frame by frame, in order.
pub open spec fn dec_stream(b: Seq<u8>) -> Option<Seq<ReqModel>>
    decreases b.len(),
{
    if b.len() == 0 {
        Some(Seq::empty())
    } else {
        match dec_u64(b) {
            None => None,
            Some((len, b1)) => if b1.len() >= len {
                match dec_req(b1.take(len as int)) {
                    None => None,
                    Some(r) => match dec_stream(b1.skip(len as int)) {
                        None => None,
                        Some(rs) => Some(seq![r] + rs),
                    },
                }
            } else {
                None
            },
        }
    }
}

// ---------------------------------------------------------------------
// Round trip: decoding undoes encoding
// ---------------------------------------------------------------------

pub proof fn lemma_dec_u8(x: u8, rest: Seq<u8>)
    ensures
        dec_u8(seq![x] + rest) == Some((x, rest)),
{
    assert((seq![x] + rest).skip(1) =~= rest);
}

pub proof fn lemma_u32_round(n: u32)
    ensures
        u32_from(n as u8, (n >> 8) as u8, (n >> 16) as u8, (n >> 24) as u8) == n,
{
    assert(((n as u8) as u32) | ((((n >> 8) as u8) as u32) << 8) | ((((n >> 16) as u8) as u32)
        << 16) | ((((n >> 24) as u8) as u32) << 24) == n) by (bit_vector);
}

pub proof fn lemma_u64_round(n: u64)
    ensures
        u64_from(
            n as u8,
            (n >> 8) as u8,
            (n >> 16) as u8,
            (n >> 24) as u8,
            (n >> 32) as u8,
            (n >> 40) as u8,
            (n >> 48) as u8,
            (n >> 56) as u8,
        ) == n,
{
    assert(((n as u8) as u64) | ((((n >> 8) as u8) as u64) << 8) | ((((n >> 16) as u8) as u64)
        << 16) | ((((n >> 24) as u8) as u64) << 24) | ((((n >> 32) as u8) as u64) << 32) | ((((n
        >> 40) as u8) as u64) << 40) | ((((n >> 48) as u8) as u64) << 48) | ((((n >> 56) as u8)
        as u64) << 56) == n) by (bit_vector);
}

pub proof fn lemma_dec_u32(n: u32, rest: Seq<u8>)
    ensures
        dec_u32(enc_u32(n) + rest) == Some((n, rest)),
{
    let b = enc_u32(n) + rest;
    lemma_u32_round(n);
    assert(b.skip(4) =~= rest);
}

pub proof fn lemma_dec_u64(n: u64, rest: Seq<u8>)
    ensures
        dec_u64(enc_u64(n) + rest) == Some((n, rest)),
{
    let b = enc_u64(n) + rest;
    lemma_u64_round(n);
    assert(b.skip(8) =~= rest);
}

pub proof fn lemma_dec_bytes(p: Seq<u8>, rest: Seq<u8>)
    ensures
        dec_bytes(p + rest, p.len()) == Some((p, rest)),
{
    let b = p + rest;
    assert(b.take(p.len() as int) =~= p);
    assert(b.skip(p.len() as int) =~= rest);
}

pub proof fn lemma_dec_dir(d: WriterDirectory, rest: Seq<u8>)
    ensures
        dec_dir(enc_dir(d) + rest) == Some((d, rest)),
{
    let b = enc_dir(d) + rest;
    assert(b =~= enc_u32(d.database_oid) + (enc_u32(d.index_oid) + (enc_u32(d.relfilenode)
        + rest)));
    lemma_dec_u32(d.database_oid, enc_u32(d.index_oid) + (enc_u32(d.relfilenode) + rest));
    lemma_dec_u32(d.index_oid, enc_u32(d.relfilenode) + rest);
    lemma_dec_u32(d.relfilenode, rest);
}

pub proof fn lemma_dec_doc(d: DocModel, rest: Seq<u8>)
    requires
        doc_wf(d),
    ensures
        dec_doc(enc_doc(d) + rest) == Some((d, rest)),
{
    let b = enc_doc(d) + rest;
    let len = d.content.len() as u64;
    assert(b =~= enc_u64(d.ctid) + (enc_u64(len) + (d.content + rest)));
    lemma_dec_u64(d.ctid, enc_u64(len) + (d.content + rest));
    lemma_dec_u64(len, d.content + rest);
    lemma_dec_bytes(d.content, rest);
}

pub proof fn lemma_dec_ctids(s: Seq<u64>, rest: Seq<u8>)
    ensures
        dec_ctids(enc_ctids(s) + rest, s.len()) == Some((s, rest)),
    decreases s.len(),
{
    if s.len() == 0 {
        assert(enc_ctids(s) + rest =~= rest);
        assert(dec_ctids(rest, 0) == Some((Seq::<u64>::empty(), rest)));
        assert(s =~= Seq::<u64>::empty());
    } else {
        let tail = s.skip(1);
        let b = enc_ctids(s) + rest;
        assert(b =~= enc_u64(s[0]) + (enc_ctids(tail) + rest));
        lemma_dec_u64(s[0], enc_ctids(tail) + rest);
        lemma_dec_ctids(tail, rest);
        assert(seq![s[0]] + tail =~= s);
    }
}

#[verifier::spinoff_prover]
#[verifier::rlimit(50)]
pub proof fn lemma_dec_req_prefix(r: ReqModel, rest: Seq<u8>)
    requires
        req_wf(r),
    ensures
        dec_req_prefix(enc_req(r) + rest) == Some((r, rest)),
{
    let b = enc_req(r) + rest;
    match r {
        ReqModel::Insert { directory, document } => {
            assert(b =~= seq![TAG_INSERT] + (enc_dir(directory) + (enc_doc(document) + rest)));
            lemma_dec_u8(TAG_INSERT, enc_dir(directory) + (enc_doc(document) + rest));
            lemma_dec_dir(directory, enc_doc(document) + rest);
            lemma_dec_doc(document, rest);
        },
        ReqModel::Delete { directory, field, ctids } => {
            let n = ctids.len() as u64;
            assert(b =~= seq![TAG_DELETE] + (enc_dir(directory) + (enc_u32(field) + (enc_u64(n)
                + (enc_ctids(ctids) + rest)))));
            lemma_dec_u8(TAG_DELETE, enc_dir(directory) + (enc_u32(field) + (enc_u64(n)
                + (enc_ctids(ctids) + rest))));
            lemma_dec_dir(directory, enc_u32(field) + (enc_u64(n) + (enc_ctids(ctids) + rest)));
            lemma_dec_u32(field, enc_u64(n) + (enc_ctids(ctids) + rest));
            lemma_dec_u64(n, enc_ctids(ctids) + rest);
            lemma_dec_ctids(ctids, rest);
        },
        ReqModel::DropIndex { directory } => {
            assert(b =~= seq![TAG_DROP_INDEX] + (enc_dir(directory) + rest));
            lemma_dec_u8(TAG_DROP_INDEX, enc_dir(directory) + rest);
            lemma_dec_dir(directory, rest);
        },
        ReqModel::Abort => {
            assert(b =~= seq![TAG_ABORT] + rest);
            lemma_dec_u8(TAG_ABORT, rest);
        },
        ReqModel::Commit => {
            assert(b =~= seq![TAG_COMMIT] + rest);
            lemma_dec_u8(TAG_COMMIT, rest);
        },
        ReqModel::Vacuum { directory } => {
            assert(b =~= seq![TAG_VACUUM] + (enc_dir(directory) + rest));
            lemma_dec_u8(TAG_VACUUM, enc_dir(directory) + rest);
            lemma_dec_dir(directory, rest);
        },
    }
}

/// Round-trip fidelity for one request: decoding an encoded request
/// gives the request back, for every variant.
pub proof fn lemma_req_round_trip(r: ReqModel)
    requires
        req_wf(r),
    ensures
        dec_req(enc_req(r)) == Some(r),
{
    assert(enc_req(r) =~= enc_req(r) + Seq::<u8>::empty());
    lemma_dec_req_prefix(r, Seq::empty());
}

/// Round-trip fidelity for the transport envelope.
pub proof fn lemma_envelope_round_trip(e: EnvelopeModel)
    requires
        match e {
            EnvelopeModel::Request(r) => req_wf(r),
            _ => true,
        },
    ensures
        dec_envelope(enc_envelope(e)) == Some(e),
{
    let b = enc_envelope(e);
    match e {
        EnvelopeModel::Request(r) => {
            assert(b =~= seq![TAG_ENV_REQUEST] + enc_req(r));
            lemma_dec_u8(TAG_ENV_REQUEST, enc_req(r));
            lemma_req_round_trip(r);
        },
        EnvelopeModel::Transfer(a) => {
            assert(b =~= seq![TAG_ENV_TRANSFER] + (enc_u64(a.process_id) + (enc_u64(a.serial)
                + Seq::<u8>::empty())));
            lemma_dec_u8(TAG_ENV_TRANSFER, enc_u64(a.process_id) + (enc_u64(a.serial)
                + Seq::<u8>::empty()));
            lemma_dec_u64(a.process_id, enc_u64(a.serial) + Seq::<u8>::empty());
            lemma_dec_u64(a.serial, Seq::empty());
        },
        EnvelopeModel::Shutdown => {
            assert(b =~= seq![TAG_ENV_SHUTDOWN] + Seq::<u8>::empty());
            lemma_dec_u8(TAG_ENV_SHUTDOWN, Seq::empty());
        },
    }
}

// ---------------------------------------------------------------------
// Canonicity: encoding undoes decoding
// ---------------------------------------------------------------------

pub proof fn lemma_dec_u8_inv(b: Seq<u8>, x: u8, rest: Seq<u8>)
    requires
        dec_u8(b) == Some((x, rest)),
    ensures
        b == seq![x] + rest,
{
    assert(b =~= seq![b[0]] + b.skip(1));
}

pub proof fn lemma_u32_bytes(b0: u8, b1: u8, b2: u8, b3: u8)
    ensures
        enc_u32(u32_from(b0, b1, b2, b3)) == seq![b0, b1, b2, b3],
{
    let n = u32_from(b0, b1, b2, b3);
    assert({
        let m = (b0 as u32) | ((b1 as u32) << 8) | ((b2 as u32) << 16) | ((b3 as u32) << 24);
        m as u8 == b0 && (m >> 8) as u8 == b1 && (m >> 16) as u8 == b2 && (m >> 24) as u8 == b3
    }) by (bit_vector);
    assert(enc_u32(n) =~= seq![b0, b1, b2, b3]);
}

pub proof fn lemma_u64_bytes(b0: u8, b1: u8, b2: u8, b3: u8, b4: u8, b5: u8, b6: u8, b7: u8)
    ensures
        enc_u64(u64_from(b0, b1, b2, b3, b4, b5, b6, b7)) == seq![b0, b1, b2, b3, b4, b5, b6, b7],
{
    let n = u64_from(b0, b1, b2, b3, b4, b5, b6, b7);
    assert({
        let m = (b0 as u64) | ((b1 as u64) << 8) | ((b2 as u64) << 16) | ((b3 as u64) << 24) | (
        (b4 as u64) << 32) | ((b5 as u64) << 40) | ((b6 as u64) << 48) | ((b7 as u64) << 56);
        m as u8 == b0 && (m >> 8) as u8 == b1 && (m >> 16) as u8 == b2 && (m >> 24) as u8 == b3
            && (m >> 32) as u8 == b4 && (m >> 40) as u8 == b5 && (m >> 48) as u8 == b6 && (m
            >> 56) as u8 == b7
    }) by (bit_vector);
    assert(enc_u64(n) =~= seq![b0, b1, b2, b3, b4, b5, b6, b7]);
}

pub proof fn lemma_dec_u32_inv(b: Seq<u8>, x: u32, rest: Seq<u8>)
    requires
        dec_u32(b) == Some((x, rest)),
    ensures
        b == enc_u32(x) + rest,
{
    lemma_u32_bytes(b[0], b[1], b[2], b[3]);
    assert(b =~= seq![b[0], b[1], b[2], b[3]] + b.skip(4));
}

pub proof fn lemma_dec_u64_inv(b: Seq<u8>, x: u64, rest: Seq<u8>)
    requires
        dec_u64(b) == Some((x, rest)),
    ensures
        b == enc_u64(x) + rest,
{
    lemma_u64_bytes(b[0], b[1], b[2], b[3], b[4], b[5], b[6], b[7]);
    assert(b =~= seq![b[0], b[1], b[2], b[3], b[4], b[5], b[6], b[7]] + b.skip(8));
}

pub proof fn lemma_dec_bytes_inv(b: Seq<u8>, n: nat, p: Seq<u8>, rest: Seq<u8>)
    requires
        dec_bytes(b, n) == Some((p, rest)),
    ensures
        b == p + rest,
        p.len() == n,
{
    assert(b =~= b.take(n as int) + b.skip(n as int));
}

pub proof fn lemma_dec_dir_inv(b: Seq<u8>, d: WriterDirectory, rest: Seq<u8>)
    requires
        dec_dir(b) == Some((d, rest)),
    ensures
        b == enc_dir(d) + rest,
{
    let (a, b1) = dec_u32(b)->Some_0;
    let (i, b2) = dec_u32(b1)->Some_0;
    let (f, b3) = dec_u32(b2)->Some_0;
    lemma_dec_u32_inv(b, a, b1);
    lemma_dec_u32_inv(b1, i, b2);
    lemma_dec_u32_inv(b2, f, b3);
    assert(b =~= (enc_u32(a) + enc_u32(i) + enc_u32(f)) + rest);
}

pub proof fn lemma_dec_doc_inv(b: Seq<u8>, d: DocModel, rest: Seq<u8>)
    requires
        dec_doc(b) == Some((d, rest)),
    ensures
        b == enc_doc(d) + rest,
{
    let (ctid, b1) = dec_u64(b)->Some_0;
    let (len, b2) = dec_u64(b1)->Some_0;
    let (content, b3) = dec_bytes(b2, len as nat)->Some_0;
    lemma_dec_u64_inv(b, ctid, b1);
    lemma_dec_u64_inv(b1, len, b2);
    lemma_dec_bytes_inv(b2, len as nat, content, b3);
    assert(d.content.len() as u64 == len);
    assert(b =~= (enc_u64(ctid) + enc_u64(len) + content) + rest);
}

pub proof fn lemma_dec_ctids_inv(b: Seq<u8>, n: nat, s: Seq<u64>, rest: Seq<u8>)
    requires
        dec_ctids(b, n) == Some((s, rest)),
    ensures
        b == enc_ctids(s) + rest,
        s.len() == n,
    decreases n,
{
    if n == 0 {
        assert(s =~= Seq::<u64>::empty());
        assert(b =~= enc_ctids(s) + rest);
    } else {
        let (x, b1) = dec_u64(b)->Some_0;
        let (tail, b2) = dec_ctids(b1, (n - 1) as nat)->Some_0;
        lemma_dec_u64_inv(b, x, b1);
        lemma_dec_ctids_inv(b1, (n - 1) as nat, tail, b2);
        assert(s == seq![x] + tail);
        assert(s[0] == x);
        assert(s.skip(1) =~= tail);
        assert(b =~= (enc_u64(x) + enc_ctids(tail)) + rest);
    }
}

#[verifier::spinoff_prover]
#[verifier::rlimit(100)]
pub proof fn lemma_dec_req_prefix_inv(b: Seq<u8>, r: ReqModel, rest: Seq<u8>)
    requires
        dec_req_prefix(b) == Some((r, rest)),
    ensures
        b == enc_req(r) + rest,
{
    let (tag, b1) = dec_u8(b)->Some_0;
    lemma_dec_u8_inv(b, tag, b1);
    match r {
        ReqModel::Insert { directory, document } => {
            let (dir, b2) = dec_dir(b1)->Some_0;
            let (doc, b3) = dec_doc(b2)->Some_0;
            lemma_dec_dir_inv(b1, dir, b2);
            lemma_dec_doc_inv(b2, doc, b3);
            assert(b =~= (seq![TAG_INSERT] + enc_dir(directory) + enc_doc(document)) + rest);
        },
        ReqModel::Delete { directory, field, ctids } => {
            let (dir, b2) = dec_dir(b1)->Some_0;
            let (fld, b3) = dec_u32(b2)->Some_0;
            let (n, b4) = dec_u64(b3)->Some_0;
            let (ids, b5) = dec_ctids(b4, n as nat)->Some_0;
            lemma_dec_dir_inv(b1, dir, b2);
            lemma_dec_u32_inv(b2, fld, b3);
            lemma_dec_u64_inv(b3, n, b4);
            lemma_dec_ctids_inv(b4, n as nat, ids, b5);
            assert(ctids.len() as u64 == n);
            assert(b =~= (seq![TAG_DELETE] + enc_dir(directory) + enc_u32(field) + enc_u64(n)
                + enc_ctids(ctids)) + rest);
        },
        ReqModel::DropIndex { directory } => {
            let (dir, b2) = dec_dir(b1)->Some_0;
            lemma_dec_dir_inv(b1, dir, b2);
            assert(b =~= (seq![TAG_DROP_INDEX] + enc_dir(directory)) + rest);
        },
        ReqModel::Abort => {
            assert(b =~= seq![TAG_ABORT] + rest);
        },
        ReqModel::Commit => {
            assert(b =~= seq![TAG_COMMIT] + rest);
        },
        ReqModel::Vacuum { directory } => {
            let (dir, b2) = dec_dir(b1)->Some_0;
            lemma_dec_dir_inv(b1, dir, b2);
            assert(b =~= (seq![TAG_VACUUM] + enc_dir(directory)) + rest);
        },
    }
}

/// Canonicity: a byte string that decodes as a request is exactly the
/// encoding of that request, so re-encoding a decoded request gives
/// the same bytes back.
pub proof fn lemma_req_canonical(b: Seq<u8>, r: ReqModel)
    requires
        dec_req(b) == Some(r),
    ensures
        enc_req(r) == b,
{
    let (r0, rest) = dec_req_prefix(b)->Some_0;
    lemma_dec_req_prefix_inv(b, r0, rest);
    assert(b =~= enc_req(r) + Seq::<u8>::empty());
    assert(enc_req(r) =~= enc_req(r) + Seq::<u8>::empty());
}

/// The length of an encoded request fits in the frame's length field.
pub proof fn lemma_enc_req_len(r: ReqModel)
    requires
        req_wf(r),
    ensures
        enc_req(r).len() < 0x1_0000_0000_0000,
    decreases r,
{
    match r {
        ReqModel::Delete { ctids, .. } => {
            lemma_enc_ctids_len(ctids);
        },
        _ => {},
    }
}

pub proof fn lemma_enc_ctids_len(s: Seq<u64>)
    ensures
        enc_ctids(s).len() == 8 * s.len(),
    decreases s.len(),
{
    if s.len() > 0 {
        lemma_enc_ctids_len(s.skip(1));
    }
}

/// Round-trip fidelity for a whole bulk stream: decoding a stream of
/// encoded frames gives back the framed requests, in order.
#[verifier::spinoff_prover]
#[verifier::rlimit(50)]
pub proof fn lemma_stream_round_trip(rs: Seq<ReqModel>)
    requires
        stream_wf(rs),
    ensures
        dec_stream(enc_stream(rs)) == Some(rs),
    decreases rs.len(),
{
    if rs.len() == 0 {
        assert(rs =~= Seq::<ReqModel>::empty());
    } else {
        let r = rs[0];
        let tail = rs.skip(1);
        let payload = enc_req(r);
        lemma_enc_req_len(r);
        let n64 = payload.len() as u64;
        let b = enc_stream(rs);
        let b1 = payload + enc_stream(tail);
        assert(b =~= enc_u64(n64) + b1);
        lemma_dec_u64(n64, b1);
        assert(dec_u64(b) == Some((n64, b1)));
        assert(b.len() > 0) by {
            assert(b.len() >= 8);
        }
        assert(b1.len() >= n64);
        assert(b1.take(n64 as int) =~= payload);
        assert(b1.skip(n64 as int) =~= enc_stream(tail));
        lemma_req_round_trip(r);
        assert(dec_req(b1.take(n64 as int)) == Some(r));
        assert(forall|i: int| 0 <= i < tail.len() ==> req_wf(#[trigger] tail[i]));
        lemma_stream_round_trip(tail);
        assert(dec_stream(b1.skip(n64 as int)) == Some(tail));
        assert(dec_stream(b) == Some(seq![r] + tail));
        assert(seq![r] + tail =~= rs);
    }
}

// ---------------------------------------------------------------------
// Executable encoders
// ---------------------------------------------------------------------

fn push_u32(out: &mut Vec<u8>, n: u32)
    ensures
        final(out)@ == old(out)@ + enc_u32(n),
{
    out.push(#[verifier::truncate] (n as u8));
    out.push(#[verifier::truncate] ((n >> 8) as u8));
    out.push(#[verifier::truncate] ((n >> 16) as u8));
    out.push(#[verifier::truncate] ((n >> 24) as u8));
    assert(out@ =~= old(out)@ + enc_u32(n));
}

fn push_u64(out: &mut Vec<u8>, n: u64)
    ensures
        final(out)@ == old(out)@ + enc_u64(n),
{
    out.push(#[verifier::truncate] (n as u8));
    out.push(#[verifier::truncate] ((n >> 8) as u8));
    out.push(#[verifier::truncate] ((n >> 16) as u8));
    out.push(#[verifier::truncate] ((n >> 24) as u8));
    out.push(#[verifier::truncate] ((n >> 32) as u8));
    out.push(#[verifier::truncate] ((n >> 40) as u8));
    out.push(#[verifier::truncate] ((n >> 48) as u8));
    out.push(#[verifier::truncate] ((n >> 56) as u8));
    assert(out@ =~= old(out)@ + enc_u64(n));
}

fn push_dir(out: &mut Vec<u8>, d: &WriterDirectory)
    ensures
        final(out)@ == old(out)@ + enc_dir(*d),
{
    push_u32(out, d.database_oid);
    push_u32(out, d.index_oid);
    push_u32(out, d.relfilenode);
    assert(out@ =~= old(out)@ + enc_dir(*d));
}

fn push_doc(out: &mut Vec<u8>, doc: &SearchDocument)
    ensures
        final(out)@ == old(out)@ + enc_doc(doc@),
{
    push_u64(out, doc.ctid);
    push_u64(out, doc.content.len() as u64);
    let ghost mid = out@;
    let mut k: usize = 0;
    while k < doc.content.len()
        invariant
            k <= doc.content.len(),
            out@ == mid + doc.content@.take(k as int),
        decreases doc.content.len() - k,
    {
        out.push(doc.content[k]);
        assert(out@ =~= mid + doc.content@.take(k as int + 1));
        k = k + 1;
    }
    assert(doc.content@.take(doc.content.len() as int) =~= doc.content@);
    assert(out@ =~= old(out)@ + enc_doc(doc@));
}

/// Serialize one writer request to its canonical byte string.
pub fn serialize_request(req: &WriterRequest) -> (out: Vec<u8>)
    ensures
        out@ == enc_req(req@),
{
    let mut out: Vec<u8> = Vec::new();
    match req {
        WriterRequest::Insert { directory, document } => {
            out.push(TAG_INSERT);
            assert(out@ =~= seq![TAG_INSERT]);
            push_dir(&mut out, directory);
            push_doc(&mut out, document);
        },
        WriterRequest::Delete { directory, field, ctids } => {
            out.push(TAG_DELETE);
            assert(out@ =~= seq![TAG_DELETE]);
            push_dir(&mut out, directory);
            push_u32(&mut out, *field);
            push_u64(&mut out, ctids.len() as u64);
            let ghost mid = out@;
            proof {
                assert(ctids@.skip(0) =~= ctids@);
            }
            let mut k: usize = 0;
            while k < ctids.len()
                invariant
                    k <= ctids.len(),
                    out@ + enc_ctids(ctids@.skip(k as int)) == mid + enc_ctids(ctids@),
                decreases ctids.len() - k,
            {
                let ghost pre = out@;
                let ghost remaining = ctids@.skip(k as int);
                proof {
                    assert(remaining[0] == ctids@[k as int]);
                    assert(remaining.skip(1) =~= ctids@.skip(k as int + 1));
                    assert(enc_ctids(remaining) == enc_u64(ctids@[k as int]) + enc_ctids(
                        ctids@.skip(k as int + 1)));
                }
                push_u64(&mut out, ctids[k]);
                proof {
                    assert(out@ + enc_ctids(ctids@.skip(k as int + 1)) =~= pre + enc_ctids(
                        remaining));
                }
                k = k + 1;
            }
            proof {
                assert(ctids@.skip(ctids.len() as int) =~= Seq::<u64>::empty());
                assert(out@ + enc_ctids(ctids@.skip(ctids.len() as int)) =~= out@);
            }
        },
        WriterRequest::DropIndex { directory } => {
            out.push(TAG_DROP_INDEX);
            assert(out@ =~= seq![TAG_DROP_INDEX]);
            push_dir(&mut out, directory);
        },
        WriterRequest::Abort => {
            out.push(TAG_ABORT);
            assert(out@ =~= seq![TAG_ABORT]);
        },
        WriterRequest::Commit => {
            out.push(TAG_COMMIT);
            assert(out@ =~= seq![TAG_COMMIT]);
        },
        WriterRequest::Vacuum { directory } => {
            out.push(TAG_VACUUM);
            assert(out@ =~= seq![TAG_VACUUM]);
            push_dir(&mut out, directory);
        },
    }
    assert(out@ =~= enc_req(req@));
    out
}

/// Serialize one transport envelope to its canonical byte string.
pub fn serialize_envelope(env: &ServerRequest) -> (out: Vec<u8>)
    ensures
        out@ == enc_envelope(env@),
{
    match env {
        ServerRequest::Request(req) => {
            let mut out: Vec<u8> = Vec::new();
            out.push(TAG_ENV_REQUEST);
            assert(out@ =~= seq![TAG_ENV_REQUEST]);
            let payload = serialize_request(req);
            let ghost mid = out@;
            let mut k: usize = 0;
            while k < payload.len()
                invariant
                    k <= payload.len(),
                    out@ == mid + payload@.take(k as int),
                decreases payload.len() - k,
            {
                out.push(payload[k]);
                assert(out@ =~= mid + payload@.take(k as int + 1));
                k = k + 1;
            }
            assert(payload@.take(payload.len() as int) =~= payload@);
            assert(out@ =~= enc_envelope(env@));
            out
        },
        ServerRequest::Transfer(addr) => {
            let mut out: Vec<u8> = Vec::new();
            out.push(TAG_ENV_TRANSFER);
            assert(out@ =~= seq![TAG_ENV_TRANSFER]);
            push_u64(&mut out, addr.process_id);
            push_u64(&mut out, addr.serial);
            assert(out@ =~= enc_envelope(env@));
            out
        },
        ServerRequest::Shutdown => {
            let mut out: Vec<u8> = Vec::new();
            out.push(TAG_ENV_SHUTDOWN);
            assert(out@ =~= enc_envelope(env@));
            out
        },
    }
}

/// Append one length-prefixed frame carrying `req` to a bulk stream.
pub fn push_frame(out: &mut Vec<u8>, req: &WriterRequest)
    ensures
        final(out)@ == old(out)@ + frame(enc_req(req@)),
{
    let payload = serialize_request(req);
    push_u64(out, payload.len() as u64);
    let ghost mid = out@;
    let mut k: usize = 0;
    while k < payload.len()
        invariant
            k <= payload.len(),
            out@ == mid + payload@.take(k as int),
        decreases payload.len() - k,
    {
        out.push(payload[k]);
        assert(out@ =~= mid + payload@.take(k as int + 1));
        k = k + 1;
    }
    assert(payload@.take(payload.len() as int) =~= payload@);
    assert(out@ =~= old(out)@ + frame(enc_req(req@)));
}

// ---------------------------------------------------------------------
// Executable decoders
// ---------------------------------------------------------------------

fn parse_u8(b: &Vec<u8>, i: usize) -> (r: Option<(u8, usize)>)
    requires
        i <= b@.len(),
    ensures
        match r {
            Some(p) => i <= p.1 <= b@.len() && dec_u8(b@.skip(i as int)) == Some(
                (p.0, b@.skip(p.1 as int)),
            ),
            None => dec_u8(b@.skip(i as int)) is None,
        },
{
    if i < b.len() {
        proof {
            assert(b@.skip(i as int)[0] == b@[i as int]);
            assert(b@.skip(i as int).skip(1) =~= b@.skip(i as int + 1));
        }
        Some((b[i], i + 1))
    } else {
        None
    }
}

fn parse_u32(b: &Vec<u8>, i: usize) -> (r: Option<(u32, usize)>)
    requires
        i <= b@.len(),
    ensures
        match r {
            Some(p) => i <= p.1 <= b@.len() && dec_u32(b@.skip(i as int)) == Some(
                (p.0, b@.skip(p.1 as int)),
            ),
            None => dec_u32(b@.skip(i as int)) is None,
        },
{
    if b.len() - i >= 4 {
        let v = (b[i] as u32) | ((b[i + 1] as u32) << 8) | ((b[i + 2] as u32) << 16) | ((b[i + 3]
            as u32) << 24);
        proof {
            let s = b@.skip(i as int);
            assert(s[0] == b@[i as int] && s[1] == b@[i as int + 1] && s[2] == b@[i as int + 2]
                && s[3] == b@[i as int + 3]);
            assert(s.skip(4) =~= b@.skip(i as int + 4));
        }
        Some((v, i + 4))
    } else {
        None
    }
}

fn parse_u64(b: &Vec<u8>, i: usize) -> (r: Option<(u64, usize)>)
    requires
        i <= b@.len(),
    ensures
        match r {
            Some(p) => i <= p.1 <= b@.len() && dec_u64(b@.skip(i as int)) == Some(
                (p.0, b@.skip(p.1 as int)),
            ),
            None => dec_u64(b@.skip(i as int)) is None,
        },
{
    if b.len() - i >= 8 {
        let v = (b[i] as u64) | ((b[i + 1] as u64) << 8) | ((b[i + 2] as u64) << 16) | ((b[i + 3]
            as u64) << 24) | ((b[i + 4] as u64) << 32) | ((b[i + 5] as u64) << 40) | ((b[i + 6]
            as u64) << 48) | ((b[i + 7] as u64) << 56);
        proof {
            let s = b@.skip(i as int);
            assert(s[0] == b@[i as int] && s[1] == b@[i as int + 1] && s[2] == b@[i as int + 2]
                && s[3] == b@[i as int + 3] && s[4] == b@[i as int + 4] && s[5] == b@[i as int + 5]
                && s[6] == b@[i as int + 6] && s[7] == b@[i as int + 7]);
            assert(s.skip(8) =~= b@.skip(i as int + 8));
        }
        Some((v, i + 8))
    } else {
        None
    }
}

fn parse_dir(b: &Vec<u8>, i: usize) -> (r: Option<(WriterDirectory, usize)>)
    requires
        i <= b@.len(),
    ensures
        match r {
            Some(p) => i <= p.1 <= b@.len() && dec_dir(b@.skip(i as int)) == Some(
                (p.0, b@.skip(p.1 as int)),
            ),
            None => dec_dir(b@.skip(i as int)) is None,
        },
{
    let (database_oid, i1) = match parse_u32(b, i) {
        Some(p) => p,
        None => {
            return None;
        },
    };
    let (index_oid, i2) = match parse_u32(b, i1) {
        Some(p) => p,
        None => {
            return None;
        },
    };
    let (relfilenode, i3) = match parse_u32(b, i2) {
        Some(p) => p,
        None => {
            return None;
        },
    };
    Some((WriterDirectory { database_oid, index_oid, relfilenode }, i3))
}

/// Copy `n` bytes of `b` starting at `start` into a fresh vector.
fn subvec(b: &Vec<u8>, start: usize, n: usize) -> (v: Vec<u8>)
    requires
        start + n <= b@.len(),
    ensures
        v@ == b@.subrange(start as int, start as int + n as int),
{
    let mut v: Vec<u8> = Vec::new();
    let total: usize = b.len();
    let mut k: usize = 0;
    while k < n
        invariant
            k <= n,
            start + n <= b@.len(),
            b@.len() == total,
            v@ == b@.subrange(start as int, start as int + k as int),
        decreases n - k,
    {
        v.push(b[start + k]);
        assert(v@ =~= b@.subrange(start as int, start as int + k as int + 1));
        k = k + 1;
    }
    v
}

fn parse_doc(b: &Vec<u8>, i: usize) -> (r: Option<(SearchDocument, usize)>)
    requires
        i <= b@.len(),
    ensures
        match r {
            Some(p) => i <= p.1 <= b@.len() && dec_doc(b@.skip(i as int)) == Some(
                (p.0@, b@.skip(p.1 as int)),
            ),
            None => dec_doc(b@.skip(i as int)) is None,
        },
{
    let (ctid, i1) = match parse_u64(b, i) {
        Some(p) => p,
        None => {
            return None;
        },
    };
    let (len, i2) = match parse_u64(b, i1) {
        Some(p) => p,
        None => {
            return None;
        },
    };
    let remaining = b.len() - i2;
    if len > remaining as u64 {
        proof {
            assert(b@.skip(i2 as int).len() < len as nat);
        }
        return None;
    }
    let n = len as usize;
    let content = subvec(b, i2, n);
    proof {
        let s = b@.skip(i2 as int);
        assert(s.take(len as int) =~= b@.subrange(i2 as int, i2 as int + n as int));
        assert(s.skip(len as int) =~= b@.skip(i2 as int + n as int));
    }
    Some((SearchDocument { ctid, content }, i2 + n))
}

fn parse_ctids(b: &Vec<u8>, i: usize, n: u64) -> (r: Option<(Vec<u64>, usize)>)
    requires
        i <= b@.len(),
    ensures
        match r {
            Some(p) => i <= p.1 <= b@.len() && dec_ctids(b@.skip(i as int), n as nat) == Some(
                (p.0@, b@.skip(p.1 as int)),
            ),
            None => dec_ctids(b@.skip(i as int), n as nat) is None,
        },
{
    let mut acc: Vec<u64> = Vec::new();
    let mut cur: usize = i;
    let mut k: u64 = 0;
    while k < n
        invariant
            k <= n,
            i <= cur <= b@.len(),
            match dec_ctids(b@.skip(cur as int), (n - k) as nat) {
                Some(p) => dec_ctids(b@.skip(i as int), n as nat) == Some((acc@ + p.0, p.1)),
                None => dec_ctids(b@.skip(i as int), n as nat) is None,
            },
        decreases n - k,
    {
        let ghost prev_acc = acc@;
        let ghost prev_cur = cur as int;
        let ghost m = (n - k) as nat;
        let (x, j) = match parse_u64(b, cur) {
            Some(p) => p,
            None => {
                proof {
                    assert(dec_ctids(b@.skip(cur as int), m) is None);
                }
                return None;
            },
        };
        acc.push(x);
        cur = j;
        k = k + 1;
        proof {
            assert(dec_u64(b@.skip(prev_cur)) == Some((x, b@.skip(cur as int))));
            match dec_ctids(b@.skip(cur as int), (n - k) as nat) {
                Some(p) => {
                    assert(dec_ctids(b@.skip(prev_cur), m) == Some((seq![x] + p.0, p.1)));
                    assert(prev_acc + (seq![x] + p.0) =~= acc@ + p.0);
                },
                None => {
                    assert(dec_ctids(b@.skip(prev_cur), m) is None);
                },
            }
        }
    }
    proof {
        assert(dec_ctids(b@.skip(cur as int), 0) == Some(
            (Seq::<u64>::empty(), b@.skip(cur as int)),
        ));
        assert(acc@ + Seq::<u64>::empty() =~= acc@);
    }
    Some((acc, cur))
}

fn parse_req(b: &Vec<u8>, i: usize) -> (r: Option<(WriterRequest, usize)>)
    requires
        i <= b@.len(),
    ensures
        match r {
            Some(p) => i <= p.1 <= b@.len() && dec_req_prefix(b@.skip(i as int)) == Some(
                (p.0@, b@.skip(p.1 as int)),
            ),
            None => dec_req_prefix(b@.skip(i as int)) is None,
        },
{
    let (tag, i1) = match parse_u8(b, i) {
        Some(p) => p,
        None => {
            return None;
        },
    };
    if tag == TAG_INSERT {
        let (directory, i2) = match parse_dir(b, i1) {
            Some(p) => p,
            None => {
                return None;
            },
        };
        let (document, i3) = match parse_doc(b, i2) {
            Some(p) => p,
            None => {
                return None;
            },
        };
        Some((WriterRequest::Insert { directory, document }, i3))
    } else if tag == TAG_DELETE {
        let (directory, i2) = match parse_dir(b, i1) {
            Some(p) => p,
            None => {
                return None;
            },
        };
        let (field, i3) = match parse_u32(b, i2) {
            Some(p) => p,
            None => {
                return None;
            },
        };
        let (n, i4) = match parse_u64(b, i3) {
            Some(p) => p,
            None => {
                return None;
            },
        };
        let (ctids, i5) = match parse_ctids(b, i4, n) {
            Some(p) => p,
            None => {
                return None;
            },
        };
        Some((WriterRequest::Delete { directory, field, ctids }, i5))
    } else if tag == TAG_DROP_INDEX {
        let (directory, i2) = match parse_dir(b, i1) {
            Some(p) => p,
            None => {
                return None;
            },
        };
        Some((WriterRequest::DropIndex { directory }, i2))
    } else if tag == TAG_ABORT {
        Some((WriterRequest::Abort, i1))
    } else if tag == TAG_COMMIT {
        Some((WriterRequest::Commit, i1))
    } else if tag == TAG_VACUUM {
        let (directory, i2) = match parse_dir(b, i1) {
            Some(p) => p,
            None => {
                return None;
            },
        };
        Some((WriterRequest::Vacuum { directory }, i2))
    } else {
        None
    }
}

/// Decode a buffer holding exactly one serialized writer request.
pub fn deserialize_request(b: &Vec<u8>) -> (r: Option<WriterRequest>)
    ensures
        match r {
            Some(req) => dec_req(b@) == Some(req@),
            None => dec_req(b@) is None,
        },
{
    proof {
        assert(b@.skip(0) =~= b@);
    }
    match parse_req(b, 0) {
        Some((req, j)) => {
            if j == b.len() {
                proof {
                    assert(b@.skip(j as int).len() == 0);
                }
                Some(req)
            } else {
                proof {
                    assert(b@.skip(j as int).len() > 0);
                }
                None
            }
        },
        None => None,
    }
}

/// Decode a buffer holding exactly one serialized transport envelope.
pub fn deserialize_envelope(b: &Vec<u8>) -> (r: Option<ServerRequest>)
    ensures
        match r {
            Some(env) => dec_envelope(b@) == Some(env@),
            None => dec_envelope(b@) is None,
        },
{
    proof {
        assert(b@.skip(0) =~= b@);
    }
    let (tag, i1) = match parse_u8(b, 0) {
        Some(p) => p,
        None => {
            return None;
        },
    };
    if tag == TAG_ENV_REQUEST {
        match parse_req(b, i1) {
            Some((req, j)) => {
                if j == b.len() {
                    proof {
                        assert(b@.skip(j as int).len() == 0);
                    }
                    Some(ServerRequest::Request(req))
                } else {
                    proof {
                        assert(b@.skip(j as int).len() > 0);
                    }
                    None
                }
            },
            None => None,
        }
    } else if tag == TAG_ENV_TRANSFER {
        let (process_id, i2) = match parse_u64(b, i1) {
            Some(p) => p,
            None => {
                return None;
            },
        };
        let (serial, i3) = match parse_u64(b, i2) {
            Some(p) => p,
            None => {
                return None;
            },
        };
        if i3 == b.len() {
            proof {
                assert(b@.skip(i3 as int).len() == 0);
            }
            Some(ServerRequest::Transfer(ChannelAddr { process_id, serial }))
        } else {
            proof {
                assert(b@.skip(i3 as int).len() > 0);
            }
            None
        }
    } else if tag == TAG_ENV_SHUTDOWN {
        if i1 == b.len() {
            proof {
                assert(b@.skip(i1 as int).len() == 0);
            }
            Some(ServerRequest::Shutdown)
        } else {
            proof {
                assert(b@.skip(i1 as int).len() > 0);
            }
            None
        }
    } else {
        None
    }
}

/// The models of a sequence of requests, in order.
pub open spec fn models_of(s: Seq<WriterRequest>) -> Seq<ReqModel> {
    s.map_values(|r: WriterRequest| r@)
}

/// Decode a whole bulk stream into its framed requests, in order.
/// A malformed stream decodes to nothing rather than to a prefix.
pub fn decode_stream_vec(b: &Vec<u8>) -> (r: Option<Vec<WriterRequest>>)
    ensures
        match r {
            Some(v) => dec_stream(b@) == Some(models_of(v@)),
            None => dec_stream(b@) is None,
        },
{
    let mut acc: Vec<WriterRequest> = Vec::new();
    let mut cur: usize = 0;
    proof {
        assert(b@.skip(0) =~= b@);
        if dec_stream(b@) is Some {
            assert(models_of(acc@) + dec_stream(b@)->Some_0 =~= dec_stream(b@)->Some_0);
        }
    }
    while cur < b.len()
        invariant
            cur <= b@.len(),
            match dec_stream(b@.skip(cur as int)) {
                Some(rs) => dec_stream(b@) == Some(models_of(acc@) + rs),
                None => dec_stream(b@) is None,
            },
        decreases b@.len() - cur,
    {
        let ghost prev_acc = acc@;
        let ghost prev_cur = cur as int;
        let ghost s = b@.skip(prev_cur);
        proof {
            assert(s.len() > 0);
        }
        let (len, j) = match parse_u64(b, cur) {
            Some(p) => p,
            None => {
                return None;
            },
        };
        let remaining = b.len() - j;
        if len > remaining as u64 {
            proof {
                assert(b@.skip(j as int).len() < len as nat);
            }
            return None;
        }
        let n = len as usize;
        let payload = subvec(b, j, n);
        proof {
            let b1 = b@.skip(j as int);
            assert(b1.take(len as int) =~= b@.subrange(j as int, j as int + n as int));
        }
        let req = match deserialize_request(&payload) {
            Some(req) => req,
            None => {
                return None;
            },
        };
        acc.push(req);
        cur = j + n;
        proof {
            let b1 = b@.skip(j as int);
            assert(b1.skip(len as int) =~= b@.skip(cur as int));
            assert(dec_stream(s) == match dec_stream(b@.skip(cur as int)) {
                Some(rs) => Some(seq![req@] + rs),
                None => None::<Seq<ReqModel>>,
            });
            match dec_stream(b@.skip(cur as int)) {
                Some(rs) => {
                    assert(dec_stream(s) == Some(seq![req@] + rs));
                    assert(models_of(prev_acc) + (seq![req@] + rs) =~= models_of(acc@) + rs) by {
                        assert(models_of(acc@) =~= models_of(prev_acc).push(req@));
                    }
                },
                None => {},
            }
        }
    }
    proof {
        assert(b@.skip(cur as int).len() == 0);
        assert(dec_stream(b@.skip(cur as int)) == Some(Seq::<ReqModel>::empty()));
        assert(models_of(acc@) + Seq::<ReqModel>::empty() =~= models_of(acc@));
    }
    Some(acc)
}

} // verus!
