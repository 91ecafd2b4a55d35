use search_writer::codec::{deserialize_envelope, deserialize_request, decode_stream_vec,
    push_frame, serialize_envelope, serialize_request};
use search_writer::directory::WriterDirectory;
use search_writer::request::{ChannelAddr, SearchDocument, ServerRequest, WriterRequest};

fn dir() -> WriterDirectory {
    WriterDirectory::new(5, 7, 11)
}

fn doc() -> SearchDocument {
    SearchDocument { ctid: 42, content: vec![1, 2, 3, 4] }
}

#[test]
fn round_trip_insert() {
    let req = WriterRequest::Insert { directory: dir(), document: doc() };
    let bytes = serialize_request(&req);
    assert_eq!(deserialize_request(&bytes), Some(req));
}

#[test]
fn round_trip_delete() {
    let req = WriterRequest::Delete { directory: dir(), field: 100, ctids: vec![99, 98, 97] };
    let bytes = serialize_request(&req);
    assert_eq!(deserialize_request(&bytes), Some(req));
}

#[test]
fn round_trip_drop_index() {
    let req = WriterRequest::DropIndex { directory: dir() };
    let bytes = serialize_request(&req);
    assert_eq!(deserialize_request(&bytes), Some(req));
}

#[test]
fn round_trip_abort_commit_vacuum() {
    for req in [
        WriterRequest::Abort,
        WriterRequest::Commit,
        WriterRequest::Vacuum { directory: dir() },
    ] {
        let bytes = serialize_request(&req);
        assert_eq!(deserialize_request(&bytes), Some(req));
    }
}

#[test]
fn round_trip_envelopes() {
    for env in [
        ServerRequest::Request(WriterRequest::Insert { directory: dir(), document: doc() }),
        ServerRequest::Transfer(ChannelAddr { process_id: 77, serial: 3 }),
        ServerRequest::Shutdown,
    ] {
        let bytes = serialize_envelope(&env);
        assert_eq!(deserialize_envelope(&bytes), Some(env));
    }
}

#[test]
fn serialization_is_deterministic() {
    let req = WriterRequest::Commit;
    assert_eq!(serialize_request(&req), vec![4u8]);
    let req = WriterRequest::DropIndex { directory: dir() };
    assert_eq!(
        serialize_request(&req),
        vec![2u8, 5, 0, 0, 0, 7, 0, 0, 0, 11, 0, 0, 0],
    );
    let env = ServerRequest::Transfer(ChannelAddr { process_id: 1, serial: 2 });
    assert_eq!(
        serialize_envelope(&env),
        vec![1u8, 1, 0, 0, 0, 0, 0, 0, 0, 2, 0, 0, 0, 0, 0, 0, 0],
    );
}

#[test]
fn reencoding_a_decoded_request_gives_the_same_bytes() {
    let req = WriterRequest::Delete { directory: dir(), field: 9, ctids: vec![1, 2] };
    let bytes = serialize_request(&req);
    let decoded = deserialize_request(&bytes).unwrap();
    assert_eq!(serialize_request(&decoded), bytes);
}

#[test]
fn trailing_bytes_are_rejected() {
    let req = WriterRequest::Commit;
    let mut bytes = serialize_request(&req);
    bytes.push(0);
    assert_eq!(deserialize_request(&bytes), None);
}

#[test]
fn truncated_request_is_rejected() {
    let req = WriterRequest::Insert { directory: dir(), document: doc() };
    let mut bytes = serialize_request(&req);
    bytes.pop();
    assert_eq!(deserialize_request(&bytes), None);
}

#[test]
fn unknown_tag_is_rejected() {
    assert_eq!(deserialize_request(&vec![9u8]), None);
    assert_eq!(deserialize_envelope(&vec![9u8]), None);
}

#[test]
fn empty_buffer_is_rejected() {
    assert_eq!(deserialize_request(&Vec::new()), None);
    assert_eq!(deserialize_envelope(&Vec::new()), None);
}

#[test]
fn stream_decodes_frames_in_order() {
    let reqs = vec![
        WriterRequest::Insert { directory: dir(), document: doc() },
        WriterRequest::Delete { directory: dir(), field: 1, ctids: vec![42] },
        WriterRequest::Commit,
    ];
    let mut stream: Vec<u8> = Vec::new();
    for r in &reqs {
        push_frame(&mut stream, r);
    }
    assert_eq!(decode_stream_vec(&stream), Some(reqs));
}

#[test]
fn empty_stream_decodes_to_no_requests() {
    assert_eq!(decode_stream_vec(&Vec::new()), Some(Vec::new()));
}

#[test]
fn corrupt_stream_is_rejected() {
    let mut stream: Vec<u8> = Vec::new();
    push_frame(&mut stream, &WriterRequest::Commit);
    stream.pop();
    assert_eq!(decode_stream_vec(&stream), None);
    assert_eq!(decode_stream_vec(&vec![1, 2, 3]), None);
}
