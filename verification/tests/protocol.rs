use search_writer::client::Client;
use search_writer::codec::serialize_envelope;
use search_writer::directory::WriterDirectory;
use search_writer::index::{needs_commit, Writer};
use search_writer::request::{SearchDocument, ServerRequest, WriterRequest};
use search_writer::server::{Server, ServerError};

fn dir() -> WriterDirectory {
    WriterDirectory::new(1, 2, 3)
}

fn doc(ctid: u64) -> SearchDocument {
    SearchDocument { ctid, content: vec![0xAB, ctid as u8] }
}

fn new_server() -> Server<Writer> {
    Server::new(Writer::new())
}

/// Deliver one point request the way the process runner would.
fn send_point(server: &mut Server<Writer>, req: &WriterRequest) {
    let env = serialize_envelope(&ServerRequest::Request(clone(req)));
    server.handle_message(&env).unwrap();
}

fn clone(req: &WriterRequest) -> WriterRequest {
    search_writer::client::clone_request(req)
}

#[test]
fn insert_then_delete_yields_absent() {
    let mut server = new_server();
    let d = dir();
    send_point(&mut server, &WriterRequest::Insert { directory: d, document: doc(7) });
    assert!(server.handler.contains_live(&d, 7));
    send_point(
        &mut server,
        &WriterRequest::Delete { directory: d, field: 0, ctids: vec![7] },
    );
    assert!(!server.handler.contains_live(&d, 7));
}

#[test]
fn delete_then_insert_yields_present() {
    let mut server = new_server();
    let d = dir();
    send_point(
        &mut server,
        &WriterRequest::Delete { directory: d, field: 0, ctids: vec![7] },
    );
    send_point(&mut server, &WriterRequest::Insert { directory: d, document: doc(7) });
    assert!(server.handler.contains_live(&d, 7));
}

#[test]
fn bulk_transfer_equals_point_requests() {
    let d = dir();
    let reqs = vec![
        WriterRequest::Insert { directory: d, document: doc(1) },
        WriterRequest::Insert { directory: d, document: doc(2) },
        WriterRequest::Delete { directory: d, field: 0, ctids: vec![1] },
        WriterRequest::Insert { directory: d, document: doc(3) },
    ];

    // One server sees the requests as a bulk transfer.
    let mut bulk = new_server();
    let mut client = Client::new(1000);
    let mut handshake: Option<Vec<u8>> = None;
    for r in &reqs {
        if let Some(env) = client.transfer(r) {
            handshake = Some(env);
        }
    }
    let addr = bulk.handle_message(&handshake.unwrap()).unwrap();
    assert!(addr.is_some());
    let stream = client.stop_transfer().unwrap();
    bulk.consume_stream(&stream).unwrap();

    // The other sees the same requests as point requests.
    let mut point = new_server();
    for r in &reqs {
        send_point(&mut point, r);
    }

    for ctid in 1..=3 {
        assert_eq!(
            bulk.handler.contains_live(&d, ctid),
            point.handler.contains_live(&d, ctid)
        );
    }
    assert_eq!(bulk.handler.live_len(&d), point.handler.live_len(&d));
    assert_eq!(bulk.handler.live_len(&d), Some(2));
}

#[test]
fn point_request_implicitly_stops_open_transfer() {
    let d = dir();
    let mut server = new_server();
    let mut client = Client::new(2000);

    let handshake = client
        .transfer(&WriterRequest::Insert { directory: d, document: doc(1) })
        .unwrap();
    server.handle_message(&handshake).unwrap();
    assert!(client.transfer(&WriterRequest::Insert { directory: d, document: doc(2) }).is_none());

    // A point request while the transfer is open: the stream is closed
    // first and carries exactly the two buffered inserts.
    let (stream, envelope) =
        client.request(&WriterRequest::Delete { directory: d, field: 0, ctids: vec![1] });
    let stream = stream.expect("the open transfer must be flushed first");
    server.consume_stream(&stream).unwrap();
    server.handle_message(&envelope).unwrap();

    // Nothing lost, nothing duplicated: insert 1, insert 2, delete 1.
    assert!(!server.handler.contains_live(&d, 1));
    assert!(server.handler.contains_live(&d, 2));
    assert_eq!(server.handler.live_len(&d), Some(1));

    // A further point request finds no transfer to stop.
    let (stream, envelope) = client.request(&WriterRequest::Commit);
    assert!(stream.is_none());
    server.handle_message(&envelope).unwrap();
}

#[test]
fn commit_and_abort_are_flushing_boundaries() {
    let d = dir();
    let mut server = new_server();
    assert!(!needs_commit(&server.handler));

    send_point(&mut server, &WriterRequest::Insert { directory: d, document: doc(5) });
    assert!(needs_commit(&server.handler));

    send_point(&mut server, &WriterRequest::Abort);
    assert!(!needs_commit(&server.handler));
    assert!(!server.handler.contains_live(&d, 5));

    send_point(&mut server, &WriterRequest::Insert { directory: d, document: doc(6) });
    send_point(&mut server, &WriterRequest::Commit);
    assert!(!needs_commit(&server.handler));
    assert!(server.handler.contains_live(&d, 6));

    // Abort after the commit boundary keeps the committed document.
    send_point(&mut server, &WriterRequest::Abort);
    assert!(server.handler.contains_live(&d, 6));
}

#[test]
fn drop_index_removes_the_entry() {
    let d = dir();
    let mut server = new_server();
    send_point(&mut server, &WriterRequest::Insert { directory: d, document: doc(1) });
    assert_eq!(server.handler.live_len(&d), Some(1));
    send_point(&mut server, &WriterRequest::DropIndex { directory: d });
    assert_eq!(server.handler.live_len(&d), None);
}

#[test]
fn vacuum_leaves_contents_unchanged() {
    let d = dir();
    let mut server = new_server();
    send_point(&mut server, &WriterRequest::Insert { directory: d, document: doc(1) });
    send_point(&mut server, &WriterRequest::Vacuum { directory: d });
    assert_eq!(server.handler.live_len(&d), Some(1));
}

#[test]
fn requests_only_touch_their_own_index() {
    let d1 = WriterDirectory::new(1, 1, 1);
    let d2 = WriterDirectory::new(2, 2, 2);
    let mut server = new_server();
    send_point(&mut server, &WriterRequest::Insert { directory: d1, document: doc(1) });
    send_point(&mut server, &WriterRequest::Insert { directory: d2, document: doc(2) });
    send_point(
        &mut server,
        &WriterRequest::Delete { directory: d1, field: 0, ctids: vec![1, 2] },
    );
    assert!(!server.handler.contains_live(&d1, 1));
    assert!(server.handler.contains_live(&d2, 2));
}

#[test]
fn shutdown_stops_the_server() {
    let mut server = new_server();
    let mut client = Client::new(3000);
    assert!(server.running);
    let (stream, envelope) = client.stop_server();
    assert!(stream.is_none());
    assert_eq!(server.handle_message(&envelope), Ok(None));
    assert!(!server.running);
}

#[test]
fn undecodable_message_is_a_protocol_error() {
    let mut server = new_server();
    assert_eq!(server.handle_message(&vec![0xFF, 0xFF]), Err(ServerError::Protocol));
    assert_eq!(server.consume_stream(&vec![0xFF]), Err(ServerError::Protocol));
    let d = dir();
    assert!(!server.handler.contains_live(&d, 1));
    assert!(server.running);
}

#[test]
fn transfer_channel_addresses_never_collide() {
    let mut c1 = Client::new(1);
    let mut c2 = Client::new(2);
    let d = dir();
    let req = WriterRequest::Insert { directory: d, document: doc(1) };
    let h1 = c1.transfer(&req).unwrap();
    let h2 = c2.transfer(&req).unwrap();
    assert_ne!(h1, h2);
    // A second session of the same client uses a fresh serial.
    c1.stop_transfer().unwrap();
    let h1b = c1.transfer(&req).unwrap();
    assert_ne!(h1, h1b);
}
