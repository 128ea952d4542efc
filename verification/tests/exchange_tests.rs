//! End-to-end exchanges through the framing codec and both endpoint
//! models, standing in for the wire between them.

use tokhost::client::{NetClientLayer1, NetClientInfo};
use tokhost::codec::{decode_frame, encode_frame, DecodeOutcome};
use tokhost::errors::EnqueueOutcome;
use tokhost::server::NetServerLayer1;

/// Frames one message, ships it over a byte buffer, and decodes it whole,
/// as the peer's reader would.
fn ship(message: Vec<u8>) -> Vec<u8> {
    let wire = encode_frame(&message).expect("message fits in one frame");
    match decode_frame(&wire) {
        DecodeOutcome::Frame { payload, consumed } => {
            assert_eq!(consumed, wire.len());
            payload
        }
        DecodeOutcome::Incomplete => panic!("whole frame expected"),
    }
}

#[test]
fn ping_pong_round() {
    let client_id = "127.0.0.1:49152";
    let mut server = NetServerLayer1::new();
    assert!(server.accept(client_id.to_string()));
    let mut client = NetClientLayer1::new();

    // Client sends "ping".
    assert_eq!(client.enqueue(b"ping".to_vec()), EnqueueOutcome::Queued);
    let outbound = client.next_outbound().expect("one message queued");
    let delivered = ship(outbound);
    assert_eq!(
        server.on_frame_received(client_id, delivered),
        EnqueueOutcome::Queued
    );
    assert_eq!(
        server.dequeue(),
        vec![(client_id.to_string(), b"ping".to_vec())]
    );

    // Server answers "pong" to that connection.
    assert_eq!(
        server.enqueue(client_id, b"pong".to_vec()),
        EnqueueOutcome::Queued
    );
    let outbound = server.next_outbound(client_id).expect("one message queued");
    let delivered = ship(outbound);
    assert!(client.on_frame_received(delivered));
    assert_eq!(client.dequeue(), vec![b"pong".to_vec()]);

    assert!(client.is_connected());
    assert_eq!(client.dequeue_info(), vec![NetClientInfo::Connection]);
}

#[test]
fn many_messages_keep_order_end_to_end() {
    let client_id = "127.0.0.1:50000";
    let mut server = NetServerLayer1::new();
    server.accept(client_id.to_string());
    let mut client = NetClientLayer1::new();

    let messages: Vec<Vec<u8>> = (0u8..50).map(|i| vec![i, i.wrapping_mul(3)]).collect();
    for m in &messages {
        assert_eq!(client.enqueue(m.clone()), EnqueueOutcome::Queued);
    }
    // The writer drains the outbound queue in order and frames each
    // message; the server's reader decodes and publishes in receipt order.
    while let Some(m) = client.next_outbound() {
        let delivered = ship(m);
        assert_eq!(
            server.on_frame_received(client_id, delivered),
            EnqueueOutcome::Queued
        );
    }
    let got = server.dequeue();
    assert_eq!(got.len(), messages.len());
    for (i, (id, m)) in got.iter().enumerate() {
        assert_eq!(id, client_id);
        assert_eq!(m, &messages[i]);
    }
}
