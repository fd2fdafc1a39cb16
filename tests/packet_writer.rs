use naia_server_sync::server_packet_writer::{ServerPacketWriter, ENTITY_MESSAGE_BLOCK_TAG};

#[test]
fn new_writer_is_empty() {
    let mut w = ServerPacketWriter::new();
    assert!(!w.has_bytes());
    assert_eq!(w.bytes_number(), 0);
    assert!(w.get_bytes().is_empty());
}

#[test]
fn entity_block_follows_events_with_header() {
    let mut w = ServerPacketWriter::new();
    assert!(w.write_event(&[1, 2, 3]));
    assert!(w.write_entity_message(&[9, 8]));
    assert!(w.write_entity_message(&[7]));
    assert!(w.has_bytes());
    assert_eq!(w.bytes_number(), 6);
    let bytes = w.get_bytes();
    assert_eq!(bytes, vec![1, 2, 3, ENTITY_MESSAGE_BLOCK_TAG, 2, 9, 8, 7]);
    assert!(!w.has_bytes());
    assert_eq!(w.bytes_number(), 0);
}

#[test]
fn no_entity_header_without_messages() {
    let mut w = ServerPacketWriter::new();
    assert!(w.write_event(&[5]));
    assert_eq!(w.get_bytes(), vec![5]);
}

#[test]
fn entity_block_count_is_capped() {
    let mut w = ServerPacketWriter::new();
    for _ in 0..255 {
        assert!(w.write_entity_message(&[1]));
    }
    assert!(!w.write_entity_message(&[1]));
    let bytes = w.get_bytes();
    assert_eq!(bytes.len(), 2 + 255);
    assert_eq!(bytes[1], 255);
}

#[test]
fn empty_event_is_refused() {
    let mut w = ServerPacketWriter::new();
    assert!(!w.write_event(&[]));
    assert!(!w.has_bytes());
    assert!(w.write_event(&[4]));
    assert!(w.has_bytes());
}

#[test]
fn batch_of_entity_messages_stops_at_first_refusal() {
    let mut w = ServerPacketWriter::new();
    for _ in 0..254 {
        assert!(w.write_entity_message(&[0]));
    }
    let batch = vec![vec![1u8, 2], vec![3], vec![4]];
    assert_eq!(w.write_entity_messages(&batch), 1);
    let bytes = w.get_bytes();
    assert_eq!(bytes[1], 255);
    assert_eq!(&bytes[bytes.len() - 2..], &[1, 2]);
}

#[test]
fn batch_of_entity_messages_all_written() {
    let mut w = ServerPacketWriter::new();
    let batch = vec![vec![1u8], vec![2, 3]];
    assert_eq!(w.write_entity_messages(&batch), 2);
    assert_eq!(w.get_bytes(), vec![ENTITY_MESSAGE_BLOCK_TAG, 2, 1, 2, 3]);
}
