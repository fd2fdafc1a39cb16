use naia_server_sync::wire::read_command_records;

#[test]
fn reads_big_endian_fields_and_payloads() {
    let data = [2u8, 0x01, 0x02, 0x00, 0x07, 2, 0xAA, 0xBB, 0xFF, 0xFE, 0x12, 0x34, 0];
    let recs = read_command_records(&data);
    assert_eq!(recs.len(), 2);
    assert_eq!(recs[0].entity, 0x0102);
    assert_eq!(recs[0].type_id, 7);
    assert_eq!(recs[0].payload, vec![0xAA, 0xBB]);
    assert_eq!(recs[1].entity, 0xFFFE);
    assert_eq!(recs[1].type_id, 0x1234);
    assert!(recs[1].payload.is_empty());
}

#[test]
fn empty_block_has_no_records() {
    assert!(read_command_records(&[]).is_empty());
    assert!(read_command_records(&[0u8, 1, 2, 3]).is_empty());
}

#[test]
fn truncated_record_ends_the_block() {
    // Count says three; the second record announces four payload bytes but has two.
    let data = [3u8, 0, 1, 0, 2, 1, 9, 0, 3, 0, 4, 4, 1, 2];
    let recs = read_command_records(&data);
    assert_eq!(recs.len(), 1);
    assert_eq!(recs[0].entity, 1);
    assert_eq!(recs[0].type_id, 2);
    assert_eq!(recs[0].payload, vec![9]);
}

#[test]
fn count_limits_records_read() {
    let data = [1u8, 0, 5, 0, 6, 0, 0, 7, 0, 8, 0];
    let recs = read_command_records(&data);
    assert_eq!(recs.len(), 1);
    assert_eq!(recs[0].entity, 5);
    assert_eq!(recs[0].type_id, 6);
}
