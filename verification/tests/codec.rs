use lsmdb::error::DBError;
use lsmdb::sstable::SstMetadata;
use lsmdb::utils::{CommonBinaryFormat, CommonBinaryFormatRef};

#[test]
fn record_layout_is_exact() {
    let mut out: Vec<u8> = Vec::new();
    CommonBinaryFormatRef::new(1, &[7], Some(&[8, 9])).write(&mut out);
    let mut expected = vec![0u8; 0];
    expected.extend_from_slice(&1u128.to_le_bytes());
    expected.push(0); // live value
    expected.extend_from_slice(&1u64.to_le_bytes()); // key length
    expected.extend_from_slice(&2u64.to_le_bytes()); // value length
    expected.push(7); // key
    expected.extend_from_slice(&[8, 9]); // value
    assert_eq!(out, expected);
    assert_eq!(out.len(), 36);
}

#[test]
fn tombstone_layout_has_no_value_fields() {
    let mut out: Vec<u8> = Vec::new();
    CommonBinaryFormatRef::new(5, &[1, 2, 3], None).write(&mut out);
    let mut expected = vec![0u8; 0];
    expected.extend_from_slice(&5u128.to_le_bytes());
    expected.push(1); // tombstone
    expected.extend_from_slice(&3u64.to_le_bytes()); // key length
    expected.extend_from_slice(&[1, 2, 3]); // key
    assert_eq!(out, expected);
    assert_eq!(out.len(), 28);
}

#[test]
fn record_round_trip() {
    let record = CommonBinaryFormat::new(77, vec![1, 2, 3], Some(vec![4, 5]));
    let mut out: Vec<u8> = Vec::new();
    record.as_cbf_ref().write(&mut out);
    let (back, next) = CommonBinaryFormat::read(&out, 0).unwrap().unwrap();
    assert_eq!(back.timestamp, 77);
    assert_eq!(back.key, vec![1, 2, 3]);
    assert_eq!(back.value, Some(vec![4, 5]));
    assert_eq!(next, out.len());
}

#[test]
fn tombstone_round_trip() {
    let record = CommonBinaryFormat::new(12, vec![9, 9], None);
    let mut out: Vec<u8> = Vec::new();
    record.as_cbf_ref().write(&mut out);
    let (back, next) = CommonBinaryFormat::read(&out, 0).unwrap().unwrap();
    assert_eq!(back.timestamp, 12);
    assert_eq!(back.key, vec![9, 9]);
    assert_eq!(back.value, None);
    assert_eq!(next, out.len());
}

#[test]
fn clean_end_of_stream_is_not_corruption() {
    let mut out: Vec<u8> = Vec::new();
    CommonBinaryFormatRef::new(1, &[1], Some(&[2])).write(&mut out);
    let (_, next) = CommonBinaryFormat::read(&out, 0).unwrap().unwrap();
    // exactly at the record boundary: a clean end of stream
    assert_eq!(CommonBinaryFormat::read(&out, next), Ok(None));
}

#[test]
fn truncated_record_is_corruption() {
    let mut out: Vec<u8> = Vec::new();
    CommonBinaryFormatRef::new(1, &[1, 2, 3, 4], Some(&[5, 6, 7])).write(&mut out);
    // every strict prefix must be rejected, never read as a shorter record
    for cut in 1..out.len() {
        let r = CommonBinaryFormat::read(&out[..cut], 0);
        assert_eq!(r, Err(DBError::MalformedWal), "prefix of {cut} bytes");
    }
}

#[test]
fn declared_length_beyond_buffer_is_corruption() {
    let mut bytes: Vec<u8> = Vec::new();
    bytes.extend_from_slice(&3u128.to_le_bytes());
    bytes.push(1); // tombstone
    bytes.extend_from_slice(&100u64.to_le_bytes()); // key length: too long
    bytes.extend_from_slice(&[1, 2, 3]);
    assert_eq!(
        CommonBinaryFormat::read(&bytes, 0),
        Err(DBError::MalformedWal)
    );
}

#[test]
fn metadata_round_trip() {
    let meta = SstMetadata::new(3, 107, 42, vec![1], vec![9, 9]);
    let mut out: Vec<u8> = Vec::new();
    meta.write(&mut out);
    assert_eq!(out.len(), 40 + 1 + 2);
    let (back, next) = SstMetadata::read(&out, 0).unwrap();
    assert_eq!(back.level(), 3);
    assert_eq!(back.lookup_table_offset(), 107);
    assert_eq!(back.values_table_offset(), 42);
    assert_eq!(back.low_key(), &vec![1]);
    assert_eq!(back.high_key(), &vec![9, 9]);
    assert_eq!(next, out.len());
}

#[test]
fn truncated_metadata_is_corruption() {
    let meta = SstMetadata::new(0, 50, 45, vec![2, 2], vec![3]);
    let mut out: Vec<u8> = Vec::new();
    meta.write(&mut out);
    for cut in 0..out.len() {
        let r = SstMetadata::read(&out[..cut], 0);
        assert_eq!(r, Err(DBError::MalformedSSTable), "prefix of {cut} bytes");
    }
}

#[test]
fn error_messages_name_the_failure() {
    assert_eq!(
        DBError::MalformedSSTable.message(),
        "sstable could not be loaded, data is corrupted"
    );
    assert!(DBError::MalformedWal.message().contains("wal"));
    assert!(DBError::MissingFile.message().contains("missing"));
    assert!(DBError::DuplicateFile.message().contains("exists"));
    assert!(DBError::InvariantViolation.message().contains("limit"));
}
