use nlx_replay::errors::CscError;
use nlx_replay::nlx_csc::{NlxCscFile, NlxCscFileIterator, NlxCscRecord};

fn make_record(seed: u64) -> NlxCscRecord {
    let mut record = NlxCscRecord::new();
    record.timestamp = 1000 + seed;
    record.channel_number = seed as u32;
    record.sample_frequency = 32000;
    record.number_of_valid_samples = 512;
    for i in 0..512 {
        record.samples[i] = (seed as i16).wrapping_mul(31).wrapping_add(i as i16);
    }
    record
}

fn make_file_bytes(n_records: u64) -> Vec<u8> {
    let mut bytes = vec![0u8; 16384];
    let text = b"-CheetahRev 5.4.0\n-SamplingFrequency 32000\n";
    bytes[..text.len()].copy_from_slice(text);
    for seed in 0..n_records {
        bytes.extend_from_slice(&make_record(seed).serialize().unwrap());
    }
    bytes
}

fn drain(mut iterator: NlxCscFileIterator) -> Vec<NlxCscRecord> {
    let mut records = Vec::new();
    while let Some(step) = iterator.next() {
        records.push(step.unwrap());
    }
    records
}

#[test]
fn eager_reads_header_and_all_records() {
    let bytes = make_file_bytes(3);
    let file = NlxCscFile::from_bytes(&bytes, None).unwrap();
    assert_eq!(file.records.len(), 3);
    for (i, record) in file.records.iter().enumerate() {
        assert_eq!(record, &make_record(i as u64));
    }
    let rev = file
        .header
        .dict
        .iter()
        .find(|(k, _)| k == "CheetahRev")
        .map(|(_, v)| v.clone());
    assert_eq!(rev.as_deref(), Some("5.4.0"));
}

#[test]
fn eager_and_streaming_read_identical_content() {
    let bytes = make_file_bytes(4);
    for cap in [None, Some(0), Some(2), Some(4), Some(10)] {
        let eager = NlxCscFile::from_bytes(&bytes, cap).unwrap();
        let (header, iterator) = NlxCscFileIterator::new(bytes.clone(), cap).unwrap();
        assert_eq!(header, eager.header);
        let streamed = drain(iterator);
        assert_eq!(streamed.len(), eager.records.len());
        assert_eq!(streamed, eager.records);
    }
}

#[test]
fn cap_limits_record_count() {
    let bytes = make_file_bytes(5);
    let eager = NlxCscFile::from_bytes(&bytes, Some(2)).unwrap();
    assert_eq!(eager.records.len(), 2);
    let (_, iterator) = NlxCscFileIterator::new(bytes, Some(2)).unwrap();
    assert_eq!(drain(iterator).len(), 2);
}

#[test]
fn short_header_is_reported() {
    let bytes = vec![0u8; 16383];
    assert_eq!(
        NlxCscFile::from_bytes(&bytes, None).unwrap_err(),
        CscError::ShortHeader
    );
    assert!(matches!(
        NlxCscFileIterator::new(bytes, None),
        Err(CscError::ShortHeader)
    ));
}

#[test]
fn trailing_partial_frame_is_reported() {
    let mut bytes = make_file_bytes(2);
    bytes.extend_from_slice(&[1, 2, 3, 4, 5]);
    assert_eq!(
        NlxCscFile::from_bytes(&bytes, None).unwrap_err(),
        CscError::TrailingBytes
    );
    // A cap below the available frames never reaches the stray bytes.
    assert_eq!(
        NlxCscFile::from_bytes(&bytes, Some(1)).unwrap().records.len(),
        1
    );
    // The streaming reader's bound counts whole frames only.
    let (_, iterator) = NlxCscFileIterator::new(bytes, None).unwrap();
    assert_eq!(drain(iterator).len(), 2);
}

#[test]
fn empty_file_body_gives_no_records() {
    let bytes = make_file_bytes(0);
    let eager = NlxCscFile::from_bytes(&bytes, None).unwrap();
    assert_eq!(eager.records.len(), 0);
    let (_, iterator) = NlxCscFileIterator::new(bytes, None).unwrap();
    assert_eq!(drain(iterator).len(), 0);
}
