use nlx_replay::errors::CscError;
use nlx_replay::nlx_csc::NlxCscRecord;

fn sample_record() -> NlxCscRecord {
    let mut record = NlxCscRecord::new();
    record.timestamp = 0x0102030405060708;
    record.channel_number = 42;
    record.sample_frequency = 32000;
    record.number_of_valid_samples = 512;
    for i in 0..512 {
        record.samples[i] = (i as i16) - 256;
    }
    record
}

#[test]
fn nlx_csc_test_new_functions() {
    let nlx_csc_record = NlxCscRecord::new();
    assert_eq!(nlx_csc_record.timestamp, 0);
    assert_eq!(nlx_csc_record.channel_number, 0);
    assert_eq!(nlx_csc_record.sample_frequency, 0);
    assert_eq!(nlx_csc_record.number_of_valid_samples, 0);
    assert_eq!(nlx_csc_record.samples, vec![0; 512]);
}

#[test]
fn record_decode_reads_fields_little_endian() {
    let mut bytes = vec![0u8; 1044];
    bytes[0..8].copy_from_slice(&0x0102030405060708u64.to_le_bytes());
    bytes[8..12].copy_from_slice(&7u32.to_le_bytes());
    bytes[12..16].copy_from_slice(&32000u32.to_le_bytes());
    bytes[16..20].copy_from_slice(&511u32.to_le_bytes());
    bytes[20..22].copy_from_slice(&(-5i16).to_le_bytes());
    bytes[1042..1044].copy_from_slice(&1234i16.to_le_bytes());
    let record = NlxCscRecord::deserialize(&bytes).unwrap();
    assert_eq!(record.timestamp, 0x0102030405060708);
    assert_eq!(record.channel_number, 7);
    assert_eq!(record.sample_frequency, 32000);
    assert_eq!(record.number_of_valid_samples, 511);
    assert_eq!(record.samples[0], -5);
    assert_eq!(record.samples[1], 0);
    assert_eq!(record.samples[511], 1234);
}

#[test]
fn record_decode_then_encode_returns_input_bytes() {
    let mut bytes = vec![0u8; 1044];
    for (i, b) in bytes.iter_mut().enumerate() {
        *b = (i % 251) as u8;
    }
    let record = NlxCscRecord::deserialize(&bytes).unwrap();
    let encoded = record.serialize().unwrap();
    assert_eq!(encoded, bytes);
}

#[test]
fn record_encode_then_decode_returns_same_record() {
    let record = sample_record();
    let bytes = record.serialize().unwrap();
    assert_eq!(bytes.len(), 1044);
    let decoded = NlxCscRecord::deserialize(&bytes).unwrap();
    assert_eq!(decoded, record);
}

#[test]
fn record_decode_rejects_wrong_length() {
    assert_eq!(
        NlxCscRecord::deserialize(&[0u8; 10]),
        Err(CscError::ShortRecord)
    );
    assert_eq!(
        NlxCscRecord::deserialize(&vec![0u8; 1045]),
        Err(CscError::ShortRecord)
    );
}
