use nlx_replay::errors::CscError;
use nlx_replay::nlx_csc::NlxCscRecord;
use nlx_replay::nlx_udp::csc_to_packets;

fn channel_record(channel: u32, valid: u32, base: i16) -> NlxCscRecord {
    let mut record = NlxCscRecord::new();
    record.timestamp = 5_000_000;
    record.channel_number = channel;
    record.sample_frequency = 32000;
    record.number_of_valid_samples = valid;
    for i in 0..512 {
        record.samples[i] = base.wrapping_add(i as i16);
    }
    record
}

#[test]
fn mismatched_sample_counts_identify_the_channel() {
    let records = vec![channel_record(0, 512, 0), channel_record(1, 511, 1000)];
    let err = csc_to_packets(records, None).unwrap_err();
    assert_eq!(
        err,
        CscError::SampleCountMismatch {
            record_index: 1,
            found: 511,
            expected: 512,
        }
    );
}

#[test]
fn first_mismatch_wins() {
    let records = vec![
        channel_record(0, 100, 0),
        channel_record(1, 99, 0),
        channel_record(2, 98, 0),
    ];
    let err = csc_to_packets(records, None).unwrap_err();
    assert_eq!(
        err,
        CscError::SampleCountMismatch {
            record_index: 1,
            found: 99,
            expected: 100,
        }
    );
}

#[test]
fn transform_emits_one_packet_per_sample_in_order() {
    let n_channels = 3usize;
    let valid = 4u32;
    let mut records = Vec::new();
    for c in 0..n_channels {
        records.push(channel_record(c as u32, valid, (c * 100) as i16));
    }
    // sampling frequency 32000 gives an integer period of 31 microseconds
    let packets = csc_to_packets(records, Some(10)).unwrap();
    assert_eq!(packets.len(), valid as usize);
    for (i, packet) in packets.iter().enumerate() {
        assert_eq!(packet.stx, 2048);
        assert_eq!(packet.packet_id, 10 + i as i32);
        assert_eq!(packet.packet_size, 1044);
        let timestamp = 5_000_000 + (i as u64) * 31;
        assert_eq!(packet.timestamp_high, (timestamp >> 32) as u32);
        assert_eq!(packet.timestamp_low, (timestamp & 0xFFFF_FFFF) as u32);
        assert_eq!(packet.status, 0);
        assert_eq!(packet.parallel_input_port, 0);
        assert_eq!(packet.extras, vec![0; 10]);
        assert_eq!(packet.crc, 0);
        assert_eq!(packet.data.len(), n_channels);
        for c in 0..n_channels {
            assert_eq!(packet.data[c], ((c * 100) as i16).wrapping_add(i as i16) as i32);
        }
    }
}

#[test]
fn transform_bodies_zip_the_channels() {
    let records1 = channel_record(0, 512, -7);
    let records2 = channel_record(1, 512, 90);
    let packets: Vec<(i32, i32)> = csc_to_packets(vec![records1.clone(), records2.clone()], Some(0))
        .unwrap()
        .iter()
        .map(|x| (x.data[0], x.data[1]))
        .collect();

    let data1: Vec<i32> = records1.samples.iter().map(|x| *x as i32).collect();
    let data2: Vec<i32> = records2.samples.iter().map(|x| *x as i32).collect();
    let data: Vec<(i32, i32)> = data1.iter().copied().zip(data2.iter().copied()).collect();

    assert_eq!(data.len(), 512);
    assert_eq!(packets, data);
}

#[test]
fn default_first_id_is_zero() {
    let packets = csc_to_packets(vec![channel_record(0, 2, 5)], None).unwrap();
    assert_eq!(packets.len(), 2);
    assert_eq!(packets[0].packet_id, 0);
    assert_eq!(packets[1].packet_id, 1);
}
