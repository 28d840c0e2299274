use mercury::codec::{decode_text, encode_text};
use mercury::index::find_position;
use mercury::record::append_record;
use mercury::segment::Segment;
use mercury::writer::{BatchStep, Log, LogWriter};

fn empty_writer(first_offset: u64, last_offset: u64) -> LogWriter {
    LogWriter {
        segments: vec![Segment {
            seg_id: 0,
            first_offset,
            last_offset,
            log_file: Vec::new(),
            index_file: Vec::new(),
        }],
        current_segment: 0,
        log_batch: Vec::new(),
        index_batch: Vec::new(),
    }
}

fn log(text: &str) -> Log {
    Log { log: text.to_string() }
}

#[test]
fn main_test_consume_first_log() {
    let mut writer = empty_writer(1, 0);
    let serialized = encode_text(&"hello world".to_string());
    append_record(&mut writer.log_batch, 1, &serialized);
    writer.segments[0].last_offset = 1;
    writer.append_batch(0);
    writer.flush_batch();
    let result = writer.consume(1);
    assert_eq!(result, Some("hello world".to_string()));
}

#[test]
fn tests_test_consume_first_log() {
    let mut writer = empty_writer(1, 0);
    writer.push_log(&log("hello world"));
    assert_eq!(writer.segments[0].last_offset, 1);
    writer.append_batch(0);
    writer.flush_batch();
    assert_eq!(writer.consume(1), Some("hello world".to_string()));
}

#[test]
fn reads_back_every_log_across_index_entries() {
    let mut writer = empty_writer(1, 0);
    for i in 1..=250u64 {
        writer.push_log(&log(&format!("log number {}", i)));
        if i % 100 == 0 {
            writer.append_batch(0);
            writer.flush_batch();
        }
    }
    writer.append_batch(0);
    writer.flush_batch();
    assert_eq!(writer.segments.len(), 1);
    assert_eq!(writer.segments[0].last_offset, 250);
    // Entries for offsets 100 and 200.
    assert_eq!(writer.segments[0].index_file.len(), 32);
    assert_eq!(&writer.segments[0].index_file[0..8], &100u64.to_le_bytes());
    assert_eq!(&writer.segments[0].index_file[16..24], &200u64.to_le_bytes());
    for i in 1..=250u64 {
        assert_eq!(writer.consume(i), Some(format!("log number {}", i)));
    }
    assert_eq!(writer.consume(0), None);
    assert_eq!(writer.consume(251), None);
}

#[test]
fn index_entry_points_at_its_record() {
    let mut writer = empty_writer(1, 0);
    for i in 1..=100u64 {
        writer.push_log(&log(&format!("{}", i)));
    }
    let position = u64::from_le_bytes(writer.index_batch[8..16].try_into().unwrap()) as usize;
    assert_eq!(&writer.log_batch[position..position + 8], &100u64.to_le_bytes());
    writer.append_batch(0);
    writer.flush_batch();
    let found = find_position(&writer.segments, 100);
    assert_eq!(found, Some((0, position as u64, 100)));
    let found = find_position(&writer.segments, 99);
    assert_eq!(found, Some((0, 0, 1)));
    assert_eq!(find_position(&writer.segments, 101), None);
}

#[test]
fn record_layout_is_offset_length_payload() {
    let mut writer = empty_writer(1, 0);
    writer.push_log(&log("hi"));
    // bincode's standard configuration: a one-byte length, then the UTF-8 bytes.
    let mut expected = Vec::new();
    expected.extend_from_slice(&1u64.to_le_bytes());
    expected.extend_from_slice(&3u64.to_le_bytes());
    expected.extend_from_slice(&[2, b'h', b'i']);
    assert_eq!(writer.log_batch, expected);
    assert!(writer.index_batch.is_empty());
}

#[test]
fn segment_starting_after_offset_one() {
    let mut writer = empty_writer(101, 100);
    writer.push_log(&log("a"));
    writer.push_log(&log("b"));
    assert_eq!(writer.segments[0].last_offset, 102);
    writer.append_batch(0);
    writer.flush_batch();
    // No index entry: reading starts at the segment's first offset and scans for the one asked.
    assert_eq!(find_position(&writer.segments, 102), Some((0, 0, 101)));
    assert_eq!(writer.consume(101), Some("a".to_string()));
    assert_eq!(writer.consume(102), Some("b".to_string()));
    assert_eq!(writer.consume(100), None);
    assert_eq!(writer.consume(103), None);
}

#[test]
fn empty_index_falls_back_to_first_offset() {
    let mut writer = empty_writer(1, 0);
    for i in 1..=100u64 {
        writer.push_log(&log(&format!("{}", i)));
    }
    writer.append_batch(0);
    writer.flush_batch();
    writer.segments.push(Segment {
        seg_id: 1,
        first_offset: 101,
        last_offset: 200,
        log_file: Vec::new(),
        index_file: Vec::new(),
    });
    writer.current_segment = 1;
    assert_eq!(find_position(&writer.segments, 150), Some((1, 0, 101)));
    assert_eq!(writer.consume(150), None);
    assert_eq!(writer.consume(100), Some("100".to_string()));
}

#[test]
fn full_segment_rolls_over() {
    let mut writer = empty_writer(1, 0);
    writer.push_log(&log("first"));
    writer.append_batch(0);
    writer.flush_batch();
    writer.push_log(&log("second"));
    let batch = writer.log_batch.clone();
    writer.append_batch(1_073_741_824);
    assert_eq!(writer.segments.len(), 2);
    assert_eq!(writer.current_segment, 1);
    assert_eq!(writer.segments[0].last_offset, 1);
    assert_eq!(writer.segments[1].seg_id, 1);
    assert_eq!(writer.segments[1].first_offset, 2);
    assert_eq!(writer.segments[1].last_offset, 2);
    assert_eq!(writer.segments[1].log_file, batch);
    assert!(writer.segments[1].index_file.is_empty());
    assert_eq!(writer.log_batch, batch);
    writer.flush_batch();
    assert!(writer.log_batch.is_empty());
    assert!(writer.index_batch.is_empty());
    // The batch's log is read from the new segment, the earlier one from the first.
    assert_eq!(writer.consume(2), Some("second".to_string()));
    assert_eq!(writer.consume(1), Some("first".to_string()));
    assert_eq!(writer.consume(3), None);
    // The next log continues in the new segment.
    writer.push_log(&log("third"));
    assert_eq!(writer.segments[1].last_offset, 3);
    writer.append_batch(0);
    writer.flush_batch();
    assert_eq!(writer.consume(3), Some("third".to_string()));
}

#[test]
fn rollover_rebuilds_the_index_for_the_new_file() {
    let mut writer = empty_writer(1, 0);
    for i in 1..=100u64 {
        writer.push_log(&log(&format!("log {}", i)));
    }
    writer.append_batch(0);
    writer.flush_batch();
    for i in 101..=200u64 {
        writer.push_log(&log(&format!("log {}", i)));
    }
    writer.append_batch(2_000_000_000);
    writer.flush_batch();
    assert_eq!(writer.segments.len(), 2);
    assert_eq!(writer.segments[0].last_offset, 100);
    assert_eq!(writer.segments[1].first_offset, 101);
    assert_eq!(writer.segments[1].last_offset, 200);
    // One entry, for offset 200, at its position in the new file.
    let index = &writer.segments[1].index_file;
    assert_eq!(index.len(), 16);
    assert_eq!(&index[0..8], &200u64.to_le_bytes());
    let position = u64::from_le_bytes(index[8..16].try_into().unwrap()) as usize;
    assert_eq!(&writer.segments[1].log_file[position..position + 8], &200u64.to_le_bytes());
    assert_eq!(find_position(&writer.segments, 200), Some((1, position as u64, 200)));
    for i in 1..=200u64 {
        assert_eq!(writer.consume(i), Some(format!("log {}", i)));
    }
}

#[test]
fn batch_fits_exactly_at_capacity() {
    let mut writer = empty_writer(1, 0);
    writer.push_log(&log("x"));
    let len = writer.log_batch.len() as u64;
    writer.append_batch(1_073_741_824 - len);
    assert_eq!(writer.segments.len(), 1);
    assert_eq!(writer.segments[0].log_file.len() as u64, len);
}

#[test]
fn receive_counts_a_batch() {
    let mut writer = empty_writer(1, 0);
    let mut count = 0u64;
    loop {
        match writer.receive(count, Some(&log("m"))) {
            BatchStep::Await(c) => count = c,
            BatchStep::Write => break,
        }
    }
    assert_eq!(count, 99);
    assert_eq!(writer.segments[0].last_offset, 100);
    assert_eq!(writer.index_batch.len(), 16);
    let before = writer.log_batch.clone();
    match writer.receive(5, None) {
        BatchStep::Write => {}
        BatchStep::Await(_) => panic!("a closed queue writes the batch"),
    }
    assert_eq!(writer.log_batch, before);
}

#[test]
fn text_encoding_round_trips() {
    let bytes = encode_text(&"hello".to_string());
    assert_eq!(bytes, vec![5, b'h', b'e', b'l', b'l', b'o']);
    assert_eq!(decode_text(&bytes), Some("hello".to_string()));
    let long = "y".repeat(300);
    let bytes = encode_text(&long);
    assert_eq!(&bytes[0..3], &[251, 44, 1]);
    assert_eq!(decode_text(&bytes), Some(long));
}

#[test]
fn undecodable_payloads_give_nothing() {
    // Invalid UTF-8.
    assert_eq!(decode_text(&[2, 0xff, 0xfe]), None);
    // A length that runs past the payload.
    assert_eq!(decode_text(&[10, b'a']), None);
    assert_eq!(decode_text(&[253, 0xff, 0xff, 0xff, 0xff, 0xff, 0xff, 0xff, 0x7f]), None);
    // A reserved length marker.
    assert_eq!(decode_text(&[255]), None);
    assert_eq!(decode_text(&[]), None);
}

#[test]
fn truncated_log_file_gives_nothing() {
    let mut writer = empty_writer(1, 0);
    writer.push_log(&log("hello"));
    writer.push_log(&log("world"));
    writer.append_batch(0);
    writer.flush_batch();
    let full = writer.segments[0].log_file.len();
    writer.segments[0].log_file.truncate(full - 1);
    assert_eq!(writer.consume(1), Some("hello".to_string()));
    assert_eq!(writer.consume(2), None);
}

#[test]
fn offset_field_is_checked() {
    // A segment that claims offsets 1 to 5 but whose file holds only the record of 5.
    let mut writer = empty_writer(1, 5);
    let payload = encode_text(&"five".to_string());
    append_record(&mut writer.segments[0].log_file, 5, &payload);
    assert_eq!(writer.consume(1), None);
    assert_eq!(writer.consume(4), None);
    assert_eq!(writer.consume(5), Some("five".to_string()));
}

#[test]
fn scan_stops_at_a_record_cut_short() {
    // A length that runs past the end of the file ends the scan.
    let mut writer = empty_writer(1, 2);
    let payload = encode_text(&"again".to_string());
    let mut file = Vec::new();
    file.extend_from_slice(&1u64.to_le_bytes());
    file.extend_from_slice(&(u64::MAX - 15).to_le_bytes());
    append_record(&mut file, 2, &payload);
    writer.segments[0].log_file = file;
    assert_eq!(writer.consume(2), None);
    assert_eq!(writer.consume(1), None);
}
#[test]
fn raw_payloads_read_back() {
    let mut writer = empty_writer(1, 0);
    writer.push_payload(&[1, 2, 3]);
    writer.push_payload(&[]);
    writer.push_payload(&[9; 40]);
    writer.append_batch(0);
    writer.flush_batch();
    assert_eq!(writer.read_payload(1), Some(&[1u8, 2, 3][..]));
    assert_eq!(writer.read_payload(2), Some(&[][..]));
    assert_eq!(writer.read_payload(3), Some(&[9u8; 40][..]));
    assert_eq!(writer.read_payload(4), None);
    // Decoding reads the announced length and ignores what follows the string.
    assert_eq!(writer.consume(1), Some("\u{2}".to_string()));
    assert_eq!(writer.consume(3), Some("\t".repeat(9)));
    // An empty payload announces no length and does not decode.
    assert_eq!(writer.consume(2), None);
}

#[test]
fn staged_batch_is_not_readable() {
    let mut writer = empty_writer(1, 0);
    writer.push_log(&log("pending"));
    assert_eq!(writer.consume(1), None);
    writer.append_batch(0);
    assert_eq!(writer.consume(1), Some("pending".to_string()));
}

#[test]
fn rollover_of_a_batch_starting_at_offset_zero() {
    // A hand-built batch whose record carries offset 0: the old segment ends at 0.
    let mut writer = empty_writer(0, 0);
    let payload = encode_text(&"zero".to_string());
    append_record(&mut writer.log_batch, 0, &payload);
    assert!(writer.can_append_batch(2_000_000_000));
    writer.append_batch(2_000_000_000);
    writer.flush_batch();
    assert_eq!(writer.segments.len(), 2);
    assert_eq!(writer.segments[0].last_offset, 0);
    assert_eq!(writer.segments[1].first_offset, 0);
    assert_eq!(writer.segments[1].last_offset, 0);
    // Offset 0 is still held first by the old segment, whose file is empty.
    assert_eq!(writer.consume(0), None);
}
