use nlx_replay::nlx_header::NlxHeader;
use nlx_replay::utilities::from_ut8_unaligned;

fn lookup<'a>(header: &'a NlxHeader, key: &str) -> Option<&'a str> {
    header
        .dict
        .iter()
        .find(|(k, _)| k == key)
        .map(|(_, v)| v.as_str())
}

#[test]
fn nlx_header_test_new_functions() {
    let nlx_csc_header = NlxHeader::new();
    assert_eq!(nlx_csc_header.dict, Vec::new());
}

#[test]
fn test_from_ut8_unaligned() {
    let bytes = [0x4E, 0x65, 0x75, 0x72, 0x6F, 0x6E];
    let string = from_ut8_unaligned(&bytes).unwrap();
    assert_eq!(string, "Neuron");
}

#[test]
fn header_parses_marked_lines_and_skips_the_rest() {
    let text = b"-Key1 Value1\n-Key2 Value2A Value2B\nignored line\n";
    let header = NlxHeader::deserialize(text).unwrap();
    assert_eq!(lookup(&header, "Key1"), Some("Value1"));
    assert_eq!(lookup(&header, "Key2"), Some("Value2A Value2B"));
    assert_eq!(header.dict.len(), 2);
}

#[test]
fn header_parses_padded_frame() {
    let mut bytes = vec![0u8; 16384];
    let text = b"-Key1 Value1\n-Key2 Value2A Value2B\nignored line\n";
    bytes[..text.len()].copy_from_slice(text);
    let header = NlxHeader::deserialize(&bytes).unwrap();
    assert_eq!(lookup(&header, "Key1"), Some("Value1"));
    assert_eq!(lookup(&header, "Key2"), Some("Value2A Value2B"));
    assert_eq!(header.dict.len(), 2);
}

#[test]
fn header_later_duplicate_key_overwrites_earlier() {
    let text = b"-Key old\n-Key new\n";
    let header = NlxHeader::deserialize(text).unwrap();
    assert_eq!(lookup(&header, "Key"), Some("new"));
    assert_eq!(header.dict.len(), 1);
}

#[test]
fn header_strips_carriage_return_before_newline() {
    let text = b"-Key1 Value1\r\n-Key2 Value2\r\n";
    let header = NlxHeader::deserialize(text).unwrap();
    assert_eq!(lookup(&header, "Key1"), Some("Value1"));
    assert_eq!(lookup(&header, "Key2"), Some("Value2"));
}

#[test]
fn header_line_without_space_contributes_nothing() {
    let text = b"-Alone\n-Key Value\n";
    let header = NlxHeader::deserialize(text).unwrap();
    assert_eq!(lookup(&header, "Alone"), None);
    assert_eq!(lookup(&header, "Key"), Some("Value"));
    assert_eq!(header.dict.len(), 1);
}

#[test]
fn header_maps_every_byte_one_to_one() {
    let bytes = [b'-', 0xE9, b' ', 0xFF, b'\n'];
    let header = NlxHeader::deserialize(&bytes).unwrap();
    assert_eq!(header.dict.len(), 1);
    assert_eq!(header.dict[0].0, "\u{e9}");
    assert_eq!(header.dict[0].1, "\u{ff}");
}
