use queue_server::hex::{format_hex, parse_hex};
use queue_server::message::{ParseQueueMessageError, QueueMessage};
use queue_server::snapshot::{offset_snapshot_text, read_offset_snapshot};

#[test]
fn wire_form_uses_upper_hex_offset() {
    let m = QueueMessage::new(255, "hello".to_string());
    assert_eq!(m.to_string(), "[FF] hello");
    assert_eq!(QueueMessage::new(0, "x".to_string()).to_string(), "[0] x");
    assert_eq!(QueueMessage::new(16, "".to_string()).to_string(), "[10] ");
}

#[test]
fn getters_return_fields() {
    let m = QueueMessage::new(42, "body".to_string());
    assert_eq!(m.get_offset(), 42);
    assert_eq!(m.get_msg(), "body");
}

#[test]
fn parse_reads_offset_and_text() {
    let m = QueueMessage::try_from("[1A] some text here".to_string()).unwrap();
    assert_eq!(m.get_offset(), 26);
    assert_eq!(m.get_msg(), "some text here");
    let m = QueueMessage::try_from("[ff] x".to_string()).unwrap();
    assert_eq!(m.get_offset(), 255);
    let m = QueueMessage::try_from("[0] ".to_string()).unwrap();
    assert_eq!(m.get_offset(), 0);
    assert_eq!(m.get_msg(), "");
}

#[test]
fn parse_round_trips_wire_form() {
    for (off, text) in [(0usize, "hello"), (12345, "a b c"), (usize::MAX, "top"), (7, "[3] nested")] {
        let m = QueueMessage::new(off, text.to_string());
        let back = QueueMessage::try_from(m.to_string()).unwrap();
        assert_eq!(back.get_offset(), off);
        assert_eq!(back.get_msg(), text);
    }
}

#[test]
fn parse_rejects_malformed_lines() {
    for bad in ["", "hello", "[0]", "[0]x", "[] x", "0] x", "[0 x", "[g] x", "[10000000000000000] x"] {
        assert_eq!(QueueMessage::try_from(bad.to_string()).err(), Some(ParseQueueMessageError), "{bad}");
    }
}

#[test]
fn hex_format_and_parse() {
    assert_eq!(format_hex(0), "0");
    assert_eq!(format_hex(0xABC), "ABC");
    assert_eq!(format_hex(usize::MAX), "FFFFFFFFFFFFFFFF");
    assert_eq!(parse_hex("abc"), Some(0xABC));
    assert_eq!(parse_hex("FFFFFFFFFFFFFFFF"), Some(usize::MAX));
    assert_eq!(parse_hex("10000000000000000"), None);
    assert_eq!(parse_hex(""), None);
    assert_eq!(parse_hex("1 "), None);
}

#[test]
fn snapshot_text_and_reading() {
    assert_eq!(offset_snapshot_text(1000), "3E8");
    assert_eq!(read_offset_snapshot(&"3E8".to_string()), 1000);
    assert_eq!(read_offset_snapshot(&"3e8\n".to_string()), 1000);
    assert_eq!(read_offset_snapshot(&"".to_string()), 0);
    assert_eq!(read_offset_snapshot(&"zz".to_string()), 0);
    assert_eq!(read_offset_snapshot(&"3E8\n\n".to_string()), 0);
}
