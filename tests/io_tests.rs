use icfp2017::io::{read_json_message, write_json_message, OfflineIO};
use icfp2017::prelude::PunterError;

#[test]
fn read_test() {
    let input_data = b"4:abcdefg";
    let r = read_json_message(&input_data[..], true).unwrap().unwrap();
    assert_eq!(r.0, "abcd");
    assert_eq!(r.1, 6);
}

#[test]
fn read_tolerates_white_space_around_the_length() {
    let r = read_json_message(b" \n 3 :xyz", false).unwrap().unwrap();
    assert_eq!(r.0, "xyz");
    assert_eq!(r.1, 9);
}

#[test]
fn read_waits_for_more_bytes_while_the_stream_is_open() {
    assert_eq!(read_json_message(b"12", false), Ok(None));
    assert_eq!(read_json_message(b"5:ab", false), Ok(None));
    assert_eq!(read_json_message(b"", false), Ok(None));
}

#[test]
fn read_fails_when_the_stream_closed_early() {
    assert_eq!(read_json_message(b"", true), Err(PunterError::Io));
    assert_eq!(read_json_message(b"12", true), Err(PunterError::Io));
    assert_eq!(read_json_message(b"5:ab", true), Err(PunterError::Io));
}

#[test]
fn read_rejects_a_bad_length() {
    assert_eq!(read_json_message(b"x4:abcd", false), Err(PunterError::ParseInt));
    assert_eq!(read_json_message(b":abcd", false), Err(PunterError::ParseInt));
    assert_eq!(read_json_message(b"-1:a", false), Err(PunterError::ParseInt));
    assert_eq!(read_json_message(b"99999999999999999999:a", false), Err(PunterError::ParseInt));
}

#[test]
fn read_rejects_a_payload_that_is_not_utf8() {
    assert_eq!(read_json_message(b"2:\xff\xfe", true), Err(PunterError::FromUtf8));
}

#[test]
fn write_prefixes_the_byte_length() {
    assert_eq!(write_json_message("{\"me\":\"x\"}"), b"10:{\"me\":\"x\"}".to_vec());
    assert_eq!(write_json_message(""), b"0:".to_vec());
    // Two bytes for one character.
    assert_eq!(write_json_message("é"), "2:é".as_bytes().to_vec());
}

#[test]
fn written_message_reads_back() {
    let text = "{\"you\":\"hé\"}";
    let mut bytes = write_json_message(text);
    let len = bytes.len();
    bytes.extend_from_slice(b"7:{\"a\":1}");
    let r = read_json_message(&bytes, false).unwrap().unwrap();
    assert_eq!(r.0, text);
    assert_eq!(r.1, len);
}

#[test]
fn offline_io_reads_messages_in_turn() {
    let mut io = OfflineIO::new();
    io.receive(b"3:abc2:");
    assert_eq!(io.read_json_message(), Ok(Some("abc".to_string())));
    assert_eq!(io.read_json_message(), Ok(None));
    io.receive(b"de");
    assert_eq!(io.read_json_message(), Ok(Some("de".to_string())));
    io.close();
    assert_eq!(io.read_json_message(), Err(PunterError::Io));
    io.write_json_message("hi");
    io.write_json_message("x");
    assert_eq!(io.take_output(), b"2:hi1:x".to_vec());
    assert_eq!(io.take_output(), Vec::<u8>::new());
}
