use pipelogger::{format_record, frame_record};

#[test]
fn plain_record_is_line_and_newline() {
    assert_eq!(format_record(b"hello", None), b"hello\n".to_vec());
    assert_eq!(format_record(b"", None), b"\n".to_vec());
}

#[test]
fn formatting_twice_gives_the_same_bytes() {
    let a = format_record(b"same line", None);
    let b = format_record(b"same line", None);
    assert_eq!(a, b);
}

#[test]
fn timestamp_is_followed_by_one_space() {
    let stamp = b"2017-01-01 00:00:00.000000000 UTC";
    let r = format_record(b"msg", Some(stamp));
    assert_eq!(r, b"2017-01-01 00:00:00.000000000 UTC msg\n".to_vec());
}

#[test]
fn invalid_utf8_is_replaced() {
    let r = format_record(&[b'a', 0xff, b'b'], None);
    assert_eq!(r, vec![b'a', 0xef, 0xbf, 0xbd, b'b', b'\n']);
    assert_eq!(frame_record(&[b'a', 0xff], None), vec![b'a', 0xff, b'\n']);
}
