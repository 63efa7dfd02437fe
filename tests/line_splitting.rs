use pipelogger::{split_lines, Dispatch, Driver, InputEvent, LineAccumulator, MAX_CHUNK};

fn feed_str(acc: &mut LineAccumulator, s: &[u8]) -> Vec<Vec<u8>> {
    acc.feed_all(s)
}

#[test]
fn carriage_returns_are_dropped() {
    let mut acc = LineAccumulator::new();
    let lines = feed_str(&mut acc, b"hello\r\nworld\n");
    assert_eq!(lines, vec![b"hello".to_vec(), b"world".to_vec()]);
    assert_eq!(acc.finish(), None);
}

#[test]
fn empty_lines_are_not_emitted() {
    let lines = split_lines(b"\n\na\n\r\n\nb");
    assert_eq!(lines, vec![b"a".to_vec(), b"b".to_vec()]);
}

#[test]
fn long_runs_are_cut_at_the_chunk_size() {
    let run = vec![b'x'; 5000];
    let mut acc = LineAccumulator::new();
    let lines = acc.feed_all(&run);
    assert_eq!(lines.len(), 1);
    assert_eq!(lines[0].len(), MAX_CHUNK);
    assert_eq!(acc.pending().len(), 5000 - 4096);
    let rest = acc.finish().unwrap();
    assert_eq!(rest.len(), 904);
    assert_eq!(acc.finish(), None);
}

#[test]
fn one_byte_at_a_time() {
    let mut acc = LineAccumulator::new();
    assert_eq!(acc.feed(b'a'), None);
    assert_eq!(acc.feed(b'\r'), None);
    assert_eq!(acc.feed(b'b'), None);
    assert_eq!(acc.feed(b'\n'), Some(b"ab".to_vec()));
    assert_eq!(acc.feed(b'\n'), None);
    assert!(acc.pending().is_empty());
}

#[test]
fn driver_flushes_on_hang_up() {
    let mut d = Driver::new();
    let Dispatch { lines, stop } = d.on_event(&InputEvent::Data(b"one\ntw".to_vec()));
    assert_eq!(lines, vec![b"one".to_vec()]);
    assert!(!stop);
    let Dispatch { lines, stop } = d.on_event(&InputEvent::Data(b"o".to_vec()));
    assert!(lines.is_empty());
    assert!(!stop);
    let Dispatch { lines, stop } = d.on_event(&InputEvent::HangUp);
    assert_eq!(lines, vec![b"two".to_vec()]);
    assert!(stop);
    let Dispatch { lines, stop } = d.on_event(&InputEvent::Data(b"late\n".to_vec()));
    assert!(lines.is_empty());
    assert!(stop);
}

#[test]
fn hang_up_with_nothing_pending() {
    let mut d = Driver::new();
    let Dispatch { lines, stop } = d.on_event(&InputEvent::HangUp);
    assert!(lines.is_empty());
    assert!(stop);
}
