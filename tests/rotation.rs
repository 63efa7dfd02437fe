use pipelogger::{
    configure, rotation_plan, ConfigError, FileOp, LogFiles, RotationPolicy, RotationState,
    SizeError,
};

fn contents(log: &LogFiles) -> Vec<Vec<u8>> {
    (0..log.file_count()).map(|k| log.file(k).to_vec()).collect()
}

#[test]
fn rotation_decision() {
    let policy = RotationPolicy { max_size: 10, max_count: 3 };
    let mut st = RotationState::new(policy, 0);
    assert!(!st.before_write(6));
    assert_eq!(st.current, 6);
    assert!(!st.before_write(4));
    assert_eq!(st.current, 10);
    assert!(!st.before_write(0));
    assert!(st.before_write(1));
    assert_eq!(st.current, 1);
}

#[test]
fn oversized_record_goes_to_a_file_of_its_own() {
    let policy = RotationPolicy { max_size: 4, max_count: 2 };
    let mut st = RotationState::new(policy, 0);
    assert!(st.before_write(9));
    assert_eq!(st.current, 9);
    assert!(st.before_write(1));
    assert_eq!(st.current, 1);
    let mut log = LogFiles::new(RotationPolicy { max_size: 1, max_count: 3 });
    log.write(b"xy");
    assert_eq!(contents(&log), vec![b"xy".to_vec(), vec![]]);
}

#[test]
fn plan_removes_oldest_then_shifts() {
    assert_eq!(
        rotation_plan(3),
        vec![FileOp::Remove(2), FileOp::Rename(1, 2), FileOp::Rename(0, 1)]
    );
    assert_eq!(rotation_plan(1), vec![FileOp::Remove(0)]);
}

#[test]
fn at_most_count_files_and_oldest_evicted() {
    let policy = RotationPolicy { max_size: 8, max_count: 3 };
    let mut log = LogFiles::new(policy);
    for i in 0..10u8 {
        let rec = vec![b'0' + i, b'0' + i, b'0' + i, b'\n'];
        log.write(&rec);
        assert!(log.file_count() <= 3);
    }
    assert_eq!(
        contents(&log),
        vec![b"888\n999\n".to_vec(), b"666\n777\n".to_vec(), b"444\n555\n".to_vec()]
    );
}

#[test]
fn two_files_of_ten_bytes() {
    let policy = configure(2, "10B").unwrap();
    let mut log = LogFiles::new(policy);
    for line in ["aaaaa", "bbbbb", "ccccc"] {
        let rec = pipelogger::format_record(line.as_bytes(), None);
        log.write(&rec);
    }
    assert_eq!(log.file_count(), 2);
    assert_eq!(contents(&log), vec![b"ccccc\n".to_vec(), b"bbbbb\n".to_vec()]);
    for k in 0..log.file_count() {
        assert!(!log.file(k).windows(5).any(|w| w == b"aaaaa"));
    }
}

#[test]
fn configuration_errors() {
    assert_eq!(configure(10, "0"), Err(ConfigError::Size(SizeError::Zero)));
    assert_eq!(configure(10, "1Q"), Err(ConfigError::Size(SizeError::Invalid)));
    assert_eq!(configure(0, "1M"), Err(ConfigError::Count));
    assert_eq!(configure(10, "1M"), Ok(RotationPolicy { max_size: 1048576, max_count: 10 }));
}

#[test]
fn configure_reads_units() {
    assert_eq!(configure(2, "10B"), Ok(RotationPolicy { max_size: 10, max_count: 2 }));
    assert_eq!(configure(3, "4KiB"), Ok(RotationPolicy { max_size: 4096, max_count: 3 }));
    assert_eq!(configure(3, "10xyz"), Err(ConfigError::Size(SizeError::Invalid)));
}
