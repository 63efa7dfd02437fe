use pipelogger::{parse_size, parse_size_limit, size_limit, SizeError};

#[test]
fn plain_integers_are_bytes() {
    assert_eq!(parse_size("1"), Ok(1));
    assert_eq!(parse_size("4096"), Ok(4096));
    assert_eq!(parse_size("18446744073709551615"), Ok(u64::MAX));
}

#[test]
fn zero_parses_to_zero() {
    assert_eq!(parse_size("0"), Ok(0));
    assert_eq!(parse_size("0K"), Ok(0));
}

#[test]
fn every_unit_scales_by_powers_of_1024() {
    let letters = ["B", "K", "M", "G", "T", "P", "E"];
    for (i, letter) in letters.iter().enumerate() {
        let scale = 1024u64.pow(i as u32);
        for n in [0u64, 1, 7, 15] {
            let text = format!("{}{}", n, letter);
            assert_eq!(parse_size(&text), Ok(n * scale), "{}", text);
        }
    }
}

#[test]
fn unit_tails_in_either_case() {
    assert_eq!(parse_size("256KiB"), Ok(256 * 1024));
    assert_eq!(parse_size("256kib"), Ok(256 * 1024));
    assert_eq!(parse_size("256KB"), Ok(256 * 1024));
    assert_eq!(parse_size("1M"), Ok(1024 * 1024));
    assert_eq!(parse_size("3gb"), Ok(3 * 1024 * 1024 * 1024));
    assert_eq!(parse_size("512b"), Ok(512));
    assert_eq!(parse_size(" 1 K "), Ok(1024));
}

#[test]
fn fractional_sizes() {
    assert_eq!(parse_size("1.5K"), Ok(1024 + 512));
    assert_eq!(parse_size("15.75E"), Ok(15 * 1024u64.pow(6) + 3 * (1024u64.pow(6) / 4)));
}

#[test]
fn malformed_sizes_are_invalid() {
    assert_eq!(parse_size(""), Err(SizeError::Invalid));
    assert_eq!(parse_size("   "), Err(SizeError::Invalid));
    assert_eq!(parse_size("abc"), Err(SizeError::Invalid));
    assert_eq!(parse_size("10xyz"), Err(SizeError::Invalid));
    assert_eq!(parse_size("10Kx"), Err(SizeError::Invalid));
    assert_eq!(parse_size("-1"), Err(SizeError::Invalid));
    assert_eq!(parse_size("-1.0"), Err(SizeError::Invalid));
    assert_eq!(parse_size("1\u{e9}"), Err(SizeError::Invalid));
}

#[test]
fn too_large_sizes_overflow() {
    assert_eq!(parse_size("16E"), Err(SizeError::Overflow));
    assert_eq!(parse_size("17179869184G"), Err(SizeError::Overflow));
}

#[test]
fn size_limit_refuses_zero() {
    assert_eq!(size_limit(Ok(0)), Err(SizeError::Zero));
    assert_eq!(size_limit(Ok(10)), Ok(10));
    assert_eq!(size_limit(Err(SizeError::Overflow)), Err(SizeError::Overflow));
    assert_eq!(parse_size_limit("0"), Err(SizeError::Zero));
    assert_eq!(parse_size_limit("1M"), Ok(1048576));
    assert_eq!(parse_size_limit("x"), Err(SizeError::Invalid));
}

#[test]
fn units_end_at_exbibytes() {
    assert_eq!(parse_size("0ZiB"), Err(SizeError::Invalid));
    assert_eq!(parse_size("1Y"), Err(SizeError::Invalid));
}

#[test]
fn words_are_invalid_bounds() {
    assert_eq!(parse_size_limit("abc"), Err(SizeError::Invalid));
    assert_eq!(parse_size_limit("10xyz"), Err(SizeError::Invalid));
    assert_eq!(parse_size_limit("10B"), Ok(10));
    assert_eq!(parse_size_limit("0K"), Err(SizeError::Zero));
}
