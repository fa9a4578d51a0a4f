use pcg_breaker::parse::{output_from_le_bytes, parse_output};
use pcg_breaker::BreakError;

#[test]
fn parses_decimal() {
    assert_eq!(parse_output(b"0"), Ok(0));
    assert_eq!(parse_output(b"123"), Ok(123));
    assert_eq!(parse_output(b"4294967295"), Ok(u32::MAX));
    assert_eq!(parse_output(b"0123"), Ok(123));
}

#[test]
fn parses_prefixed_radixes() {
    assert_eq!(parse_output(b"0x152CA78D"), Ok(0x152CA78D));
    assert_eq!(parse_output(b"0xdeadBEEF"), Ok(0xDEADBEEF));
    assert_eq!(parse_output(b"0b101"), Ok(5));
    assert_eq!(parse_output(b"0o17"), Ok(15));
    assert_eq!(parse_output(b"0x0"), Ok(0));
}

#[test]
fn ignores_surrounding_whitespace() {
    assert_eq!(parse_output(b"  42\n"), Ok(42));
    assert_eq!(parse_output(b"\t0x10\r\n"), Ok(16));
}

#[test]
fn rejects_malformed_lines() {
    assert_eq!(parse_output(b""), Err(BreakError::OutputParseFailed));
    assert_eq!(parse_output(b"   \n"), Err(BreakError::OutputParseFailed));
    assert_eq!(parse_output(b"12a"), Err(BreakError::OutputParseFailed));
    assert_eq!(parse_output(b"0x"), Err(BreakError::OutputParseFailed));
    assert_eq!(parse_output(b"0b2"), Err(BreakError::OutputParseFailed));
    assert_eq!(parse_output(b"0o8"), Err(BreakError::OutputParseFailed));
    assert_eq!(parse_output(b"-1"), Err(BreakError::OutputParseFailed));
    assert_eq!(parse_output(b"1 2"), Err(BreakError::OutputParseFailed));
}

#[test]
fn rejects_overflow() {
    assert_eq!(parse_output(b"4294967296"), Err(BreakError::OutputParseFailed));
    assert_eq!(parse_output(b"0x100000000"), Err(BreakError::OutputParseFailed));
    assert_eq!(
        parse_output(b"99999999999999999999999999"),
        Err(BreakError::OutputParseFailed)
    );
    assert_eq!(parse_output(b"0xFFFFFFFF"), Ok(u32::MAX));
}

#[test]
fn little_endian_bytes() {
    assert_eq!(output_from_le_bytes(0x78, 0x56, 0x34, 0x12), 0x12345678);
    assert_eq!(output_from_le_bytes(0, 0, 0, 0), 0);
    assert_eq!(output_from_le_bytes(0xFF, 0xFF, 0xFF, 0xFF), u32::MAX);
}

#[test]
fn error_messages() {
    assert_eq!(
        BreakError::NotPcg.message(),
        "output sequence not produced by PCG-XSH-RR"
    );
    assert_eq!(
        BreakError::TableLoadFailed.message(),
        "failed to load precomputed table"
    );
    assert_eq!(
        BreakError::InputTruncated.message(),
        "input ended before four outputs were read"
    );
    assert_eq!(
        BreakError::OutputParseFailed.message(),
        "an output line is not an unsigned 32-bit integer"
    );
}
