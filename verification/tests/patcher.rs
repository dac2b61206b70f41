use binpatch::engine::{apply_patch, find_subslice, overwrite_at, PatchOutcome, PatchSide};
use binpatch::parse::{format_hex, parse_hex_pattern, ParseError};

// --- parser: space-separated notation ---

#[test]
fn space_separated_basic() {
    assert_eq!(
        parse_hex_pattern(b"48 8D 05"),
        Ok(vec![0x48, 0x8D, 0x05])
    );
}

#[test]
fn space_separated_lowercase_and_single_digit() {
    assert_eq!(parse_hex_pattern(b"f 0 a"), Ok(vec![0x0F, 0x00, 0x0A]));
    assert_eq!(parse_hex_pattern(b"8d"), Ok(vec![0x8D]));
}

#[test]
fn surrounding_whitespace_is_trimmed() {
    assert_eq!(parse_hex_pattern(b"  48 8D\t"), Ok(vec![0x48, 0x8D]));
    assert_eq!(parse_hex_pattern(b"\n90  90\r\n"), Ok(vec![0x90, 0x90]));
}

#[test]
fn empty_input_yields_empty_pattern() {
    assert_eq!(parse_hex_pattern(b""), Ok(vec![]));
    assert_eq!(parse_hex_pattern(b"   \t  "), Ok(vec![]));
}

#[test]
fn wrapper_single_quotes_stripped() {
    assert_eq!(
        parse_hex_pattern(b"b'48 8d 05'"),
        Ok(vec![0x48, 0x8D, 0x05])
    );
}

#[test]
fn wrapper_double_quotes_stripped() {
    assert_eq!(
        parse_hex_pattern(b"b\"48 8d 05\""),
        Ok(vec![0x48, 0x8D, 0x05])
    );
}

#[test]
fn malformed_token_identified() {
    assert_eq!(
        parse_hex_pattern(b"48 ZZ 05"),
        Err(ParseError::InvalidToken {
            token: b"ZZ".to_vec()
        })
    );
}

#[test]
fn three_digit_token_rejected() {
    assert_eq!(
        parse_hex_pattern(b"100"),
        Err(ParseError::InvalidToken {
            token: b"100".to_vec()
        })
    );
}

// --- parser: escaped-hex notation ---

#[test]
fn escaped_form_equivalence() {
    let escaped = parse_hex_pattern(b"\\x48\\x8D\\x05");
    let spaced = parse_hex_pattern(b"48 8D 05");
    assert_eq!(escaped, Ok(vec![0x48, 0x8D, 0x05]));
    assert_eq!(escaped, spaced);
}

#[test]
fn escaped_form_ignores_other_bytes() {
    assert_eq!(
        parse_hex_pattern(b"mov \\x48 junk \\x05;"),
        Ok(vec![0x48, 0x05])
    );
}

#[test]
fn truncated_escape_rejected() {
    assert_eq!(
        parse_hex_pattern(b"\\x4"),
        Err(ParseError::TruncatedEscape)
    );
    assert_eq!(parse_hex_pattern(b"\\x"), Err(ParseError::TruncatedEscape));
}

#[test]
fn invalid_escape_digits_rejected() {
    assert_eq!(
        parse_hex_pattern(b"\\xG1"),
        Err(ParseError::InvalidEscape {
            first: b'G',
            second: b'1'
        })
    );
}

// --- formatting and the round trip ---

#[test]
fn format_is_space_separated_uppercase() {
    assert_eq!(format_hex(&[0x00, 0x48, 0xFF, 0x0A]), b"00 48 FF 0A".to_vec());
    assert_eq!(format_hex(&[]), Vec::<u8>::new());
    assert_eq!(format_hex(&[0x90]), b"90".to_vec());
}

#[test]
fn format_then_parse_round_trip() {
    let cases: Vec<Vec<u8>> = vec![
        vec![],
        vec![0x00],
        vec![0xFF, 0x00, 0x12, 0xAB, 0x9C],
        (0u8..=255u8).collect(),
    ];
    for bytes in cases {
        let text = format_hex(&bytes);
        assert_eq!(parse_hex_pattern(&text), Ok(bytes));
    }
}

// --- engine: scanning ---

#[test]
fn first_match_offset_wins() {
    assert_eq!(
        find_subslice(&[0xAA, 0xBB, 0xAA, 0xBB], &[0xAA, 0xBB]),
        Some(0)
    );
}

#[test]
fn overlapping_windows_are_considered() {
    assert_eq!(find_subslice(&[0x01, 0x01, 0x02], &[0x01, 0x02]), Some(1));
}

#[test]
fn missing_needle_not_found() {
    assert_eq!(find_subslice(&[1, 2, 3], &[4]), None);
}

#[test]
fn empty_needle_never_matches() {
    assert_eq!(find_subslice(&[1, 2, 3], &[]), None);
}

#[test]
fn needle_longer_than_haystack_not_found() {
    assert_eq!(find_subslice(&[1, 2], &[1, 2, 3]), None);
}

// --- engine: overwriting ---

#[test]
fn overwrite_changes_only_the_window() {
    let mut buf = vec![0, 1, 2, 3, 4, 5];
    overwrite_at(&mut buf, 2, &[9, 8]);
    assert_eq!(buf, vec![0, 1, 9, 8, 4, 5]);
}

// --- engine: whole patches ---

#[test]
fn length_mismatch_rejected_before_any_write() {
    let mut buf = vec![0xAA, 0xBB, 0xCC];
    let r = apply_patch(&mut buf, b"AA BB CC", b"AA BB");
    assert_eq!(
        r,
        PatchOutcome::LengthMismatch {
            find_len: 3,
            replace_len: 2
        }
    );
    assert_eq!(buf, vec![0xAA, 0xBB, 0xCC]);
}

#[test]
fn parse_failure_reports_the_side() {
    let mut buf = vec![0x00];
    let r = apply_patch(&mut buf, b"ZZ", b"90");
    assert!(matches!(
        r,
        PatchOutcome::ParseFailed {
            side: PatchSide::Find,
            ..
        }
    ));
    assert_eq!(buf, vec![0x00]);

    let r = apply_patch(&mut buf, b"90", b"QQ");
    assert!(matches!(
        r,
        PatchOutcome::ParseFailed {
            side: PatchSide::Replace,
            ..
        }
    ));
    assert_eq!(buf, vec![0x00]);
}

#[test]
fn not_found_is_non_fatal() {
    let mut buf = vec![0x01, 0x02, 0x03, 0x04];
    let r = apply_patch(&mut buf, b"AA BB", b"90 90");
    assert_eq!(r, PatchOutcome::NotFound);
    assert_eq!(buf, vec![0x01, 0x02, 0x03, 0x04]);

    // a later patch still applies after a miss
    let r = apply_patch(&mut buf, b"02 03", b"FE FD");
    assert_eq!(r, PatchOutcome::Applied { offset: 1 });
    assert_eq!(buf, vec![0x01, 0xFE, 0xFD, 0x04]);
}

#[test]
fn empty_pattern_is_never_found() {
    let mut buf = vec![0x01, 0x02];
    let r = apply_patch(&mut buf, b"", b"");
    assert_eq!(r, PatchOutcome::NotFound);
    assert_eq!(buf, vec![0x01, 0x02]);
}

#[test]
fn end_to_end_first_match_then_second() {
    let mut buf = vec![
        0x00, 0x01, 0x02, 0x03, 0xAA, 0xBB, 0xCC, 0xDD, 0x00, 0x01, 0x02, 0x03, 0xAA, 0xBB,
        0xCC, 0xDD,
    ];
    let r = apply_patch(&mut buf, b"AA BB CC DD", b"90 90 90 90");
    assert_eq!(r, PatchOutcome::Applied { offset: 4 });
    assert_eq!(
        buf,
        vec![
            0x00, 0x01, 0x02, 0x03, 0x90, 0x90, 0x90, 0x90, 0x00, 0x01, 0x02, 0x03, 0xAA, 0xBB,
            0xCC, 0xDD,
        ]
    );

    // the same patch against the new content hits the second occurrence
    let r = apply_patch(&mut buf, b"AA BB CC DD", b"90 90 90 90");
    assert_eq!(r, PatchOutcome::Applied { offset: 12 });
    assert_eq!(
        buf,
        vec![
            0x00, 0x01, 0x02, 0x03, 0x90, 0x90, 0x90, 0x90, 0x00, 0x01, 0x02, 0x03, 0x90, 0x90,
            0x90, 0x90,
        ]
    );
}
