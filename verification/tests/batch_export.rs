use smwe_editor::batch_export::{batch_range_message, parse_batch_range, BatchRangeError};

#[test]
fn batch_range_reads_hex_level_numbers() {
    assert_eq!(parse_batch_range("000", "1FF"), Ok((0, 0x1FF)));
    assert_eq!(parse_batch_range(" 0x105 ", "$10A"), Ok((0x105, 0x10A)));
    assert_eq!(parse_batch_range("#7", "7"), Ok((7, 7)));
}

#[test]
fn batch_range_refusals() {
    assert_eq!(parse_batch_range("", "1FF"), Err(BatchRangeError::InvalidRange));
    assert_eq!(parse_batch_range("zz", "1"), Err(BatchRangeError::InvalidRange));
    assert_eq!(parse_batch_range("$0x10", "20"), Err(BatchRangeError::InvalidRange));
    assert_eq!(parse_batch_range("20", "10"), Err(BatchRangeError::OutOfRange));
    assert_eq!(parse_batch_range("0", "200"), Err(BatchRangeError::OutOfRange));
    assert_eq!(
        batch_range_message(BatchRangeError::InvalidRange),
        "Invalid level range — enter hex numbers like 000 and 1FF."
    );
    assert_eq!(batch_range_message(BatchRangeError::OutOfRange), "Range must satisfy 000 ≤ from ≤ to ≤ 1FF.");
}
