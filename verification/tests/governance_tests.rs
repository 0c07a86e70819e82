use corridor_oracle::governance::{verify_block_height, verify_staged_delay};

#[test]
fn test_verify_block_height() {
    // Strictly greater target height should be valid
    assert!(verify_block_height(101, 100));
    // Equal target height should be invalid
    assert!(!verify_block_height(100, 100));
    // Less than target height should be invalid
    assert!(!verify_block_height(99, 100));
}

#[test]
fn staged_delay_needs_full_delay() {
    assert!(verify_staged_delay(100, 5100));
    assert!(!verify_staged_delay(100, 5099));
    assert!(verify_staged_delay(100, 9000));
    // A current ledger before the staging ledger counts as no delay.
    assert!(!verify_staged_delay(6000, 10));
    assert!(!verify_staged_delay(0, 0));
}
