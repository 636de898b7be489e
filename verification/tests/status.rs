use synchronizer::status::BlockStatus;

#[test]
fn test_block_status() {
    let status1 = BlockStatus::FAILED_VALID();
    let status2 = BlockStatus::FAILED_CHILD();
    assert!((status1 & BlockStatus::FAILED_MASK()) == status1);
    assert!((status2 & BlockStatus::FAILED_MASK()) == status2);
}

#[test]
fn masks_are_unions() {
    assert_eq!(BlockStatus::VALID_MASK().bits, 1 | 2 | 3 | 4 | 5);
    assert_eq!(BlockStatus::BLOCK_HAVE_MASK().bits, 8 | 16);
    assert_eq!(BlockStatus::FAILED_MASK().bits, 32 | 64);
    assert_eq!(
        BlockStatus::FAILED_MASK() & BlockStatus::VALID_MASK(),
        BlockStatus::UNKNOWN()
    );
    assert_eq!(
        BlockStatus::VALID_SCRIPTS() & BlockStatus::VALID_CHAIN(),
        BlockStatus::VALID_CHAIN()
    );
}
