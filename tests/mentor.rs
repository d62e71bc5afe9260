use inplace::is_valid;

#[test]
fn test_is_valid() {
    assert!(is_valid(0x00));
    assert!(is_valid(0x04));
    assert!(!is_valid(0x05));
}
