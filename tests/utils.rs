use eft::error::TransferError;
use eft::utils::{rstrip_null, split_fragments, Flags};

#[test]
fn flags_start_empty() {
    let f = Flags::new();
    assert_eq!(f.isset(0), Ok(false));
    assert_eq!(f.isset(319), Ok(false));
    assert_eq!(f.get_length(), Err(TransferError::LengthUnset));
    assert!(!f.isallset());
}

#[test]
fn flags_set_and_query() {
    let mut f = Flags::new();
    assert_eq!(f.set(0), Ok(()));
    assert_eq!(f.set(33), Ok(()));
    assert_eq!(f.set(319), Ok(()));
    assert_eq!(f.isset(0), Ok(true));
    assert_eq!(f.isset(1), Ok(false));
    assert_eq!(f.isset(32), Ok(false));
    assert_eq!(f.isset(33), Ok(true));
    assert_eq!(f.isset(319), Ok(true));
}

#[test]
fn flags_offset_errors() {
    let mut f = Flags::new();
    assert_eq!(f.set(320), Err(TransferError::Offset));
    assert_eq!(f.isset(320), Err(TransferError::Offset));
    assert_eq!(f.set_length(321), Err(TransferError::Offset));
    assert_eq!(f.set_length(320), Ok(()));
    assert_eq!(f.get_length(), Ok(320));
}

#[test]
fn flags_isallset_needs_length_and_all_bits() {
    let mut f = Flags::new();
    f.set(0).unwrap();
    f.set(1).unwrap();
    assert!(!f.isallset());
    f.set_length(3).unwrap();
    assert!(!f.isallset());
    f.set(2).unwrap();
    assert!(f.isallset());
    f.set_length(0).unwrap();
    assert!(f.isallset());
}

#[test]
fn rstrip_null_removes_trailing_zeros_only() {
    let mut v = vec![0u8, 1, 0, 2, 0, 0, 0];
    rstrip_null(&mut v);
    assert_eq!(v, vec![0u8, 1, 0, 2]);
    let mut z = vec![0u8, 0];
    rstrip_null(&mut z);
    assert!(z.is_empty());
    let mut n = vec![5u8];
    rstrip_null(&mut n);
    assert_eq!(n, vec![5u8]);
}

#[test]
fn split_with_remainder() {
    let data: Vec<u8> = (0u8..12).collect();
    let parts = split_fragments(&data, 13);
    assert_eq!(parts, vec![vec![0u8, 1, 2, 3, 4], vec![5u8, 6, 7, 8, 9], vec![10u8, 11]]);
}

#[test]
fn split_exact_multiple_has_full_last_piece() {
    let data: Vec<u8> = (0u8..10).collect();
    let parts = split_fragments(&data, 13);
    assert_eq!(parts.len(), 2);
    assert_eq!(parts[1], vec![5u8, 6, 7, 8, 9]);
}

#[test]
fn split_empty_file_gives_nothing() {
    let parts = split_fragments(&Vec::new(), 13);
    assert!(parts.is_empty());
}
