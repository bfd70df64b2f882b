use sqids_codec::error::Error;
use sqids_codec::utils::{process_min_length, process_numbers};

#[test]
fn min_length_in_range_is_accepted() {
    assert_eq!(process_min_length(0), Ok(0u8));
    assert_eq!(process_min_length(10), Ok(10u8));
    assert_eq!(process_min_length(255), Ok(255u8));
}

#[test]
fn min_length_out_of_range_is_rejected() {
    assert_eq!(process_min_length(-1), Err(Error::MinLengthRange));
    assert_eq!(process_min_length(256), Err(Error::MinLengthRange));
    assert_eq!(process_min_length(i16::MIN), Err(Error::MinLengthRange));
    assert_eq!(process_min_length(i16::MAX), Err(Error::MinLengthRange));
}

#[test]
fn numbers_are_widened_and_nulls_become_zero() {
    let r = process_numbers(&vec![Some(1), None, Some(3)]);
    assert_eq!(r, Ok(vec![1u64, 0, 3]));
    assert_eq!(process_numbers(&vec![]), Ok(vec![]));
    assert_eq!(process_numbers(&vec![Some(i64::MAX)]), Ok(vec![i64::MAX as u64]));
}

#[test]
fn negative_numbers_are_rejected() {
    assert_eq!(process_numbers(&vec![Some(-1)]), Err(Error::NegativeNumbers));
    assert_eq!(process_numbers(&vec![Some(1), Some(-5), Some(2)]), Err(Error::NegativeNumbers));
}
