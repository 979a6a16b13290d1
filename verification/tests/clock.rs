use bale::archive::model::system_time_to_millis;

#[test]
fn clock_reading_after_epoch_is_positive() {
    assert_eq!(system_time_to_millis(false, 1500), 1500);
    assert_eq!(system_time_to_millis(false, 0), 0);
}

#[test]
fn clock_reading_before_epoch_is_negative() {
    assert_eq!(system_time_to_millis(true, 1500), -1500);
}

#[test]
fn clock_reading_saturates_beyond_i64() {
    assert_eq!(system_time_to_millis(false, u128::MAX), i64::MAX);
    assert_eq!(system_time_to_millis(true, u128::MAX), i64::MIN);
    assert_eq!(system_time_to_millis(false, i64::MAX as u128), i64::MAX);
}
