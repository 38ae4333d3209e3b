use head::config::{select_mode, ConfigError, StopCondition};

#[test]
fn zero_line_count_is_rejected() {
    assert_eq!(select_mode(0, 0), Err(ConfigError::ZeroCount));
}

#[test]
fn zero_line_count_is_rejected_even_with_byte_count() {
    assert_eq!(select_mode(0, 3), Err(ConfigError::ZeroCount));
}

#[test]
fn unset_byte_count_degrades_to_line_mode() {
    assert_eq!(select_mode(10, 0), Ok(StopCondition::Lines(10)));
}

#[test]
fn nonzero_byte_count_selects_byte_mode() {
    assert_eq!(select_mode(10, 7), Ok(StopCondition::Bytes(7)));
}

#[test]
fn default_line_count_passes_through() {
    assert_eq!(select_mode(1, 0), Ok(StopCondition::Lines(1)));
}
