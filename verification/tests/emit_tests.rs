use head::config::StopCondition;
use head::emit::{byte_mode_output, emit, line_mode_output};

#[test]
fn scenario_first_two_of_three_lines() {
    let input: Vec<u8> = b"alpha\nbeta\ngamma\n".to_vec();
    let out = line_mode_output(&input, 2);
    assert_eq!(out, b"alpha\nbeta\n".to_vec());
}

#[test]
fn scenario_five_bytes_of_hello() {
    let input: Vec<u8> = b"hello world".to_vec();
    let out = byte_mode_output(&input, 5);
    assert_eq!(out, b"hello".to_vec());
}

#[test]
fn scenario_count_exceeds_lines() {
    let input: Vec<u8> = b"one\ntwo\n".to_vec();
    let out = line_mode_output(&input, 10);
    assert_eq!(out, b"one\ntwo\n".to_vec());
}

#[test]
fn count_exceeds_unterminated_lines() {
    let input: Vec<u8> = b"one\ntwo".to_vec();
    let out = line_mode_output(&input, 10);
    assert_eq!(out, b"one\ntwo\n".to_vec());
}

#[test]
fn final_record_without_newline_counts() {
    let input: Vec<u8> = b"a\nb".to_vec();
    let out = line_mode_output(&input, 2);
    assert_eq!(out, b"a\nb\n".to_vec());
}

#[test]
fn byte_count_exceeds_input() {
    let input: Vec<u8> = b"abc".to_vec();
    let out = byte_mode_output(&input, 100);
    assert_eq!(out, b"abc".to_vec());
}

#[test]
fn empty_input_yields_empty_output() {
    let input: Vec<u8> = Vec::new();
    assert_eq!(line_mode_output(&input, 3), Vec::<u8>::new());
    assert_eq!(byte_mode_output(&input, 3), Vec::<u8>::new());
}

#[test]
fn newline_only_records_are_lines() {
    let input: Vec<u8> = b"\n\n\n".to_vec();
    let out = line_mode_output(&input, 2);
    assert_eq!(out, b"\n\n".to_vec());
}

#[test]
fn line_mode_passes_raw_bytes_through() {
    let input: Vec<u8> = vec![0xff, 0xfe, b'\n', 0x80, b'\n', 0x00];
    let out = line_mode_output(&input, 2);
    assert_eq!(out, vec![0xff, 0xfe, b'\n', 0x80, b'\n']);
}

#[test]
fn byte_mode_keeps_embedded_newlines_and_raw_bytes() {
    let input: Vec<u8> = vec![0xff, 0x00, b'\n', 0x80, b'q'];
    let out = byte_mode_output(&input, 4);
    assert_eq!(out, vec![0xff, 0x00, b'\n', 0x80]);
}

#[test]
fn byte_mode_copies_across_chunk_boundary() {
    let input: Vec<u8> = (0..5000u32).map(|i| (i % 251) as u8).collect();
    let out = byte_mode_output(&input, 4500);
    assert_eq!(out.len(), 4500);
    assert_eq!(out[..], input[..4500]);
}

#[test]
fn byte_mode_budget_beyond_chunked_input() {
    let input: Vec<u8> = (0..5000u32).map(|i| (i % 13) as u8).collect();
    let out = byte_mode_output(&input, 60000);
    assert_eq!(out, input);
}

#[test]
fn emit_dispatches_on_stop_condition() {
    let input: Vec<u8> = b"ab\ncd\n".to_vec();
    assert_eq!(emit(&input, StopCondition::Lines(1)), b"ab\n".to_vec());
    assert_eq!(emit(&input, StopCondition::Bytes(1)), b"a".to_vec());
}

#[test]
fn emit_twice_yields_identical_output() {
    let input: Vec<u8> = b"alpha\nbeta\ngamma".to_vec();
    let first = emit(&input, StopCondition::Lines(2));
    let second = emit(&input, StopCondition::Lines(2));
    assert_eq!(first, second);
    let first_bytes = emit(&input, StopCondition::Bytes(7));
    let second_bytes = emit(&input, StopCondition::Bytes(7));
    assert_eq!(first_bytes, second_bytes);
}

#[test]
fn single_line_exact_count() {
    let input: Vec<u8> = b"only\n".to_vec();
    let out = line_mode_output(&input, 1);
    assert_eq!(out, b"only\n".to_vec());
}

#[test]
fn byte_count_exactly_input_length() {
    let input: Vec<u8> = b"hello world".to_vec();
    let out = byte_mode_output(&input, 11);
    assert_eq!(out, input);
}
