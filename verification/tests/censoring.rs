use censoredpi::censor::{
    write_censored_digits_of_pi_inplace, write_censored_digits_of_pi_inplace_with_chunk_size,
    write_censored_digits_of_pi_iterative, DEFAULT_CHUNK_SIZE,
};
use censoredpi::input::{CensorError, MalformedKind};
use censoredpi::sink::VecSink;

#[test]
fn inplace_ok() {
    let input = "3.1415926535897932384626433";
    let expected_output = "3.14*59*6**589*9**38*6*6**3";

    let mut output_buffer = VecSink::new();

    let censored_count =
        write_censored_digits_of_pi_inplace(input.as_bytes(), &mut output_buffer).unwrap();

    assert_eq!(11, censored_count);

    let output_string = String::from_utf8(output_buffer.into_bytes()).unwrap();

    assert_eq!(output_string.as_str(), expected_output);
}

#[test]
fn iterative_ok() {
    let input = "3.1415926535897932384626433";
    let expected_output = "3.14*59*6**589*9**38*6*6**3";

    let mut output_buffer = VecSink::new();

    let censored_count =
        write_censored_digits_of_pi_iterative(input.as_bytes(), &mut output_buffer).unwrap();

    assert_eq!(11, censored_count);

    let output_string = String::from_utf8(output_buffer.into_bytes()).unwrap();

    assert_eq!(output_string.as_str(), expected_output);
}

#[test]
fn chunk_sizes_are_not_observable() {
    let input = "3.1415926535897932384626433";
    let whole_remainder = input.len();

    let mut iterative_sink = VecSink::new();
    let iterative_count =
        write_censored_digits_of_pi_iterative(input.as_bytes(), &mut iterative_sink).unwrap();
    let iterative_bytes = iterative_sink.into_bytes();

    for chunk_size in [1, 2, 3, DEFAULT_CHUNK_SIZE, whole_remainder] {
        let mut chunked_sink = VecSink::new();
        let chunked_count = write_censored_digits_of_pi_inplace_with_chunk_size(
            input.as_bytes(),
            &mut chunked_sink,
            chunk_size,
        )
        .unwrap();
        assert_eq!(iterative_count, chunked_count);
        assert_eq!(&iterative_bytes, chunked_sink.bytes());
    }
}

#[test]
fn missing_separator_fails_before_any_write() {
    let input = "314159";

    let mut iterative_sink = VecSink::new();
    let iterative_result = write_censored_digits_of_pi_iterative(input.as_bytes(), &mut iterative_sink);
    assert_eq!(
        iterative_result,
        Err(CensorError::MalformedInput(MalformedKind::MissingSeparator))
    );
    assert_eq!(0, iterative_sink.bytes().len());

    let mut inplace_sink = VecSink::new();
    let inplace_result = write_censored_digits_of_pi_inplace(input.as_bytes(), &mut inplace_sink);
    assert_eq!(
        inplace_result,
        Err(CensorError::MalformedInput(MalformedKind::MissingSeparator))
    );
    assert_eq!(0, inplace_sink.bytes().len());
}

#[test]
fn wrong_integer_part_fails_before_any_write() {
    for input in ["2.718", ".5", "33.3"] {
        let mut sink = VecSink::new();
        let result = write_censored_digits_of_pi_iterative(input.as_bytes(), &mut sink);
        assert_eq!(
            result,
            Err(CensorError::MalformedInput(MalformedKind::WrongIntegerPart))
        );
        assert_eq!(0, sink.bytes().len());

        let mut sink = VecSink::new();
        let result = write_censored_digits_of_pi_inplace(input.as_bytes(), &mut sink);
        assert_eq!(
            result,
            Err(CensorError::MalformedInput(MalformedKind::WrongIntegerPart))
        );
        assert_eq!(0, sink.bytes().len());
    }
}

#[test]
fn empty_input_is_missing_separator() {
    let mut sink = VecSink::new();
    let result = write_censored_digits_of_pi_iterative(b"", &mut sink);
    assert_eq!(
        result,
        Err(CensorError::MalformedInput(MalformedKind::MissingSeparator))
    );
    assert_eq!(0, sink.bytes().len());
}

#[test]
fn single_suffix_digit_is_kept() {
    for run in [
        write_censored_digits_of_pi_iterative::<VecSink>,
        write_censored_digits_of_pi_inplace::<VecSink>,
    ] {
        let mut sink = VecSink::new();
        let count = run(b"3.0", &mut sink).unwrap();
        assert_eq!(0, count);
        assert_eq!(b"3.0".to_vec(), *sink.bytes());
    }
}

#[test]
fn empty_suffix_yields_just_the_prefix() {
    for run in [
        write_censored_digits_of_pi_iterative::<VecSink>,
        write_censored_digits_of_pi_inplace::<VecSink>,
    ] {
        let mut sink = VecSink::new();
        let count = run(b"3.", &mut sink).unwrap();
        assert_eq!(0, count);
        assert_eq!(b"3.".to_vec(), *sink.bytes());
    }
}

#[test]
fn equal_adjacent_digits_are_never_censored() {
    for run in [
        write_censored_digits_of_pi_iterative::<VecSink>,
        write_censored_digits_of_pi_inplace::<VecSink>,
    ] {
        let mut sink = VecSink::new();
        let count = run(b"3.1122334455", &mut sink).unwrap();
        assert_eq!(0, count);
        assert_eq!(b"3.1122334455".to_vec(), *sink.bytes());
    }
}

#[test]
fn strict_decreases_are_all_censored() {
    for run in [
        write_censored_digits_of_pi_iterative::<VecSink>,
        write_censored_digits_of_pi_inplace::<VecSink>,
    ] {
        let mut sink = VecSink::new();
        let count = run(b"3.9876543210", &mut sink).unwrap();
        assert_eq!(9, count);
        assert_eq!(b"3.9*********".to_vec(), *sink.bytes());
    }
}

#[test]
fn first_suffix_digit_is_kept_even_when_low() {
    // The first suffix digit is compared against the sentinel minimum, so
    // even a zero is kept.
    for run in [
        write_censored_digits_of_pi_iterative::<VecSink>,
        write_censored_digits_of_pi_inplace::<VecSink>,
    ] {
        let mut sink = VecSink::new();
        let count = run(b"3.09", &mut sink).unwrap();
        assert_eq!(0, count);
        assert_eq!(b"3.09".to_vec(), *sink.bytes());
    }
}
