use censoredpi::censor::{
    write_censored_digits_of_pi_inplace_with_chunk_size, write_censored_digits_of_pi_iterative,
};
use censoredpi::input::CensorError;
use censoredpi::rule::censor_pi_suffix_chunk;
use censoredpi::sink::{BoundedSink, ByteSink, VecSink};

#[test]
fn vec_sink_accepts_ordered_writes() {
    let mut sink = VecSink::new();
    assert!(sink.write(b"3.").is_ok());
    assert!(sink.write(b"14").is_ok());
    assert_eq!(b"3.14".to_vec(), *sink.bytes());
}

#[test]
fn bounded_sink_fails_after_its_budget() {
    let mut sink = BoundedSink::new(1);
    assert!(sink.write(b"3.").is_ok());
    assert!(sink.write(b"14").is_err());
    assert_eq!(b"3.".to_vec(), *sink.bytes());
}

#[test]
fn iterative_write_failure_before_any_write() {
    let mut sink = BoundedSink::new(0);
    let result = write_censored_digits_of_pi_iterative(b"3.1415", &mut sink);
    assert_eq!(result, Err(CensorError::SinkWriteFailure));
    assert_eq!(0, sink.bytes().len());
}

#[test]
fn iterative_write_failure_keeps_partial_output() {
    // The prefix write succeeds, the suffix write fails: the sink keeps the
    // prefix, and the run surfaces the failure.
    let mut sink = BoundedSink::new(1);
    let result = write_censored_digits_of_pi_iterative(b"3.1415", &mut sink);
    assert_eq!(result, Err(CensorError::SinkWriteFailure));
    assert_eq!(b"3.".to_vec(), *sink.bytes());
}

#[test]
fn inplace_write_failure_aborts_remaining_chunks() {
    // With one-byte chunks and a budget of two writes, the prefix and the
    // first censored chunk are accepted, then the run stops.
    let mut sink = BoundedSink::new(2);
    let result = write_censored_digits_of_pi_inplace_with_chunk_size(b"3.1415", &mut sink, 1);
    assert_eq!(result, Err(CensorError::SinkWriteFailure));
    assert_eq!(b"3.1".to_vec(), *sink.bytes());
}

#[test]
fn chunk_censoring_threads_previous_across_calls() {
    // Censoring "14" then "15" in two calls must match censoring "1415" in
    // one: the second call's first decision depends on the byte the first
    // call ended with.
    let mut previous = b'0';
    let mut first = vec![b'1', b'4'];
    let mut second = vec![b'1', b'5'];
    let first_count = censor_pi_suffix_chunk(first.as_mut_slice(), &mut previous);
    let second_count = censor_pi_suffix_chunk(second.as_mut_slice(), &mut previous);
    assert_eq!(0, first_count);
    assert_eq!(1, second_count);
    assert_eq!(vec![b'1', b'4'], first);
    assert_eq!(vec![b'*', b'5'], second);
    assert_eq!(b'5', previous);

    let mut previous = b'0';
    let mut whole = vec![b'1', b'4', b'1', b'5'];
    let whole_count = censor_pi_suffix_chunk(whole.as_mut_slice(), &mut previous);
    assert_eq!(1, whole_count);
    assert_eq!(vec![b'1', b'4', b'*', b'5'], whole);
    assert_eq!(b'5', previous);
}

#[test]
fn empty_chunk_leaves_previous_unchanged() {
    let mut previous = b'7';
    let mut empty: Vec<u8> = Vec::new();
    let count = censor_pi_suffix_chunk(empty.as_mut_slice(), &mut previous);
    assert_eq!(0, count);
    assert_eq!(b'7', previous);
    assert!(empty.is_empty());
}
