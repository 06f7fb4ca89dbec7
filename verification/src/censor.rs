//! The two censoring strategies. Both validate the input, write the
//! unchanged prefix and the censored suffix to the sink in order, and return
//! how many suffix positions were censored; they are proved to produce the
//! same bytes and the same count for every valid input, so the strategy —
//! and the chunk size of the bounded-memory one — is never observable.

use vstd::prelude::*;
use vstd::slice::slice_subrange;

use crate::input::{
    censored_count, censored_output, contains_separator, is_valid_input, suffix_of, validate_input,
    CensorError, MalformedKind, PREFIX_LEN,
};
use crate::rule::{
    censor_pi_suffix_chunk, censored_count_seq, censored_seq, lemma_chunked_censoring_equivalent,
    lemma_count_le_len, previous_at, CENSOR_MARKER, SENTINEL_PREVIOUS,
};
use crate::sink::ByteSink;

verus! {

/// The shared contract of both censoring strategies, relating the input,
/// the sink's contents before (`pre`) and after (`post`) the run, and the
/// run's result. On success the sink received exactly the unchanged prefix
/// followed by the censored suffix, and the count of censored positions is
/// returned; on malformed input nothing was written and the error tells a
/// missing separator apart from a wrong integer part; on a write failure
/// the sink received some leading part of that same output and nothing
/// else. Both strategies ensure this one predicate, so for every valid
/// input they produce byte-identical output and identical counts.
pub open spec fn censor_run_spec(
    input: Seq<u8>,
    pre: Seq<u8>,
    post: Seq<u8>,
    r: Result<usize, CensorError>,
) -> bool {
    &&& (r matches Ok(count) ==> {
        &&& is_valid_input(input)
        &&& post == pre + censored_output(input)
        &&& count == censored_count(input)
    })
    &&& (r == Result::<usize, CensorError>::Err(CensorError::SinkWriteFailure) ==> {
        &&& is_valid_input(input)
        &&& exists|k: int|
            0 <= k <= censored_output(input).len() && post == pre + censored_output(input).take(k)
    })
    &&& (r matches Err(CensorError::MalformedInput(kind)) ==> {
        &&& !is_valid_input(input)
        &&& post == pre
        &&& (kind == MalformedKind::MissingSeparator <==> !contains_separator(input))
    })
}

/// Any two successful censoring runs on the same input, started from the
/// same sink contents, write exactly the same bytes and return exactly the
/// same count — in particular a materializing run and a bounded-memory run
/// at any chunk size, since both strategies ensure the shared contract.
pub proof fn lemma_successful_runs_agree(
    input: Seq<u8>,
    pre: Seq<u8>,
    post1: Seq<u8>,
    post2: Seq<u8>,
    r1: Result<usize, CensorError>,
    r2: Result<usize, CensorError>,
)
    requires
        censor_run_spec(input, pre, post1, r1),
        censor_run_spec(input, pre, post2, r2),
        r1 is Ok,
        r2 is Ok,
    ensures
        post1 == post2,
        r1->Ok_0 == r2->Ok_0,
{
}

/// A malformed input fails before anything is written, whatever the
/// strategy: a run that meets the shared contract on an invalid input
/// leaves the sink exactly as it was and reports the malformed input.
pub proof fn lemma_malformed_input_writes_nothing(
    input: Seq<u8>,
    pre: Seq<u8>,
    post: Seq<u8>,
    r: Result<usize, CensorError>,
)
    requires
        censor_run_spec(input, pre, post, r),
        !is_valid_input(input),
    ensures
        post == pre,
        r matches Err(CensorError::MalformedInput(_)),
{
}

/// The chunk size the bounded-memory strategy uses when none is given.
pub const DEFAULT_CHUNK_SIZE: usize = 4096;

/// Censors the digits of pi by materializing: builds the whole censored
/// suffix in one owned buffer, then performs two ordered writes — the
/// unchanged prefix, then the censored suffix. Returns the count of
/// censored positions; a malformed input fails before anything is written,
/// and a failed write aborts the run with the output truncated mid-way.
pub fn write_censored_digits_of_pi_iterative<S: ByteSink>(pi: &[u8], output: &mut S) -> (r: Result<
    usize,
    CensorError,
>)
    ensures
        censor_run_spec(pi@, old(output).contents(), final(output).contents(), r),
        is_valid_input(pi@) && old(output).infallible() ==> r is Ok,
{
    match validate_input(pi) {
        Err(kind) => {
            return Err(CensorError::MalformedInput(kind));
        },
        Ok(_) => {},
    }
    let n: usize = pi.len();
    let suffix: &[u8] = slice_subrange(pi, PREFIX_LEN, n);
    let ghost suf: Seq<u8> = suffix@;
    proof {
        assert(suf =~= suffix_of(pi@));
        assert(suf.skip(0) =~= suf);
    }
    let mut censored: Vec<u8> = Vec::new();
    let mut previous: u8 = SENTINEL_PREVIOUS;
    let mut count: usize = 0;
    let mut i: usize = 0;
    let m: usize = suffix.len();
    while i < m
        invariant
            i <= m,
            m == suf.len(),
            suffix@ == suf,
            count <= i,
            censored@ == censored_seq(suf, SENTINEL_PREVIOUS).take(i as int),
            previous == previous_at(suf, SENTINEL_PREVIOUS, i as int),
            count + censored_count_seq(suf.skip(i as int), previous) == censored_count_seq(
                suf,
                SENTINEL_PREVIOUS,
            ),
        decreases m - i,
    {
        proof {
            assert(suf.skip(i as int)[0] == suf[i as int]);
            assert(suf.skip(i as int).skip(1) =~= suf.skip(i as int + 1));
        }
        let c: u8 = suffix[i];
        let is_smaller_than_previous: bool = c < previous;
        previous = c;
        if is_smaller_than_previous {
            count = count + 1;
            censored.push(CENSOR_MARKER);
        } else {
            censored.push(c);
        }
        proof {
            assert(censored@ =~= censored_seq(suf, SENTINEL_PREVIOUS).take(i as int + 1));
        }
        i = i + 1;
    }
    proof {
        assert(censored@ =~= censored_seq(suf, SENTINEL_PREVIOUS));
        assert(suf.skip(m as int) =~= Seq::<u8>::empty());
    }
    let prefix: &[u8] = slice_subrange(pi, 0, PREFIX_LEN);
    match output.write(prefix) {
        Err(_) => {
            proof {
                let k = choose|k: int|
                    0 <= k <= prefix@.len() && output.contents() == old(output).contents()
                        + prefix@.take(k);
                assert(prefix@.take(k) =~= censored_output(pi@).take(k));
                assert(output.contents() =~= old(output).contents() + censored_output(pi@).take(
                    k,
                ));
            }
            return Err(CensorError::SinkWriteFailure);
        },
        Ok(_) => {},
    }
    match output.write(censored.as_slice()) {
        Err(_) => {
            proof {
                let k = choose|k: int|
                    0 <= k <= censored@.len() && output.contents() == (old(output).contents()
                        + prefix@) + censored@.take(k);
                assert(output.contents() =~= old(output).contents() + censored_output(pi@).take(
                    PREFIX_LEN + k,
                ));
            }
            return Err(CensorError::SinkWriteFailure);
        },
        Ok(_) => {},
    }
    proof {
        assert(output.contents() =~= old(output).contents() + censored_output(pi@));
    }
    Ok(count)
}

/// Censors the digits of pi with the default chunk size of the
/// bounded-memory strategy.
pub fn write_censored_digits_of_pi_inplace<S: ByteSink>(pi: &[u8], output: &mut S) -> (r: Result<
    usize,
    CensorError,
>)
    ensures
        censor_run_spec(pi@, old(output).contents(), final(output).contents(), r),
        is_valid_input(pi@) && old(output).infallible() ==> r is Ok,
{
    write_censored_digits_of_pi_inplace_with_chunk_size(pi, output, DEFAULT_CHUNK_SIZE)
}

/// Censors the digits of pi in bounded memory: writes the unchanged prefix,
/// then censors successive chunks of up to `chunk_size` suffix bytes in one
/// reusable buffer, writing each censored chunk before the next is read.
/// The `previous` tracker is threaded across chunk boundaries, so the bytes
/// written and the returned count are identical to the materializing
/// strategy's for every chunk size.
#[verifier::rlimit(60)]
pub fn write_censored_digits_of_pi_inplace_with_chunk_size<S: ByteSink>(
    pi: &[u8],
    output: &mut S,
    chunk_size: usize,
) -> (r: Result<usize, CensorError>)
    requires
        chunk_size >= 1,
    ensures
        censor_run_spec(pi@, old(output).contents(), final(output).contents(), r),
        is_valid_input(pi@) && old(output).infallible() ==> r is Ok,
{
    match validate_input(pi) {
        Err(kind) => {
            return Err(CensorError::MalformedInput(kind));
        },
        Ok(_) => {},
    }
    let ghost start: Seq<u8> = output.contents();
    let ghost was_infallible: bool = output.infallible();
    let prefix: &[u8] = slice_subrange(pi, 0, PREFIX_LEN);
    match output.write(prefix) {
        Err(_) => {
            proof {
                let k = choose|k: int|
                    0 <= k <= prefix@.len() && output.contents() == start + prefix@.take(k);
                assert(prefix@.take(k) =~= censored_output(pi@).take(k));
                assert(output.contents() =~= start + censored_output(pi@).take(k));
            }
            return Err(CensorError::SinkWriteFailure);
        },
        Ok(_) => {},
    }
    let n: usize = pi.len();
    let ghost suf: Seq<u8> = suffix_of(pi@);
    let ghost total: Seq<u8> = censored_output(pi@);
    proof {
        assert(suf.skip(0) =~= suf);
        assert(prefix@ =~= total.take(PREFIX_LEN as int));
    }
    let mut buffer: Vec<u8> = Vec::new();
    let mut pos: usize = PREFIX_LEN;
    let mut previous: u8 = SENTINEL_PREVIOUS;
    let mut count: usize = 0;
    #[verifier::loop_isolation(false)]
    while pos < n
        invariant
            chunk_size >= 1,
            PREFIX_LEN <= pos <= n,
            n == pi@.len(),
            is_valid_input(pi@),
            suf == suffix_of(pi@),
            total == censored_output(pi@),
            total.len() == n,
            count <= pos - PREFIX_LEN,
            previous == previous_at(suf, SENTINEL_PREVIOUS, pos - PREFIX_LEN),
            count + censored_count_seq(suf.skip(pos - PREFIX_LEN), previous) == censored_count(
                pi@,
            ),
            output.contents() == start + total.take(pos as int),
            was_infallible ==> output.infallible(),
        decreases n - pos,
    {
        let len: usize = if n - pos < chunk_size {
            n - pos
        } else {
            chunk_size
        };
        let ghost j: int = pos - PREFIX_LEN;
        let chunk: &[u8] = slice_subrange(pi, pos, pos + len);
        buffer.clear();
        buffer.extend_from_slice(chunk);
        proof {
            assert(buffer@ =~= suf.skip(j).take(len as int));
        }
        let ghost chunk_seq: Seq<u8> = buffer@;
        let ghost prev_before: u8 = previous;
        let chunk_count: usize = censor_pi_suffix_chunk(buffer.as_mut_slice(), &mut previous);
        proof {
            lemma_count_le_len(chunk_seq, prev_before);
            lemma_chunked_censoring_equivalent(suf.skip(j), prev_before, len as int);
            assert(suf.skip(j).skip(len as int) =~= suf.skip(j + len));
            assert(suf.skip(j)[len - 1] == suf[j + len - 1]);
            assert(chunk_seq[len - 1] == suf[j + len - 1]);
        }
        count = count + chunk_count;
        match output.write(buffer.as_slice()) {
            Err(_) => {
                proof {
                    let k = choose|k: int|
                        0 <= k <= buffer@.len() && output.contents() == start + total.take(
                            pos as int,
                        ) + buffer@.take(k);
                    assert(censored_seq(suf, SENTINEL_PREVIOUS).take(j) + censored_seq(
                        suf.skip(j),
                        prev_before,
                    ) =~= censored_seq(suf, SENTINEL_PREVIOUS)) by {
                        lemma_chunked_censoring_equivalent(suf, SENTINEL_PREVIOUS, j);
                        assert(censored_seq(suf.take(j), SENTINEL_PREVIOUS) =~= censored_seq(
                            suf,
                            SENTINEL_PREVIOUS,
                        ).take(j));
                    }
                    assert(total.take(pos as int) + buffer@.take(k) =~= total.take(pos + k));
                    assert(output.contents() =~= start + total.take(pos + k));
                }
                return Err(CensorError::SinkWriteFailure);
            },
            Ok(_) => {},
        }
        proof {
            assert(censored_seq(suf, SENTINEL_PREVIOUS).take(j) + censored_seq(
                suf.skip(j),
                prev_before,
            ) =~= censored_seq(suf, SENTINEL_PREVIOUS)) by {
                lemma_chunked_censoring_equivalent(suf, SENTINEL_PREVIOUS, j);
                assert(censored_seq(suf.take(j), SENTINEL_PREVIOUS) =~= censored_seq(
                    suf,
                    SENTINEL_PREVIOUS,
                ).take(j));
            }
            assert(total.take(pos as int) + buffer@ =~= total.take(pos + len));
            assert(output.contents() =~= start + total.take(pos + len));
        }
        pos = pos + len;
    }
    proof {
        assert(suf.skip(n - PREFIX_LEN) =~= Seq::<u8>::empty());
        assert(total.take(n as int) =~= total);
    }
    Ok(count)
}

} // verus!
