//! The censorship rule: a digit is censored exactly when it is strictly
//! smaller than the digit before it. The first digit is compared against a
//! sentinel minimum, so it is always kept.

use vstd::prelude::*;

verus! {

/// The byte written in place of a censored digit: ASCII `*`.
pub const CENSOR_MARKER: u8 = 42;

/// The sentinel value of the `previous` tracker before any digit has been
/// seen: ASCII `0`, the lowest digit byte, so the first digit is never
/// censored.
pub const SENTINEL_PREVIOUS: u8 = 48;

/// The value that the `previous` tracker holds when position `i` of `s` is
/// examined, censoring having started with the tracker at `prev0`: the byte
/// just before `i`, or `prev0` at the very start.
pub open spec fn previous_at(s: Seq<u8>, prev0: u8, i: int) -> u8 {
    if i == 0 {
        prev0
    } else {
        s[i - 1]
    }
}

/// Whether position `i` of `s` is censored: true exactly when the byte is
/// strictly smaller than the one before it.
pub open spec fn censored_at(s: Seq<u8>, prev0: u8, i: int) -> bool {
    s[i] < previous_at(s, prev0, i)
}

/// The censored form of `s`, starting with the `previous` tracker at
/// `prev0`: each censored position is replaced by the marker, every other
/// byte is kept unchanged.
pub open spec fn censored_seq(s: Seq<u8>, prev0: u8) -> Seq<u8> {
    Seq::new(s.len(), |i: int| if censored_at(s, prev0, i) { CENSOR_MARKER } else { s[i] })
}

/// How many positions of `s` are censored, starting with the `previous`
/// tracker at `prev0`.
pub open spec fn censored_count_seq(s: Seq<u8>, prev0: u8) -> nat
    decreases s.len(),
{
    if s.len() == 0 {
        0
    } else {
        (if s[0] < prev0 {
            1nat
        } else {
            0nat
        }) + censored_count_seq(s.skip(1), s[0])
    }
}

/// Censors one chunk of the suffix in place, threading the `previous`
/// tracker across the call so that successive chunks censor exactly as the
/// whole suffix would in one pass: each byte strictly smaller than its
/// predecessor is replaced by the marker, every byte (censored or not)
/// becomes the new `previous`, and the number of replacements is returned.
pub fn censor_pi_suffix_chunk(suffix: &mut [u8], previous: &mut u8) -> (count: usize)
    ensures
        final(suffix)@ == censored_seq(old(suffix)@, *old(previous)),
        *final(previous) == previous_at(old(suffix)@, *old(previous), old(suffix)@.len() as int),
        count == censored_count_seq(old(suffix)@, *old(previous)),
{
    let ghost orig: Seq<u8> = suffix@;
    let ghost p0: u8 = *previous;
    let mut count: usize = 0;
    let mut i: usize = 0;
    let n: usize = suffix.len();
    proof {
        assert(orig.skip(0) =~= orig);
    }
    while i < n
        invariant
            n == orig.len(),
            suffix@.len() == n,
            i <= n,
            count <= i,
            suffix@ == censored_seq(orig, p0).take(i as int) + orig.skip(i as int),
            *previous == previous_at(orig, p0, i as int),
            count + censored_count_seq(orig.skip(i as int), *previous) == censored_count_seq(
                orig,
                p0,
            ),
        decreases n - i,
    {
        proof {
            assert(orig.skip(i as int)[0] == orig[i as int]);
            assert(orig.skip(i as int).skip(1) =~= orig.skip(i as int + 1));
        }
        let b: u8 = suffix[i];
        let is_smaller_than_previous: bool = b < *previous;
        *previous = b;
        if is_smaller_than_previous {
            suffix[i] = CENSOR_MARKER;
            count = count + 1;
        }
        proof {
            assert(suffix@ =~= censored_seq(orig, p0).take(i as int + 1) + orig.skip(i as int + 1));
        }
        i = i + 1;
    }
    proof {
        assert(suffix@ =~= censored_seq(orig, p0));
        assert(orig.skip(n as int) =~= Seq::<u8>::empty());
    }
    count
}

/// No more positions are censored than there are positions.
pub proof fn lemma_count_le_len(s: Seq<u8>, prev0: u8)
    ensures
        censored_count_seq(s, prev0) <= s.len(),
    decreases s.len(),
{
    if s.len() > 0 {
        lemma_count_le_len(s.skip(1), s[0]);
    }
}

/// Chunking invariance: censoring a sequence in two chunks, with the
/// `previous` tracker threaded across the boundary, yields exactly the same
/// bytes and the same count as censoring the whole sequence in one pass.
/// The cut point — and hence any chunk size — is never observable.
pub proof fn lemma_chunked_censoring_equivalent(s: Seq<u8>, prev0: u8, k: int)
    requires
        0 <= k <= s.len(),
    ensures
        censored_seq(s, prev0) == censored_seq(s.take(k), prev0) + censored_seq(
            s.skip(k),
            previous_at(s, prev0, k),
        ),
        censored_count_seq(s, prev0) == censored_count_seq(s.take(k), prev0)
            + censored_count_seq(s.skip(k), previous_at(s, prev0, k)),
    decreases k,
{
    let head = censored_seq(s.take(k), prev0);
    let tail = censored_seq(s.skip(k), previous_at(s, prev0, k));
    assert forall|i: int| 0 <= i < s.len() implies (head + tail)[i] == censored_seq(s, prev0)[i] by {
        if i < k {
            assert(s.take(k)[i] == s[i]);
            if i > 0 {
                assert(s.take(k)[i - 1] == s[i - 1]);
            }
        } else {
            assert(s.skip(k)[i - k] == s[i]);
            if i > k {
                assert(s.skip(k)[i - k - 1] == s[i - 1]);
            }
        }
    }
    assert(censored_seq(s, prev0) =~= head + tail);
    if k == 0 {
        assert(s.take(0) =~= Seq::<u8>::empty());
        assert(s.skip(0) =~= s);
    } else {
        let t = s.skip(1);
        let p1 = s[0];
        lemma_chunked_censoring_equivalent(t, p1, k - 1);
        assert(t.take(k - 1) =~= s.take(k).skip(1));
        assert(t.skip(k - 1) =~= s.skip(k));
        assert(s.take(k)[0] == s[0]);
        if k == 1 {
            assert(previous_at(t, p1, 0) == previous_at(s, prev0, 1));
        } else {
            assert(t[k - 2] == s[k - 1]);
        }
    }
}

/// The first suffix digit is never censored: it is compared against the
/// sentinel minimum, and no digit byte is smaller than that.
pub proof fn lemma_first_digit_kept(s: Seq<u8>)
    requires
        s.len() > 0,
        SENTINEL_PREVIOUS <= s[0],
    ensures
        !censored_at(s, SENTINEL_PREVIOUS, 0),
        censored_seq(s, SENTINEL_PREVIOUS)[0] == s[0],
{
}

/// Two adjacent equal digits are never censored: only a strict decrease is.
pub proof fn lemma_equal_adjacent_kept(s: Seq<u8>, prev0: u8, i: int)
    requires
        0 < i < s.len(),
        s[i] == s[i - 1],
    ensures
        !censored_at(s, prev0, i),
        censored_seq(s, prev0)[i] == s[i],
{
}

} // verus!
