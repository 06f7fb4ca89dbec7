//! Validation of the input's leading structure, and the spec-level shape of
//! a censoring run's output: the input must split into the integer part `3`
//! and a fractional suffix at a single required separator; the output is
//! that unchanged prefix followed by the censored suffix.

use vstd::prelude::*;

use crate::rule::{
    censored_count_seq, censored_seq, lemma_equal_adjacent_kept, lemma_first_digit_kept,
    SENTINEL_PREVIOUS,
};

verus! {

/// The separator between the integer part and the fractional suffix:
/// ASCII `.`.
pub const SEPARATOR: u8 = 46;

/// The only accepted integer part, as its single byte: ASCII `3`.
pub const LEADING_DIGIT: u8 = 51;

/// How many bytes of the input precede the fractional suffix.
pub const PREFIX_LEN: usize = 2;

/// Whether the input holds a separator anywhere.
pub open spec fn contains_separator(s: Seq<u8>) -> bool {
    exists|i: int| 0 <= i < s.len() && s[i] == SEPARATOR
}

/// Whether the input is well formed: splitting it at the first separator
/// yields exactly the integer part `3`, which is the same as saying that it
/// begins with the two bytes `3.`. The fractional suffix may be empty.
pub open spec fn is_valid_input(s: Seq<u8>) -> bool {
    s.len() >= PREFIX_LEN && s[0] == LEADING_DIGIT && s[1] == SEPARATOR
}

/// The unchanged leading part of a valid input: the integer part and the
/// separator.
pub open spec fn prefix_of(s: Seq<u8>) -> Seq<u8> {
    s.take(PREFIX_LEN as int)
}

/// The part of the input subject to censorship: everything after the
/// separator.
pub open spec fn suffix_of(s: Seq<u8>) -> Seq<u8> {
    s.skip(PREFIX_LEN as int)
}

/// The bytes a censoring run writes for input `s`: the prefix unchanged,
/// then the censored suffix.
pub open spec fn censored_output(s: Seq<u8>) -> Seq<u8> {
    prefix_of(s) + censored_seq(suffix_of(s), SENTINEL_PREVIOUS)
}

/// The count a censoring run returns for input `s`: how many suffix
/// positions are censored.
pub open spec fn censored_count(s: Seq<u8>) -> nat {
    censored_count_seq(suffix_of(s), SENTINEL_PREVIOUS)
}

/// Whether `b` is an ASCII digit.
pub open spec fn is_ascii_digit(b: u8) -> bool {
    48 <= b <= 57
}

/// The first suffix character of a valid input is never censored: the
/// `previous` tracker starts at the sentinel minimum, and no digit is
/// smaller than that.
pub proof fn lemma_first_suffix_char_uncensored(s: Seq<u8>)
    requires
        is_valid_input(s),
        s.len() > PREFIX_LEN,
        is_ascii_digit(s[PREFIX_LEN as int]),
    ensures
        censored_output(s)[PREFIX_LEN as int] == s[PREFIX_LEN as int],
{
    lemma_first_digit_kept(suffix_of(s));
}

/// Two adjacent equal suffix characters are never censored: only a strict
/// decrease is.
pub proof fn lemma_equal_adjacent_uncensored(s: Seq<u8>, i: int)
    requires
        is_valid_input(s),
        PREFIX_LEN < i < s.len(),
        s[i] == s[i - 1],
    ensures
        censored_output(s)[i] == s[i],
{
    lemma_equal_adjacent_kept(suffix_of(s), SENTINEL_PREVIOUS, i - PREFIX_LEN);
}

/// The two ways an input can be malformed: it has no separator at all, or
/// the integer part before its first separator is not the single digit `3`.
#[derive(Clone, Copy, PartialEq, Eq, Structural, Debug)]
pub enum MalformedKind {
    MissingSeparator,
    WrongIntegerPart,
}

/// A censoring run's failure: the input is malformed (detected before
/// anything is written), or a sink write failed midway.
#[derive(Clone, Copy, PartialEq, Eq, Structural, Debug)]
pub enum CensorError {
    MalformedInput(MalformedKind),
    SinkWriteFailure,
}

/// Checks the input's leading structure: accepts exactly the well-formed
/// inputs, and tells a missing separator apart from a wrong integer part.
pub fn validate_input(pi: &[u8]) -> (r: Result<(), MalformedKind>)
    ensures
        r is Ok <==> is_valid_input(pi@),
        r matches Err(kind) ==> (kind == MalformedKind::MissingSeparator <==> !contains_separator(
            pi@,
        )),
{
    let n: usize = pi.len();
    let mut i: usize = 0;
    while i < n
        invariant
            i <= n,
            n == pi@.len(),
            forall|j: int| 0 <= j < i ==> pi@[j] != SEPARATOR,
        decreases n - i,
    {
        if pi[i] == SEPARATOR {
            if i == 1 && pi[0] == LEADING_DIGIT {
                return Ok(());
            } else {
                return Err(MalformedKind::WrongIntegerPart);
            }
        }
        i = i + 1;
    }
    Err(MalformedKind::MissingSeparator)
}

} // verus!
