//! The byte-sequence validity check that decoding is built on.
use vstd::prelude::*;
use vstd::utf8::*;
use vstd::string::StringSliceAdditionalSpecFns;
use crate::well_formed::{is_partial, is_valid_up_to, maximal_subpart_len};

verus! {

/// Where and how a byte sequence fails to be valid UTF-8.
#[derive(Debug, Clone, Copy)]
pub struct Utf8Failure {
    /// Length of the longest valid prefix.
    pub valid_up_to: usize,
    /// Length of the ill-formed sequence that starts at `valid_up_to`, or
    /// `None` when the input ends inside a character that may still complete.
    pub error_len: Option<usize>,
}

/// Relies on `std::str::from_utf8`: `Ok` exactly on valid UTF-8, with the same
/// bytes; otherwise `Utf8Error::valid_up_to`, the longest valid prefix, and
/// `Utf8Error::error_len`, `None` when the input ends early inside a possibly
/// valid character (1 to 3 bytes from the end) and else the length of the
/// ill-formed sequence after which decoding resumes (the maximal subpart).
#[verifier::external_body]
pub(crate) fn from_utf8(input: &[u8]) -> (r: Result<&str, Utf8Failure>)
    ensures
        match r {
            Ok(s) => valid_utf8(input@) && s.spec_bytes() == input@,
            Err(e) => {
                let k = e.valid_up_to as int;
                let rest = input@.skip(k);
                &&& !valid_utf8(input@)
                &&& is_valid_up_to(input@, k)
                &&& match e.error_len {
                    None => is_partial(rest),
                    Some(n) => rest.len() > 0 && !is_partial(rest) && n == maximal_subpart_len(rest),
                }
            },
        },
{
    match std::str::from_utf8(input) {
        Ok(s) => Ok(s),
        Err(e) => Err(Utf8Failure { valid_up_to: e.valid_up_to(), error_len: e.error_len() }),
    }
}

} // verus!
