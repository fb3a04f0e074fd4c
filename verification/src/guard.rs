//! Encoding-sanity heuristic gating the pipeline.
//!
//! The pipeline aborts when the ratio of byte count to non-NUL character
//! count reaches two, the signature of a 16-bit text encoding. This is a
//! heuristic, not a detector.

use vstd::prelude::*;
use vstd::string::StrSliceExecFns;
use crate::errors::FastaError;

verus! {

/// Number of characters other than NUL.
pub open spec fn count_non_nul(s: Seq<char>) -> nat
    decreases s.len(),
{
    if s.len() == 0 {
        0
    } else {
        (if s[0] == '\u{0}' {
            0nat
        } else {
            1nat
        }) + count_non_nul(s.drop_first())
    }
}

/// The heuristic itself: with characters present, suspect when bytes
/// reach twice the characters; with none, suspect exactly when there are
/// bytes at all.
pub open spec fn multibyte_suspect(bytes: int, chars: int) -> bool {
    if chars > 0 {
        bytes >= 2 * chars
    } else {
        bytes > 0
    }
}

/// Counts the characters of a text, NUL excluded.
pub fn count_non_nul_chars(s: &str) -> (n: usize)
    ensures
        n == count_non_nul(s@),
{
    let len = s.unicode_len();
    let mut n: usize = 0;
    let mut i: usize = 0;
    proof {
        assert(s@.skip(0) =~= s@);
    }
    while i < len
        invariant
            len == s@.len(),
            i <= len,
            n <= i,
            count_non_nul(s@) == n + count_non_nul(s@.skip(i as int)),
        decreases len - i,
    {
        let c = s.get_char(i);
        proof {
            assert(s@.skip(i as int)[0] == s@[i as int]);
            assert(s@.skip(i as int).drop_first() =~= s@.skip(i as int + 1));
        }
        if c != '\u{0}' {
            n = n + 1;
        }
        i = i + 1;
    }
    proof {
        assert(s@.skip(len as int) =~= Seq::<char>::empty());
    }
    n
}

/// Accepts the input exactly when the byte/character ratio does not
/// suggest a multi-byte encoding; otherwise reports `Encoding`.
pub fn check_encoding(file_size: u64, num_chars: usize) -> (r: Result<(), FastaError>)
    ensures
        r is Ok <==> !multibyte_suspect(file_size as int, num_chars as int),
        r is Err ==> r->Err_0 == FastaError::Encoding,
{
    let suspect = if num_chars > 0 {
        file_size as u128 >= 2 * (num_chars as u128)
    } else {
        file_size > 0
    };
    if suspect {
        Err(FastaError::Encoding)
    } else {
        Ok(())
    }
}

} // verus!
