//! The composed repair pipeline: encode, clean, decode, and optionally
//! unwrap.
//!
//! Cleaning guarantees a decodable stream, so the composition cannot hit
//! the decoder's error channel; the proof leans on the cleanup laws.

use vstd::prelude::*;
use crate::noise::{clean_hex_stream, lemma_clean_single_newline, spec_clean};
use crate::structure::spec_unwrap;
use crate::transcoder::{convert_hex_to_text, encode, spec_decode_text, spec_encode};

verus! {

/// The repaired text of a raw byte sequence.
pub open spec fn spec_repair(bytes: Seq<u8>, unwrap: bool) -> Seq<char> {
    let t = spec_decode_text(spec_clean(spec_encode(bytes)));
    if unwrap {
        spec_unwrap(t)
    } else {
        t
    }
}

/// Repairs a raw byte sequence: transcode to hex, clean, decode back, and
/// unwrap multi-line records when asked. The result always ends in
/// exactly one line feed.
pub fn repair_bytes(bytes: &Vec<u8>, unwrap: bool) -> (r: String)
    ensures
        r@ == spec_repair(bytes@, unwrap),
        r@.len() > 0,
        r@[r@.len() - 1] == '\n',
        r@.len() >= 2 ==> r@[r@.len() - 2] != '\n',
{
    let hex = encode(bytes);
    let clean = clean_hex_stream(&hex);
    proof {
        lemma_clean_single_newline(bytes@);
    }
    match convert_hex_to_text(&clean, unwrap) {
        Ok(t) => {
            proof {
                let d = spec_decode_text(spec_clean(spec_encode(bytes@)));
                assert(d.len() > 0 && d[d.len() - 1] == '\n');
                if unwrap {
                    crate::structure::lemma_unwrap_single_newline(d);
                }
            }
            t
        },
        Err(_) => {
            proof {
                assert(false);
            }
            String::new()
        },
    }
}

} // verus!
