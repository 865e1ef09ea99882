//! Running a dump or a reverse dump over a whole input.
use vstd::prelude::*;
use vstd::slice::slice_to_vec;
use vstd::utf8::{decode_utf8, encode_utf8, valid_utf8};
use crate::config::{Config, MAX_WIDTH};
use crate::dump::{dump_text, hex_dump};
use crate::undump::{bytes_result, reverse_hex_dump, undump, HexError};

verus! {

/// Relies on `std::str::from_utf8`: the bytes are accepted exactly when they are
/// valid UTF-8, and then read as the text they encode.
#[verifier::external_body]
fn utf8_text(b: &[u8]) -> (r: Option<&str>)
    ensures
        r is Some <==> valid_utf8(b@),
        r matches Some(t) ==> t@ == decode_utf8(b@),
{
    std::str::from_utf8(b).ok()
}

/// What a run gives for `input`: the bytes of its dump, or the bytes that the
/// dump it holds shows.
pub open spec fn run_result(reverse: bool, cols: nat, byte_groups: nat, input: Seq<u8>) -> Result<
    Seq<u8>,
    HexError,
> {
    if reverse {
        if valid_utf8(input) {
            undump(decode_utf8(input))
        } else {
            Err(HexError::InvalidUtf8)
        }
    } else {
        Ok(encode_utf8(dump_text(input, cols, byte_groups)))
    }
}

/// Dumps `input`, or reads it back from a dump when `config.reverse` is set.
pub fn run(config: &Config, input: &[u8]) -> (r: Result<Vec<u8>, HexError>)
    requires
        config.cols <= MAX_WIDTH,
        config.byte_groups >= 1,
    ensures
        bytes_result(r) == run_result(
            config.reverse,
            config.cols as nat,
            config.byte_groups as nat,
            input@,
        ),
{
    if config.reverse {
        match utf8_text(input) {
            Some(text) => reverse_hex_dump(text),
            None => Err(HexError::InvalidUtf8),
        }
    } else {
        let text = hex_dump(input, config.cols, config.byte_groups);
        Ok(slice_to_vec(text.as_str().as_bytes()))
    }
}

} // verus!
