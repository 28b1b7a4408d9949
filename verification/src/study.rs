//! The "Study" puzzle: a phone number and a Malbolge program.
use vstd::prelude::*;
use vstd::string::StringSliceAdditionalSpecFns;
use num::BigUint;
use crate::{puzzle_text, PuzzleError};
use crate::bigint::uvalue;
use crate::bytes::{decrypt_base64, malbolge, process_string, text_result, utf8_text, CipherError};
use crate::bytes::malbolge::malbolge_output;
use crate::numbers1::answer_output;

verus! {

/// The phone number: the key that `number` gives decrypts the base64 text
/// `encrypted`.
pub fn phone(encrypted: &[u8], number: BigUint) -> (r: Result<String, PuzzleError>)
    ensures
        puzzle_text(r) == answer_output(encrypted@, uvalue(number)),
{
    let key = match crate::numbers1::calc(number, "abcdef") {
        Ok(k) => k,
        Err(e) => return Err(PuzzleError::Num(e)),
    };
    match decrypt_base64(encrypted, key.as_str().as_bytes()) {
        Ok(s) => Ok(s),
        Err(e) => Err(PuzzleError::Cipher(e)),
    }
}

/// What the Malbolge program `code` prints.
pub fn malbolge_code(code: &[u8]) -> (r: Result<String, CipherError>)
    ensures
        text_result(r) == utf8_text(malbolge_output(code@)),
{
    proof {
        reveal_with_fuel(crate::bytes::chain_output, 2);
    }
    process_string(code, malbolge())
}

} // verus!
