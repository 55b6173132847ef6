//! What this library takes on trust from the standard library: the two
//! functions on `String` that it calls and that come without a
//! specification. Nothing here is proved.

use vstd::prelude::*;
use vstd::utf8::*;

verus! {

/// The error of `String::from_utf8` of std. Nothing is read from it.
#[verifier::external_type_specification]
#[verifier::external_body]
pub struct ExFromUtf8Error(std::string::FromUtf8Error);

/// `String::from_utf8` of std gives the text whose bytes are `vec`. It
/// succeeds exactly where the bytes are UTF-8.
pub assume_specification[ std::string::String::from_utf8 ](vec: Vec<u8>) -> (result: Result<
    std::string::String,
    std::string::FromUtf8Error,
>)
    ensures
        result is Ok <==> valid_utf8(vec@),
        result is Ok ==> encode_utf8(result->Ok_0@) == vec@,
;

/// `String::push` of std puts one character behind the others.
pub assume_specification[ std::string::String::push ](text: &mut std::string::String, ch: char)
    ensures
        final(text)@ == old(text)@.push(ch),
;

} // verus!
