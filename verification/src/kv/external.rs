//! What the store takes on trust: the calls into bincode and the parts of
//! std that it uses beyond what vstd specifies. Nothing here is proved.

use std::string::FromUtf8Error;
use vstd::prelude::*;
use vstd::utf8::*;

verus! {

/// `bincode::ErrorKind`, the error of bincode's calls, taken as opaque.
#[verifier::external_type_specification]
#[verifier::external_body]
pub struct ExBincodeErrorKind(bincode::ErrorKind);

/// `std::string::FromUtf8Error`, the error of `String::from_utf8`, taken as
/// opaque.
#[verifier::external_type_specification]
#[verifier::external_body]
pub struct ExFromUtf8Error(FromUtf8Error);

/// `bincode::serialize`, on one byte. With the options that this function
/// fixes (no size limit, fixed-width integers) a `u8` is written as itself,
/// into a `Vec` that takes every write: the call succeeds with that one byte.
#[verifier::external_body]
pub(crate) fn serialize_byte(byte: u8) -> (r: Result<Vec<u8>, Box<bincode::ErrorKind>>)
    ensures
        r is Ok,
        r->Ok_0@ == seq![byte],
{
    bincode::serialize(&byte)
}

/// `bincode::deserialize`, to one byte. It reads the first byte of the slice
/// as a `u8` and lets any bytes after it be; on an empty slice it fails.
#[verifier::external_body]
pub(crate) fn deserialize_byte(bytes: &[u8]) -> (r: Result<u8, Box<bincode::ErrorKind>>)
    ensures
        bytes@.len() > 0 ==> r is Ok && r->Ok_0 == bytes@[0],
        bytes@.len() == 0 ==> r is Err,
{
    bincode::deserialize(bytes)
}

/// `String::from_utf8` succeeds exactly on valid UTF-8, and the string then
/// consists of the bytes given.
pub assume_specification[ String::from_utf8 ](vec: Vec<u8>) -> (r: Result<String, FromUtf8Error>)
    ensures
        r is Ok <==> valid_utf8(vec@),
        r is Ok ==> encode_utf8(r->Ok_0@) == vec@,
;

} // verus!
