//! What the codec takes on trust: the types and functions of `std` and of
//! `byteorder` that it uses and that are not verified here, each with the
//! contract that the proofs of the codec rest on.

use crate::wire::{is_valid_up_to, le_value, signed_of};
use byteorder::{ByteOrder, LE};
use std::str::Utf8Error;
use std::string::FromUtf8Error;
use vstd::prelude::*;
use vstd::utf8::{encode_utf8, valid_utf8};

verus! {

/// The error type of I/O operations. Opaque here: the errors of the codec
/// have a place for it, which the codec itself never fills.
#[verifier::external_type_specification]
#[verifier::external_body]
pub struct ExIoError(std::io::Error);

/// The error that `String::from_utf8` returns. Opaque here: the decoder
/// carries it in [`crate::read::Error::InvalidString`].
#[verifier::external_type_specification]
#[verifier::external_body]
pub struct ExFromUtf8Error(FromUtf8Error);

/// What `String::from_utf8` tells of bytes that are not UTF-8. Opaque here.
#[verifier::external_type_specification]
#[verifier::external_body]
pub struct ExUtf8Error(Utf8Error);

/// The `Utf8Error` that `FromUtf8Error::utf8_error` returns for `e`.
pub uninterp spec fn utf8_error_of(e: FromUtf8Error) -> Utf8Error;

/// The index that `Utf8Error::valid_up_to` returns for `e`.
pub uninterp spec fn valid_up_to_of(e: Utf8Error) -> nat;

/// `String::from_utf8`. It succeeds on the bytes that are valid UTF-8, and
/// on those only; the string is then made of these very bytes. On failure it
/// returns an error whose `utf8_error()` gives, by `valid_up_to()`, the
/// length of the longest prefix of the bytes that is valid UTF-8.
#[verifier::external_body]
pub(crate) fn string_from_utf8(bytes: Vec<u8>) -> (r: Result<String, FromUtf8Error>)
    ensures
        match r {
            Ok(text) => valid_utf8(bytes@) && encode_utf8(text@) == bytes@,
            Err(e) => !valid_utf8(bytes@) && is_valid_up_to(
                bytes@,
                valid_up_to_of(utf8_error_of(e)) as int,
            ),
        },
{
    String::from_utf8(bytes)
}

/// `FromUtf8Error::utf8_error`: the `Utf8Error` inside the error.
#[verifier::external_body]
pub(crate) fn utf8_error(e: &FromUtf8Error) -> (cause: Utf8Error)
    ensures
        cause == utf8_error_of(*e),
{
    e.utf8_error()
}

/// `Utf8Error::valid_up_to`: the index up to which the bytes were valid.
#[verifier::external_body]
pub(crate) fn valid_up_to_index(e: &Utf8Error) -> (index: usize)
    ensures
        index == valid_up_to_of(*e),
{
    e.valid_up_to()
}

/// `byteorder::LittleEndian::read_u16`: the first two bytes of `buf` as an
/// unsigned number, least significant byte first. It panics on a shorter
/// `buf`.
#[verifier::external_body]
pub(crate) fn le_read_u16(buf: &[u8]) -> (value: u16)
    requires
        buf@.len() >= 2,
    ensures
        value == le_value(buf@.subrange(0, 2)),
{
    LE::read_u16(buf)
}

/// `byteorder::LittleEndian::read_u32`: the first four bytes of `buf` as an
/// unsigned number, least significant byte first. It panics on a shorter
/// `buf`.
#[verifier::external_body]
pub(crate) fn le_read_u32(buf: &[u8]) -> (value: u32)
    requires
        buf@.len() >= 4,
    ensures
        value == le_value(buf@.subrange(0, 4)),
{
    LE::read_u32(buf)
}

/// `byteorder::LittleEndian::read_u64`: the first eight bytes of `buf` as an
/// unsigned number, least significant byte first. It panics on a shorter
/// `buf`.
#[verifier::external_body]
pub(crate) fn le_read_u64(buf: &[u8]) -> (value: u64)
    requires
        buf@.len() >= 8,
    ensures
        value == le_value(buf@.subrange(0, 8)),
{
    LE::read_u64(buf)
}

/// `byteorder::LittleEndian::read_i16`: the first two bytes of `buf` as a
/// number in two's complement, least significant byte first. It panics on a
/// shorter `buf`.
#[verifier::external_body]
pub(crate) fn le_read_i16(buf: &[u8]) -> (value: i16)
    requires
        buf@.len() >= 2,
    ensures
        value == signed_of(le_value(buf@.subrange(0, 2)), 2),
{
    LE::read_i16(buf)
}

/// `byteorder::LittleEndian::read_i32`: the first four bytes of `buf` as a
/// number in two's complement, least significant byte first. It panics on a
/// shorter `buf`.
#[verifier::external_body]
pub(crate) fn le_read_i32(buf: &[u8]) -> (value: i32)
    requires
        buf@.len() >= 4,
    ensures
        value == signed_of(le_value(buf@.subrange(0, 4)), 4),
{
    LE::read_i32(buf)
}

/// `byteorder::LittleEndian::read_i64`: the first eight bytes of `buf` as a
/// number in two's complement, least significant byte first. It panics on a
/// shorter `buf`.
#[verifier::external_body]
pub(crate) fn le_read_i64(buf: &[u8]) -> (value: i64)
    requires
        buf@.len() >= 8,
    ensures
        value == signed_of(le_value(buf@.subrange(0, 8)), 8),
{
    LE::read_i64(buf)
}

} // verus!
