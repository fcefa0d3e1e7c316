//! The MessagePack forms that the envelope is made of.

use vstd::prelude::*;
use vstd::string::StringSliceAdditionalSpecFns;
use vstd::utf8::encode_utf8;

verus! {

/// The `width` low bytes of `value`, the most significant first.
pub open spec fn big_endian(value: nat, width: nat) -> Seq<u8>
    decreases width,
{
    if width == 0 {
        Seq::empty()
    } else {
        big_endian(value / 256, (width - 1) as nat).push((value % 256) as u8)
    }
}

/// An unsigned integer in its shortest form.
pub open spec fn uint_bytes(value: nat) -> Seq<u8> {
    if value < 0x80 {
        seq![value as u8]
    } else if value < 0x100 {
        seq![0xccu8] + big_endian(value, 1)
    } else if value < 0x1_0000 {
        seq![0xcdu8] + big_endian(value, 2)
    } else if value < 0x1_0000_0000 {
        seq![0xceu8] + big_endian(value, 4)
    } else {
        seq![0xcfu8] + big_endian(value, 8)
    }
}

/// A signed integer in its shortest form: that of the unsigned integer where
/// it is not negative, else the two's complement in the narrowest signed form.
pub open spec fn sint_bytes(value: int) -> Seq<u8> {
    if value >= 0 {
        uint_bytes(value as nat)
    } else if value >= -0x20 {
        seq![(value + 0x100) as u8]
    } else if value >= -0x80 {
        seq![0xd0u8] + big_endian((value + 0x100) as nat, 1)
    } else if value >= -0x8000 {
        seq![0xd1u8] + big_endian((value + 0x1_0000) as nat, 2)
    } else if value >= -0x8000_0000 {
        seq![0xd2u8] + big_endian((value + 0x1_0000_0000) as nat, 4)
    } else {
        seq![0xd3u8] + big_endian((value + 0x1_0000_0000_0000_0000) as nat, 8)
    }
}

/// What opens an array of `len` items.
pub open spec fn array_header(len: nat) -> Seq<u8> {
    if len < 16 {
        seq![(0x90 + len) as u8]
    } else if len < 0x1_0000 {
        seq![0xdcu8] + big_endian(len, 2)
    } else {
        seq![0xddu8] + big_endian(len, 4)
    }
}

/// What opens a map of `len` entries.
pub open spec fn map_header(len: nat) -> Seq<u8> {
    if len < 16 {
        seq![(0x80 + len) as u8]
    } else if len < 0x1_0000 {
        seq![0xdeu8] + big_endian(len, 2)
    } else {
        seq![0xdfu8] + big_endian(len, 4)
    }
}

/// What opens a string of `len` bytes.
pub open spec fn str_header(len: nat) -> Seq<u8> {
    if len < 32 {
        seq![(0xa0 + len) as u8]
    } else if len < 0x100 {
        seq![0xd9u8] + big_endian(len, 1)
    } else if len < 0x1_0000 {
        seq![0xdau8] + big_endian(len, 2)
    } else {
        seq![0xdbu8] + big_endian(len, 4)
    }
}

/// What opens a byte string of `len` bytes.
pub open spec fn bin_header(len: nat) -> Seq<u8> {
    if len < 0x100 {
        seq![0xc4u8] + big_endian(len, 1)
    } else if len < 0x1_0000 {
        seq![0xc5u8] + big_endian(len, 2)
    } else {
        seq![0xc6u8] + big_endian(len, 4)
    }
}

/// A string: its header, then its text in UTF-8.
pub open spec fn str_bytes(text: Seq<char>) -> Seq<u8> {
    str_header(encode_utf8(text).len()) + encode_utf8(text)
}

/// A byte string: its header, then the bytes.
pub open spec fn bin_bytes(data: Seq<u8>) -> Seq<u8> {
    bin_header(data.len()) + data
}

/// Calls `rmp::encode::write_map_len` on a `Vec<u8>`, which appends the
/// shortest map header for `len`. A write into a `Vec` does not
/// fail, so what the call returns is dropped.
#[verifier::external_body]
pub(crate) fn put_map_len(out: &mut Vec<u8>, len: u32)
    ensures
        final(out)@ == old(out)@ + map_header(len as nat),
{
    let _ = rmp::encode::write_map_len(out, len);
}

/// Calls `rmp::encode::write_array_len` on a `Vec<u8>`, which appends the
/// shortest array header for `len`. A write into a `Vec` does not
/// fail, so what the call returns is dropped.
#[verifier::external_body]
pub(crate) fn put_array_len(out: &mut Vec<u8>, len: u32)
    ensures
        final(out)@ == old(out)@ + array_header(len as nat),
{
    let _ = rmp::encode::write_array_len(out, len);
}

/// Calls `rmp::encode::write_str` on a `Vec<u8>`, which appends the shortest
/// string header for the text's length in bytes, then the text. The length
/// has to fit the header's 32 bits. A write into a `Vec` does not
/// fail, so what the call returns is dropped.
#[verifier::external_body]
pub(crate) fn put_str(out: &mut Vec<u8>, text: &str)
    requires
        text.spec_bytes().len() <= u32::MAX,
    ensures
        final(out)@ == old(out)@ + str_bytes(text@),
{
    let _ = rmp::encode::write_str(out, text);
}

/// Calls `rmp::encode::write_bin` on a `Vec<u8>`, which appends the shortest
/// byte string header for the length, then the bytes. The length has to fit
/// the header's 32 bits. A write into a `Vec` does not
/// fail, so what the call returns is dropped.
#[verifier::external_body]
pub(crate) fn put_bin(out: &mut Vec<u8>, data: &[u8])
    requires
        data@.len() <= u32::MAX,
    ensures
        final(out)@ == old(out)@ + bin_bytes(data@),
{
    let _ = rmp::encode::write_bin(out, data);
}

/// Calls `rmp::encode::write_uint` on a `Vec<u8>`, which appends the value
/// in the shortest unsigned form. A write into a `Vec` does not
/// fail, so what the call returns is dropped.
#[verifier::external_body]
pub(crate) fn put_uint(out: &mut Vec<u8>, value: u64)
    ensures
        final(out)@ == old(out)@ + uint_bytes(value as nat),
{
    let _ = rmp::encode::write_uint(out, value);
}

/// Calls `rmp::encode::write_sint` on a `Vec<u8>`, which appends a negative
/// value in the shortest signed form and any other as `write_uint` does. A
/// write into a `Vec` does not fail, so what the call returns is dropped.
#[verifier::external_body]
pub(crate) fn put_sint(out: &mut Vec<u8>, value: i64)
    ensures
        final(out)@ == old(out)@ + sint_bytes(value as int),
{
    let _ = rmp::encode::write_sint(out, value);
}

} // verus!
