//! How an envelope is read back, and that reading gives what was written.
//! Each reader takes one value from the front of the bytes and returns it
//! with the bytes that follow.

use crate::data::{FileView, FolderView, Format};
use crate::encode::{
    envelope, file_bytes, file_fits, files_bytes, fits, folder_bytes, folder_fits, folders_bytes,
    text_fits, FILE_FIELDS, VERSION,
};
use crate::wire::{
    array_header, big_endian, bin_bytes, bin_header, map_header, sint_bytes, str_bytes,
    str_header, uint_bytes,
};
use vstd::prelude::*;
use vstd::utf8::{decode_utf8, encode_utf8, valid_utf8};

verus! {

/// The number that bytes write, the most significant first.
pub open spec fn from_big_endian(bytes: Seq<u8>) -> nat
    decreases bytes.len(),
{
    if bytes.len() == 0 {
        0
    } else {
        from_big_endian(bytes.drop_last()) * 256 + bytes.last() as nat
    }
}

/// One more than the largest number that `width` bytes write.
pub open spec fn limit(width: nat) -> nat
    decreases width,
{
    if width == 0 {
        1
    } else {
        256 * limit((width - 1) as nat)
    }
}

/// The number in the `width` bytes that follow the first byte.
pub open spec fn take_number(bytes: Seq<u8>, width: nat) -> Option<(nat, Seq<u8>)> {
    if bytes.len() >= 1 + width {
        Some((from_big_endian(bytes.subrange(1, 1 + width as int)), bytes.skip(1 + width as int)))
    } else {
        None
    }
}

/// The number that `width` bytes write in two's complement.
pub open spec fn signed(value: nat, width: nat) -> int {
    if 2 * value >= limit(width) {
        value - limit(width)
    } else {
        value as int
    }
}

/// An unsigned integer, in any of its forms.
pub open spec fn take_uint(bytes: Seq<u8>) -> Option<(nat, Seq<u8>)> {
    if bytes.len() == 0 {
        None
    } else if bytes[0] < 0x80 {
        Some((bytes[0] as nat, bytes.skip(1)))
    } else if bytes[0] == 0xcc {
        take_number(bytes, 1)
    } else if bytes[0] == 0xcd {
        take_number(bytes, 2)
    } else if bytes[0] == 0xce {
        take_number(bytes, 4)
    } else if bytes[0] == 0xcf {
        take_number(bytes, 8)
    } else {
        None
    }
}

/// The signed reading of a number of `width` bytes.
pub open spec fn as_signed(taken: Option<(nat, Seq<u8>)>, width: nat) -> Option<(int, Seq<u8>)> {
    match taken {
        Some((value, rest)) => Some((signed(value, width), rest)),
        None => None,
    }
}

/// An integer, in any of its signed or unsigned forms.
pub open spec fn take_sint(bytes: Seq<u8>) -> Option<(int, Seq<u8>)> {
    if bytes.len() == 0 {
        None
    } else if bytes[0] >= 0xe0 {
        Some((bytes[0] - 0x100, bytes.skip(1)))
    } else if bytes[0] == 0xd0 {
        as_signed(take_number(bytes, 1), 1)
    } else if bytes[0] == 0xd1 {
        as_signed(take_number(bytes, 2), 2)
    } else if bytes[0] == 0xd2 {
        as_signed(take_number(bytes, 4), 4)
    } else if bytes[0] == 0xd3 {
        as_signed(take_number(bytes, 8), 8)
    } else {
        match take_uint(bytes) {
            Some((value, rest)) => Some((value as int, rest)),
            None => None,
        }
    }
}

/// The length that opens an array.
pub open spec fn take_array_len(bytes: Seq<u8>) -> Option<(nat, Seq<u8>)> {
    if bytes.len() == 0 {
        None
    } else if 0x90 <= bytes[0] < 0xa0 {
        Some(((bytes[0] - 0x90) as nat, bytes.skip(1)))
    } else if bytes[0] == 0xdc {
        take_number(bytes, 2)
    } else if bytes[0] == 0xdd {
        take_number(bytes, 4)
    } else {
        None
    }
}

/// The length that opens a map.
pub open spec fn take_map_len(bytes: Seq<u8>) -> Option<(nat, Seq<u8>)> {
    if bytes.len() == 0 {
        None
    } else if 0x80 <= bytes[0] < 0x90 {
        Some(((bytes[0] - 0x80) as nat, bytes.skip(1)))
    } else if bytes[0] == 0xde {
        take_number(bytes, 2)
    } else if bytes[0] == 0xdf {
        take_number(bytes, 4)
    } else {
        None
    }
}

/// The length that opens a string.
pub open spec fn take_str_len(bytes: Seq<u8>) -> Option<(nat, Seq<u8>)> {
    if bytes.len() == 0 {
        None
    } else if 0xa0 <= bytes[0] < 0xc0 {
        Some(((bytes[0] - 0xa0) as nat, bytes.skip(1)))
    } else if bytes[0] == 0xd9 {
        take_number(bytes, 1)
    } else if bytes[0] == 0xda {
        take_number(bytes, 2)
    } else if bytes[0] == 0xdb {
        take_number(bytes, 4)
    } else {
        None
    }
}

/// The length that opens a byte string.
pub open spec fn take_bin_len(bytes: Seq<u8>) -> Option<(nat, Seq<u8>)> {
    if bytes.len() == 0 {
        None
    } else if bytes[0] == 0xc4 {
        take_number(bytes, 1)
    } else if bytes[0] == 0xc5 {
        take_number(bytes, 2)
    } else if bytes[0] == 0xc6 {
        take_number(bytes, 4)
    } else {
        None
    }
}

/// A string: its length, then that many bytes of well-formed UTF-8.
pub open spec fn take_str(bytes: Seq<u8>) -> Option<(Seq<char>, Seq<u8>)> {
    match take_str_len(bytes) {
        Some((len, rest)) => if rest.len() >= len && valid_utf8(rest.take(len as int)) {
            Some((decode_utf8(rest.take(len as int)), rest.skip(len as int)))
        } else {
            None
        },
        None => None,
    }
}

/// A byte string: its length, then that many bytes.
pub open spec fn take_bin(bytes: Seq<u8>) -> Option<(Seq<u8>, Seq<u8>)> {
    match take_bin_len(bytes) {
        Some((len, rest)) => if rest.len() >= len {
            Some((rest.take(len as int), rest.skip(len as int)))
        } else {
            None
        },
        None => None,
    }
}

/// `width` bytes are written for any number.
pub proof fn lemma_big_endian_len(value: nat, width: nat)
    ensures
        big_endian(value, width).len() == width,
    decreases width,
{
    if width > 0 {
        lemma_big_endian_len(value / 256, (width - 1) as nat);
    }
}

/// A number below the limit of `width` bytes is read back from them.
pub proof fn lemma_big_endian_round_trip(value: nat, width: nat)
    requires
        value < limit(width),
    ensures
        from_big_endian(big_endian(value, width)) == value,
    decreases width,
{
    if width > 0 {
        let shorter = big_endian(value / 256, (width - 1) as nat);
        assert(big_endian(value, width).drop_last() =~= shorter);
        lemma_big_endian_round_trip(value / 256, (width - 1) as nat);
    }
}

/// The limits of one, two, four and eight bytes.
pub proof fn lemma_limits()
    ensures
        limit(1) == 0x100,
        limit(2) == 0x1_0000,
        limit(4) == 0x1_0000_0000,
        limit(8) == 0x1_0000_0000_0000_0000,
{
    reveal_with_fuel(limit, 9);
}

/// A marker, a number of `width` bytes and a tail: the number is read back
/// and the tail is left.
pub proof fn lemma_take_number(marker: u8, value: nat, width: nat, tail: Seq<u8>)
    requires
        value < limit(width),
    ensures
        take_number(seq![marker] + big_endian(value, width) + tail, width) == Some((value, tail)),
{
    let bytes = seq![marker] + big_endian(value, width) + tail;
    lemma_big_endian_len(value, width);
    lemma_big_endian_round_trip(value, width);
    assert(bytes.subrange(1, 1 + width as int) =~= big_endian(value, width));
    assert(bytes.skip(1 + width as int) =~= tail);
}

/// An unsigned integer of up to 64 bits is read back.
pub proof fn lemma_uint_round_trip(value: nat, tail: Seq<u8>)
    requires
        value <= u64::MAX,
    ensures
        take_uint(uint_bytes(value) + tail) == Some((value, tail)),
{
    lemma_limits();
    let bytes = uint_bytes(value) + tail;
    if value < 0x80 {
        assert(bytes.skip(1) =~= tail);
    } else if value < 0x100 {
        lemma_take_number(0xcc, value, 1, tail);
    } else if value < 0x1_0000 {
        lemma_take_number(0xcd, value, 2, tail);
    } else if value < 0x1_0000_0000 {
        lemma_take_number(0xce, value, 4, tail);
    } else {
        lemma_take_number(0xcf, value, 8, tail);
    }
}

/// A signed integer of up to 64 bits is read back.
pub proof fn lemma_sint_round_trip(value: int, tail: Seq<u8>)
    requires
        i64::MIN <= value <= i64::MAX,
    ensures
        take_sint(sint_bytes(value) + tail) == Some((value, tail)),
{
    lemma_limits();
    let bytes = sint_bytes(value) + tail;
    if value >= 0 {
        lemma_uint_round_trip(value as nat, tail);
        assert(bytes[0] < 0x80 || 0xcc <= bytes[0] <= 0xcf);
    } else if value >= -0x20 {
        assert(bytes.skip(1) =~= tail);
    } else if value >= -0x80 {
        lemma_take_number(0xd0, (value + 0x100) as nat, 1, tail);
    } else if value >= -0x8000 {
        lemma_take_number(0xd1, (value + 0x1_0000) as nat, 2, tail);
    } else if value >= -0x8000_0000 {
        lemma_take_number(0xd2, (value + 0x1_0000_0000) as nat, 4, tail);
    } else {
        lemma_take_number(0xd3, (value + 0x1_0000_0000_0000_0000) as nat, 8, tail);
    }
}

/// The length of an array of up to 32 bits is read back.
pub proof fn lemma_array_len_round_trip(len: nat, tail: Seq<u8>)
    requires
        len <= u32::MAX,
    ensures
        take_array_len(array_header(len) + tail) == Some((len, tail)),
{
    lemma_limits();
    let bytes = array_header(len) + tail;
    if len < 16 {
        assert(bytes.skip(1) =~= tail);
    } else if len < 0x1_0000 {
        lemma_take_number(0xdc, len, 2, tail);
    } else {
        lemma_take_number(0xdd, len, 4, tail);
    }
}

/// The length of a map of up to 32 bits is read back.
pub proof fn lemma_map_len_round_trip(len: nat, tail: Seq<u8>)
    requires
        len <= u32::MAX,
    ensures
        take_map_len(map_header(len) + tail) == Some((len, tail)),
{
    lemma_limits();
    let bytes = map_header(len) + tail;
    if len < 16 {
        assert(bytes.skip(1) =~= tail);
    } else if len < 0x1_0000 {
        lemma_take_number(0xde, len, 2, tail);
    } else {
        lemma_take_number(0xdf, len, 4, tail);
    }
}

/// A text of up to 32 bits of length in bytes is read back.
pub proof fn lemma_str_round_trip(text: Seq<char>, tail: Seq<u8>)
    requires
        text_fits(text),
    ensures
        take_str(str_bytes(text) + tail) == Some((text, tail)),
{
    broadcast use vstd::utf8::encode_utf8_valid_utf8, vstd::utf8::encode_utf8_decode_utf8;

    lemma_limits();
    let data = encode_utf8(text);
    let len = data.len();
    let rest = data + tail;
    let bytes = str_bytes(text) + tail;
    assert(bytes =~= str_header(len) + rest);
    if len < 32 {
        assert(bytes.skip(1) =~= rest);
    } else if len < 0x100 {
        lemma_take_number(0xd9, len, 1, rest);
        assert(bytes =~= seq![0xd9u8] + big_endian(len, 1) + rest);
    } else if len < 0x1_0000 {
        lemma_take_number(0xda, len, 2, rest);
        assert(bytes =~= seq![0xdau8] + big_endian(len, 2) + rest);
    } else {
        lemma_take_number(0xdb, len, 4, rest);
        assert(bytes =~= seq![0xdbu8] + big_endian(len, 4) + rest);
    }
    assert(take_str_len(bytes) == Some((len, rest)));
    assert(rest.take(len as int) =~= data);
    assert(rest.skip(len as int) =~= tail);
}

/// A byte string of up to 32 bits of length is read back.
pub proof fn lemma_bin_round_trip(data: Seq<u8>, tail: Seq<u8>)
    requires
        data.len() <= u32::MAX,
    ensures
        take_bin(bin_bytes(data) + tail) == Some((data, tail)),
{
    lemma_limits();
    let len = data.len();
    let rest = data + tail;
    let bytes = bin_bytes(data) + tail;
    assert(bytes =~= bin_header(len) + rest);
    if len < 0x100 {
        lemma_take_number(0xc4, len, 1, rest);
        assert(bytes =~= seq![0xc4u8] + big_endian(len, 1) + rest);
    } else if len < 0x1_0000 {
        lemma_take_number(0xc5, len, 2, rest);
        assert(bytes =~= seq![0xc5u8] + big_endian(len, 2) + rest);
    } else {
        lemma_take_number(0xc6, len, 4, rest);
        assert(bytes =~= seq![0xc6u8] + big_endian(len, 4) + rest);
    }
    assert(take_bin_len(bytes) == Some((len, rest)));
    assert(rest.take(len as int) =~= data);
    assert(rest.skip(len as int) =~= tail);
}

/// The format of a name.
pub open spec fn format_named(name: Seq<char>) -> Option<Format> {
    if name == Format::FLAC.name() {
        Some(Format::FLAC)
    } else if name == Format::MP3.name() {
        Some(Format::MP3)
    } else {
        None
    }
}

/// A format, written as the string of its name.
pub open spec fn take_format(bytes: Seq<u8>) -> Option<(Format, Seq<u8>)> {
    match take_str(bytes) {
        Some((name, rest)) => match format_named(name) {
            Some(format) => Some((format, rest)),
            None => None,
        },
        None => None,
    }
}

/// An integer that fits `i64`.
pub open spec fn take_i64(bytes: Seq<u8>) -> Option<(i64, Seq<u8>)> {
    match take_sint(bytes) {
        Some((value, rest)) => if i64::MIN <= value <= i64::MAX {
            Some((value as i64, rest))
        } else {
            None
        },
        None => None,
    }
}

/// The four texts of a file record: title, artist, album, album artist.
pub open spec fn take_texts(bytes: Seq<u8>) -> Option<
    ((Seq<char>, Seq<char>, Seq<char>, Seq<char>), Seq<u8>),
> {
    match take_str(bytes) {
        Some((title, r1)) => match take_str(r1) {
            Some((artist, r2)) => match take_str(r2) {
                Some((album, r3)) => match take_str(r3) {
                    Some((album_artist, r4)) => Some(((title, artist, album, album_artist), r4)),
                    None => None,
                },
                None => None,
            },
            None => None,
        },
        None => None,
    }
}

/// The five numbers of a file record: year, disc, discs in all, track,
/// tracks in all.
pub open spec fn take_numbers(bytes: Seq<u8>) -> Option<((i64, i64, i64, i64, i64), Seq<u8>)> {
    match take_i64(bytes) {
        Some((year, r1)) => match take_i64(r1) {
            Some((disc, r2)) => match take_i64(r2) {
                Some((total_discs, r3)) => match take_i64(r3) {
                    Some((track, r4)) => match take_i64(r4) {
                        Some((total_tracks, r5)) => Some(
                            ((year, disc, total_discs, track, total_tracks), r5),
                        ),
                        None => None,
                    },
                    None => None,
                },
                None => None,
            },
            None => None,
        },
        None => None,
    }
}

/// The record with these fields.
pub open spec fn record(
    name: Seq<u8>,
    format: Format,
    texts: (Seq<char>, Seq<char>, Seq<char>, Seq<char>),
    numbers: (i64, i64, i64, i64, i64),
) -> FileView {
    FileView {
        name,
        format,
        title: texts.0,
        artist: texts.1,
        album: texts.2,
        album_artist: texts.3,
        year: numbers.0,
        disc: numbers.1,
        total_discs: numbers.2,
        track: numbers.3,
        total_tracks: numbers.4,
    }
}

/// A file record: an array of eleven fields in their fixed order.
pub open spec fn take_file(bytes: Seq<u8>) -> Option<(FileView, Seq<u8>)> {
    match take_array_len(bytes) {
        Some((len, r0)) => match take_bin(r0) {
            Some((name, r1)) => match take_format(r1) {
                Some((format, r2)) => match take_texts(r2) {
                    Some((texts, r3)) => match take_numbers(r3) {
                        Some((numbers, r4)) => if len == FILE_FIELDS {
                            Some((record(name, format, texts, numbers), r4))
                        } else {
                            None
                        },
                        None => None,
                    },
                    None => None,
                },
                None => None,
            },
            None => None,
        },
        None => None,
    }
}

/// `count` file records, one after the other.
pub open spec fn take_files(bytes: Seq<u8>, count: nat) -> Option<(Seq<FileView>, Seq<u8>)>
    decreases count,
{
    if count == 0 {
        Some((Seq::empty(), bytes))
    } else {
        match take_file(bytes) {
            Some((file, rest)) => match take_files(rest, (count - 1) as nat) {
                Some((files, left)) => Some((seq![file] + files, left)),
                None => None,
            },
            None => None,
        }
    }
}

/// A string that has to be `key`.
pub open spec fn take_key(bytes: Seq<u8>, key: Seq<char>) -> Option<Seq<u8>> {
    match take_str(bytes) {
        Some((text, rest)) => if text == key {
            Some(rest)
        } else {
            None
        },
        None => None,
    }
}

/// The files of a folder record: the key `files`, then the array of the
/// file records.
pub open spec fn take_keyed_files(bytes: Seq<u8>) -> Option<(Seq<FileView>, Seq<u8>)> {
    match take_key(bytes, "files"@) {
        Some(r1) => match take_array_len(r1) {
            Some((count, r2)) => take_files(r2, count),
            None => None,
        },
        None => None,
    }
}

/// The path of a folder record: the key `path`, then the byte string.
pub open spec fn take_keyed_path(bytes: Seq<u8>) -> Option<(Seq<u8>, Seq<u8>)> {
    match take_key(bytes, "path"@) {
        Some(r1) => take_bin(r1),
        None => None,
    }
}

/// A folder record: a map of `path` and `files`, in this order.
pub open spec fn take_folder(bytes: Seq<u8>) -> Option<(FolderView, Seq<u8>)> {
    match take_map_len(bytes) {
        Some((len, r0)) => match take_keyed_path(r0) {
            Some((path, r1)) => match take_keyed_files(r1) {
                Some((files, r2)) => if len == 2 {
                    Some((FolderView { path, files }, r2))
                } else {
                    None
                },
                None => None,
            },
            None => None,
        },
        None => None,
    }
}

/// `count` folder records, one after the other.
pub open spec fn take_folders(bytes: Seq<u8>, count: nat) -> Option<(Seq<FolderView>, Seq<u8>)>
    decreases count,
{
    if count == 0 {
        Some((Seq::empty(), bytes))
    } else {
        match take_folder(bytes) {
            Some((folder, rest)) => match take_folders(rest, (count - 1) as nat) {
                Some((folders, left)) => Some((seq![folder] + folders, left)),
                None => None,
            },
            None => None,
        }
    }
}

/// A key and the unsigned integer that follows it.
pub open spec fn take_keyed_uint(bytes: Seq<u8>, key: Seq<char>) -> Option<(nat, Seq<u8>)> {
    match take_key(bytes, key) {
        Some(r1) => take_uint(r1),
        None => None,
    }
}

/// The folders of an envelope: the key `folders`, then the array of the
/// folder records.
pub open spec fn take_keyed_folders(bytes: Seq<u8>) -> Option<(Seq<FolderView>, Seq<u8>)> {
    match take_key(bytes, "folders"@) {
        Some(r1) => match take_array_len(r1) {
            Some((count, r2)) => take_folders(r2, count),
            None => None,
        },
        None => None,
    }
}

/// The number of errors and the folders that an envelope holds. The bytes
/// are an envelope if they are a map of `errors`, `version` and `folders` in
/// this order, the version is the one of this layout, and nothing follows.
pub open spec fn decoded(bytes: Seq<u8>) -> Option<(nat, Seq<FolderView>)> {
    match take_map_len(bytes) {
        Some((len, r0)) => match take_keyed_uint(r0, "errors"@) {
            Some((errors, r1)) => match take_keyed_uint(r1, "version"@) {
                Some((version, r2)) => match take_keyed_folders(r2) {
                    Some((folders, r3)) => if len == 3 && version == VERSION && r3.len() == 0 {
                        Some((errors, folders))
                    } else {
                        None
                    },
                    None => None,
                },
                None => None,
            },
            None => None,
        },
        None => None,
    }
}

/// Bytes appended one after the other are appended together.
proof fn lemma_regroup(front: Seq<u8>, middle: Seq<u8>, back: Seq<u8>)
    ensures
        (front + middle) + back == front + (middle + back),
{
    assert((front + middle) + back =~= front + (middle + back));
}

/// The keys of the layout are short enough for a string header.
proof fn lemma_keys_fit()
    ensures
        text_fits("path"@),
        text_fits("files"@),
        text_fits("errors"@),
        text_fits("version"@),
        text_fits("folders"@),
{
    broadcast use vstd::utf8::is_ascii_chars_encode_utf8;

    reveal_strlit("path");
    reveal_strlit("files");
    reveal_strlit("errors");
    reveal_strlit("version");
    reveal_strlit("folders");
    assert(vstd::utf8::is_ascii_chars("path"@));
    assert(vstd::utf8::is_ascii_chars("files"@));
    assert(vstd::utf8::is_ascii_chars("errors"@));
    assert(vstd::utf8::is_ascii_chars("version"@));
    assert(vstd::utf8::is_ascii_chars("folders"@));
}

/// A key that is short enough is read back.
proof fn lemma_key_round_trip(key: Seq<char>, tail: Seq<u8>)
    requires
        text_fits(key),
    ensures
        take_key(str_bytes(key) + tail, key) == Some(tail),
{
    lemma_str_round_trip(key, tail);
}

/// The name of a format is read back as the format.
proof fn lemma_format_round_trip(format: Format, tail: Seq<u8>)
    ensures
        text_fits(format.name()),
        take_format(str_bytes(format.name()) + tail) == Some((format, tail)),
{
    broadcast use vstd::utf8::is_ascii_chars_encode_utf8;

    reveal_strlit("flac");
    reveal_strlit("mp3");
    assert(vstd::utf8::is_ascii_chars(format.name()));
    assert("flac"@ != "mp3"@) by {
        assert("flac"@.len() != "mp3"@.len());
    }
    lemma_str_round_trip(format.name(), tail);
}

/// A file record is read back.
pub proof fn lemma_file_round_trip(file: FileView, tail: Seq<u8>)
    requires
        file_fits(file),
    ensures
        take_file(file_bytes(file) + tail) == Some((file, tail)),
{
    let t11 = tail;
    let t10 = sint_bytes(file.total_tracks as int) + t11;
    let t9 = sint_bytes(file.track as int) + t10;
    let t8 = sint_bytes(file.total_discs as int) + t9;
    let t7 = sint_bytes(file.disc as int) + t8;
    let t6 = sint_bytes(file.year as int) + t7;
    let t5 = str_bytes(file.album_artist) + t6;
    let t4 = str_bytes(file.album) + t5;
    let t3 = str_bytes(file.artist) + t4;
    let t2 = str_bytes(file.title) + t3;
    let t1 = str_bytes(file.format.name()) + t2;
    let t0 = bin_bytes(file.name) + t1;
    let a0 = array_header(FILE_FIELDS as nat);
    let a1 = a0 + bin_bytes(file.name);
    let a2 = a1 + str_bytes(file.format.name());
    let a3 = a2 + str_bytes(file.title);
    let a4 = a3 + str_bytes(file.artist);
    let a5 = a4 + str_bytes(file.album);
    let a6 = a5 + str_bytes(file.album_artist);
    let a7 = a6 + sint_bytes(file.year as int);
    let a8 = a7 + sint_bytes(file.disc as int);
    let a9 = a8 + sint_bytes(file.total_discs as int);
    let a10 = a9 + sint_bytes(file.track as int);
    let a11 = a10 + sint_bytes(file.total_tracks as int);
    assert(file_bytes(file) == a11);
    lemma_regroup(a10, sint_bytes(file.total_tracks as int), t11);
    lemma_regroup(a9, sint_bytes(file.track as int), t10);
    lemma_regroup(a8, sint_bytes(file.total_discs as int), t9);
    lemma_regroup(a7, sint_bytes(file.disc as int), t8);
    lemma_regroup(a6, sint_bytes(file.year as int), t7);
    lemma_regroup(a5, str_bytes(file.album_artist), t6);
    lemma_regroup(a4, str_bytes(file.album), t5);
    lemma_regroup(a3, str_bytes(file.artist), t4);
    lemma_regroup(a2, str_bytes(file.title), t3);
    lemma_regroup(a1, str_bytes(file.format.name()), t2);
    lemma_regroup(a0, bin_bytes(file.name), t1);
    assert(file_bytes(file) + tail == a0 + t0);
    lemma_array_len_round_trip(FILE_FIELDS as nat, t0);
    lemma_bin_round_trip(file.name, t1);
    lemma_format_round_trip(file.format, t2);
    lemma_str_round_trip(file.title, t3);
    lemma_str_round_trip(file.artist, t4);
    lemma_str_round_trip(file.album, t5);
    lemma_str_round_trip(file.album_artist, t6);
    assert(take_texts(t2) == Some(((file.title, file.artist, file.album, file.album_artist), t6)));
    lemma_sint_round_trip(file.year as int, t7);
    lemma_sint_round_trip(file.disc as int, t8);
    lemma_sint_round_trip(file.total_discs as int, t9);
    lemma_sint_round_trip(file.track as int, t10);
    lemma_sint_round_trip(file.total_tracks as int, t11);
    assert(take_numbers(t6) == Some(
        ((file.year, file.disc, file.total_discs, file.track, file.total_tracks), t11),
    ));
}

/// The records of a first file and of the files after it are those of the
/// files one after the other.
pub proof fn lemma_files_bytes_first(first: FileView, others: Seq<FileView>)
    ensures
        files_bytes(seq![first] + others) == file_bytes(first) + files_bytes(others),
    decreases others.len(),
{
    let all = seq![first] + others;
    if others.len() == 0 {
        assert(all.drop_last() =~= Seq::<FileView>::empty());
        assert(others =~= Seq::<FileView>::empty());
        assert(all.last() == first);
        assert(files_bytes(Seq::<FileView>::empty()) =~= Seq::<u8>::empty());
        assert(files_bytes(all) =~= file_bytes(first) + files_bytes(others));
    } else {
        assert(all.drop_last() =~= seq![first] + others.drop_last());
        lemma_files_bytes_first(first, others.drop_last());
        lemma_regroup(
            file_bytes(first),
            files_bytes(others.drop_last()),
            file_bytes(others.last()),
        );
    }
}

/// File records are read back.
pub proof fn lemma_files_round_trip(files: Seq<FileView>, tail: Seq<u8>)
    requires
        forall|i: int| 0 <= i < files.len() ==> file_fits(#[trigger] files[i]),
    ensures
        take_files(files_bytes(files) + tail, files.len()) == Some((files, tail)),
    decreases files.len(),
{
    if files.len() == 0 {
        assert(files_bytes(files) + tail =~= tail);
        assert(files =~= Seq::<FileView>::empty());
    } else {
        let first = files.first();
        let others = files.drop_first();
        assert(files =~= seq![first] + others);
        lemma_files_bytes_first(first, others);
        lemma_regroup(file_bytes(first), files_bytes(others), tail);
        lemma_file_round_trip(first, files_bytes(others) + tail);
        assert forall|i: int| 0 <= i < others.len() implies file_fits(#[trigger] others[i]) by {
            assert(others[i] == files[i + 1]);
        }
        lemma_files_round_trip(others, tail);
    }
}

/// A folder record is read back.
pub proof fn lemma_folder_round_trip(folder: FolderView, tail: Seq<u8>)
    requires
        folder_fits(folder),
    ensures
        take_folder(folder_bytes(folder) + tail) == Some((folder, tail)),
{
    lemma_keys_fit();
    let piece0 = map_header(2);
    let piece1 = str_bytes("path"@);
    let piece2 = bin_bytes(folder.path);
    let piece3 = str_bytes("files"@);
    let piece4 = array_header(folder.files.len());
    let piece5 = files_bytes(folder.files);
    let t5 = piece5 + tail;
    let t4 = piece4 + t5;
    let t3 = piece3 + t4;
    let t2 = piece2 + t3;
    let t1 = piece1 + t2;
    assert(folder_bytes(folder) + tail == piece0 + t1) by {
        lemma_regroup(piece0 + piece1 + piece2 + piece3 + piece4, piece5, tail);
        lemma_regroup(piece0 + piece1 + piece2 + piece3, piece4, t5);
        lemma_regroup(piece0 + piece1 + piece2, piece3, t4);
        lemma_regroup(piece0 + piece1, piece2, t3);
        lemma_regroup(piece0, piece1, t2);
    }
    assert(take_map_len(piece0 + t1) == Some((2nat, t1))) by {
        lemma_map_len_round_trip(2, t1);
    }
    assert(take_keyed_path(t1) == Some((folder.path, t3))) by {
        lemma_key_round_trip("path"@, t2);
        lemma_bin_round_trip(folder.path, t3);
    }
    assert(take_keyed_files(t3) == Some((folder.files, tail))) by {
        lemma_key_round_trip("files"@, t4);
        lemma_array_len_round_trip(folder.files.len(), t5);
        lemma_files_round_trip(folder.files, tail);
    }
}

/// The records of a first folder and of the folders after it are those of
/// the folders one after the other.
pub proof fn lemma_folders_bytes_first(first: FolderView, others: Seq<FolderView>)
    ensures
        folders_bytes(seq![first] + others) == folder_bytes(first) + folders_bytes(others),
    decreases others.len(),
{
    let all = seq![first] + others;
    if others.len() == 0 {
        assert(all.drop_last() =~= Seq::<FolderView>::empty());
        assert(others =~= Seq::<FolderView>::empty());
        assert(all.last() == first);
        assert(folders_bytes(Seq::<FolderView>::empty()) =~= Seq::<u8>::empty());
        assert(folders_bytes(all) =~= folder_bytes(first) + folders_bytes(others));
    } else {
        assert(all.drop_last() =~= seq![first] + others.drop_last());
        lemma_folders_bytes_first(first, others.drop_last());
        lemma_regroup(
            folder_bytes(first),
            folders_bytes(others.drop_last()),
            folder_bytes(others.last()),
        );
    }
}

/// Folder records are read back.
pub proof fn lemma_folders_round_trip(folders: Seq<FolderView>, tail: Seq<u8>)
    requires
        forall|i: int| 0 <= i < folders.len() ==> folder_fits(#[trigger] folders[i]),
    ensures
        take_folders(folders_bytes(folders) + tail, folders.len()) == Some((folders, tail)),
    decreases folders.len(),
{
    if folders.len() == 0 {
        assert(folders_bytes(folders) + tail =~= tail);
        assert(folders =~= Seq::<FolderView>::empty());
    } else {
        let first = folders.first();
        let others = folders.drop_first();
        assert(folders =~= seq![first] + others);
        lemma_folders_bytes_first(first, others);
        lemma_regroup(folder_bytes(first), folders_bytes(others), tail);
        lemma_folder_round_trip(first, folders_bytes(others) + tail);
        assert forall|i: int| 0 <= i < others.len() implies folder_fits(#[trigger] others[i]) by {
            assert(others[i] == folders[i + 1]);
        }
        lemma_folders_round_trip(others, tail);
    }
}

/// Reading an envelope gives what was written into it: the number of errors
/// and the folders, with their files and every field of each, in the same
/// order. It holds of every number of errors up to 64 bits and of all
/// folders whose counts and lengths are within 32 bits, which are those that
/// have an envelope.
pub proof fn lemma_round_trip(errors: nat, folders: Seq<FolderView>)
    requires
        errors <= u64::MAX,
        fits(folders),
    ensures
        decoded(envelope(errors, folders)) == Some((errors, folders)),
{
    lemma_keys_fit();
    let tail = Seq::<u8>::empty();
    let piece0 = map_header(3);
    let piece1 = str_bytes("errors"@);
    let piece2 = uint_bytes(errors);
    let piece3 = str_bytes("version"@);
    let piece4 = uint_bytes(VERSION as nat);
    let piece5 = str_bytes("folders"@);
    let piece6 = array_header(folders.len());
    let piece7 = folders_bytes(folders);
    let t7 = piece7 + tail;
    let t6 = piece6 + t7;
    let t5 = piece5 + t6;
    let t4 = piece4 + t5;
    let t3 = piece3 + t4;
    let t2 = piece2 + t3;
    let t1 = piece1 + t2;
    assert(envelope(errors, folders) == piece0 + t1) by {
        assert(envelope(errors, folders) =~= envelope(errors, folders) + tail);
        lemma_regroup(piece0 + piece1 + piece2 + piece3 + piece4 + piece5 + piece6, piece7, tail);
        lemma_regroup(piece0 + piece1 + piece2 + piece3 + piece4 + piece5, piece6, t7);
        lemma_regroup(piece0 + piece1 + piece2 + piece3 + piece4, piece5, t6);
        lemma_regroup(piece0 + piece1 + piece2 + piece3, piece4, t5);
        lemma_regroup(piece0 + piece1 + piece2, piece3, t4);
        lemma_regroup(piece0 + piece1, piece2, t3);
        lemma_regroup(piece0, piece1, t2);
    }
    assert(take_map_len(piece0 + t1) == Some((3nat, t1))) by {
        lemma_map_len_round_trip(3, t1);
    }
    assert(take_keyed_uint(t1, "errors"@) == Some((errors, t3))) by {
        lemma_key_round_trip("errors"@, t2);
        lemma_uint_round_trip(errors, t3);
    }
    assert(take_keyed_uint(t3, "version"@) == Some((VERSION as nat, t5))) by {
        lemma_key_round_trip("version"@, t4);
        lemma_uint_round_trip(VERSION as nat, t5);
    }
    assert(take_keyed_folders(t5) == Some((folders, tail))) by {
        lemma_key_round_trip("folders"@, t6);
        lemma_array_len_round_trip(folders.len(), t7);
        lemma_folders_round_trip(folders, tail);
    }
}

} // verus!
