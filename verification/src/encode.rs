//! The envelope: the result of a scan as one MessagePack value.

use crate::data::{views, File, FileView, Folder, FolderView};
use crate::decode::{decoded, lemma_round_trip};
use crate::error::Error;
use crate::wire::{
    array_header, bin_bytes, map_header, put_array_len, put_bin, put_map_len, put_sint, put_str,
    put_uint, sint_bytes, str_bytes, uint_bytes,
};
use vstd::prelude::*;
use vstd::utf8::encode_utf8;

verus! {

/// The version of the layout, as the envelope states it.
pub const VERSION: u64 = 1;

/// The number of fields of a file record.
pub const FILE_FIELDS: u32 = 11;

/// Why a scan has no envelope.
#[derive(Clone, Copy, Debug, PartialEq, Eq, Structural)]
pub enum EncodeError {
    /// A count or a length in bytes is over the 32 bits that a header holds.
    Oversize,
}

/// A file record: an array of its eleven fields, without their names.
pub open spec fn file_bytes(file: FileView) -> Seq<u8> {
    array_header(FILE_FIELDS as nat) + bin_bytes(file.name) + str_bytes(file.format.name())
        + str_bytes(file.title) + str_bytes(file.artist) + str_bytes(file.album) + str_bytes(
        file.album_artist,
    ) + sint_bytes(file.year as int) + sint_bytes(file.disc as int) + sint_bytes(
        file.total_discs as int,
    ) + sint_bytes(file.track as int) + sint_bytes(file.total_tracks as int)
}

/// File records, one after the other.
pub open spec fn files_bytes(files: Seq<FileView>) -> Seq<u8>
    decreases files.len(),
{
    if files.len() == 0 {
        Seq::empty()
    } else {
        files_bytes(files.drop_last()) + file_bytes(files.last())
    }
}

/// A folder record: a map of `path` to the path and of `files` to the array
/// of the file records.
pub open spec fn folder_bytes(folder: FolderView) -> Seq<u8> {
    map_header(2) + str_bytes("path"@) + bin_bytes(folder.path) + str_bytes("files"@)
        + array_header(folder.files.len()) + files_bytes(folder.files)
}

/// Folder records, one after the other.
pub open spec fn folders_bytes(folders: Seq<FolderView>) -> Seq<u8>
    decreases folders.len(),
{
    if folders.len() == 0 {
        Seq::empty()
    } else {
        folders_bytes(folders.drop_last()) + folder_bytes(folders.last())
    }
}

/// The envelope: a map of `errors` to the number of errors, of `version` to
/// the version of the layout and of `folders` to the array of the folder
/// records, in this order.
pub open spec fn envelope(errors: nat, folders: Seq<FolderView>) -> Seq<u8> {
    map_header(3) + str_bytes("errors"@) + uint_bytes(errors) + str_bytes("version"@)
        + uint_bytes(VERSION as nat) + str_bytes("folders"@) + array_header(folders.len())
        + folders_bytes(folders)
}

/// Whether a text is short enough for a string header.
pub open spec fn text_fits(text: Seq<char>) -> bool {
    encode_utf8(text).len() <= u32::MAX
}

/// Whether every length in a file record is within 32 bits.
pub open spec fn file_fits(file: FileView) -> bool {
    &&& file.name.len() <= u32::MAX
    &&& text_fits(file.title)
    &&& text_fits(file.artist)
    &&& text_fits(file.album)
    &&& text_fits(file.album_artist)
}

/// Whether every count and length in a folder record is within 32 bits.
pub open spec fn folder_fits(folder: FolderView) -> bool {
    &&& folder.path.len() <= u32::MAX
    &&& folder.files.len() <= u32::MAX
    &&& forall|i: int| 0 <= i < folder.files.len() ==> file_fits(#[trigger] folder.files[i])
}

/// Whether every count and length in the envelope is within 32 bits.
pub open spec fn fits(folders: Seq<FolderView>) -> bool {
    &&& folders.len() <= u32::MAX
    &&& forall|i: int| 0 <= i < folders.len() ==> folder_fits(#[trigger] folders[i])
}

/// Appends a text as a string, unless its length is over 32 bits.
fn put_text(out: &mut Vec<u8>, text: &str) -> (done: bool)
    ensures
        done == text_fits(text@),
        final(out)@ == (if done {
            old(out)@ + str_bytes(text@)
        } else {
            old(out)@
        }),
{
    if text.as_bytes().len() > u32::MAX as usize {
        return false;
    }
    put_str(out, text);
    true
}

/// Appends a key of the layout as a string.
fn put_key(out: &mut Vec<u8>, key: &str)
    requires
        key@.len() <= u32::MAX,
        vstd::string::is_ascii(key),
    ensures
        final(out)@ == old(out)@ + str_bytes(key@),
{
    broadcast use vstd::string::is_ascii_spec_bytes;

    put_str(out, key);
}

/// Appending to what was appended is appending the two together.
proof fn lemma_appended(base: Seq<u8>, so_far: Seq<u8>, more: Seq<u8>)
    ensures
        (base + so_far) + more == base + (so_far + more),
{
    assert((base + so_far) + more =~= base + (so_far + more));
}

/// Appends the record of a file, unless one of its lengths is over 32 bits.
/// Then a part of the record may have been appended.
pub fn encode_file(out: &mut Vec<u8>, file: &File) -> (result: Result<(), EncodeError>)
    ensures
        result is Ok <==> file_fits(file@),
        result is Ok ==> final(out)@ == old(out)@ + file_bytes(file@),
        old(out)@.is_prefix_of(final(out)@),
{
    if file.name.len() > u32::MAX as usize {
        return Err(EncodeError::Oversize);
    }
    let ghost base = out@;
    let ghost view = file@;
    put_array_len(out, FILE_FIELDS);
    let ghost mut so_far = array_header(FILE_FIELDS as nat);
    put_bin(out, file.name.as_slice());
    proof {
        lemma_appended(base, so_far, bin_bytes(view.name));
        so_far = so_far + bin_bytes(view.name);
        reveal_strlit("flac");
        reveal_strlit("mp3");
    }
    put_key(out, file.format.to_str());
    proof {
        lemma_appended(base, so_far, str_bytes(view.format.name()));
        so_far = so_far + str_bytes(view.format.name());
    }
    if !put_text(out, file.title.as_str()) {
        return Err(EncodeError::Oversize);
    }
    proof {
        lemma_appended(base, so_far, str_bytes(view.title));
        so_far = so_far + str_bytes(view.title);
    }
    if !put_text(out, file.artist.as_str()) {
        return Err(EncodeError::Oversize);
    }
    proof {
        lemma_appended(base, so_far, str_bytes(view.artist));
        so_far = so_far + str_bytes(view.artist);
    }
    if !put_text(out, file.album.as_str()) {
        return Err(EncodeError::Oversize);
    }
    proof {
        lemma_appended(base, so_far, str_bytes(view.album));
        so_far = so_far + str_bytes(view.album);
    }
    if !put_text(out, file.album_artist.as_str()) {
        return Err(EncodeError::Oversize);
    }
    proof {
        lemma_appended(base, so_far, str_bytes(view.album_artist));
        so_far = so_far + str_bytes(view.album_artist);
    }
    put_sint(out, file.year);
    proof {
        lemma_appended(base, so_far, sint_bytes(view.year as int));
        so_far = so_far + sint_bytes(view.year as int);
    }
    put_sint(out, file.disc);
    proof {
        lemma_appended(base, so_far, sint_bytes(view.disc as int));
        so_far = so_far + sint_bytes(view.disc as int);
    }
    put_sint(out, file.total_discs);
    proof {
        lemma_appended(base, so_far, sint_bytes(view.total_discs as int));
        so_far = so_far + sint_bytes(view.total_discs as int);
    }
    put_sint(out, file.track);
    proof {
        lemma_appended(base, so_far, sint_bytes(view.track as int));
        so_far = so_far + sint_bytes(view.track as int);
    }
    put_sint(out, file.total_tracks);
    proof {
        lemma_appended(base, so_far, sint_bytes(view.total_tracks as int));
        so_far = so_far + sint_bytes(view.total_tracks as int);
    }
    Ok(())
}

/// What begins what begins a third begins the third.
proof fn lemma_begins(first: Seq<u8>, second: Seq<u8>, third: Seq<u8>)
    requires
        first.is_prefix_of(second),
        second.is_prefix_of(third),
    ensures
        first.is_prefix_of(third),
{
    assert(third.subrange(0, first.len() as int) =~= second.subrange(0, first.len() as int));
}

/// Appends the record of a folder, unless one of its counts or lengths is
/// over 32 bits. Then a part of the record may have been appended.
pub fn encode_folder(out: &mut Vec<u8>, folder: &Folder) -> (result: Result<(), EncodeError>)
    ensures
        result is Ok <==> folder_fits(folder@),
        result is Ok ==> final(out)@ == old(out)@ + folder_bytes(folder@),
        old(out)@.is_prefix_of(final(out)@),
{
    if folder.path.len() > u32::MAX as usize || folder.files.len() > u32::MAX as usize {
        return Err(EncodeError::Oversize);
    }
    let ghost base = out@;
    let ghost files = views(folder.files@);
    put_map_len(out, 2);
    let ghost mut so_far = map_header(2);
    proof {
        reveal_strlit("path");
        reveal_strlit("files");
    }
    put_key(out, "path");
    proof {
        lemma_appended(base, so_far, str_bytes("path"@));
        so_far = so_far + str_bytes("path"@);
    }
    put_bin(out, folder.path.as_slice());
    proof {
        lemma_appended(base, so_far, bin_bytes(folder.path@));
        so_far = so_far + bin_bytes(folder.path@);
    }
    put_key(out, "files");
    proof {
        lemma_appended(base, so_far, str_bytes("files"@));
        so_far = so_far + str_bytes("files"@);
    }
    put_array_len(out, folder.files.len() as u32);
    proof {
        lemma_appended(base, so_far, array_header(files.len()));
        so_far = so_far + array_header(files.len());
    }
    let ghost head = so_far;
    let mut i: usize = 0;
    assert(files_bytes(files.take(0)) =~= Seq::<u8>::empty());
    assert(out@ =~= base + (head + files_bytes(files.take(0))));
    while i < folder.files.len()
        invariant
            i <= folder.files.len(),
            files == views(folder.files@),
            forall|j: int| 0 <= j < i ==> file_fits(#[trigger] files[j]),
            base == old(out)@,
            out@ == base + (head + files_bytes(files.take(i as int))),
        decreases folder.files.len() - i,
    {
        let ghost before = out@;
        let ghost written = head + files_bytes(files.take(i as int));
        match encode_file(out, &folder.files[i]) {
            Ok(()) => {},
            Err(e) => {
                proof {
                    assert(!file_fits(folder@.files[i as int]));
                    assert(base.is_prefix_of(before));
                    lemma_begins(base, before, out@);
                }
                return Err(e);
            },
        }
        proof {
            assert(files.take(i + 1).drop_last() =~= files.take(i as int));
            assert(files.take(i + 1).last() == files[i as int]);
            lemma_appended(base, written, file_bytes(files[i as int]));
            lemma_appended(head, files_bytes(files.take(i as int)), file_bytes(files[i as int]));
        }
        i += 1;
    }
    assert(files.take(i as int) =~= files);
    assert(base.is_prefix_of(out@));
    Ok(())
}

/// Writes the envelope for the folders and the errors of a scan. Of the
/// errors only their number goes into it. There is no envelope where a count
/// or a length is over 32 bits.
pub fn encode(folders: Vec<Folder>, errors: Vec<Error>) -> (result: Result<Vec<u8>, EncodeError>)
    ensures
        result is Ok <==> fits(views(folders@)),
        result matches Ok(bytes) ==> {
            &&& bytes@ == envelope(errors@.len(), views(folders@))
            &&& decoded(bytes@) == Some((errors@.len(), views(folders@)))
        },
{
    let mut out: Vec<u8> = Vec::new();
    if folders.len() > u32::MAX as usize {
        return Err(EncodeError::Oversize);
    }
    put_map_len(&mut out, 3);
    proof {
        reveal_strlit("errors");
        reveal_strlit("version");
        reveal_strlit("folders");
    }
    put_key(&mut out, "errors");
    put_uint(&mut out, errors.len() as u64);
    put_key(&mut out, "version");
    put_uint(&mut out, VERSION);
    put_key(&mut out, "folders");
    put_array_len(&mut out, folders.len() as u32);
    let ghost start = out@;
    let ghost all = views(folders@);
    let mut i: usize = 0;
    while i < folders.len()
        invariant
            i <= folders.len(),
            all == views(folders@),
            forall|j: int| 0 <= j < i ==> folder_fits(#[trigger] all[j]),
            out@ == start + folders_bytes(all.take(i as int)),
        decreases folders.len() - i,
    {
        match encode_folder(&mut out, &folders[i]) {
            Ok(()) => {},
            Err(e) => {
                assert(!folder_fits(all[i as int]));
                return Err(e);
            },
        }
        proof {
            assert(all.take(i + 1).drop_last() =~= all.take(i as int));
            assert(all.take(i + 1).last() == all[i as int]);
            assert(out@ =~= start + folders_bytes(all.take(i + 1)));
        }
        i += 1;
    }
    assert(all.take(i as int) =~= all);
    assert(out@ =~= envelope(errors@.len(), all));
    proof {
        lemma_round_trip(errors@.len(), all);
    }
    Ok(out)
}

} // verus!
