//! From the tag of an audio file to its record.

use crate::data::{views, File, FileView, Format};
use crate::error::{failed_flac, failed_id3, failure_at, missing, Error, ErrorView};
use crate::number::{parse_i64, parsed_i64};
use id3::Error as Id3Error;
use metaflac::block::VorbisComment;
use metaflac::Error as FlacError;
use vstd::prelude::*;
use vstd::string::StringExecFns;

verus! {

/// `metaflac::Tag`, a FLAC tag as it was read. It is looked into through
/// `comment_block` only.
#[verifier::external_type_specification]
#[verifier::external_body]
pub struct ExFlacTag(metaflac::Tag);

/// `metaflac::block::VorbisComment`, the comment block of a FLAC tag. It
/// is looked into through `comment_values` only.
#[verifier::external_type_specification]
#[verifier::external_body]
pub struct ExVorbisComment(VorbisComment);

/// `id3::Tag`, an ID3 tag as it was read. It is looked into through its
/// nine accessors only.
#[verifier::external_type_specification]
#[verifier::external_body]
pub struct ExId3Tag(id3::Tag);

/// The comments of a FLAC tag, each key with its values in their order:
/// those of its first comment block, or `None` where it has no such block.
pub uninterp spec fn flac_comments(tag: metaflac::Tag) -> Option<Map<Seq<char>, Seq<Seq<char>>>>;

/// The comments that a comment block holds, each key with its values in
/// their order.
pub uninterp spec fn comments_of(block: VorbisComment) -> Map<Seq<char>, Seq<Seq<char>>>;

/// What `title` gives for an ID3 tag.
pub uninterp spec fn id3_title(tag: id3::Tag) -> Option<Seq<char>>;

/// What `artist` gives for an ID3 tag.
pub uninterp spec fn id3_artist(tag: id3::Tag) -> Option<Seq<char>>;

/// What `album` gives for an ID3 tag.
pub uninterp spec fn id3_album(tag: id3::Tag) -> Option<Seq<char>>;

/// What `album_artist` gives for an ID3 tag.
pub uninterp spec fn id3_album_artist(tag: id3::Tag) -> Option<Seq<char>>;

/// What `year` gives for an ID3 tag.
pub uninterp spec fn id3_year(tag: id3::Tag) -> Option<i32>;

/// What `disc` gives for an ID3 tag.
pub uninterp spec fn id3_disc(tag: id3::Tag) -> Option<u32>;

/// What `total_discs` gives for an ID3 tag.
pub uninterp spec fn id3_total_discs(tag: id3::Tag) -> Option<u32>;

/// What `track` gives for an ID3 tag.
pub uninterp spec fn id3_track(tag: id3::Tag) -> Option<u32>;

/// What `total_tracks` gives for an ID3 tag.
pub uninterp spec fn id3_total_tracks(tag: id3::Tag) -> Option<u32>;

/// An optional text as a mathematical value.
pub open spec fn shown(text: Option<&str>) -> Option<Seq<char>> {
    match text {
        Some(s) => Some(s@),
        None => None,
    }
}

/// Calls `metaflac::Tag::vorbis_comments`, which returns the first comment
/// block of the tag. The contract ties the block's comments to the tag's.
#[verifier::external_body]
fn comment_block(tag: &metaflac::Tag) -> (block: Option<&VorbisComment>)
    ensures
        match block {
            Some(b) => flac_comments(*tag) == Some(comments_of(*b)),
            None => flac_comments(*tag) is None,
        },
{
    tag.vorbis_comments()
}

/// Calls `VorbisComment::get`, a lookup of the key in the block's map of
/// comments.
#[verifier::external_body]
fn comment_values<'a>(block: &'a VorbisComment, key: &str) -> (values: Option<&'a Vec<String>>)
    ensures
        match values {
            Some(v) => comments_of(*block).contains_key(key@) && views(v@) == comments_of(
                *block,
            )[key@],
            None => !comments_of(*block).contains_key(key@),
        },
{
    block.get(key)
}

/// Calls `id3::TagLike::title`, which gives the text of the tag's first
/// `TIT2` frame. The contract names the result.
#[verifier::external_body]
fn title_of(tag: &id3::Tag) -> (text: Option<&str>)
    ensures
        shown(text) == id3_title(*tag),
{
    id3::TagLike::title(tag)
}

/// Calls `id3::TagLike::artist`, which gives the text of the tag's first
/// `TPE1` frame. The contract names the result.
#[verifier::external_body]
fn artist_of(tag: &id3::Tag) -> (text: Option<&str>)
    ensures
        shown(text) == id3_artist(*tag),
{
    id3::TagLike::artist(tag)
}

/// Calls `id3::TagLike::album`, which gives the text of the tag's first
/// `TALB` frame. The contract names the result.
#[verifier::external_body]
fn album_of(tag: &id3::Tag) -> (text: Option<&str>)
    ensures
        shown(text) == id3_album(*tag),
{
    id3::TagLike::album(tag)
}

/// Calls `id3::TagLike::album_artist`, which gives the text of the tag's
/// first `TPE2` frame. The contract names the result.
#[verifier::external_body]
fn album_artist_of(tag: &id3::Tag) -> (text: Option<&str>)
    ensures
        shown(text) == id3_album_artist(*tag),
{
    id3::TagLike::album_artist(tag)
}

/// Calls `id3::TagLike::year`, which reads the text of the tag's first `TYER`
/// frame as a number. The contract names the result.
#[verifier::external_body]
fn year_of(tag: &id3::Tag) -> (number: Option<i32>)
    ensures
        number == id3_year(*tag),
{
    id3::TagLike::year(tag)
}

/// Calls `id3::TagLike::disc`, which reads the first number in the text of
/// the tag's first `TPOS` frame. The contract names the result.
#[verifier::external_body]
fn disc_of(tag: &id3::Tag) -> (number: Option<u32>)
    ensures
        number == id3_disc(*tag),
{
    id3::TagLike::disc(tag)
}

/// Calls `id3::TagLike::total_discs`, which reads the second number in the
/// text of the tag's first `TPOS` frame. The contract names the result.
#[verifier::external_body]
fn total_discs_of(tag: &id3::Tag) -> (number: Option<u32>)
    ensures
        number == id3_total_discs(*tag),
{
    id3::TagLike::total_discs(tag)
}

/// Calls `id3::TagLike::track`, which reads the first number in the text of
/// the tag's first `TRCK` frame. The contract names the result.
#[verifier::external_body]
fn track_of(tag: &id3::Tag) -> (number: Option<u32>)
    ensures
        number == id3_track(*tag),
{
    id3::TagLike::track(tag)
}

/// Calls `id3::TagLike::total_tracks`, which reads the second number in the
/// text of the tag's first `TRCK` frame. The contract names the result.
#[verifier::external_body]
fn total_tracks_of(tag: &id3::Tag) -> (number: Option<u32>)
    ensures
        number == id3_total_tracks(*tag),
{
    id3::TagLike::total_tracks(tag)
}

/// The first of the values of a key, if the key is there and has one.
pub open spec fn first_value(
    comments: Map<Seq<char>, Seq<Seq<char>>>,
    key: Seq<char>,
) -> Option<Seq<char>> {
    if comments.contains_key(key) && comments[key].len() > 0 {
        Some(comments[key][0])
    } else {
        None
    }
}

/// A text field: the value, or the empty text where there is none.
pub open spec fn text_or_empty(value: Option<Seq<char>>) -> Seq<char> {
    match value {
        Some(text) => text,
        None => Seq::empty(),
    }
}

/// A numeric field written as text: the number that the value writes, or 0
/// where there is no value or it writes no `i64`.
pub open spec fn number_or_zero(value: Option<Seq<char>>) -> i64 {
    match value {
        Some(text) => match parsed_i64(text) {
            Some(number) => number,
            None => 0,
        },
        None => 0,
    }
}

/// A numeric field of a signed accessor: the value, or 0 where there is none.
pub open spec fn year_or_zero(value: Option<i32>) -> i64 {
    match value {
        Some(number) => number as i64,
        None => 0,
    }
}

/// A numeric field of an unsigned accessor: the value, or 0 where there is
/// none.
pub open spec fn count_or_zero(value: Option<u32>) -> i64 {
    match value {
        Some(number) => number as i64,
        None => 0,
    }
}

/// The record of a FLAC file with the given name and comments.
pub open spec fn flac_record(name: Seq<u8>, comments: Map<Seq<char>, Seq<Seq<char>>>) -> FileView {
    FileView {
        name,
        format: Format::FLAC,
        title: text_or_empty(first_value(comments, "TITLE"@)),
        artist: text_or_empty(first_value(comments, "ARTIST"@)),
        album: text_or_empty(first_value(comments, "ALBUM"@)),
        album_artist: text_or_empty(first_value(comments, "ALBUMARTIST"@)),
        year: number_or_zero(first_value(comments, "YEAR"@)),
        disc: number_or_zero(first_value(comments, "DISCNUMBER"@)),
        total_discs: number_or_zero(first_value(comments, "TOTALDISCS"@)),
        track: number_or_zero(first_value(comments, "TRACKNUMBER"@)),
        total_tracks: number_or_zero(first_value(comments, "TOTALTRACKS"@)),
    }
}

/// The record of an MP3 file with the given name and ID3 tag.
pub open spec fn mp3_record(name: Seq<u8>, tag: id3::Tag) -> FileView {
    FileView {
        name,
        format: Format::MP3,
        title: text_or_empty(id3_title(tag)),
        artist: text_or_empty(id3_artist(tag)),
        album: text_or_empty(id3_album(tag)),
        album_artist: text_or_empty(id3_album_artist(tag)),
        year: year_or_zero(id3_year(tag)),
        disc: count_or_zero(id3_disc(tag)),
        total_discs: count_or_zero(id3_total_discs(tag)),
        track: count_or_zero(id3_track(tag)),
        total_tracks: count_or_zero(id3_total_tracks(tag)),
    }
}

/// The first of a key's values.
pub fn first_text<'a>(values: Option<&'a Vec<String>>) -> (first: Option<&'a str>)
    ensures
        shown(first) == (match values {
            Some(v) => if v.len() > 0 { Some(v[0]@) } else { None },
            None => None,
        }),
{
    match values {
        Some(v) => if v.len() > 0 { Some(v[0].as_str()) } else { None },
        None => None,
    }
}

/// The text of a field, empty where the tag has none.
pub fn text_or_default(value: Option<&str>) -> (text: String)
    ensures
        text@ == text_or_empty(shown(value)),
{
    match value {
        Some(s) => String::from_str(s),
        None => String::new(),
    }
}

/// The number of a field that the tag holds as text, 0 where the tag has
/// none or the text is no number.
pub fn number_or_default(value: Option<&str>) -> (number: i64)
    ensures
        number == number_or_zero(shown(value)),
{
    match value {
        Some(s) => match parse_i64(s) {
            Some(n) => n,
            None => 0,
        },
        None => 0,
    }
}

/// The year of a field, 0 where the tag has none.
pub fn year_or_default(value: Option<i32>) -> (number: i64)
    ensures
        number == year_or_zero(value),
{
    match value {
        Some(n) => n as i64,
        None => 0,
    }
}

/// The count of a field, 0 where the tag has none.
pub fn count_or_default(value: Option<u32>) -> (number: i64)
    ensures
        number == count_or_zero(value),
{
    match value {
        Some(n) => n as i64,
        None => 0,
    }
}

fn first_comment<'a>(block: &'a VorbisComment, key: &str) -> (first: Option<&'a str>)
    ensures
        shown(first) == first_value(comments_of(*block), key@),
{
    let values = comment_values(block, key);
    proof {
        if let Some(v) = values {
            assert(views(v@).len() == v@.len());
            if v@.len() > 0 {
                assert(views(v@)[0] == v@[0]@);
            }
        }
    }
    first_text(values)
}

/// Reads the record of a FLAC file out of its comment block. Of a key with
/// several values the first counts.
pub fn file_from_comments(name: &[u8], block: &VorbisComment) -> (file: File)
    ensures
        file@ == flac_record(name@, comments_of(*block)),
{
    File {
        name: vstd::slice::slice_to_vec(name),
        format: Format::FLAC,
        title: text_or_default(first_comment(block, "TITLE")),
        artist: text_or_default(first_comment(block, "ARTIST")),
        album: text_or_default(first_comment(block, "ALBUM")),
        album_artist: text_or_default(first_comment(block, "ALBUMARTIST")),
        year: number_or_default(first_comment(block, "YEAR")),
        disc: number_or_default(first_comment(block, "DISCNUMBER")),
        total_discs: number_or_default(first_comment(block, "TOTALDISCS")),
        track: number_or_default(first_comment(block, "TRACKNUMBER")),
        total_tracks: number_or_default(first_comment(block, "TOTALTRACKS")),
    }
}

/// Reads the record of an MP3 file out of its ID3 tag.
pub fn file_from_id3(name: &[u8], tag: &id3::Tag) -> (file: File)
    ensures
        file@ == mp3_record(name@, *tag),
{
    File {
        name: vstd::slice::slice_to_vec(name),
        format: Format::MP3,
        title: text_or_default(title_of(tag)),
        artist: text_or_default(artist_of(tag)),
        album: text_or_default(album_of(tag)),
        album_artist: text_or_default(album_artist_of(tag)),
        year: year_or_default(year_of(tag)),
        disc: count_or_default(disc_of(tag)),
        total_discs: count_or_default(total_discs_of(tag)),
        track: count_or_default(track_of(tag)),
        total_tracks: count_or_default(total_tracks_of(tag)),
    }
}

/// What an attempt to read the tag of a file gave.
pub enum TagRead {
    Flac(Result<metaflac::Tag, FlacError>),
    Mp3(Result<id3::Tag, Id3Error>),
}

impl TagRead {
    /// The format whose reader was used.
    pub open spec fn spec_format(&self) -> Format {
        match self {
            TagRead::Flac(_) => Format::FLAC,
            TagRead::Mp3(_) => Format::MP3,
        }
    }

    #[verifier::when_used_as_spec(spec_format)]
    pub fn format(&self) -> (format: Format)
        ensures
            format == self.spec_format(),
    {
        match self {
            TagRead::Flac(_) => Format::FLAC,
            TagRead::Mp3(_) => Format::MP3,
        }
    }
}

/// The record or the error that a read tag gives for the file `name` at
/// `path`.
pub open spec fn extracted(path: Seq<u8>, name: Seq<u8>, read: TagRead) -> Result<
    FileView,
    ErrorView,
> {
    match read {
        TagRead::Flac(Err(_)) => Err(failure_at("failed to read flac tags"@, path)),
        TagRead::Flac(Ok(tag)) => match flac_comments(tag) {
            Some(comments) => Ok(flac_record(name, comments)),
            None => Err(failure_at("metadata"@, path)),
        },
        TagRead::Mp3(Err(_)) => Err(failure_at("failed to read id3 tags"@, path)),
        TagRead::Mp3(Ok(tag)) => Ok(mp3_record(name, tag)),
    }
}

/// A record or an error as a mathematical value.
pub open spec fn outcome(result: Result<File, Error>) -> Result<FileView, ErrorView> {
    match result {
        Ok(file) => Ok(file@),
        Err(e) => Err(e@),
    }
}

/// Makes the record of the file `name` at `path` from what reading its tag
/// gave. It fails where the tag could not be read, and for a FLAC tag
/// without a comment block.
pub fn read_file(path: &[u8], name: &[u8], read: TagRead) -> (result: Result<File, Error>)
    ensures
        outcome(result) == extracted(path@, name@, read),
{
    match read {
        TagRead::Flac(Err(cause)) => {
            let make = failed_flac(path);
            Err(make(cause))
        },
        TagRead::Flac(Ok(tag)) => match comment_block(&tag) {
            Some(block) => Ok(file_from_comments(name, block)),
            None => {
                let make = missing("metadata", path);
                Err(make())
            },
        },
        TagRead::Mp3(Err(cause)) => {
            let make = failed_id3(path);
            Err(make(cause))
        },
        TagRead::Mp3(Ok(tag)) => Ok(file_from_id3(name, &tag)),
    }
}

} // verus!
