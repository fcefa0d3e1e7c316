//! The records that a scan produces.

use vstd::prelude::*;

verus! {

/// The tag container of an audio file.
#[derive(Clone, Copy, Debug, PartialEq, Eq, Structural)]
pub enum Format {
    FLAC,
    MP3,
}

/// The bytes of a text that holds ASCII only.
pub open spec fn ascii_bytes(text: Seq<char>) -> Seq<u8> {
    Seq::new(text.len(), |i: int| text[i] as u8)
}

/// Whether `name` has the extension `ext`: it ends in a dot and `ext`, and the
/// dot is not its first byte. The comparison is exact, byte for byte.
pub open spec fn has_extension(name: Seq<u8>, ext: Seq<u8>) -> bool {
    &&& name.len() > ext.len() + 1
    &&& name[name.len() - ext.len() - 1] == 0x2e
    &&& name.subrange(name.len() - ext.len(), name.len() as int) == ext
}

fn ends_with_extension(name: &[u8], ext: &[u8]) -> (yes: bool)
    ensures
        yes == has_extension(name@, ext@),
{
    let n = name.len();
    let k = ext.len();
    if n <= k || n - k < 2 {
        return false;
    }
    if name[n - k - 1] != 0x2e {
        return false;
    }
    let mut i: usize = 0;
    while i < k
        invariant
            i <= k,
            k == ext.len(),
            n == name.len(),
            n > k + 1,
            forall|j: int| 0 <= j < i ==> name[n - k + j] == ext[j],
        decreases k - i,
    {
        if name[n - k + i] != ext[i] {
            assert(name@.subrange(n - k, n as int)[i as int] != ext@[i as int]);
            return false;
        }
        i += 1;
    }
    assert(name@.subrange(n - k, n as int) =~= ext@);
    true
}

impl Format {
    /// The name of the format: the file extension that selects it, and the
    /// string that stands for it on the wire.
    pub open spec fn name(self) -> Seq<char> {
        match self {
            Format::FLAC => "flac"@,
            Format::MP3 => "mp3"@,
        }
    }

    /// The format that a file name selects by its extension, if any.
    pub open spec fn of_name(name: Seq<u8>) -> Option<Format> {
        if has_extension(name, ascii_bytes(Format::FLAC.name())) {
            Some(Format::FLAC)
        } else if has_extension(name, ascii_bytes(Format::MP3.name())) {
            Some(Format::MP3)
        } else {
            None
        }
    }

    pub fn to_str(&self) -> (s: &'static str)
        ensures
            s@ == self.name(),
    {
        match self {
            Format::FLAC => "flac",
            Format::MP3 => "mp3",
        }
    }

    /// Picks the format for a file by the extension of its name.
    pub fn from_name(name: &[u8]) -> (format: Option<Format>)
        ensures
            format == Format::of_name(name@),
    {
        broadcast use vstd::string::is_ascii_spec_bytes;

        let flac = Format::FLAC.to_str();
        let mp3 = Format::MP3.to_str();
        proof {
            reveal_strlit("flac");
            reveal_strlit("mp3");
            assert(vstd::string::is_ascii(flac));
            assert(vstd::string::is_ascii(mp3));
        }
        if ends_with_extension(name, flac.as_bytes()) {
            Some(Format::FLAC)
        } else if ends_with_extension(name, mp3.as_bytes()) {
            Some(Format::MP3)
        } else {
            None
        }
    }
}

/// One audio file and what its tag says.
#[derive(Clone, Debug, PartialEq, Eq)]
pub struct File {
    pub name: Vec<u8>,
    pub format: Format,
    pub title: String,
    pub artist: String,
    pub album: String,
    pub album_artist: String,
    pub year: i64,
    pub disc: i64,
    pub total_discs: i64,
    pub track: i64,
    pub total_tracks: i64,
}

/// A `File` as a mathematical value.
pub ghost struct FileView {
    pub name: Seq<u8>,
    pub format: Format,
    pub title: Seq<char>,
    pub artist: Seq<char>,
    pub album: Seq<char>,
    pub album_artist: Seq<char>,
    pub year: i64,
    pub disc: i64,
    pub total_discs: i64,
    pub track: i64,
    pub total_tracks: i64,
}

impl View for File {
    type V = FileView;

    open spec fn view(&self) -> FileView {
        FileView {
            name: self.name@,
            format: self.format,
            title: self.title@,
            artist: self.artist@,
            album: self.album@,
            album_artist: self.album_artist@,
            year: self.year,
            disc: self.disc,
            total_discs: self.total_discs,
            track: self.track,
            total_tracks: self.total_tracks,
        }
    }
}

/// A directory and the audio files found directly in it, in the order in
/// which the directory listed them.
#[derive(Clone, Debug, PartialEq, Eq)]
pub struct Folder {
    pub path: Vec<u8>,
    pub files: Vec<File>,
}

/// A `Folder` as a mathematical value.
pub ghost struct FolderView {
    pub path: Seq<u8>,
    pub files: Seq<FileView>,
}

/// The views of the items of a sequence, in the same order.
pub open spec fn views<T: View>(items: Seq<T>) -> Seq<T::V> {
    Seq::new(items.len(), |i: int| items[i]@)
}

impl View for Folder {
    type V = FolderView;

    open spec fn view(&self) -> FolderView {
        FolderView { path: self.path@, files: views(self.files@) }
    }
}

} // verus!
