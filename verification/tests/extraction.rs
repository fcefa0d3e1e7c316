use id3::TagLike;
use tagscan::data::{File, Format};
use tagscan::extract::{
    count_or_default, file_from_comments, file_from_id3, first_text, number_or_default,
    read_file, text_or_default, year_or_default, TagRead,
};

fn flac_tag(comments: &[(&str, &[&str])]) -> metaflac::Tag {
    let mut tag = metaflac::Tag::new();
    for (key, values) in comments {
        tag.set_vorbis(*key, values.to_vec());
    }
    tag
}

fn through_bytes(mut tag: metaflac::Tag) -> metaflac::Tag {
    let mut bytes = Vec::new();
    tag.write_to(&mut bytes).unwrap();
    metaflac::Tag::read_from(&mut &bytes[..]).unwrap()
}

#[test]
fn flac_fields_and_defaults() {
    let tag = flac_tag(&[("TITLE", &["Song1"]), ("ARTIST", &["Band"]), ("TRACKNUMBER", &["1"])]);
    let file = read_file(b"Album A/song.flac", b"song.flac", TagRead::Flac(Ok(tag))).unwrap();
    assert_eq!(
        file,
        File {
            name: b"song.flac".to_vec(),
            format: Format::FLAC,
            title: "Song1".to_string(),
            artist: "Band".to_string(),
            album: String::new(),
            album_artist: String::new(),
            year: 0,
            disc: 0,
            total_discs: 0,
            track: 1,
            total_tracks: 0,
        }
    );
}

#[test]
fn flac_every_field() {
    let tag = flac_tag(&[
        ("TITLE", &["T"]),
        ("ARTIST", &["A"]),
        ("ALBUM", &["L"]),
        ("ALBUMARTIST", &["AA"]),
        ("YEAR", &["1999"]),
        ("DISCNUMBER", &["2"]),
        ("TOTALDISCS", &["3"]),
        ("TRACKNUMBER", &["4"]),
        ("TOTALTRACKS", &["12"]),
    ]);
    let file = read_file(b"x.flac", b"x.flac", TagRead::Flac(Ok(tag))).unwrap();
    assert_eq!(
        file,
        File {
            name: b"x.flac".to_vec(),
            format: Format::FLAC,
            title: "T".to_string(),
            artist: "A".to_string(),
            album: "L".to_string(),
            album_artist: "AA".to_string(),
            year: 1999,
            disc: 2,
            total_discs: 3,
            track: 4,
            total_tracks: 12,
        }
    );
}

#[test]
fn flac_first_value_counts() {
    let tag = flac_tag(&[("ARTIST", &["First", "Second"]), ("YEAR", &["2001", "2002"])]);
    let file = read_file(b"x.flac", b"x.flac", TagRead::Flac(Ok(tag))).unwrap();
    assert_eq!(file.artist, "First");
    assert_eq!(file.year, 2001);
}

#[test]
fn flac_first_value_that_is_no_number_gives_zero() {
    let tag = flac_tag(&[("YEAR", &["unknown", "2002"]), ("TRACKNUMBER", &["3/12"])]);
    let file = read_file(b"x.flac", b"x.flac", TagRead::Flac(Ok(tag))).unwrap();
    assert_eq!(file.year, 0);
    assert_eq!(file.track, 0);
}

#[test]
fn flac_numbers_that_do_not_parse_give_zero() {
    let tag = flac_tag(&[
        ("YEAR", &[""]),
        ("DISCNUMBER", &[" 1"]),
        ("TOTALDISCS", &["99999999999999999999"]),
        ("TRACKNUMBER", &["-5"]),
        ("TOTALTRACKS", &["+7"]),
    ]);
    let file = read_file(b"x.flac", b"x.flac", TagRead::Flac(Ok(tag))).unwrap();
    assert_eq!(file.year, 0);
    assert_eq!(file.disc, 0);
    assert_eq!(file.total_discs, 0);
    assert_eq!(file.track, -5);
    assert_eq!(file.total_tracks, 7);
}

#[test]
fn flac_key_without_values() {
    let mut tag = metaflac::Tag::new();
    tag.vorbis_comments_mut().comments.insert("TITLE".to_string(), Vec::new());
    tag.vorbis_comments_mut().comments.insert("YEAR".to_string(), Vec::new());
    let file = read_file(b"x.flac", b"x.flac", TagRead::Flac(Ok(tag))).unwrap();
    assert_eq!(file.title, "");
    assert_eq!(file.year, 0);
}

#[test]
fn flac_keys_are_looked_up_as_written() {
    let mut tag = metaflac::Tag::new();
    tag.vorbis_comments_mut().comments.insert("title".to_string(), vec!["lower".to_string()]);
    let file = read_file(b"x.flac", b"x.flac", TagRead::Flac(Ok(tag))).unwrap();
    assert_eq!(file.title, "");
}

#[test]
fn flac_read_from_bytes() {
    let tag = through_bytes(flac_tag(&[
        ("title", &["Song1"]),
        ("ARTIST", &["Band"]),
        ("TRACKNUMBER", &["1"]),
    ]));
    let file = read_file(b"song.flac", b"song.flac", TagRead::Flac(Ok(tag))).unwrap();
    assert_eq!(file.title, "Song1");
    assert_eq!(file.artist, "Band");
    assert_eq!(file.track, 1);
    assert_eq!(file.album, "");
    assert_eq!(file.year, 0);
    assert_eq!(file.disc, 0);
}

#[test]
fn flac_without_comment_block_is_missing_metadata() {
    let tag = metaflac::Tag::new();
    let e = read_file(b"dir/x.flac", b"x.flac", TagRead::Flac(Ok(tag))).unwrap_err();
    assert_eq!(e.what(), "metadata");
    assert_eq!(e.path(), "dir/x.flac");
}

#[test]
fn flac_with_empty_comment_block_gives_defaults() {
    let mut tag = metaflac::Tag::new();
    tag.vorbis_comments_mut();
    let file = read_file(b"dir/x.flac", b"x.flac", TagRead::Flac(Ok(tag))).unwrap();
    assert_eq!(
        file,
        File {
            name: b"x.flac".to_vec(),
            format: Format::FLAC,
            title: String::new(),
            artist: String::new(),
            album: String::new(),
            album_artist: String::new(),
            year: 0,
            disc: 0,
            total_discs: 0,
            track: 0,
            total_tracks: 0,
        }
    );
}

#[test]
fn flac_that_cannot_be_read() {
    let cause = metaflac::Tag::read_from(&mut &b"not a flac stream"[..]).unwrap_err();
    let e = read_file(b"dir/x.flac", b"x.flac", TagRead::Flac(Err(cause))).unwrap_err();
    assert_eq!(e.what(), "failed to read flac tags");
    assert_eq!(e.path(), "dir/x.flac");
}

#[test]
fn comment_block_alone() {
    let mut block = metaflac::block::VorbisComment::new();
    block.set("TITLE", vec!["One"]);
    block.set("TOTALTRACKS", vec!["9"]);
    let file = file_from_comments(b"one.flac", &block);
    assert_eq!(file.name, b"one.flac".to_vec());
    assert_eq!(file.format, Format::FLAC);
    assert_eq!(file.title, "One");
    assert_eq!(file.total_tracks, 9);
    assert_eq!(file.artist, "");
}

#[test]
fn mp3_without_artist() {
    let mut tag = id3::Tag::new();
    tag.set_title("Only a title");
    let file = read_file(b"a.mp3", b"a.mp3", TagRead::Mp3(Ok(tag))).unwrap();
    assert_eq!(file.artist, "");
    assert_eq!(file.title, "Only a title");
}

#[test]
fn mp3_empty_tag_gives_defaults() {
    let file = read_file(b"dir/a.mp3", b"a.mp3", TagRead::Mp3(Ok(id3::Tag::new()))).unwrap();
    assert_eq!(
        file,
        File {
            name: b"a.mp3".to_vec(),
            format: Format::MP3,
            title: String::new(),
            artist: String::new(),
            album: String::new(),
            album_artist: String::new(),
            year: 0,
            disc: 0,
            total_discs: 0,
            track: 0,
            total_tracks: 0,
        }
    );
}

#[test]
fn mp3_every_field() {
    let mut tag = id3::Tag::new();
    tag.set_title("T");
    tag.set_artist("A");
    tag.set_album("L");
    tag.set_album_artist("AA");
    tag.set_year(1987);
    tag.set_disc(2);
    tag.set_total_discs(3);
    tag.set_track(4);
    tag.set_total_tracks(12);
    let file = file_from_id3(b"x.mp3", &tag);
    assert_eq!(
        file,
        File {
            name: b"x.mp3".to_vec(),
            format: Format::MP3,
            title: "T".to_string(),
            artist: "A".to_string(),
            album: "L".to_string(),
            album_artist: "AA".to_string(),
            year: 1987,
            disc: 2,
            total_discs: 3,
            track: 4,
            total_tracks: 12,
        }
    );
}

#[test]
fn mp3_each_field_from_its_own_accessor() {
    let mut tag = id3::Tag::new();
    tag.set_album("only album");
    let file = file_from_id3(b"x.mp3", &tag);
    assert_eq!((file.title.as_str(), file.artist.as_str()), ("", ""));
    assert_eq!((file.album.as_str(), file.album_artist.as_str()), ("only album", ""));
    let mut tag = id3::Tag::new();
    tag.set_album_artist("only album artist");
    let file = file_from_id3(b"x.mp3", &tag);
    assert_eq!((file.album.as_str(), file.album_artist.as_str()), ("", "only album artist"));
    let mut tag = id3::Tag::new();
    tag.set_text("TPOS", "5");
    let file = file_from_id3(b"x.mp3", &tag);
    assert_eq!((file.disc, file.total_discs, file.track, file.total_tracks), (5, 0, 0, 0));
    let mut tag = id3::Tag::new();
    tag.set_text("TRCK", "7/9");
    let file = file_from_id3(b"x.mp3", &tag);
    assert_eq!((file.disc, file.total_discs, file.track, file.total_tracks), (0, 0, 7, 9));
    let mut tag = id3::Tag::new();
    tag.set_text("TPOS", "1/2");
    let file = file_from_id3(b"x.mp3", &tag);
    assert_eq!((file.disc, file.total_discs, file.track, file.total_tracks), (1, 2, 0, 0));
}

#[test]
fn mp3_large_and_negative_numbers_are_widened() {
    let mut tag = id3::Tag::new();
    tag.set_text("TYER", "-44");
    tag.set_text("TRCK", "4294967295/4294967295");
    let file = file_from_id3(b"x.mp3", &tag);
    assert_eq!(file.year, -44);
    assert_eq!(file.track, 4294967295);
    assert_eq!(file.total_tracks, 4294967295);
}

#[test]
fn mp3_read_from_bytes() {
    let mut tag = id3::Tag::new();
    tag.set_title("Song2");
    tag.set_track(3);
    let mut bytes = Vec::new();
    tag.write_to(&mut bytes, id3::Version::Id3v24).unwrap();
    let read = id3::Tag::read_from2(std::io::Cursor::new(bytes));
    let file = read_file(b"b.mp3", b"b.mp3", TagRead::Mp3(read)).unwrap();
    assert_eq!(file.title, "Song2");
    assert_eq!(file.artist, "");
    assert_eq!(file.track, 3);
    assert_eq!(file.total_tracks, 0);
}

#[test]
fn mp3_that_cannot_be_read() {
    let read = id3::Tag::read_from2(std::io::Cursor::new(b"no tag in here".to_vec()));
    assert!(read.is_err());
    let e = read_file(b"dir/a.mp3", b"a.mp3", TagRead::Mp3(read)).unwrap_err();
    assert_eq!(e.what(), "failed to read id3 tags");
    assert_eq!(e.path(), "dir/a.mp3");
}

#[test]
fn record_carries_the_name_not_the_path() {
    let file = read_file(b"a/b/c.mp3", b"c.mp3", TagRead::Mp3(Ok(id3::Tag::new()))).unwrap();
    assert_eq!(file.name, b"c.mp3".to_vec());
    let mut tag = metaflac::Tag::new();
    tag.vorbis_comments_mut();
    let file = read_file(b"a/b/c\xff.flac", b"c\xff.flac", TagRead::Flac(Ok(tag))).unwrap();
    assert_eq!(file.name, b"c\xff.flac".to_vec());
}

#[test]
fn tag_read_knows_its_format() {
    assert_eq!(TagRead::Flac(Ok(metaflac::Tag::new())).format(), Format::FLAC);
    assert_eq!(TagRead::Mp3(Ok(id3::Tag::new())).format(), Format::MP3);
}

#[test]
fn field_defaults() {
    assert_eq!(text_or_default(None), "");
    assert_eq!(text_or_default(Some("x")), "x");
    assert_eq!(number_or_default(None), 0);
    assert_eq!(number_or_default(Some("12")), 12);
    assert_eq!(number_or_default(Some("twelve")), 0);
    assert_eq!(year_or_default(None), 0);
    assert_eq!(year_or_default(Some(-3)), -3);
    assert_eq!(year_or_default(Some(i32::MIN)), -2147483648);
    assert_eq!(count_or_default(None), 0);
    assert_eq!(count_or_default(Some(u32::MAX)), 4294967295);
    let values = vec!["a".to_string(), "b".to_string()];
    assert_eq!(first_text(Some(&values)), Some("a"));
    assert_eq!(first_text(Some(&Vec::new())), None);
    assert_eq!(first_text(None), None);
}
