use tagscan::data::{File, Folder, Format};
use tagscan::encode::{encode, encode_file, encode_folder, FILE_FIELDS, VERSION};
use tagscan::error::Error;

fn song(name: &[u8], title: &str, track: i64) -> File {
    File {
        name: name.to_vec(),
        format: Format::MP3,
        title: title.to_string(),
        artist: String::new(),
        album: String::new(),
        album_artist: String::new(),
        year: 0,
        disc: 0,
        total_discs: 0,
        track,
        total_tracks: 0,
    }
}

fn io_errors(count: usize) -> Vec<Error> {
    (0..count).map(|_| Error::from(std::io::Error::new(std::io::ErrorKind::Other, "x"))).collect()
}

fn head(errors: &[u8], folders: &[u8]) -> Vec<u8> {
    let mut bytes = vec![0x83, 0xa6];
    bytes.extend_from_slice(b"errors");
    bytes.extend_from_slice(errors);
    bytes.push(0xa7);
    bytes.extend_from_slice(b"version");
    bytes.push(0x01);
    bytes.push(0xa7);
    bytes.extend_from_slice(b"folders");
    bytes.extend_from_slice(folders);
    bytes
}

fn numbers_of(file: &File) -> Vec<u8> {
    let mut out = Vec::new();
    encode_file(&mut out, file).unwrap();
    let skip = 1 + 2 + file.name.len() + 1 + file.format.to_str().len() + 4;
    out[skip..].to_vec()
}

fn with_year(year: i64) -> File {
    let mut file = song(b"", "", 0);
    file.year = year;
    file
}

#[test]
fn constants_of_the_layout() {
    assert_eq!(VERSION, 1);
    assert_eq!(FILE_FIELDS, 11);
}

#[test]
fn empty_envelope() {
    let bytes = encode(Vec::new(), Vec::new()).unwrap();
    assert_eq!(bytes, head(&[0x00], &[0x90]));
}

#[test]
fn envelope_counts_the_errors() {
    assert_eq!(encode(Vec::new(), io_errors(3)).unwrap(), head(&[0x03], &[0x90]));
    assert_eq!(encode(Vec::new(), io_errors(127)).unwrap(), head(&[0x7f], &[0x90]));
    assert_eq!(encode(Vec::new(), io_errors(128)).unwrap(), head(&[0xcc, 0x80], &[0x90]));
    assert_eq!(encode(Vec::new(), io_errors(255)).unwrap(), head(&[0xcc, 0xff], &[0x90]));
    assert_eq!(encode(Vec::new(), io_errors(256)).unwrap(), head(&[0xcd, 0x01, 0x00], &[0x90]));
    assert_eq!(
        encode(Vec::new(), io_errors(65535)).unwrap(),
        head(&[0xcd, 0xff, 0xff], &[0x90])
    );
    assert_eq!(
        encode(Vec::new(), io_errors(65536)).unwrap(),
        head(&[0xce, 0x00, 0x01, 0x00, 0x00], &[0x90])
    );
}

#[test]
fn file_record_byte_for_byte() {
    let file = File {
        name: b"a.flac".to_vec(),
        format: Format::FLAC,
        title: "T".to_string(),
        artist: "Ar".to_string(),
        album: "Alb".to_string(),
        album_artist: String::new(),
        year: 1999,
        disc: 1,
        total_discs: 2,
        track: -1,
        total_tracks: 300,
    };
    let mut out = vec![0xee];
    assert_eq!(encode_file(&mut out, &file), Ok(()));
    let mut expected = vec![0xee, 0x9b, 0xc4, 0x06];
    expected.extend_from_slice(b"a.flac");
    expected.push(0xa4);
    expected.extend_from_slice(b"flac");
    expected.extend_from_slice(&[0xa1, b'T', 0xa2, b'A', b'r', 0xa3, b'A', b'l', b'b', 0xa0]);
    expected.extend_from_slice(&[0xcd, 0x07, 0xcf, 0x01, 0x02, 0xff, 0xcd, 0x01, 0x2c]);
    assert_eq!(out, expected);
}

#[test]
fn folder_record_byte_for_byte() {
    let folder = Folder { path: b"Album A".to_vec(), files: vec![song(b"x.mp3", "X", 5)] };
    let mut out = Vec::new();
    assert_eq!(encode_folder(&mut out, &folder), Ok(()));
    let mut expected = vec![0x82, 0xa4];
    expected.extend_from_slice(b"path");
    expected.extend_from_slice(&[0xc4, 0x07]);
    expected.extend_from_slice(b"Album A");
    expected.push(0xa5);
    expected.extend_from_slice(b"files");
    expected.extend_from_slice(&[0x91, 0x9b, 0xc4, 0x05]);
    expected.extend_from_slice(b"x.mp3");
    expected.push(0xa3);
    expected.extend_from_slice(b"mp3");
    expected.extend_from_slice(&[0xa1, b'X', 0xa0, 0xa0, 0xa0, 0, 0, 0, 5, 0]);
    assert_eq!(out, expected);
    let bytes = encode(vec![folder], Vec::new()).unwrap();
    let mut whole = head(&[0x00], &[0x91]);
    whole.extend_from_slice(&expected);
    assert_eq!(bytes, whole);
}

#[test]
fn folder_without_files_is_written_as_it_is() {
    let folder = Folder { path: Vec::new(), files: Vec::new() };
    let mut out = Vec::new();
    assert_eq!(encode_folder(&mut out, &folder), Ok(()));
    let mut expected = vec![0x82, 0xa4];
    expected.extend_from_slice(b"path");
    expected.extend_from_slice(&[0xc4, 0x00, 0xa5]);
    expected.extend_from_slice(b"files");
    expected.push(0x90);
    assert_eq!(out, expected);
}

#[test]
fn signed_numbers_in_their_shortest_form() {
    assert_eq!(numbers_of(&with_year(0))[0..1], [0x00]);
    assert_eq!(numbers_of(&with_year(127))[0..1], [0x7f]);
    assert_eq!(numbers_of(&with_year(128))[0..2], [0xcc, 0x80]);
    assert_eq!(numbers_of(&with_year(255))[0..2], [0xcc, 0xff]);
    assert_eq!(numbers_of(&with_year(256))[0..3], [0xcd, 0x01, 0x00]);
    assert_eq!(numbers_of(&with_year(65535))[0..3], [0xcd, 0xff, 0xff]);
    assert_eq!(numbers_of(&with_year(65536))[0..5], [0xce, 0x00, 0x01, 0x00, 0x00]);
    assert_eq!(numbers_of(&with_year(4294967295))[0..5], [0xce, 0xff, 0xff, 0xff, 0xff]);
    assert_eq!(
        numbers_of(&with_year(4294967296))[0..9],
        [0xcf, 0x00, 0x00, 0x00, 0x01, 0x00, 0x00, 0x00, 0x00]
    );
    assert_eq!(
        numbers_of(&with_year(i64::MAX))[0..9],
        [0xcf, 0x7f, 0xff, 0xff, 0xff, 0xff, 0xff, 0xff, 0xff]
    );
    assert_eq!(numbers_of(&with_year(0x0102030405060708))[0..9], [0xcf, 1, 2, 3, 4, 5, 6, 7, 8]);
}

#[test]
fn negative_numbers_in_their_shortest_form() {
    assert_eq!(numbers_of(&with_year(-1))[0..1], [0xff]);
    assert_eq!(numbers_of(&with_year(-32))[0..1], [0xe0]);
    assert_eq!(numbers_of(&with_year(-33))[0..2], [0xd0, 0xdf]);
    assert_eq!(numbers_of(&with_year(-128))[0..2], [0xd0, 0x80]);
    assert_eq!(numbers_of(&with_year(-129))[0..3], [0xd1, 0xff, 0x7f]);
    assert_eq!(numbers_of(&with_year(-32768))[0..3], [0xd1, 0x80, 0x00]);
    assert_eq!(numbers_of(&with_year(-32769))[0..5], [0xd2, 0xff, 0xff, 0x7f, 0xff]);
    assert_eq!(numbers_of(&with_year(-2147483648))[0..5], [0xd2, 0x80, 0x00, 0x00, 0x00]);
    assert_eq!(
        numbers_of(&with_year(-2147483649))[0..9],
        [0xd3, 0xff, 0xff, 0xff, 0xff, 0x7f, 0xff, 0xff, 0xff]
    );
    assert_eq!(
        numbers_of(&with_year(i64::MIN))[0..9],
        [0xd3, 0x80, 0x00, 0x00, 0x00, 0x00, 0x00, 0x00, 0x00]
    );
}

#[test]
fn texts_with_their_shortest_header() {
    for (len, header) in [
        (0usize, vec![0xa0u8]),
        (31, vec![0xbf]),
        (32, vec![0xd9, 0x20]),
        (255, vec![0xd9, 0xff]),
        (256, vec![0xda, 0x01, 0x00]),
        (65535, vec![0xda, 0xff, 0xff]),
        (65536, vec![0xdb, 0x00, 0x01, 0x00, 0x00]),
    ] {
        let title = "t".repeat(len);
        let mut out = Vec::new();
        encode_file(&mut out, &song(b"", &title, 0)).unwrap();
        let mut expected = vec![0x9b, 0xc4, 0x00, 0xa3, b'm', b'p', b'3'];
        expected.extend_from_slice(&header);
        expected.extend_from_slice(title.as_bytes());
        expected.extend_from_slice(&[0xa0, 0xa0, 0xa0, 0, 0, 0, 0, 0]);
        assert_eq!(out, expected, "{}", len);
    }
}

#[test]
fn text_length_counts_bytes() {
    let mut out = Vec::new();
    encode_file(&mut out, &song(b"", "\u{e9}\u{4e16}\u{1f3b5}", 0)).unwrap();
    let mut expected = vec![0x9b, 0xc4, 0x00, 0xa3, b'm', b'p', b'3', 0xa9];
    expected.extend_from_slice("\u{e9}\u{4e16}\u{1f3b5}".as_bytes());
    expected.extend_from_slice(&[0xa0, 0xa0, 0xa0, 0, 0, 0, 0, 0]);
    assert_eq!(out, expected);
}

#[test]
fn byte_strings_with_their_shortest_header() {
    for (len, header) in [
        (0usize, vec![0xc4u8, 0x00]),
        (255, vec![0xc4, 0xff]),
        (256, vec![0xc5, 0x01, 0x00]),
        (65535, vec![0xc5, 0xff, 0xff]),
        (65536, vec![0xc6, 0x00, 0x01, 0x00, 0x00]),
    ] {
        let name = vec![0xffu8; len];
        let mut out = Vec::new();
        encode_file(&mut out, &song(&name, "", 0)).unwrap();
        let mut expected = vec![0x9b];
        expected.extend_from_slice(&header);
        expected.extend_from_slice(&name);
        expected.extend_from_slice(&[0xa3, b'm', b'p', b'3', 0xa0, 0xa0, 0xa0, 0xa0, 0, 0, 0, 0, 0]);
        assert_eq!(out, expected, "{}", len);
    }
}

#[test]
fn arrays_with_their_shortest_header() {
    for (len, header) in [
        (15usize, vec![0x9fu8]),
        (16, vec![0xdc, 0x00, 0x10]),
        (65535, vec![0xdc, 0xff, 0xff]),
        (65536, vec![0xdd, 0x00, 0x01, 0x00, 0x00]),
    ] {
        let folders: Vec<Folder> =
            (0..len).map(|_| Folder { path: Vec::new(), files: Vec::new() }).collect();
        let bytes = encode(folders, Vec::new()).unwrap();
        let start = head(&[0x00], &header);
        assert_eq!(bytes[..start.len()], start[..], "{}", len);
        assert_eq!(bytes.len(), start.len() + len * 15);
    }
}

fn take_text(rd: &mut &[u8]) -> String {
    let len = rmp::decode::read_str_len(rd).unwrap() as usize;
    let (text, rest) = rd.split_at(len);
    *rd = rest;
    String::from_utf8(text.to_vec()).unwrap()
}

fn take_bytes(rd: &mut &[u8]) -> Vec<u8> {
    let len = rmp::decode::read_bin_len(rd).unwrap() as usize;
    let (bytes, rest) = rd.split_at(len);
    *rd = rest;
    bytes.to_vec()
}

fn take_file(rd: &mut &[u8]) -> File {
    assert_eq!(rmp::decode::read_array_len(rd).unwrap(), 11);
    File {
        name: take_bytes(rd),
        format: match take_text(rd).as_str() {
            "flac" => Format::FLAC,
            "mp3" => Format::MP3,
            other => panic!("unknown format {}", other),
        },
        title: take_text(rd),
        artist: take_text(rd),
        album: take_text(rd),
        album_artist: take_text(rd),
        year: rmp::decode::read_int(rd).unwrap(),
        disc: rmp::decode::read_int(rd).unwrap(),
        total_discs: rmp::decode::read_int(rd).unwrap(),
        track: rmp::decode::read_int(rd).unwrap(),
        total_tracks: rmp::decode::read_int(rd).unwrap(),
    }
}

fn take_envelope(bytes: &[u8]) -> (u64, Vec<Folder>) {
    let mut rd = bytes;
    let rd = &mut rd;
    assert_eq!(rmp::decode::read_map_len(rd).unwrap(), 3);
    assert_eq!(take_text(rd), "errors");
    let errors: u64 = rmp::decode::read_int(rd).unwrap();
    assert_eq!(take_text(rd), "version");
    let version: u64 = rmp::decode::read_int(rd).unwrap();
    assert_eq!(version, 1);
    assert_eq!(take_text(rd), "folders");
    let count = rmp::decode::read_array_len(rd).unwrap();
    let mut folders = Vec::new();
    for _ in 0..count {
        assert_eq!(rmp::decode::read_map_len(rd).unwrap(), 2);
        assert_eq!(take_text(rd), "path");
        let path = take_bytes(rd);
        assert_eq!(take_text(rd), "files");
        let files = rmp::decode::read_array_len(rd).unwrap();
        folders.push(Folder { path, files: (0..files).map(|_| take_file(rd)).collect() });
    }
    assert!(rd.is_empty());
    (errors, folders)
}

#[test]
fn envelope_is_read_back() {
    let folders = vec![
        Folder {
            path: b"Album A".to_vec(),
            files: vec![
                File {
                    name: b"01 one.flac".to_vec(),
                    format: Format::FLAC,
                    title: "One".to_string(),
                    artist: "Band".to_string(),
                    album: "Album A".to_string(),
                    album_artist: "Various".to_string(),
                    year: 1999,
                    disc: 1,
                    total_discs: 2,
                    track: 1,
                    total_tracks: 12,
                },
                File {
                    name: b"02 \xff\x00 two.mp3".to_vec(),
                    format: Format::MP3,
                    title: "\u{e9}t\u{e9} \u{4e16}\u{754c} \u{1f3b5}".to_string(),
                    artist: "a".repeat(40),
                    album: "b".repeat(300),
                    album_artist: "c".repeat(70000),
                    year: -1,
                    disc: -33,
                    total_discs: -129,
                    track: -32769,
                    total_tracks: i64::MIN,
                },
            ],
        },
        Folder { path: vec![0x80; 300], files: vec![song(b"x.mp3", "", i64::MAX)] },
        Folder { path: Vec::new(), files: (0..20).map(|i| song(b"n.mp3", "n", 120 + i)).collect() },
    ];
    let bytes = encode(folders.clone(), io_errors(300)).unwrap();
    let (errors, read) = take_envelope(&bytes);
    assert_eq!(errors, 300);
    assert_eq!(read, folders);
}

#[test]
fn every_number_form_is_read_back() {
    let numbers: [i64; 22] = [
        0, 1, 127, 128, 255, 256, 65535, 65536, 4294967295, 4294967296, i64::MAX, -1, -32, -33,
        -128, -129, -32768, -32769, -2147483648, -2147483649, i64::MIN + 1, i64::MIN,
    ];
    let files: Vec<File> = numbers
        .iter()
        .map(|n| {
            let mut file = song(b"n", "n", *n);
            file.year = *n;
            file.total_tracks = n.wrapping_neg();
            file
        })
        .collect();
    let folders = vec![Folder { path: b"n".to_vec(), files }];
    let (errors, read) = take_envelope(&encode(folders.clone(), Vec::new()).unwrap());
    assert_eq!(errors, 0);
    assert_eq!(read, folders);
}
