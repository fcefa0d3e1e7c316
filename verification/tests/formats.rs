use tagscan::data::Format;
use tagscan::number::parse_i64;
use tagscan::walker::join;

#[test]
fn format_names() {
    assert_eq!(Format::FLAC.to_str(), "flac");
    assert_eq!(Format::MP3.to_str(), "mp3");
}

#[test]
fn extension_selects_the_format() {
    assert_eq!(Format::from_name(b"song.flac"), Some(Format::FLAC));
    assert_eq!(Format::from_name(b"song.mp3"), Some(Format::MP3));
    assert_eq!(Format::from_name(b"a.b.flac"), Some(Format::FLAC));
    assert_eq!(Format::from_name(b"..mp3"), Some(Format::MP3));
    assert_eq!(Format::from_name(b"01 - Intro (live).mp3"), Some(Format::MP3));
}

#[test]
fn extension_is_case_sensitive() {
    assert_eq!(Format::from_name(b"song.FLAC"), None);
    assert_eq!(Format::from_name(b"song.Mp3"), None);
    assert_eq!(Format::from_name(b"song.flaC"), None);
}

#[test]
fn other_names_select_no_format() {
    assert_eq!(Format::from_name(b""), None);
    assert_eq!(Format::from_name(b"flac"), None);
    assert_eq!(Format::from_name(b".flac"), None);
    assert_eq!(Format::from_name(b".mp3"), None);
    assert_eq!(Format::from_name(b"notes.txt"), None);
    assert_eq!(Format::from_name(b"song.flac.txt"), None);
    assert_eq!(Format::from_name(b"song.flac."), None);
    assert_eq!(Format::from_name(b"songflac"), None);
    assert_eq!(Format::from_name(b"song.mp4"), None);
    assert_eq!(Format::from_name(b"song.xflac"), None);
    assert_eq!(Format::from_name(b"mp3"), None);
}

#[test]
fn extension_agrees_with_std_paths() {
    let names: [&str; 12] = [
        "a.flac", ".flac", "..flac", "a.mp3", ".mp3", "a.", "a", "a.flac.mp3", "a.MP3", "flac.",
        "x.y.z", "a.fl ac",
    ];
    for name in names {
        let expected = match std::path::Path::new(name).extension().and_then(|e| e.to_str()) {
            Some("flac") => Some(Format::FLAC),
            Some("mp3") => Some(Format::MP3),
            _ => None,
        };
        assert_eq!(Format::from_name(name.as_bytes()), expected, "{}", name);
    }
}

#[test]
fn paths_are_joined_with_a_slash() {
    assert_eq!(join(b"", b"Album A"), b"Album A".to_vec());
    assert_eq!(join(b"Album A", b"cd1"), b"Album A/cd1".to_vec());
    assert_eq!(join(b"a/b", b"c.mp3"), b"a/b/c.mp3".to_vec());
    assert_eq!(join(b"a", b""), b"a/".to_vec());
    assert_eq!(join(b"", b""), Vec::<u8>::new());
}

#[test]
fn numbers_are_read() {
    assert_eq!(parse_i64("0"), Some(0));
    assert_eq!(parse_i64("1"), Some(1));
    assert_eq!(parse_i64("007"), Some(7));
    assert_eq!(parse_i64("1999"), Some(1999));
    assert_eq!(parse_i64("+12"), Some(12));
    assert_eq!(parse_i64("-12"), Some(-12));
    assert_eq!(parse_i64("-0"), Some(0));
}

#[test]
fn numbers_at_the_ends_of_the_range() {
    assert_eq!(parse_i64("9223372036854775807"), Some(i64::MAX));
    assert_eq!(parse_i64("+9223372036854775807"), Some(i64::MAX));
    assert_eq!(parse_i64("-9223372036854775808"), Some(i64::MIN));
    assert_eq!(parse_i64("9223372036854775808"), None);
    assert_eq!(parse_i64("-9223372036854775809"), None);
    assert_eq!(parse_i64("99999999999999999999999999"), None);
    assert_eq!(parse_i64("000000000000000000000000001"), Some(1));
}

#[test]
fn what_is_no_number() {
    assert_eq!(parse_i64(""), None);
    assert_eq!(parse_i64("+"), None);
    assert_eq!(parse_i64("-"), None);
    assert_eq!(parse_i64("+-1"), None);
    assert_eq!(parse_i64("1/12"), None);
    assert_eq!(parse_i64(" 1"), None);
    assert_eq!(parse_i64("1 "), None);
    assert_eq!(parse_i64("1_000"), None);
    assert_eq!(parse_i64("1.0"), None);
    assert_eq!(parse_i64("abc"), None);
    assert_eq!(parse_i64("12a"), None);
    assert_eq!(parse_i64("\u{0661}\u{0662}"), None);
    assert_eq!(parse_i64("1\u{00e9}"), None);
    assert_eq!(parse_i64("99999999999999999999x"), None);
}

#[test]
fn numbers_agree_with_std() {
    let texts: [&str; 16] = [
        "", "0", "-", "+", "+0", "-1", "42", "0042", "4 2", "9223372036854775807",
        "9223372036854775808", "-9223372036854775808", "-9223372036854775809", "1e3", "0x10",
        "\u{ff11}",
    ];
    for text in texts {
        assert_eq!(parse_i64(text), text.parse::<i64>().ok(), "{:?}", text);
    }
}
