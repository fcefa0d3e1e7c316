use tagscan::error::{failed_flac, failed_id3, missing, Error};
use tagscan::report::{strict_setting, Report};

#[test]
fn io_error_keeps_no_path() {
    let cause = std::io::Error::new(std::io::ErrorKind::PermissionDenied, "denied");
    let e = Error::from(cause);
    assert_eq!(e.what(), "i/o error");
    assert_eq!(e.path(), "");
}

#[test]
fn io_error_through_into() {
    let cause = std::io::Error::new(std::io::ErrorKind::NotFound, "gone");
    let e: Error = cause.into();
    assert_eq!(e.what(), "i/o error");
    assert_eq!(e.path(), "");
}

#[test]
fn missing_names_what_and_where() {
    let e = missing("metadata", b"Album A/song.flac")();
    assert_eq!(e.what(), "metadata");
    assert_eq!(e.path(), "Album A/song.flac");
}

#[test]
fn failed_flac_names_the_path() {
    let cause = metaflac::Error::new(metaflac::ErrorKind::InvalidInput, "no flac");
    let e = failed_flac(b"a/b.flac")(cause);
    assert_eq!(e.what(), "failed to read flac tags");
    assert_eq!(e.path(), "a/b.flac");
}

#[test]
fn failed_id3_names_the_path() {
    let cause = id3::Error::new(id3::ErrorKind::NoTag, "no tag");
    let e = failed_id3(b"a/b.mp3")(cause);
    assert_eq!(e.what(), "failed to read id3 tags");
    assert_eq!(e.path(), "a/b.mp3");
}

#[test]
fn path_that_is_not_utf8_is_kept_lossily() {
    let e = missing("metadata", b"caf\xe9/x.flac")();
    assert_eq!(e.path(), "caf\u{fffd}/x.flac");
    let e = missing("metadata", "caf\u{e9}/x.flac".as_bytes())();
    assert_eq!(e.path(), "caf\u{e9}/x.flac");
}

#[test]
fn error_on_one_line() {
    let e = Error::from(std::io::Error::new(std::io::ErrorKind::Other, "x"));
    assert_eq!(e.to_text(), "Error { what: \"i/o error\", path: \"\" }");
    let e = missing("metadata", b"a/b.flac")();
    assert_eq!(e.to_text(), "Error { what: \"metadata\", path: \"a/b.flac\" }");
}

#[test]
fn error_on_one_line_escapes_like_debug() {
    let e = missing("metadata", b"a \"b\"\\c\n.flac")();
    assert_eq!(e.path(), "a \"b\"\\c\n.flac");
    assert_eq!(e.to_text(), "Error { what: \"metadata\", path: \"a \\\"b\\\"\\\\c\\n.flac\" }");
    assert_eq!(
        e.to_text(),
        format!("Error {{ what: {:?}, path: {:?} }}", e.what(), e.path())
    );
}

#[test]
fn description_is_fixed() {
    let e = Error::from(std::io::Error::new(std::io::ErrorKind::Other, "x"));
    assert_eq!(e.description(), "missing some metadata");
    let e = missing("metadata", b"a")();
    assert_eq!(e.description(), "missing some metadata");
}

#[test]
fn strict_setting_is_exactly_one() {
    assert!(strict_setting(Some("1")));
    assert!(!strict_setting(None));
    assert!(!strict_setting(Some("")));
    assert!(!strict_setting(Some("0")));
    assert!(!strict_setting(Some("11")));
    assert!(!strict_setting(Some(" 1")));
    assert!(!strict_setting(Some("full")));
    assert!(!strict_setting(Some("\u{0661}")));
    assert!(!strict_setting(Some("\u{ff11}")));
}

#[test]
fn report_hands_a_result_on() {
    let ok: Result<u8, String> = Ok(3);
    assert_eq!(ok.report(false), Ok(3));
    let ok: Result<u8, String> = Ok(3);
    assert_eq!(ok.report(true), Ok(3));
    let failed: Result<u8, String> = Err("bad".to_string());
    assert_eq!(failed.report(false), Err("bad".to_string()));
}

#[test]
fn report_hands_an_option_on() {
    assert_eq!(Some(5u32).report(false), Some(5));
    assert_eq!(Some(5u32).report(true), Some(5));
    let none: Option<u32> = None;
    assert_eq!(none.report(false), None);
}
