use crap_analyzer::error::Error;
use crap_analyzer::report::{finish_json_buffer, utf8_json, utf8_report};

#[test]
fn utf8_report_maps_invalid_bytes() {
    let err = utf8_report(vec![0xff], "report write");
    assert!(err.is_err(), "{err:?}");
    assert!(utf8_report(b"ok".to_vec(), "report write").is_ok());
}

#[test]
fn finish_json_buffer_maps_write_errors() {
    let err = finish_json_buffer(Err(Error::report("boom")), Vec::new());
    assert!(err.is_err(), "{err:?}");
    assert!(finish_json_buffer(Ok(()), b"{}".to_vec()).is_ok());
}

#[test]
fn utf8_json_maps_invalid_bytes() {
    assert!(utf8_json(vec![0xff]).is_err());
    assert_eq!(utf8_json(b"{}".to_vec()).unwrap_or_default(), "{}");
}

#[test]
fn invalid_report_bytes_name_what_was_written() {
    match utf8_report(vec![b'o', 0xc3], "report write") {
        Err(Error::Report(m)) => assert!(m.starts_with("report write: "), "{m}"),
        other => panic!("unexpected {other:?}"),
    }
    match utf8_json(vec![0xff]) {
        Err(Error::Report(m)) => assert!(m.starts_with("json report: "), "{m}"),
        other => panic!("unexpected {other:?}"),
    }
}

#[test]
fn report_text_keeps_multibyte_characters() {
    assert_eq!(utf8_report("é✓".as_bytes().to_vec(), "report write").unwrap_or_default(), "é✓");
}

#[test]
fn finish_json_buffer_passes_the_write_error_through() {
    match finish_json_buffer(Err(Error::report("boom")), b"{}".to_vec()) {
        Err(Error::Report(m)) => assert_eq!(m, "boom"),
        other => panic!("unexpected {other:?}"),
    }
}

#[test]
fn report_error_displays_its_message() {
    assert_eq!(Error::report("r").to_string(), "r");
    assert!(Error::report("r").source().is_none());
}
