use fcrlf::codec::{FileContents, Line};
use fcrlf::delim::{Delim, DelimSet};

#[test]
fn parse_file() {
    let raw = b"abc\r\ndef\nghi\rj";
    let parsed = FileContents::from_bytes(raw);

    assert_eq!(
        parsed,
        FileContents {
            lines: vec![
                Line {
                    text: b"abc".to_vec(),
                    line_end: Some(Delim::CRLF)
                },
                Line {
                    text: b"def".to_vec(),
                    line_end: Some(Delim::LF)
                },
                Line {
                    text: b"ghi".to_vec(),
                    line_end: Some(Delim::CR)
                },
                Line {
                    text: b"j".to_vec(),
                    line_end: None
                },
            ]
        }
    );
}

#[test]
fn parse_write_round_trip() {
    let raw = b"abc\r\ndef\nghi\rj";
    let parsed = FileContents::from_bytes(raw);
    let mut written = Vec::<u8>::new();
    parsed.write_to(&mut written, Delim::CRLF);
    assert_eq!(&written, b"abc\r\ndef\r\nghi\r\nj");
}

#[test]
fn longest_match_precedence() {
    let parsed = FileContents::from_bytes(b"a\r\nb");
    assert_eq!(
        parsed,
        FileContents {
            lines: vec![
                Line {
                    text: b"a".to_vec(),
                    line_end: Some(Delim::CRLF)
                },
                Line {
                    text: b"b".to_vec(),
                    line_end: None
                },
            ]
        }
    );
}

#[test]
fn crlf_is_one_terminator() {
    let parsed = FileContents::from_bytes(b"\r\n");
    assert_eq!(
        parsed,
        FileContents {
            lines: vec![
                Line {
                    text: Vec::new(),
                    line_end: Some(Delim::CRLF)
                },
                Line {
                    text: Vec::new(),
                    line_end: None
                },
            ]
        }
    );
}

#[test]
fn empty_buffer() {
    let parsed = FileContents::from_bytes(b"");
    assert_eq!(
        parsed,
        FileContents {
            lines: vec![Line {
                text: Vec::new(),
                line_end: None
            }]
        }
    );
    assert!(parsed.delim_types().is_empty());
    let mut written = Vec::<u8>::new();
    parsed.write_to(&mut written, Delim::CRLF);
    assert!(written.is_empty());
}

#[test]
fn mixed_delimiter_classification() {
    let parsed = FileContents::from_bytes(b"abc\r\ndef\nghi\rj");
    let types = parsed.delim_types();
    assert_eq!(
        types,
        DelimSet {
            lf: true,
            cr: true,
            crlf: true
        }
    );
    assert!(types.contains(Delim::LF));
    assert!(types.contains(Delim::CR));
    assert!(types.contains(Delim::CRLF));
    assert!(!types.is_empty());
}

#[test]
fn reparse_after_uniform_write() {
    let raw = b"abc\r\ndef\nghi\rj";
    let parsed = FileContents::from_bytes(raw);
    let mut written = Vec::<u8>::new();
    parsed.write_to(&mut written, Delim::LF);
    assert_eq!(&written, b"abc\ndef\nghi\nj");
    let reparsed = FileContents::from_bytes(&written);
    assert_eq!(reparsed.lines.len(), parsed.lines.len());
    for (orig, re) in parsed.lines.iter().zip(reparsed.lines.iter()) {
        assert_eq!(orig.text, re.text);
        match orig.line_end {
            Some(_) => assert_eq!(re.line_end, Some(Delim::LF)),
            None => assert_eq!(re.line_end, None),
        }
    }
}

#[test]
fn uniform_file_writes_back_identically() {
    let raw = b"a\nb\n";
    let parsed = FileContents::from_bytes(raw);
    let types = parsed.delim_types();
    assert!(types.is_subset(&DelimSet::singleton(Delim::LF)));
    assert!(!types.needs_rewrite(Delim::LF));
    assert!(types.needs_rewrite(Delim::CRLF));
    let mut written = Vec::<u8>::new();
    parsed.write_to(&mut written, Delim::LF);
    assert_eq!(&written, b"a\nb\n");
}

#[test]
fn no_delim_file_never_needs_rewrite() {
    let parsed = FileContents::from_bytes(b"plain text");
    let types = parsed.delim_types();
    assert!(types.is_empty());
    assert!(!types.needs_rewrite(Delim::LF));
    assert!(!types.needs_rewrite(Delim::CR));
    assert!(!types.needs_rewrite(Delim::CRLF));
}

#[test]
fn trailing_terminator_state_preserved() {
    let with_trailing = FileContents::from_bytes(b"a\n");
    let mut written = Vec::<u8>::new();
    with_trailing.write_to(&mut written, Delim::CRLF);
    assert_eq!(&written, b"a\r\n");

    let without_trailing = FileContents::from_bytes(b"a");
    let mut written = Vec::<u8>::new();
    without_trailing.write_to(&mut written, Delim::CRLF);
    assert_eq!(&written, b"a");
}

#[test]
fn lone_cr_and_lf_terminators() {
    let parsed = FileContents::from_bytes(b"x\ry\n");
    assert_eq!(
        parsed,
        FileContents {
            lines: vec![
                Line {
                    text: b"x".to_vec(),
                    line_end: Some(Delim::CR)
                },
                Line {
                    text: b"y".to_vec(),
                    line_end: Some(Delim::LF)
                },
                Line {
                    text: Vec::new(),
                    line_end: None
                },
            ]
        }
    );
}
