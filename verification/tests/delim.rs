use fcrlf::delim::{Delim, DelimSet};

#[test]
fn labels() {
    assert_eq!(Delim::LF.label(), "LF");
    assert_eq!(Delim::CR.label(), "CR");
    assert_eq!(Delim::CRLF.label(), "CRLF");
}

#[test]
fn canonical_bytes() {
    let mut out = Vec::<u8>::new();
    Delim::LF.write_to(&mut out);
    assert_eq!(&out, b"\n");

    let mut out = Vec::<u8>::new();
    Delim::CR.write_to(&mut out);
    assert_eq!(&out, b"\r");

    let mut out = Vec::<u8>::new();
    Delim::CRLF.write_to(&mut out);
    assert_eq!(&out, b"\r\n");
}

#[test]
fn write_to_appends() {
    let mut out = b"x".to_vec();
    Delim::CRLF.write_to(&mut out);
    assert_eq!(&out, b"x\r\n");
}

#[test]
fn set_operations() {
    let mut s = DelimSet::empty();
    assert!(s.is_empty());
    assert!(!s.contains(Delim::LF));

    s.insert(Delim::LF);
    assert!(!s.is_empty());
    assert!(s.contains(Delim::LF));
    assert!(!s.contains(Delim::CR));
    assert!(!s.contains(Delim::CRLF));

    s.insert(Delim::CRLF);
    assert!(s.contains(Delim::CRLF));

    assert_eq!(
        s,
        DelimSet {
            lf: true,
            cr: false,
            crlf: true
        }
    );
}

#[test]
fn subset_rules() {
    let lf_only = DelimSet::singleton(Delim::LF);
    let empty = DelimSet::empty();
    let mut mixed = DelimSet::singleton(Delim::LF);
    mixed.insert(Delim::CR);

    assert!(empty.is_subset(&lf_only));
    assert!(empty.is_subset(&empty));
    assert!(lf_only.is_subset(&lf_only));
    assert!(lf_only.is_subset(&mixed));
    assert!(!mixed.is_subset(&lf_only));
    assert!(!lf_only.is_subset(&empty));
}

#[test]
fn report_labels() {
    assert_eq!(DelimSet::empty().labels_string(), "NO_DELIM");
    assert_eq!(DelimSet::singleton(Delim::LF).labels_string(), "LF");
    assert_eq!(DelimSet::singleton(Delim::CR).labels_string(), "CR");
    assert_eq!(DelimSet::singleton(Delim::CRLF).labels_string(), "CRLF");

    let mut s = DelimSet::singleton(Delim::CRLF);
    s.insert(Delim::LF);
    assert_eq!(s.labels_string(), "LF, CRLF");

    let mut s = DelimSet::singleton(Delim::CR);
    s.insert(Delim::CRLF);
    assert_eq!(s.labels_string(), "CR, CRLF");

    let mut all = DelimSet::singleton(Delim::LF);
    all.insert(Delim::CR);
    all.insert(Delim::CRLF);
    assert_eq!(all.labels_string(), "LF, CR, CRLF");
}
