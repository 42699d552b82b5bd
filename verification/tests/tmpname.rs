use fcrlf::tmpname::tmp_path;

#[test]
fn zero_counter() {
    assert_eq!(tmp_path("foo.txt", 0), "foo.txt.tmp0");
}

#[test]
fn small_counters() {
    assert_eq!(tmp_path("foo.txt", 1), "foo.txt.tmp1");
    assert_eq!(tmp_path("foo.txt", 9), "foo.txt.tmp9");
    assert_eq!(tmp_path("foo.txt", 10), "foo.txt.tmp10");
}

#[test]
fn long_counter() {
    assert_eq!(tmp_path("a", 1234567890), "a.tmp1234567890");
}

#[test]
fn largest_counter() {
    assert_eq!(tmp_path("x", u64::MAX), "x.tmp18446744073709551615");
}

#[test]
fn empty_name() {
    assert_eq!(tmp_path("", 42), ".tmp42");
}
