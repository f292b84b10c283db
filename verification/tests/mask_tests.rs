use percent_encoding_lite::Bitmask;

#[test]
fn add_then_contains() {
    for b in 32u8..=127 {
        let s = Bitmask::empty().add(b);
        assert!(s.contains(b));
        assert!(!s.remove(b).contains(b));
    }
}

#[test]
fn out_of_range_is_noop() {
    let s = Bitmask::uri();
    for b in (0u8..32).chain(128..=255) {
        assert!(!s.contains(b));
        assert_eq!(s.add(b), s);
        assert_eq!(s.remove(b), s);
    }
}

#[test]
fn add_remove_idempotent() {
    let s = Bitmask::uri_component();
    for b in [b' ', b'a', b'/', b'~', b'\x7F'] {
        assert_eq!(s.add(b).add(b), s.add(b));
        assert_eq!(s.remove(b).remove(b), s.remove(b));
    }
}

#[test]
fn add_all_remove_all() {
    let s = Bitmask::empty().add_all(b"abc");
    assert!(s.contains(b'a') && s.contains(b'b') && s.contains(b'c'));
    assert!(!s.contains(b'd'));
    let t = s.remove_all(b"ab");
    assert!(!t.contains(b'a') && !t.contains(b'b') && t.contains(b'c'));
    // order does not matter, and repeats change nothing
    assert_eq!(Bitmask::empty().add_all(b"abc"), Bitmask::empty().add_all(b"cbaabc"));
}

#[test]
fn empty_contains_nothing() {
    let s = Bitmask::empty();
    for b in 0u8..=255 {
        assert!(!s.contains(b));
    }
}

#[test]
fn uri_component_membership() {
    let s = Bitmask::uri_component();
    for b in b"AZaz09-_.!~*'()" {
        assert!(s.contains(*b));
    }
    for b in b" /%+;?:@&=$,#[]\"<>\\^`{}|" {
        assert!(!s.contains(*b));
    }
}

#[test]
fn uri_membership() {
    let s = Bitmask::uri();
    for b in b"AZaz09-_.!~*'();/?:@&=+$,#" {
        assert!(s.contains(*b));
    }
    for b in b" %[]\"<>\\^`{}|" {
        assert!(!s.contains(*b));
    }
}

#[test]
fn rfc3986_membership() {
    let s = Bitmask::rfc3986();
    for b in b"AZaz09-_.~;/?:@&=+$,#[]" {
        assert!(s.contains(*b));
    }
    for b in b"!'()* %\"<>\\^`{}|" {
        assert!(!s.contains(*b));
    }
}

#[test]
fn path_membership() {
    let s = Bitmask::path();
    assert!(!s.contains(b'/'));
    for b in b"AZaz09-_.!~*'()" {
        assert!(s.contains(*b));
    }
    // path differs from uri_component only in `/`, which neither contains
    assert_eq!(s, Bitmask::uri_component());
}
