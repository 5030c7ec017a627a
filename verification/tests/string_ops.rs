use tzif_util::string::{capitalise_ascii, decapitalise_ascii, sub_nearest, utf8_max, CowBytes};

#[test]
fn sub_basic() {
    let s = "Hello";
    assert_eq!(sub_nearest(s, ..1), "H");
    assert_eq!(sub_nearest(s, 1..), "ello");
}

#[test]
fn string_truncate_ascii() {
    let s = "this is a test";
    assert_eq!(sub_nearest(s, ..4), "this");
    assert_eq!(&s[4..7], " is");
    assert_eq!(sub_nearest(s, 4..7), " is");
}

#[test]
fn string_truncate_utf8() {
    let msg = "我";
    assert_eq!(sub_nearest(msg, ..3), "我");
    assert_eq!(sub_nearest(msg, ..1), "");
    assert_eq!(sub_nearest(msg, 1..), "");
}

#[test]
fn truncate_utf82() {
    let msg = "我是";
    assert_eq!(sub_nearest(msg, ..6), "我是");
    assert_eq!(sub_nearest(msg, ..5), "我");
    assert_eq!(sub_nearest(msg, 1..), "是");
}

#[test]
fn truncate_utf83() {
    let msg = "我abcd";
    assert_eq!(sub_nearest(msg, ..6), "我abc");
    assert_eq!(sub_nearest(msg, 1..), "abcd");
    assert_eq!(sub_nearest(msg, 1..2), "");
    assert_eq!(sub_nearest(msg, 1..4), "a");
    assert_eq!(sub_nearest(msg, 1..5), "ab");
    assert_eq!(sub_nearest(msg, 1..msg.len()), "abcd");
    assert_eq!(sub_nearest(msg, 1..msg.len() - 1), "abc");
}

#[test]
fn ascii_capitalize() {
    let msg = "abc";
    let msg1 = "Abc";
    assert_eq!(capitalise_ascii(msg.as_bytes()).as_slice(), &b"Abc"[..]);
    assert_eq!(capitalise_ascii(msg1.as_bytes()).as_slice(), &b"Abc"[..]);
    assert!(matches!(capitalise_ascii(msg1.as_bytes()), CowBytes::Borrowed(_)));
    assert_eq!(decapitalise_ascii(msg1.as_bytes()).as_slice(), &b"abc"[..]);
}

#[test]
fn ascii_decapitalize_borrows_lowercase() {
    assert!(matches!(decapitalise_ascii(b"abc"), CowBytes::Borrowed(_)));
    assert!(matches!(decapitalise_ascii(b""), CowBytes::Borrowed(_)));
    assert!(matches!(decapitalise_ascii(b"Zoo"), CowBytes::Owned(_)));
    assert_eq!(decapitalise_ascii(b"Zoo").as_slice(), &b"zoo"[..]);
    assert_eq!(capitalise_ascii(b"1up").as_slice(), &b"1up"[..]);
    assert!(matches!(capitalise_ascii(b"1up"), CowBytes::Owned(_)));
}

#[test]
fn utf8_max_nearest_boundary() {
    assert_eq!(utf8_max("我是", 4), 3);
    assert_eq!(utf8_max("我是", 6), 6);
    assert_eq!(utf8_max("abc", 10), 3);
    assert_eq!(utf8_max("我", 0), 0);
    assert_eq!(utf8_max("我", 2), 0);
}
