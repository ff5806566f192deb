use kepos_tact_memory::protocol::is_valid_namespace;
use kepos_tact_memory::text::{
    blank, byte_len, normalize_identity, place, same_text, space, split, split_once,
    to_ascii_lowercase, trim, Place,
};

#[test]
fn white_space_is_that_of_unicode() {
    for code in 0..=0x10ffffu32 {
        if let Some(c) = char::from_u32(code) {
            assert_eq!(space(c), c.is_whitespace(), "{code:x}");
        }
    }
}

#[test]
fn texts_are_ordered_by_their_bytes() {
    let samples = ["", "a", "ab", "b", "Z", "é", "\u{ffff}", "\u{10000}", "a\0", "kepos-a"];
    for left in samples {
        for right in samples {
            let expected = match left.as_bytes().cmp(right.as_bytes()) {
                std::cmp::Ordering::Less => Place::Before,
                std::cmp::Ordering::Equal => Place::Same,
                std::cmp::Ordering::Greater => Place::After,
            };
            assert_eq!(place(left, right), expected);
            assert_eq!(same_text(left, right), left == right);
        }
    }
}

#[test]
fn identities_ignore_case_and_spacing() {
    assert_eq!(
        normalize_identity("  the team   USES cargo  nextest in ci. "),
        "the team uses cargo nextest in ci."
    );
    assert_eq!(normalize_identity("Straße\tÄPFEL\u{3000}ΟΔΟΣ"), "straße äpfel οδος");
    assert_eq!(normalize_identity(" \n "), "");
    assert_eq!(normalize_identity("x"), "x");
}

#[test]
fn trimming_and_splitting_follow_the_standard_library() {
    let samples = ["", " ", "a", " a b ", "\u{a0}x\u{2003}", "a:b:c", ":", "a:", ":a", "é:ü"];
    for sample in samples {
        assert_eq!(trim(sample), sample.trim());
        assert_eq!(blank(sample), sample.trim().is_empty());
        assert_eq!(split(sample, ':'), sample.split(':').collect::<Vec<_>>());
        assert_eq!(
            split_once(sample, ':'),
            sample
                .split_once(':')
                .map(|(head, tail)| (head.to_owned(), tail.to_owned()))
        );
        assert_eq!(byte_len(sample), sample.len());
        assert_eq!(to_ascii_lowercase(sample), sample.to_ascii_lowercase());
    }
    assert_eq!(to_ascii_lowercase("aZ@[`É"), "az@[`É");
}

#[test]
fn namespaces_are_short_ascii_names() {
    assert!(is_valid_namespace("neil"));
    assert!(is_valid_namespace("Team_1.a-b"));
    assert!(is_valid_namespace(&"n".repeat(128)));
    assert!(!is_valid_namespace(&"n".repeat(129)));
    assert!(!is_valid_namespace(""));
    assert!(!is_valid_namespace("a b"));
    assert!(!is_valid_namespace("né"));
    assert!(!is_valid_namespace("a/b"));
}
