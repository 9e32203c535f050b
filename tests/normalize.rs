use comment_guard::normalize::{confusable, hash_comment, normalize_fancy_text, remove_all_whitespace};

#[test]
fn confusable_table_entries() {
    assert_eq!(confusable('\u{1F170}'), Some('A'));
    assert_eq!(confusable('\u{1F189}'), Some('Z'));
    assert_eq!(confusable('\u{1D5D4}'), Some('A'));
    assert_eq!(confusable('\u{1D689}'), Some('Z'));
    assert_eq!(confusable('\u{1D7CE}'), Some('0'));
    assert_eq!(confusable('\u{1D7D6}'), Some('8'));
    assert_eq!(confusable('\u{1D7D7}'), None);
    assert_eq!(confusable('\u{0567}'), Some('t'));
    assert_eq!(confusable('\u{0585}'), Some('o'));
    assert_eq!(confusable('\u{249C}'), Some('a'));
    assert_eq!(confusable('\u{24E9}'), Some('z'));
    assert_eq!(confusable('a'), None);
    assert_eq!(confusable(' '), None);
}

#[test]
fn confusables_fold_to_lower_ascii() {
    // negative squared, sans-serif bold, monospace capitals
    assert_eq!(normalize_fancy_text("\u{1F182}\u{1F17F}\u{1F170}\u{1F17C}"), "spam");
    assert_eq!(normalize_fancy_text("\u{1D5E6}\u{1D5E3}\u{1D5D4}\u{1D5E0}"), "spam");
    assert_eq!(normalize_fancy_text("\u{1D682}\u{1D67F}\u{1D670}\u{1D67C}"), "spam");
    // bold digits, parenthesized and circled small letters
    assert_eq!(normalize_fancy_text("\u{1D7D5}\u{1D7D5}\u{1D7D5}"), "777");
    assert_eq!(normalize_fancy_text("\u{249C}\u{24D1}\u{0567}\u{0585}"), "abto");
}

#[test]
fn diacritics_and_punctuation_are_dropped() {
    assert_eq!(normalize_fancy_text("Caf\u{E9}!"), "cafe");
    assert_eq!(normalize_fancy_text("Cafe\u{301}"), "cafe");
    assert_eq!(normalize_fancy_text("Hello, World!"), "hello world");
    assert_eq!(normalize_fancy_text("\u{1F600}win\u{2764}"), "win");
    assert_eq!(normalize_fancy_text(""), "");
}

#[test]
fn white_space_is_kept() {
    assert_eq!(normalize_fancy_text("A\tB\nC"), "a\tb\nc");
    // EN QUAD decomposes to EN SPACE
    assert_eq!(normalize_fancy_text("a\u{2000}b"), "a\u{2002}b");
    assert_eq!(normalize_fancy_text("a\u{3000}b"), "a\u{3000}b");
}

#[test]
fn normalizing_twice_changes_nothing() {
    for s in ["Caf\u{E9} \u{1F170}\u{1F171}!", "a\u{2000}b\u{A0}c", "\u{24D0}\u{1D7CF} X\u{301}", ""] {
        let once = normalize_fancy_text(s);
        assert_eq!(normalize_fancy_text(&once), once);
    }
}

#[test]
fn whitespace_removal() {
    assert_eq!(remove_all_whitespace("a b\tc\u{3000}d\n"), "abcd");
    assert_eq!(remove_all_whitespace("abc"), "abc");
}

#[test]
fn fingerprint_is_blake3_hex_of_canonical_form() {
    let empty = hash_comment("");
    assert_eq!(empty, "af1349b9f5f9a1a6a0404dea36dcc9499bcb25c9adc112b7cc9a93cae41f3262");
    assert_eq!(hash_comment("!!!"), empty);
    let h = hash_comment("Hello");
    assert_eq!(h.len(), 64);
    assert!(h.chars().all(|c| c.is_ascii_hexdigit() && !c.is_ascii_uppercase()));
    assert_ne!(h, "hello");
}

#[test]
fn equal_canonical_forms_share_a_fingerprint() {
    assert_eq!(hash_comment("\u{1F177}ELLO!"), hash_comment("hello"));
    assert_eq!(hash_comment("h\u{E9}llo"), hash_comment("hello"));
    assert_ne!(hash_comment("hello"), hash_comment("hello there"));
}
