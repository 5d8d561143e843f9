use string_doubles::{count_doubles, count_doubles_bytes};

#[test]
fn empty_text_has_no_doubles() {
    assert_eq!(count_doubles(""), 0);
    assert_eq!(count_doubles_bytes(""), 0);
}

#[test]
fn single_element_has_no_pair() {
    assert_eq!(count_doubles("a"), 0);
    assert_eq!(count_doubles_bytes("a"), 0);
}

#[test]
fn aabb_has_two_doubles() {
    // Pairs: a-a matches, a-b does not, b-b matches.
    assert_eq!(count_doubles("aabb"), 2);
}

#[test]
fn ascii_views_agree() {
    for t in ["", "a", "aabb", "hello world", "zzzzz", "abcabc"] {
        assert_eq!(count_doubles(t), count_doubles_bytes(t));
    }
}

#[test]
fn count_never_exceeds_length_minus_one() {
    for t in ["", "a", "aa", "aaa", "aaaa", "abab", "aabb"] {
        let n = t.chars().count() as u64;
        assert!(count_doubles(t) <= n.saturating_sub(1));
    }
}

#[test]
fn repeated_two_byte_code_point() {
    // U+00E9 is encoded in UTF-8 as the two bytes 0xC3 0xA9, so the text
    // made of it twice is the bytes C3 A9 C3 A9. The code-point view has
    // one matching pair; in the byte view no adjacent bytes coincide
    // (C3-A9, A9-C3, C3-A9 all differ), so the byte count is zero.
    let t = "\u{e9}\u{e9}";
    assert_eq!(t.as_bytes(), [0xC3, 0xA9, 0xC3, 0xA9]);
    assert_eq!(count_doubles(t), 1);
    assert_eq!(count_doubles_bytes(t), 0);
}

#[test]
fn byte_doubles_inside_one_code_point() {
    // U+0FFF is encoded as E0 BF BF: its two continuation bytes coincide,
    // so the byte view holds one double while the code-point view, a
    // single element, holds none.
    let t = "\u{fff}";
    assert_eq!(t.as_bytes(), [0xE0, 0xBF, 0xBF]);
    assert_eq!(count_doubles(t), 0);
    assert_eq!(count_doubles_bytes(t), 1);
}

#[test]
fn mixed_text_counts_each_view_independently() {
    // "a" then U+00E9 twice then "bb": code points a, e9, e9, b, b give
    // two doubles; bytes 61 C3 A9 C3 A9 62 62 give one (the b-b pair).
    let t = "a\u{e9}\u{e9}bb";
    assert_eq!(count_doubles(t), 2);
    assert_eq!(count_doubles_bytes(t), 1);
}

#[test]
fn repeated_calls_return_the_same_count() {
    for t in ["", "aabb", "\u{e9}\u{e9}", "\u{fff}"] {
        assert_eq!(count_doubles(t), count_doubles(t));
        assert_eq!(count_doubles_bytes(t), count_doubles_bytes(t));
    }
}
