use bevy_sfz::text::{chars_of, contains};

#[test]
fn contains_agrees_with_std() {
    let texts = ["", "a", "ab", "aab", "abab", "cannot find it", "f\u{fc}r"];
    for text in texts {
        for word in texts {
            assert_eq!(contains(text, word), text.contains(word), "{text:?} {word:?}");
        }
    }
}

#[test]
fn chars_in_order() {
    assert_eq!(chars_of("f\u{fc}r"), vec!['f', '\u{fc}', 'r']);
    assert!(chars_of("").is_empty());
}
