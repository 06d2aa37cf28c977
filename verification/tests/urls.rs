use percent_encoding::{utf8_percent_encode, AsciiSet, CONTROLS};

use bevy_sfz::encode::encode_path;

const FRAGMENT: &AsciiSet = &CONTROLS.add(b'#');

const PATHS: [&str; 9] = [
    "",
    "#",
    "##",
    "samples/A#1.wav",
    "samples/A1.wav",
    "with space & more.wav",
    "f\u{fc}r \u{266a}.wav",
    "100%/tab\there\u{7f}.wav",
    "#a#\u{1}#",
];

#[test]
fn encoding_agrees_with_the_fragment_set() {
    for path in PATHS {
        assert_eq!(encode_path(path), utf8_percent_encode(path, FRAGMENT).to_string());
    }
}

#[test]
fn encoding_values() {
    assert_eq!(encode_path("samples/A#1.wav"), "samples/A%231.wav");
    assert_eq!(encode_path("f\u{fc}r.wav"), "f%C3%BCr.wav");
    assert_eq!(encode_path("a\nb\u{7f}"), "a%0Ab%7F");
    assert_eq!(encode_path("a b%20c"), "a b%20c");
}

#[test]
fn encoded_paths_are_plain_and_stay_as_they_are() {
    for path in PATHS {
        let encoded = encode_path(path);
        assert!(encoded.chars().all(|c| (' '..'\u{7f}').contains(&c) && c != '#'));
        assert_eq!(encode_path(&encoded), encoded);
    }
}
