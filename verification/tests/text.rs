use postflight::text::{
    blank, chars_of, contains, ends_with, find_from, join_strings, lines_of, split_on,
    starts_with, string_of, words_of,
};

const SAMPLES: [&str; 14] = [
    "",
    " ",
    "a",
    "a b  c",
    "\ta\u{a0}b\u{2003}c\u{3000}",
    "one\ntwo\r\nthree",
    "ends\n",
    "ends\r\n",
    "bare\r",
    "\n\n",
    "/a//b/",
    "äöü/ß",
    "\u{85}x\u{1680}y\u{feff}z",
    "x\u{b}y\u{c}z\u{1c}w",
];

fn strings(list: Vec<Vec<char>>) -> Vec<String> {
    list.iter().map(string_of).collect()
}

#[test]
fn words_are_those_of_the_standard_library() {
    for sample in SAMPLES {
        let expected: Vec<&str> = sample.split_whitespace().collect();
        assert_eq!(strings(words_of(&chars_of(sample))), expected, "{sample:?}");
    }
}

#[test]
fn lines_are_those_of_the_standard_library() {
    for sample in SAMPLES {
        let expected: Vec<&str> = sample.lines().collect();
        assert_eq!(strings(lines_of(&chars_of(sample))), expected, "{sample:?}");
    }
}

#[test]
fn pieces_are_those_of_the_standard_library() {
    for sample in SAMPLES {
        for sep in ['/', ' ', '\n', 'b'] {
            let expected: Vec<&str> = sample.split(sep).collect();
            assert_eq!(strings(split_on(&chars_of(sample), sep)), expected, "{sample:?}");
        }
    }
}

#[test]
fn pieces_join_to_the_text_again() {
    for sample in SAMPLES {
        let pieces = strings(split_on(&chars_of(sample), '/'));
        assert_eq!(join_strings(&pieces, "/"), sample);
    }
}

#[test]
fn blank_means_nothing_but_white_space() {
    for sample in SAMPLES {
        assert_eq!(blank(&chars_of(sample)), sample.trim().is_empty(), "{sample:?}");
    }
}

#[test]
fn searching_finds_the_first_place() {
    let text = chars_of("abcabc");
    assert_eq!(find_from(&text, &chars_of("bc"), 0), Some(1));
    assert_eq!(find_from(&text, &chars_of("bc"), 2), Some(4));
    assert_eq!(find_from(&text, &chars_of("bc"), 5), None);
    assert!(contains(&text, &chars_of("")));
    assert!(starts_with(&text, &chars_of("abc")));
    assert!(!starts_with(&text, &chars_of("abcabcabc")));
    assert!(ends_with(&text, &chars_of("cabc")));
    assert!(!ends_with(&text, &chars_of("ab")));
}
