use postflight::order::{compare_texts, sorted_set_of, Place};
use std::collections::BTreeSet;

const WORDS: [&str; 9] = ["", "a", "ab", "b", "B", "ä", "z", "\u{1f600}", "a"];

#[test]
fn texts_are_ordered_as_in_the_standard_library() {
    for a in WORDS {
        for b in WORDS {
            let place = compare_texts(a, b);
            assert_eq!(place == Place::Before, a < b, "{a:?} {b:?}");
            assert_eq!(place == Place::Same, a == b, "{a:?} {b:?}");
            assert_eq!(place == Place::After, a > b, "{a:?} {b:?}");
        }
    }
}

#[test]
fn a_sorted_set_holds_each_text_once_in_order() {
    let words: Vec<String> = WORDS.iter().map(|word| word.to_string()).collect();
    let expected: Vec<String> =
        words.iter().cloned().collect::<BTreeSet<_>>().into_iter().collect();
    assert_eq!(sorted_set_of(&words), expected);
}
