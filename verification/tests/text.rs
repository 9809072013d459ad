use minigrep::lines::{split_first_line, strip_carriage_return};
use minigrep::substring::{bytes_contain, contains};

#[test]
fn contains_finds_a_run_anywhere() {
    assert!(contains("uncharted territories.", "unc"));
    assert!(contains("uncharted territories.", "ted ter"));
    assert!(contains("uncharted territories.", "ies."));
    assert!(contains("uncharted territories.", "uncharted territories."));
}

#[test]
fn contains_wants_the_whole_run() {
    assert!(!contains("uncharted", "uncharted territories."));
    assert!(!contains("uncharted", "unchartered"));
    assert!(!contains("abab", "abb"));
    assert!(!contains("ab", "ba"));
}

#[test]
fn contains_finds_a_run_that_starts_inside_a_false_start() {
    assert!(contains("aaab", "aab"));
    assert!(contains("abababc", "ababc"));
}

#[test]
fn contains_heeds_letter_case() {
    assert!(contains("Punctuation", "Pun"));
    assert!(!contains("Punctuation", "pun"));
}

#[test]
fn contains_the_empty_needle_everywhere() {
    assert!(contains("", ""));
    assert!(contains("abc", ""));
    assert!(!contains("", "a"));
}

#[test]
fn contains_compares_whole_characters() {
    assert!(contains("na\u{ef}ve caf\u{e9}", "\u{ef}v"));
    assert!(contains("\u{1f600} smile", "\u{1f600}"));
    assert!(!contains("caf\u{e9}", "\u{e8}"));
    assert!(!contains("\u{3b1}\u{3b2}", "\u{3b2}\u{3b1}"));
}

#[test]
fn contains_agrees_with_the_standard_library() {
    let texts = [
        "",
        "a",
        "aaab",
        "abcabcabd",
        "Punctuation",
        "na\u{ef}ve caf\u{e9}",
        "\u{3b1}\u{3b2}\u{3b3} \u{394}\u{395}\u{396}",
        "\u{1f600}\u{1f601}\u{1f600}",
        "line\r\nfeed",
    ];
    for haystack in texts {
        for needle in texts {
            assert_eq!(haystack.contains(needle), contains(haystack, needle));
        }
        for (start, _) in haystack.char_indices() {
            for (end, _) in haystack.char_indices() {
                if start <= end {
                    assert!(contains(haystack, &haystack[start..end]));
                }
            }
            assert!(contains(haystack, &haystack[start..]));
        }
    }
}

#[test]
fn bytes_contain_finds_a_run_of_bytes() {
    assert!(bytes_contain(&[1, 2, 3, 4], &[2, 3]));
    assert!(bytes_contain(&[1, 2, 3, 4], &[1, 2, 3, 4]));
    assert!(bytes_contain(&[1, 2, 3, 4], &[4]));
    assert!(bytes_contain(&[1, 2, 3, 4], &[]));
    assert!(bytes_contain(&[], &[]));
    assert!(!bytes_contain(&[1, 2, 3, 4], &[3, 2]));
    assert!(!bytes_contain(&[1, 2, 3, 4], &[1, 2, 3, 4, 5]));
    assert!(!bytes_contain(&[], &[0]));
    assert!(bytes_contain(&[0xc3, 0xa9], &[0xa9]));
}

#[test]
fn split_first_line_of_nothing() {
    assert_eq!(None, split_first_line(""));
}

#[test]
fn split_first_line_at_the_line_feed() {
    assert_eq!(
        Some(("Punctuation", "uncharted territories.")),
        split_first_line("Punctuation\nuncharted territories.")
    );
    assert_eq!(Some(("", "b\n")), split_first_line("\nb\n"));
    assert_eq!(Some(("a", "")), split_first_line("a\n"));
    assert_eq!(Some(("", "")), split_first_line("\n"));
}

#[test]
fn split_first_line_without_line_feed() {
    assert_eq!(Some(("last", "")), split_first_line("last"));
    assert_eq!(Some(("last\r", "")), split_first_line("last\r"));
}

#[test]
fn split_first_line_drops_one_carriage_return() {
    assert_eq!(Some(("a", "b")), split_first_line("a\r\nb"));
    assert_eq!(Some(("a\r", "b")), split_first_line("a\r\r\nb"));
    assert_eq!(Some(("", "")), split_first_line("\r\n"));
    assert_eq!(Some(("a\rb", "\r")), split_first_line("a\rb\n\r"));
}

#[test]
fn split_first_line_keeps_characters_whole() {
    assert_eq!(
        Some(("caf\u{e9}", "\u{1f600}\n")),
        split_first_line("caf\u{e9}\r\n\u{1f600}\n")
    );
}

#[test]
fn strip_carriage_return_takes_one_from_the_end() {
    assert_eq!("a", strip_carriage_return("a\r"));
    assert_eq!("a\r", strip_carriage_return("a\r\r"));
    assert_eq!("", strip_carriage_return("\r"));
}

#[test]
fn strip_carriage_return_leaves_the_rest() {
    assert_eq!("", strip_carriage_return(""));
    assert_eq!("a", strip_carriage_return("a"));
    assert_eq!("\ra", strip_carriage_return("\ra"));
    assert_eq!("a\n", strip_carriage_return("a\n"));
    assert_eq!("caf\u{e9}", strip_carriage_return("caf\u{e9}\r"));
}
