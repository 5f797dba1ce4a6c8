//! The three substring matchers on the same text, plus the edge cases the
//! contracts call out.

use tsinghua_ds::string::bmbc_match;
use tsinghua_ds::string::karp_rabin;
use tsinghua_ds::string::kmp_match;

#[test]
fn kmp_match_test() {
    let text = "I learn Tsinghua DataStructure to improve my programming skill";
    let pattern = "Tsinghua DataStructure";
    assert_eq!(kmp_match(text, pattern), Some(8));
    let pattern = "I";
    assert_eq!(kmp_match(text, pattern), Some(0));
    let pattern = "l";
    assert_eq!(kmp_match(text, pattern), Some(2));
    let pattern = "a";
    assert_eq!(kmp_match(text, pattern), Some(4));
    let pattern = "skill";
    assert_eq!(kmp_match(text, pattern), Some(57));
    let pattern = "help";
    assert_eq!(kmp_match(text, pattern), None);
}

#[test]
fn karprabin_match_test() {
    let text = "I learn Tsinghua DataStructure to improve my programming skill";
    let pattern = "Tsinghua DataStructure";
    assert_eq!(karp_rabin(text, pattern), Some(8));
    let pattern = "I";
    assert_eq!(karp_rabin(text, pattern), Some(0));
    let pattern = "l";
    assert_eq!(karp_rabin(text, pattern), Some(2));
    let pattern = "a";
    assert_eq!(karp_rabin(text, pattern), Some(4));
    let pattern = "skill";
    assert_eq!(karp_rabin(text, pattern), Some(57));
    let pattern = "help";
    assert_eq!(karp_rabin(text, pattern), None);
}

#[test]
fn bmbc_match_test() {
    let text = "I learn Tsinghua DataStructure to improve my programming skill";
    let pattern = "Tsinghua DataStructure";
    assert_eq!(bmbc_match(text, pattern), Some(8));
    let pattern = "I";
    assert_eq!(bmbc_match(text, pattern), Some(0));
    let pattern = "l";
    assert_eq!(bmbc_match(text, pattern), Some(2));
    let pattern = "a";
    assert_eq!(bmbc_match(text, pattern), Some(4));
    let pattern = "skill";
    assert_eq!(bmbc_match(text, pattern), Some(57));
    let pattern = "help";
    assert_eq!(bmbc_match(text, pattern), None);
}

#[test]
fn match_edges() {
    // empty pattern: Karp-Rabin reports an immediate hit
    assert_eq!(karp_rabin("abc", ""), Some(0));
    assert_eq!(karp_rabin("", ""), Some(0));
    // pattern longer than the text
    assert_eq!(karp_rabin("ab", "abc"), None);
    assert_eq!(bmbc_match("ab", "abc"), None);
    // hit at the very end and at the very start
    assert_eq!(bmbc_match("xxab", "ab"), Some(2));
    assert_eq!(karp_rabin("abxx", "ab"), Some(0));
    // the first of several hits wins
    assert_eq!(bmbc_match("abab", "ab"), Some(0));
    assert_eq!(karp_rabin("abab", "ab"), Some(0));
    // the Knuth-Morris-Pratt matcher's quirk: a proper pattern prefix
    // hanging off the text's end is reported by its offset
    assert_eq!(kmp_match("ab", "ba"), Some(1));
}
