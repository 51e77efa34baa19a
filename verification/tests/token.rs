use bbow::order::{rank, Rank};
use bbow::text::{chars_of, string_of};
use bbow::token::{has_uppercase, is_punctuation, is_word, normalize, tokenize, trim};

fn cs(s: &str) -> Vec<char> {
    s.chars().collect()
}

#[test]
fn chars_and_strings_convert_both_ways() {
    assert_eq!(vec!['a', '\u{ef}', ' ', 'z'], chars_of("a\u{ef} z"));
    assert!(chars_of("").is_empty());
    assert_eq!("unt\u{ef}l".to_string(), string_of(&cs("unt\u{ef}l")));
    assert_eq!(String::new(), string_of(&[]));
}

#[test]
fn the_eight_punctuation_characters() {
    for c in "!.,?/;:'".chars() {
        assert!(is_punctuation(c));
    }
    for c in "-\"()a1 _".chars() {
        assert!(!is_punctuation(c));
    }
}

#[test]
fn trim_removes_both_ends() {
    assert_eq!(cs("stop"), trim(&cs("stop!")).to_vec());
    assert_eq!(cs("stop"), trim(&cs("...stop!?")).to_vec());
    assert_eq!(cs("can't"), trim(&cs("'can't'")).to_vec());
    assert_eq!(cs("a.b"), trim(&cs(".a.b.")).to_vec());
    assert_eq!(cs(""), trim(&cs("?!.,")).to_vec());
    assert_eq!(cs(""), trim(&cs("")).to_vec());
    assert_eq!(cs("-x-"), trim(&cs("-x-")).to_vec());
}

#[test]
fn is_word_wants_letters_only() {
    assert!(is_word(&cs("word")));
    assert!(is_word(&cs("Unt\u{ef}l")));
    assert!(!is_word(&cs("")));
    assert!(!is_word(&cs("can't")));
    assert!(!is_word(&cs("b-banana")));
    assert!(!is_word(&cs("abc1")));
    assert!(!is_word(&cs("1")));
}

#[test]
fn has_uppercase_finds_any_uppercase_letter() {
    assert!(has_uppercase(&cs("Stop")));
    assert!(has_uppercase(&cs("stoP")));
    assert!(has_uppercase(&cs("\u{c9}t\u{e9}")));
    assert!(!has_uppercase(&cs("stop")));
    assert!(!has_uppercase(&cs("")));
    assert!(!has_uppercase(&cs("\u{e9}t\u{e9}")));
}

#[test]
fn normalize_lowers_words_with_uppercase() {
    assert_eq!(cs("stop"), normalize(&cs("Stop")));
    assert_eq!(cs("stop"), normalize(&cs("STOP")));
    assert_eq!(cs("stop"), normalize(&cs("stop")));
    assert_eq!(cs("\u{e9}t\u{e9}"), normalize(&cs("\u{c9}T\u{c9}")));
    assert_eq!(cs("i\u{307}"), normalize(&cs("\u{130}")));
}

#[test]
fn tokenize_keeps_order_and_repeats() {
    let expected: Vec<Vec<char>> = vec![cs("stop"), cs("this"), cs("stop")];
    assert_eq!(expected, tokenize("Can't stop this! Stop!"));
    let expected: Vec<Vec<char>> = vec![cs("it"), cs("over"), cs("unt\u{ef}l"), cs("it"), cs("over")];
    assert_eq!(expected, tokenize("It ain't over unt\u{ef}l it ain't, over."));
}

#[test]
fn tokenize_ignores_surrounding_whitespace() {
    let expected: Vec<Vec<char>> = vec![cs("a"), cs("b")];
    assert_eq!(expected, tokenize("  a \t\n b  "));
    assert!(tokenize("").is_empty());
    assert!(tokenize(" \n ").is_empty());
    assert!(tokenize("., b-b 12").is_empty());
}

#[test]
fn rank_orders_by_code_point() {
    assert_eq!(Rank::Before, rank(&cs("apple"), &cs("banana")));
    assert_eq!(Rank::After, rank(&cs("banana"), &cs("apple")));
    assert_eq!(Rank::Same, rank(&cs("apple"), &cs("apple")));
    assert_eq!(Rank::Before, rank(&cs("app"), &cs("apple")));
    assert_eq!(Rank::After, rank(&cs("apple"), &cs("app")));
    assert_eq!(Rank::Before, rank(&cs(""), &cs("a")));
    assert_eq!(Rank::Same, rank(&cs(""), &cs("")));
    assert_eq!(Rank::Before, rank(&cs("z"), &cs("\u{e9}")));
    assert_eq!(Rank::Before, rank(&cs("Z"), &cs("a")));
}
