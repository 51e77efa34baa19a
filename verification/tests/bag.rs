use bbow::Bbow;

#[test]
fn test_extend_from_text() {
    let mut my_bag = Bbow::new();
    my_bag = my_bag.extend_from_text("This is a test string for test purposes");
    assert_eq!(7, my_bag.len());
}

#[test]
fn test_adding_to_bag() {
    let mut my_bag = Bbow::new();
    my_bag = my_bag.extend_from_text("First three words");
    my_bag = my_bag.extend_from_text("Next. two? words,");
    assert_eq!(5, my_bag.len());
}

#[test]
fn test_match_count() {
    let mut my_bag = Bbow::new();
    my_bag = my_bag.extend_from_text("b b b-banana b");
    assert_eq!(3, my_bag.match_count("b"));
}

#[test]
fn test_len() {
    let mut my_bag = Bbow::new();
    my_bag = my_bag.extend_from_text("Can't stop this! Stop!");
    assert_eq!(2, my_bag.len());
}

#[test]
fn test_count() {
    let mut bbow = Bbow::new();
    bbow = bbow.extend_from_text("Can't stop this! Stop!");
    assert_eq!(3, bbow.count());
}

#[test]
fn test_is_empty() {
    let bbow = Bbow::new();
    assert_eq!(true, bbow.is_empty());
}

#[test]
fn test_is_empty_with_words() {
    let mut bbow = Bbow::new();
    bbow = bbow.extend_from_text("Now there is something in here");
    assert_eq!(false, bbow.is_empty());
}

#[test]
fn new_bag_holds_nothing() {
    let bag = Bbow::new();
    assert_eq!(0, bag.len());
    assert_eq!(0, bag.count());
    assert_eq!(0, bag.match_count("anything"));
    assert!(bag.words().is_empty());
}

#[test]
fn default_bag_is_empty() {
    let bag = Bbow::default();
    assert!(bag.is_empty());
    assert_eq!(0, bag.count());
}

#[test]
fn count_is_number_of_words_with_repeats() {
    let bag = Bbow::new().extend_from_text("This is a test string for test purposes");
    assert_eq!(8, bag.count());
    assert_eq!(7, bag.len());
    assert_eq!(2, bag.match_count("test"));
    assert_eq!(1, bag.match_count("this"));
}

#[test]
fn same_text_twice_doubles_counts() {
    let text = "the cat and the hat";
    let once = Bbow::new().extend_from_text(text);
    let twice = Bbow::new().extend_from_text(text).extend_from_text(text);
    assert_eq!(once.len(), twice.len());
    assert_eq!(4, twice.len());
    assert_eq!(2 * once.count(), twice.count());
    assert_eq!(10, twice.count());
    for w in once.words() {
        assert_eq!(2 * once.match_count(&w), twice.match_count(&w));
    }
    assert_eq!(4, twice.match_count("the"));
    assert_eq!(2, twice.match_count("cat"));
}

#[test]
fn case_collapses_to_one_key() {
    let bag = Bbow::new().extend_from_text("Test test TEST");
    assert_eq!(1, bag.len());
    assert_eq!(3, bag.match_count("test"));
    assert_eq!(0, bag.match_count("Test"));
    assert_eq!(0, bag.match_count("TEST"));
    assert_eq!(vec!["test".to_string()], bag.words());
}

#[test]
fn punctuation_is_stripped_at_the_ends_only() {
    let bag = Bbow::new().extend_from_text("Can't stop this! Stop!");
    assert_eq!(vec!["stop".to_string(), "this".to_string()], bag.words());
    assert_eq!(2, bag.match_count("stop"));
    assert_eq!(1, bag.match_count("this"));
    assert_eq!(0, bag.match_count("can't"));
    assert_eq!(0, bag.match_count("cant"));
    assert_eq!(0, bag.match_count("can"));
}

#[test]
fn mixed_punctuation_at_both_ends_is_stripped() {
    let bag = Bbow::new().extend_from_text("'hello!?' ...world;: /path/ stop!. ?!x.,");
    assert_eq!(
        vec![
            "hello".to_string(),
            "path".to_string(),
            "stop".to_string(),
            "world".to_string(),
            "x".to_string()
        ],
        bag.words()
    );
    assert_eq!(5, bag.count());
}

#[test]
fn interior_hyphen_rejects_the_fragment() {
    let bag = Bbow::new().extend_from_text("b b b-banana b");
    assert_eq!(1, bag.len());
    assert_eq!(3, bag.count());
    assert_eq!(0, bag.match_count("banana"));
    assert_eq!(0, bag.match_count("b-banana"));
}

#[test]
fn digits_and_symbols_reject_the_fragment() {
    let bag = Bbow::new().extend_from_text("abc123 42 a_b x+y good");
    assert_eq!(vec!["good".to_string()], bag.words());
    assert_eq!(1, bag.count());
}

#[test]
fn text_without_words_leaves_bag_empty() {
    assert!(Bbow::new().extend_from_text("").is_empty());
    assert!(Bbow::new().extend_from_text("   \t\n  ").is_empty());
    assert!(Bbow::new().extend_from_text("!!! ... ?,;:' /").is_empty());
    assert!(Bbow::new().extend_from_text(" . \u{3000} ! ").is_empty());
    let bag = Bbow::new().extend_from_text("one").extend_from_text(" ... ");
    assert_eq!(1, bag.count());
    assert_eq!(1, bag.len());
}

#[test]
fn absent_key_counts_zero() {
    let bag = Bbow::new().extend_from_text("alpha beta");
    assert_eq!(0, bag.match_count("gamma"));
    assert_eq!(0, bag.match_count(""));
    assert_eq!(0, bag.match_count("alph"));
    assert_eq!(0, bag.match_count("alphabet"));
    assert_eq!(1, bag.match_count("alpha"));
}

#[test]
fn words_come_in_ascending_order() {
    let bag = Bbow::new().extend_from_text("banana apple cherry");
    assert_eq!(
        vec!["apple".to_string(), "banana".to_string(), "cherry".to_string()],
        bag.words()
    );
}

#[test]
fn words_are_ordered_by_code_point_and_prefix() {
    let bag = Bbow::new().extend_from_text("b ab a abc \u{e9}t\u{e9} zebra aa");
    assert_eq!(
        vec![
            "a".to_string(),
            "aa".to_string(),
            "ab".to_string(),
            "abc".to_string(),
            "b".to_string(),
            "zebra".to_string(),
            "\u{e9}t\u{e9}".to_string()
        ],
        bag.words()
    );
}

#[test]
fn words_can_be_listed_again() {
    let bag = Bbow::new().extend_from_text("two one two");
    assert_eq!(bag.words(), bag.words());
    assert_eq!(2, bag.words().len());
    assert_eq!(2, bag.match_count("two"));
}

#[test]
fn chained_ingestion_accumulates() {
    let bag = Bbow::new()
        .extend_from_text("First three words")
        .extend_from_text("Next. two? words,");
    assert_eq!(5, bag.len());
    assert_eq!(6, bag.count());
    assert_eq!(2, bag.match_count("words"));
    assert_eq!(
        vec![
            "first".to_string(),
            "next".to_string(),
            "three".to_string(),
            "two".to_string(),
            "words".to_string()
        ],
        bag.words()
    );
}

#[test]
fn accented_letters_are_letters() {
    let bag = Bbow::new().extend_from_text("It ain't over unt\u{ef}l it ain't, over.");
    assert_eq!(
        vec!["it".to_string(), "over".to_string(), "unt\u{ef}l".to_string()],
        bag.words()
    );
    assert_eq!(5, bag.count());
    assert_eq!(2, bag.match_count("it"));
    assert_eq!(2, bag.match_count("over"));
    assert_eq!(1, bag.match_count("unt\u{ef}l"));
}

#[test]
fn uppercase_beyond_ascii_is_lowered() {
    let bag = Bbow::new().extend_from_text("\u{c9}T\u{c9} \u{e9}t\u{e9} \u{3a3}\u{3a9}");
    assert_eq!(2, bag.match_count("\u{e9}t\u{e9}"));
    assert_eq!(0, bag.match_count("\u{c9}T\u{c9}"));
    assert_eq!(2, bag.len());
    assert_eq!(3, bag.count());
}

#[test]
fn lowercase_may_change_the_length() {
    let bag = Bbow::new().extend_from_text("\u{130}");
    assert_eq!(1, bag.count());
    assert_eq!(1, bag.match_count("i\u{307}"));
    assert_eq!(vec!["i\u{307}".to_string()], bag.words());
}

#[test]
fn unicode_whitespace_separates_words() {
    let bag = Bbow::new().extend_from_text("one\u{a0}two\u{3000}three\u{2003}\u{2003}four\r\nfive");
    assert_eq!(5, bag.len());
    assert_eq!(1, bag.match_count("three"));
    assert_eq!(1, bag.match_count("five"));
}

#[test]
fn try_extend_adds_the_words() {
    let bag = Bbow::new().extend_from_text("a b");
    match bag.try_extend_from_text("B c, c") {
        Ok(bag) => {
            assert_eq!(3, bag.len());
            assert_eq!(5, bag.count());
            assert_eq!(2, bag.match_count("b"));
            assert_eq!(2, bag.match_count("c"));
        }
        Err(_) => panic!("the words fit"),
    }
}

#[test]
fn many_words_keep_their_counts() {
    let mut bag = Bbow::new();
    for _ in 0..50 {
        bag = bag.extend_from_text("m c x a z q b y d k K M");
    }
    assert_eq!(10, bag.len());
    assert_eq!(600, bag.count());
    assert_eq!(100, bag.match_count("m"));
    assert_eq!(100, bag.match_count("k"));
    assert_eq!(50, bag.match_count("a"));
    assert_eq!(50, bag.match_count("z"));
    let words = bag.words();
    let mut sorted = words.clone();
    sorted.sort();
    assert_eq!(sorted, words);
}
