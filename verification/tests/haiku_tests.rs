use raiku::haiku::{verse, Haiku};
use raiku::sentence::Sentence;
use raiku::word::Word;

#[test]
fn it_works() {
    let result = raiku::add(2, 2);
    assert_eq!(result, 4);
}

#[test]
fn haiku_haiku_test() {
    let Haiku(sen1, sen2, sen3) = Haiku::from(
        "this is a test of the way haiku is made here that is kind of cool",
    )
    .unwrap();

    assert_eq!(sen1, "this is a test of");
    assert_eq!(sen2, "the way haiku is made here");
    assert_eq!(sen3, "that is kind of cool")
}

#[test]
fn test_no_haiku_from_long_sentence() {
    let haiku = Haiku::from(
        "this is a test of the way haiku is made here that is kind of cool bla bla bla",
    );
    assert!(matches!(haiku, None))
}

#[test]
fn tests_haiku_test() {
    let actual = raiku::haiku("this is a test of the way haiku is made here that is kind of cool")
        .unwrap();

    assert_eq!(actual.0, "this is a test of");
    assert_eq!(actual.1, "the way haiku is made here");
    assert_eq!(actual.2, "that is kind of cool")
}

#[test]
fn tests_made_is_1_syllable_test() {
    let actual = Word::from("made").syllables.len();

    assert_eq!(actual, 1)
}

#[test]
fn tests_haide_is_2_syllables_test() {
    let actual = Word::from("haide").syllables.len();
    assert_eq!(actual, 2)
}

#[test]
fn tests_hide_is_1_syllable_test() {
    let actual = Word::from("hide").syllables.len();
    assert_eq!(actual, 1)
}

#[test]
fn tests_jamie_is_2_syllables_test() {
    let actual = Word::from("jamie").syllables.len();
    assert_eq!(actual, 2)
}

#[test]
fn tests_fly_is_1_syllable_test() {
    let actual = Word::from("fly").syllables.len();
    assert_eq!(actual, 1)
}

#[test]
fn tests_flywheel_is_2_syllables_test() {
    let actual = Word::from("flywheel").syllables.len();
    assert_eq!(actual, 2)
}

#[test]
fn verse_extracts_exact_prefix() {
    let sen = Sentence::from("this is a test of the way");
    let (line, rest) = verse(sen, 5).unwrap();
    assert_eq!(line, "this is a test of");
    assert_eq!(rest.word_count(), 2);
}

#[test]
fn verse_undershoots_only_when_exhausted() {
    let sen = Sentence::from("this is a test");
    let (line, rest) = verse(sen, 5).unwrap();
    assert_eq!(line, "this is a test");
    assert_eq!(rest.word_count(), 0);
}

#[test]
fn verse_with_zero_target_consumes_nothing() {
    let sen = Sentence::from("this is");
    let (line, rest) = verse(sen, 0).unwrap();
    assert_eq!(line, "");
    assert_eq!(rest.word_count(), 2);
}

#[test]
fn verse_fails_on_straddling_first_word() {
    let sen = Sentence::from("bananananana is long");
    assert_eq!(Sentence::from("bananananana").syllable_count(), 6);
    assert!(matches!(verse(sen, 5), None));
}

#[test]
fn haiku_fails_on_straddling_word() {
    assert!(matches!(Haiku::from("bananananana bla"), None));
}

#[test]
fn short_text_undershoots_but_builds() {
    let Haiku(l1, l2, l3) = Haiku::from("hi").unwrap();
    assert_eq!(l1, "hi");
    assert_eq!(l2, "");
    assert_eq!(l3, "");
}

#[test]
fn empty_text_builds_an_empty_haiku() {
    let Haiku(l1, l2, l3) = Haiku::from("").unwrap();
    assert_eq!(l1, "");
    assert_eq!(l2, "");
    assert_eq!(l3, "");
}
