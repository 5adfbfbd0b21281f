use raiku::sentence::Sentence;
use raiku::word::Word;

#[test]
fn sentence_from_string_test() {
    let text = String::from("can savannah have the greenest eyes?");
    let sen: Sentence = Sentence::from(text.as_str());
    assert_eq!(sen.get(0), Some(&Word::from("can")));
    assert_eq!(sen.get(1), Some(&Word::from("savannah")));
    assert_eq!(sen.get(2), Some(&Word::from("have")));
    assert_eq!(sen.get(3), Some(&Word::from("the")));
    assert_eq!(sen.get(4), Some(&Word::from("greenest")));
    assert_eq!(sen.get(5), Some(&Word::from("eyes?")))
}

#[test]
fn sentence_from_words_test() {
    let words: Vec<Word> = vec![
        Word::from("can"),
        Word::from("savannah"),
        Word::from("have"),
        Word::from("the"),
        Word::from("greenest"),
        Word::from("eyes?"),
    ];
    let sen: Sentence = Sentence::from_collection(words);
    assert_eq!(sen.get(0), Some(&Word::from("can")));
    assert_eq!(sen.get(1), Some(&Word::from("savannah")));
    assert_eq!(sen.get(2), Some(&Word::from("have")));
    assert_eq!(sen.get(3), Some(&Word::from("the")));
    assert_eq!(sen.get(4), Some(&Word::from("greenest")));
    assert_eq!(sen.get(5), Some(&Word::from("eyes?")))
}

#[test]
fn sentence_from_str_test() {
    let sen: Sentence = Sentence::from("can savannah have the greenest eyes?");
    assert_eq!(sen.get(0), Some(&Word::from("can")));
    assert_eq!(sen.get(1), Some(&Word::from("savannah")));
    assert_eq!(sen.get(2), Some(&Word::from("have")));
    assert_eq!(sen.get(3), Some(&Word::from("the")));
    assert_eq!(sen.get(4), Some(&Word::from("greenest")));
    assert_eq!(sen.get(5), Some(&Word::from("eyes?")))
}

#[test]
fn sentence_from_box_str_test() {
    let boxed: Box<str> = "can savannah have the greenest eyes?".into();
    let sen: Sentence = Sentence::from(&boxed);
    assert_eq!(sen.get(0), Some(&Word::from("can")));
    assert_eq!(sen.get(1), Some(&Word::from("savannah")));
    assert_eq!(sen.get(2), Some(&Word::from("have")));
    assert_eq!(sen.get(3), Some(&Word::from("the")));
    assert_eq!(sen.get(4), Some(&Word::from("greenest")));
    assert_eq!(sen.get(5), Some(&Word::from("eyes?")))
}

#[test]
fn sentence_from_mut_str_test() {
    let mut string = "can savannah have the greenest eyes?".to_string();
    let mut_str = string.as_mut_str();
    let sen: Sentence = Sentence::from(mut_str);
    assert_eq!(sen.get(0), Some(&Word::from("can")));
    assert_eq!(sen.get(1), Some(&Word::from("savannah")));
    assert_eq!(sen.get(2), Some(&Word::from("have")));
    assert_eq!(sen.get(3), Some(&Word::from("the")));
    assert_eq!(sen.get(4), Some(&Word::from("greenest")));
    assert_eq!(sen.get(5), Some(&Word::from("eyes?")))
}

#[test]
fn sentence_from_string_vec_test() {
    let strings: Vec<String> = vec![
        "can".into(),
        "savannah".into(),
        "have".into(),
        "the".into(),
        "greenest".into(),
        "eyes?".into(),
    ];
    let words: Vec<Word> = strings.iter().map(|s| Word::from(s)).collect();
    let sen: Sentence = Sentence::from_collection(words);
    assert_eq!(sen.get(0), Some(&Word::from("can")));
    assert_eq!(sen.get(1), Some(&Word::from("savannah")));
    assert_eq!(sen.get(2), Some(&Word::from("have")));
    assert_eq!(sen.get(3), Some(&Word::from("the")));
    assert_eq!(sen.get(4), Some(&Word::from("greenest")));
    assert_eq!(sen.get(5), Some(&Word::from("eyes?")))
}

#[test]
fn sentence_from_str_vec_test() {
    let strs: Vec<&str> = vec!["can", "savannah", "have", "the", "greenest", "eyes?"];
    let words: Vec<Word> = strs.iter().map(|s| Word::from(s)).collect();
    let sen: Sentence = Sentence::from_collection(words);
    assert_eq!(sen.get(0), Some(&Word::from("can")));
    assert_eq!(sen.get(1), Some(&Word::from("savannah")));
    assert_eq!(sen.get(2), Some(&Word::from("have")));
    assert_eq!(sen.get(3), Some(&Word::from("the")));
    assert_eq!(sen.get(4), Some(&Word::from("greenest")));
    assert_eq!(sen.get(5), Some(&Word::from("eyes?")))
}

#[test]
fn sentence_from_str_array_ref_test() {
    let strs: &[&str] = &["can", "savannah", "have", "the", "greenest", "eyes?"];
    let words: Vec<Word> = strs.iter().map(|s| Word::from(s)).collect();
    let sen: Sentence = Sentence::from_collection(words);
    assert_eq!(sen.get(0), Some(&Word::from("can")));
    assert_eq!(sen.get(1), Some(&Word::from("savannah")));
    assert_eq!(sen.get(2), Some(&Word::from("have")));
    assert_eq!(sen.get(3), Some(&Word::from("the")));
    assert_eq!(sen.get(4), Some(&Word::from("greenest")));
    assert_eq!(sen.get(5), Some(&Word::from("eyes?")))
}

#[test]
fn sentence_from_str_array_test() {
    let strs = ["can", "savannah", "have", "the", "greenest", "eyes?"];
    let words: Vec<Word> = strs.iter().map(|s| Word::from(s)).collect();
    let sen: Sentence = Sentence::from_collection(words);
    assert_eq!(sen.get(0), Some(&Word::from("can")));
    assert_eq!(sen.get(1), Some(&Word::from("savannah")));
    assert_eq!(sen.get(2), Some(&Word::from("have")));
    assert_eq!(sen.get(3), Some(&Word::from("the")));
    assert_eq!(sen.get(4), Some(&Word::from("greenest")));
    assert_eq!(sen.get(5), Some(&Word::from("eyes?")))
}

#[test]
fn sentence_counts() {
    let sen = Sentence::from("can savannah have the greenest eyes?");
    assert_eq!(sen.word_count(), 6);
    let sen = Sentence::from("can savannah have the greenest eyes?");
    assert_eq!(sen.syllable_count(), 9);
}

#[test]
fn sentence_splits_on_whitespace_runs() {
    let sen = Sentence::from("  can \t savannah \n\n have ");
    assert_eq!(sen.get(0), Some(&Word::from("can")));
    assert_eq!(sen.get(1), Some(&Word::from("savannah")));
    assert_eq!(sen.get(2), Some(&Word::from("have")));
    assert_eq!(sen.get(3), None);
}

#[test]
fn empty_sentence_grows_by_push() {
    let mut sen = Sentence::new();
    assert_eq!(sen.word_count(), 0);
    sen = {
        let mut s = Sentence::new();
        s.push(Word::from("can"));
        s
    };
    assert_eq!(sen.get(0), Some(&Word::from("can")));
    assert_eq!(sen.get(1), None);
}
