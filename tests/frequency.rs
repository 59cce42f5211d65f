use std::collections::HashMap;
use wikidle::database::error::ErrorKind;
use wikidle::database::frequency::{article_counts, Frequency};
use wikidle::database::read::{load_dict, Dict};

fn word_dict(words: &[&str]) -> Dict {
    let lines: Vec<String> = words.iter().map(|w| w.to_string()).collect();
    load_dict(&lines)
}

fn sorted(mut v: Vec<(u32, u16)>) -> Vec<(u32, u16)> {
    v.sort();
    v
}

#[test]
fn tokenization_is_case_insensitive_and_keeps_punctuation() {
    let dict = word_dict(&["the", "quick", "brown", "fox"]);
    let counts = sorted(article_counts(&dict, "The quick BROWN fox."));
    assert_eq!(counts, vec![(0, 1), (1, 1), (2, 1), (3, 1)]);

    // The match ends at the last word boundary, before the full stop.
    let dict = word_dict(&["the", "quick", "brown", "fox."]);
    let counts = sorted(article_counts(&dict, "The quick BROWN fox."));
    assert_eq!(counts, vec![(0, 1), (1, 1), (2, 1)]);
    // Punctuation between word characters stays inside the token.
    let dict = word_dict(&["fox.x"]);
    assert_eq!(article_counts(&dict, "a FOX.X b fox"), vec![(0, 1)]);
}

#[test]
fn counts_repeat_and_saturate() {
    let dict = word_dict(&["a", "b"]);
    assert_eq!(sorted(article_counts(&dict, "a A b a")), vec![(0, 3), (1, 1)]);
    let long = "a ".repeat(70000);
    assert_eq!(article_counts(&dict, &long), vec![(0, u16::MAX)]);
    assert_eq!(article_counts(&dict, ""), vec![]);
}

#[test]
fn dictionary_keeps_first_line() {
    let dict = word_dict(&["Cat", "dog", "cat", "DOG", "eel"]);
    assert_eq!(dict.len(), 3);
    assert_eq!(dict.get("cat"), Some(&0));
    assert_eq!(dict.get("dog"), Some(&1));
    assert_eq!(dict.get("eel"), Some(&4));
}

#[test]
fn insert_records_offsets_and_bytes() {
    let dict = word_dict(&["the", "fox"]);
    let mut f = Frequency::new("results/frequency.dat", &dict);
    let first = f.insert(String::from("the fox the")).unwrap();
    // eight bytes of length, then six per pair
    assert_eq!(first.len(), 8 + 2 * 6);
    assert_eq!(&first[..8], &2u64.to_le_bytes());
    let second = f.insert(String::from("nothing here")).unwrap();
    assert_eq!(second, 0u64.to_le_bytes().to_vec());
    assert_eq!(f.len(), 2);
    assert_eq!(f.index(), &vec![0, 20]);
}

#[test]
fn round_trip_and_read_only() {
    let dict = word_dict(&["the", "fox"]);
    let mut fa = Frequency::new("results/frequency.dat", &dict);
    let mut spill = Vec::new();
    for text in ["the fox", "fox fox", "none"] {
        spill.extend(fa.insert(String::from(text)).unwrap());
    }

    let mut fad = Frequency::deserialize(fa.fname(), fa.index().clone(), spill.len() as u64);
    assert_eq!(fa.fname(), fad.fname());
    assert_eq!(fa.len(), fad.len());
    assert_eq!(fa.index(), fad.index());

    let e = fad.insert(String::from("")).err().unwrap();
    assert_eq!(*e, ErrorKind::MissingDict);
    assert_eq!(fad.len(), 3);

    fad.set_dict(&dict);
    assert!(fad.insert(String::from("")).is_ok());
    assert_eq!(fad.len(), 4);
}

#[test]
fn load_inverts_the_spill() {
    let dict = word_dict(&["the", "fox"]);
    let mut fa = Frequency::new("results/frequency.dat", &dict);
    let mut spill = Vec::new();
    for text in ["the fox", "fox fox", "none", "The"] {
        spill.extend(fa.insert(String::from(text)).unwrap());
    }
    let inv = fa.load(&spill).unwrap();
    let expect: HashMap<u32, Vec<(u32, u16)>> =
        HashMap::from([(0, vec![(0, 1), (3, 1)]), (1, vec![(0, 1), (1, 2)])]);
    assert_eq!(inv, expect);

    let e = fa.load(&spill[..spill.len() - 1].to_vec()).err().unwrap();
    assert_eq!(*e, ErrorKind::Serialization);
}

#[test]
fn load_gives_the_scenario_lists() {
    let dict = word_dict(&["A", "A's", "AMD", "AMD's"]);
    let mut f = Frequency::new("results/frequency.dat", &dict);
    let t = ["a a's", "a a's", "", "", "", "amd's", "", "", "", "a a a's a's amd"];
    let mut spill = Vec::new();
    for text in t {
        spill.extend(f.insert(text.into()).unwrap());
    }
    let inv = f.load(&spill).unwrap();
    assert_eq!(inv[&0], vec![(0, 1), (1, 1), (9, 2)]);
    assert_eq!(inv[&1], vec![(0, 1), (1, 1), (9, 2)]);
    assert_eq!(inv[&2], vec![(9, 1)]);
    assert_eq!(inv[&3], vec![(5, 1)]);
    assert_eq!(f.load(&spill).unwrap(), inv);
}
