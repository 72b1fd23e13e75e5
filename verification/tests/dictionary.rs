use epeletii::dictionary::{strip_tones, Dictionary};

#[test]
fn test_strip_tones() {
    assert_eq!(strip_tones("ábá"), "aba");
    assert_eq!(strip_tones("áa"), "aa");
    assert_eq!(strip_tones("abaji"), "abaji");
    assert_eq!(strip_tones("ẹ́mẹ́"), "eme");
    assert_eq!(strip_tones("bḅ"), "bb");
    assert_eq!(strip_tones("ịḅani"), "ibani");
}

fn table() -> Dictionary {
    Dictionary::from_table_rows(vec![
        (" Bọ́ ".to_string(), "n".to_string(), " to come ".to_string()),
        ("bo".to_string(), "v".to_string(), "a second sense".to_string()),
        ("Ibani".to_string(), "n".to_string(), "the Ibani people".to_string()),
        ("   ".to_string(), "n".to_string(), "blank".to_string()),
    ])
}

#[test]
fn lookup_is_tone_insensitive() {
    let dict = table();
    assert_eq!(dict.size(), 3);
    assert!(dict.is_valid_word("bo"));
    assert!(dict.is_valid_word("BỌ́"));
    assert!(dict.is_valid_word("ibani"));
    assert!(!dict.is_valid_word("b"));
    assert!(!dict.is_valid_word("aba"));
    let defs = dict.lookup("bọ").unwrap();
    assert_eq!(defs.len(), 2);
    assert_eq!(defs[0].word, "Bọ́");
    assert_eq!(defs[0].pos, "n");
    assert_eq!(defs[0].meaning, "to come");
    assert_eq!(defs[1].word, "bo");
    assert!(dict.lookup("ama").is_none());
}

#[test]
fn word_list_skips_blank_lines() {
    let dict = Dictionary::from_word_lines(vec![
        "Aba".to_string(),
        "  ".to_string(),
        " eme ".to_string(),
        "aba".to_string(),
    ]);
    assert_eq!(dict.size(), 2);
    assert!(dict.is_valid_word("ÁBÁ"));
    assert!(dict.is_valid_word("eme"));
    let defs = dict.lookup("aba").unwrap();
    assert_eq!(defs.len(), 2);
    assert_eq!(defs[0].word, "aba");
    assert_eq!(defs[0].pos, "");
}

#[test]
fn stripping_twice_changes_nothing() {
    let once = strip_tones("Ị\u{301}bání ḅọ\u{300}");
    assert_eq!(once, "ibani bo");
    assert_eq!(strip_tones(&once), once);
}
