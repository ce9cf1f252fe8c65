use std::collections::HashSet;

use wordlers::data_loader::choose_random_word;
use wordlers::data_loader::load_words_file;
use wordlers::data_loader::Error;
use wordlers::data_loader::WordTable;

fn words_under(table: &WordTable, length: usize) -> HashSet<String> {
    table
        .get_words(length)
        .map(|words| words.iter().cloned().collect())
        .unwrap_or_default()
}

#[test]
fn test_load_words_file() {
    // Test case 1: Valid contents with alphabetic characters
    // 2 words of length 5, 1 word of length 9, 1 word of length 6
    let result = load_words_file("apple\npeach\npineapple\ncherry", "words.txt");
    assert!(result.is_ok());
    let word_table = result.unwrap();
    assert_eq!(word_table.num_lengths(), 3);
    assert_eq!(
        words_under(&word_table, 5),
        HashSet::from_iter(vec!["APPLE".to_string(), "PEACH".to_string()])
    );
    assert_eq!(
        words_under(&word_table, 6),
        HashSet::from_iter(vec!["CHERRY".to_string()])
    );
    assert_eq!(
        words_under(&word_table, 9),
        HashSet::from_iter(vec!["PINEAPPLE".to_string()])
    );

    // Test case 2: Contents with non-alphabetic characters
    let non_alphabetic_file_path_as_str = "bad-words.txt";
    let result = load_words_file("apple\nbanana-cherry\n123", non_alphabetic_file_path_as_str);
    assert!(result.is_err());
    let error = result.unwrap_err();
    assert_eq!(
        error.message(),
        format!("File {non_alphabetic_file_path_as_str} contains non-alphabetic characters.")
    );

    // Test case 3: Empty contents
    let result = load_words_file("", "empty.txt");
    assert!(result.is_ok());
    let word_table = result.unwrap();
    assert_eq!(word_table.num_lengths(), 0);
}

#[test]
fn test_choose_random_word() {
    let mut word_table = WordTable::new();
    let words_set: HashSet<String> = vec![
        String::from("apple"),
        String::from("banana"),
        String::from("cherry"),
    ]
    .into_iter()
    .collect();
    for word in &words_set {
        word_table.insert_word(5, word.clone());
    }

    // Test case 1: Word of specified length exists
    let result = choose_random_word(&word_table, 5);
    assert!(result.is_ok());
    let chosen_word = result.unwrap();
    assert!(words_set.contains(&chosen_word));

    // Test case 2: Word of specified length does not exist
    let result = choose_random_word(&word_table, 6);
    assert!(result.is_err());
    let error = result.unwrap_err();
    assert_eq!(error.message(), "No word of length 6 found.");

    // Test case 3: Word vector is empty
    let mut empty_word_table = WordTable::new();
    empty_word_table.ensure_len(5);
    let result = choose_random_word(&empty_word_table, 5);
    assert!(result.is_err());
    let error = result.unwrap_err();
    assert_eq!(error.message(), "Vector is empty for length 5.");
}

#[test]
fn windows_line_endings_and_repeats_are_handled() {
    let result = load_words_file("apple\r\npeach\r\napple", "words.txt");
    let word_table = result.unwrap();
    assert_eq!(
        words_under(&word_table, 5),
        HashSet::from_iter(vec!["APPLE".to_string(), "PEACH".to_string()])
    );
}

#[test]
fn chosen_word_comes_from_a_singleton_bucket() {
    let mut word_table = WordTable::new();
    word_table.insert_word(4, String::from("pear"));
    assert_eq!(choose_random_word(&word_table, 4).unwrap(), "pear");
}

#[test]
fn empty_lines_count_as_empty_words() {
    let word_table = load_words_file("\n\nabc", "words.txt").unwrap();
    assert_eq!(word_table.num_lengths(), 2);
    assert_eq!(
        words_under(&word_table, 0),
        HashSet::from_iter(vec![String::new()])
    );
    assert_eq!(
        words_under(&word_table, 3),
        HashSet::from_iter(vec!["ABC".to_string()])
    );
}

#[test]
fn error_variants_compare_by_contents() {
    assert_eq!(Error::NoWordThisLength(6), Error::NoWordThisLength(6));
    assert_ne!(Error::NoWordThisLength(6), Error::EmptyWordVec(6));
}
