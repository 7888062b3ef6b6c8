use wordcount::pattern::{compile_pattern, CountError};

#[test]
fn failure_table_of_ababc() {
    let word: Vec<u8> = b"ababc".to_vec();
    let pat = compile_pattern(&word).unwrap();
    assert_eq!(pat.word, word);
    assert_eq!(pat.table, vec![0, 0, 1, 2, 0]);
}

#[test]
fn failure_table_of_repetitive_word() {
    let word: Vec<u8> = b"aaaa".to_vec();
    let pat = compile_pattern(&word).unwrap();
    assert_eq!(pat.table, vec![0, 1, 2, 3]);
}

#[test]
fn failure_table_of_single_byte() {
    let word: Vec<u8> = b"x".to_vec();
    let pat = compile_pattern(&word).unwrap();
    assert_eq!(pat.table, vec![0]);
}

#[test]
fn empty_word_is_rejected() {
    let word: Vec<u8> = Vec::new();
    assert_eq!(compile_pattern(&word).err(), Some(CountError::InvalidPattern));
}
