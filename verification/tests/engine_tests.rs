use wordcount::pattern::CountError;
use wordcount::strategy::{count_occurrences, Strategy};

fn count(buffer: &[u8], word: &[u8], strategy: Strategy, threads: usize) -> Result<u64, CountError> {
    count_occurrences(&buffer.to_vec(), &word.to_vec(), strategy, threads)
}

#[test]
fn scenario_three_occurrences_under_all_strategies() {
    let buffer = b"abcabcabcd";
    let word = b"abc";
    for threads in [1usize, 2, 4] {
        assert_eq!(count(buffer, word, Strategy::Sequential, threads), Ok(3));
        assert_eq!(count(buffer, word, Strategy::Manual, threads), Ok(3));
        assert_eq!(count(buffer, word, Strategy::DataParallel, threads), Ok(3));
    }
}

#[test]
fn strategies_agree_on_plain_text() {
    let buffer = b"the cat sat on the mat; the cat left".as_slice();
    let word = b"the";
    let seq = count(buffer, word, Strategy::Sequential, 1);
    let man = count(buffer, word, Strategy::Manual, 3);
    let par = count(buffer, word, Strategy::DataParallel, 3);
    assert_eq!(seq, Ok(3));
    assert_eq!(man, seq);
    assert_eq!(par, seq);
}

#[test]
fn repeated_word_counts_its_repetitions() {
    // non-overlapping semantics: "aa" in "aaaa" is 2, not 3
    assert_eq!(count(b"aaaa", b"aa", Strategy::Sequential, 1), Ok(2));
    let buffer: Vec<u8> = b"abcabcabcabcabc".to_vec();
    assert_eq!(count(&buffer, b"abc", Strategy::Manual, 2), Ok(5));
}

#[test]
fn word_longer_than_buffer_counts_zero() {
    assert_eq!(count(b"abc", b"abcd", Strategy::Sequential, 1), Ok(0));
    assert_eq!(count(b"", b"a", Strategy::Sequential, 1), Ok(0));
    assert_eq!(count(b"abc", b"abcd", Strategy::DataParallel, 2), Ok(0));
}

#[test]
fn empty_word_is_invalid_for_every_strategy() {
    assert_eq!(count(b"abc", b"", Strategy::Sequential, 1), Err(CountError::InvalidPattern));
    assert_eq!(count(b"abc", b"", Strategy::Manual, 2), Err(CountError::InvalidPattern));
    assert_eq!(count(b"abc", b"", Strategy::DataParallel, 2), Err(CountError::InvalidPattern));
}

#[test]
fn zero_workers_is_a_config_error_for_parallel_strategies() {
    assert_eq!(count(b"abc", b"abc", Strategy::Manual, 0), Err(CountError::ConfigError));
    assert_eq!(count(b"abc", b"abc", Strategy::DataParallel, 0), Err(CountError::ConfigError));
    // the sequential strategy ignores the worker count
    assert_eq!(count(b"abc", b"abc", Strategy::Sequential, 0), Ok(1));
}

#[test]
fn more_workers_than_fragments_is_harmless() {
    assert_eq!(count(b"abcabc", b"abc", Strategy::Manual, 64), Ok(2));
    assert_eq!(count(b"abcabc", b"abc", Strategy::DataParallel, 64), Ok(2));
}
