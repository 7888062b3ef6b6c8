use wordcount::strategy::{count_occurrences, Strategy};

const FRAGMENT_SIZE: usize = 2 * 1024 * 1024;

fn count_all_strategies(buffer: &Vec<u8>, word: &[u8], threads: usize) -> u64 {
    let word = word.to_vec();
    let seq = count_occurrences(buffer, &word, Strategy::Sequential, threads).unwrap();
    let man = count_occurrences(buffer, &word, Strategy::Manual, threads).unwrap();
    let par = count_occurrences(buffer, &word, Strategy::DataParallel, threads).unwrap();
    assert_eq!(seq, man);
    assert_eq!(seq, par);
    seq
}

#[test]
fn occurrence_straddling_fragment_boundary_counts_once() {
    let mut buffer: Vec<u8> = vec![b'x'; FRAGMENT_SIZE + 1000];
    let word = b"needle";
    // half before the boundary, half after it
    let at = FRAGMENT_SIZE - 3;
    buffer[at..at + word.len()].copy_from_slice(word);
    assert_eq!(count_all_strategies(&buffer, word, 4), 1);
}

#[test]
fn occurrence_inside_overlap_counts_once() {
    let mut buffer: Vec<u8> = vec![b'x'; FRAGMENT_SIZE + 1000];
    let word = b"needle";
    // entirely inside the 256-byte overlap the second fragment shares
    // with the first: the first fragment counts it, the second trims it
    let at = FRAGMENT_SIZE - 100;
    buffer[at..at + word.len()].copy_from_slice(word);
    assert_eq!(count_all_strategies(&buffer, word, 4), 1);
}

#[test]
fn occurrences_on_both_sides_of_boundary_count_separately() {
    let mut buffer: Vec<u8> = vec![b'x'; 2 * FRAGMENT_SIZE + 1000];
    let word = b"needle";
    buffer[500..500 + word.len()].copy_from_slice(word);
    buffer[FRAGMENT_SIZE - 3..FRAGMENT_SIZE - 3 + word.len()].copy_from_slice(word);
    buffer[2 * FRAGMENT_SIZE + 100..2 * FRAGMENT_SIZE + 100 + word.len()].copy_from_slice(word);
    assert_eq!(count_all_strategies(&buffer, word, 3), 3);
}
