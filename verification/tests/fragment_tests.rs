use wordcount::fragment::{build_fragments, Fragment};
use wordcount::pattern::compile_pattern;
use wordcount::scanner::count_in_window;

#[test]
fn fragments_cover_buffer_with_overlap() {
    let frags = build_fragments(10, 4, 2);
    assert_eq!(
        frags,
        vec![
            Fragment { start: 0, end: 4 },
            Fragment { start: 2, end: 8 },
            Fragment { start: 6, end: 10 },
        ]
    );
}

#[test]
fn empty_buffer_yields_no_fragments() {
    let frags = build_fragments(0, 4, 2);
    assert!(frags.is_empty());
}

#[test]
fn single_fragment_when_buffer_fits() {
    let frags = build_fragments(3, 4, 2);
    assert_eq!(frags, vec![Fragment { start: 0, end: 3 }]);
}

#[test]
fn window_scan_counts_greedy_occurrences() {
    let buffer: Vec<u8> = b"abababab".to_vec();
    let pat = compile_pattern(&b"ab".to_vec()).unwrap();
    assert_eq!(count_in_window(&buffer, 0, 8, &pat, 0), 4);
    // a window over part of the buffer
    assert_eq!(count_in_window(&buffer, 2, 6, &pat, 0), 2);
}

#[test]
fn window_scan_is_non_overlapping() {
    let buffer: Vec<u8> = b"aaaa".to_vec();
    let pat = compile_pattern(&b"aa".to_vec()).unwrap();
    assert_eq!(count_in_window(&buffer, 0, 4, &pat, 0), 2);
}

#[test]
fn window_scan_trims_occurrences_ending_in_overlap() {
    let buffer: Vec<u8> = b"ababab".to_vec();
    let pat = compile_pattern(&b"ab".to_vec()).unwrap();
    // occurrences end at offsets 2, 4 and 6; a cut of 2 drops the first
    assert_eq!(count_in_window(&buffer, 0, 6, &pat, 2), 2);
    // a cut past the window's end drops them all
    assert_eq!(count_in_window(&buffer, 0, 6, &pat, 6), 0);
}
