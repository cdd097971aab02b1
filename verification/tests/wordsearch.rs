use wordsearch::{
    calculate_grid_size, delta1, find, found_words, is_overlapping_line, is_present,
    rows_to_cols, string_to_grid, GridError,
};

#[test]
fn test_rows_to_cols() {
    let rows = "abcd".into();
    assert_eq!("acbd".as_bytes(), rows_to_cols(&rows, 2));
}

#[test]
fn test_string_longer_than_size() {
    let grid = string_to_grid("abcd".into()).unwrap();
    assert!(!is_present(&grid, "asdf".as_bytes()));
}

#[test]
fn test_string_present_row() {
    let grid = string_to_grid("abcd".into()).unwrap();
    assert!(is_present(&grid, "ab".as_bytes()));
    assert!(is_present(&grid, "cd".as_bytes()));
}

#[test]
fn test_string_overlap_row() {
    let grid = string_to_grid("abcd".into()).unwrap();
    assert!(!is_present(&grid, "bc".as_bytes()));
}

#[test]
fn test_string_present_column() {
    let grid = string_to_grid("abcd".into()).unwrap();
    assert!(is_present(&grid, "ac".as_bytes()));
    assert!(is_present(&grid, "bd".as_bytes()));
}

#[test]
fn test_string_overlap_column() {
    let grid = string_to_grid("abcd".into()).unwrap();
    assert!(!is_present(&grid, "bc".as_bytes()));
}

#[test]
fn test_transpose_twice_is_identity() {
    let rows: Vec<u8> = "abcdefghi".into();
    let cols = rows_to_cols(&rows, 3);
    assert_eq!(rows, rows_to_cols(&cols, 3));
}

#[test]
fn test_transpose_side_three() {
    let rows: Vec<u8> = "abcdefghi".into();
    assert_eq!("adgbehcfi".as_bytes(), rows_to_cols(&rows, 3));
}

#[test]
fn test_grid_size_exact_root() {
    assert_eq!(Ok(0), calculate_grid_size(0));
    assert_eq!(Ok(1), calculate_grid_size(1));
    assert_eq!(Ok(2), calculate_grid_size(4));
    assert_eq!(Ok(30), calculate_grid_size(900));
}

#[test]
fn test_grid_size_rejects_non_square() {
    assert_eq!(Err(GridError::InvalidDimension), calculate_grid_size(2));
    assert_eq!(Err(GridError::InvalidDimension), calculate_grid_size(5));
    assert_eq!(Err(GridError::InvalidDimension), calculate_grid_size(899));
}

#[test]
fn test_string_to_grid_rejects_non_square() {
    assert_eq!(
        Err(GridError::InvalidDimension),
        string_to_grid("abcde".into()).map(|g| g.size)
    );
}

#[test]
fn test_string_to_grid_dimensions() {
    let grid = string_to_grid("abcdefghi".into()).unwrap();
    assert_eq!(3, grid.size);
    assert_eq!("abcdefghi".as_bytes(), grid.rows);
    assert_eq!("adgbehcfi".as_bytes(), grid.columns);
}

#[test]
fn test_find_first_occurrence() {
    assert_eq!(Some(0), find("abab".as_bytes(), "ab".as_bytes()));
    assert_eq!(Some(1), find("abcd".as_bytes(), "bc".as_bytes()));
    assert_eq!(Some(2), find("aabba".as_bytes(), "bb".as_bytes()));
    assert_eq!(Some(0), find("aaaa".as_bytes(), "aaaa".as_bytes()));
}

#[test]
fn test_find_absent() {
    assert_eq!(None, find("abcd".as_bytes(), "xy".as_bytes()));
    assert_eq!(None, find("abcd".as_bytes(), "db".as_bytes()));
    assert_eq!(None, find("abcabc".as_bytes(), "cba".as_bytes()));
}

#[test]
fn test_find_repeated_suffix_byte() {
    // The pattern's last byte also sits just before the end, so the
    // bad-character skip must stay short enough not to jump the match.
    assert_eq!(Some(1), find("aabb".as_bytes(), "abb".as_bytes()));
    assert_eq!(Some(2), find("ababb".as_bytes(), "abb".as_bytes()));
}

#[test]
fn test_find_lookahead_skip() {
    // The byte after the first window ('z') occurs nowhere in the
    // pattern, so the scan jumps a full window past it.
    assert_eq!(Some(3), find("aczbab".as_bytes(), "ba".as_bytes()));
    assert_eq!(None, find("aczbzcz".as_bytes(), "ab".as_bytes()));
}

#[test]
fn test_delta1_table() {
    let table = delta1("abcab".as_bytes());
    assert_eq!(256, table.len());
    assert_eq!(1, table[b'a' as usize]);
    assert_eq!(3, table[b'b' as usize]);
    assert_eq!(2, table[b'c' as usize]);
    assert_eq!(5, table[b'z' as usize]);
}

#[test]
fn test_delta1_ignores_last_byte() {
    // Only positions before the last are recorded: 'b' keeps the default.
    let table = delta1("ab".as_bytes());
    assert_eq!(1, table[b'a' as usize]);
    assert_eq!(2, table[b'b' as usize]);
}

#[test]
fn test_overlap_filter() {
    assert!(is_overlapping_line(1, "bc".as_bytes(), 2));
    assert!(!is_overlapping_line(0, "ab".as_bytes(), 2));
    assert!(!is_overlapping_line(2, "cd".as_bytes(), 2));
    assert!(is_overlapping_line(7, "abc".as_bytes(), 3));
}

#[test]
fn test_word_filling_whole_line() {
    let grid = string_to_grid("abcdefghi".into()).unwrap();
    assert!(is_present(&grid, "def".as_bytes()));
    assert!(is_present(&grid, "beh".as_bytes()));
    assert!(!is_present(&grid, "fg".as_bytes()));
}

#[test]
fn test_empty_grid_has_no_words() {
    let grid = string_to_grid(Vec::new()).unwrap();
    assert_eq!(0, grid.size);
    assert!(!is_present(&grid, "a".as_bytes()));
}

#[test]
fn test_first_hit_only_is_considered() {
    // "ca" reads validly in the last row, but the skip search's first hit
    // in the flat buffer (index 2) straddles rows 0 and 1 and is
    // rejected, so the word is reported absent.
    let grid = string_to_grid("xbcabccax".into()).unwrap();
    assert_eq!(Some(2), find(&grid.rows, "ca".as_bytes()));
    assert!(!is_present(&grid, "ca".as_bytes()));
}

#[test]
fn test_found_words_preserves_order() {
    let grid = string_to_grid("abcd".into()).unwrap();
    let words: Vec<Vec<u8>> = vec!["ab".into(), "zz".into(), "cd".into()];
    let found = found_words(&grid, &words);
    let expected: Vec<Vec<u8>> = vec!["ab".into(), "cd".into()];
    assert_eq!(expected, found);
}

#[test]
fn test_found_words_keeps_duplicates() {
    let grid = string_to_grid("abcd".into()).unwrap();
    let words: Vec<Vec<u8>> = vec!["ac".into(), "zz".into(), "ac".into()];
    let found = found_words(&grid, &words);
    let expected: Vec<Vec<u8>> = vec!["ac".into(), "ac".into()];
    assert_eq!(expected, found);
}
