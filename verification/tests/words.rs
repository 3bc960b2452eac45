// Word encodings: letter values, polynomial hashes, and green/yellow
// difference rows.

use plonk::words::{compute_diff_u64, word_to_chars, word_to_polyhash};

#[test]
fn test() {
    let final_char = word_to_chars("fault");
    println!("{:?}", final_char);
}

#[test]
fn letter_values() {
    assert_eq!(word_to_chars("fault"), vec![6, 1, 21, 12, 20]);
    assert_eq!(word_to_chars("audio"), vec![1, 21, 4, 9, 15]);
    assert_eq!(word_to_chars("az"), vec![1, 26]);
    assert_eq!(word_to_chars(""), Vec::<u64>::new());
}

#[test]
fn polyhash_values() {
    // ((((6 * 29 + 1) * 29 + 21) * 29 + 12) * 29 + 20.
    assert_eq!(word_to_polyhash("fault"), 4286104);
    assert_eq!(word_to_polyhash("a"), 1);
    assert_eq!(word_to_polyhash(""), 0);
    assert_eq!(word_to_polyhash("ab"), 31);
}

#[test]
fn diff_rows() {
    // "funky" against "fluff": green at the first letter only; the letters
    // f and u also occur somewhere in the answer.
    let diff = compute_diff_u64("funky", "fluff");
    assert_eq!(diff.len(), 2);
    assert_eq!(diff[0], vec![1, 0, 0, 0, 0]);
    assert_eq!(diff[1], vec![1, 1, 0, 0, 0]);

    // a word against itself is green everywhere.
    let diff = compute_diff_u64("audio", "audio");
    assert_eq!(diff[0], vec![1, 1, 1, 1, 1]);
    assert_eq!(diff[1], vec![1, 1, 1, 1, 1]);

    // no letters in common: nothing is coloured.
    let diff = compute_diff_u64("abcde", "fghij");
    assert_eq!(diff[0], vec![0, 0, 0, 0, 0]);
    assert_eq!(diff[1], vec![0, 0, 0, 0, 0]);
}
