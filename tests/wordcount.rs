use std::hash::Hasher;

use wordcount::chunk::{chunk_size, plan_chunks, ChunkRange};
use wordcount::counter::{count_fingerprints, count_text, count_text_buffered, is_letter_byte, is_word_byte};
use wordcount::lex::{lex_less, same_bytes};
use wordcount::pipeline::{count_text_chunks, merge_text};
use wordcount::report::push_decimal;
use wordcount::text_count::TextCount;
use wordcount::word_count::WordCount;

fn text_report(bytes: &[u8]) -> String {
    String::from_utf8(count_text(bytes).serialize_counts()).unwrap()
}

fn hash_of(letters: &[u8]) -> u64 {
    let mut h = std::collections::hash_map::DefaultHasher::new();
    h.write(letters);
    h.finish()
}

#[test]
fn text_mode_example() {
    assert_eq!(text_report(b"the cat sat on the mat"), "cat\t1\nmat\t1\non\t1\nsat\t1\nthe\t2\n");
}

#[test]
fn empty_input_gives_empty_output() {
    assert_eq!(text_report(b""), "");
    assert!(count_fingerprints(b"").serialize_counts().is_empty());
    assert!(plan_chunks(0, 4).is_empty());
    assert!(count_text_chunks(b"", 4, 1024).serialize_counts().is_empty());
}

#[test]
fn output_is_strictly_sorted() {
    let t = count_text(b"zeta alpha Beta beta 10 9 alpha");
    let keys: Vec<Vec<u8>> = t.entries.iter().map(|e| e.0.clone()).collect();
    for w in keys.windows(2) {
        assert!(w[0] < w[1]);
    }
    assert_eq!(
        String::from_utf8(t.serialize_counts()).unwrap(),
        "10\t1\n9\t1\nBeta\t1\nalpha\t2\nbeta\t1\nzeta\t1\n"
    );
}

#[test]
fn fingerprint_output_sorted_numerically() {
    let mut w = WordCount::new();
    w.increment(10);
    w.increment(2);
    w.increment(10);
    assert_eq!(String::from_utf8(w.serialize_counts()).unwrap(), "2\t1\n10\t2\n");
}

#[test]
fn sum_of_counts_is_number_of_words() {
    let t = count_text(b"a b,, c a\n\nb a   x1 2");
    let sum: u64 = t.entries.iter().map(|e| e.1 as u64).sum();
    assert_eq!(sum, 8);
}

#[test]
fn same_input_same_output() {
    let input = b"one two three two one one";
    let a = count_text_chunks(input, 3, 1).serialize_counts();
    let b = count_text_chunks(input, 3, 1).serialize_counts();
    assert_eq!(a, b);
    assert_eq!(count_fingerprints(input).serialize_counts(), count_fingerprints(input).serialize_counts());
}

#[test]
fn buffer_size_does_not_change_words() {
    let input = b"the quick brown fox, the lazy dog; the end";
    let whole = count_text(input).serialize_counts();
    for size in [0usize, 1, 2, 3, 5, 7, 64, 1024] {
        assert_eq!(count_text_buffered(input, size).serialize_counts(), whole);
    }
}

#[test]
fn aligned_chunks_count_as_whole() {
    let input = b"aaa bbb aaa ccc ";
    for workers in [1usize, 2, 4] {
        let size = chunk_size(input.len(), workers);
        assert_eq!(input.len() % size, 0);
        assert_eq!(
            count_text_chunks(input, workers, 1024).serialize_counts(),
            count_text(input).serialize_counts()
        );
    }
}

#[test]
fn split_word_at_chunk_boundary() {
    // 22 bytes over 3 workers: chunks of 8, so "the" is cut into "t" and "he".
    let input = b"the cat sat on the mat";
    let out = String::from_utf8(count_text_chunks(input, 3, 1024).serialize_counts()).unwrap();
    assert_eq!(out, "cat\t1\nhe\t1\nmat\t1\non\t1\nsat\t1\nt\t1\nthe\t1\n");
}

#[test]
fn chunk_plan_shapes() {
    assert_eq!(chunk_size(10, 3), 4);
    assert_eq!(chunk_size(9, 3), 3);
    assert_eq!(chunk_size(0, 3), 0);
    assert_eq!(
        plan_chunks(10, 3),
        vec![
            ChunkRange { start: 0, end: 4 },
            ChunkRange { start: 4, end: 8 },
            ChunkRange { start: 8, end: 10 }
        ]
    );
    let p = plan_chunks(10, 4);
    assert_eq!(p.len(), 4);
    assert_eq!(p[3], ChunkRange { start: 9, end: 10 });
    assert_eq!(plan_chunks(3, 8).len(), 3);
    assert_eq!(plan_chunks(5, 1), vec![ChunkRange { start: 0, end: 5 }]);
}

#[test]
fn fingerprint_of_a_run_is_std_hasher() {
    let w = count_fingerprints(b"abc ");
    assert_eq!(w.entries, vec![(hash_of(b"abc"), 1)]);
}

#[test]
fn fingerprints_of_equal_runs_are_summed() {
    let w = count_fingerprints(b"Cat cat Cat.");
    let mut expected = vec![(hash_of(b"Cat"), 2), (hash_of(b"cat"), 1)];
    expected.sort();
    assert_eq!(w.entries, expected);
}

#[test]
fn fingerprint_delimiters_and_trailing_run() {
    // every non-letter closes a run, even an empty one; the trailing run is dropped
    let w = count_fingerprints(b"a  b9c");
    let mut expected = vec![(hash_of(b"a"), 1), (hash_of(b""), 1), (hash_of(b"b"), 1)];
    expected.sort();
    assert_eq!(w.entries, expected);
    assert!(count_fingerprints(b"abc").entries.is_empty());
}

#[test]
fn digits_are_word_bytes_in_text_mode() {
    assert_eq!(text_report(b"abc123 x9-9"), "9\t1\nabc123\t1\nx9\t1\n");
    assert!(is_word_byte(b'7'));
    assert!(!is_letter_byte(b'7'));
    assert!(is_letter_byte(b'Z'));
    assert!(!is_word_byte(b'_'));
}

#[test]
fn counts_saturate() {
    let mut w = WordCount::new();
    w.add(5, u32::MAX - 1);
    w.increment(5);
    w.increment(5);
    assert_eq!(w.entries, vec![(5, u32::MAX)]);
    let mut t = TextCount::new();
    t.add(b"x".to_vec(), u32::MAX);
    t.increment(b"x".to_vec());
    assert_eq!(t.entries, vec![(b"x".to_vec(), u32::MAX)]);
}

#[test]
fn merge_sums_counts() {
    let mut a = WordCount::new();
    a.increment(1);
    a.increment(3);
    let mut b = WordCount::new();
    b.increment(3);
    b.increment(2);
    a.merge_from(&b);
    assert_eq!(a.entries, vec![(1, 1), (2, 1), (3, 2)]);

    let parts = vec![count_text(b"x y"), count_text(b"y z"), count_text(b"")];
    let m = merge_text(&parts);
    assert_eq!(String::from_utf8(m.serialize_counts()).unwrap(), "x\t1\ny\t2\nz\t1\n");
    let mut t = count_text(b"b a");
    t.merge_from(&count_text(b"a c"));
    assert_eq!(String::from_utf8(t.serialize_counts()).unwrap(), "a\t2\nb\t1\nc\t1\n");
}

#[test]
fn lexicographic_order() {
    assert!(lex_less(b"ab", b"b"));
    assert!(lex_less(b"a", b"ab"));
    assert!(!lex_less(b"b", b"ab"));
    assert!(!lex_less(b"ab", b"ab"));
    assert!(lex_less(b"", b"a"));
    assert!(same_bytes(b"ab", b"ab"));
    assert!(!same_bytes(b"ab", b"abc"));
}

#[test]
fn decimal_digits() {
    let mut out = Vec::new();
    push_decimal(&mut out, 0);
    out.push(b' ');
    push_decimal(&mut out, 1234567890123);
    out.push(b' ');
    push_decimal(&mut out, u64::MAX);
    assert_eq!(String::from_utf8(out).unwrap(), "0 1234567890123 18446744073709551615");
}
