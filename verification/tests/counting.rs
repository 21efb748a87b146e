use rwc::lines::count_lines;
use rwc::lines::count_lines_in_window;
use rwc::lines::total_lines;
use rwc::words::count_words;
use rwc::words::is_whitespace_byte;
use rwc::words::scan_words_in_window;
use rwc::words::total_words;
use rwc::words::WordPartial;

#[test]
fn two_terminators_give_two_lines_whatever_the_split() {
    let content = b"abc\ndef\n";
    assert_eq!(count_lines(content, 1, 512 * 1024), 2);
    // Four workers with a block size smaller than the file still see two.
    assert_eq!(count_lines(content, 4, 1), 2);
    assert_eq!(count_lines(content, 4, 2), 2);
    assert_eq!(count_words(content, 1, 512 * 1024), 2);
    assert_eq!(count_words(content, 4, 1), 2);
}

#[test]
fn empty_file_counts_nothing() {
    let content = b"";
    assert_eq!(count_lines(content, 1, 512 * 1024), 0);
    assert_eq!(count_lines(content, 8, 1), 0);
    assert_eq!(count_words(content, 1, 512 * 1024), 0);
    assert_eq!(count_words(content, 8, 1), 0);
}

#[test]
fn final_line_without_terminator_is_not_counted() {
    let content = b"hello";
    assert_eq!(count_lines(content, 1, 512 * 1024), 0);
    assert_eq!(count_words(content, 1, 512 * 1024), 1);
}

#[test]
fn parallel_line_count_matches_sequential_scan() {
    let content = b"one two\nthree four five\n\nsix\nseven eight nine ten";
    let sequential = count_lines_in_window(content);
    assert_eq!(sequential, 4);
    for workers in 1..=8u64 {
        for block_size in [1u64, 2, 3, 5, 16, 1024] {
            assert_eq!(count_lines(content, workers, block_size), sequential);
        }
    }
}

#[test]
fn parallel_word_count_matches_sequential_scan() {
    let content = b"one two\nthree four five\n\nsix\nseven eight nine ten";
    let sequential = scan_words_in_window(content).count;
    assert_eq!(sequential, 10);
    for workers in 1..=8u64 {
        for block_size in [1u64, 2, 3, 5, 16, 1024] {
            assert_eq!(count_words(content, workers, block_size), sequential);
        }
    }
}

#[test]
fn straddling_word_is_counted_once() {
    // With one-byte blocks over two workers the boundary falls inside the
    // word, so the kernel sees two fragments and the merge subtracts one.
    let content = b"hi";
    assert_eq!(count_words(content, 2, 1), 1);
    assert_eq!(count_words(b"hello world", 4, 1), 2);
}

#[test]
fn repeated_runs_return_identical_counts() {
    let content = b"some words\nover two lines\n";
    let first_lines = count_lines(content, 3, 4);
    let second_lines = count_lines(content, 3, 4);
    assert_eq!(first_lines, second_lines);
    let first_words = count_words(content, 3, 4);
    let second_words = count_words(content, 3, 4);
    assert_eq!(first_words, second_words);
}

#[test]
fn line_kernel_counts_terminator_bytes() {
    assert_eq!(count_lines_in_window(b""), 0);
    assert_eq!(count_lines_in_window(b"\n"), 1);
    assert_eq!(count_lines_in_window(b"\n\n\n"), 3);
    assert_eq!(count_lines_in_window(b"abc"), 0);
    assert_eq!(count_lines_in_window(b"a\nb"), 1);
}

#[test]
fn word_kernel_reports_boundary_state() {
    let p = scan_words_in_window(b"ab cd");
    assert_eq!(p.count, 2);
    assert!(p.starts_mid);
    assert!(p.ends_mid);
    assert!(!p.empty);

    let p = scan_words_in_window(b" ab ");
    assert_eq!(p.count, 1);
    assert!(!p.starts_mid);
    assert!(!p.ends_mid);

    let p = scan_words_in_window(b"");
    assert_eq!(p.count, 0);
    assert!(!p.starts_mid);
    assert!(!p.ends_mid);
    assert!(p.empty);

    let p = scan_words_in_window(b"   ");
    assert_eq!(p.count, 0);
    assert!(!p.starts_mid);
    assert!(!p.ends_mid);
    assert!(!p.empty);
}

#[test]
fn whitespace_predicate_covers_the_separator_bytes() {
    for b in [9u8, 10, 11, 12, 13, 32, 133, 160] {
        assert!(is_whitespace_byte(b));
    }
    for b in [0u8, 48, 65, 97, 127, 128, 159, 161, 255] {
        assert!(!is_whitespace_byte(b));
    }
    // The next-line and no-break-space bytes separate words.
    assert_eq!(count_words(b"a\x85b", 1, 1024), 2);
    assert_eq!(count_words(b"a\xa0b", 1, 1024), 2);
}

#[test]
fn line_aggregator_sums_partials() {
    assert_eq!(total_lines(&vec![]), Some(0));
    assert_eq!(total_lines(&vec![1, 2, 3]), Some(6));
    assert_eq!(total_lines(&vec![u64::MAX, 0]), Some(u64::MAX));
    assert_eq!(total_lines(&vec![u64::MAX, 1]), None);
}

#[test]
fn word_aggregator_subtracts_straddles() {
    let left = scan_words_in_window(b"hel");
    let right = scan_words_in_window(b"lo");
    assert_eq!(left.count, 1);
    assert_eq!(right.count, 1);
    assert_eq!(total_words(&vec![left, right]), Some(1));

    // A whitespace boundary does not merge the words.
    let left = scan_words_in_window(b"hi ");
    let right = scan_words_in_window(b"there");
    assert_eq!(total_words(&vec![left, right]), Some(2));

    // An empty window between two fragments keeps them one word.
    let mid = scan_words_in_window(b"");
    let left = scan_words_in_window(b"hel");
    let right = scan_words_in_window(b"lo");
    assert_eq!(total_words(&vec![left, mid, right]), Some(1));
}

#[test]
fn word_aggregator_reports_overflow() {
    let big = WordPartial { count: u64::MAX, starts_mid: true, ends_mid: true, empty: false };
    let one = WordPartial { count: 2, starts_mid: false, ends_mid: false, empty: false };
    assert_eq!(total_words(&vec![big, one]), None);
    // With a straddling boundary the decrement keeps the total in range.
    let word = WordPartial { count: 1, starts_mid: true, ends_mid: true, empty: false };
    assert_eq!(total_words(&vec![big, word]), Some(u64::MAX));
}
