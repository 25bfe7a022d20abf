use forkjoin_bench::words::{count_slice, count_words_parallel, count_words_sequential, merge, WordTable, WORDS_PER_TASK};

#[test]
fn word_list_counts() {
    let text = ["a", "b", "a"].join(" ");
    for table in [count_words_sequential(&text), count_words_parallel(&text)] {
        assert_eq!(table.len(), 2);
        assert_eq!(table.get("a"), 2);
        assert_eq!(table.get("b"), 1);
    }
}

#[test]
fn mixed_case_duplicates() {
    let text = "Hello hello HELLO";
    let seq = count_words_sequential(text);
    let par = count_words_parallel(text);
    assert_eq!(seq.len(), 1);
    assert_eq!(seq.get("hello"), 3);
    assert_eq!(seq.get("Hello"), 0);
    assert!(seq.same_counts(&par));
}

#[test]
fn empty_text() {
    for table in [count_words_sequential(""), count_words_parallel("   \n\t ")] {
        assert_eq!(table.len(), 0);
        assert_eq!(table.get("a"), 0);
    }
}

#[test]
fn single_word() {
    let table = count_words_parallel("Rust");
    assert_eq!(table.len(), 1);
    assert_eq!(table.get("rust"), 1);
}

#[test]
fn any_whitespace_separates_words() {
    let table = count_words_sequential("  a\tb\n\na  B ");
    assert_eq!(table.len(), 2);
    assert_eq!(table.get("a"), 2);
    assert_eq!(table.get("b"), 2);
}

#[test]
fn long_text_sequential_and_parallel_agree() {
    let words = ["hello", "World", "rust", "RAYON", "parallel"];
    let n = 3 * WORDS_PER_TASK + 17;
    let text = (0..n).map(|i| words[i % words.len()]).collect::<Vec<_>>().join(" ");
    let seq = count_words_sequential(&text);
    let par = count_words_parallel(&text);
    assert_eq!(seq.len(), 5);
    assert_eq!(par.len(), 5);
    assert!(seq.same_counts(&par));
    let total: usize = ["hello", "world", "rust", "rayon", "parallel"].iter().map(|w| par.get(w)).sum();
    assert_eq!(total, n);
    assert_eq!(par.get("hello"), (n + 4) / 5);
    assert_eq!(par.get("rayon"), (n + 1) / 5);
}

#[test]
fn same_counts_detects_differences() {
    let a = count_words_sequential("x y x");
    let b = count_words_sequential("x y y");
    let c = count_words_sequential("y x x");
    assert!(!a.same_counts(&b));
    assert!(a.same_counts(&c));
    assert!(!a.same_counts(&count_words_sequential("x y x z")));
}

#[test]
fn merge_adds_counts_key_by_key() {
    let a = count_words_sequential("a b a");
    let b = count_words_sequential("b c");
    let m = merge(a, &b);
    assert_eq!(m.len(), 3);
    assert_eq!(m.get("a"), 2);
    assert_eq!(m.get("b"), 2);
    assert_eq!(m.get("c"), 1);
    let e = merge(WordTable::new(), &b);
    assert!(e.same_counts(&b));
}

#[test]
fn count_slice_counts_a_range() {
    let words: Vec<String> = ["A", "b", "a", "C"].iter().map(|w| w.to_string()).collect();
    let t = count_slice(&words, 1, 3);
    assert_eq!(t.len(), 2);
    assert_eq!(t.get("a"), 1);
    assert_eq!(t.get("b"), 1);
    assert_eq!(t.get("c"), 0);
    let mut u = WordTable::new();
    u.add("a".to_string(), 4);
    u.add("a".to_string(), 1);
    assert_eq!(u.get("a"), 5);
}
