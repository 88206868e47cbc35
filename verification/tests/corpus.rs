use alyze::corpus::{load_n_bytes, visit_chunks, ByteBudget, Chunker};

fn texts(v: &[&str]) -> Vec<String> {
    v.iter().map(|s| s.to_string()).collect()
}

#[test]
fn load_n_bytes_stops_after_the_text_that_reaches_the_budget() {
    let all = texts(&["abc", "de", "fghij", "k"]);
    assert_eq!(load_n_bytes(all.clone(), 5), texts(&["abc", "de"]));
    assert_eq!(load_n_bytes(all.clone(), 6), texts(&["abc", "de", "fghij"]));
    assert_eq!(load_n_bytes(all.clone(), 0), texts(&["abc"]));
    assert_eq!(load_n_bytes(all.clone(), 11), all.clone());
    assert_eq!(load_n_bytes(Vec::new(), 0), Vec::<String>::new());
    // Bytes, not chars, count.
    assert_eq!(load_n_bytes(texts(&["é", "x"]), 2), texts(&["é"]));
}

#[test]
fn byte_budget_reports_when_to_stop() {
    let mut b = ByteBudget::new(4);
    assert!(b.offer("ab".to_string()));
    assert!(!b.offer("cd".to_string()));
    assert_eq!(b.finish(), Some(texts(&["ab", "cd"])));
    let mut b = ByteBudget::new(10);
    assert!(b.offer("ab".to_string()));
    assert_eq!(b.finish(), None);
}

#[test]
fn chunks_close_when_they_reach_the_size() {
    let files = vec![
        (3usize, texts(&["aa", "bb", "c", "dddd", "e"])),
        (7usize, texts(&[])),
        (8usize, texts(&["xxxxx", "y"])),
    ];
    let chunks = visit_chunks(files, 4);
    assert_eq!(
        chunks,
        vec![
            (3, 0, texts(&["aa", "bb"])),
            (3, 1, texts(&["c", "dddd"])),
            (3, 2, texts(&["e"])),
            (8, 0, texts(&["xxxxx"])),
            (8, 1, texts(&["y"])),
        ]
    );
}

#[test]
fn chunker_numbers_chunks_per_file() {
    let mut c = Chunker::new(3);
    assert_eq!(c.offer("ab".to_string()), None);
    assert_eq!(c.offer("c".to_string()), Some((0, texts(&["ab", "c"]))));
    assert_eq!(c.offer("d".to_string()), None);
    assert_eq!(c.finish_file(), Some((1, texts(&["d"]))));
    assert_eq!(c.finish_file(), None);
    assert_eq!(c.offer("xyz".to_string()), Some((0, texts(&["xyz"]))));
}
