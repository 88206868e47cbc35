use alyze::uax29::word::block::classify;

#[test]
fn block_masks_mark_each_class() {
    // 64 bytes: "Ab1_ x'y.\r\n" followed by letters.
    let mut text = String::from("Ab1_ x'y.\r\n");
    while text.len() < 64 {
        text.push('z');
    }
    let m = classify(text.as_bytes(), 0).expect("an ASCII block");
    assert_eq!(m.letter & 0b11, 0b11);
    assert_eq!(m.upper & 0b11, 0b01);
    assert_eq!((m.number >> 2) & 1, 1);
    assert_eq!((m.word >> 3) & 1, 1);
    assert_eq!((m.word_like >> 3) & 1, 0);
    assert_eq!((m.space >> 4) & 1, 1);
    assert_eq!((m.single_quote >> 6) & 1, 1);
    assert_eq!((m.letter_mid >> 8) & 1, 1);
    assert_eq!((m.number_mid >> 8) & 1, 1);
    assert_eq!((m.cr >> 9) & 1, 1);
    assert_eq!((m.lf >> 10) & 1, 1);
    assert_eq!(m.letter >> 11, (1u64 << 53) - 1);
}

#[test]
fn blocks_the_scalar_path_must_decide() {
    let short = "abc";
    assert!(classify(short.as_bytes(), 0).is_none());
    let mut accented = String::from("é");
    while accented.len() < 64 {
        accented.push('a');
    }
    assert!(classify(accented.as_bytes(), 0).is_none());
    let mut mid_at_end = "a".repeat(63);
    mid_at_end.push('.');
    assert!(classify(mid_at_end.as_bytes(), 0).is_none());
    let long = "a".repeat(70);
    assert!(classify(long.as_bytes(), 6).is_some());
    assert!(classify(long.as_bytes(), 7).is_none());
    assert!(classify(long.as_bytes(), 100).is_none());
}
