use tpt_mbd::validation::report::truncate;

#[test]
fn short_names_are_kept() {
    assert_eq!(truncate("pendulum", 40), "pendulum");
    assert_eq!(truncate("", 0), "");
    assert_eq!(truncate("abc", 3), "abc");
}

#[test]
fn long_names_are_cut_with_an_ellipsis() {
    assert_eq!(truncate("abcdef", 4), "abc\u{2026}");
    assert_eq!(truncate("abcdef", 1), "\u{2026}");
    let long = "x".repeat(50);
    let cut = truncate(&long, 40);
    assert_eq!(cut.chars().count(), 40);
    assert!(cut.ends_with('\u{2026}'));
}

#[test]
fn width_counts_bytes_and_cut_counts_characters() {
    // Four two-byte characters make eight bytes, more than six: the first
    // five characters are kept, and there are only four.
    let accented = "\u{e9}\u{e9}\u{e9}\u{e9}";
    assert_eq!(truncate(accented, 6), "\u{e9}\u{e9}\u{e9}\u{e9}\u{2026}");
    assert_eq!(truncate(accented, 8), accented);
    assert_eq!(truncate(accented, 3), "\u{e9}\u{e9}\u{2026}");
}
