use oxipng::progress::ProgressBar;

#[test]
fn progress_bar_counts_up_to_its_total() {
    let mut pb = ProgressBar::new(2);
    pb.inc(Some("1 KiB".to_string()));
    pb.inc(None);
    pb.inc(None);
    let line = pb.render(40);
    assert!(line.ends_with(" 2/2 | saved 1 KiB \u{1b}[K"));
}

#[test]
fn progress_bar_layout() {
    let pb = ProgressBar::new(4);
    // Suffix " 0/4 | saved  " is 14 bytes; 30 - 16 leaves a bar of 14.
    let line = pb.render(30);
    assert_eq!(
        line,
        format!("\r[\u{1b}[36m>\u{1b}[0m\u{1b}[34m{}\u{1b}[0m] 0/4 | saved  \u{1b}[K", "-".repeat(13))
    );
    let mut pb = ProgressBar::new(4);
    pb.inc(Some("x".to_string()));
    pb.inc(None);
    let line = pb.render(31);
    // Suffix " 2/4 | saved x " is 15 bytes: a bar of 14, half of it filled.
    assert_eq!(
        line,
        format!(
            "\r[\u{1b}[36m{}>\u{1b}[0m\u{1b}[34m{}\u{1b}[0m] 2/4 | saved x \u{1b}[K",
            "=".repeat(7),
            "-".repeat(6)
        )
    );
}

#[test]
fn progress_bar_narrow_terminal_keeps_one_cell() {
    let pb = ProgressBar::new(0);
    let line = pb.render(5);
    assert_eq!(line, "\r[\u{1b}[36m=\u{1b}[0m\u{1b}[34m\u{1b}[0m] 0/0 | saved  \u{1b}[K");
}
