use commit_wrap::wrap::format_commit_message_max_72_chars;

fn fmt(s: &str) -> String {
    format_commit_message_max_72_chars(s.to_string())
}

#[test]
fn title_and_wrapped_body() {
    let out = fmt("Fix bug\n\nThis change addresses a null pointer issue that occurred when processing empty input arrays during validation steps across the pipeline.");
    assert_eq!(
        out,
        "Fix bug\n\nThis change addresses a null pointer issue that occurred when processing\nempty input arrays during validation steps across the pipeline."
    );
    for line in out.split('\n') {
        assert!(line.chars().count() <= 72);
    }
    assert!(!out.ends_with('\n'));
}

#[test]
fn empty_input_gives_empty_output() {
    assert_eq!(fmt(""), "");
}

#[test]
fn whitespace_only_gives_empty_output() {
    assert_eq!(fmt("  \n\t \n\n \n"), "");
}

#[test]
fn line_of_exactly_72_is_kept() {
    let a = "a".repeat(35);
    let b = "b".repeat(36);
    let input = format!("{} {}", a, b);
    assert_eq!(fmt(&input), input);
    let c = "c".repeat(37);
    assert_eq!(fmt(&format!("{} {}", a, c)), format!("{}\n{}", a, c));
}

#[test]
fn long_word_stands_alone() {
    let long = "x".repeat(100);
    let input = format!("see {} here", long);
    assert_eq!(fmt(&input), format!("see\n{}\nhere", long));
}

#[test]
fn spacing_and_single_newlines_are_collapsed() {
    assert_eq!(fmt("  one\ttwo \n three  "), "one two three");
}

#[test]
fn trailing_blank_paragraphs_are_dropped() {
    assert_eq!(fmt("Title\n\nBody\n\n\n\n"), "Title\n\nBody");
}

#[test]
fn empty_leading_and_inner_paragraphs_keep_their_newline() {
    assert_eq!(fmt("\n\nHello"), "\nHello");
    assert_eq!(fmt("A\n\n\n\nB"), "A\n\n\nB");
}

#[test]
fn three_newlines_split_once() {
    assert_eq!(fmt("A\n\n\nB"), "A\n\nB");
}

#[test]
fn width_counts_characters() {
    let a = "é".repeat(40);
    let b = "ü".repeat(31);
    let input = format!("{} {}", a, b);
    assert_eq!(fmt(&input), input);
}

#[test]
fn reformatting_is_stable() {
    let once = fmt("Subject line\n\nA body long enough that it has to be wrapped onto more than a single line of text by the formatter.\n\n- point one\n- point two");
    assert_eq!(fmt(&once), once);
}

#[test]
fn paragraphs_keep_count_and_order() {
    let input = "First  paragraph here\n\nSecond one\nspans lines\n\n\n\nThird";
    let out = fmt(input);
    let pieces: Vec<&str> = out.split("\n\n").filter(|p| !p.trim().is_empty()).collect();
    assert_eq!(pieces.len(), 3);
    assert_eq!(pieces[0], "First paragraph here");
    assert_eq!(pieces[1], "Second one spans lines");
    assert_eq!(pieces[2].trim(), "Third");
}

#[test]
fn no_blank_line_at_either_end_or_doubled() {
    let out = fmt("\n Title\n\n\nBody text\n\nMore\n\n\n\n");
    assert!(!out.starts_with('\n'));
    assert!(!out.ends_with('\n'));
    assert!(!out.contains("\n\n\n"));
    assert_eq!(out, "Title\n\nBody text\n\nMore");
}

#[test]
fn every_line_fits_or_is_one_word() {
    let long = "y".repeat(80);
    let input = format!("{} a b c {} d e f g h i j k l m n o p q r s t u v w x y z aa bb cc dd ee ff gg hh ii jj kk", long, long);
    for line in fmt(&input).split('\n') {
        assert!(line.chars().count() <= 72 || !line.contains(' '));
    }
}
