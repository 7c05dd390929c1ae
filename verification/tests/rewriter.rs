use srtresync::drift::DriftParameters;
use srtresync::rewrite::CueRewriter;
use srtresync::rewrite::rewrite_lines;

fn lines_of(texts: &[&str]) -> Vec<String> {
    texts.iter().map(|t| t.to_string()).collect()
}

#[test]
fn constant_offset_end_to_end() {
    // One cue, corrected with the constant-offset form `+00:00:01,000`,
    // whose shared formula yields `2 * t + 1000`.
    let input = lines_of(&["1", "00:00:10,000 --> 00:00:12,000", "Hello", ""]);
    let p = DriftParameters::fixed_offset(1_000);
    let (out, count) = rewrite_lines(p, &input);
    assert_eq!(out, lines_of(&["", "0", "00:00:21,000 --> 00:00:25,000", "Hello"]));
    assert_eq!(count, 1);
}

#[test]
fn unparsable_header_side_is_dropped() {
    let input = lines_of(&["xx --> 00:00:01,000", "00:00:01,000 --> yy"]);
    let p = DriftParameters::new(0, 1, 0);
    let (out, count) = rewrite_lines(p, &input);
    assert!(out.is_empty());
    assert_eq!(count, 0);
}

#[test]
fn cues_are_renumbered_from_zero() {
    let input = lines_of(&[
        "17",
        "00:00:01,000 --> 00:00:02,000",
        "first",
        "",
        "42",
        "00:00:03,000 --> 00:00:04,000",
        "second",
        "",
    ]);
    let p = DriftParameters::new(0, 1, 500);
    let (out, count) = rewrite_lines(p, &input);
    assert_eq!(
        out,
        lines_of(&[
            "",
            "0",
            "00:00:01,500 --> 00:00:02,500",
            "first",
            "",
            "1",
            "00:00:03,500 --> 00:00:04,500",
            "second",
        ])
    );
    assert_eq!(count, 2);
}

#[test]
fn header_sides_are_trimmed() {
    let input = lines_of(&["  00:00:01,000   -->  00:00:02,000 ", "text", ""]);
    let p = DriftParameters::new(0, 1, 0);
    let (out, _) = rewrite_lines(p, &input);
    assert_eq!(out[2], "00:00:01,000 --> 00:00:02,000");
}

#[test]
fn payload_is_copied_unchanged() {
    let input = lines_of(&[
        "00:00:01,000 --> 00:00:02,000",
        "a --> b inside payload",
        "second payload line",
        "",
    ]);
    let p = DriftParameters::new(0, 1, 0);
    let (out, count) = rewrite_lines(p, &input);
    assert_eq!(
        out,
        lines_of(&[
            "",
            "0",
            "00:00:01,000 --> 00:00:02,000",
            "a --> b inside payload",
            "second payload line",
        ])
    );
    assert_eq!(count, 1);
}

#[test]
fn two_arrows_make_no_header() {
    let input = lines_of(&["00:00:01,000 --> 00:00:02,000 --> 00:00:03,000"]);
    let p = DriftParameters::new(0, 1, 0);
    let (out, count) = rewrite_lines(p, &input);
    assert!(out.is_empty());
    assert_eq!(count, 0);
}

#[test]
fn process_line_walks_the_states() {
    let p = DriftParameters::new(0, 1, 0);
    let mut rw = CueRewriter::new(p);
    // An index line while awaiting a cue is dropped.
    assert!(rw.process_line("3").is_empty());
    // A header emits a blank line, the index, and the corrected header.
    let emitted = rw.process_line("00:00:01,000 --> 00:00:02,000");
    assert_eq!(emitted, lines_of(&["", "0", "00:00:01,000 --> 00:00:02,000"]));
    // Payload is copied.
    assert_eq!(rw.process_line("words"), lines_of(&["words"]));
    // The blank line ends the payload and is not copied.
    assert!(rw.process_line("").is_empty());
    // The next cue gets the next index.
    let emitted = rw.process_line("00:00:03,000 --> 00:00:04,000");
    assert_eq!(emitted, lines_of(&["", "1", "00:00:03,000 --> 00:00:04,000"]));
}

#[test]
fn negative_corrected_times_format_with_sign() {
    let input = lines_of(&["00:00:01,000 --> 00:00:02,000", "late", ""]);
    let p = DriftParameters::new(0, 1, -1_500);
    let (out, _) = rewrite_lines(p, &input);
    assert_eq!(out[2], "-00:00:00,500 --> 00:00:00,500");
}
