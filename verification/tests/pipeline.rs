use vttmerge::cue::Cue;
use vttmerge::merge::{is_vtt_filename, merge_vtt_files, MergeError};
use vttmerge::parse::{parse_vtt, vtt_to_srt_timecode, ParseError};
use vttmerge::render::render_srt;

fn line(s: &str) -> Vec<u8> {
    s.as_bytes().to_vec()
}

fn file(lines: &[&str]) -> Vec<Vec<u8>> {
    lines.iter().map(|l| line(l)).collect()
}

fn text(out: &[u8]) -> String {
    String::from_utf8(out.to_vec()).unwrap()
}

#[test]
fn dedup_identical_files_yield_one_block() {
    let a = file(&["WEBVTT", "", "00:00:01.000 --> 00:00:02.000", "Hello"]);
    let b = file(&["WEBVTT", "", "00:00:01.000 --> 00:00:02.000", "Hello"]);
    let out = merge_vtt_files(&vec![a, b]).unwrap();
    assert_eq!(text(&out), "1\n00:00:01,000 --> 00:00:02,000\nHello\n\n");
}

#[test]
fn duplicate_cues_within_one_file_are_merged() {
    let a = file(&[
        "00:00:01.000 --> 00:00:02.000",
        "Hello",
        "",
        "00:00:01.000 --> 00:00:02.000",
        "Hello",
    ]);
    let out = merge_vtt_files(&vec![a]).unwrap();
    assert_eq!(text(&out), "1\n00:00:01,000 --> 00:00:02,000\nHello\n\n");
}

#[test]
fn timecode_conversion_replaces_dot_with_comma() {
    let tc = vtt_to_srt_timecode(&line("00:00:01.500"));
    assert_eq!(tc, line("00:00:01,500"));
    let tc = vtt_to_srt_timecode(&line("00:00:03.250"));
    assert_eq!(tc, line("00:00:03,250"));
}

#[test]
fn timing_line_converted_in_output() {
    let a = file(&["00:00:01.500 --> 00:00:03.250", "X"]);
    let out = merge_vtt_files(&vec![a]).unwrap();
    assert_eq!(text(&out), "1\n00:00:01,500 --> 00:00:03,250\nX\n\n");
}

#[test]
fn cues_sorted_by_ascending_start() {
    let a = file(&[
        "00:00:05.000 --> 00:00:06.000",
        "third",
        "",
        "00:00:01.000 --> 00:00:02.000",
        "first",
        "",
        "00:00:03.000 --> 00:00:04.000",
        "second",
    ]);
    let out = merge_vtt_files(&vec![a]).unwrap();
    assert_eq!(
        text(&out),
        "1\n00:00:01,000 --> 00:00:02,000\nfirst\n\n\
         2\n00:00:03,000 --> 00:00:04,000\nsecond\n\n\
         3\n00:00:05,000 --> 00:00:06,000\nthird\n\n"
    );
}

#[test]
fn sort_is_independent_of_file_order() {
    let a = file(&["00:00:05.000 --> 00:00:06.000", "late"]);
    let b = file(&["00:00:01.000 --> 00:00:02.000", "early"]);
    let out1 = merge_vtt_files(&vec![a.clone(), b.clone()]).unwrap();
    let out2 = merge_vtt_files(&vec![b, a]).unwrap();
    assert_eq!(out1, out2);
    assert_eq!(
        text(&out1),
        "1\n00:00:01,000 --> 00:00:02,000\nearly\n\n2\n00:00:05,000 --> 00:00:06,000\nlate\n\n"
    );
}

#[test]
fn structural_lines_never_reach_text() {
    let a = file(&["WEBVTT", "", "00:00:00.000 --> 00:00:01.000", "Hello"]);
    let cues = parse_vtt(&a).unwrap();
    assert_eq!(cues.len(), 1);
    assert_eq!(cues[0].text, vec![line("Hello")]);
    let out = merge_vtt_files(&vec![a]).unwrap();
    assert!(!text(&out).contains("WEBVTT"));
}

#[test]
fn note_and_timestamp_map_lines_skipped() {
    let a = file(&[
        "WEBVTT",
        "X-TIMESTAMP-MAP=LOCAL:00:00:00.000,MPEGTS:0",
        "NOTE a comment",
        "00:00:00.000 --> 00:00:01.000",
        "Visible",
    ]);
    let cues = parse_vtt(&a).unwrap();
    assert_eq!(cues.len(), 1);
    assert_eq!(cues[0].text, vec![line("Visible")]);
}

#[test]
fn multi_line_text_kept_in_order() {
    let a = file(&["00:00:01.000 --> 00:00:02.000", "Line A", "Line B"]);
    let out = merge_vtt_files(&vec![a]).unwrap();
    assert_eq!(text(&out), "1\n00:00:01,000 --> 00:00:02,000\nLine A\nLine B\n\n");
}

#[test]
fn empty_input_list_renders_nothing() {
    let out = merge_vtt_files(&vec![]).unwrap();
    assert_eq!(out, Vec::<u8>::new());
}

#[test]
fn vtt_extension_recognized() {
    assert!(is_vtt_filename(&line("a.vtt")));
    assert!(is_vtt_filename(&line("track.one.vtt")));
    assert!(!is_vtt_filename(&line("notes.txt")));
    assert!(!is_vtt_filename(&line(".vtt")));
    assert!(!is_vtt_filename(&line("a.VTT")));
    assert!(!is_vtt_filename(&line("vtt")));
}

#[test]
fn malformed_timing_line_reported() {
    let a = file(&["00:00:01.000-->00:00:02.000", "X"]);
    let r = parse_vtt(&a);
    assert_eq!(r, Err(ParseError::MalformedTimingLine { line: 0 }));
}

#[test]
fn malformed_timing_line_names_file_and_line() {
    let good = file(&["00:00:01.000 --> 00:00:02.000", "ok"]);
    let bad = file(&["ok text is fine", "a-->b"]);
    let r = merge_vtt_files(&vec![good, bad]);
    assert_eq!(r, Err(MergeError::MalformedTimingLine { file: 1, line: 1 }));
}

#[test]
fn trailing_cue_without_text_dropped() {
    let a = file(&["00:00:01.000 --> 00:00:02.000", "kept", "", "00:00:03.000 --> 00:00:04.000"]);
    let out = merge_vtt_files(&vec![a]).unwrap();
    assert_eq!(text(&out), "1\n00:00:01,000 --> 00:00:02,000\nkept\n\n");
}

#[test]
fn cue_without_text_between_timings_dropped() {
    let a = file(&[
        "00:00:01.000 --> 00:00:02.000",
        "",
        "00:00:03.000 --> 00:00:04.000",
        "only",
    ]);
    let out = merge_vtt_files(&vec![a]).unwrap();
    assert_eq!(text(&out), "1\n00:00:03,000 --> 00:00:04,000\nonly\n\n");
}

#[test]
fn timing_fields_are_trimmed() {
    let a = file(&["  00:00:01.000  -->  00:00:02.000  ", "X"]);
    // the separator must be the exact ` --> ` token: two spaces around the
    // arrow leave it intact, with the extra space trimmed from each field
    let cues = parse_vtt(&a).unwrap();
    assert_eq!(cues.len(), 1);
    assert_eq!(cues[0].start, line("00:00:01,000"));
    assert_eq!(cues[0].end, line("00:00:02,000"));
}

#[test]
fn second_separator_bounds_end_field() {
    let a = file(&["a --> b --> c", "X"]);
    let cues = parse_vtt(&a).unwrap();
    assert_eq!(cues.len(), 1);
    assert_eq!(cues[0].start, line("a"));
    assert_eq!(cues[0].end, line("b"));
}

#[test]
fn indexes_count_past_nine() {
    let mut cues: Vec<Cue> = Vec::new();
    for k in 0..12u32 {
        cues.push(Cue {
            start: line(&format!("00:00:{:02},000", k)),
            end: line(&format!("00:00:{:02},500", k)),
            text: vec![line("t")],
        });
    }
    let out = render_srt(&cues);
    let s = text(&out);
    assert!(s.starts_with("1\n00:00:00,000 --> 00:00:00,500\nt\n\n"));
    assert!(s.contains("\n10\n00:00:09,000 --> 00:00:09,500\nt\n\n"));
    assert!(s.ends_with("12\n00:00:11,000 --> 00:00:11,500\nt\n\n"));
}

#[test]
fn whitespace_only_lines_are_not_text() {
    let a = file(&["00:00:01.000 --> 00:00:02.000", "   ", "\t", "real"]);
    let cues = parse_vtt(&a).unwrap();
    assert_eq!(cues.len(), 1);
    assert_eq!(cues[0].text, vec![line("real")]);
}
