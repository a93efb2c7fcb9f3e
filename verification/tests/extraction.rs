use region_grep::extract::{extract_regions_tag, extract_regions_within};
use region_grep::rx::LineRegex;

fn doc(lines: &[&str]) -> Vec<String> {
    lines.iter().map(|l| l.to_string()).collect()
}

fn re(pattern: &str) -> LineRegex {
    LineRegex::new(pattern).unwrap()
}

#[test]
fn tag_mode_basic_region() {
    let lines = doc(&["A", "START", "x", "y", "END", "B"]);
    let out = extract_regions_tag(&lines, &re("START"), &re("END"), false, false);
    assert_eq!(out, doc(&["START", "x", "y", "END"]));
}

#[test]
fn tag_mode_with_numbers() {
    let lines = doc(&["A", "START", "x", "y", "END", "B"]);
    let out = extract_regions_tag(&lines, &re("START"), &re("END"), true, false);
    assert_eq!(out, doc(&["1: START", "2: x", "3: y", "4: END"]));
}

#[test]
fn tag_mode_no_match_is_empty() {
    let lines = doc(&["A", "B", "C"]);
    let out = extract_regions_tag(&lines, &re("START"), &re("END"), false, false);
    assert!(out.is_empty());
}

#[test]
fn tag_mode_two_regions() {
    let lines = doc(&["START", "a", "END", "gap", "START", "b", "END"]);
    let out = extract_regions_tag(&lines, &re("START"), &re("END"), false, false);
    assert_eq!(out, doc(&["START", "a", "END", "START", "b", "END"]));
}

#[test]
fn tag_mode_region_cut_off_at_eof() {
    let lines = doc(&["A", "START", "x", "y"]);
    let out = extract_regions_tag(&lines, &re("START"), &re("END"), false, false);
    assert_eq!(out, doc(&["START", "x", "y"]));
}

#[test]
fn tag_mode_single_line_region_when_end_matches_start_line() {
    let lines = doc(&["A", "BOTH", "B", "BOTH", "C"]);
    let out = extract_regions_tag(&lines, &re("BOTH"), &re("BOTH"), false, false);
    assert_eq!(out, doc(&["BOTH", "BOTH"]));
}

#[test]
fn tag_mode_markers_annotate_opening_line() {
    let lines = doc(&["A", "START", "x", "END"]);
    let out = extract_regions_tag(&lines, &re("START"), &re("END"), false, true);
    assert_eq!(
        out,
        doc(&["START <------- XXXXXXXXXXXXX", "x", "END"])
    );
}

#[test]
fn tag_mode_end_pattern_sees_the_marker() {
    // The end pattern is tested on the line as it will be shown, so a marker
    // added to the opening line can close the region at once.
    let lines = doc(&["START", "x", "END"]);
    let out = extract_regions_tag(&lines, &re("START"), &re("XXX"), false, true);
    assert_eq!(out, doc(&["START <------- XXXXXXXXXXXXX"]));
}

#[test]
fn tag_mode_uses_real_regex_syntax() {
    let lines = doc(&["prefix", "S1T", "body", "E9D", "suffix"]);
    let out = extract_regions_tag(&lines, &re(r"S\dT"), &re(r"E\dD"), false, false);
    assert_eq!(out, doc(&["S1T", "body", "E9D"]));
}

#[test]
fn within_mode_basic_region() {
    // The anchor line is the shared boundary of the two runs and appears
    // exactly once, as the head of the forward run.
    let lines = doc(&["A", "START", "x", "y", "END", "B"]);
    let out = extract_regions_within(&lines, &re("START"), &re("END"), &re("y"), false, false);
    assert_eq!(out, doc(&["START", "x", "y", "END"]));
}

#[test]
fn within_mode_with_numbers() {
    let lines = doc(&["A", "START", "x", "y", "END", "B"]);
    let out = extract_regions_within(&lines, &re("START"), &re("END"), &re("y"), true, false);
    assert_eq!(out, doc(&["1: START", "2: x", "3: y", "4: END"]));
}

#[test]
fn within_mode_backward_stops_at_document_start() {
    let lines = doc(&["a", "b", "anchor", "END", "c"]);
    let out = extract_regions_within(&lines, &re("NOSTART"), &re("END"), &re("anchor"), false, false);
    assert_eq!(out, doc(&["a", "b", "anchor", "END"]));
}

#[test]
fn within_mode_forward_stops_at_document_end() {
    let lines = doc(&["a", "START", "anchor", "b", "c"]);
    let out = extract_regions_within(&lines, &re("START"), &re("NOEND"), &re("anchor"), false, false);
    assert_eq!(out, doc(&["START", "anchor", "b", "c"]));
}

#[test]
fn within_mode_no_anchor_is_empty() {
    let lines = doc(&["a", "START", "b", "END"]);
    let out = extract_regions_within(&lines, &re("START"), &re("END"), &re("zzz"), false, false);
    assert!(out.is_empty());
}

#[test]
fn within_mode_two_anchors_concatenate_without_deduplication() {
    let lines = doc(&["START", "p", "q", "END"]);
    let out = extract_regions_within(&lines, &re("START"), &re("END"), &re("[pq]"), false, false);
    assert_eq!(
        out,
        doc(&["START", "p", "q", "END", "START", "p", "q", "END"])
    );
}

#[test]
fn within_mode_markers_annotate_anchor_before_scans() {
    let lines = doc(&["START", "x", "anchor", "END"]);
    let out = extract_regions_within(&lines, &re("START"), &re("END"), &re("anchor"), false, true);
    assert_eq!(
        out,
        doc(&[
            "START",
            "x",
            "anchor <------- XXXXXXXXXXXXX",
            "END",
        ])
    );
}

#[test]
fn within_mode_anchor_matching_start_has_empty_backward_run() {
    let lines = doc(&["a", "BOTH", "b", "END"]);
    let out = extract_regions_within(&lines, &re("BOTH"), &re("END"), &re("BOTH"), false, false);
    assert_eq!(out, doc(&["BOTH", "b", "END"]));
}
