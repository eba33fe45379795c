use stacked_pr::extract::{extract_dependencies, extract_stack_info};

#[test]
fn stack_section_two_entries() {
    let r = extract_stack_info("Stack:\n- #2 foo\n- #5 bar\n");
    assert_eq!(r, Some(vec![2, 5]));
}

#[test]
fn stack_section_single_entry_is_no_stack() {
    let r = extract_stack_info("Stack:\n- #2 foo\n");
    assert_eq!(r, None);
}

#[test]
fn stack_section_header_case_insensitive() {
    let r = extract_stack_info("intro\nsTaCk:  \n- #1\n- #2\n- #3\nafter");
    assert_eq!(r, Some(vec![1, 2, 3]));
}

#[test]
fn stack_section_stops_at_non_list_line() {
    let r = extract_stack_info("Stack:\n- #1\n- #2\nnot a list line\n- #3\n");
    assert_eq!(r, Some(vec![1, 2]));
}

#[test]
fn stack_section_blank_lines_are_skipped() {
    let r = extract_stack_info("Stack:\n\n- #1\n\n- #2\n");
    assert_eq!(r, Some(vec![1, 2]));
}

#[test]
fn stack_section_needs_terminated_header() {
    assert_eq!(extract_stack_info("Stack:"), None);
}

#[test]
fn stack_section_header_must_end_line() {
    assert_eq!(extract_stack_info("Stack: see below\n- #1\n- #2\n"), None);
}

#[test]
fn stack_section_huge_number_skipped() {
    let r = extract_stack_info("Stack:\n- #4294967296 too big\n- #1\n- #2\n");
    assert_eq!(r, Some(vec![1, 2]));
}

#[test]
fn deps_two_phrases_in_order() {
    let r = extract_dependencies("Depends on #3 and based on #7");
    assert_eq!(r, vec![3, 7]);
}

#[test]
fn deps_all_six_forms() {
    let body = "depends on #1, based on #2, stacked on #3, builds on #4, requires #5, follows #6";
    assert_eq!(extract_dependencies(body), vec![1, 2, 3, 4, 5, 6]);
}

#[test]
fn deps_singular_verb_forms() {
    let body = "build on #4, require #5, follow #6";
    assert_eq!(extract_dependencies(body), vec![4, 5, 6]);
}

#[test]
fn deps_case_insensitive() {
    let body = "DEPENDS ON #11 and StAcKeD oN #12";
    assert_eq!(extract_dependencies(body), vec![11, 12]);
}

#[test]
fn deps_grouped_by_phrase_form() {
    // All matches of one phrase form come before the next form's matches.
    let body = "based on #7 and depends on #3";
    assert_eq!(extract_dependencies(body), vec![3, 7]);
}

#[test]
fn deps_empty_body() {
    assert_eq!(extract_dependencies(""), Vec::<u32>::new());
}

#[test]
fn deps_number_too_large_is_skipped() {
    assert_eq!(
        extract_dependencies("depends on #99999999999999999999"),
        Vec::<u32>::new()
    );
}

#[test]
fn deps_need_whitespace_before_hash() {
    assert_eq!(extract_dependencies("requires#5"), Vec::<u32>::new());
    assert_eq!(extract_dependencies("requires\t #5"), vec![5]);
}

#[test]
fn deps_keyword_matches_inside_words() {
    // The phrase patterns have no word boundary: a keyword embedded in a
    // longer word still counts.
    assert_eq!(extract_dependencies("unstacked on #4"), vec![4]);
}

#[test]
fn deps_optional_s_must_be_followed_by_space() {
    assert_eq!(extract_dependencies("buildson #1"), Vec::<u32>::new());
}

#[test]
fn deps_repeated_matches_scan_left_to_right() {
    assert_eq!(extract_dependencies("depends on #1 then depends on #2"), vec![1, 2]);
}

#[test]
fn deps_maximal_digit_run() {
    assert_eq!(extract_dependencies("depends on #123abc"), vec![123]);
}

#[test]
fn deps_unicode_whitespace_separates() {
    assert_eq!(extract_dependencies("depends\u{a0}on\u{2003}#3"), vec![3]);
}

#[test]
fn deps_kelvin_sign_folds_to_k() {
    assert_eq!(extract_dependencies("stac\u{212a}ed on #4"), vec![4]);
}
