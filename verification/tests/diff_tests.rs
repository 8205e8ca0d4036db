use rust_git::diff_strings;

#[test]
fn changed_line_is_reported_at_its_number() {
    assert_eq!(diff_strings("a\nb\nc", "a\nX\nc"), "Line 2: \n- b\n+ X\n");
}

#[test]
fn added_line_is_reported_at_its_number() {
    assert_eq!(diff_strings("a\nb", "a\nb\nc"), "Line 3: \n+ c\n");
}

#[test]
fn removed_line_is_reported_at_its_number() {
    assert_eq!(diff_strings("a\nb\nc", "a\nb"), "Line 3: \n- c\n");
}

#[test]
fn same_text_gives_an_empty_report() {
    assert_eq!(diff_strings("one\ntwo\nthree\n", "one\ntwo\nthree\n"), "");
    assert_eq!(diff_strings("", ""), "");
}

#[test]
fn empty_old_text_reports_every_new_line() {
    assert_eq!(diff_strings("", "x\ny"), "Line 1: \n+ x\nLine 2: \n+ y\n");
}

#[test]
fn empty_new_text_reports_every_old_line() {
    assert_eq!(diff_strings("x\ny", ""), "Line 1: \n- x\nLine 2: \n- y\n");
}

#[test]
fn inserted_line_makes_all_later_lines_differ() {
    assert_eq!(
        diff_strings("a\nb\nc", "new\na\nb\nc"),
        "Line 1: \n- a\n+ new\nLine 2: \n- b\n+ a\nLine 3: \n- c\n+ b\nLine 4: \n+ c\n"
    );
}

#[test]
fn line_ending_is_not_part_of_a_line() {
    assert_eq!(diff_strings("a\r\nb\r\n", "a\nb"), "");
    assert_eq!(diff_strings("a\n", "a"), "");
}

#[test]
fn carriage_return_at_the_end_of_the_text_stays() {
    assert_eq!(diff_strings("a\r", "a"), "Line 1: \n- a\r\n+ a\n");
}

#[test]
fn only_one_carriage_return_is_taken_from_a_line() {
    assert_eq!(diff_strings("a\r\r\n", "a\r\n"), "Line 1: \n- a\r\n+ a\n");
}

#[test]
fn empty_lines_count() {
    assert_eq!(diff_strings("\n\n", "\n"), "Line 2: \n- \n");
}

#[test]
fn line_numbers_have_as_many_digits_as_they_need() {
    let old = "1\n2\n3\n4\n5\n6\n7\n8\n9\n10\n11\n12";
    let new = "1\n2\n3\n4\n5\n6\n7\n8\n9\nten\n11\n12\n13";
    assert_eq!(diff_strings(old, new), "Line 10: \n- 10\n+ ten\nLine 13: \n+ 13\n");
}

#[test]
fn text_outside_ascii_is_kept() {
    assert_eq!(diff_strings("grün", "grau"), "Line 1: \n- grün\n+ grau\n");
}
