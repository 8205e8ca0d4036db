use rust_git::codec::{
    chars_of, decode_text, encode_commit, find_blob, parse_commit_tree, parse_tree_entry,
    push_tree_line, text_between,
};
use rust_git::path::file_name;
use rust_git::text::{push_decimal, split_lines, text_eq};

#[test]
fn lines_end_at_line_feeds() {
    assert_eq!(split_lines("a\nb\nc"), vec!["a", "b", "c"]);
    assert_eq!(split_lines("a\nb\n"), vec!["a", "b"]);
    assert_eq!(split_lines(""), Vec::<String>::new());
    assert_eq!(split_lines("\n"), vec![""]);
    assert_eq!(split_lines("\n\nx"), vec!["", "", "x"]);
}

#[test]
fn lines_agree_with_the_standard_library() {
    let texts = ["", "a", "a\n", "a\r\n", "a\r", "\r", "\r\n", "a\r\rb\r\n\r\r\nc\r", "x\n\ny\r\n\r\n"];
    for text in texts {
        let expected: Vec<String> = text.lines().map(|l| l.to_string()).collect();
        assert_eq!(split_lines(text), expected);
    }
}

#[test]
fn numbers_are_written_in_decimal() {
    let mut out = String::from("n=");
    push_decimal(&mut out, 0);
    out.push(',');
    push_decimal(&mut out, 7);
    out.push(',');
    push_decimal(&mut out, 10);
    out.push(',');
    push_decimal(&mut out, 1234567890);
    assert_eq!(out, "n=0,7,10,1234567890");
    let mut max = String::new();
    push_decimal(&mut max, usize::MAX);
    assert_eq!(max, usize::MAX.to_string());
}

#[test]
fn texts_are_compared_character_by_character() {
    assert!(text_eq("", ""));
    assert!(text_eq("grün", "grün"));
    assert!(!text_eq("grün", "grun"));
    assert!(!text_eq("a", "ab"));
}

#[test]
fn file_name_is_what_follows_the_last_slash() {
    assert_eq!(file_name("f"), "f");
    assert_eq!(file_name("a/b/c.txt"), "c.txt");
    assert_eq!(file_name("./c.txt"), "c.txt");
    assert_eq!(file_name("/c"), "c");
    assert_eq!(file_name("a/"), "");
    assert_eq!(file_name(""), "");
}

#[test]
fn tree_line_is_written_and_read() {
    let mut tree = String::new();
    push_tree_line(&mut tree, "0123", "f");
    push_tree_line(&mut tree, "abcd", "my notes");
    assert_eq!(tree, "blob 0123 f\nblob abcd my notes\n");
    assert_eq!(parse_tree_entry("blob 0123 f"), Some(("0123".to_string(), "f".to_string())));
    assert_eq!(
        parse_tree_entry("blob abcd my notes"),
        Some(("abcd".to_string(), "my notes".to_string()))
    );
    assert_eq!(parse_tree_entry("blob abcd "), Some(("abcd".to_string(), "".to_string())));
    assert_eq!(parse_tree_entry("blob abcd"), None);
    assert_eq!(parse_tree_entry("blo"), None);
    assert_eq!(parse_tree_entry("tree abcd f"), None);
    assert_eq!(parse_tree_entry(""), None);
}

#[test]
fn blob_is_found_by_the_first_line_of_its_name() {
    let tree = "blob 01 f\nnot a line\nblob 02 g\nblob 03 f\n";
    assert_eq!(find_blob(tree, "f"), Some("01".to_string()));
    assert_eq!(find_blob(tree, "g"), Some("02".to_string()));
    assert_eq!(find_blob(tree, "h"), None);
    assert_eq!(find_blob("", "f"), None);
}

#[test]
fn commit_text_is_written_and_its_tree_read() {
    let text = encode_commit("0123", "", "a message", "2015-05-15T00:00:00+00:00");
    assert_eq!(text, "tree 0123\nparent \nmessage a message\ntimestamp 2015-05-15T00:00:00+00:00");
    assert_eq!(parse_commit_tree(&text), Some("0123".to_string()));
    let text = encode_commit("0123", "4567", "two\nlines", "t");
    assert_eq!(text, "tree 0123\nparent 4567\nmessage two\nlines\ntimestamp t");
    assert_eq!(parse_commit_tree("tree 0123"), Some("0123".to_string()));
    assert_eq!(parse_commit_tree("tree "), Some("".to_string()));
    assert_eq!(parse_commit_tree("tree"), None);
    assert_eq!(parse_commit_tree("blob 0123 f\n"), None);
}

#[test]
fn bytes_are_read_as_text() {
    assert_eq!(decode_text("grün\n".as_bytes()), "grün\n");
    assert_eq!(decode_text(&[b'a', 0xff, b'b']), "a\u{fffd}b");
    assert_eq!(decode_text(&[]), "");
}

#[test]
fn characters_are_taken_by_place() {
    let v = chars_of("grün");
    assert_eq!(v, vec!['g', 'r', 'ü', 'n']);
    assert_eq!(text_between(&v, 1, 3), "rü");
    assert_eq!(text_between(&v, 2, 2), "");
    assert_eq!(text_between(&v, 0, 4), "grün");
}
