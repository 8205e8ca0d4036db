//! The text of the stored objects: how a tree and a commit are written, and
//! how they are read again.
//!
//! A tree is a list of lines `blob <id> <file name>`, each ended by a line
//! feed. A commit is the four lines `tree <id>`, `parent <id or nothing>`,
//! `message <message>` and `timestamp <RFC 3339 text>`, the last one without
//! a line feed behind it.

use crate::text::{first_of, lemma_first_of, lines_of, split_lines, text_eq};
use vstd::prelude::*;
use vstd::string::*;
use vstd::utf8::*;

verus! {

/// The text that stored bytes stand for; where the bytes are not UTF-8, the
/// text with a replacement character for each part that is not.
pub uninterp spec fn utf8_lossy(bytes: Seq<u8>) -> Seq<char>;

/// Calls `String::from_utf8_lossy`. Trusted: the text is a function of the
/// bytes alone, and for valid UTF-8 it is the text that the bytes encode.
#[verifier::external_body]
fn from_utf8_lossy(bytes: &[u8]) -> (text: String)
    ensures
        text@ == utf8_lossy(bytes@),
        valid_utf8(bytes@) ==> text@ == decode_utf8(bytes@),
{
    String::from_utf8_lossy(bytes).into_owned()
}

/// The text that stored bytes are read as: the text they encode, where they
/// are UTF-8.
pub open spec fn text_of(bytes: Seq<u8>) -> Seq<char> {
    if valid_utf8(bytes) {
        decode_utf8(bytes)
    } else {
        utf8_lossy(bytes)
    }
}

/// The bytes of a text are read back as that text.
pub proof fn lemma_text_of_encoded(text: Seq<char>)
    ensures
        text_of(encode_utf8(text)) == text,
{
    encode_utf8_valid_utf8(text);
    encode_utf8_decode_utf8(text);
}

/// Reads stored bytes as text.
pub fn decode_text(bytes: &[u8]) -> (text: String)
    ensures
        text@ == text_of(bytes@),
{
    from_utf8_lossy(bytes)
}

/// What a tree says of one file: its id and its name.
pub open spec fn tree_record(id: Seq<char>, name: Seq<char>) -> Seq<char> {
    "blob "@ + id + " "@ + name
}

/// The line of a tree that records one file.
pub open spec fn tree_line(id: Seq<char>, name: Seq<char>) -> Seq<char> {
    tree_record(id, name) + "\n"@
}

/// Appends to a tree the line that records one file.
pub fn push_tree_line(out: &mut String, id: &str, name: &str)
    ensures
        final(out)@ == old(out)@ + tree_line(id@, name@),
{
    out.append("blob ");
    out.append(id);
    out.append(" ");
    out.append(name);
    out.append("\n");
    assert(out@ =~= old(out)@ + tree_line(id@, name@)) by {
        assert(tree_line(id@, name@) =~= "blob "@ + id@ + " "@ + name@ + "\n"@);
    }
}

/// The text of a commit. `parent` is empty for a commit without one.
pub open spec fn commit_text(
    tree: Seq<char>,
    parent: Seq<char>,
    message: Seq<char>,
    timestamp: Seq<char>,
) -> Seq<char> {
    "tree "@ + tree + "\nparent "@ + parent + "\nmessage "@ + message + "\ntimestamp "@
        + timestamp
}

/// Writes the text of a commit.
pub fn encode_commit(tree: &str, parent: &str, message: &str, timestamp: &str) -> (text: String)
    ensures
        text@ == commit_text(tree@, parent@, message@, timestamp@),
{
    let mut text = String::new();
    text.append("tree ");
    text.append(tree);
    text.append("\nparent ");
    text.append(parent);
    text.append("\nmessage ");
    text.append(message);
    text.append("\ntimestamp ");
    text.append(timestamp);
    assert(text@ =~= commit_text(tree@, parent@, message@, timestamp@));
    text
}

/// What stands behind `prefix` in `s`, if `s` begins with it.
pub open spec fn after_prefix(s: Seq<char>, prefix: Seq<char>) -> Option<Seq<char>> {
    if prefix.is_prefix_of(s) {
        Some(s.subrange(prefix.len() as int, s.len() as int))
    } else {
        None
    }
}

/// The tree that a commit's text names: what stands between `tree ` at its
/// start and the end of that line. `None` for a text that does not begin so.
pub open spec fn tree_of_commit(text: Seq<char>) -> Option<Seq<char>> {
    match after_prefix(text, "tree "@) {
        Some(rest) => Some(rest.subrange(0, first_of(rest, '\n'))),
        None => None,
    }
}

/// The id and the file name of a tree's line: the id ends at the first space
/// behind `blob `, and the name is all that follows. `None` for a line of
/// another shape.
pub open spec fn tree_entry(line: Seq<char>) -> Option<(Seq<char>, Seq<char>)> {
    match after_prefix(line, "blob "@) {
        Some(rest) => {
            let k = first_of(rest, ' ');
            if 0 <= k < rest.len() {
                Some((rest.subrange(0, k), rest.subrange(k + 1, rest.len() as int)))
            } else {
                None
            }
        },
        None => None,
    }
}

/// Whether a line of a tree records a file of this name.
pub open spec fn line_names(line: Seq<char>, name: Seq<char>) -> bool {
    tree_entry(line).is_some() && tree_entry(line).unwrap().1 == name
}

/// The id in the first of these lines that records a file of this name.
pub open spec fn blob_in_lines(lines: Seq<Seq<char>>, name: Seq<char>) -> Option<Seq<char>>
    decreases lines.len(),
{
    if lines.len() == 0 {
        None
    } else if line_names(lines[0], name) {
        Some(tree_entry(lines[0]).unwrap().0)
    } else {
        blob_in_lines(lines.drop_first(), name)
    }
}

/// The id under which a tree records a file of this name; where several
/// lines do, the first one counts.
pub open spec fn blob_of(manifest: Seq<char>, name: Seq<char>) -> Option<Seq<char>> {
    blob_in_lines(lines_of(manifest), name)
}

/// A name that a tree can record and give back: it holds no line feed and
/// does not end in a carriage return.
pub open spec fn is_plain_name(name: Seq<char>) -> bool {
    &&& forall|i: int| 0 <= i < name.len() ==> name[i] != '\n'
    &&& name.len() > 0 ==> name.last() != '\r'
}

/// An id that a tree or a commit can hold and give back: it holds neither a
/// space nor a line feed.
pub open spec fn is_plain_id(id: Seq<char>) -> bool {
    forall|i: int| 0 <= i < id.len() ==> id[i] != ' ' && id[i] != '\n'
}

/// What was written as a record of a tree is read as that record.
pub proof fn lemma_tree_entry_of_record(id: Seq<char>, name: Seq<char>)
    requires
        is_plain_id(id),
    ensures
        tree_entry(tree_record(id, name)) == Some((id, name)),
{
    reveal_strlit("blob ");
    reveal_strlit(" ");
    let head = "blob "@;
    let line = tree_record(id, name);
    assert(line.subrange(0, head.len() as int) =~= head);
    let rest = line.subrange(head.len() as int, line.len() as int);
    assert(rest =~= id + " "@ + name);
    lemma_first_of(rest, ' ', id.len() as int);
    assert(rest.subrange(0, id.len() as int) =~= id);
    assert(rest.subrange(id.len() as int + 1, rest.len() as int) =~= name);
}

/// A line written to a tree is one line, and it is the record.
pub proof fn lemma_lines_of_tree_line(id: Seq<char>, name: Seq<char>)
    requires
        is_plain_id(id),
        is_plain_name(name),
    ensures
        lines_of(tree_line(id, name)) == seq![tree_record(id, name)],
        tree_line(id, name).len() > 0,
        tree_line(id, name).last() == '\n',
{
    reveal_strlit("blob ");
    reveal_strlit(" ");
    reveal_strlit("\n");
    let record = tree_record(id, name);
    assert(tree_line(id, name) =~= record.push('\n'));
    crate::text::lemma_lines_of_one_line(record);
}

/// What was written as the text of a commit names the tree it was written
/// with.
pub proof fn lemma_tree_of_commit_text(
    tree: Seq<char>,
    parent: Seq<char>,
    message: Seq<char>,
    timestamp: Seq<char>,
)
    requires
        is_plain_id(tree),
    ensures
        tree_of_commit(commit_text(tree, parent, message, timestamp)) == Some(tree),
{
    reveal_strlit("tree ");
    reveal_strlit("\nparent ");
    let head = "tree "@;
    let text = commit_text(tree, parent, message, timestamp);
    assert(text.subrange(0, head.len() as int) =~= head);
    let rest = text.subrange(head.len() as int, text.len() as int);
    assert(rest =~= tree + "\nparent "@ + parent + "\nmessage "@ + message + "\ntimestamp "@
        + timestamp);
    assert(rest[tree.len() as int] == '\n');
    lemma_first_of(rest, '\n', tree.len() as int);
    assert(rest.subrange(0, tree.len() as int) =~= tree);
}

/// The parent that a commit's text names: what stands behind `parent ` in
/// its second line. It is empty for a commit without a parent. `None` for a
/// text without such a line.
pub open spec fn parent_of_commit(text: Seq<char>) -> Option<Seq<char>> {
    match after_prefix(text, "tree "@) {
        Some(rest) => match after_prefix(
            rest.subrange(first_of(rest, '\n'), rest.len() as int),
            "\nparent "@,
        ) {
            Some(more) => Some(more.subrange(0, first_of(more, '\n'))),
            None => None,
        },
        None => None,
    }
}

/// What was written as the text of a commit names the parent it was written
/// with.
pub proof fn lemma_parent_of_commit_text(
    tree: Seq<char>,
    parent: Seq<char>,
    message: Seq<char>,
    timestamp: Seq<char>,
)
    requires
        is_plain_id(tree),
        is_plain_id(parent),
    ensures
        parent_of_commit(commit_text(tree, parent, message, timestamp)) == Some(parent),
{
    reveal_strlit("tree ");
    reveal_strlit("\nparent ");
    reveal_strlit("\nmessage ");
    let head = "tree "@;
    let text = commit_text(tree, parent, message, timestamp);
    assert(text.subrange(0, head.len() as int) =~= head);
    let rest = text.subrange(head.len() as int, text.len() as int);
    assert(rest =~= tree + "\nparent "@ + parent + "\nmessage "@ + message + "\ntimestamp "@
        + timestamp);
    assert(rest[tree.len() as int] == '\n');
    lemma_first_of(rest, '\n', tree.len() as int);
    let tail = rest.subrange(tree.len() as int, rest.len() as int);
    assert(tail =~= "\nparent "@ + parent + "\nmessage "@ + message + "\ntimestamp "@
        + timestamp);
    let mark = "\nparent "@;
    assert(tail.subrange(0, mark.len() as int) =~= mark);
    let more = tail.subrange(mark.len() as int, tail.len() as int);
    assert(more =~= parent + "\nmessage "@ + message + "\ntimestamp "@ + timestamp);
    assert(more[parent.len() as int] == '\n');
    lemma_first_of(more, '\n', parent.len() as int);
    assert(more.subrange(0, parent.len() as int) =~= parent);
}

/// The first record of a name in two lists of lines put together is the
/// first one in the first list, and else the first one in the second.
pub proof fn lemma_blob_in_lines_concat(a: Seq<Seq<char>>, b: Seq<Seq<char>>, name: Seq<char>)
    ensures
        blob_in_lines(a + b, name) == match blob_in_lines(a, name) {
            Some(id) => Some(id),
            None => blob_in_lines(b, name),
        },
    decreases a.len(),
{
    if a.len() == 0 {
        assert(a + b =~= b);
    } else {
        assert((a + b)[0] == a[0]);
        assert((a + b).drop_first() =~= a.drop_first() + b);
        lemma_blob_in_lines_concat(a.drop_first(), b, name);
    }
}

/// The characters of a text, one by one.
pub fn chars_of(s: &str) -> (v: Vec<char>)
    ensures
        v@ == s@,
{
    let mut v: Vec<char> = Vec::new();
    assert(s@.subrange(0, 0) =~= v@);
    for c in it: s.chars()
        invariant
            it.seq() == s@,
            v@ == s@.subrange(0, it.index() as int),
    {
        assert(s@.subrange(0, it.index() + 1) =~= s@.subrange(0, it.index() as int).push(c));
        v.push(c);
    }
    assert(s@.subrange(0, s@.len() as int) =~= s@);
    v
}

/// The text made of the characters from place `from` up to place `to`.
pub fn text_between(v: &Vec<char>, from: usize, to: usize) -> (s: String)
    requires
        from <= to <= v@.len(),
    ensures
        s@ == v@.subrange(from as int, to as int),
{
    let mut s = String::new();
    let mut i: usize = from;
    assert(v@.subrange(from as int, from as int) =~= s@);
    while i < to
        invariant
            from <= i <= to <= v@.len(),
            s@ == v@.subrange(from as int, i as int),
        decreases to - i,
    {
        assert(v@.subrange(from as int, i + 1) =~= v@.subrange(from as int, i as int).push(
            v@[i as int],
        ));
        s.push(v[i]);
        i += 1;
    }
    s
}

/// Where `prefix` ends in `v`, if `v` begins with it.
fn prefix_end(v: &Vec<char>, prefix: &str) -> (end: Option<usize>)
    ensures
        match end {
            Some(n) => n == prefix@.len() && prefix@.is_prefix_of(v@),
            None => !prefix@.is_prefix_of(v@),
        },
{
    let mut i: usize = 0;
    for c in it: prefix.chars()
        invariant
            it.seq() == prefix@,
            i == it.index(),
            i <= v@.len(),
            forall|j: int| 0 <= j < i ==> v@[j] == prefix@[j],
    {
        if i >= v.len() {
            return None;
        }
        if v[i] != c {
            proof {
                if prefix@.is_prefix_of(v@) {
                    assert(v@.subrange(0, prefix@.len() as int)[i as int] == v@[i as int]);
                }
            }
            return None;
        }
        i += 1;
    }
    assert(prefix@ =~= v@.subrange(0, prefix@.len() as int));
    Some(i)
}

/// The place of the first `c` at or behind `from`; the length of `v` where
/// none follows.
fn find_char(v: &Vec<char>, from: usize, c: char) -> (at: usize)
    requires
        from <= v@.len(),
    ensures
        from <= at <= v@.len(),
        at - from == first_of(v@.subrange(from as int, v@.len() as int), c),
{
    let mut i: usize = from;
    while i < v.len() && v[i] != c
        invariant
            from <= i <= v@.len(),
            forall|j: int| from <= j < i ==> v@[j] != c,
        decreases v@.len() - i,
    {
        i += 1;
    }
    proof {
        lemma_first_of(v@.subrange(from as int, v@.len() as int), c, i - from);
    }
    i
}

/// Reads from a commit's text the id of its tree.
pub fn parse_commit_tree(text: &str) -> (tree: Option<String>)
    ensures
        match tree {
            Some(id) => tree_of_commit(text@) == Some(id@),
            None => tree_of_commit(text@).is_none(),
        },
{
    let v = chars_of(text);
    match prefix_end(&v, "tree ") {
        Some(from) => {
            let to = find_char(&v, from, '\n');
            let id = text_between(&v, from, to);
            proof {
                let rest = v@.subrange(from as int, v@.len() as int);
                assert(rest.subrange(0, to - from) =~= v@.subrange(from as int, to as int));
            }
            Some(id)
        },
        None => None,
    }
}

/// Reads a line of a tree: the id and the file name it records.
pub fn parse_tree_entry(line: &str) -> (entry: Option<(String, String)>)
    ensures
        match entry {
            Some((id, name)) => tree_entry(line@) == Some((id@, name@)),
            None => tree_entry(line@).is_none(),
        },
{
    let v = chars_of(line);
    match prefix_end(&v, "blob ") {
        Some(from) => {
            let space = find_char(&v, from, ' ');
            if space < v.len() {
                let id = text_between(&v, from, space);
                let name = text_between(&v, space + 1, v.len());
                proof {
                    let rest = v@.subrange(from as int, v@.len() as int);
                    assert(rest.subrange(0, space - from) =~= v@.subrange(
                        from as int,
                        space as int,
                    ));
                    assert(rest.subrange(space - from + 1, rest.len() as int) =~= v@.subrange(
                        space + 1,
                        v@.len() as int,
                    ));
                }
                Some((id, name))
            } else {
                None
            }
        },
        None => None,
    }
}

/// Looks up in a tree the id recorded for a file name.
pub fn find_blob(manifest: &str, name: &str) -> (blob: Option<String>)
    ensures
        match blob {
            Some(id) => blob_of(manifest@, name@) == Some(id@),
            None => blob_of(manifest@, name@).is_none(),
        },
{
    let lines = split_lines(manifest);
    let mut i: usize = 0;
    assert(lines.deep_view().subrange(0, lines@.len() as int) =~= lines.deep_view());
    while i < lines.len()
        invariant
            i <= lines@.len(),
            lines.deep_view() == lines_of(manifest@),
            blob_of(manifest@, name@) == blob_in_lines(
                lines.deep_view().subrange(i as int, lines@.len() as int),
                name@,
            ),
        decreases lines@.len() - i,
    {
        let ghost rest = lines.deep_view().subrange(i as int, lines@.len() as int);
        assert(rest[0] == lines@[i as int]@);
        assert(rest.drop_first() =~= lines.deep_view().subrange(i + 1, lines@.len() as int));
        match parse_tree_entry(lines[i].as_str()) {
            Some((id, found)) => {
                if text_eq(found.as_str(), name) {
                    return Some(id);
                }
            },
            None => {},
        }
        i += 1;
    }
    None
}

} // verus!
