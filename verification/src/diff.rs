//! The paired-line diff: line `i` of the old text is held against line `i`
//! of the new text, and nothing is moved to make lines meet.

use crate::text::{decimal, lines_of, push_decimal, split_lines};
use vstd::prelude::*;
use vstd::string::*;

verus! {

/// The heading of a record: the line's number, counted from one.
pub open spec fn record_heading(i: int) -> Seq<char> {
    "Line "@ + decimal((i + 1) as nat) + ": \n"@
}

/// A line as it stands in a record, behind its sign.
pub open spec fn removed_line(line: Seq<char>) -> Seq<char> {
    "- "@ + line + "\n"@
}

/// A line as it stands in a record, behind its sign.
pub open spec fn added_line(line: Seq<char>) -> Seq<char> {
    "+ "@ + line + "\n"@
}

/// What the report says of position `i`: nothing where both texts have the
/// same line there, both lines where they differ, and the one line where
/// only one of the texts is that long.
pub open spec fn change_record(old: Seq<Seq<char>>, new: Seq<Seq<char>>, i: int) -> Seq<char> {
    if 0 <= i < old.len() && i < new.len() {
        if old[i] == new[i] {
            Seq::empty()
        } else {
            record_heading(i) + removed_line(old[i]) + added_line(new[i])
        }
    } else if 0 <= i < new.len() {
        record_heading(i) + added_line(new[i])
    } else if 0 <= i < old.len() {
        record_heading(i) + removed_line(old[i])
    } else {
        Seq::empty()
    }
}

/// The records of the first `n` positions, in order.
pub open spec fn report_prefix(old: Seq<Seq<char>>, new: Seq<Seq<char>>, n: nat) -> Seq<char>
    decreases n,
{
    if n == 0 {
        Seq::empty()
    } else {
        report_prefix(old, new, (n - 1) as nat) + change_record(old, new, n - 1)
    }
}

/// The whole report on two lists of lines.
pub open spec fn paired_diff(old: Seq<Seq<char>>, new: Seq<Seq<char>>) -> Seq<char> {
    report_prefix(
        old,
        new,
        if old.len() >= new.len() {
            old.len()
        } else {
            new.len()
        },
    )
}

/// The report on two texts.
pub open spec fn text_diff(old: Seq<char>, new: Seq<char>) -> Seq<char> {
    paired_diff(lines_of(old), lines_of(new))
}

/// Appends the heading of the record on position `i`.
fn push_heading(out: &mut String, i: usize)
    requires
        i < usize::MAX,
    ensures
        final(out)@ == old(out)@ + record_heading(i as int),
{
    out.append("Line ");
    push_decimal(out, i + 1);
    out.append(": \n");
    assert(out@ =~= old(out)@ + record_heading(i as int));
}

/// Appends a line of the old text, behind its sign.
fn push_removed(out: &mut String, line: &str)
    ensures
        final(out)@ == old(out)@ + removed_line(line@),
{
    out.append("- ");
    out.append(line);
    out.append("\n");
    assert(out@ =~= old(out)@ + removed_line(line@));
}

/// Appends a line of the new text, behind its sign.
fn push_added(out: &mut String, line: &str)
    ensures
        final(out)@ == old(out)@ + added_line(line@),
{
    out.append("+ ");
    out.append(line);
    out.append("\n");
    assert(out@ =~= old(out)@ + added_line(line@));
}

/// Reports, line number by line number, where `new` differs from `old`.
pub fn diff_strings(old: &str, new: &str) -> (report: String)
    ensures
        report@ == text_diff(old@, new@),
{
    let old_lines = split_lines(old);
    let new_lines = split_lines(new);
    let total: usize = if old_lines.len() >= new_lines.len() {
        old_lines.len()
    } else {
        new_lines.len()
    };
    let mut report = String::new();
    let mut i: usize = 0;
    while i < total
        invariant
            i <= total,
            total == old_lines@.len() || total == new_lines@.len(),
            total >= old_lines@.len(),
            total >= new_lines@.len(),
            old_lines.deep_view() == lines_of(old@),
            new_lines.deep_view() == lines_of(new@),
            report@ == report_prefix(lines_of(old@), lines_of(new@), i as nat),
        decreases total - i,
    {
        let ghost before = report@;
        let ghost ol = lines_of(old@);
        let ghost nl = lines_of(new@);
        let ghost at = i as int;
        if i < old_lines.len() && i < new_lines.len() {
            assert(ol[at] == old_lines@[at]@);
            assert(nl[at] == new_lines@[at]@);
            if old_lines[i] != new_lines[i] {
                push_heading(&mut report, i);
                push_removed(&mut report, old_lines[i].as_str());
                push_added(&mut report, new_lines[i].as_str());
                assert(report@ =~= before + change_record(ol, nl, at));
            } else {
                assert(report@ =~= before + change_record(ol, nl, at));
            }
        } else if i < new_lines.len() {
            assert(nl[at] == new_lines@[at]@);
            push_heading(&mut report, i);
            push_added(&mut report, new_lines[i].as_str());
            assert(report@ =~= before + change_record(ol, nl, at));
        } else {
            assert(ol[at] == old_lines@[at]@);
            push_heading(&mut report, i);
            push_removed(&mut report, old_lines[i].as_str());
            assert(report@ =~= before + change_record(ol, nl, at));
        }
        i += 1;
    }
    report
}

/// A list of lines held against itself gives an empty report, up to any
/// position.
pub proof fn lemma_same_lines_no_records(lines: Seq<Seq<char>>, n: nat)
    ensures
        report_prefix(lines, lines, n) == Seq::<char>::empty(),
    decreases n,
{
    if n > 0 {
        lemma_same_lines_no_records(lines, (n - 1) as nat);
        assert(change_record(lines, lines, n - 1) == Seq::<char>::empty());
        assert(Seq::<char>::empty() + Seq::<char>::empty() =~= Seq::<char>::empty());
    }
}

/// A text held against itself gives an empty report.
pub proof fn lemma_diff_of_same_text_is_empty(text: Seq<char>)
    ensures
        text_diff(text, text) == Seq::<char>::empty(),
{
    lemma_same_lines_no_records(lines_of(text), lines_of(text).len());
}

} // verus!
