//! Text primitives shared by the rest of the crate: equality of string
//! slices, splitting into lines, and decimal line numbers.

use vstd::prelude::*;
use vstd::utf8::*;

verus! {

/// `String::push` appends one character to the end of the string.
pub assume_specification[ String::push ](s: &mut String, ch: char)
    ensures
        final(s)@ == old(s)@.push(ch),
;

/// Two texts with the same UTF-8 encoding are the same text.
pub proof fn lemma_encoding_is_injective(a: Seq<char>, b: Seq<char>)
    requires
        encode_utf8(a) == encode_utf8(b),
    ensures
        a == b,
{
    encode_utf8_decode_utf8(a);
    encode_utf8_decode_utf8(b);
}

/// Whether two string slices hold the same characters.
pub fn text_eq(a: &str, b: &str) -> (same: bool)
    ensures
        same == (a@ == b@),
{
    let x = a.as_bytes();
    let y = b.as_bytes();
    if x.len() != y.len() {
        return false;
    }
    let mut i: usize = 0;
    while i < x.len()
        invariant
            i <= x@.len(),
            x@.len() == y@.len(),
            x@ == encode_utf8(a@),
            y@ == encode_utf8(b@),
            forall|j: int| 0 <= j < i ==> x@[j] == y@[j],
        decreases x@.len() - i,
    {
        if x[i] != y[i] {
            return false;
        }
        i += 1;
    }
    proof {
        assert(x@ =~= y@);
        lemma_encoding_is_injective(a@, b@);
    }
    true
}

/// The number of characters of `s` that stand before its first `c`; the
/// length of `s` where it holds none.
pub open spec fn first_of(s: Seq<char>, c: char) -> int
    decreases s.len(),
{
    if s.len() == 0 || s[0] == c {
        0
    } else {
        1 + first_of(s.drop_first(), c)
    }
}

/// The number of characters of `s` that stand before its first line feed;
/// the length of `s` where it holds none.
pub open spec fn first_newline(s: Seq<char>) -> int {
    first_of(s, '\n')
}

/// A line without the carriage return that ended it, if one did.
pub open spec fn strip_cr(line: Seq<char>) -> Seq<char> {
    if line.len() > 0 && line.last() == '\r' {
        line.drop_last()
    } else {
        line
    }
}

/// The lines of a text. A line ends at a line feed, or at the end of the
/// text; the line feed, and a carriage return directly before it, are not
/// part of the line. A text that ends in a line feed has no empty last line,
/// and a carriage return at the very end of the text stays.
pub open spec fn lines_of(s: Seq<char>) -> Seq<Seq<char>>
    decreases s.len(),
{
    let k = first_newline(s);
    if s.len() == 0 {
        Seq::empty()
    } else if k < 0 || k >= s.len() {
        seq![s]
    } else {
        seq![strip_cr(s.subrange(0, k))] + lines_of(s.subrange(k + 1, s.len() as int))
    }
}

/// `first_of` is the position of the first `c`.
pub proof fn lemma_first_of(s: Seq<char>, c: char, k: int)
    requires
        0 <= k <= s.len(),
        forall|j: int| 0 <= j < k ==> s[j] != c,
        k == s.len() || s[k] == c,
    ensures
        first_of(s, c) == k,
    decreases k,
{
    if k > 0 {
        lemma_first_of(s.drop_first(), c, k - 1);
    }
}

/// `first_of` lies within the text, no `c` stands before it, and a `c`
/// stands at it unless it is the end.
pub proof fn lemma_first_of_bounds(s: Seq<char>, c: char)
    ensures
        0 <= first_of(s, c) <= s.len(),
        forall|j: int| 0 <= j < first_of(s, c) ==> s[j] != c,
        first_of(s, c) < s.len() ==> s[first_of(s, c)] == c,
    decreases s.len(),
{
    if s.len() > 0 && s[0] != c {
        let t = s.drop_first();
        lemma_first_of_bounds(t, c);
        assert forall|j: int| 0 <= j < first_of(s, c) implies s[j] != c by {
            if j > 0 {
                assert(s[j] == t[j - 1]);
            }
        }
        if first_of(s, c) < s.len() {
            assert(s[first_of(s, c)] == t[first_of(t, c)]);
        }
    }
}

/// `first_newline` is the position of the first line feed.
pub proof fn lemma_first_newline(s: Seq<char>, k: int)
    requires
        0 <= k <= s.len(),
        forall|j: int| 0 <= j < k ==> s[j] != '\n',
        k == s.len() || s[k] == '\n',
    ensures
        first_newline(s) == k,
{
    lemma_first_of(s, '\n', k);
}

/// A text without a line feed, with a line feed behind it, is one line.
pub proof fn lemma_lines_of_one_line(line: Seq<char>)
    requires
        forall|i: int| 0 <= i < line.len() ==> line[i] != '\n',
    ensures
        lines_of(line.push('\n')) == seq![strip_cr(line)],
{
    let s = line.push('\n');
    let k = line.len() as int;
    lemma_first_of(s, '\n', k);
    assert(s.subrange(0, k) =~= line);
    let rest = s.subrange(k + 1, s.len() as int);
    assert(rest.len() == 0);
    assert(lines_of(rest) =~= Seq::<Seq<char>>::empty());
    assert(seq![strip_cr(line)] + Seq::<Seq<char>>::empty() =~= seq![strip_cr(line)]);
}

/// The lines of two texts put together are the lines of the first and then
/// those of the second, where the first text ends with a line feed.
pub proof fn lemma_lines_of_concat(a: Seq<char>, b: Seq<char>)
    requires
        a.len() == 0 || a.last() == '\n',
    ensures
        lines_of(a + b) == lines_of(a) + lines_of(b),
    decreases a.len(),
{
    if a.len() == 0 {
        assert(a + b =~= b);
        assert(lines_of(a) + lines_of(b) =~= lines_of(b));
    } else {
        lemma_first_of_bounds(a, '\n');
        let k = first_newline(a);
        assert(k < a.len());
        lemma_first_of(a + b, '\n', k);
        let rest = a.subrange(k + 1, a.len() as int);
        assert((a + b).subrange(0, k) =~= a.subrange(0, k));
        assert((a + b).subrange(k + 1, (a + b).len() as int) =~= rest + b);
        if rest.len() > 0 {
            assert(rest.last() == a.last());
        }
        lemma_lines_of_concat(rest, b);
        assert(seq![strip_cr(a.subrange(0, k))] + (lines_of(rest) + lines_of(b)) =~= (
        seq![strip_cr(a.subrange(0, k))] + lines_of(rest)) + lines_of(b));
    }
}

/// Splits a text into its lines.
pub fn split_lines(text: &str) -> (lines: Vec<String>)
    ensures
        lines.deep_view() == lines_of(text@),
{
    let mut lines: Vec<String> = Vec::new();
    let mut cur = String::new();
    // A carriage return that was read but not yet copied: it is dropped when
    // a line feed follows it.
    let mut pending_cr = false;
    let ghost mut start: int = 0;
    proof {
        assert(text@.subrange(0, text@.len() as int) =~= text@);
        assert(text@.subrange(0, 0) =~= cur@ + Seq::<char>::empty());
        assert(lines.deep_view() =~= Seq::<Seq<char>>::empty());
    }
    for c in it: text.chars()
        invariant
            it.seq() == text@,
            0 <= start <= it.index() <= text@.len(),
            text@.subrange(start, it.index() as int) == cur@ + (if pending_cr {
                seq!['\r']
            } else {
                Seq::<char>::empty()
            }),
            !pending_cr ==> cur@.len() == 0 || cur@.last() != '\r',
            forall|j: int| start <= j < it.index() ==> text@[j] != '\n',
            lines_of(text@) == lines.deep_view() + lines_of(
                text@.subrange(start, text@.len() as int),
            ),
    {
        let ghost i = it.index() as int;
        let ghost rest = text@.subrange(start, text@.len() as int);
        let ghost seen = text@.subrange(start, i);
        assert(text@.subrange(start, i + 1) =~= seen.push(c));
        if c == '\n' {
            proof {
                lemma_first_newline(rest, i - start);
                assert(rest.subrange(0, i - start) =~= seen);
                assert(rest.subrange(i - start + 1, rest.len() as int) =~= text@.subrange(
                    i + 1,
                    text@.len() as int,
                ));
                if pending_cr {
                    assert(seen.drop_last() =~= cur@);
                }
                assert(strip_cr(seen) == cur@);
                assert(lines.deep_view().push(cur@) + lines_of(
                    text@.subrange(i + 1, text@.len() as int),
                ) =~= lines.deep_view() + lines_of(rest));
            }
            let ghost before = lines.deep_view();
            lines.push(cur);
            assert(lines.deep_view() =~= before.push(cur@));
            cur = String::new();
            pending_cr = false;
            proof {
                start = i + 1;
                assert(text@.subrange(start, i + 1) =~= cur@ + Seq::<char>::empty());
            }
        } else {
            if pending_cr {
                cur.push('\r');
            }
            if c == '\r' {
                pending_cr = true;
                assert(text@.subrange(start, i + 1) =~= cur@ + seq!['\r']);
            } else {
                pending_cr = false;
                cur.push(c);
                assert(text@.subrange(start, i + 1) =~= cur@ + Seq::<char>::empty());
            }
        }
    }
    if pending_cr {
        cur.push('\r');
    }
    let ghost rest = text@.subrange(start, text@.len() as int);
    assert(rest =~= cur@);
    if !cur.as_str().is_empty() {
        proof {
            lemma_first_newline(rest, rest.len() as int);
            assert(lines.deep_view().push(cur@) =~= lines.deep_view() + lines_of(rest));
        }
        let ghost before = lines.deep_view();
        lines.push(cur);
        assert(lines.deep_view() =~= before.push(cur@));
    } else {
        assert(lines.deep_view() + lines_of(rest) =~= lines.deep_view());
    }
    lines
}

/// The character that stands for a digit below ten.
pub open spec fn digit_char(d: int) -> char {
    ('0' as int + d) as char
}

/// A natural number in decimal, without leading zeros.
pub open spec fn decimal(n: nat) -> Seq<char>
    decreases n,
{
    if n < 10 {
        seq![digit_char(n as int)]
    } else {
        decimal(n / 10).push(digit_char((n % 10) as int))
    }
}

/// Appends the decimal form of `n` to `out`.
pub fn push_decimal(out: &mut String, n: usize)
    ensures
        final(out)@ == old(out)@ + decimal(n as nat),
    decreases n,
{
    if n >= 10 {
        push_decimal(out, n / 10);
    }
    let d: u8 = (n % 10) as u8;
    out.push((48u8 + d) as char);
    proof {
        if n < 10 {
            assert(old(out)@.push(digit_char(n as int)) =~= old(out)@ + decimal(n as nat));
        } else {
            assert((old(out)@ + decimal((n / 10) as nat)).push(digit_char((n % 10) as int))
                =~= old(out)@ + decimal(n as nat));
        }
    }
}

} // verus!
