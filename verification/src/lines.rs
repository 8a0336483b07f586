//! The lines of a text.
//!
//! A line ends at a line feed, or at the end of the text. The line feed is
//! no part of the line, and neither is a carriage return that stands
//! directly before it. A text that ends in a line feed has no further, empty
//! line behind it.

use vstd::prelude::*;
use crate::text::texts;

verus! {

/// The first line of `text` ends at `k`: no line feed stands before `k`,
/// and at `k` stands a line feed or the end of the text.
pub open spec fn ends_first_line(text: Seq<char>, k: int) -> bool {
    &&& 0 <= k <= text.len()
    &&& forall|t: int| 0 <= t < k ==> text[t] != '\n'
    &&& (k == text.len() || text[k] == '\n')
}

/// How many characters stand before the first line feed of `text`, or in
/// all of it where it holds none.
pub open spec fn first_line_len(text: Seq<char>) -> nat
    decreases text.len(),
{
    if text.len() == 0 || text.first() == '\n' {
        0
    } else {
        1 + first_line_len(text.drop_first())
    }
}

/// The first line ends where [`ends_first_line`] says it does.
pub proof fn lemma_first_line_len(text: Seq<char>, k: int)
    requires
        ends_first_line(text, k),
    ensures
        first_line_len(text) == k,
    decreases k,
{
    if k > 0 {
        let rest = text.drop_first();
        assert forall|t: int| 0 <= t < k - 1 implies rest[t] != '\n' by {
            assert(rest[t] == text[t + 1]);
        }
        lemma_first_line_len(rest, k - 1);
    }
}

/// A line without the carriage return that it may end in.
pub open spec fn without_return(line: Seq<char>) -> Seq<char> {
    if line.len() > 0 && line.last() == '\r' {
        line.drop_last()
    } else {
        line
    }
}

/// The lines of `text`, in their order.
pub open spec fn lines_of(text: Seq<char>) -> Seq<Seq<char>>
    decreases text.len(),
{
    let k = first_line_len(text) as int;
    if text.len() == 0 {
        Seq::empty()
    } else if k >= text.len() {
        seq![text]
    } else {
        seq![without_return(text.take(k))] + lines_of(text.skip(k + 1))
    }
}

/// The first `limit` of `lines`, or all of them where there is no limit or
/// there are no more.
pub open spec fn leading(lines: Seq<Seq<char>>, limit: Option<usize>) -> Seq<Seq<char>> {
    match limit {
        Some(n) => if n < lines.len() {
            lines.take(n as int)
        } else {
            lines
        },
        None => lines,
    }
}

/// The carriage return that is read and not yet put into the line, if any.
pub open spec fn held_back(pending: bool) -> Seq<char> {
    if pending {
        seq!['\r']
    } else {
        Seq::empty()
    }
}

/// `String::push`, which is believed to put the character behind the text
/// and to leave the text before it as it was.
#[verifier::external_body]
fn push_char(text: &mut String, c: char)
    ensures
        final(text)@ == old(text)@.push(c),
{
    text.push(c);
}

/// Splits `text` into its lines and stops when it has `limit` of them.
pub fn split_lines(text: &str, limit: Option<usize>) -> (lines: Vec<String>)
    ensures
        texts(lines@) == leading(lines_of(text@), limit),
{
    let mut lines: Vec<String> = Vec::new();
    let nothing_asked = match limit {
        Some(n) => n == 0,
        None => false,
    };
    if nothing_asked {
        assert(texts(lines@) =~= lines_of(text@).take(0));
        return lines;
    }
    let mut current = String::new();
    let mut pending = false;
    let mut begun = false;
    let mut full = false;
    let ghost whole = text@;
    let ghost mut start: int = 0;
    let ghost mut finished: Seq<Seq<char>> = Seq::empty();
    assert(whole.skip(0) =~= whole);
    assert(finished + lines_of(whole) =~= lines_of(whole));
    for c in it: text.chars()
        invariant_except_break
            !full,
        invariant
            whole == text@,
            it.seq() == whole,
            0 <= start <= whole.len(),
            lines_of(whole) == finished + lines_of(whole.skip(start)),
            texts(lines@) == finished,
            limit matches Some(n) ==> lines@.len() <= n,
            full ==> limit == Some(lines@.len() as usize),
            !full ==> (limit matches Some(n) ==> lines@.len() < n),
            !full ==> start <= it.index(),
            !full ==> forall|t: int| start <= t < it.index() ==> whole[t] != '\n',
            !full ==> current@ + held_back(pending) == whole.subrange(start, it.index()),
            !full && !pending ==> current@.len() == 0 || current@.last() != '\r',
            !full ==> begun == (start < it.index()),
        ensures
            full || it.index() == whole.len(),
    {
        let ghost at = it.index();
        if c == '\n' {
            proof {
                let rest = whole.skip(start);
                assert(ends_first_line(rest, at - start));
                lemma_first_line_len(rest, at - start);
                assert(rest.take(at - start) =~= whole.subrange(start, at));
                assert(rest.skip(at - start + 1) =~= whole.skip(at + 1));
                if pending {
                    assert(whole.subrange(start, at).drop_last() =~= current@);
                } else {
                    assert(whole.subrange(start, at) =~= current@);
                }
                assert(without_return(whole.subrange(start, at)) == current@);
                assert(lines_of(rest) == seq![current@] + lines_of(whole.skip(at + 1)));
                assert(finished + (seq![current@] + lines_of(whole.skip(at + 1)))
                    =~= finished.push(current@) + lines_of(whole.skip(at + 1)));
                assert(texts(lines@.push(current)) =~= finished.push(current@));
                finished = finished.push(current@);
                start = at + 1;
            }
            lines.push(current);
            current = String::new();
            pending = false;
            begun = false;
            assert(current@ + held_back(pending) =~= whole.subrange(start, at + 1));
            let reached = match limit {
                Some(n) => lines.len() >= n,
                None => false,
            };
            if reached {
                full = true;
                break;
            }
        } else {
            let ghost before = current@;
            if pending {
                push_char(&mut current, '\r');
            }
            if c == '\r' {
                pending = true;
            } else {
                pending = false;
                push_char(&mut current, c);
            }
            begun = true;
            assert(current@ + held_back(pending) =~= whole.subrange(start, at + 1)) by {
                assert(whole.subrange(start, at + 1) =~= whole.subrange(start, at).push(c));
            }
        }
    }
    if !full {
        let ghost rest = whole.skip(start);
        if begun {
            proof {
                assert(ends_first_line(rest, rest.len() as int));
                lemma_first_line_len(rest, rest.len() as int);
                assert(lines_of(rest) == seq![rest]);
                assert(whole.subrange(start, whole.len() as int) =~= rest);
            }
            if pending {
                push_char(&mut current, '\r');
            }
            assert(current@ =~= rest);
            proof {
                assert(texts(lines@.push(current)) =~= finished.push(current@));
                assert(finished + seq![rest] =~= finished.push(rest));
            }
            lines.push(current);
        } else {
            assert(finished + lines_of(rest) =~= finished);
        }
        assert(texts(lines@) == lines_of(whole));
    } else {
        proof {
            assert(lines_of(whole).take(lines@.len() as int) =~= finished);
            if lines_of(whole).len() == lines@.len() {
                assert(lines_of(whole) =~= finished);
            }
        }
    }
    lines
}

} // verus!
