//! Selecting the lines that hold a phrase and marking the phrase in them.
//!
//! Text arrives as a run of bytes and is taken line by line. A phrase selects the
//! lines in which it occurs; in a selected line each occurrence, found from left to
//! right without overlap, is replaced by the phrase's mark. The empty phrase occurs
//! in every line and marks nothing. Every line that is shown ends with a break, also
//! a last line that arrived without one.

use vstd::prelude::*;
use vstd::slice::slice_subrange;
use vstd::utf8::{
    is_char_boundary, is_continuation_byte, length_of_first_scalar, pop_first_scalar,
    valid_first_scalar, valid_utf8, valid_utf8_concat,
};
use crate::lines::{
    at_line_boundary, lemma_lines_concat, lemma_lines_end_at_breaks, lemma_lines_flatten,
    lemma_lines_of_front, lemma_lines_shape, lemma_lines_single, line_count, lines, unbroken,
    NEWLINE,
};
use crate::text::{
    lemma_boundary_at, lemma_break_is_text, lemma_text_after_text, lemma_text_around_break,
    lemma_text_cut,
};

verus! {

/// True when `phrase` stands in `line` at offset `i`.
pub open spec fn occurs_at<T>(line: Seq<T>, phrase: Seq<T>, i: int) -> bool {
    0 <= i && i + phrase.len() <= line.len() && line.subrange(i, i + phrase.len()) == phrase
}

/// True when `phrase` stands somewhere in `line`.
pub open spec fn contains<T>(line: Seq<T>, phrase: Seq<T>) -> bool {
    exists|i: int| occurs_at(line, phrase, i)
}

/// The part of `line` from offset `from` on, with `mark` in place of each occurrence
/// of the non-empty `phrase`, the occurrences taken from left to right.
pub open spec fn marked_from(line: Seq<u8>, phrase: Seq<u8>, mark: Seq<u8>, from: int) -> Seq<u8>
    decreases line.len() - from,
{
    if phrase.len() == 0 || from < 0 || from >= line.len() {
        Seq::empty()
    } else if occurs_at(line, phrase, from) {
        mark + marked_from(line, phrase, mark, from + phrase.len())
    } else {
        seq![line[from]] + marked_from(line, phrase, mark, from + 1)
    }
}

/// `line` with `mark` in place of each occurrence of `phrase`; with the empty
/// phrase, `line` as it is.
pub open spec fn marked(line: Seq<u8>, phrase: Seq<u8>, mark: Seq<u8>) -> Seq<u8> {
    if phrase.len() == 0 {
        line
    } else {
        marked_from(line, phrase, mark, 0)
    }
}

/// What is shown for one line, given without its break: the marked line and a break
/// when the phrase occurs in it, nothing otherwise.
pub open spec fn shown(line: Seq<u8>, phrase: Seq<u8>, mark: Seq<u8>) -> Seq<u8> {
    if contains(line, phrase) {
        marked(line, phrase, mark).push(NEWLINE)
    } else {
        Seq::empty()
    }
}

/// A line without its closing break.
pub open spec fn unterminated(line: Seq<u8>) -> Seq<u8> {
    if line.len() > 0 && line.last() == NEWLINE {
        line.drop_last()
    } else {
        line
    }
}

/// What is shown for a whole run of text: for each of its lines in order, what is
/// shown for that line.
pub open spec fn sieved(text: Seq<u8>, phrase: Seq<u8>, mark: Seq<u8>) -> Seq<u8> {
    lines(text).map_values(|line: Seq<u8>| shown(unterminated(line), phrase, mark)).flatten()
}

/// What is shown for text cut at a line boundary is what is shown for its first part
/// followed by what is shown for its second part.
pub proof fn lemma_sieved_concat(a: Seq<u8>, b: Seq<u8>, phrase: Seq<u8>, mark: Seq<u8>)
    requires
        a.len() == 0 || a.last() == NEWLINE,
    ensures
        sieved(a + b, phrase, mark) == sieved(a, phrase, mark) + sieved(b, phrase, mark),
{
    let show = |line: Seq<u8>| shown(unterminated(line), phrase, mark);
    lemma_lines_concat(a, b);
    assert(lines(a + b).map_values(show) =~= lines(a).map_values(show) + lines(b).map_values(
        show,
    ));
    vstd::seq_lib::lemma_flatten_concat(lines(a).map_values(show), lines(b).map_values(show));
}

/// What is shown for text that is a single line is what is shown for that line.
pub proof fn lemma_sieved_single(line: Seq<u8>, phrase: Seq<u8>, mark: Seq<u8>)
    requires
        line.len() > 0,
        unbroken(line),
    ensures
        sieved(line, phrase, mark) == shown(unterminated(line), phrase, mark),
{
    let show = |line: Seq<u8>| shown(unterminated(line), phrase, mark);
    lemma_lines_single(line);
    assert(lines(line).map_values(show) =~= seq![show(line)]);
    seq![show(line)].lemma_flatten_one_element();
}

/// Nothing is shown for no text.
pub proof fn lemma_sieved_empty(phrase: Seq<u8>, mark: Seq<u8>)
    ensures
        sieved(Seq::empty(), phrase, mark) == Seq::<u8>::empty(),
{
}

/// Marking a phrase with itself gives back the rest of the line.
proof fn lemma_marked_from_with_phrase(line: Seq<u8>, phrase: Seq<u8>, from: int)
    requires
        phrase.len() > 0,
        0 <= from <= line.len(),
    ensures
        marked_from(line, phrase, phrase, from) == line.skip(from),
    decreases line.len() - from,
{
    if from < line.len() {
        if occurs_at(line, phrase, from) {
            lemma_marked_from_with_phrase(line, phrase, from + phrase.len());
        } else {
            lemma_marked_from_with_phrase(line, phrase, from + 1);
        }
    }
}

/// Marking a phrase with itself changes nothing: a marked line differs from the line
/// it was made from only in the marks that stand for the phrase.
pub proof fn lemma_marked_with_phrase(line: Seq<u8>, phrase: Seq<u8>)
    ensures
        marked(line, phrase, phrase) == line,
{
    if phrase.len() > 0 {
        lemma_marked_from_with_phrase(line, phrase, 0);
    }
}

/// The empty phrase occurs in every line.
pub proof fn lemma_empty_phrase_occurs(line: Seq<u8>)
    ensures
        contains(line, Seq::empty()),
{
    assert(line.subrange(0, 0) =~= Seq::<u8>::empty());
    assert(occurs_at(line, Seq::empty(), 0));
}

/// A line appended to text that ends at a line boundary adds what is shown for that
/// line and leaves what was shown before as it is: the marked line where the phrase
/// occurs in it, nothing otherwise. This holds of a line that comes with its break
/// and of one that comes without.
pub proof fn lemma_sieved_append_line(
    text: Seq<u8>,
    line: Seq<u8>,
    phrase: Seq<u8>,
    mark: Seq<u8>,
)
    requires
        text.len() == 0 || text.last() == NEWLINE,
        forall|i: int| 0 <= i < line.len() ==> line[i] != NEWLINE,
    ensures
        sieved(text + line.push(NEWLINE), phrase, mark) == sieved(text, phrase, mark) + shown(
            line,
            phrase,
            mark,
        ),
        line.len() > 0 ==> sieved(text + line, phrase, mark) == sieved(text, phrase, mark)
            + shown(line, phrase, mark),
{
    let closed = line.push(NEWLINE);
    assert(unterminated(closed) =~= line);
    lemma_sieved_concat(text, closed, phrase, mark);
    lemma_sieved_single(closed, phrase, mark);
    if line.len() > 0 {
        lemma_sieved_concat(text, line, phrase, mark);
        lemma_sieved_single(line, phrase, mark);
    }
}

/// Where the phrase stands at none of the next `k` offsets, the marked line takes
/// the bytes at these offsets over as they are.
proof fn lemma_marked_copies(line: Seq<u8>, phrase: Seq<u8>, mark: Seq<u8>, from: int, k: int)
    requires
        phrase.len() > 0,
        0 <= from,
        0 <= k,
        from + k <= line.len(),
        forall|j: int| from <= j < from + k ==> !occurs_at(line, phrase, j),
    ensures
        marked_from(line, phrase, mark, from) == line.subrange(from, from + k) + marked_from(
            line,
            phrase,
            mark,
            from + k,
        ),
    decreases k,
{
    if k > 0 {
        lemma_marked_copies(line, phrase, mark, from + 1, k - 1);
        assert(line.subrange(from, from + k) =~= seq![line[from]] + line.subrange(
            from + 1,
            from + k,
        ));
    } else {
        assert(line.subrange(from, from) =~= Seq::<u8>::empty());
    }
}

/// A phrase that is text stands only where a character begins.
proof fn lemma_phrase_opens_character(line: Seq<u8>, phrase: Seq<u8>, at: int)
    requires
        valid_utf8(phrase),
        phrase.len() > 0,
        occurs_at(line, phrase, at),
    ensures
        !is_continuation_byte(line[at]),
{
    assert(valid_first_scalar(phrase));
    assert(line[at] == line.subrange(at, at + phrase.len())[0]);
}

/// From a character boundary on, a line of text marked with text for a phrase of
/// text is text.
proof fn lemma_marked_from_is_text(line: Seq<u8>, phrase: Seq<u8>, mark: Seq<u8>, from: int)
    requires
        valid_utf8(line),
        valid_utf8(phrase),
        valid_utf8(mark),
        phrase.len() > 0,
        0 <= from <= line.len(),
        is_char_boundary(line, from),
    ensures
        valid_utf8(marked_from(line, phrase, mark, from)),
    decreases line.len() - from,
{
    if from < line.len() {
        lemma_text_cut(line, from);
        let rest = line.skip(from);
        if occurs_at(line, phrase, from) {
            let next = from + phrase.len();
            let after = line.skip(next);
            assert(rest =~= phrase + after);
            lemma_text_after_text(phrase, after);
            if next < line.len() {
                assert(valid_first_scalar(after));
                assert(after[0] == line[next]);
            }
            lemma_boundary_at(line, next);
            lemma_marked_from_is_text(line, phrase, mark, next);
            valid_utf8_concat(mark, marked_from(line, phrase, mark, next));
        } else {
            let k = length_of_first_scalar(rest);
            let next = from + k;
            let after = line.skip(next);
            assert(valid_first_scalar(rest));
            assert(1 <= k <= rest.len());
            assert(valid_utf8(pop_first_scalar(rest)));
            assert(pop_first_scalar(rest) =~= after);
            assert forall|j: int| from <= j < next implies !occurs_at(line, phrase, j) by {
                if j > from && occurs_at(line, phrase, j) {
                    lemma_phrase_opens_character(line, phrase, j);
                    assert(line[j] == rest[j - from]);
                }
            }
            lemma_marked_copies(line, phrase, mark, from, k);
            if next < line.len() {
                assert(valid_first_scalar(after));
                assert(after[0] == line[next]);
                assert(rest[k] == line[next]);
            }
            lemma_boundary_at(line, next);
            lemma_boundary_at(rest, k);
            lemma_text_cut(rest, k);
            assert(rest.take(k) =~= line.subrange(from, next));
            lemma_marked_from_is_text(line, phrase, mark, next);
            valid_utf8_concat(line.subrange(from, next), marked_from(line, phrase, mark, next));
        }
    }
}

/// What is shown for a line of text, with text for the phrase and for its mark, is
/// text.
pub proof fn lemma_shown_is_text(line: Seq<u8>, phrase: Seq<u8>, mark: Seq<u8>)
    requires
        valid_utf8(line),
        valid_utf8(phrase),
        valid_utf8(mark),
    ensures
        valid_utf8(shown(line, phrase, mark)),
{
    if contains(line, phrase) {
        if phrase.len() > 0 {
            lemma_marked_from_is_text(line, phrase, mark, 0);
        }
        lemma_break_is_text();
        valid_utf8_concat(marked(line, phrase, mark), seq![NEWLINE]);
        assert(marked(line, phrase, mark).push(NEWLINE) =~= marked(line, phrase, mark)
            + seq![NEWLINE]);
    }
}

/// What is shown for text, with text for the phrase and for its mark, is text.
pub proof fn lemma_sieved_is_text(text: Seq<u8>, phrase: Seq<u8>, mark: Seq<u8>)
    requires
        valid_utf8(text),
        valid_utf8(phrase),
        valid_utf8(mark),
    ensures
        valid_utf8(sieved(text, phrase, mark)),
    decreases line_count(text),
{
    let all = lines(text);
    let m = all.len() as int;
    lemma_lines_shape(text);
    if m > 0 {
        let front = all.take(m - 1).flatten();
        let last = all.last();
        lemma_lines_flatten(text);
        lemma_lines_end_at_breaks(text);
        lemma_lines_of_front(text, m - 1);
        assert(all =~= all.take(m - 1).push(last));
        all.take(m - 1).lemma_flatten_push(last);
        assert(text == front + last);
        if m > 1 {
            let closed = all[m - 2];
            assert(all.take(m - 1) =~= all.take(m - 2).push(closed));
            all.take(m - 2).lemma_flatten_push(closed);
            assert(front.last() == NEWLINE);
            let at = front.len() - 1;
            assert(text[at] == front[at]);
            lemma_text_around_break(text, at);
            assert(text.take(at + 1) =~= front);
            assert(text.skip(at + 1) =~= last);
        } else {
            assert(all.take(0) =~= Seq::<Seq<u8>>::empty());
            assert(front =~= Seq::<u8>::empty());
            assert(last =~= text);
        }
        lemma_sieved_concat(front, last, phrase, mark);
        lemma_sieved_single(last, phrase, mark);
        lemma_sieved_is_text(front, phrase, mark);
        if last.last() == NEWLINE {
            lemma_text_around_break(last, last.len() - 1);
        }
        lemma_shown_is_text(unterminated(last), phrase, mark);
        valid_utf8_concat(
            sieved(front, phrase, mark),
            shown(unterminated(last), phrase, mark),
        );
    } else {
        assert(text =~= Seq::<u8>::empty());
        lemma_sieved_empty(phrase, mark);
    }
}

/// Tells whether `phrase` stands in `line` at offset `at`.
pub fn phrase_at(line: &[u8], phrase: &[u8], at: usize) -> (found: bool)
    ensures
        found == occurs_at(line@, phrase@, at as int),
{
    if phrase.len() > line.len() || at > line.len() - phrase.len() {
        return false;
    }
    let mut k: usize = 0;
    while k < phrase.len()
        invariant
            k <= phrase@.len(),
            at + phrase@.len() <= line@.len() <= usize::MAX,
            forall|j: int| 0 <= j < k ==> line@[at + j] == phrase@[j],
        decreases phrase@.len() - k,
    {
        if line[at + k] != phrase[k] {
            return false;
        }
        k = k + 1;
    }
    assert(line@.subrange(at as int, at + phrase@.len()) =~= phrase@);
    true
}

/// Tells whether `phrase` stands somewhere in `line`.
pub fn holds_phrase(line: &[u8], phrase: &[u8]) -> (found: bool)
    ensures
        found == contains(line@, phrase@),
{
    if phrase.len() > line.len() {
        return false;
    }
    let last = line.len() - phrase.len();
    let mut at: usize = 0;
    loop
        invariant
            last == line@.len() - phrase@.len(),
            at <= last,
            forall|i: int| 0 <= i < at ==> !occurs_at(line@, phrase@, i),
        decreases last - at,
    {
        if phrase_at(line, phrase, at) {
            return true;
        }
        if at == last {
            return false;
        }
        at = at + 1;
    }
}

/// Appends `bytes` to `out`.
fn append(out: &mut Vec<u8>, bytes: &[u8])
    ensures
        final(out)@ == old(out)@ + bytes@,
{
    let mut k: usize = 0;
    while k < bytes.len()
        invariant
            k <= bytes@.len(),
            out@ == old(out)@ + bytes@.take(k as int),
        decreases bytes@.len() - k,
    {
        out.push(bytes[k]);
        k = k + 1;
    }
}

/// Writes `line` with `mark` in place of each occurrence of `phrase`.
pub fn mark_line(line: &[u8], phrase: &[u8], mark: &[u8]) -> (out: Vec<u8>)
    ensures
        out@ == marked(line@, phrase@, mark@),
{
    let mut out: Vec<u8> = Vec::new();
    if phrase.len() == 0 {
        append(&mut out, line);
        return out;
    }
    let mut at: usize = 0;
    while at < line.len()
        invariant
            phrase@.len() > 0,
            at <= line@.len(),
            out@ + marked_from(line@, phrase@, mark@, at as int) == marked(line@, phrase@, mark@),
        decreases line@.len() - at,
    {
        if phrase_at(line, phrase, at) {
            append(&mut out, mark);
            at = at + phrase.len();
        } else {
            out.push(line[at]);
            at = at + 1;
        }
    }
    out
}

/// Appends to `out` what is shown for `line`, given without its break.
pub fn show_line(out: &mut Vec<u8>, line: &[u8], phrase: &[u8], mark: &[u8])
    ensures
        final(out)@ == old(out)@ + shown(line@, phrase@, mark@),
{
    if holds_phrase(line, phrase) {
        let text = mark_line(line, phrase, mark);
        append(out, text.as_slice());
        out.push(NEWLINE);
    }
}

/// Finds the end of the line that begins at `from`: the offset of its break, or the
/// length of `text` where none follows.
fn line_end(text: &[u8], from: usize) -> (end: usize)
    requires
        from <= text@.len(),
    ensures
        from <= end <= text@.len(),
        end < text@.len() ==> text@[end as int] == NEWLINE,
        forall|i: int| from <= i < end ==> text@[i] != NEWLINE,
{
    let mut end = from;
    while end < text.len() && text[end] != NEWLINE
        invariant
            from <= end <= text@.len(),
            forall|i: int| from <= i < end ==> text@[i] != NEWLINE,
        decreases text@.len() - end,
    {
        end = end + 1;
    }
    end
}

/// Goes through `text` line by line and writes what is shown for each: the lines
/// that hold `phrase`, with `mark` in its place, and so every line when `phrase` is
/// empty.
pub fn sieve(text: &[u8], phrase: &[u8], mark: &[u8]) -> (out: Vec<u8>)
    ensures
        out@ == sieved(text@, phrase@, mark@),
{
    let mut out: Vec<u8> = Vec::new();
    let mut start: usize = 0;
    proof {
        lemma_sieved_empty(phrase@, mark@);
    }
    while start < text.len()
        invariant
            start <= text@.len(),
            at_line_boundary(text@, start as int),
            out@ == sieved(text@.take(start as int), phrase@, mark@),
        decreases text@.len() - start,
    {
        let end = line_end(text, start);
        let next = if end < text.len() {
            end + 1
        } else {
            end
        };
        let line = slice_subrange(text, start, end);
        proof {
            let done = text@.take(start as int);
            let whole = text@.subrange(start as int, next as int);
            assert(text@.take(next as int) =~= done + whole);
            assert(unterminated(whole) =~= line@);
            lemma_sieved_concat(done, whole, phrase@, mark@);
            lemma_sieved_single(whole, phrase@, mark@);
        }
        show_line(&mut out, line, phrase, mark);
        start = next;
    }
    assert(text@.take(text@.len() as int) =~= text@);
    out
}

} // verus!
