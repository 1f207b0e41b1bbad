//! The line structure of a byte source.
//!
//! A line is a run of bytes that extends up to and including the next line break,
//! or up to the end of the source where no break follows. An empty source has no
//! lines; a source that ends without a break still has its last, unfinished line.

use vstd::prelude::*;

verus! {

/// The byte that ends a line.
pub const NEWLINE: u8 = 10;

/// The lines of `s` in order, each with its closing break where it has one.
///
/// The first byte opens the first line. Every later byte opens a new line when the
/// byte before it is a break, and continues the current line otherwise.
pub open spec fn lines(s: Seq<u8>) -> Seq<Seq<u8>>
    decreases s.len(),
{
    if s.len() == 0 {
        Seq::empty()
    } else {
        let head = s.drop_last();
        let before = lines(head);
        if head.len() == 0 || head.last() == NEWLINE {
            before.push(seq![s.last()])
        } else {
            before.drop_last().push(before.last().push(s.last()))
        }
    }
}

/// The number of lines of `s`.
pub open spec fn line_count(s: Seq<u8>) -> nat {
    lines(s).len()
}

/// The last `n` lines of `s` as one run of bytes: nothing for `n <= 0`, all of `s`
/// when it has no more than `n` lines.
pub open spec fn last_lines(s: Seq<u8>, n: int) -> Seq<u8> {
    let all = lines(s);
    if n <= 0 {
        Seq::empty()
    } else if n >= all.len() {
        s
    } else {
        all.skip(all.len() - n).flatten()
    }
}

/// The offset in `s` at which its last `n` lines begin.
pub open spec fn tail_start(s: Seq<u8>, n: int) -> int {
    s.len() - last_lines(s, n).len()
}

/// True when no byte of `x` but possibly its last is a line break.
pub open spec fn unbroken(x: Seq<u8>) -> bool {
    forall|i: int| 0 <= i < x.len() - 1 ==> x[i] != NEWLINE
}

/// True when a line may begin at offset `p` of `s`: at its start, at its end, or
/// right after a break.
pub open spec fn at_line_boundary(s: Seq<u8>, p: int) -> bool {
    0 <= p <= s.len() && (p == 0 || p == s.len() || s[p - 1] == NEWLINE)
}

/// A non-empty source has at least one line, every line holds a byte, and the last
/// line ends with the last byte of the source.
pub proof fn lemma_lines_shape(s: Seq<u8>)
    ensures
        s.len() == 0 <==> lines(s).len() == 0,
        lines(s).len() <= s.len(),
        forall|i: int| 0 <= i < lines(s).len() ==> (#[trigger] lines(s)[i]).len() > 0,
        s.len() > 0 ==> lines(s).last().last() == s.last(),
    decreases s.len(),
{
    if s.len() > 0 {
        lemma_lines_shape(s.drop_last());
    }
}

/// Putting the lines of a source end to end gives the source back.
pub proof fn lemma_lines_flatten(s: Seq<u8>)
    ensures
        lines(s).flatten() == s,
    decreases s.len(),
{
    broadcast use Seq::lemma_flatten_push;

    if s.len() > 0 {
        let head = s.drop_last();
        let before = lines(head);
        lemma_lines_flatten(head);
        lemma_lines_shape(head);
        if head.len() > 0 && head.last() != NEWLINE {
            assert(before =~= before.drop_last().push(before.last()));
        }
        assert(head.push(s.last()) =~= s);
    }
}

/// A source cut at a line boundary has the lines of its first part followed by the
/// lines of its second part.
pub proof fn lemma_lines_concat(a: Seq<u8>, b: Seq<u8>)
    requires
        a.len() == 0 || a.last() == NEWLINE,
    ensures
        lines(a + b) == lines(a) + lines(b),
    decreases b.len(),
{
    if b.len() > 0 {
        let rest = b.drop_last();
        assert((a + b).drop_last() =~= a + rest);
        lemma_lines_concat(a, rest);
        lemma_lines_shape(rest);
    }
}

/// A non-empty run with no break before its last byte is one line.
pub proof fn lemma_lines_single(x: Seq<u8>)
    requires
        x.len() > 0,
        unbroken(x),
    ensures
        lines(x) == seq![x],
    decreases x.len(),
{
    let head = x.drop_last();
    assert(head.push(x.last()) =~= x);
    if head.len() == 0 {
        assert(seq![x.last()] =~= x);
        assert(lines(head) =~= Seq::<Seq<u8>>::empty());
    } else {
        lemma_lines_single(head);
    }
}

/// The last `n` lines of a source are its bytes from `tail_start` to its end.
pub proof fn lemma_tail_is_suffix(s: Seq<u8>, n: int)
    ensures
        0 <= tail_start(s, n) <= s.len(),
        s.skip(tail_start(s, n)) == last_lines(s, n),
{
    let all = lines(s);
    lemma_lines_flatten(s);
    if 0 < n < all.len() {
        let k = all.len() - n;
        assert(all =~= all.take(k) + all.skip(k));
        vstd::seq_lib::lemma_flatten_concat(all.take(k), all.skip(k));
    }
}

/// Where a source is cut right after a break and exactly `n` lines follow the cut,
/// its last `n` lines begin at the cut.
pub proof fn lemma_tail_start_after_break(s: Seq<u8>, p: int, n: int)
    requires
        0 < p <= s.len(),
        s[p - 1] == NEWLINE,
        n > 0,
        line_count(s.skip(p)) == n,
    ensures
        tail_start(s, n) == p,
{
    let front = s.take(p);
    let back = s.skip(p);
    assert(s =~= front + back);
    lemma_lines_concat(front, back);
    lemma_lines_shape(front);
    lemma_lines_flatten(back);
    assert(lines(s).skip(line_count(s) - n) =~= lines(back));
}

/// What a byte placed in front of a run does to its number of lines: a break in
/// front of a non-empty run adds one line, any other byte joins the first line.
pub proof fn lemma_line_count_prepend(c: u8, x: Seq<u8>)
    ensures
        line_count(seq![c] + x) == if x.len() == 0 {
            1nat
        } else if c == NEWLINE {
            line_count(x) + 1
        } else {
            line_count(x)
        },
    decreases x.len(),
{
    let one = seq![c];
    assert(lines(one.drop_last()) =~= Seq::<Seq<u8>>::empty());
    if x.len() > 0 && c == NEWLINE {
        lemma_lines_concat(one, x);
    } else if x.len() > 0 {
        let rest = x.drop_last();
        assert((one + x).drop_last() =~= one + rest);
        lemma_line_count_prepend(c, rest);
        lemma_lines_shape(rest);
        lemma_lines_shape(one + rest);
    }
}

/// Of a source with at least `n` lines, for `n > 0`, the part from `tail_start` on is
/// exactly its last `n` lines, byte for byte.
pub proof fn lemma_tail_of_long_source(s: Seq<u8>, n: int)
    requires
        0 < n <= line_count(s),
    ensures
        s.skip(tail_start(s, n)) == lines(s).skip(line_count(s) - n).flatten(),
{
    lemma_tail_is_suffix(s, n);
    if n == line_count(s) {
        lemma_lines_flatten(s);
        assert(lines(s).skip(0) =~= lines(s));
    }
}

/// Of a source with fewer than `n` lines the part from `tail_start` on is the whole
/// source.
pub proof fn lemma_tail_of_short_source(s: Seq<u8>, n: int)
    requires
        n > line_count(s),
    ensures
        tail_start(s, n) == 0,
        s.skip(tail_start(s, n)) == s,
{
    lemma_tail_is_suffix(s, n);
}

/// For `n <= 0` the part from `tail_start` on is empty.
pub proof fn lemma_tail_of_no_lines(s: Seq<u8>, n: int)
    requires
        n <= 0,
    ensures
        tail_start(s, n) == s.len(),
        s.skip(tail_start(s, n)) == Seq::<u8>::empty(),
{
    lemma_tail_is_suffix(s, n);
}

/// Every line is a run without a break before its last byte, and every line but the
/// last ends with a break.
pub proof fn lemma_lines_end_at_breaks(s: Seq<u8>)
    ensures
        forall|i: int| 0 <= i < lines(s).len() ==> unbroken(#[trigger] lines(s)[i]),
        forall|i: int|
            0 <= i < lines(s).len() - 1 ==> (#[trigger] lines(s)[i]).last() == NEWLINE,
    decreases s.len(),
{
    if s.len() > 0 {
        let head = s.drop_last();
        let before = lines(head);
        lemma_lines_end_at_breaks(head);
        lemma_lines_shape(head);
        lemma_lines_shape(s);
        assert forall|i: int| 0 <= i < lines(s).len() implies unbroken(
            #[trigger] lines(s)[i],
        ) by {
            if i < before.len() - 1 {
                assert(lines(s)[i] == before[i]);
            }
        }
        assert forall|i: int| 0 <= i < lines(s).len() - 1 implies (#[trigger] lines(
            s,
        )[i]).last() == NEWLINE by {
            assert(lines(s)[i] == before[i]);
        }
    }
}

/// The first `k` lines of a source, put end to end, have just those lines.
pub proof fn lemma_lines_of_front(s: Seq<u8>, k: int)
    requires
        0 <= k <= line_count(s),
    ensures
        lines(lines(s).take(k).flatten()) == lines(s).take(k),
    decreases k,
{
    broadcast use Seq::lemma_flatten_push;

    let all = lines(s);
    if k > 0 {
        let front = all.take(k - 1).flatten();
        let line = all[k - 1];
        lemma_lines_of_front(s, k - 1);
        lemma_lines_end_at_breaks(s);
        lemma_lines_shape(s);
        assert(all.take(k) =~= all.take(k - 1).push(line));
        if k > 1 {
            assert(all.take(k - 1) =~= all.take(k - 2).push(all[k - 2]));
        }
        lemma_lines_concat(front, line);
        lemma_lines_single(line);
    }
}

/// Where a source has more than `n` lines, for `n > 0`, its last `n` lines begin
/// right after a break, and what follows that break has exactly those `n` lines.
pub proof fn lemma_tail_start_is_after_break(s: Seq<u8>, n: int)
    requires
        0 < n < line_count(s),
    ensures
        0 < tail_start(s, n) < s.len(),
        s[tail_start(s, n) - 1] == NEWLINE,
        lines(s.skip(tail_start(s, n))) == lines(s).skip(line_count(s) - n),
{
    let all = lines(s);
    let k = all.len() - n;
    let front = all.take(k).flatten();
    let back = all.skip(k).flatten();
    lemma_lines_flatten(s);
    lemma_lines_shape(s);
    lemma_lines_end_at_breaks(s);
    lemma_lines_of_front(s, k);
    assert(all =~= all.take(k) + all.skip(k));
    vstd::seq_lib::lemma_flatten_concat(all.take(k), all.skip(k));
    assert(all.take(k) =~= all.take(k - 1).push(all[k - 1]));
    all.take(k - 1).lemma_flatten_push(all[k - 1]);
    assert(all.skip(k) =~= seq![all[k]] + all.skip(k + 1));
    vstd::seq_lib::lemma_flatten_concat(seq![all[k]], all.skip(k + 1));
    seq![all[k]].lemma_flatten_one_element();
    lemma_lines_concat(front, back);
    assert(s.skip(front.len() as int) =~= back);
    assert(lines(back) =~= all.skip(k)) by {
        assert forall|i: int| 0 <= i < lines(back).len() implies lines(back)[i] == all.skip(
            k,
        )[i] by {
            assert((lines(front) + lines(back))[k + i] == lines(back)[i]);
        }
    }
}

} // verus!
