//! The last lines of input that cannot be sought in.
//!
//! Standard input is read to its end before anything is shown, line by line and
//! without the breaks. Its last lines are then taken from what was buffered, and each
//! is shown with a break after it.

use vstd::prelude::*;
use vstd::string::StringExecFns;
use crate::source::texts_of;

verus! {

/// The lines of `lines` put end to end, each with a break after it.
pub open spec fn with_breaks(lines: Seq<Seq<char>>) -> Seq<char> {
    lines.map_values(|line: Seq<char>| line.push('\n')).flatten()
}

/// The last `n` of the buffered lines as one text: nothing for `n <= 0`, all of them
/// where there are no more than `n`.
pub open spec fn last_buffered(lines: Seq<Seq<char>>, n: int) -> Seq<char> {
    if n <= 0 {
        Seq::empty()
    } else if n >= lines.len() {
        with_breaks(lines)
    } else {
        with_breaks(lines.skip(lines.len() - n))
    }
}

/// One more line adds its text and a break.
pub proof fn lemma_with_breaks_push(lines: Seq<Seq<char>>, line: Seq<char>)
    ensures
        with_breaks(lines.push(line)) == with_breaks(lines) + line.push('\n'),
{
    let close = |line: Seq<char>| line.push('\n');
    assert(lines.push(line).map_values(close) =~= lines.map_values(close).push(close(line)));
    lines.map_values(close).lemma_flatten_push(close(line));
}

/// Puts the last `n` of the buffered `lines` end to end, each with a break after it.
pub fn tail_buffered(lines: &Vec<String>, n: i32) -> (text: String)
    ensures
        text@ == last_buffered(texts_of(lines@), n as int),
{
    let mut text = String::new();
    if n <= 0 {
        return text;
    }
    let len = lines.len();
    let start = if n as usize >= len {
        0
    } else {
        len - n as usize
    };
    let ghost all = texts_of(lines@);
    let mut at = start;
    while at < len
        invariant
            start <= at <= len,
            len == lines@.len(),
            all == texts_of(lines@),
            text@ == with_breaks(all.subrange(start as int, at as int)),
        decreases len - at,
    {
        proof {
            reveal_strlit("\n");
            lemma_with_breaks_push(all.subrange(start as int, at as int), all[at as int]);
            assert(all.subrange(start as int, at + 1) =~= all.subrange(
                start as int,
                at as int,
            ).push(all[at as int]));
        }
        text.append(lines[at].as_str());
        text.append("\n");
        at = at + 1;
    }
    proof {
        assert(all.skip(0) =~= all);
    }
    text
}

} // verus!
