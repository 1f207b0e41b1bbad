//! Showing the last lines of a source once, before any following.
//!
//! A file is walked backwards, byte by byte, until the start of its last lines is
//! found; what lies from there to its end is read as text and shown. Input buffered
//! from standard input is not walked: its last lines are taken from the buffer.

use vstd::prelude::*;
use vstd::slice::slice_subrange;
use vstd::utf8::valid_utf8;
use crate::buffered::{last_buffered, tail_buffered};
use crate::error::TailError;
use crate::lines::{
    last_lines, lemma_tail_is_suffix, lemma_tail_start_is_after_break, line_count, tail_start,
};
use crate::locate::{locate_tail_start, TailScan};
use crate::source::FileSpec;
use crate::text::{decode_text, decoded, lemma_text_around_break, text_outcome};

verus! {

/// The number of lines shown where none is asked for.
pub const DEFAULT_NUM_LINES: i32 = 5;

/// How the last lines of a source are to be had.
pub enum TailPlan {
    /// The source is a file: run this walk over it, then show the file from the
    /// offset at which the walk stops.
    Seek(TailScan),
    /// The source was buffered: show this text.
    Print(String),
    /// There is no source: show nothing.
    Nothing,
}

/// Says how the last `num` lines of `file` are to be had: by a walk over the file
/// where the source is one, else from the buffered lines where there are any.
pub fn read_last_n_lines(file: &FileSpec, num: i32) -> (plan: TailPlan)
    ensures
        match plan {
            TailPlan::Seek(scan) => {
                &&& file.file_backed()
                &&& scan.wf()
                &&& scan.size() == file.observed()
                &&& scan.wanted() == num
                &&& scan.seen() == Seq::<u8>::empty()
            },
            TailPlan::Print(text) => {
                &&& !file.file_backed()
                &&& file.buffered() matches Some(lines)
                &&& text@ == last_buffered(lines, num as int)
            },
            TailPlan::Nothing => !file.file_backed() && file.buffered() is None,
        },
{
    if file.fpath().is_some() {
        TailPlan::Seek(TailScan::new(file.size(), num))
    } else {
        match file.stdin() {
            Some(lines) => TailPlan::Print(tail_buffered(lines, num)),
            None => TailPlan::Nothing,
        }
    }
}

/// Reads the last `n` lines of `source` as text, or fails with `EncodingError`
/// where they are none.
pub fn tail_text(source: &[u8], n: i32) -> (result: Result<String, TailError>)
    ensures
        text_outcome(result) == decoded(last_lines(source@, n as int)),
{
    let start = locate_tail_start(source, n);
    proof {
        lemma_tail_is_suffix(source@, n as int);
    }
    decode_text(slice_subrange(source, start, source.len()))
}

/// The last lines of text are text: a source that is text as a whole never fails to
/// show its last lines.
pub proof fn lemma_tail_of_text_is_text(s: Seq<u8>, n: int)
    requires
        valid_utf8(s),
    ensures
        valid_utf8(last_lines(s, n)),
        decoded(last_lines(s, n)) is Ok,
{
    if 0 < n < line_count(s) {
        lemma_tail_start_is_after_break(s, n);
        lemma_tail_is_suffix(s, n);
        lemma_text_around_break(s, tail_start(s, n) - 1);
    }
}

} // verus!
