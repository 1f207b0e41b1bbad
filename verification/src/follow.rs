//! Handling one change of a followed file.
//!
//! Each time the file is reported as changed, its size is measured anew and held
//! against the size last observed. A file that is no shorter has grown, or stayed as
//! it was: the bytes behind the old size are new, and their lines are shown through
//! the sieve. A shorter file was truncated or replaced: nothing is read from the old
//! offset, a notice is shown, and following goes on from the new size. The observed
//! size moves to the new size once the change has been dealt with. Where the new bytes
//! are not valid text the change is skipped: nothing is shown and nothing moves.

use vstd::prelude::*;
use vstd::string::StringExecFns;
use vstd::utf8::{decode_utf8, encode_utf8, encode_utf8_valid_utf8, valid_utf8};
use crate::error::TailError;
use crate::sieve::{contains, lemma_sieved_empty, lemma_sieved_is_text, sieve, sieved};
use crate::source::{Change, FileSpec};
use crate::text::{decode_text, is_text, text_outcome};

verus! {

/// The words of the notice shown when the followed file has shrunk.
pub open spec fn notice_text() -> Seq<char> {
    "***FILE TRUN'ED***"@
}

/// The characters that switch a terminal to red.
pub open spec fn red_on() -> Seq<char> {
    seq!['\x1b', '[', '3', '1', 'm']
}

/// The characters that switch a terminal back to its plain style.
pub open spec fn style_off() -> Seq<char> {
    seq!['\x1b', '[', '0', 'm']
}

/// True when `mark` may stand for `phrase` in what is shown: it is the phrase itself,
/// where colour is switched off, or the phrase in red. Of a phrase that itself holds
/// the characters that end a style, nothing is said.
pub open spec fn highlights(phrase: Seq<char>, mark: Seq<char>) -> bool {
    ||| mark == phrase
    ||| mark == red_on() + phrase + style_off()
    ||| contains(phrase, style_off())
}

/// What handling one change shows, or the failure it ends in: `observed` is the size
/// last observed, `current` the size just measured, `chunk` the bytes of the file
/// from offset `observed` up to offset `current`.
///
/// For a file that has shrunk it is the notice and a break. For one that has not,
/// it is the text of the lines of `chunk` in which `phrase` occurs, with `mark` in
/// its place, or `EncodingError` where `chunk` is no text.
pub open spec fn followed(
    observed: u64,
    current: u64,
    chunk: Seq<u8>,
    phrase: Seq<char>,
    mark: Seq<char>,
) -> Result<Seq<char>, TailError> {
    if current < observed {
        Ok(notice_text().push('\n'))
    } else if !valid_utf8(chunk) {
        Err(TailError::EncodingError)
    } else {
        Ok(decode_utf8(sieved(chunk, encode_utf8(phrase), encode_utf8(mark))))
    }
}

/// The size observed after a change has been handled: the measured size where the
/// change was dealt with, the old one where it was skipped.
pub open spec fn observed_after(
    before: FileSpec,
    current: u64,
    result: Result<String, TailError>,
) -> u64 {
    if result is Ok {
        before.measured(current)
    } else {
        before.observed()
    }
}

/// Renders `text` in red. Stands on `colored::Colorize::red` and the `Display` of the
/// `ColoredString` it returns. Whether colour is switched on is decided by the
/// environment and by whether standard output is a terminal: with colour off the
/// text comes back as it is, with colour on it comes back between the characters
/// that switch red on and those that switch styles off. A text that itself holds the
/// latter is changed inside as well, and nothing is claimed of it.
#[verifier::external_body]
fn highlight(text: &str) -> (mark: String)
    ensures
        highlights(text@, mark@),
{
    colored::Colorize::red(text).to_string()
}

/// The notice shown when the followed file has shrunk, without a break.
pub fn truncation_notice() -> (text: &'static str)
    ensures
        text@ == notice_text(),
{
    "***FILE TRUN'ED***"
}

/// Handles one change of the followed file, with the mark for the phrase given.
///
/// `current` is the size just measured; `chunk` holds the bytes of the file from the
/// size last observed up to `current`, and is not looked at where the file has shrunk.
/// Returns the text to show: the notice for a file that has shrunk, else the lines
/// of `chunk` that pass the sieve for `phrase`, with `mark` in place of the phrase.
/// The observed size then becomes `current`. Where `chunk` is not valid text the
/// change is skipped: the result is `EncodingError` and `file` stays as it was.
pub fn follow_marked(
    file: &mut FileSpec,
    current: u64,
    chunk: &[u8],
    phrase: &str,
    mark: &str,
) -> (result: Result<String, TailError>)
    ensures
        text_outcome(result) == followed(old(file).observed(), current, chunk@, phrase@, mark@),
        final(file).observed() == observed_after(*old(file), current, result),
        final(file).path() == old(file).path(),
        final(file).buffered() == old(file).buffered(),
        old(file).wf() ==> final(file).wf(),
{
    match file.change(current) {
        Change::Truncated => {
            proof {
                reveal_strlit("\n");
            }
            let mut shown = String::from_str(truncation_notice());
            shown.append("\n");
            assert(shown@ =~= notice_text().push('\n'));
            file.update_size(current);
            Ok(shown)
        },
        Change::Grown { from: _, to: _ } => {
            if !is_text(chunk) {
                return Err(TailError::EncodingError);
            }
            let shown = sieve(chunk, phrase.as_bytes(), mark.as_bytes());
            proof {
                encode_utf8_valid_utf8(phrase@);
                encode_utf8_valid_utf8(mark@);
                lemma_sieved_is_text(chunk@, encode_utf8(phrase@), encode_utf8(mark@));
            }
            file.update_size(current);
            decode_text(shown.as_slice())
        },
    }
}

/// Handles one change of the followed file.
///
/// Does what [`follow_marked`] does, with the phrase `filter` and, as its mark, the
/// phrase rendered in red; whether that rendering adds colour is for the environment
/// to say, so the result is stated for some mark that may stand for the phrase.
pub fn follow_filter(file: &mut FileSpec, current: u64, chunk: &[u8], filter: &str) -> (result:
    Result<String, TailError>)
    ensures
        exists|mark: Seq<char>|
            highlights(filter@, mark) && text_outcome(result) == #[trigger] followed(
                old(file).observed(),
                current,
                chunk@,
                filter@,
                mark,
            ),
        final(file).observed() == observed_after(*old(file), current, result),
        final(file).path() == old(file).path(),
        final(file).buffered() == old(file).buffered(),
        old(file).wf() ==> final(file).wf(),
{
    let mark = highlight(filter);
    follow_marked(file, current, chunk, filter, mark.as_str())
}

/// Handling a change that brought no growth shows nothing and leaves the observed size
/// as it is, however often it is done.
pub proof fn lemma_follow_without_growth(file: FileSpec, phrase: Seq<char>, mark: Seq<char>)
    requires
        file.wf(),
    ensures
        followed(file.observed(), file.observed(), Seq::empty(), phrase, mark) == Ok::<
            Seq<char>,
            TailError,
        >(Seq::empty()),
        file.measured(file.observed()) == file.observed(),
{
    lemma_sieved_empty(encode_utf8(phrase), encode_utf8(mark));
}

/// For a file that has shrunk the notice is shown and nothing else, whatever bytes
/// were read.
pub proof fn lemma_truncation_shows_notice(
    observed: u64,
    current: u64,
    chunk: Seq<u8>,
    phrase: Seq<char>,
    mark: Seq<char>,
)
    requires
        current < observed,
    ensures
        followed(observed, current, chunk, phrase, mark) == Ok::<Seq<char>, TailError>(
            notice_text().push('\n'),
        ),
{
}

/// What is shown for new bytes that are text is the text of what passes the sieve:
/// its bytes are those that the sieve lets through.
pub proof fn lemma_followed_text(
    observed: u64,
    current: u64,
    chunk: Seq<u8>,
    phrase: Seq<char>,
    mark: Seq<char>,
)
    requires
        current >= observed,
        valid_utf8(chunk),
    ensures
        followed(observed, current, chunk, phrase, mark) matches Ok(text) && encode_utf8(text)
            == sieved(chunk, encode_utf8(phrase), encode_utf8(mark)),
{
    encode_utf8_valid_utf8(phrase);
    encode_utf8_valid_utf8(mark);
    lemma_sieved_is_text(chunk, encode_utf8(phrase), encode_utf8(mark));
    vstd::utf8::decode_utf8_encode_utf8(sieved(chunk, encode_utf8(phrase), encode_utf8(mark)));
}

} // verus!
