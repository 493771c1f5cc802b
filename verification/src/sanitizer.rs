//! Cleaning a raw document: one kind of line ending, no comments.

use vstd::prelude::*;
use vstd::slice::slice_subrange;
use vstd::utf8::valid_utf8;
use crate::errors::ParseR3Error;
use crate::search::{byte_positions, first_byte, lists_byte_positions};
use crate::text::{is_span_of, is_utf8, CARRIAGE_RETURN, HASH_SIGN, LINE_FEED};

verus! {

/// How many bytes the line break at `at` takes: two for `\r\n`, else one.
pub open spec fn line_break_width(raw: Seq<u8>, at: int) -> int {
    if at + 1 < raw.len() && raw[at + 1] == LINE_FEED {
        2
    } else {
        1
    }
}

/// The bytes from `at` on, with every `\r\n` and every lone `\r` turned
/// into `\n`.
pub open spec fn normalized_from(raw: Seq<u8>, at: int) -> Seq<u8>
    decreases raw.len() - at,
{
    if at < 0 || at >= raw.len() {
        Seq::empty()
    } else if raw[at] == CARRIAGE_RETURN {
        seq![LINE_FEED] + normalized_from(raw, at + line_break_width(raw, at))
    } else {
        seq![raw[at]] + normalized_from(raw, at + 1)
    }
}

/// A document with every `\r\n` and every lone `\r` turned into `\n`.
pub open spec fn normalize_line_endings(raw: Seq<u8>) -> Seq<u8> {
    normalized_from(raw, 0)
}

/// Two `#` stand side by side at `at`.
pub open spec fn opens_comment(text: Seq<u8>, at: int) -> bool {
    0 <= at && at + 1 < text.len() && text[at] == HASH_SIGN && text[at + 1] == HASH_SIGN
}

/// Somewhere in the text two `#` stand side by side.
pub open spec fn has_comment_opener(text: Seq<u8>) -> bool {
    exists|at: int| opens_comment(text, at)
}

/// The bytes from `at` on without their comments. `in_comment` says whether
/// `at` lies inside a comment that began earlier. A comment begins at two
/// adjacent `#` and ends with the next `\n`, which belongs to it; without a
/// `\n` it runs to the end.
pub open spec fn stripped_from(text: Seq<u8>, at: int, in_comment: bool) -> Seq<u8>
    decreases text.len() - at,
{
    if at < 0 || at >= text.len() {
        Seq::empty()
    } else if in_comment {
        stripped_from(text, at + 1, text[at] != LINE_FEED)
    } else if opens_comment(text, at) {
        stripped_from(text, at + 1, true)
    } else {
        seq![text[at]] + stripped_from(text, at + 1, false)
    }
}

/// A text without its comments.
pub open spec fn strip_comments(text: Seq<u8>) -> Seq<u8> {
    stripped_from(text, 0, false)
}

/// What sanitizing makes of a document: line endings first, comments second.
pub open spec fn sanitized(raw: Seq<u8>) -> Seq<u8> {
    strip_comments(normalize_line_endings(raw))
}

/// No `\r` stands in the text.
pub open spec fn has_no_carriage_return(text: Seq<u8>) -> bool {
    forall|i: int| 0 <= i < text.len() ==> text[i] != CARRIAGE_RETURN
}

proof fn lemma_normalized_plain_run(raw: Seq<u8>, from: int, to: int)
    requires
        0 <= from <= to <= raw.len(),
        forall|i: int| from <= i < to ==> raw[i] != CARRIAGE_RETURN,
    ensures
        normalized_from(raw, from) == raw.subrange(from, to) + normalized_from(raw, to),
    decreases to - from,
{
    if from < to {
        lemma_normalized_plain_run(raw, from + 1, to);
        assert(raw.subrange(from, to) + normalized_from(raw, to) =~= seq![raw[from]] + (
        raw.subrange(from + 1, to) + normalized_from(raw, to)));
    } else {
        assert(raw.subrange(from, to) + normalized_from(raw, to) =~= normalized_from(raw, to));
    }
}

proof fn lemma_normalized_has_no_carriage_return(raw: Seq<u8>, at: int)
    ensures
        has_no_carriage_return(normalized_from(raw, at)),
    decreases raw.len() - at,
{
    if 0 <= at < raw.len() {
        if raw[at] == CARRIAGE_RETURN {
            lemma_normalized_has_no_carriage_return(raw, at + line_break_width(raw, at));
        } else {
            lemma_normalized_has_no_carriage_return(raw, at + 1);
        }
    }
}

proof fn lemma_stripped_plain_run(text: Seq<u8>, from: int, to: int)
    requires
        0 <= from <= to <= text.len(),
        forall|i: int| from <= i < to ==> !opens_comment(text, i),
    ensures
        stripped_from(text, from, false) == text.subrange(from, to) + stripped_from(
            text,
            to,
            false,
        ),
    decreases to - from,
{
    if from < to {
        lemma_stripped_plain_run(text, from + 1, to);
        assert(text.subrange(from, to) + stripped_from(text, to, false) =~= seq![text[from]] + (
        text.subrange(from + 1, to) + stripped_from(text, to, false)));
    } else {
        assert(text.subrange(from, to) + stripped_from(text, to, false) =~= stripped_from(
            text,
            to,
            false,
        ));
    }
}

proof fn lemma_stripped_comment_body(text: Seq<u8>, from: int, to: int)
    requires
        0 <= from <= to <= text.len(),
        forall|i: int| from <= i < to ==> text[i] != LINE_FEED,
    ensures
        stripped_from(text, from, true) == stripped_from(text, to, true),
    decreases to - from,
{
    if from < to {
        lemma_stripped_comment_body(text, from + 1, to);
    }
}

/// What stripping leaves holds no two adjacent `#`.
proof fn lemma_stripped_no_opener(text: Seq<u8>, at: int, in_comment: bool)
    ensures
        !has_comment_opener(stripped_from(text, at, in_comment)),
    decreases text.len() - at,
{
    let out = stripped_from(text, at, in_comment);
    if 0 <= at < text.len() {
        if in_comment {
            lemma_stripped_no_opener(text, at + 1, text[at] != LINE_FEED);
        } else if opens_comment(text, at) {
            lemma_stripped_no_opener(text, at + 1, true);
        } else {
            let rest = stripped_from(text, at + 1, false);
            lemma_stripped_no_opener(text, at + 1, false);
            assert forall|i: int| !opens_comment(out, i) by {
                if opens_comment(out, i) {
                    if i == 0 {
                        // The byte kept at `at` is `#`, so the byte after it is
                        // not, and is kept as well.
                        assert(out[1] == rest[0]);
                        assert(rest[0] == text[at + 1]);
                    } else {
                        assert(opens_comment(rest, i - 1));
                    }
                }
            }
        }
    }
}

/// Normalizing line endings leaves a document without `\r` as it is, so
/// sanitizing such a document only removes its comments.
pub proof fn normalized_input_is_unchanged(raw: Seq<u8>)
    requires
        has_no_carriage_return(raw),
    ensures
        normalize_line_endings(raw) == raw,
        sanitized(raw) == strip_comments(raw),
{
    lemma_normalized_plain_run(raw, 0, raw.len() as int);
    assert(raw.subrange(0, raw.len() as int) =~= raw);
    assert(normalized_from(raw, raw.len() as int) =~= Seq::<u8>::empty());
    assert(raw + Seq::<u8>::empty() =~= raw);
}

/// A normalized document holds no `\r`, and sanitizing a document gives the
/// same bytes as sanitizing the document with its line endings already
/// normalized.
pub proof fn sanitizing_ignores_line_ending_style(raw: Seq<u8>)
    ensures
        has_no_carriage_return(normalize_line_endings(raw)),
        normalize_line_endings(normalize_line_endings(raw)) == normalize_line_endings(raw),
        sanitized(normalize_line_endings(raw)) == sanitized(raw),
{
    lemma_normalized_has_no_carriage_return(raw, 0);
    normalized_input_is_unchanged(normalize_line_endings(raw));
}

/// A sanitized document holds no two adjacent `#`: nothing that opens a
/// comment is left in it, nor in any span cut from it.
pub proof fn sanitized_has_no_comment_opener(raw: Seq<u8>)
    ensures
        !has_comment_opener(sanitized(raw)),
        forall|part: Seq<u8>|
            is_span_of(part, sanitized(raw)) ==> !has_comment_opener(part),
{
    lemma_stripped_no_opener(normalize_line_endings(raw), 0, false);
    assert forall|part: Seq<u8>| is_span_of(part, sanitized(raw)) implies
        !has_comment_opener(part) by {
        lemma_span_has_no_comment_opener(part, sanitized(raw));
    }
}

/// A span of a text without comment openers has none either.
pub proof fn lemma_span_has_no_comment_opener(part: Seq<u8>, whole: Seq<u8>)
    requires
        is_span_of(part, whole),
        !has_comment_opener(whole),
    ensures
        !has_comment_opener(part),
{
    if has_comment_opener(part) {
        let at = choose|at: int| opens_comment(part, at);
        let (from, to) = choose|from: int, to: int|
            0 <= from <= to <= whole.len() && part == #[trigger] whole.subrange(from, to);
        assert(part[at] == whole[from + at]);
        assert(part[at + 1] == whole[from + at + 1]);
        assert(opens_comment(whole, from + at));
    }
}

/// Turns every `\r\n` and every lone `\r` into `\n`.
pub fn normalize_line_endings_of(file: &[u8]) -> (out: Vec<u8>)
    ensures
        out@ == normalize_line_endings(file@),
{
    let breaks = byte_positions(CARRIAGE_RETURN, file);
    let mut out: Vec<u8> = Vec::with_capacity(file.len());
    let mut last_pos: usize = 0;
    let mut k: usize = 0;
    while k < breaks.len()
        invariant
            lists_byte_positions(file@, CARRIAGE_RETURN, breaks@),
            k <= breaks.len(),
            last_pos <= file.len(),
            out@ + normalized_from(file@, last_pos as int) == normalized_from(file@, 0),
            forall|j: int| 0 <= j < k ==> breaks[j] < last_pos,
            forall|j: int| k <= j < breaks.len() ==> breaks[j] >= last_pos,
        decreases breaks.len() - k,
    {
        let pos = breaks[k];
        let ghost before = out@;
        let ghost start = last_pos as int;
        proof {
            assert forall|i: int| start <= i < pos implies file@[i] != CARRIAGE_RETURN by {
                if file@[i] == CARRIAGE_RETURN {
                    let j = choose|j: int| 0 <= j < breaks.len() && breaks[j] == i;
                    assert(breaks[j] == i);
                }
            }
            lemma_normalized_plain_run(file@, start, pos as int);
        }
        out.extend_from_slice(slice_subrange(file, last_pos, pos));
        out.push(LINE_FEED);
        if pos + 1 < file.len() && file[pos + 1] == LINE_FEED {
            last_pos = pos + 2;
        } else {
            last_pos = pos + 1;
        }
        proof {
            assert(last_pos == pos + line_break_width(file@, pos as int));
            assert(out@ =~= before + file@.subrange(start, pos as int) + seq![LINE_FEED]);
            assert(out@ + normalized_from(file@, last_pos as int) =~= before + (file@.subrange(
                start,
                pos as int,
            ) + (seq![LINE_FEED] + normalized_from(file@, last_pos as int))));
        }
        k += 1;
    }
    proof {
        let start = last_pos as int;
        assert forall|i: int| start <= i < file@.len() implies file@[i] != CARRIAGE_RETURN by {
            if file@[i] == CARRIAGE_RETURN {
                let j = choose|j: int| 0 <= j < breaks.len() && breaks[j] == i;
                assert(breaks[j] == i);
            }
        }
        lemma_normalized_plain_run(file@, start, file@.len() as int);
    }
    let ghost before = out@;
    out.extend_from_slice(slice_subrange(file, last_pos, file.len()));
    proof {
        assert(out@ =~= before + file@.subrange(last_pos as int, file@.len() as int));
        assert(normalized_from(file@, file@.len() as int) =~= Seq::<u8>::empty());
        assert(out@ =~= before + normalized_from(file@, last_pos as int));
    }
    out
}

/// Removes every comment: from two adjacent `#` through the end of the
/// line, the `\n` included.
pub fn strip_comments_of(text: &[u8]) -> (out: Vec<u8>)
    ensures
        out@ == strip_comments(text@),
        !has_comment_opener(out@),
{
    let hashes = byte_positions(HASH_SIGN, text);
    let mut out: Vec<u8> = Vec::with_capacity(text.len());
    let mut last_pos: usize = 0;
    let mut k: usize = 0;
    while k < hashes.len()
        invariant
            lists_byte_positions(text@, HASH_SIGN, hashes@),
            k <= hashes.len(),
            last_pos <= text.len(),
            out@ + stripped_from(text@, last_pos as int, false) == stripped_from(text@, 0, false),
            forall|j: int|
                0 <= j < k ==> hashes[j] < last_pos || !opens_comment(text@, hashes[j] as int),
        decreases hashes.len() - k,
    {
        let pos = hashes[k];
        if pos >= last_pos && pos + 1 < text.len() && text[pos + 1] == HASH_SIGN {
            let ghost before = out@;
            let ghost start = last_pos as int;
            proof {
                assert forall|i: int| start <= i < pos implies !opens_comment(text@, i) by {
                    if opens_comment(text@, i) {
                        let j = choose|j: int| 0 <= j < hashes.len() && hashes[j] == i;
                        assert(hashes[j] == i);
                        assert(j < k);
                    }
                }
                lemma_stripped_plain_run(text@, start, pos as int);
                assert(opens_comment(text@, pos as int));
            }
            out.extend_from_slice(slice_subrange(text, last_pos, pos));
            let rest = slice_subrange(text, pos, text.len());
            match first_byte(LINE_FEED, rest) {
                Some(off) => {
                    proof {
                        assert(rest@[off as int] == text@[pos + off]);
                        assert forall|i: int| pos + 1 <= i < pos + off implies text@[i]
                            != LINE_FEED by {
                            assert(rest@[i - pos] == text@[i]);
                        }
                        assert(rest@[0] == text@[pos as int]);
                        lemma_stripped_comment_body(text@, pos + 1, pos + off);
                    }
                    last_pos = pos + off + 1;
                },
                None => {
                    proof {
                        assert forall|i: int| pos + 1 <= i < text@.len() implies text@[i]
                            != LINE_FEED by {
                            assert(rest@[i - pos] == text@[i]);
                        }
                        lemma_stripped_comment_body(text@, pos + 1, text@.len() as int);
                    }
                    last_pos = text.len();
                },
            }
            proof {
                assert(stripped_from(text@, pos as int, false) == stripped_from(
                    text@,
                    last_pos as int,
                    false,
                ));
                assert(out@ =~= before + text@.subrange(start, pos as int));
                assert(out@ + stripped_from(text@, last_pos as int, false) =~= before + (
                text@.subrange(start, pos as int) + stripped_from(text@, pos as int, false)));
            }
        }
        k += 1;
    }
    proof {
        let start = last_pos as int;
        assert forall|i: int| start <= i < text@.len() implies !opens_comment(text@, i) by {
            if opens_comment(text@, i) {
                let j = choose|j: int| 0 <= j < hashes.len() && hashes[j] == i;
                assert(hashes[j] == i);
            }
        }
        lemma_stripped_plain_run(text@, start, text@.len() as int);
        lemma_stripped_no_opener(text@, 0, false);
    }
    let ghost before = out@;
    out.extend_from_slice(slice_subrange(text, last_pos, text.len()));
    proof {
        assert(out@ =~= before + text@.subrange(last_pos as int, text@.len() as int));
        assert(stripped_from(text@, text@.len() as int, false) =~= Seq::<u8>::empty());
        assert(out@ =~= before + stripped_from(text@, last_pos as int, false));
    }
    out
}

/// Sanitizes a raw document. Fails with `InvalidUTF8Value` when the bytes
/// are not valid UTF-8, and otherwise breaks the document with `\n` line
/// endings and without comments.
pub fn sanitize_r3_locale_file(file: &[u8]) -> (cleaned: Result<Vec<u8>, ParseR3Error>)
    ensures
        cleaned is Ok <==> valid_utf8(file@),
        cleaned matches Ok(buffer) ==> buffer@ == sanitized(file@) && !has_comment_opener(
            buffer@,
        ),
        cleaned matches Err(e) ==> e == ParseR3Error::InvalidUTF8Value,
{
    if !is_utf8(file) {
        return Err(ParseR3Error::InvalidUTF8Value);
    }
    let normalized = normalize_line_endings_of(file);
    let stripped = strip_comments_of(normalized.as_slice());
    Ok(stripped)
}

} // verus!
