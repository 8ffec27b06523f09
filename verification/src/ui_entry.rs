//! The one-line summary of an entry that clients show in lists.

use vstd::prelude::*;
use vstd::utf8::*;

use crate::error::Error;
use crate::ring_reader::Entry;
use crate::text::{is_whitespace, lenient_text, starts_with, utf8_len};

verus! {

/// How many bytes are kept in front of a highlight.
pub const CONTEXT_LEN: usize = 24;

/// How many bytes of an entry make up its summary.
pub const SUMMARY_LEN: usize = 250;

/// An entry together with what is shown of it.
#[derive(Debug)]
pub struct UiEntry {
    pub entry: Entry,
    pub cache: UiEntryCache,
}

/// What is shown of an entry.
#[derive(Debug)]
#[allow(inconsistent_fields)]
pub enum UiEntryCache {
    Text { one_liner: String },
    /// The bytes from `start` up to `end` of the text stand out.
    HighlightedText { one_liner: String, start: usize, end: usize },
    Image,
    Binary { mime_type: String },
    Error(Error),
}

impl UiEntryCache {
    #[must_use]
    pub fn is_text(&self) -> (text: bool)
        ensures
            text == (*self is Text || *self is HighlightedText),
    {
        match self {
            UiEntryCache::Text { .. } | UiEntryCache::HighlightedText { .. } => true,
            UiEntryCache::Image | UiEntryCache::Binary { .. } | UiEntryCache::Error(_) => false,
        }
    }
}

/// The number of bytes that encode a text.
pub open spec fn byte_len(text: Seq<char>) -> int {
    encode_utf8(text).len() as int
}

/// A character appended to a line: runs of whitespace become one space, and a
/// line does not start with whitespace.
pub open spec fn squeeze_char(line: Seq<char>, c: char) -> Seq<char> {
    if !crate::text::spec_is_whitespace(c) {
        line.push(c)
    } else if line.len() == 0 || line.last() == ' ' {
        line
    } else {
        line.push(' ')
    }
}

/// A text appended to a line, character by character.
pub open spec fn squeeze(line: Seq<char>, text: Seq<char>) -> Seq<char>
    decreases text.len(),
{
    if text.len() == 0 {
        line
    } else {
        squeeze_char(squeeze(line, text.drop_last()), text.last())
    }
}

/// Where a position ends up that was `at` when the text was appended to the line
/// unchanged: it moves back by what is lost in front of it.
pub open spec fn squeeze_position(line: Seq<char>, text: Seq<char>, at: int) -> int
    decreases text.len(),
{
    if text.len() == 0 {
        at
    } else {
        let before = squeeze(line, text.drop_last());
        let after = squeeze_char(before, text.last());
        let at = squeeze_position(line, text.drop_last(), at);
        let lost = byte_len(before) + crate::text::spec_utf8_len(text.last()) - byte_len(after);
        if byte_len(before) < at {
            at - lost
        } else {
            at
        }
    }
}

/// How many bytes at the front are in the middle of a character, at most three.
pub open spec fn leading_continuations(bytes: Seq<u8>) -> int {
    if bytes.len() == 0 || !is_continuation_byte(bytes[0]) {
        0
    } else if bytes.len() == 1 || !is_continuation_byte(bytes[1]) {
        1
    } else if bytes.len() == 2 || !is_continuation_byte(bytes[2]) {
        2
    } else {
        3
    }
}

/// Where the context of a highlight that starts at `start` begins.
pub open spec fn context_floor(start: int) -> int {
    if start <= CONTEXT_LEN {
        0
    } else {
        start - CONTEXT_LEN
    }
}

/// Where the summary of an entry begins: a bit before the highlight, at the
/// start of a character.
pub open spec fn summary_start(loaded: Seq<u8>, highlight: Option<(usize, usize)>) -> int {
    match highlight {
        None => 0,
        Some((start, _)) => context_floor(start as int) + leading_continuations(
            loaded.skip(context_floor(start as int)),
        ),
    }
}

/// The bytes that the summary is made of.
pub open spec fn summary_bytes(loaded: Seq<u8>, highlight: Option<(usize, usize)>) -> Seq<u8> {
    let rest = loaded.skip(summary_start(loaded, highlight));
    if rest.len() <= SUMMARY_LEN {
        rest
    } else {
        rest.take(SUMMARY_LEN as int)
    }
}

/// Whether bytes were left out after the summary.
pub open spec fn is_cut(loaded: Seq<u8>, highlight: Option<(usize, usize)>) -> bool {
    loaded.len() - summary_start(loaded, highlight) > SUMMARY_LEN
}

/// What the line starts with: an ellipsis if something was left out before it.
pub open spec fn line_prefix(loaded: Seq<u8>, highlight: Option<(usize, usize)>) -> Seq<char> {
    if summary_start(loaded, highlight) > 0 {
        seq!['…']
    } else {
        seq![]
    }
}

/// The text of the summary, if the entry is text.
pub open spec fn summary_text(loaded: Seq<u8>, highlight: Option<(usize, usize)>) -> Option<
    Seq<char>,
> {
    crate::text::spec_lenient_text(summary_bytes(loaded, highlight))
}

/// The line that is shown.
pub open spec fn summary_line(
    loaded: Seq<u8>,
    highlight: Option<(usize, usize)>,
    text: Seq<char>,
) -> Seq<char> {
    let line = squeeze(line_prefix(loaded, highlight), text);
    if is_cut(loaded, highlight) {
        line.push('…')
    } else {
        line
    }
}

/// Where a position in the entry is found in the line that is shown.
pub open spec fn line_position(
    loaded: Seq<u8>,
    highlight: Option<(usize, usize)>,
    text: Seq<char>,
    at: usize,
) -> int {
    let prefix = line_prefix(loaded, highlight);
    squeeze_position(prefix, text, at - summary_start(loaded, highlight) + byte_len(prefix))
}

/// The start of the character that a position is in, within the bytes.
pub open spec fn floor_boundary(bytes: Seq<u8>, at: int) -> int
    decreases at,
{
    if at <= 0 {
        0
    } else if at >= bytes.len() {
        bytes.len() as int
    } else if is_char_boundary(bytes, at) {
        at
    } else {
        floor_boundary(bytes, at - 1)
    }
}

/// The end of the character that a position is in, within the bytes.
pub open spec fn ceil_boundary(bytes: Seq<u8>, at: int) -> int
    decreases bytes.len() - at,
{
    if at <= 0 {
        0
    } else if at >= bytes.len() {
        bytes.len() as int
    } else if is_char_boundary(bytes, at) {
        at
    } else {
        ceil_boundary(bytes, at + 1)
    }
}

/// The part of the line that stands out: the highlight, with every character that it
/// covers a part of taken in whole. The ellipsis at the end is such a character.
pub open spec fn shown_highlight(
    loaded: Seq<u8>,
    start: usize,
    end: usize,
    text: Seq<char>,
) -> (int, int) {
    let highlight = Some((start, end));
    let line = encode_utf8(summary_line(loaded, highlight, text));
    let from = floor_boundary(line, line_position(loaded, highlight, text, start));
    let to = ceil_boundary(line, line_position(loaded, highlight, text, end));
    (
        from,
        if from <= to {
            to
        } else {
            from
        },
    )
}

/// Whether the context of a highlight starts within the entry.
pub open spec fn is_near(loaded: Seq<u8>, highlight: Option<(usize, usize)>) -> bool {
    highlight matches Some((start, _)) ==> context_floor(start as int) <= loaded.len()
}

/// Whether a mime type is that of an image.
pub open spec fn is_image(mime_type: Seq<char>) -> bool {
    crate::text::spec_starts_with(encode_utf8(mime_type), encode_utf8("image/"@))
}

proof fn lemma_ellipsis_len()
    ensures
        crate::text::spec_utf8_len('…') == 3,
        byte_len(seq!['…']) == 3,
        byte_len(seq![]) == 0,
        crate::text::spec_utf8_len(' ') == 1,
{
    reveal_with_fuel(encode_utf8, 2);
    assert(seq!['…'].drop_first() =~= Seq::<char>::empty());
    assert('…' as u32 == 0x2026);
    assert(' ' as u32 == 0x20);
}

proof fn lemma_squeeze_char(line: Seq<char>, c: char)
    ensures
        byte_len(squeeze_char(line, c)) == byte_len(line) + if !crate::text::spec_is_whitespace(c) {
            crate::text::spec_utf8_len(c) as int
        } else if line.len() == 0 || line.last() == ' ' {
            0
        } else {
            1
        },
        byte_len(line) <= byte_len(squeeze_char(line, c)) <= byte_len(line)
            + crate::text::spec_utf8_len(c),
{
    lemma_ellipsis_len();
    crate::text::lemma_encode_push(line, c);
    crate::text::lemma_encode_push(line, ' ');
}

proof fn lemma_squeeze_position_bound(line: Seq<char>, text: Seq<char>, at: int)
    ensures
        squeeze_position(line, text, at) <= at,
        squeeze_position(line, text, at) >= if at < -4 {
            at
        } else {
            -4
        },
    decreases text.len(),
{
    if text.len() > 0 {
        lemma_squeeze_position_bound(line, text.drop_last(), at);
        lemma_squeeze_char(squeeze(line, text.drop_last()), text.last());
    }
}

/// A position in the line, moved back if something is lost in front of it.
fn shift(line_len: usize, at: i128, lost: usize) -> (shifted: i128)
    requires
        at >= -0x1_0000_0000_0000_0000,
        lost <= 4,
    ensures
        shifted == if line_len < at {
            at - lost
        } else {
            at as int
        },
{
    if (line_len as i128) < at {
        at - lost as i128
    } else {
        at
    }
}

/// The byte that the context of a highlight starts at.
fn skip_continuations(bytes: &[u8]) -> (skipped: usize)
    ensures
        skipped == leading_continuations(bytes@),
        skipped <= bytes@.len(),
{
    let mut skipped: usize = 0;
    while skipped < 3 && skipped < bytes.len()
        invariant_except_break
            skipped <= 3,
            skipped <= bytes@.len(),
            forall|i: int| 0 <= i < skipped ==> is_continuation_byte(#[trigger] bytes@[i]),
        ensures
            skipped <= bytes@.len(),
            skipped == leading_continuations(bytes@),
        decreases 3 - skipped,
    {
        let b: u8 = bytes[skipped];
        if b < 0x80 || b > 0xbf {
            break;
        }
        skipped += 1;
    }
    skipped
}

/// The line with a text appended, and the highlight that goes with it.
fn squeeze_text(line: String, text: &str, highlight: Option<(i128, i128)>) -> (out: (
    String,
    Option<(i128, i128)>,
))
    requires
        highlight matches Some((start, end)) ==> start >= -0x1_0000_0000_0000_0000 && end
            >= -0x1_0000_0000_0000_0000,
    ensures
        out.0@ == squeeze(line@, text@),
        match (highlight, out.1) {
            (None, None) => true,
            (Some((start, end)), Some((new_start, new_end))) => {
                &&& new_start == squeeze_position(line@, text@, start as int)
                &&& new_end == squeeze_position(line@, text@, end as int)
            },
            _ => false,
        },
{
    let ghost prefix = line@;
    let mut line = line;
    let mut highlight_now = highlight;
    for c in it: text.chars()
        invariant
            it.seq() == text@,
            line@ == squeeze(prefix, text@.take(it.index())),
            highlight matches Some((start, end)) ==> start >= -0x1_0000_0000_0000_0000 && end
                >= -0x1_0000_0000_0000_0000,
            match (highlight, highlight_now) {
                (None, None) => true,
                (Some((start, end)), Some((new_start, new_end))) => {
                    &&& new_start == squeeze_position(
                        prefix,
                        text@.take(it.index()),
                        start as int,
                    )
                    &&& new_end == squeeze_position(prefix, text@.take(it.index()), end as int)
                },
                _ => false,
            },
    {
        let ghost i = it.index();
        let ghost before = line@;
        proof {
            let longer = text@.take(i + 1);
            assert(longer.drop_last() =~= text@.take(i));
            assert(longer.last() == c);
            lemma_squeeze_char(before, c);
            lemma_ellipsis_len();
            if let Some((start, end)) = highlight {
                lemma_squeeze_position_bound(prefix, text@.take(i), start as int);
                lemma_squeeze_position_bound(prefix, text@.take(i), end as int);
            }
        }
        let line_len: usize = line.as_str().as_bytes().len();
        let whitespace = is_whitespace(c);
        let at_gap = ends_in_gap(line.as_str());
        let lost: usize = if !whitespace {
            0
        } else if at_gap {
            utf8_len(c)
        } else {
            utf8_len(c) - 1
        };
        if let Some((start, end)) = highlight_now {
            highlight_now = Some((shift(line_len, start, lost), shift(line_len, end, lost)));
        }
        if whitespace {
            if !at_gap {
                line.push(' ');
            }
        } else {
            line.push(c);
        }
    }
    assert(text@.take(text@.len() as int) =~= text@);
    (line, highlight_now)
}

/// Whether a line is empty or ends with a space.
fn ends_in_gap(line: &str) -> (gap: bool)
    ensures
        gap == (line@.len() == 0 || line@.last() == ' '),
{
    let len: usize = line.unicode_len();
    len == 0 || line.get_char(len - 1) == ' '
}

/// Where the summary of an entry begins, and the bytes that it is made of.
fn summary_part<'a>(loaded: &'a [u8], highlight: Option<(usize, usize)>) -> (part: (
    usize,
    &'a [u8],
))
    requires
        is_near(loaded@, highlight),
    ensures
        part.0 == summary_start(loaded@, highlight),
        part.0 <= loaded@.len(),
        part.1@ == summary_bytes(loaded@, highlight),
{
    let first: usize = match highlight {
        None => 0,
        Some((start, _)) => {
            let floor: usize = start.saturating_sub(CONTEXT_LEN);
            let rest = vstd::slice::slice_subrange(loaded, floor, loaded.len());
            assert(rest@ =~= loaded@.skip(floor as int));
            floor + skip_continuations(rest)
        },
    };
    let rest: usize = loaded.len() - first;
    let kept: usize = if rest <= SUMMARY_LEN {
        rest
    } else {
        SUMMARY_LEN
    };
    let bytes = vstd::slice::slice_subrange(loaded, first, first + kept);
    assert(bytes@ =~= summary_bytes(loaded@, highlight));
    (first, bytes)
}

/// The line without the ellipsis at its end, and the highlight in it.
fn summarize(
    loaded: &[u8],
    highlight: Option<(usize, usize)>,
    first: usize,
    text: &str,
) -> (summary: (String, Option<(i128, i128)>))
    requires
        first == summary_start(loaded@, highlight),
    ensures
        summary.0@ == squeeze(line_prefix(loaded@, highlight), text@),
        match (highlight, summary.1) {
            (None, None) => true,
            (Some((start, end)), Some((new_start, new_end))) => {
                &&& new_start == line_position(loaded@, highlight, text@, start)
                &&& new_end == line_position(loaded@, highlight, text@, end)
            },
            _ => false,
        },
{
    let mut line = String::new();
    let mut prefix_len: i128 = 0;
    if first != 0 {
        line.push('…');
        prefix_len = 3;
    }
    proof {
        lemma_ellipsis_len();
        assert(line@ =~= line_prefix(loaded@, highlight));
    }
    let moved: Option<(i128, i128)> = match highlight {
        None => None,
        Some((start, end)) => Some(
            (
                start as i128 - first as i128 + prefix_len,
                end as i128 - first as i128 + prefix_len,
            ),
        ),
    };
    squeeze_text(line, text, moved)
}

proof fn lemma_floor_boundary(bytes: Seq<u8>, at: int)
    requires
        valid_utf8(bytes),
    ensures
        0 <= floor_boundary(bytes, at) <= bytes.len(),
        is_char_boundary(bytes, floor_boundary(bytes, at)),
    decreases at,
{
    is_char_boundary_start_end_of_seq(bytes);
    if 0 < at < bytes.len() && !is_char_boundary(bytes, at) {
        lemma_floor_boundary(bytes, at - 1);
    }
}

proof fn lemma_ceil_boundary(bytes: Seq<u8>, at: int)
    requires
        valid_utf8(bytes),
    ensures
        0 <= ceil_boundary(bytes, at) <= bytes.len(),
        is_char_boundary(bytes, ceil_boundary(bytes, at)),
    decreases bytes.len() - at,
{
    is_char_boundary_start_end_of_seq(bytes);
    if 0 < at < bytes.len() && !is_char_boundary(bytes, at) {
        lemma_ceil_boundary(bytes, at + 1);
    }
}

/// The start of the character that a position of a line is in.
fn line_floor(line: &str, at: i128) -> (floor: usize)
    ensures
        floor == floor_boundary(encode_utf8(line@), at as int),
{
    let len: usize = line.as_bytes().len();
    if at <= 0 {
        return 0;
    }
    if at >= len as i128 {
        return len;
    }
    let mut i: usize = at as usize;
    while i > 0 && !line.is_char_boundary(i)
        invariant
            i < len == encode_utf8(line@).len(),
            floor_boundary(encode_utf8(line@), i as int) == floor_boundary(
                encode_utf8(line@),
                at as int,
            ),
        decreases i,
    {
        i -= 1;
    }
    i
}

/// The end of the character that a position of a line is in.
fn line_ceil(line: &str, at: i128) -> (ceil: usize)
    ensures
        ceil == ceil_boundary(encode_utf8(line@), at as int),
{
    let len: usize = line.as_bytes().len();
    if at <= 0 {
        return 0;
    }
    if at >= len as i128 {
        return len;
    }
    let mut i: usize = at as usize;
    while i < len && !line.is_char_boundary(i)
        invariant
            0 < i <= len == encode_utf8(line@).len(),
            ceil_boundary(encode_utf8(line@), i as int) == ceil_boundary(
                encode_utf8(line@),
                at as int,
            ),
        decreases len - i,
    {
        i += 1;
    }
    i
}

/// What is shown of an entry with the given contents and mime type.
///
/// Images are only named as such. Text is cut to a line around the highlight,
/// with the whitespace squeezed; what is not text is shown by its mime type.
#[must_use]
pub fn ui_entry_(
    entry: Entry,
    loaded: &[u8],
    mime_type: &str,
    highlight: Option<(usize, usize)>,
) -> (shown: UiEntry)
    requires
        !is_image(mime_type@) ==> is_near(loaded@, highlight),
    ensures
        shown.entry == entry,
        is_image(mime_type@) ==> shown.cache is Image,
        !is_image(mime_type@) ==> match summary_text(loaded@, highlight) {
            None => shown.cache matches UiEntryCache::Binary { mime_type: shown_type }
                && shown_type@ == mime_type@,
            Some(text) => match highlight {
                None => shown.cache matches UiEntryCache::Text { one_liner } && one_liner@
                    == summary_line(loaded@, highlight, text),
                Some((start, end)) => shown.cache matches UiEntryCache::HighlightedText {
                    one_liner,
                    start: shown_start,
                    end: shown_end,
                } && {
                    &&& one_liner@ == summary_line(loaded@, highlight, text)
                    &&& (shown_start as int, shown_end as int) == shown_highlight(
                        loaded@,
                        start,
                        end,
                        text,
                    )
                    &&& shown_start <= shown_end <= encode_utf8(one_liner@).len()
                    &&& is_char_boundary(encode_utf8(one_liner@), shown_start as int)
                    &&& is_char_boundary(encode_utf8(one_liner@), shown_end as int)
                },
            },
        },
{
    if starts_with(mime_type.as_bytes(), "image/".as_bytes()) {
        return UiEntry { entry, cache: UiEntryCache::Image };
    }
    let (first, bytes) = summary_part(loaded, highlight);
    let text = match lenient_text(bytes) {
        None => {
            return UiEntry {
                entry,
                cache: UiEntryCache::Binary { mime_type: mime_type.to_owned() },
            };
        },
        Some(text) => text,
    };
    let (mut line, moved) = summarize(loaded, highlight, first, text);
    if loaded.len() - first > SUMMARY_LEN {
        line.push('…');
    }
    assert(line@ == summary_line(loaded@, highlight, text@));
    match moved {
        None => UiEntry { entry, cache: UiEntryCache::Text { one_liner: line } },
        Some((start, end)) => {
            let from: usize = line_floor(line.as_str(), start);
            let to: usize = line_ceil(line.as_str(), end);
            proof {
                encode_utf8_valid_utf8(line@);
                lemma_floor_boundary(encode_utf8(line@), start as int);
                lemma_ceil_boundary(encode_utf8(line@), end as int);
            }
            UiEntry {
                entry,
                cache: UiEntryCache::HighlightedText {
                    one_liner: line,
                    start: from,
                    end: if from <= to {
                        to
                    } else {
                        from
                    },
                },
            }
        },
    }
}

/// Squeezing only appends to a line.
proof fn lemma_squeeze_appends(line: Seq<char>, text: Seq<char>, n: int)
    requires
        0 <= n <= text.len(),
    ensures
        squeeze(line, text.take(n)).len() <= squeeze(line, text).len(),
        squeeze(line, text).take(squeeze(line, text.take(n)).len() as int) == squeeze(
            line,
            text.take(n),
        ),
    decreases text.len(),
{
    if n == text.len() {
        assert(text.take(n) =~= text);
        assert(squeeze(line, text).take(squeeze(line, text).len() as int) =~= squeeze(line, text));
    } else {
        let front = text.drop_last();
        lemma_squeeze_appends(line, front, n);
        assert(front.take(n) =~= text.take(n));
        let short = squeeze(line, text.take(n));
        let all = squeeze(line, text);
        assert(all.take(short.len() as int) =~= squeeze(line, front).take(short.len() as int));
    }
}

/// A position between two characters of a text stays between them.
proof fn lemma_squeeze_position(line: Seq<char>, text: Seq<char>, n: int, m: int)
    requires
        0 <= n <= text.len(),
        0 <= m <= text.len(),
    ensures
        ({
            let at = byte_len(line) + byte_len(text.take(n));
            let moved = squeeze_position(line, text.take(m), at);
            if m <= n {
                moved == byte_len(squeeze(line, text.take(m))) + byte_len(text.take(n)) - byte_len(
                    text.take(m),
                )
            } else {
                moved == byte_len(squeeze(line, text.take(n)))
            }
        }),
    decreases m,
{
    let at = byte_len(line) + byte_len(text.take(n));
    if m == 0 {
        assert(text.take(0) =~= Seq::<char>::empty());
        lemma_ellipsis_len();
    } else {
        lemma_squeeze_position(line, text, n, m - 1);
        let shorter = text.take(m - 1);
        let c = text[m - 1];
        assert(text.take(m).drop_last() =~= shorter);
        assert(text.take(m).last() == c);
        assert(text.take(m) =~= shorter.push(c));
        crate::text::lemma_encode_push(shorter, c);
        let before = squeeze(line, shorter);
        lemma_squeeze_char(before, c);
        if m <= n {
            lemma_byte_len_take(text, m, n);
            assert(byte_len(before) < squeeze_position(line, shorter, at));
        } else {
            lemma_squeeze_appends(line, shorter, n);
            assert(shorter.take(n) =~= text.take(n));
            lemma_byte_len_take(before, squeeze(line, text.take(n)).len() as int, before.len() as int);
            assert(before.take(before.len() as int) =~= before);
        }
    }
}

proof fn lemma_byte_len_take(text: Seq<char>, n: int, m: int)
    requires
        0 <= n <= m <= text.len(),
    ensures
        byte_len(text.take(n)) <= byte_len(text.take(m)),
    decreases m - n,
{
    if n < m {
        lemma_byte_len_take(text, n, m - 1);
        assert(text.take(m) =~= text.take(m - 1).push(text[m - 1]));
        crate::text::lemma_encode_push(text.take(m - 1), text[m - 1]);
    }
}

/// A position after the end of a text moves with the end.
proof fn lemma_squeeze_position_past_end(line: Seq<char>, text: Seq<char>, k: int)
    requires
        k >= 0,
    ensures
        squeeze_position(line, text, byte_len(line) + byte_len(text) + k) == byte_len(
            squeeze(line, text),
        ) + k,
    decreases text.len(),
{
    if text.len() == 0 {
        lemma_ellipsis_len();
        assert(text =~= Seq::<char>::empty());
    } else {
        let front = text.drop_last();
        let c = text.last();
        assert(text =~= front.push(c));
        crate::text::lemma_encode_push(front, c);
        lemma_squeeze_position_past_end(line, front, k + crate::text::spec_utf8_len(c));
        lemma_squeeze_char(squeeze(line, front), c);
    }
}

/// The end of the encoding of a prefix is a character boundary.
proof fn lemma_prefix_boundary(a: Seq<char>, b: Seq<char>)
    ensures
        is_char_boundary(encode_utf8(a + b), encode_utf8(a).len() as int),
    decreases a.len(),
{
    let all = encode_utf8(a + b);
    encode_utf8_valid_utf8(a + b);
    if a.len() > 0 {
        encode_utf8_first_scalar(a + b);
        assert((a + b).drop_first() =~= a.drop_first() + b);
        assert(pop_first_scalar(all) =~= encode_utf8(a.drop_first() + b));
        lemma_prefix_boundary(a.drop_first(), b);
    }
}

/// No more than three bytes in a row are in the middle of characters.
proof fn lemma_continuations_bounded(bytes: Seq<u8>, i: int)
    requires
        valid_utf8(bytes),
        0 <= i,
        i + 3 < bytes.len(),
    ensures
        !(is_continuation_byte(bytes[i]) && is_continuation_byte(bytes[i + 1])
            && is_continuation_byte(bytes[i + 2]) && is_continuation_byte(bytes[i + 3])),
    decreases bytes.len(),
{
    let n = length_of_first_scalar(bytes);
    let rest = pop_first_scalar(bytes);
    if i >= n {
        lemma_continuations_bounded(rest, i - n);
        assert(rest[i - n] == bytes[i] && rest[i - n + 1] == bytes[i + 1] && rest[i - n + 2]
            == bytes[i + 2] && rest[i - n + 3] == bytes[i + 3]);
    } else if i > 0 {
        reveal_with_fuel(valid_utf8, 2);
        assert(rest.len() > 0);
        assert(rest[0] == bytes[n]);
        assert(valid_first_scalar(rest));
    }
}

/// How far a cut text decodes: up to the last character that is whole.
proof fn lemma_valid_up_to_cut(bytes: Seq<u8>, m: int, b: int)
    requires
        valid_utf8(bytes),
        0 <= m <= bytes.len(),
        is_char_boundary(bytes, b),
        b <= m,
    ensures
        0 <= b <= crate::text::valid_up_to(bytes.take(m)) <= m,
        is_char_boundary(bytes, crate::text::valid_up_to(bytes.take(m)) as int),
    decreases bytes.len(),
{
    let cut = bytes.take(m);
    if bytes.len() > 0 {
        let n = length_of_first_scalar(bytes);
        let rest = pop_first_scalar(bytes);
        if m >= n {
            assert(valid_first_scalar(cut));
            assert(pop_first_scalar(cut) =~= rest.take(m - n));
            if b > 0 {
                lemma_boundary_after_first(bytes, b);
                lemma_valid_up_to_cut(rest, m - n, b - n);
            } else {
                lemma_valid_up_to_cut(rest, m - n, 0);
            }
        } else {
            if b > 0 {
                lemma_boundary_after_first(bytes, b);
            }
            assert(!valid_first_scalar(cut));
        }
    }
}

proof fn lemma_boundary_after_first(bytes: Seq<u8>, b: int)
    requires
        valid_utf8(bytes),
        bytes.len() > 0,
        b > 0,
        is_char_boundary(bytes, b),
    ensures
        b >= length_of_first_scalar(bytes),
        b <= bytes.len(),
        is_char_boundary(pop_first_scalar(bytes), b - length_of_first_scalar(bytes)),
{
    reveal_with_fuel(is_char_boundary, 2);
}

/// A boundary of a text is a boundary of a part that holds it and is cut at
/// boundaries itself.
proof fn lemma_boundary_of_part(bytes: Seq<u8>, from: int, to: int, at: int)
    requires
        valid_utf8(bytes),
        is_char_boundary(bytes, from),
        is_char_boundary(bytes, to),
        is_char_boundary(bytes, at),
        0 <= from <= at <= to <= bytes.len(),
    ensures
        valid_utf8(bytes.subrange(from, to)),
        is_char_boundary(bytes.subrange(from, to), at - from),
{
    let rest = bytes.subrange(from, bytes.len() as int);
    valid_utf8_split(bytes, from);
    assert(valid_utf8(rest));
    lemma_boundary_of_rest(bytes, from, to);
    lemma_boundary_of_rest(bytes, from, at);
    valid_utf8_split(rest, to - from);
    let part = bytes.subrange(from, to);
    assert(part =~= rest.subrange(0, to - from));
    is_char_boundary_start_end_of_seq(part);
    if at < to {
        is_char_boundary_iff_not_is_continuation_byte(bytes, at);
        is_char_boundary_iff_not_is_continuation_byte(part, at - from);
        assert(part[at - from] == bytes[at]);
    }
}

proof fn lemma_boundary_of_rest(bytes: Seq<u8>, from: int, at: int)
    requires
        valid_utf8(bytes),
        is_char_boundary(bytes, from),
        is_char_boundary(bytes, at),
        0 <= from <= at <= bytes.len(),
    ensures
        is_char_boundary(bytes.subrange(from, bytes.len() as int), at - from),
{
    let rest = bytes.subrange(from, bytes.len() as int);
    valid_utf8_split(bytes, from);
    is_char_boundary_start_end_of_seq(rest);
    if at < bytes.len() {
        is_char_boundary_iff_not_is_continuation_byte(bytes, at);
        is_char_boundary_iff_not_is_continuation_byte(rest, at - from);
        assert(rest[at - from] == bytes[at]);
    }
}

/// A boundary of an encoded text lies after some number of characters.
proof fn lemma_chars_before(bytes: Seq<u8>, at: int) -> (n: int)
    requires
        valid_utf8(bytes),
        is_char_boundary(bytes, at),
        0 <= at <= bytes.len(),
    ensures
        0 <= n <= decode_utf8(bytes).len(),
        byte_len(decode_utf8(bytes).take(n)) == at,
{
    decode_utf8_split(bytes, at);
    valid_utf8_split(bytes, at);
    let front = decode_utf8(bytes.subrange(0, at));
    decode_utf8_encode_utf8(bytes.subrange(0, at));
    assert(decode_utf8(bytes).take(front.len() as int) =~= front);
    front.len() as int
}

/// What is left of a valid text after the summary has started is valid, and the
/// summary starts no later than the highlight.
proof fn lemma_summary_start(loaded: Seq<u8>, start: usize, end: usize)
    requires
        valid_utf8(loaded),
        is_char_boundary(loaded, start as int),
        start <= end <= loaded.len(),
    ensures
        ({
            let first = summary_start(loaded, Some((start, end)));
            &&& 0 <= first <= start
            &&& start - first <= CONTEXT_LEN
            &&& is_char_boundary(loaded, first)
        }),
{
    let floor = context_floor(start as int);
    let rest = loaded.skip(floor);
    let k = leading_continuations(rest);
    let first = floor + k;
    is_char_boundary_start_end_of_seq(loaded);
    assert(forall|i: int| 0 <= i < rest.len() ==> #[trigger] rest[i] == loaded[floor + i]);
    assert(0 <= k <= rest.len());
    if k == 3 && floor + 3 < loaded.len() {
        lemma_continuations_bounded(loaded, floor);
    }
    if first < loaded.len() {
        is_char_boundary_iff_not_is_continuation_byte(loaded, first);
    }
    if start < first {
        is_char_boundary_iff_not_is_continuation_byte(loaded, start as int);
        assert(is_continuation_byte(rest[start - floor]));
    }
}

/// The summary of a valid text decodes, up to a character boundary that lies
/// after the start of the highlight.
proof fn lemma_summary_text(loaded: Seq<u8>, start: usize, end: usize) -> (kept: int)
    requires
        valid_utf8(loaded),
        start <= end <= loaded.len(),
        is_char_boundary(loaded, start as int),
        is_char_boundary(loaded, end as int),
    ensures
        ({
            let highlight = Some((start, end));
            let first = summary_start(loaded, highlight);
            let rest = loaded.skip(first);
            &&& 0 <= first <= start
            &&& valid_utf8(rest)
            &&& start - first <= kept <= rest.len()
            &&& is_char_boundary(rest, kept)
            &&& is_char_boundary(rest, start - first)
            &&& is_char_boundary(rest, end - first)
            &&& valid_utf8(rest.take(kept))
            &&& summary_text(loaded, highlight) == Some(decode_utf8(rest.take(kept)))
            &&& !is_cut(loaded, highlight) ==> kept == rest.len()
        }),
{
    let highlight = Some((start, end));
    lemma_summary_start(loaded, start, end);
    let first = summary_start(loaded, highlight);
    let rest = loaded.skip(first);
    assert(rest =~= loaded.subrange(first, loaded.len() as int));
    valid_utf8_split(loaded, first);
    lemma_boundary_of_rest(loaded, first, start as int);
    lemma_boundary_of_rest(loaded, first, end as int);
    let cut = summary_bytes(loaded, highlight);
    let m = cut.len() as int;
    assert(cut =~= rest.take(m));
    lemma_valid_up_to_cut(rest, m, start - first);
    let kept = crate::text::valid_up_to(cut) as int;
    crate::text::lemma_valid_up_to(cut);
    assert(cut.take(kept) =~= rest.take(kept));
    if valid_utf8(cut) {
        lemma_valid_up_to_whole(cut);
        assert(rest.take(kept) =~= cut);
    } else {
        assert(cut + rest.skip(m) =~= rest);
        assert(crate::text::ends_early(cut));
    }
    if !is_cut(loaded, highlight) {
        assert(cut =~= rest);
    }
    kept
}

/// A boundary within the text that is shown is found again in the line.
proof fn lemma_position_in_line(prefix: Seq<char>, bytes: Seq<u8>, kept: int, at: int) -> (n: int)
    requires
        valid_utf8(bytes),
        is_char_boundary(bytes, kept),
        is_char_boundary(bytes, at),
        0 <= at <= kept <= bytes.len(),
    ensures
        ({
            let text = decode_utf8(bytes.take(kept));
            &&& 0 <= n <= text.len()
            &&& byte_len(text.take(n)) == at
            &&& squeeze_position(prefix, text, at + byte_len(prefix)) == byte_len(
                squeeze(prefix, text.take(n)),
            )
        }),
{
    let shown = bytes.take(kept);
    let text = decode_utf8(shown);
    assert(shown =~= bytes.subrange(0, kept));
    is_char_boundary_start_end_of_seq(bytes);
    lemma_boundary_of_part(bytes, 0, kept, at);
    let n = lemma_chars_before(shown, at);
    assert(text.take(text.len() as int) =~= text);
    lemma_squeeze_position(prefix, text, n, text.len() as int);
    n
}

/// Of two places in a text, the later one is not shown before the earlier one.
proof fn lemma_line_order(prefix: Seq<char>, text: Seq<char>, n: int, k: int)
    requires
        0 <= n <= text.len(),
        0 <= k <= text.len(),
        byte_len(text.take(n)) <= byte_len(text.take(k)),
    ensures
        byte_len(squeeze(prefix, text.take(n))) <= byte_len(squeeze(prefix, text.take(k))),
{
    if k < n {
        lemma_byte_len_take(text, k + 1, n);
        assert(text.take(k + 1) =~= text.take(k).push(text[k]));
        crate::text::lemma_encode_push(text.take(k), text[k]);
    } else {
        let longer = squeeze(prefix, text.take(k));
        lemma_squeeze_appends(prefix, text.take(k), n);
        assert(text.take(k).take(n) =~= text.take(n));
        lemma_byte_len_take(
            longer,
            squeeze(prefix, text.take(n)).len() as int,
            longer.len() as int,
        );
        assert(longer.take(longer.len() as int) =~= longer);
    }
}

/// Whether the part of the line that stands out covers whole characters of it.
pub open spec fn is_shown_whole(loaded: Seq<u8>, start: usize, end: usize) -> bool {
    let highlight = Some((start, end));
    summary_text(loaded, highlight) matches Some(text) ==> {
        let line = encode_utf8(summary_line(loaded, highlight, text));
        let (from, to) = shown_highlight(loaded, start, end, text);
        &&& 0 <= from <= to <= line.len()
        &&& is_char_boundary(line, from)
        &&& is_char_boundary(line, to)
    }
}

/// Whatever an entry holds and wherever the highlight is, what stands out in the line
/// can be cut out of it.
pub proof fn lemma_highlight_is_shown(loaded: Seq<u8>, start: usize, end: usize)
    ensures
        is_shown_whole(loaded, start, end),
{
    let highlight = Some((start, end));
    if let Some(text) = summary_text(loaded, highlight) {
        let line = encode_utf8(summary_line(loaded, highlight, text));
        encode_utf8_valid_utf8(summary_line(loaded, highlight, text));
        lemma_floor_boundary(line, line_position(loaded, highlight, text, start));
        lemma_ceil_boundary(line, line_position(loaded, highlight, text, end));
    }
}

/// Whether a highlight covers whole characters of the text that is shown, or ends
/// after it.
pub open spec fn covers_characters(loaded: Seq<u8>, start: usize, end: usize) -> bool {
    let highlight = Some((start, end));
    let first = summary_start(loaded, highlight);
    &&& first <= start <= end
    &&& summary_text(loaded, highlight) matches Some(text) ==> {
        let shown = encode_utf8(text);
        &&& is_char_boundary(shown, start - first)
        &&& end - first <= shown.len() ==> is_char_boundary(shown, end - first)
    }
}

/// How many characters of a text end at or before a position.
pub open spec fn is_after(text: Seq<char>, at: int, n: int) -> bool {
    0 <= n <= text.len() && byte_len(text.take(n)) == at
}

/// What stands out in the line is what was highlighted in the entry: the characters of
/// it that are shown, squeezed as the others are, and the ellipsis if it goes on after
/// the end of the line.
pub proof fn lemma_highlight_is_exact(loaded: Seq<u8>, start: usize, end: usize)
    requires
        end <= loaded.len(),
        covers_characters(loaded, start, end),
    ensures
        summary_text(loaded, Some((start, end))) matches Some(text) ==> {
            let highlight = Some((start, end));
            let first = summary_start(loaded, highlight);
            let prefix = line_prefix(loaded, highlight);
            let line = encode_utf8(summary_line(loaded, highlight, text));
            let (from, to) = shown_highlight(loaded, start, end, text);
            &&& exists|n: int| #[trigger]
                is_after(text, start - first, n) && from == byte_len(squeeze(prefix, text.take(n)))
            &&& if end - first <= byte_len(text) {
                exists|k: int| #[trigger]
                    is_after(text, end - first, k) && to == byte_len(squeeze(prefix, text.take(k)))
            } else {
                to == line.len()
            }
        },
{
    let highlight = Some((start, end));
    let first = summary_start(loaded, highlight);
    if let Some(text) = summary_text(loaded, highlight) {
        let shown = encode_utf8(text);
        let kept = shown.len() as int;
        encode_utf8_valid_utf8(text);
        encode_utf8_decode_utf8(text);
        is_char_boundary_start_end_of_seq(shown);
        assert(shown.take(kept) =~= shown);
        let prefix = line_prefix(loaded, highlight);
        let line = summary_line(loaded, highlight, text);
        let n = lemma_position_in_line(prefix, shown, kept, start - first);
        lemma_line_boundary(prefix, text, n, line);
        assert(is_after(text, start - first, n));
        if end - first <= kept {
            let k = lemma_position_in_line(prefix, shown, kept, end - first);
            lemma_line_boundary(prefix, text, k, line);
            lemma_line_order(prefix, text, n, k);
            assert(is_after(text, end - first, k));
        } else {
            let squeezed = squeeze(prefix, text);
            lemma_ellipsis_len();
            crate::text::lemma_encode_push(squeezed, '…');
            lemma_squeeze_position_past_end(prefix, text, end - first - kept);
            let to = line_position(loaded, highlight, text, end);
            assert(to == byte_len(squeezed) + (end - first - kept));
            lemma_ceil_in_last(squeezed, to);
        }
    }
}

/// A position after a line but within the ellipsis that follows it ends with the
/// ellipsis.
proof fn lemma_ceil_in_last(line: Seq<char>, at: int)
    requires
        byte_len(line) < at,
    ensures
        ceil_boundary(encode_utf8(line), at) == encode_utf8(line).len(),
        ceil_boundary(encode_utf8(line.push('…')), at) == encode_utf8(line.push('…')).len(),
    decreases byte_len(line) + 3 - at,
{
    let all = line.push('…');
    let bytes = encode_utf8(all);
    lemma_ellipsis_len();
    crate::text::lemma_encode_push(line, '…');
    if at < bytes.len() {
        lemma_inside_last(line, at);
        lemma_ceil_in_last(line, at + 1);
    }
}

proof fn lemma_inside_last(line: Seq<char>, at: int)
    requires
        byte_len(line) < at < byte_len(line) + 3,
    ensures
        !is_char_boundary(encode_utf8(line.push('…')), at),
{
    let all = line.push('…');
    let bytes = encode_utf8(all);
    lemma_ellipsis_len();
    crate::text::lemma_encode_push(line, '…');
    encode_utf8_valid_utf8(all);
    if is_char_boundary(bytes, at) {
        encode_utf8_decode_utf8(all);
        let n = lemma_chars_before(bytes, at);
        if n < all.len() {
            lemma_byte_len_take(all, n, line.len() as int);
            assert(all.take(line.len() as int) =~= line);
        } else {
            assert(all.take(n) =~= all);
        }
    }
}

/// A highlight that covers whole characters of a text covers whole characters
/// of the line that is shown, and the line shows what was highlighted.
pub proof fn lemma_highlight_on_boundaries(loaded: Seq<u8>, start: usize, end: usize)
    requires
        valid_utf8(loaded),
        start <= end <= loaded.len(),
        is_char_boundary(loaded, start as int),
        is_char_boundary(loaded, end as int),
    ensures
        summary_text(loaded, Some((start, end))) is Some,
        is_shown_whole(loaded, start, end),
        covers_characters(loaded, start, end),
{
    let highlight = Some((start, end));
    let kept = lemma_summary_text(loaded, start, end);
    let first = summary_start(loaded, highlight);
    let rest = loaded.skip(first);
    let shown = rest.take(kept);
    decode_utf8_encode_utf8(shown);
    is_char_boundary_start_end_of_seq(rest);
    assert(shown =~= rest.subrange(0, kept));
    lemma_boundary_of_part(rest, 0, kept, start - first);
    if end - first <= kept {
        lemma_boundary_of_part(rest, 0, kept, end - first);
    }
    lemma_highlight_is_shown(loaded, start, end);
}

proof fn lemma_valid_up_to_whole(bytes: Seq<u8>)
    requires
        valid_utf8(bytes),
    ensures
        crate::text::valid_up_to(bytes) == bytes.len(),
    decreases bytes.len(),
{
    if bytes.len() > 0 {
        lemma_valid_up_to_whole(pop_first_scalar(bytes));
    }
}

proof fn lemma_line_boundary(prefix: Seq<char>, text: Seq<char>, n: int, line: Seq<char>)
    requires
        0 <= n <= text.len(),
        line == squeeze(prefix, text) || line == squeeze(prefix, text).push('…'),
    ensures
        is_char_boundary(encode_utf8(line), byte_len(squeeze(prefix, text.take(n)))),
        byte_len(squeeze(prefix, text.take(n))) <= encode_utf8(line).len(),
{
    lemma_squeeze_appends(prefix, text, n);
    let front = squeeze(prefix, text.take(n));
    let back = line.skip(front.len() as int);
    assert(line =~= front + back);
    lemma_prefix_boundary(front, back);
    crate::text::lemma_encode_concat(front, back);
}

/// The characters of a text that are not whitespace.
pub open spec fn visible(text: Seq<char>) -> Seq<char> {
    text.filter(|c: char| !crate::text::spec_is_whitespace(c))
}

proof fn lemma_visible_push(text: Seq<char>, c: char)
    ensures
        visible(text.push(c)) == if crate::text::spec_is_whitespace(c) {
            visible(text)
        } else {
            visible(text).push(c)
        },
        visible(Seq::<char>::empty()) == Seq::<char>::empty(),
{
    reveal_with_fuel(Seq::filter, 2);
    assert(text.push(c).drop_last() =~= text);
}

/// Squeezing leaves every character that is not whitespace as it is, in its place.
pub proof fn lemma_squeeze_keeps_characters(line: Seq<char>, text: Seq<char>)
    ensures
        visible(squeeze(line, text)) == visible(line) + visible(text),
    decreases text.len(),
{
    if text.len() == 0 {
        assert(text =~= Seq::<char>::empty());
        lemma_visible_push(text, ' ');
        assert(visible(line) + visible(text) =~= visible(line));
    } else {
        let before = squeeze(line, text.drop_last());
        let c = text.last();
        lemma_squeeze_keeps_characters(line, text.drop_last());
        lemma_visible_push(before, c);
        lemma_visible_push(before, ' ');
        lemma_visible_push(text.drop_last(), c);
        assert(text.drop_last().push(c) =~= text);
        assert(visible(squeeze(line, text)) =~= visible(line) + visible(text));
    }
}

/// Whether all whitespace of a text is single spaces, and none is at its front.
pub open spec fn is_squeezed(text: Seq<char>) -> bool {
    forall|i: int|
        0 <= i < text.len() && crate::text::spec_is_whitespace(#[trigger] text[i]) ==> {
            &&& text[i] == ' '
            &&& i > 0
            &&& !crate::text::spec_is_whitespace(text[i - 1])
        }
}

/// What is squeezed has no whitespace but single spaces, and none at its front.
pub proof fn lemma_squeezed(line: Seq<char>, text: Seq<char>)
    requires
        is_squeezed(line),
    ensures
        is_squeezed(squeeze(line, text)),
    decreases text.len(),
{
    if text.len() > 0 {
        let before = squeeze(line, text.drop_last());
        lemma_squeezed(line, text.drop_last());
        let after = squeeze(line, text);
        assert(' ' as u32 == 0x20);
        assert forall|i: int|
            0 <= i < after.len() && crate::text::spec_is_whitespace(#[trigger] after[i]) implies {
            &&& after[i] == ' '
            &&& i > 0
            &&& !crate::text::spec_is_whitespace(after[i - 1])
        } by {
            if i < before.len() {
                assert(after[i] == before[i]);
                if i > 0 {
                    assert(after[i - 1] == before[i - 1]);
                }
            } else {
                assert(before.len() > 0 && before.last() != ' ');
                assert(after[i - 1] == before[before.len() - 1]);
            }
        }
    }
}

/// A text whose whitespace is single spaces is shown as it is.
pub proof fn lemma_squeezed_text_is_unchanged(text: Seq<char>)
    requires
        is_squeezed(text),
    ensures
        squeeze(Seq::empty(), text) == text,
    decreases text.len(),
{
    if text.len() > 0 {
        let front = text.drop_last();
        assert forall|i: int|
            0 <= i < front.len() && crate::text::spec_is_whitespace(#[trigger] front[i]) implies {
            &&& front[i] == ' '
            &&& i > 0
            &&& !crate::text::spec_is_whitespace(front[i - 1])
        } by {
            assert(front[i] == text[i]);
            if i > 0 {
                assert(front[i - 1] == text[i - 1]);
            }
        }
        lemma_squeezed_text_is_unchanged(front);
        assert(' ' as u32 == 0x20);
        let last = text[text.len() - 1];
        if crate::text::spec_is_whitespace(last) {
            assert(front.last() == text[text.len() - 2]);
        }
        assert(squeeze(Seq::empty(), text) =~= text);
    } else {
        assert(text =~= Seq::<char>::empty());
    }
}

/// Squeezing a text is squeezing its parts, one after the other.
pub proof fn lemma_squeeze_parts(line: Seq<char>, first: Seq<char>, then: Seq<char>)
    ensures
        squeeze(line, first + then) == squeeze(squeeze(line, first), then),
    decreases then.len(),
{
    if then.len() == 0 {
        assert(first + then =~= first);
    } else {
        assert((first + then).drop_last() =~= first + then.drop_last());
        lemma_squeeze_parts(line, first, then.drop_last());
    }
}

/// It does not matter what whitespace stands in a text, nor how much of it in a row: a
/// whole run of it is shown as one space is.
pub proof fn lemma_whitespace_is_one_space(
    line: Seq<char>,
    first: Seq<char>,
    spaces: Seq<char>,
    then: Seq<char>,
)
    requires
        spaces.len() > 0,
        forall|i: int|
            0 <= i < spaces.len() ==> crate::text::spec_is_whitespace(#[trigger] spaces[i]),
    ensures
        squeeze(line, first + spaces + then) == squeeze(line, first + seq![' '] + then),
{
    let before = squeeze(line, first);
    lemma_run_of_whitespace(before, spaces);
    lemma_squeeze_parts(line, first, spaces);
    lemma_squeeze_parts(line, first, seq![' ']);
    lemma_squeeze_parts(line, first + spaces, then);
    lemma_squeeze_parts(line, first + seq![' '], then);
}

proof fn lemma_run_of_whitespace(line: Seq<char>, spaces: Seq<char>)
    requires
        spaces.len() > 0,
        forall|i: int|
            0 <= i < spaces.len() ==> crate::text::spec_is_whitespace(#[trigger] spaces[i]),
    ensures
        squeeze(line, spaces) == squeeze(line, seq![' ']),
    decreases spaces.len(),
{
    reveal_with_fuel(squeeze, 2);
    assert(' ' as u32 == 0x20);
    assert(seq![' '].drop_last() =~= Seq::<char>::empty());
    assert(spaces.last() == spaces[spaces.len() - 1]);
    if spaces.len() > 1 {
        let front = spaces.drop_last();
        assert forall|i: int| 0 <= i < front.len() implies crate::text::spec_is_whitespace(
            #[trigger] front[i],
        ) by {
            assert(front[i] == spaces[i]);
        }
        lemma_run_of_whitespace(line, front);
    } else {
        assert(spaces.drop_last() =~= Seq::<char>::empty());
    }
}

/// What is shown of an entry are its own characters in order, but for whitespace, from
/// the beginning or from about two dozen bytes before the highlight, for 250 bytes. An
/// ellipsis stands for what is left out before them, and one for what is left out after
/// them.
pub proof fn lemma_summary_shows_text(
    loaded: Seq<u8>,
    highlight: Option<(usize, usize)>,
    text: Seq<char>,
)
    requires
        is_near(loaded, highlight),
        summary_text(loaded, highlight) == Some(text),
    ensures
        ({
            let first = summary_start(loaded, highlight);
            let len = encode_utf8(text).len();
            let rest = loaded.len() - first;
            &&& highlight is None ==> first == 0
            &&& highlight matches Some((start, _)) ==> {
                &&& start <= 24 ==> 0 <= first <= 3
                &&& start > 24 ==> start - 24 <= first <= start - 21
            }
            &&& first + len <= loaded.len()
            &&& loaded.subrange(first, first + len) == encode_utf8(text)
            &&& if rest <= 250 {
                rest - 3 <= len <= rest
            } else {
                247 <= len <= 250
            }
            &&& visible(summary_line(loaded, highlight, text)) == (if first > 0 {
                seq!['…']
            } else {
                seq![]
            }) + visible(text) + (if rest > 250 {
                seq!['…']
            } else {
                seq![]
            })
        }),
{
    let first = summary_start(loaded, highlight);
    let prefix = line_prefix(loaded, highlight);
    let line = squeeze(prefix, text);
    let cut = summary_bytes(loaded, highlight);
    assert('…' as u32 == 0x2026);
    lemma_visible_push(Seq::empty(), '…');
    assert(Seq::<char>::empty().push('…') =~= seq!['…']);
    lemma_squeeze_keeps_characters(prefix, text);
    lemma_visible_push(line, '…');
    assert(visible(prefix) =~= prefix);
    assert(visible(summary_line(loaded, highlight, text)) =~= (if first > 0 {
        seq!['…']
    } else {
        seq![]
    }) + visible(text) + (if loaded.len() - first > 250 {
        seq!['…']
    } else {
        seq![]
    }));
    if valid_utf8(cut) {
        decode_utf8_encode_utf8(cut);
        assert(loaded.subrange(first, first + cut.len()) =~= cut);
    } else {
        let n = crate::text::valid_up_to(cut) as int;
        crate::text::lemma_valid_up_to(cut);
        decode_utf8_encode_utf8(cut.take(n));
        assert(loaded.subrange(first, first + n) =~= cut.take(n));
        lemma_early_end(cut);
    }
}

/// Bytes that end within a character decode up to that character.
proof fn lemma_early_end(bytes: Seq<u8>)
    requires
        crate::text::ends_early(bytes),
    ensures
        bytes.len() - 3 <= crate::text::valid_up_to(bytes) <= bytes.len(),
{
    let rest = choose|rest: Seq<u8>| valid_utf8(#[trigger] (bytes + rest));
    let all = bytes + rest;
    let m = bytes.len() as int;
    assert(all.take(m) =~= bytes);
    if rest.len() == 0 {
        assert(all =~= bytes);
    }
    is_char_boundary_start_end_of_seq(all);
    let b = if m < 3 {
        0
    } else if !is_continuation_byte(all[m]) {
        m
    } else if !is_continuation_byte(all[m - 1]) {
        m - 1
    } else if !is_continuation_byte(all[m - 2]) {
        m - 2
    } else {
        m - 3
    };
    if m >= 3 {
        lemma_continuations_bounded(all, m - 3);
        is_char_boundary_iff_not_is_continuation_byte(all, b);
    }
    lemma_valid_up_to_cut(all, m, b);
}

/// A text that is not highlighted is shown as text, from its beginning.
pub proof fn lemma_text_is_shown_as_text(loaded: Seq<u8>)
    requires
        valid_utf8(loaded),
    ensures
        summary_text(loaded, None) is Some,
        loaded.len() <= 250 ==> summary_text(loaded, None) == Some(decode_utf8(loaded)),
{
    let cut = summary_bytes(loaded, None);
    assert(loaded.skip(0) =~= loaded);
    if loaded.len() > 250 {
        assert(cut + loaded.skip(250) =~= loaded);
    }
}

/// A short text without whitespace but single spaces is shown as itself.
pub proof fn lemma_short_text_is_shown_whole(text: Seq<char>)
    requires
        encode_utf8(text).len() <= 250,
        is_squeezed(text),
    ensures
        summary_text(encode_utf8(text), None) == Some(text),
        summary_line(encode_utf8(text), None, text) == text,
{
    encode_utf8_valid_utf8(text);
    encode_utf8_decode_utf8(text);
    lemma_text_is_shown_as_text(encode_utf8(text));
    lemma_squeezed_text_is_unchanged(text);
}

/// What is highlighted of a text stands out in the line with its own characters: they are
/// those of the text before the highlight's end without those before its start.
pub proof fn lemma_highlight_shows_match(loaded: Seq<u8>, start: usize, end: usize)
    requires
        end <= loaded.len(),
        covers_characters(loaded, start, end),
        summary_text(loaded, Some((start, end))) matches Some(text) && end - summary_start(
            loaded,
            Some((start, end)),
        ) <= encode_utf8(text).len(),
    ensures
        ({
            let highlight = Some((start, end));
            let text = summary_text(loaded, highlight)->0;
            let first = summary_start(loaded, highlight);
            let line = summary_line(loaded, highlight, text);
            let (from, to) = shown_highlight(loaded, start, end, text);
            exists|n: int, k: int, a: int, b: int|
                {
                    &&& 0 <= n <= k <= text.len()
                    &&& 0 <= a <= b <= line.len()
                    &&& #[trigger] is_after(text, start - first, n)
                    &&& #[trigger] is_after(text, end - first, k)
                    &&& #[trigger] is_after(line, from, a)
                    &&& #[trigger] is_after(line, to, b)
                    &&& visible(line.subrange(a, b)) == visible(text.subrange(n, k))
                }
        }),
{
    let highlight = Some((start, end));
    let text = summary_text(loaded, highlight)->0;
    let first = summary_start(loaded, highlight);
    let prefix = line_prefix(loaded, highlight);
    let line = summary_line(loaded, highlight, text);
    let (from, to) = shown_highlight(loaded, start, end, text);
    lemma_highlight_is_exact(loaded, start, end);
    let n = choose|n: int| #[trigger]
        is_after(text, start - first, n) && from == byte_len(squeeze(prefix, text.take(n)));
    let k = choose|k: int| #[trigger]
        is_after(text, end - first, k) && to == byte_len(squeeze(prefix, text.take(k)));
    if k < n {
        lemma_byte_len_take(text, k + 1, n);
        assert(text.take(k + 1) =~= text.take(k).push(text[k]));
        crate::text::lemma_encode_push(text.take(k), text[k]);
        assert(false);
    }
    let squeezed = squeeze(prefix, text);
    let short = squeeze(prefix, text.take(n));
    let long = squeeze(prefix, text.take(k));
    let a = short.len() as int;
    let b = long.len() as int;
    lemma_squeeze_appends(prefix, text, n);
    lemma_squeeze_appends(prefix, text, k);
    lemma_squeeze_appends(prefix, text.take(k), n);
    assert(text.take(k).take(n) =~= text.take(n));
    assert(squeezed.take(a) == short && squeezed.take(b) == long);
    assert(line.take(a) =~= short);
    assert(line.take(b) =~= long);
    let part = text.subrange(n, k);
    assert(text.take(k) =~= text.take(n) + part);
    lemma_squeeze_parts(prefix, text.take(n), part);
    assert(long == squeeze(short, part));
    lemma_squeeze_keeps_characters(short, part);
    let shown = line.subrange(a, b);
    assert(long =~= short + shown);
    lemma_visible_concat(short, shown);
    assert(visible(short) + visible(shown) == visible(short) + visible(part));
    assert(visible(shown) =~= visible(part)) by {
        let all = visible(short) + visible(part);
        assert(visible(shown) =~= all.skip(visible(short).len() as int));
        assert(visible(part) =~= all.skip(visible(short).len() as int));
    }
    assert(is_after(line, from, a));
    assert(is_after(line, to, b));
}

proof fn lemma_visible_concat(a: Seq<char>, b: Seq<char>)
    ensures
        visible(a + b) == visible(a) + visible(b),
    decreases b.len(),
{
    if b.len() == 0 {
        assert(a + b =~= a);
        assert(b =~= Seq::<char>::empty());
        lemma_visible_push(b, ' ');
        assert(visible(a) + visible(b) =~= visible(a));
    } else {
        lemma_visible_concat(a, b.drop_last());
        lemma_visible_push(a + b.drop_last(), b.last());
        lemma_visible_push(b.drop_last(), b.last());
        assert((a + b.drop_last()).push(b.last()) =~= a + b);
        assert(b.drop_last().push(b.last()) =~= b);
        assert(visible(a + b) =~= visible(a) + visible(b));
    }
}

/// An entry is an image exactly if its mime type begins with the six characters that
/// those of images do.
pub proof fn lemma_images_by_mime_type(rest: Seq<char>)
    ensures
        is_image(seq!['i', 'm', 'a', 'g', 'e', '/'] + rest),
        forall|mime: Seq<char>| #[trigger]
            is_image(mime) ==> mime.len() >= 6 && mime.take(6) == seq!['i', 'm', 'a', 'g', 'e', '/'],
{
    let start = seq!['i', 'm', 'a', 'g', 'e', '/'];
    reveal_strlit("image/");
    assert("image/"@ =~= start);
    crate::text::lemma_encode_concat(start, rest);
    assert((encode_utf8(start) + encode_utf8(rest)).take(encode_utf8(start).len() as int)
        =~= encode_utf8(start));
    assert forall|mime: Seq<char>| #[trigger] is_image(mime) implies mime.len() >= 6 && mime.take(6)
        == start by {
        let bytes = encode_utf8(mime);
        encode_utf8_valid_utf8(mime);
        encode_utf8_decode_utf8(mime);
        is_ascii_chars_encode_utf8(start);
        let n = 6int;
        assert(bytes.take(n) == encode_utf8(start));
        encode_utf8_valid_utf8(start);
        encode_utf8_decode_utf8(start);
        is_char_boundary_start_end_of_seq(bytes);
        crate::text::lemma_valid_prefix_boundary(bytes, n);
        decode_utf8_split(bytes, n);
        assert(bytes.subrange(0, n) =~= bytes.take(n));
        assert(mime.take(6) =~= start);
    }
}

} // verus!
