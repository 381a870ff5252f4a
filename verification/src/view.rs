//! What the tables and labels show.

use regex::Regex;

use vstd::prelude::*;

use crate::model::LogEntry;
use crate::pattern::{compile, match_spans, PatternFault};
use crate::render::decimal;
use crate::text::{char_width, is_empty, trim};
use crate::{model, pattern, text};

verus! {

// ---------------------------------------------------------------------------
// Parts of long texts
// ---------------------------------------------------------------------------

/// The bytes of a text that the table shows at most.
pub const PREVIEW_BYTES: usize = 2048;

/// The bytes of a segment in the details at most.
pub const SEGMENT_BYTES: usize = 512;

/// How many of the first characters of a text fit in a number of bytes.
pub open spec fn fitting(s: Seq<char>, bytes: int) -> nat
    decreases s.len(),
{
    if s.len() == 0 {
        0
    } else {
        let width = vstd::utf8::encode_scalar(s[0] as u32).len();
        if width > bytes {
            0
        } else {
            1 + fitting(s.drop_first(), bytes - width)
        }
    }
}

/// How many characters fit: no more than there are, and as many as possible.
pub proof fn lemma_fitting(s: Seq<char>, bytes: int)
    requires
        bytes >= 0,
    ensures
        fitting(s, bytes) <= s.len(),
        model::byte_len(s.take(fitting(s, bytes) as int)) <= bytes,
        fitting(s, bytes) < s.len() ==> model::byte_len(s.take(fitting(s, bytes) as int + 1))
            > bytes,
        s.len() > 0 && bytes >= 4 ==> fitting(s, bytes) > 0,
    decreases s.len(),
{
    if s.len() > 0 {
        vstd::utf8::char_is_scalar(s[0]);
        let width = vstd::utf8::encode_scalar(s[0] as u32).len() as int;
        let rest = s.drop_first();
        if width <= bytes {
            lemma_fitting(rest, bytes - width);
            let n = fitting(s, bytes) as int;
            assert(s.take(n).drop_first() =~= rest.take(n - 1));
            if n < s.len() {
                assert(s.take(n + 1).drop_first() =~= rest.take(n));
            }
        } else {
            assert(s.take(1).drop_first() =~= seq![]);
            assert(vstd::utf8::encode_utf8(s.take(1).drop_first()) =~= seq![]);
            assert(vstd::utf8::encode_utf8(s.take(1)) =~= vstd::utf8::encode_scalar(s[0] as u32)
                + seq![]);
        }
    }
}

/// The part of a text that fits in a number of bytes, and the rest.
fn split_fitting(s: &str, bytes: usize) -> (r: (&str, &str))
    ensures
        r.0@ == s@.take(fitting(s@, bytes as int) as int),
        r.1@ == s@.skip(fitting(s@, bytes as int) as int),
{
    let mut left: usize = bytes;
    let mut count: usize = 0;
    let mut chars = s.chars();
    proof {
        assert(s@.skip(0) =~= s@);
        text::lemma_chars_within_bytes(s@);
    }
    let limit: usize = s.as_bytes().len();
    loop
        invariant_except_break
            vstd::std_specs::iter::IteratorSpec::remaining(&chars) == s@.skip(count as int),
        invariant
            count <= s@.len() <= limit,
            fitting(s@, bytes as int) == count + fitting(s@.skip(count as int), left as int),
        ensures
            fitting(s@, bytes as int) == count,
        decreases s@.len() - count,
    {
        match chars.next() {
            None => {
                break;
            },
            Some(c) => {
                assert(c == s@.skip(count as int)[0]);
                let width = char_width(c);
                if width > left {
                    break;
                }
                assert(s@.skip(count as int).drop_first() =~= s@.skip(count + 1));
                left -= width;
                count += 1;
            },
        }
    }
    text::split_chars(s, count)
}

/// The part of a message that the table shows. Copying and filtering use the whole
/// message.
pub fn preview_message(text: &str) -> (r: &str)
    ensures
        r@ == text@.take(fitting(text@, PREVIEW_BYTES as int) as int),
        model::byte_len(r@) <= PREVIEW_BYTES,
        model::byte_len(text@) <= PREVIEW_BYTES ==> r@ == text@,
{
    proof {
        lemma_fitting(text@, PREVIEW_BYTES as int);
        let n = fitting(text@, PREVIEW_BYTES as int) as int;
        if n < text@.len() {
            text::lemma_encode_concat(text@.take(n + 1), text@.skip(n + 1));
            assert(text@ =~= text@.take(n + 1) + text@.skip(n + 1));
        } else {
            assert(text@.take(n) =~= text@);
        }
    }
    split_fitting(text, PREVIEW_BYTES).0
}

/// How many characters the first segment of a text has: as many as fit, but none
/// after a line feed.
pub open spec fn segment_len(s: Seq<char>) -> nat {
    let fits = fitting(s, SEGMENT_BYTES as int);
    let line = text::run_len(s, text::CharClass::Line);
    if line < fits {
        line + 1
    } else {
        fits
    }
}

/// The segments of a text.
pub open spec fn segments(s: Seq<char>) -> Seq<Seq<char>>
    decreases s.len(),
{
    if s.len() == 0 {
        seq![]
    } else {
        proof {
            lemma_segment(s);
        }
        let n = segment_len(s) as int;
        seq![s.take(n)] + segments(s.skip(n))
    }
}

/// The first segment of a text is part of it, and not empty unless the text is.
pub proof fn lemma_segment(s: Seq<char>)
    ensures
        segment_len(s) <= s.len(),
        s.len() > 0 ==> segment_len(s) > 0,
        model::byte_len(s.take(segment_len(s) as int)) <= SEGMENT_BYTES,
{
    lemma_fitting(s, SEGMENT_BYTES as int);
    text::lemma_run(s, text::CharClass::Line);
    let n = segment_len(s) as int;
    let fits = fitting(s, SEGMENT_BYTES as int) as int;
    assert(s.take(fits) =~= s.take(n) + s.skip(n).take(fits - n));
    text::lemma_encode_concat(s.take(n), s.skip(n).take(fits - n));
}

/// The segments are the whole text, and each is short.
pub proof fn lemma_segments(s: Seq<char>)
    ensures
        segments(s).flatten() == s,
        forall|i: int|
            0 <= i < segments(s).len() ==> 0 < (#[trigger] segments(s)[i]).len()
                && model::byte_len(segments(s)[i]) <= SEGMENT_BYTES,
    decreases s.len(),
{
    if s.len() > 0 {
        lemma_segment(s);
        let n = segment_len(s) as int;
        let rest = segments(s.skip(n));
        lemma_segments(s.skip(n));
        let all = seq![s.take(n)] + rest;
        assert(all.drop_first() =~= rest);
        assert(s =~= s.take(n) + s.skip(n));
        assert forall|i: int| 0 <= i < segments(s).len() implies 0 < (#[trigger] segments(
            s,
        )[i]).len() && model::byte_len(segments(s)[i]) <= SEGMENT_BYTES by {
            if i > 0 {
                assert(segments(s)[i] == rest[i - 1]);
            }
        }
    } else {
        assert(segments(s).flatten() =~= s);
    }
}

/// The byte ranges of parts that follow one another from a place on.
pub open spec fn ranges_from(parts: Seq<Seq<char>>, start: int) -> Seq<(int, int)>
    decreases parts.len(),
{
    if parts.len() == 0 {
        seq![]
    } else {
        let end = start + model::byte_len(parts[0]);
        seq![(start, end)] + ranges_from(parts.drop_first(), end)
    }
}

/// Byte ranges as pairs.
pub open spec fn range_pairs(ranges: Seq<std::ops::Range<usize>>) -> Seq<(int, int)> {
    ranges.map_values(|range: std::ops::Range<usize>| (range.start as int, range.end as int))
}

/// The byte ranges of the segments in which a long message is shown.
pub fn detail_ranges(text: &str) -> (r: Vec<std::ops::Range<usize>>)
    ensures
        range_pairs(r@) == ranges_from(segments(text@), 0),
{
    let mut ranges: Vec<std::ops::Range<usize>> = Vec::new();
    let mut rest = text;
    let mut start: usize = 0;
    let total: usize = text.as_bytes().len();
    proof {
        assert(range_pairs(ranges@) + ranges_from(segments(rest@), 0) =~= ranges_from(
            segments(text@),
            0,
        ));
    }
    while !is_empty(rest)
        invariant
            start + model::byte_len(rest@) == total,
            range_pairs(ranges@) + ranges_from(segments(rest@), start as int) == ranges_from(
                segments(text@),
                0,
            ),
        decreases rest@.len(),
    {
        let ghost s = rest@;
        proof {
            lemma_segment(s);
            lemma_fitting(s, SEGMENT_BYTES as int);
            text::lemma_run(s, text::CharClass::Line);
        }
        let (part, _) = split_fitting(rest, SEGMENT_BYTES);
        let line = text::line_len(part);
        proof {
            text::lemma_run_of_prefix(
                s,
                text::CharClass::Line,
                fitting(s, SEGMENT_BYTES as int) as int,
            );
        }
        let fits: usize = part.unicode_len();
        let n: usize = if line < fits {
            line + 1
        } else {
            fits
        };
        let (segment, tail) = text::split_chars(rest, n);
        let ghost before = ranges@;
        proof {
            text::lemma_encode_concat(s.take(n as int), s.skip(n as int));
            assert(s =~= s.take(n as int) + s.skip(n as int));
        }
        let end: usize = start + segment.as_bytes().len();
        proof {
            let range = std::ops::Range { start, end };
            assert(range_pairs(before.push(range)) =~= range_pairs(before).push(
                (start as int, end as int),
            ));
            let all = segments(s);
            assert(all.drop_first() =~= segments(tail@));
            assert(all[0] == segment@);
            assert(range_pairs(before.push(range)) + ranges_from(segments(tail@), end as int)
                =~= range_pairs(before) + ranges_from(all, start as int));
        }
        ranges.push(start..end);
        rest = tail;
        start = end;
    }
    proof {
        assert(range_pairs(ranges@) + ranges_from(segments(rest@), start as int) =~= range_pairs(
            ranges@,
        ));
    }
    ranges
}

/// A text without the carriage returns and line feeds at its end.
pub open spec fn without_line_end(s: Seq<char>) -> Seq<char>
    decreases s.len(),
{
    if s.len() > 0 && (s.last() == '\n' || s.last() == '\r') {
        without_line_end(s.drop_last())
    } else {
        s
    }
}

/// A text without the carriage returns and line feeds at its end.
pub fn trim_line_end(s: &str) -> (r: &str)
    ensures
        r@ == without_line_end(s@),
{
    let all = text::chars_of(s);
    let mut n: usize = all.len();
    proof {
        assert(s@.take(n as int) =~= s@);
    }
    while n > 0 && (all[n - 1] == '\n' || all[n - 1] == '\r')
        invariant
            n <= all@.len(),
            all@ == s@,
            without_line_end(s@) == without_line_end(s@.take(n as int)),
        decreases n,
    {
        assert(s@.take(n as int).drop_last() =~= s@.take(n - 1));
        n -= 1;
    }
    text::split_chars(s, n).0
}

// ---------------------------------------------------------------------------
// Highlighting
// ---------------------------------------------------------------------------

/// How many matches of a row are highlighted at most.
pub const HIGHLIGHT_LIMIT: usize = 24;

/// A part of a row, by bytes, and whether it is highlighted.
#[derive(Clone, Copy, Debug, Eq, PartialEq, Structural)]
pub struct RowPart {
    pub start: usize,
    pub end: usize,
    pub highlighted: bool,
}

/// The matcher for the highlighting, from what compiling gave: none where the pattern
/// cannot be compiled.
pub fn highlight_from(built: Result<Regex, PatternFault>) -> (r: Option<Regex>)
    ensures
        r == (match built {
            Ok(matcher) => Some(matcher),
            Err(_) => None,
        }),
{
    match built {
        Ok(matcher) => Some(matcher),
        Err(_) => None,
    }
}

/// The matcher for the highlighting of a query: none without a query, or where its
/// pattern cannot be compiled. Plain text stands for itself and is always a sound
/// pattern; it can only be too large, which depends on the machine.
pub fn compile_highlight_regex(query: &str, use_regex: bool, case_sensitive: bool) -> (r: Option<
    Regex,
>)
    ensures
        query@.len() == 0 ==> r is None,
        r matches Some(matcher) ==> pattern::built_regex(
            crate::filter::search_pattern(query@, use_regex),
            !case_sensitive,
        ) == Ok::<Regex, Seq<char>>(matcher),
        pattern::built_regex(
            crate::filter::search_pattern(query@, use_regex),
            !case_sensitive,
        ) is Err ==> r is None,
        use_regex ==> (r matches Some(matcher) ==> pattern::built_regex(query@, !case_sensitive)
            == Ok::<Regex, Seq<char>>(matcher)),
        !use_regex && query@.len() > 0 ==> pattern::built_regex(
            pattern::escaped(query@),
            !case_sensitive,
        ) is Ok,
        !use_regex ==> (r matches Some(matcher) ==> crate::filter::finds_plain_text(
            matcher,
            query@,
            case_sensitive,
        )),
{
    if is_empty(query) {
        return None;
    }
    let pattern = if use_regex {
        query.to_owned()
    } else {
        regex::escape(query)
    };
    let r = highlight_from(compile(pattern.as_str(), !case_sensitive));
    proof {
        if let Some(ref matcher) = r {
            assert(pattern::built_regex(pattern@, !case_sensitive)->Ok_0 == *matcher);
        }
    }
    r
}

/// A part that is not empty.
pub open spec fn plain_part(start: int, end: int) -> Seq<RowPart> {
    if start < end {
        seq![RowPart { start: start as usize, end: end as usize, highlighted: false }]
    } else {
        seq![]
    }
}

/// The parts of a row from the match `i` on: what lies between the matches is
/// plain. Only so many matches are highlighted, and none after an empty one.
pub open spec fn parts_from(
    spans: Seq<(usize, usize)>,
    len: int,
    i: int,
    cursor: int,
) -> Seq<RowPart>
    decreases spans.len() - i,
{
    if i >= spans.len() || i >= HIGHLIGHT_LIMIT || i < 0 {
        plain_part(cursor, len)
    } else {
        let (start, end) = spans[i];
        let found = plain_part(cursor, start as int).push(
            RowPart { start, end, highlighted: true },
        );
        found + if start == end {
            plain_part(end as int, len)
        } else {
            parts_from(spans, len, i + 1, end as int)
        }
    }
}

/// The parts of a row that is `len` bytes long, from where the matches are.
pub fn parts_with_spans(len: usize, spans: &Vec<(usize, usize)>) -> (r: Vec<RowPart>)
    ensures
        r@ == parts_from(spans@, len as int, 0, 0),
{
    let mut parts: Vec<RowPart> = Vec::new();
    let mut cursor: usize = 0;
    let mut i: usize = 0;
    let mut done = false;
    proof {
        assert(parts@ + parts_from(spans@, len as int, 0, 0) =~= parts_from(
            spans@,
            len as int,
            0,
            0,
        ));
    }
    while !done && i < spans.len() && i < HIGHLIGHT_LIMIT
        invariant
            i <= spans@.len(),
            !done ==> parts@ + parts_from(spans@, len as int, i as int, cursor as int)
                == parts_from(spans@, len as int, 0, 0),
            done ==> parts@ + plain_part(cursor as int, len as int) == parts_from(
                spans@,
                len as int,
                0,
                0,
            ),
        decreases spans@.len() - i + if done {
            0int
        } else {
            1int
        },
    {
        let ghost before = parts@;
        let (start, end) = spans[i];
        if start > cursor {
            parts.push(RowPart { start: cursor, end: start, highlighted: false });
        }
        parts.push(RowPart { start, end, highlighted: true });
        proof {
            let found = plain_part(cursor as int, start as int).push(
                RowPart { start, end, highlighted: true },
            );
            assert(parts@ =~= before + found);
            if start == end {
                assert(parts@ + plain_part(end as int, len as int) =~= before + parts_from(
                    spans@,
                    len as int,
                    i as int,
                    cursor as int,
                ));
            } else {
                assert(parts@ + parts_from(spans@, len as int, i + 1, end as int) =~= before
                    + parts_from(spans@, len as int, i as int, cursor as int));
            }
        }
        cursor = end;
        done = start == end;
        i += 1;
    }
    if cursor < len {
        parts.push(RowPart { start: cursor, end: len, highlighted: false });
    }
    assert(parts@ =~= parts_from(spans@, len as int, 0, 0));
    parts
}

/// The parts of a row.
pub fn highlighted_parts(text: &str, matcher: Option<&Regex>) -> (r: Vec<RowPart>)
    ensures
        match matcher {
            None => r@ == seq![
                RowPart { start: 0, end: model::byte_len(text@) as usize, highlighted: false },
            ],
            Some(m) => r@ == parts_from(
                pattern::regex_spans(*m, text@),
                model::byte_len(text@) as int,
                0,
                0,
            ) && covers(r@, 0, model::byte_len(text@) as int),
        },
{
    let len: usize = text.as_bytes().len();
    match matcher {
        None => vec![RowPart { start: 0, end: len, highlighted: false }],
        Some(m) => {
            let spans = match_spans(m, text);
            proof {
                lemma_parts_cover(spans@, len as int, 0, 0);
            }
            parts_with_spans(len, &spans)
        },
    }
}

/// Whether parts follow one another without a gap from one place to another.
pub open spec fn covers(parts: Seq<RowPart>, start: int, end: int) -> bool
    decreases parts.len(),
{
    if parts.len() == 0 {
        start == end
    } else {
        parts[0].start == start && start <= parts[0].end && covers(
            parts.drop_first(),
            parts[0].end as int,
            end,
        )
    }
}

/// However many matches there are, the parts are the whole row and in its order.
pub proof fn lemma_parts_cover(spans: Seq<(usize, usize)>, len: int, i: int, cursor: int)
    requires
        0 <= i,
        0 <= cursor <= len <= usize::MAX,
        forall|k: int|
            0 <= k < spans.len() ==> (#[trigger] spans[k]).0 <= spans[k].1 <= len,
        forall|j: int, k: int| 0 <= j < k < spans.len() ==> spans[j].1 <= spans[k].0,
        i < spans.len() ==> cursor <= spans[i].0,
    ensures
        covers(parts_from(spans, len, i, cursor), cursor, len),
    decreases spans.len() - i,
{
    if i >= spans.len() || i >= HIGHLIGHT_LIMIT {
        lemma_plain_covers(cursor, len);
    } else {
        let (start, end) = spans[i];
        let part = RowPart { start, end, highlighted: true };
        let rest = if start == end {
            plain_part(end as int, len)
        } else {
            parts_from(spans, len, i + 1, end as int)
        };
        if start == end {
            lemma_plain_covers(end as int, len);
        } else {
            lemma_parts_cover(spans, len, i + 1, end as int);
        }
        let all = parts_from(spans, len, i, cursor);
        let with_match = seq![part] + rest;
        assert(with_match.drop_first() =~= rest);
        assert(covers(with_match, start as int, len));
        if cursor < start {
            assert(all.drop_first() =~= with_match);
        } else {
            assert(all =~= with_match);
        }
    }
}

/// A plain part is all that it stands for.
proof fn lemma_plain_covers(start: int, end: int)
    requires
        0 <= start <= end <= usize::MAX,
    ensures
        covers(plain_part(start, end), start, end),
{
    let parts = plain_part(start, end);
    if start < end {
        assert(parts.drop_first() =~= seq![]);
        assert(covers(parts.drop_first(), end, end));
    }
}

// ---------------------------------------------------------------------------
// Packages
// ---------------------------------------------------------------------------

/// A byte with an upper-case letter of ASCII made lower-case.
pub open spec fn lower(byte: u8) -> u8 {
    if 65 <= byte <= 90 {
        (byte + 32) as u8
    } else {
        byte
    }
}

/// Whether bytes occur in others from a place on, upper and lower case of ASCII
/// being the same.
pub open spec fn occurs_at(bytes: Seq<u8>, part: Seq<u8>, at: int) -> bool {
    &&& 0 <= at && at + part.len() <= bytes.len()
    &&& forall|k: int| 0 <= k < part.len() ==> lower(#[trigger] bytes[at + k]) == lower(part[k])
}

/// Whether a package is offered for what was typed: it holds the typed text without
/// the white space around it, in upper or lower case.
pub open spec fn offered(package: Seq<char>, query: Seq<char>) -> bool {
    let part = vstd::utf8::encode_utf8(text::trimmed(query));
    part.len() == 0 || exists|at: int| #[trigger]
        occurs_at(vstd::utf8::encode_utf8(package), part, at)
}

/// A byte with an upper-case letter of ASCII made lower-case.
fn lower_byte(byte: u8) -> (r: u8)
    ensures
        r == lower(byte),
{
    if 65 <= byte && byte <= 90 {
        byte + 32
    } else {
        byte
    }
}

/// Whether a package is offered for what was typed.
pub fn package_matches_search(package: &str, query: &str) -> (r: bool)
    ensures
        r == offered(package@, query@),
{
    let part = trim(query).as_bytes();
    let bytes = package.as_bytes();
    if part.len() == 0 {
        return true;
    }
    if part.len() > bytes.len() {
        return false;
    }
    let total: usize = bytes.len();
    let last: usize = total - part.len();
    let mut at: usize = 0;
    while at <= last
        invariant
            at <= last + 1,
            last + part@.len() == bytes@.len() == total,
            part@.len() > 0,
            bytes@ == vstd::utf8::encode_utf8(package@),
            part@ == vstd::utf8::encode_utf8(text::trimmed(query@)),
            forall|j: int| 0 <= j < at ==> !#[trigger] occurs_at(bytes@, part@, j),
        decreases last + 1 - at,
    {
        let mut k: usize = 0;
        while k < part.len() && lower_byte(bytes[at + k]) == lower_byte(part[k])
            invariant
                at <= last,
                last + part@.len() == bytes@.len() == total,
                k <= part@.len(),
                forall|m: int|
                    0 <= m < k ==> lower(#[trigger] bytes@[at + m]) == lower(part@[m]),
            decreases part@.len() - k,
        {
            k += 1;
        }
        if k == part.len() {
            assert(occurs_at(bytes@, part@, at as int));
            return true;
        }
        proof {
            if occurs_at(bytes@, part@, at as int) {
                assert(lower(bytes@[at + k as int]) == lower(part@[k as int]));
            }
        }
        at += 1;
    }
    proof {
        assert forall|j: int| !#[trigger] occurs_at(bytes@, part@, j) by {}
    }
    false
}

// ---------------------------------------------------------------------------
// Labels
// ---------------------------------------------------------------------------

/// The line above the details of an entry.
pub open spec fn header_text(entry: LogEntry) -> Seq<char> {
    entry.time@ + "  ·  "@ + crate::render::digits(entry.pid as nat) + "/"@
        + crate::render::digits(entry.tid as nat) + "  ·  "@ + entry.shown_process() + "  ·  "@
        + entry.tag@
}

/// The line above the details of an entry.
pub fn detail_header(entry: &LogEntry) -> (r: String)
    ensures
        r@ == header_text(*entry),
{
    let mut out = String::new();
    out.append(&*entry.time);
    out.append("  ·  ");
    out.append(decimal(entry.pid as u64).as_str());
    out.append("/");
    out.append(decimal(entry.tid as u64).as_str());
    out.append("  ·  ");
    out.append(entry.process_name());
    out.append("  ·  ");
    out.append(&*entry.tag);
    assert(out@ =~= header_text(*entry));
    out
}

/// The process and thread column of an entry.
pub fn id_label(entry: &LogEntry) -> (r: String)
    ensures
        r@ == crate::render::digits(entry.pid as nat) + " / "@ + crate::render::digits(
            entry.tid as nat,
        ),
{
    let mut out = decimal(entry.pid as u64);
    out.append(" / ");
    out.append(decimal(entry.tid as u64).as_str());
    out
}

/// The message length from which the details show segments.
pub const LONG_MESSAGE_BYTES: usize = 16_384;

/// Whether the details show a message in segments.
pub fn shows_segments(entry: &LogEntry) -> (r: bool)
    ensures
        r == (model::byte_len(entry.message@) > LONG_MESSAGE_BYTES),
        r == (vstd::utf8::encode_utf8(entry.message@).len() > 16_384),
{
    entry.message.as_bytes().len() > LONG_MESSAGE_BYTES
}

// ---------------------------------------------------------------------------
// What holds of everything that is shown
// ---------------------------------------------------------------------------

/// What the table shows of a message is its beginning, of at most 2048 bytes, and as much
/// as that: one more character would be too much.
pub proof fn lemma_preview_is_as_long_as_allowed(text: Seq<char>)
    ensures
        ({
            let n = fitting(text, PREVIEW_BYTES as int) as int;
            &&& n <= text.len()
            &&& vstd::utf8::encode_utf8(text.take(n)).len() <= 2048
            &&& n < text.len() ==> vstd::utf8::encode_utf8(text.take(n + 1)).len() > 2048
        }),
{
    lemma_fitting(text, PREVIEW_BYTES as int);
}

/// A segment ends at a line feed, or where one more character would be more than 512
/// bytes, or at the end of the text.
pub proof fn lemma_where_segments_end(s: Seq<char>, i: int)
    requires
        0 <= i < segments(s).len(),
    ensures
        vstd::utf8::encode_utf8(segments(s)[i]).len() <= 512,
        segments(s)[i].len() > 0,
        !segments(s)[i].drop_last().contains('\n'),
        i + 1 < segments(s).len() ==> segments(s)[i].last() == '\n' || vstd::utf8::encode_utf8(
            segments(s)[i].push(segments(s)[i + 1][0]),
        ).len() > 512,
    decreases s.len(),
{
    lemma_segment(s);
    lemma_segments(s);
    let n = segment_len(s) as int;
    let first = s.take(n);
    let rest = segments(s.skip(n));
    if i > 0 {
        lemma_where_segments_end(s.skip(n), i - 1);
        assert(segments(s)[i] == rest[i - 1]);
        if i + 1 < segments(s).len() {
            assert(segments(s)[i + 1] == rest[i]);
        }
    } else {
        lemma_fitting(s, SEGMENT_BYTES as int);
        text::lemma_run(s, text::CharClass::Line);
        let line = text::run_len(s, text::CharClass::Line) as int;
        let fits = fitting(s, SEGMENT_BYTES as int) as int;
        if first.drop_last().contains('\n') {
            let k = choose|k: int|
                0 <= k < first.drop_last().len() && first.drop_last()[k] == '\n';
            assert(s[k] == '\n');
            assert(text::in_class(text::CharClass::Line, s[k]));
        }
        if 1 < segments(s).len() {
            assert(s.skip(n).len() > 0);
            lemma_segment(s.skip(n));
            assert(segments(s)[1] == rest[0]);
            assert(rest[0][0] == s[n]);
            if line >= fits {
                assert(s.take(n + 1) =~= first.push(s[n]));
            }
        }
    }
}

/// The byte ranges of the segments follow one another, and each is as long as its
/// segment.
pub proof fn lemma_ranges_follow(parts: Seq<Seq<char>>, start: int, i: int)
    requires
        0 <= i < parts.len(),
    ensures
        ranges_from(parts, start).len() == parts.len(),
        ranges_from(parts, start)[0].0 == start,
        ranges_from(parts, start)[i].1 - ranges_from(parts, start)[i].0
            == vstd::utf8::encode_utf8(parts[i]).len(),
        i + 1 < parts.len() ==> ranges_from(parts, start)[i + 1].0 == ranges_from(parts, start)[i].1,
    decreases parts.len(),
{
    let end = start + model::byte_len(parts[0]);
    let rest = parts.drop_first();
    if i > 0 {
        lemma_ranges_follow(rest, end, i - 1);
    } else if rest.len() > 0 {
        lemma_ranges_follow(rest, end, 0);
    } else {
        assert(ranges_from(rest, end) =~= seq![]);
    }
    assert(ranges_from(parts, start) =~= seq![(start, end)] + ranges_from(rest, end));
}

/// Without its line end a text is what stands before the carriage returns and line feeds
/// at its end.
pub proof fn lemma_line_end(s: Seq<char>, end: Seq<char>)
    requires
        s.len() > 0 ==> s.last() != '\n' && s.last() != '\r',
        forall|i: int| 0 <= i < end.len() ==> #[trigger] end[i] == '\n' || end[i] == '\r',
    ensures
        without_line_end(s + end) == s,
    decreases end.len(),
{
    if end.len() == 0 {
        assert(s + end =~= s);
    } else {
        let shorter = end.drop_last();
        assert(end[end.len() - 1] == '\n' || end[end.len() - 1] == '\r');
        assert((s + end).drop_last() =~= s + shorter);
        assert forall|i: int| 0 <= i < shorter.len() implies #[trigger] shorter[i] == '\n'
            || shorter[i] == '\r' by {
            assert(shorter[i] == end[i]);
        }
        lemma_line_end(s, shorter);
    }
}

/// Highlighted parts.
pub open spec fn is_marked() -> spec_fn(RowPart) -> bool {
    |part: RowPart| part.highlighted
}

/// The highlighted parts of a row are its matches in their order, the first twenty-four
/// of them. At a match that is empty the highlighting ends.
pub proof fn lemma_matches_are_highlighted(spans: Seq<(usize, usize)>, len: int, i: int)
    requires
        forall|k: int| 0 <= k < spans.len() && k < i ==> (#[trigger] spans[k]).0 < spans[k].1,
        0 <= i <= spans.len(),
    ensures
        ({
            let marked = parts_from(spans, len, 0, 0).filter(is_marked());
            let count = if spans.len() < 24 {
                spans.len() as int
            } else {
                24
            };
            &&& i >= count ==> marked.len() == count
            &&& i < count ==> marked.len() >= i
            &&& i < count && spans[i].0 == spans[i].1 ==> marked.len() == i + 1
            &&& forall|k: int|
                0 <= k < i && k < count ==> #[trigger] marked[k] == (RowPart {
                    start: spans[k].0,
                    end: spans[k].1,
                    highlighted: true,
                })
        }),
{
    lemma_marked_from(spans, len, 0, 0, i);
}

/// The same from a match on.
proof fn lemma_marked_from(
    spans: Seq<(usize, usize)>,
    len: int,
    from: int,
    cursor: int,
    i: int,
)
    requires
        forall|k: int| 0 <= k < spans.len() && k < i ==> (#[trigger] spans[k]).0 < spans[k].1,
        0 <= from,
        i <= spans.len(),
    ensures
        ({
            let marked = parts_from(spans, len, from, cursor).filter(is_marked());
            let count = if spans.len() < 24 {
                spans.len() as int
            } else {
                24
            };
            &&& i >= count && from <= count ==> marked.len() == count - from
            &&& from <= i < count && spans[i].0 == spans[i].1 ==> marked.len() == i + 1 - from
            &&& from <= i && from <= count ==> marked.len() >= (if i < count {
                i
            } else {
                count
            }) - from
            &&& forall|k: int|
                0 <= k < i - from && k < count - from ==> #[trigger] marked[k] == (RowPart {
                    start: spans[from + k].0,
                    end: spans[from + k].1,
                    highlighted: true,
                })
        }),
    decreases spans.len() - from,
{
    let keep = is_marked();
    let all = parts_from(spans, len, from, cursor);
    if from >= spans.len() || from >= HIGHLIGHT_LIMIT {
        lemma_plain_is_not_marked(cursor, len);
    } else {
        let (start, end) = spans[from];
        let part = RowPart { start, end, highlighted: true };
        let plain = plain_part(cursor, start as int);
        let rest = if start == end {
            plain_part(end as int, len)
        } else {
            parts_from(spans, len, from + 1, end as int)
        };
        lemma_plain_is_not_marked(cursor, start as int);
        Seq::filter_distributes_over_add(plain.push(part), rest, keep);
        assert(plain.push(part).filter(keep) =~= seq![part]) by {
            reveal(Seq::filter);
            assert(plain.push(part).drop_last() =~= plain);
        }
        if start == end {
            lemma_plain_is_not_marked(end as int, len);
        } else {
            lemma_marked_from(spans, len, from + 1, end as int, i);
        }
        let marked = all.filter(keep);
        let later = rest.filter(keep);
        assert(marked =~= seq![part] + later);
        let count = if spans.len() < 24 {
            spans.len() as int
        } else {
            24
        };
        assert forall|k: int| 0 <= k < i - from && k < count - from implies #[trigger] marked[k]
            == (RowPart {
            start: spans[from + k].0,
            end: spans[from + k].1,
            highlighted: true,
        }) by {
            if k > 0 {
                assert(spans[from].0 < spans[from].1);
                assert(marked[k] == later[k - 1]);
            }
        }
    }
}

/// Plain parts are not highlighted.
proof fn lemma_plain_is_not_marked(start: int, end: int)
    ensures
        plain_part(start, end).filter(is_marked()) == Seq::<RowPart>::empty(),
{
    let parts = plain_part(start, end);
    reveal(Seq::filter);
    if start < end {
        assert(parts.drop_last() =~= seq![]);
        assert(parts.drop_last().filter(is_marked()) =~= seq![]);
        assert(!parts.last().highlighted);
    }
    assert(parts.filter(is_marked()) =~= seq![]);
}

/// The parts of a row have no gap and do not overlap: each begins where the one before it
/// ends, the first at the beginning and the last at the end of the row.
pub proof fn lemma_parts_follow(parts: Seq<RowPart>, start: int, end: int, i: int)
    requires
        covers(parts, start, end),
        0 <= i < parts.len(),
    ensures
        parts[0].start == start,
        parts[parts.len() - 1].end == end,
        parts[i].start <= parts[i].end,
        i + 1 < parts.len() ==> parts[i + 1].start == parts[i].end,
    decreases parts.len(),
{
    let rest = parts.drop_first();
    assert(covers(rest, parts[0].end as int, end));
    if rest.len() > 0 {
        let k = if i > 0 {
            i - 1
        } else {
            0
        };
        lemma_parts_follow(rest, parts[0].end as int, end, k);
        assert(rest[rest.len() - 1] == parts[parts.len() - 1]);
        if i > 0 {
            assert(rest[i - 1] == parts[i]);
        }
        if i + 1 < parts.len() {
            assert(rest[i] == parts[i + 1]);
        }
    }
}

/// A package is offered for every part of its name, for nothing typed all are, and for
/// more than its name it is not.
pub proof fn lemma_offered_for_a_part(
    before: Seq<char>,
    part: Seq<char>,
    after: Seq<char>,
    query: Seq<char>,
)
    ensures
        text::trimmed(query) == part ==> offered(before + part + after, query),
        text::blank(query) ==> offered(before, query),
        vstd::utf8::encode_utf8(text::trimmed(query)).len() > vstd::utf8::encode_utf8(before).len()
            ==> !offered(before, query),
        offered(before, query) && !text::blank(query) ==> exists|at: int|
            {
                let rest = #[trigger] vstd::utf8::encode_utf8(before).skip(at);
                let typed = vstd::utf8::encode_utf8(text::trimmed(query));
                &&& 0 <= at <= vstd::utf8::encode_utf8(before).len()
                &&& typed.len() <= rest.len()
                &&& forall|k: int|
                    0 <= k < typed.len() ==> lower(#[trigger] rest[k]) == lower(typed[k])
            },
{
    if text::trimmed(query) == part {
        let package = before + part + after;
        text::lemma_encode_concat(before + part, after);
        text::lemma_encode_concat(before, part);
        let bytes = vstd::utf8::encode_utf8(package);
        let typed = vstd::utf8::encode_utf8(part);
        let at = vstd::utf8::encode_utf8(before).len() as int;
        assert forall|k: int| 0 <= k < typed.len() implies lower(#[trigger] bytes[at + k])
            == lower(typed[k]) by {
            assert(bytes[at + k] == typed[k]);
        }
        assert(occurs_at(bytes, typed, at));
    }
    text::lemma_trimmed(query);
    if text::blank(query) {
        assert(text::trimmed(query) =~= seq![]);
        assert(vstd::utf8::encode_utf8(text::trimmed(query)).len() == 0);
    } else if offered(before, query) {
        let bytes = vstd::utf8::encode_utf8(before);
        let typed = vstd::utf8::encode_utf8(text::trimmed(query));
        text::lemma_chars_within_bytes(text::trimmed(query));
        let at = choose|at: int| #[trigger] occurs_at(bytes, typed, at);
        let rest = bytes.skip(at);
        assert forall|k: int| 0 <= k < typed.len() implies lower(#[trigger] rest[k]) == lower(
            typed[k],
        ) by {
            assert(lower(bytes[at + k]) == lower(typed[k]));
        }
    }
}

/// Upper and lower case of ASCII do not matter to what is offered, and everything else
/// does: bytes count as the same exactly where they are, or are the two cases of a letter.
pub proof fn lemma_case_does_not_matter(
    package: Seq<char>,
    query: Seq<char>,
    other: Seq<char>,
    a: u8,
    b: u8,
)
    ensures
        lower(a) == lower(b) <==> a == b || (65 <= a <= 90 && b == a + 32) || (65 <= b <= 90 && a
            == b + 32),
        ({
            let x = vstd::utf8::encode_utf8(text::trimmed(query));
            let y = vstd::utf8::encode_utf8(text::trimmed(other));
            x.len() == y.len() && (forall|i: int|
                0 <= i < x.len() ==> lower(#[trigger] x[i]) == lower(y[i])) ==> (offered(
                package,
                query,
            ) <==> offered(package, other))
        }),
{
    let bytes = vstd::utf8::encode_utf8(package);
    let x = vstd::utf8::encode_utf8(text::trimmed(query));
    let y = vstd::utf8::encode_utf8(text::trimmed(other));
    if x.len() == y.len() && (forall|i: int|
        0 <= i < x.len() ==> lower(#[trigger] x[i]) == lower(y[i])) {
        assert forall|at: int| #[trigger] occurs_at(bytes, x, at) == occurs_at(bytes, y, at) by {
            if occurs_at(bytes, x, at) {
                assert forall|k: int| 0 <= k < y.len() implies lower(#[trigger] bytes[at + k])
                    == lower(y[k]) by {
                    assert(lower(x[k]) == lower(y[k]));
                }
            }
            if occurs_at(bytes, y, at) {
                assert forall|k: int| 0 <= k < x.len() implies lower(#[trigger] bytes[at + k])
                    == lower(x[k]) by {
                    assert(lower(x[k]) == lower(y[k]));
                }
            }
        }
        if x.len() > 0 {
            if offered(package, query) {
                let at = choose|at: int| #[trigger] occurs_at(bytes, x, at);
                assert(occurs_at(bytes, y, at));
            }
            if offered(package, other) {
                let at = choose|at: int| #[trigger] occurs_at(bytes, y, at);
                assert(occurs_at(bytes, x, at));
            }
        }
    }
}

/// The line above the details begins with the time and ends with the tag, and holds the
/// process and the thread between them.
pub proof fn lemma_header_of_an_entry(entry: LogEntry)
    ensures
        ({
            let text = header_text(entry);
            let ids = crate::render::digits(entry.pid as nat) + seq!['/'] + crate::render::digits(
                entry.tid as nat,
            );
            let n = entry.time@.len() as int;
            let name = match entry.process {
                Some(process) => process@,
                None => "—"@,
            };
            &&& text.take(n) == entry.time@
            &&& text.subrange(n, n + 5) == "  ·  "@
            &&& text.subrange(n + 5, n + 5 + ids.len()) == ids
            &&& text.skip(n + 5 + ids.len()) == "  ·  "@ + name + "  ·  "@ + entry.tag@
        }),
{
    reveal_strlit("  ·  ");
    reveal_strlit("/");
    let text = header_text(entry);
    let ids = crate::render::digits(entry.pid as nat) + seq!['/'] + crate::render::digits(
        entry.tid as nat,
    );
    let n = entry.time@.len() as int;
    assert("  ·  "@.len() == 5);
    assert("/"@ =~= seq!['/']);
    assert(text.take(n) =~= entry.time@);
    assert(text.subrange(n, n + 5) =~= "  ·  "@);
    assert(text.subrange(n + 5, n + 5 + ids.len()) =~= ids);
    assert(text.skip(n + 5 + ids.len()) =~= "  ·  "@ + entry.shown_process() + "  ·  "@
        + entry.tag@);
}

} // verus!
