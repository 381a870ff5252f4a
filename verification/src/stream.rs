//! The stream of the log: from bytes to lines, and from lines to entries.

use regex::Regex;

use vstd::prelude::*;

use crate::model::{Level, LogEntry};
use crate::pattern::{capture_groups, compile, PatternFault};
use crate::render::parse_number;
use crate::text::{first_char, is_blank, starts_with, trim};
use crate::{model, pattern, text};

verus! {

// ---------------------------------------------------------------------------
// Lines
// ---------------------------------------------------------------------------

/// The number of bytes of a line that are kept.
pub const MAX_LINE_BYTES: usize = 1_048_576;

/// The bytes of a line that are kept.
pub open spec fn kept_bytes(raw: Seq<u8>) -> Seq<u8> {
    if raw.len() > MAX_LINE_BYTES {
        raw.take(MAX_LINE_BYTES as int)
    } else {
        raw
    }
}

/// A line without the carriage returns and line feeds at its end.
pub open spec fn without_ending(line: Seq<u8>) -> Seq<u8>
    decreases line.len(),
{
    if line.len() > 0 && (line.last() == 10 || line.last() == 13) {
        without_ending(line.drop_last())
    } else {
        line
    }
}

/// What is noted at the end of a line that was cut.
pub open spec fn cut_note() -> Seq<char> {
    " [truncated: log line exceeded 1 MiB]"@
}

/// A line as it is read: without its ending, cut where it is too long, and then
/// with a note of that.
pub open spec fn read_line(raw: Seq<u8>) -> Seq<u8> {
    let line = without_ending(kept_bytes(raw));
    if raw.len() > MAX_LINE_BYTES {
        line + vstd::utf8::encode_utf8(cut_note())
    } else {
        line
    }
}

/// How many bytes belong to the line that a stream begins with.
pub open spec fn raw_line_len(bytes: Seq<u8>) -> nat
    decreases bytes.len(),
{
    if bytes.len() == 0 {
        0
    } else if bytes[0] == 10 {
        1
    } else {
        1 + raw_line_len(bytes.drop_first())
    }
}

/// A line that is being collected from the parts of a stream.
pub struct LineReader {
    line: Vec<u8>,
    truncated: bool,
}

impl LineReader {
    /// Whether the reader has taken in exactly these bytes since the last line.
    pub closed spec fn holds(&self, raw: Seq<u8>) -> bool {
        &&& self.line@ == kept_bytes(raw)
        &&& self.truncated == (raw.len() > MAX_LINE_BYTES)
    }

    pub fn new() -> (r: LineReader)
        ensures
            r.holds(seq![]),
    {
        LineReader { line: Vec::new(), truncated: false }
    }

    /// Takes in the bytes up to and with the next line feed, or all of them where
    /// there is none. Returns how many that were and whether the line is complete.
    pub fn feed(&mut self, available: &[u8]) -> (r: (usize, bool))
        requires
            available@.len() > 0,
        ensures
            r.0 == raw_line_len(available@),
            0 < r.0 <= available@.len(),
            r.1 == (available@[r.0 - 1] == 10),
            forall|raw: Seq<u8>| #[trigger]
                old(self).holds(raw) ==> final(self).holds(
                    raw + available@.take(r.0 as int),
                ),
    {
        let mut taken: usize = 0;
        let mut ended = false;
        let ghost before = *self;
        proof {
            assert(available@.skip(0) =~= available@);
            assert forall|raw: Seq<u8>| #[trigger] before.holds(raw) implies self.holds(
                raw + available@.take(0),
            ) by {
                assert(raw + available@.take(0) =~= raw);
            }
        }
        while taken < available.len() && !ended
            invariant
                taken <= available@.len(),
                available@.len() > 0,
                raw_line_len(available@) == (if ended {
                    taken as nat
                } else {
                    taken as nat + raw_line_len(available@.skip(taken as int))
                }),
                taken > 0 ==> ended == (available@[taken - 1] == 10),
                taken == 0 ==> !ended,
                forall|raw: Seq<u8>| #[trigger]
                    before.holds(raw) ==> self.holds(raw + available@.take(taken as int)),
            decreases available@.len() - taken,
        {
            let byte = available[taken];
            let ghost held = *self;
            proof {
                assert(available@.skip(taken as int)[0] == byte);
                assert(available@.skip(taken as int).drop_first() =~= available@.skip(taken + 1));
            }
            if self.line.len() < MAX_LINE_BYTES {
                self.line.push(byte);
            } else {
                self.truncated = true;
            }
            proof {
                assert forall|raw: Seq<u8>| #[trigger] before.holds(raw) implies self.holds(
                    raw + available@.take(taken + 1),
                ) by {
                    let sofar = raw + available@.take(taken as int);
                    let next = raw + available@.take(taken + 1);
                    assert(held.holds(sofar));
                    assert(next =~= sofar.push(byte));
                    assert(self.line@ =~= kept_bytes(next));
                }
            }
            ended = byte == 10;
            taken += 1;
        }
        (taken, ended)
    }

    /// Ends the line: what was read of it, or nothing where the stream is at its
    /// end.
    pub fn finish(&mut self) -> (r: Option<Vec<u8>>)
        ensures
            final(self).holds(seq![]),
            forall|raw: Seq<u8>| #[trigger]
                old(self).holds(raw) ==> match r {
                    None => raw.len() == 0,
                    Some(line) => raw.len() > 0 && line@ == read_line(raw),
                },
    {
        let ghost before = *self;
        let mut line: Vec<u8> = Vec::new();
        line.append(&mut self.line);
        let truncated = self.truncated;
        self.truncated = false;
        proof {
            assert(self.line@ =~= kept_bytes(seq![]));
            assert(line@ =~= before.line@);
        }
        if line.len() == 0 {
            return None;
        }
        let ghost whole = line@;
        while line.len() > 0 && (line[line.len() - 1] == 10 || line[line.len() - 1] == 13)
            invariant
                without_ending(line@) == without_ending(whole),
            decreases line@.len(),
        {
            let ghost shorter = line@.drop_last();
            line.pop();
            assert(line@ =~= shorter);
        }
        if truncated {
            let note = " [truncated: log line exceeded 1 MiB]";
            line.extend_from_slice(note.as_bytes());
        }
        proof {
            assert forall|raw: Seq<u8>| #[trigger] before.holds(raw) implies raw.len() > 0
                && line@ == read_line(raw) by {
                assert(whole == kept_bytes(raw));
                assert(line@ =~= read_line(raw));
            }
        }
        Some(line)
    }
}

/// The line that a stream begins with is part of it, and is not empty unless the
/// stream is.
pub proof fn lemma_raw_line(bytes: Seq<u8>)
    ensures
        raw_line_len(bytes) <= bytes.len(),
        bytes.len() > 0 ==> raw_line_len(bytes) > 0,
    decreases bytes.len(),
{
    if bytes.len() > 0 && bytes[0] != 10 {
        lemma_raw_line(bytes.drop_first());
    }
}

/// However long a line is, no more than the limit and the note is kept of it.
pub proof fn lemma_line_is_bounded(raw: Seq<u8>)
    ensures
        read_line(raw).len() <= MAX_LINE_BYTES + 37,
        raw.len() <= MAX_LINE_BYTES ==> read_line(raw) == without_ending(raw),
{
    lemma_ending(kept_bytes(raw));
    reveal_strlit(" [truncated: log line exceeded 1 MiB]");
    assert(vstd::utf8::is_ascii_chars(cut_note()));
    vstd::utf8::is_ascii_chars_encode_utf8(cut_note());
}

/// Removing the ending makes a line no longer.
proof fn lemma_ending(line: Seq<u8>)
    ensures
        without_ending(line).len() <= line.len(),
    decreases line.len(),
{
    if line.len() > 0 {
        lemma_ending(line.drop_last());
    }
}

/// The lines of a stream, each with its ending.
pub open spec fn raw_lines(bytes: Seq<u8>) -> Seq<Seq<u8>>
    decreases bytes.len(),
{
    if bytes.len() == 0 {
        seq![]
    } else {
        proof {
            lemma_raw_line(bytes);
        }
        let n = raw_line_len(bytes) as int;
        seq![bytes.take(n)] + raw_lines(bytes.skip(n))
    }
}

/// The lines of a stream are all of it.
pub proof fn lemma_lines_are_the_stream(bytes: Seq<u8>)
    ensures
        raw_lines(bytes).flatten() == bytes,
    decreases bytes.len(),
{
    if bytes.len() > 0 {
        lemma_raw_line(bytes);
        let n = raw_line_len(bytes) as int;
        let rest = raw_lines(bytes.skip(n));
        lemma_lines_are_the_stream(bytes.skip(n));
        let all = seq![bytes.take(n)] + rest;
        assert(all.drop_first() =~= rest);
        assert(all.first() == bytes.take(n));
        assert(bytes =~= bytes.take(n) + bytes.skip(n));
    } else {
        assert(raw_lines(bytes).flatten() =~= bytes);
    }
}

// ---------------------------------------------------------------------------
// Text
// ---------------------------------------------------------------------------

/// What `String::from_utf8_lossy` makes of bytes.
pub uninterp spec fn lossy_text(bytes: Seq<u8>) -> Seq<char>;

/// `String::from_utf8_lossy` decodes UTF-8 and puts the replacement character in
/// the place of what is none. Bytes that are UTF-8 are decoded as they are.
#[verifier::external_body]
pub(crate) fn decode_lossy(bytes: &[u8]) -> (r: String)
    ensures
        r@ == lossy_text(bytes@),
        vstd::utf8::valid_utf8(bytes@) ==> r@ == vstd::utf8::decode_utf8(bytes@),
{
    String::from_utf8_lossy(bytes).into_owned()
}

// ---------------------------------------------------------------------------
// Entries
// ---------------------------------------------------------------------------

/// The texts of an entry.
pub struct EntryText {
    pub time: Seq<char>,
    pub pid: u32,
    pub tid: u32,
    pub process: Option<Seq<char>>,
    pub tag: Seq<char>,
    pub level: Level,
    pub message: Seq<char>,
}

/// The texts of an entry.
pub open spec fn entry_text(entry: LogEntry) -> EntryText {
    EntryText {
        time: entry.time@,
        pid: entry.pid,
        tid: entry.tid,
        process: match entry.process {
            Some(process) => Some(process@),
            None => None,
        },
        tag: entry.tag@,
        level: entry.level,
        message: entry.message@,
    }
}

/// A line that is kept as it is.
pub open spec fn marker_text(message: Seq<char>) -> EntryText {
    EntryText {
        time: ""@,
        pid: 0,
        tid: 0,
        process: None,
        tag: "logcat"@,
        level: Level::Info,
        message,
    }
}

/// The text of a group.
pub open spec fn group(groups: Seq<Option<Seq<char>>>, i: int) -> Option<Seq<char>> {
    if i < groups.len() {
        groups[i]
    } else {
        None
    }
}

/// The entry that the groups of a structured line make: time, process, thread,
/// level, tag and message. It is none where a group is missing, a number does not
/// fit or the letter is no level.
pub open spec fn structured(groups: Seq<Option<Seq<char>>>) -> Option<EntryText> {
    match (
        group(groups, 1),
        group(groups, 2),
        group(groups, 3),
        group(groups, 4),
        group(groups, 5),
        group(groups, 6),
    ) {
        (Some(time), Some(pid), Some(tid), Some(letter), Some(tag), Some(message)) => {
            match (crate::render::number(pid), crate::render::number(tid)) {
                (Some(pid), Some(tid)) => if letter.len() > 0 {
                    match model::level_of(letter[0]) {
                        Some(level) => Some(
                            EntryText {
                                time: text::trimmed(time),
                                pid,
                                tid,
                                process: None,
                                tag: text::trimmed(tag),
                                level,
                                message,
                            },
                        ),
                        None => None,
                    }
                } else {
                    None
                },
                _ => None,
            }
        },
        _ => None,
    }
}

/// The entry that a line makes with the groups that the pattern found in it: none
/// for a blank line, and the line itself for a divider or where the pattern does
/// not match.
pub open spec fn parsed(
    line: Seq<char>,
    groups: Option<Seq<Option<Seq<char>>>>,
) -> Option<EntryText> {
    if text::blank(line) {
        None
    } else if text::begins_with(line, "---------"@) {
        Some(marker_text(text::trimmed(line)))
    } else {
        match groups {
            None => Some(marker_text(text::trimmed(line))),
            Some(groups) => structured(groups),
        }
    }
}

/// Whether an entry is what was to be made.
pub open spec fn is_entry(r: Option<LogEntry>, expected: Option<EntryText>) -> bool {
    match r {
        Some(entry) => expected == Some(entry_text(entry)),
        None => expected is None,
    }
}

/// The text of a group.
fn group_at(groups: &Vec<Option<String>>, i: usize) -> (r: Option<&str>)
    ensures
        match r {
            Some(found) => group(pattern::group_texts(Some(*groups))->0, i as int) == Some(found@),
            None => group(pattern::group_texts(Some(*groups))->0, i as int) is None,
        },
{
    if i < groups.len() {
        match &groups[i] {
            Some(found) => Some(found.as_str()),
            None => None,
        }
    } else {
        None
    }
}

/// The entry that the groups of a structured line make.
fn structured_entry(groups: &Vec<Option<String>>) -> (r: Option<LogEntry>)
    ensures
        is_entry(r, structured(pattern::group_texts(Some(*groups))->0)),
{
    match (
        group_at(groups, 1),
        group_at(groups, 2),
        group_at(groups, 3),
        group_at(groups, 4),
        group_at(groups, 5),
        group_at(groups, 6),
    ) {
        (Some(time), Some(pid), Some(tid), Some(letter), Some(tag), Some(message)) => {
            match (parse_number(pid), parse_number(tid), first_char(letter)) {
                (Some(pid), Some(tid), Some(letter)) => match Level::from_letter(letter) {
                    Some(level) => Some(
                        LogEntry::new(
                            trim(time).to_owned(),
                            pid,
                            tid,
                            trim(tag).to_owned(),
                            level,
                            message.to_owned(),
                        ),
                    ),
                    None => None,
                },
                _ => None,
            }
        },
        _ => None,
    }
}

/// The entry that a line makes with the groups that the pattern found in it.
pub fn entry_from_groups(line: &str, groups: &Option<Vec<Option<String>>>) -> (r: Option<LogEntry>)
    ensures
        is_entry(r, parsed(line@, pattern::group_texts(*groups))),
{
    if is_blank(line) {
        return None;
    }
    if starts_with(line, "---------") {
        return Some(LogEntry::marker(trim(line).to_owned()));
    }
    match groups {
        None => Some(LogEntry::marker(trim(line).to_owned())),
        Some(groups) => structured_entry(groups),
    }
}

/// The pattern of a structured line.
pub open spec fn threadtime() -> Seq<char> {
    r"^\s*((?:\d{4}-)?\d{2}-\d{2}\s+\d{2}:\d{2}:\d{2}\.\d+)\s+(\d+)\s+(\d+)\s+([VDIWEFAS])\s+(.+?):\s?(.*)$"@
}

/// The compiled pattern of structured lines.
pub struct LineParser {
    matcher: Regex,
}

impl LineParser {
    /// The compiled pattern.
    pub closed spec fn pattern(&self) -> Regex {
        self.matcher
    }

    /// Whether it is the pattern of structured lines, and reads them.
    pub open spec fn wf(&self) -> bool {
        &&& pattern::built_regex(threadtime(), false) == Ok::<Regex, Seq<char>>(self.pattern())
        &&& pattern::reads_log_lines(self.pattern())
    }

    /// Compiles the pattern.
    pub fn new() -> (r: Result<LineParser, PatternFault>)
        ensures
            match r {
                Ok(parser) => parser.wf(),
                Err(fault) => if fault.syntax {
                    pattern::built_regex(threadtime(), false) == Err::<Regex, Seq<char>>(
                        fault.text@,
                    )
                } else {
                    pattern::built_regex(threadtime(), false) is Ok
                },
            },
    {
        let pattern = r"^\s*((?:\d{4}-)?\d{2}-\d{2}\s+\d{2}:\d{2}:\d{2}\.\d+)\s+(\d+)\s+(\d+)\s+([VDIWEFAS])\s+(.+?):\s?(.*)$";
        match compile(pattern, false) {
            Ok(matcher) => Ok(LineParser { matcher }),
            Err(fault) => Err(fault),
        }
    }
}

/// A line that is made of a date and time, a process, a thread, the letter of a level, a
/// tag, a colon and a message is read as the entry with exactly these parts, whatever
/// the level and however many blanks stand between them.
pub proof fn lemma_line_is_read_back(
    parser: LineParser,
    parts: pattern::LineParts,
    pid: u32,
    tid: u32,
    level: Level,
)
    requires
        parser.wf(),
        parts.ok(),
        parts.pid == crate::render::digits(pid as nat),
        parts.tid == crate::render::digits(tid as nat),
        seq![parts.letter] == model::level_letter(level),
        !text::white_space(parts.tag.last()),
    ensures
        parsed(parts.line(), pattern::regex_groups(parser.pattern(), parts.line())) == Some(
            EntryText {
                time: parts.time(),
                pid,
                tid,
                process: None,
                tag: parts.tag,
                level,
                message: parts.message,
            },
        ),
{
    let line = parts.line();
    let time = parts.time();
    let groups = parts.groups();
    assert(pattern::regex_groups(parser.pattern(), line) == Some(groups));
    lemma_parts(parts);
    model::lemma_level_letter_round_trip(level);
    assert(seq![parts.letter][0] == parts.letter);
    crate::render::lemma_number_round_trip(pid);
    crate::render::lemma_number_round_trip(tid);
    text::lemma_nothing_to_trim(time);
    text::lemma_nothing_to_trim(parts.tag);
    reveal_strlit("---------");
    assert("---------"@[0] == '-');
    if text::begins_with(line, "---------"@) {
        assert(line.take(9)[0] == "---------"@[0]);
    }
}

/// How the time of a line begins and ends, and that the line is no divider.
proof fn lemma_parts(parts: pattern::LineParts)
    requires
        parts.ok(),
    ensures
        parts.time().len() > 0,
        !text::white_space(parts.time()[0]),
        !text::white_space(parts.time().last()),
        !text::blank(parts.line()),
        parts.line().len() > 0,
        parts.line()[0] != '-',
{
    let time = parts.time();
    let line = parts.line();
    let year = parts.year;
    let n = parts.lead.len() as int;
    assert(time.last() == parts.fraction.last());
    if year.len() == 0 {
        assert(time[0] == parts.month[0]);
    } else {
        assert(time[0] == year[0] && year.take(4)[0] == year[0]);
    }
    assert(line[n] == time[0]);
    if n > 0 {
        assert(line[0] == parts.lead[0]);
    }
}

/// A line without a colon is kept as it is, without the white space around it; a blank
/// one is dropped.
pub proof fn lemma_other_lines_are_kept(parser: LineParser, line: Seq<char>)
    requires
        parser.wf(),
        !line.contains(':'),
    ensures
        ({
            let r = parsed(line, pattern::regex_groups(parser.pattern(), line));
            if text::blank(line) {
                r is None
            } else {
                r matches Some(entry) && entry.message == text::trimmed(line) && entry.level
                    == Level::Info && entry.tag == "logcat"@ && entry.pid == 0 && entry.tid == 0
                    && entry.time == ""@ && entry.process is None
            }
        }),
{
    assert(pattern::regex_groups(parser.pattern(), line) is None);
}

/// The entry that a line of the log makes.
pub fn parse_logcat_line(parser: &LineParser, line: &str) -> (r: Option<LogEntry>)
    ensures
        is_entry(r, parsed(line@, pattern::regex_groups(parser.pattern(), line@))),
{
    if is_blank(line) || starts_with(line, "---------") {
        return entry_from_groups(line, &None);
    }
    let groups = capture_groups(&parser.matcher, line);
    entry_from_groups(line, &groups)
}

/// The entry that a line makes as it was read. Bytes that are not UTF-8 are
/// replaced.
pub fn parse_raw_line(parser: &LineParser, line: &[u8]) -> (r: Option<LogEntry>)
    ensures
        is_entry(
            r,
            parsed(
                lossy_text(line@),
                pattern::regex_groups(parser.pattern(), lossy_text(line@)),
            ),
        ),
{
    let text = decode_lossy(line);
    parse_logcat_line(parser, text.as_str())
}

/// The entries that the lines of a stream make, in order.
pub open spec fn entries_of(matcher: Regex, lines: Seq<Seq<u8>>) -> Seq<EntryText>
    decreases lines.len(),
{
    if lines.len() == 0 {
        seq![]
    } else {
        let before = entries_of(matcher, lines.drop_last());
        let line = lossy_text(read_line(lines.last()));
        match parsed(line, pattern::regex_groups(matcher, line)) {
            Some(entry) => before.push(entry),
            None => before,
        }
    }
}

/// The texts of entries.
pub open spec fn entry_texts(entries: Seq<LogEntry>) -> Seq<EntryText> {
    entries.map_values(|entry: LogEntry| entry_text(entry))
}

/// The entries of a whole stream. Bytes that are not UTF-8 are replaced, and a
/// line that is too long is cut; neither stops the reading.
pub fn read_logcat_stream(parser: &LineParser, input: &[u8]) -> (r: Vec<LogEntry>)
    ensures
        entry_texts(r@) == entries_of(parser.pattern(), raw_lines(input@)),
{
    let mut entries: Vec<LogEntry> = Vec::new();
    let mut reader = LineReader::new();
    let ghost mut done: Seq<Seq<u8>> = seq![];
    let mut at: usize = 0;
    proof {
        assert(input@.skip(0) =~= input@);
        assert(done + raw_lines(input@) =~= raw_lines(input@));
        assert(entry_texts(entries@) =~= entries_of(parser.pattern(), done));
    }
    while at < input.len()
        invariant
            at <= input@.len(),
            reader.holds(seq![]),
            done + raw_lines(input@.skip(at as int)) == raw_lines(input@),
            entry_texts(entries@) == entries_of(parser.pattern(), done),
        decreases input@.len() - at,
    {
        let ghost rest = input@.skip(at as int);
        let part = vstd::slice::slice_subrange(input, at, input.len());
        assert(part@ =~= rest);
        let (taken, _) = reader.feed(part);
        let ghost raw = rest.take(taken as int);
        proof {
            assert(seq![] + raw =~= raw);
            assert(reader.holds(raw));
        }
        let finished = reader.finish();
        if let Some(line) = finished {
            let ghost before = entries@;
            let ghost longer = done.push(raw);
            proof {
                assert(longer.drop_last() =~= done);
                assert(longer.last() == raw);
            }
            if let Some(entry) = parse_raw_line(parser, line.as_slice()) {
                proof {
                    assert(entry_texts(before.push(entry)) =~= entry_texts(before).push(
                        entry_text(entry),
                    ));
                }
                entries.push(entry);
            }
            proof {
                assert(rest.skip(taken as int) =~= input@.skip(at + taken));
                assert(longer + raw_lines(rest.skip(taken as int)) =~= done + raw_lines(rest));
                done = longer;
            }
        }
        at += taken;
    }
    proof {
        assert(done + raw_lines(input@.skip(at as int)) =~= done);
    }
    entries
}

// ---------------------------------------------------------------------------
// What holds of every stream
// ---------------------------------------------------------------------------

/// A line of up to a mebibyte is read as it is, without its line feed or its carriage
/// return and line feed.
pub proof fn lemma_lines_are_kept(line: Seq<u8>)
    requires
        line.len() <= 1_048_574,
        line.len() > 0 ==> line.last() != 10 && line.last() != 13,
    ensures
        read_line(line) == line,
        read_line(line.push(10)) == line,
        read_line(line.push(13).push(10)) == line,
{
    let ended = line.push(10);
    let returned = line.push(13);
    let both = returned.push(10);
    assert(ended.drop_last() =~= line);
    assert(returned.drop_last() =~= line);
    assert(both.drop_last() =~= returned);
    assert(without_ending(returned) == without_ending(line));
}

/// Of a longer line the first mebibyte is kept, and a note is added.
pub proof fn lemma_long_lines_are_cut(raw: Seq<u8>)
    requires
        raw.len() > 1_048_576,
        raw[1_048_575] != 10 && raw[1_048_575] != 13,
    ensures
        read_line(raw) == raw.take(1_048_576) + vstd::utf8::encode_utf8(
            " [truncated: log line exceeded 1 MiB]"@,
        ),
{
    assert(kept_bytes(raw).last() == raw[1_048_575]);
}

/// The lines of a stream: what goes up to and with a line feed is the first, and the
/// others are those of what follows. Bytes without a line feed are one line.
pub proof fn lemma_lines_of_a_stream(line: Seq<u8>, rest: Seq<u8>)
    requires
        !line.contains(10),
    ensures
        raw_lines(Seq::empty()).len() == 0,
        line.len() > 0 ==> raw_lines(line) == seq![line],
        raw_lines(line.push(10) + rest) == seq![line.push(10)] + raw_lines(rest),
{
    let all = line.push(10) + rest;
    let n = line.len() as int;
    lemma_first_line(line, seq![]);
    lemma_first_line(line, seq![10u8] + rest);
    assert(line + seq![] =~= line);
    assert(all =~= line + (seq![10u8] + rest));
    assert(all.take(n + 1) =~= line.push(10));
    assert(all.skip(n + 1) =~= rest);
    if n > 0 {
        assert(line.take(n) =~= line);
        assert(line.skip(n) =~= seq![]);
        assert(raw_lines(line.skip(n)) =~= seq![]);
        assert(raw_lines(line) =~= seq![line]);
    }
}

/// How long the line is that a stream begins with.
proof fn lemma_first_line(line: Seq<u8>, rest: Seq<u8>)
    requires
        !line.contains(10),
        rest.len() > 0 ==> rest[0] == 10,
    ensures
        raw_line_len(line + rest) == line.len() + (if rest.len() > 0 {
            1int
        } else {
            0int
        }),
    decreases line.len(),
{
    let all = line + rest;
    if line.len() > 0 {
        assert(line.contains(line[0]));
        let short = line.drop_first();
        assert(!short.contains(10)) by {
            if short.contains(10) {
                let i = choose|i: int| 0 <= i < short.len() && short[i] == 10;
                assert(line[i + 1] == 10);
            }
        }
        lemma_first_line(short, rest);
        assert(all[0] == line[0]);
        assert(all.drop_first() =~= short + rest);
    }
}

/// The entries of a stream are those of its parts, and each line makes what it makes
/// alone, or nothing.
pub proof fn lemma_entries_of_parts(matcher: Regex, first: Seq<Seq<u8>>, second: Seq<Seq<u8>>)
    ensures
        entries_of(matcher, first + second) == entries_of(matcher, first) + entries_of(
            matcher,
            second,
        ),
        first.len() == 1 ==> {
            let line = lossy_text(read_line(first[0]));
            match parsed(line, pattern::regex_groups(matcher, line)) {
                Some(entry) => entries_of(matcher, first) == seq![entry],
                None => entries_of(matcher, first).len() == 0,
            }
        },
    decreases second.len(),
{
    if second.len() == 0 {
        assert(first + second =~= first);
        assert(entries_of(matcher, first) + entries_of(matcher, second) =~= entries_of(
            matcher,
            first,
        ));
    } else {
        let shorter = second.drop_last();
        lemma_entries_of_parts(matcher, first, shorter);
        assert((first + second).drop_last() =~= first + shorter);
        assert((first + second).last() == second.last());
        assert(entries_of(matcher, first + second) =~= entries_of(matcher, first) + entries_of(
            matcher,
            second,
        ));
    }
    if first.len() == 1 {
        assert(first.drop_last() =~= seq![]);
        assert(entries_of(matcher, first.drop_last()) =~= seq![]);
    }
}

/// A divider is kept as it is, whatever else stands in it.
pub proof fn lemma_divider_is_kept(parser: LineParser, line: Seq<char>)
    requires
        text::begins_with(line, "---------"@),
    ensures
        parsed(line, pattern::regex_groups(parser.pattern(), line)) matches Some(entry)
            && entry.message == text::trimmed(line) && entry.level == Level::Info && entry.tag
            == "logcat"@ && entry.pid == 0 && entry.tid == 0 && entry.time == ""@
            && entry.process is None,
{
    reveal_strlit("---------");
    assert(line[0] == line.take(9)[0]);
    assert("---------"@[0] == '-');
    assert(!text::white_space(line[0]));
}

/// A line in the form of an entry is dropped where its letter stands for no level, or a
/// number does not fit in 32 bits.
pub proof fn lemma_unusable_line_is_dropped(parser: LineParser, parts: pattern::LineParts)
    requires
        parser.wf(),
        parts.ok(),
        parts.letter == 'S' || crate::render::decimal_value(parts.pid) > 0xffff_ffff
            || crate::render::decimal_value(parts.tid) > 0xffff_ffff,
    ensures
        parsed(parts.line(), pattern::regex_groups(parser.pattern(), parts.line())) is None,
{
    let line = parts.line();
    assert(pattern::regex_groups(parser.pattern(), line) == Some(parts.groups()));
    lemma_parts(parts);
    reveal_strlit("---------");
    if text::begins_with(line, "---------"@) {
        assert(line.take(9)[0] == "---------"@[0]);
    }
    assert(parts.pid[0] != '+' && parts.tid[0] != '+');
    assert(seq![parts.letter][0] == parts.letter);
}

} // verus!
