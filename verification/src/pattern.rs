//! Regular expressions. The `regex` crate compiles and searches; what it returns
//! is named here, and what the rest of the library decides from it is proved.

use regex::Regex;

use vstd::prelude::*;

use crate::{model, text};

verus! {

/// The compiled form of a regular expression.
#[verifier::external_type_specification]
#[verifier::external_body]
pub struct ExRegex(regex::Regex);

/// Why a pattern was not compiled.
#[derive(Debug)]
pub struct PatternFault {
    /// Whether the pattern breaks the syntax; else what it compiles to is larger
    /// than the limit.
    pub syntax: bool,
    pub text: String,
}

/// What `RegexBuilder::build` makes of a pattern: the matcher, or the message
/// about its syntax.
pub uninterp spec fn built_regex(pattern: Seq<char>, ignore_case: bool) -> Result<Regex, Seq<char>>;

/// Whether `Regex::is_match` finds a match in a text.
pub uninterp spec fn regex_found(matcher: Regex, text: Seq<char>) -> bool;

/// The texts of the groups that `Regex::captures` gives for the first match.
pub uninterp spec fn regex_groups(matcher: Regex, text: Seq<char>) -> Option<
    Seq<Option<Seq<char>>>,
>;

/// The byte ranges of the matches that `Regex::find_iter` goes through.
pub uninterp spec fn regex_spans(matcher: Regex, text: Seq<char>) -> Seq<(usize, usize)>;

/// Whether a text holds another as a run of consecutive characters.
pub open spec fn contains_run(text: Seq<char>, run: Seq<char>) -> bool {
    exists|i: int|
        0 <= i && i + run.len() <= text.len() && #[trigger] text.subrange(i, i + run.len()) == run
}

/// Whether a character has neither upper nor lower case and is one of ASCII.
pub open spec fn caseless(c: char) -> bool {
    c < '\u{80}' && !('A' <= c && c <= 'Z') && !('a' <= c && c <= 'z')
}

/// Whether a text holds a run that is as long as another text and agrees with it at
/// each character of ASCII that is no letter.
pub open spec fn contains_similar_run(text: Seq<char>, run: Seq<char>) -> bool {
    exists|i: int| #[trigger] similar_at(text, run, i)
}

/// Whether such a run begins at a place.
pub open spec fn similar_at(text: Seq<char>, run: Seq<char>, i: int) -> bool {
    &&& 0 <= i && i + run.len() <= text.len()
    &&& forall|k: int|
        0 <= k < run.len() && caseless(#[trigger] run[k]) ==> text[i + k] == run[k]
}

/// The characters that have a meaning of their own in a pattern.
pub open spec fn meta_character(c: char) -> bool {
    c == '\\' || c == '.' || c == '+' || c == '*' || c == '?' || c == '(' || c == ')' || c == '|'
        || c == '[' || c == ']' || c == '{' || c == '}' || c == '^' || c == '$' || c == '#' || c
        == '&' || c == '-' || c == '~'
}

/// A text with a backslash before each of those characters.
pub open spec fn escaped(s: Seq<char>) -> Seq<char>
    decreases s.len(),
{
    if s.len() == 0 {
        seq![]
    } else if meta_character(s.last()) {
        escaped(s.drop_last()).push('\\').push(s.last())
    } else {
        escaped(s.drop_last()).push(s.last())
    }
}

/// Byte ranges in a text: in order, without overlap, each at character borders.
pub open spec fn proper_spans(spans: Seq<(usize, usize)>, text: Seq<char>) -> bool {
    &&& forall|i: int| #![trigger spans[i]]
        0 <= i < spans.len() ==> {
            &&& spans[i].0 <= spans[i].1 <= model::byte_len(text)
            &&& vstd::utf8::is_char_boundary(vstd::utf8::encode_utf8(text), spans[i].0 as int)
            &&& vstd::utf8::is_char_boundary(vstd::utf8::encode_utf8(text), spans[i].1 as int)
        }
    &&& forall|i: int, j: int| 0 <= i < j < spans.len() ==> spans[i].1 <= spans[j].0
}

/// What compiling a pattern comes to: its matcher, the message about its syntax,
/// or for a sound pattern the message that it is too large.
pub open spec fn build_outcome(
    r: Result<Regex, PatternFault>,
    pattern: Seq<char>,
    ignore_case: bool,
) -> bool {
    match r {
        Ok(matcher) => built_regex(pattern, ignore_case) == Ok::<Regex, Seq<char>>(matcher),
        Err(fault) => if fault.syntax {
            built_regex(pattern, ignore_case) == Err::<Regex, Seq<char>>(fault.text@)
        } else {
            built_regex(pattern, ignore_case) is Ok
        },
    }
}

/// The parts of a line of the log that tells date, time, process, thread and level.
pub struct LineParts {
    pub lead: Seq<char>,
    pub year: Seq<char>,
    pub month: Seq<char>,
    pub day: Seq<char>,
    pub after_date: Seq<char>,
    pub hour: Seq<char>,
    pub minute: Seq<char>,
    pub second: Seq<char>,
    pub fraction: Seq<char>,
    pub after_time: Seq<char>,
    pub pid: Seq<char>,
    pub after_pid: Seq<char>,
    pub tid: Seq<char>,
    pub after_tid: Seq<char>,
    pub letter: char,
    pub after_letter: Seq<char>,
    pub tag: Seq<char>,
    pub after_colon: Seq<char>,
    pub message: Seq<char>,
}

/// Whether every character of a text is a decimal digit of ASCII.
pub open spec fn all_digits(s: Seq<char>) -> bool {
    forall|i: int| 0 <= i < s.len() ==> '0' <= #[trigger] s[i] && s[i] <= '9'
}

/// Whether every character of a text is a blank.
pub open spec fn all_blanks(s: Seq<char>) -> bool {
    forall|i: int| 0 <= i < s.len() ==> #[trigger] s[i] == ' '
}

impl LineParts {
    /// The date, where it is told with the year, and the time.
    pub open spec fn time(self) -> Seq<char> {
        self.year + self.month + seq!['-'] + self.day + self.after_date + self.hour + seq![':']
            + self.minute + seq![':'] + self.second + seq!['.'] + self.fraction
    }

    /// The whole line.
    pub open spec fn line(self) -> Seq<char> {
        self.lead + self.time() + self.after_time + self.pid + self.after_pid + self.tid
            + self.after_tid + seq![self.letter] + self.after_letter + self.tag + seq![':']
            + self.after_colon + self.message
    }

    /// The texts of the groups of such a line.
    pub open spec fn groups(self) -> Seq<Option<Seq<char>>> {
        seq![
            Some(self.line()),
            Some(self.time()),
            Some(self.pid),
            Some(self.tid),
            Some(seq![self.letter]),
            Some(self.tag),
            Some(self.message),
        ]
    }

    /// Whether the parts are what such a line is made of: numbers with blanks between
    /// them, a letter, a tag without a colon, and after the colon and a blank the
    /// message. The blank can be missing where the message does not begin with one.
    pub open spec fn ok(self) -> bool {
        &&& all_blanks(self.lead)
        &&& self.year.len() == 0 || (self.year.len() == 5 && all_digits(self.year.take(4))
            && self.year[4] == '-')
        &&& self.month.len() == 2 && all_digits(self.month)
        &&& self.day.len() == 2 && all_digits(self.day)
        &&& self.after_date.len() > 0 && all_blanks(self.after_date)
        &&& self.hour.len() == 2 && all_digits(self.hour)
        &&& self.minute.len() == 2 && all_digits(self.minute)
        &&& self.second.len() == 2 && all_digits(self.second)
        &&& self.fraction.len() > 0 && all_digits(self.fraction)
        &&& self.after_time.len() > 0 && all_blanks(self.after_time)
        &&& self.pid.len() > 0 && all_digits(self.pid)
        &&& self.after_pid.len() > 0 && all_blanks(self.after_pid)
        &&& self.tid.len() > 0 && all_digits(self.tid)
        &&& self.after_tid.len() > 0 && all_blanks(self.after_tid)
        &&& self.letter == 'V' || self.letter == 'D' || self.letter == 'I' || self.letter == 'W'
            || self.letter == 'E' || self.letter == 'F' || self.letter == 'A' || self.letter == 'S'
        &&& self.after_letter.len() > 0 && all_blanks(self.after_letter)
        &&& self.tag.len() > 0 && !text::white_space(self.tag[0])
        &&& !self.tag.contains(':') && !self.tag.contains('\n')
        &&& self.after_colon == seq![' '] || (self.after_colon.len() == 0 && (self.message.len()
            == 0 || !text::white_space(self.message[0])))
        &&& !self.message.contains('\n')
    }
}

/// Whether a matcher finds in every line of that form exactly its parts, and nothing in
/// a text without a colon.
pub open spec fn reads_log_lines(matcher: Regex) -> bool {
    &&& forall|parts: LineParts|
        parts.ok() ==> regex_groups(matcher, #[trigger] parts.line()) == Some(parts.groups())
    &&& forall|text: Seq<char>|
        !text.contains(':') ==> (#[trigger] regex_groups(matcher, text)) is None
}

/// Whether compiling the pattern of the lines of the log, with the case respected, gave
/// a matcher that reads them.
pub open spec fn log_line_outcome(
    r: Result<Regex, PatternFault>,
    pattern: Seq<char>,
    ignore_case: bool,
) -> bool {
    pattern
        == r"^\s*((?:\d{4}-)?\d{2}-\d{2}\s+\d{2}:\d{2}:\d{2}\.\d+)\s+(\d+)\s+(\d+)\s+([VDIWEFAS])\s+(.+?):\s?(.*)$"@
        && !ignore_case ==> (r matches Ok(matcher) ==> reads_log_lines(matcher))
}

/// `RegexBuilder::build` with the case flag compiles a pattern with the syntax's
/// other defaults. A message about the syntax depends on the pattern and the flag
/// alone. Whether a sound pattern stays below the size limit depends on the
/// machine as well: of that nothing is said, nor of the message about it. Of the
/// pattern of the lines of the log it is said, by the meaning that the syntax gives to
/// it, which groups its first match has in a line that is built of the parts in their
/// order: `\d` takes the digits, `\s` the blanks, the class one of its letters, the tag
/// as little as goes on with a colon, and the message the rest of the line. Without a
/// colon there is no match.
#[verifier::external_body]
pub(crate) fn compile(pattern: &str, ignore_case: bool) -> (r: Result<Regex, PatternFault>)
    ensures
        build_outcome(r, pattern@, ignore_case),
        log_line_outcome(r, pattern@, ignore_case),
{
    regex::RegexBuilder::new(pattern).case_insensitive(ignore_case).build().map_err(
        |error| PatternFault {
            syntax: matches!(error, regex::Error::Syntax(_)),
            text: error.to_string(),
        },
    )
}

/// `Regex::is_match` says whether the pattern matches anywhere in the text, which
/// depends on the pattern and the text alone.
pub assume_specification[ regex::Regex::is_match ](matcher: &Regex, haystack: &str) -> (r: bool)
    ensures
        r == regex_found(*matcher, haystack@),
;

/// `regex::escape` puts a backslash before every character that has a meaning of
/// its own. The result is a pattern for the text itself: it is sound, with the
/// case respected it is found exactly where the text occurs, and with the case
/// ignored it is found wherever the text occurs. With the case ignored each character
/// matches one character, which is itself where it is no letter: what is found then
/// holds a run of the text's length that agrees with it there. Which letters count as
/// the same is left to Unicode's simple case folding and not said.
pub assume_specification[ regex::escape ](plain: &str) -> (r: String)
    ensures
        r@ == escaped(plain@),
        built_regex(r@, false) is Ok,
        built_regex(r@, true) is Ok,
        forall|text: Seq<char>|
            #![trigger contains_run(text, plain@)]
            #![trigger regex_found(built_regex(r@, false)->Ok_0, text)]
            regex_found(built_regex(r@, false)->Ok_0, text) <==> contains_run(text, plain@),
        forall|text: Seq<char>| #[trigger]
            contains_run(text, plain@) ==> regex_found(built_regex(r@, true)->Ok_0, text),
        forall|text: Seq<char>| #[trigger]
            regex_found(built_regex(r@, true)->Ok_0, text) ==> contains_similar_run(text, plain@),
;

/// `Regex::captures` gives the groups of the first match, the whole match as the
/// first of them, each with its text where it took part.
#[verifier::external_body]
pub(crate) fn capture_groups(matcher: &Regex, text: &str) -> (r: Option<Vec<Option<String>>>)
    ensures
        group_texts(r) == regex_groups(*matcher, text@),
{
    matcher.captures(text).map(
        |groups| groups.iter().map(|group| group.map(|found| found.as_str().to_owned())).collect(),
    )
}

/// The texts of captured groups.
pub open spec fn group_texts(groups: Option<Vec<Option<String>>>) -> Option<
    Seq<Option<Seq<char>>>,
> {
    match groups {
        Some(groups) => Some(
            groups@.map_values(
                |group: Option<String>|
                    match group {
                        Some(text) => Some(text@),
                        None => None::<Seq<char>>,
                    },
            ),
        ),
        None => None,
    }
}

/// `Regex::find_iter` goes through the matches in a text from left to right. They
/// do not overlap, and each begins and ends between two characters.
#[verifier::external_body]
pub(crate) fn match_spans(matcher: &Regex, text: &str) -> (r: Vec<(usize, usize)>)
    ensures
        r@ == regex_spans(*matcher, text@),
        proper_spans(r@, text@),
{
    matcher.find_iter(text).map(|found| (found.start(), found.end())).collect()
}

} // verus!
