//! Log buffers, levels, entries and saved filters.

use std::sync::Arc;

use vstd::prelude::*;
use vstd::utf8;

use crate::render::{decimal, push_left, push_right};
use crate::text::{equal, first_char, first_line, is_empty, strip_prefix};

verus! {

/// A buffer of the device's log daemon.
#[derive(Clone, Copy, Debug, Eq, Ord, PartialEq, PartialOrd, Structural)]
pub enum LogBuffer {
    Main,
    System,
    Crash,
    Events,
    Radio,
    All,
}

/// The name by which a buffer is asked for.
pub open spec fn buffer_name(buffer: LogBuffer) -> Seq<char> {
    match buffer {
        LogBuffer::Main => "main"@,
        LogBuffer::System => "system"@,
        LogBuffer::Crash => "crash"@,
        LogBuffer::Events => "events"@,
        LogBuffer::Radio => "radio"@,
        LogBuffer::All => "all"@,
    }
}

/// The buffers that are captured unless others are chosen.
pub open spec fn default_buffers() -> Seq<LogBuffer> {
    seq![LogBuffer::Main, LogBuffer::System, LogBuffer::Crash]
}

/// The buffers that can be combined, in their order.
pub open spec fn single_buffers() -> Seq<LogBuffer> {
    seq![
        LogBuffer::Main,
        LogBuffer::System,
        LogBuffer::Crash,
        LogBuffer::Events,
        LogBuffer::Radio,
    ]
}

/// A choice of buffers in order and without repetition. `All` stands alone, and
/// an empty choice is the default one.
pub open spec fn normalized(buffers: Seq<LogBuffer>) -> Seq<LogBuffer> {
    if buffers.contains(LogBuffer::All) {
        seq![LogBuffer::All]
    } else if buffers.len() == 0 {
        default_buffers()
    } else {
        single_buffers().filter(|b: LogBuffer| buffers.contains(b))
    }
}

impl LogBuffer {
    pub const CHOICES: [LogBuffer; 6] = [
        LogBuffer::Main,
        LogBuffer::System,
        LogBuffer::Crash,
        LogBuffer::Events,
        LogBuffer::Radio,
        LogBuffer::All,
    ];

    pub fn name(self) -> (r: &'static str)
        ensures
            r@ == buffer_name(self),
    {
        match self {
            LogBuffer::Main => "main",
            LogBuffer::System => "system",
            LogBuffer::Crash => "crash",
            LogBuffer::Events => "events",
            LogBuffer::Radio => "radio",
            LogBuffer::All => "all",
        }
    }

    pub fn defaults() -> (r: Vec<LogBuffer>)
        ensures
            r@ == default_buffers(),
    {
        vec![LogBuffer::Main, LogBuffer::System, LogBuffer::Crash]
    }

    /// Whether a buffer is among the given ones.
    pub fn is_in(self, buffers: &Vec<LogBuffer>) -> (r: bool)
        ensures
            r == buffers@.contains(self),
    {
        let mut i: usize = 0;
        while i < buffers.len()
            invariant
                i <= buffers@.len(),
                forall|j: int| 0 <= j < i ==> buffers@[j] != self,
            decreases buffers@.len() - i,
        {
            if buffers[i] == self {
                return true;
            }
            i += 1;
        }
        false
    }

    pub fn normalize(buffers: &mut Vec<LogBuffer>)
        ensures
            final(buffers)@ == normalized(old(buffers)@),
    {
        if LogBuffer::All.is_in(buffers) {
            *buffers = vec![LogBuffer::All];
            return;
        }
        if buffers.len() == 0 {
            *buffers = LogBuffer::defaults();
            return;
        }
        let mut chosen: Vec<LogBuffer> = Vec::new();
        let choices = LogBuffer::CHOICES;
        let ghost keep = |b: LogBuffer| buffers@.contains(b);
        let mut i: usize = 0;
        proof {
            assert(single_buffers().take(0).filter(keep) =~= chosen@) by {
                reveal(Seq::filter);
            }
        }
        while i < 5
            invariant
                i <= 5,
                choices == LogBuffer::CHOICES,
                keep == (|b: LogBuffer| buffers@.contains(b)),
                chosen@ == single_buffers().take(i as int).filter(keep),
            decreases 5 - i,
        {
            proof {
                lemma_filter_step(single_buffers(), keep, i as int);
                assert(choices[i as int] == single_buffers()[i as int]);
            }
            if choices[i].is_in(buffers) {
                chosen.push(choices[i]);
            }
            i += 1;
        }
        proof {
            assert(single_buffers().take(5) =~= single_buffers());
        }
        *buffers = chosen;
    }
}

/// Filtering a prefix that is one element longer.
pub proof fn lemma_filter_step<T>(s: Seq<T>, keep: spec_fn(T) -> bool, k: int)
    requires
        0 <= k < s.len(),
    ensures
        s.take(k + 1).filter(keep) == (if keep(s[k]) {
            s.take(k).filter(keep).push(s[k])
        } else {
            s.take(k).filter(keep)
        }),
{
    reveal(Seq::filter);
    assert(s.take(k + 1).drop_last() =~= s.take(k));
}

/// Filters that agree on the elements of a sequence give the same result.
proof fn lemma_filter_agrees<T>(s: Seq<T>, p: spec_fn(T) -> bool, q: spec_fn(T) -> bool)
    requires
        forall|i: int| 0 <= i < s.len() ==> p(#[trigger] s[i]) == q(s[i]),
    ensures
        s.filter(p) == s.filter(q),
    decreases s.len(),
{
    reveal(Seq::filter);
    if s.len() > 0 {
        lemma_filter_agrees(s.drop_last(), p, q);
    }
}

/// A filter keeps exactly the elements that satisfy it.
pub proof fn lemma_filter_holds<T>(s: Seq<T>, p: spec_fn(T) -> bool, x: T)
    ensures
        s.filter(p).contains(x) <==> s.contains(x) && p(x),
    decreases s.len(),
{
    reveal(Seq::filter);
    if s.len() > 0 {
        let t = s.drop_last();
        lemma_filter_holds(t, p, x);
        let f = t.filter(p);
        if s.contains(x) && p(x) {
            let i = choose|i: int| 0 <= i < s.len() && s[i] == x;
            if i < t.len() {
                assert(t[i] == x);
                let j = choose|j: int| 0 <= j < f.len() && f[j] == x;
                assert(s.filter(p)[j] == x);
            } else {
                assert(s.filter(p) == f.push(x));
                assert(f.push(x)[f.len() as int] == x);
            }
        }
        if s.filter(p).contains(x) {
            let j = choose|j: int| 0 <= j < s.filter(p).len() && s.filter(p)[j] == x;
            if j < f.len() {
                assert(f[j] == x);
                let i = choose|i: int| 0 <= i < t.len() && t[i] == x;
                assert(s[i] == x);
            } else {
                assert(s[s.len() - 1] == x);
            }
        }
    }
}

/// Every single buffer is one of the five.
proof fn lemma_single(b: LogBuffer)
    ensures
        single_buffers().contains(b) <==> b != LogBuffer::All,
{
    let s = single_buffers();
    match b {
        LogBuffer::Main => assert(s[0] == b),
        LogBuffer::System => assert(s[1] == b),
        LogBuffer::Crash => assert(s[2] == b),
        LogBuffer::Events => assert(s[3] == b),
        LogBuffer::Radio => assert(s[4] == b),
        LogBuffer::All => {},
    }
}

/// A normalized choice is never empty, `All` is never combined with another
/// buffer, and apart from that exactly the chosen buffers are in it.
pub proof fn lemma_normalized_choice(buffers: Seq<LogBuffer>)
    ensures
        normalized(buffers).len() > 0,
        normalized(buffers).contains(LogBuffer::All) ==> normalized(buffers) == seq![
            LogBuffer::All,
        ],
        normalized(buffers).contains(LogBuffer::All) <==> buffers.contains(LogBuffer::All),
        buffers.len() > 0 && !buffers.contains(LogBuffer::All) ==> (forall|b: LogBuffer|
            normalized(buffers).contains(b) <==> buffers.contains(b)),
{
    let keep = |b: LogBuffer| buffers.contains(b);
    let chosen = single_buffers().filter(keep);
    if buffers.contains(LogBuffer::All) {
        assert(seq![LogBuffer::All][0] == LogBuffer::All);
    } else if buffers.len() > 0 {
        assert forall|b: LogBuffer| normalized(buffers).contains(b) <==> buffers.contains(b) by {
            lemma_filter_holds(single_buffers(), keep, b);
            lemma_single(b);
        }
        assert(buffers.contains(buffers[0]));
        assert(chosen.contains(buffers[0]));
    }
}

/// Normalizing a choice of buffers twice is the same as normalizing it once.
pub proof fn lemma_normalize_idempotent(buffers: Seq<LogBuffer>)
    ensures
        normalized(normalized(buffers)) == normalized(buffers),
{
    let once = normalized(buffers);
    lemma_normalized_choice(buffers);
    let again = |b: LogBuffer| once.contains(b);
    if buffers.contains(LogBuffer::All) {
    } else if buffers.len() == 0 {
        let first = |b: LogBuffer| b == LogBuffer::Main || b == LogBuffer::System || b
            == LogBuffer::Crash;
        let all = single_buffers();
        assert(once[0] == LogBuffer::Main && once[1] == LogBuffer::System && once[2]
            == LogBuffer::Crash);
        lemma_filter_agrees(all, first, again);
        lemma_filter_step(all, first, 0);
        lemma_filter_step(all, first, 1);
        lemma_filter_step(all, first, 2);
        lemma_filter_step(all, first, 3);
        lemma_filter_step(all, first, 4);
        assert(all.take(0).filter(first) =~= seq![]) by {
            reveal(Seq::filter);
        }
        assert(all.take(5) =~= all);
        assert(all.filter(first) =~= once);
    } else {
        let keep = |b: LogBuffer| buffers.contains(b);
        lemma_filter_agrees(single_buffers(), keep, again);
    }
}

/// A color by its red, green and blue parts.
#[derive(Clone, Copy, Debug, Eq, PartialEq, Structural)]
pub struct Rgb {
    pub red: u8,
    pub green: u8,
    pub blue: u8,
}

/// The severity of an entry, from the least to the most severe.
#[derive(Clone, Copy, Debug, Eq, Ord, PartialEq, PartialOrd, Structural)]
pub enum Level {
    Verbose,
    Debug,
    Info,
    Warn,
    Error,
    Fatal,
}

impl Default for Level {
    fn default() -> (r: Level)
        ensures
            r == Level::Verbose,
    {
        Level::Verbose
    }
}

/// The place of a level in the order of severity.
pub open spec fn severity(level: Level) -> int {
    match level {
        Level::Verbose => 0,
        Level::Debug => 1,
        Level::Info => 2,
        Level::Warn => 3,
        Level::Error => 4,
        Level::Fatal => 5,
    }
}

/// The letter that the log prints for a level.
pub open spec fn level_letter(level: Level) -> Seq<char> {
    match level {
        Level::Verbose => "V"@,
        Level::Debug => "D"@,
        Level::Info => "I"@,
        Level::Warn => "W"@,
        Level::Error => "E"@,
        Level::Fatal => "F"@,
    }
}

/// The level that a letter stands for; an assertion counts as fatal.
pub open spec fn level_of(letter: char) -> Option<Level> {
    if letter == 'V' {
        Some(Level::Verbose)
    } else if letter == 'D' {
        Some(Level::Debug)
    } else if letter == 'I' {
        Some(Level::Info)
    } else if letter == 'W' {
        Some(Level::Warn)
    } else if letter == 'E' {
        Some(Level::Error)
    } else if letter == 'F' || letter == 'A' {
        Some(Level::Fatal)
    } else {
        None
    }
}

/// A color from its three parts.
pub open spec fn rgb(red: u8, green: u8, blue: u8) -> Rgb {
    Rgb { red, green, blue }
}

/// The color of a level on a dark or a light background.
pub open spec fn level_color(level: Level, dark: bool) -> Rgb {
    if dark {
        match level {
            Level::Verbose => rgb(142, 151, 166),
            Level::Debug => rgb(112, 161, 255),
            Level::Info => rgb(101, 203, 152),
            Level::Warn => rgb(239, 190, 82),
            Level::Error | Level::Fatal => rgb(255, 111, 118),
        }
    } else {
        match level {
            Level::Verbose => rgb(91, 100, 114),
            Level::Debug => rgb(45, 103, 196),
            Level::Info => rgb(28, 130, 79),
            Level::Warn => rgb(166, 102, 0),
            Level::Error | Level::Fatal => rgb(194, 48, 55),
        }
    }
}

impl Level {
    pub const ALL: [Level; 6] = [
        Level::Verbose,
        Level::Debug,
        Level::Info,
        Level::Warn,
        Level::Error,
        Level::Fatal,
    ];

    pub fn from_letter(value: char) -> (r: Option<Level>)
        ensures
            r == level_of(value),
    {
        match value {
            'V' => Some(Level::Verbose),
            'D' => Some(Level::Debug),
            'I' => Some(Level::Info),
            'W' => Some(Level::Warn),
            'E' => Some(Level::Error),
            'F' | 'A' => Some(Level::Fatal),
            _ => None,
        }
    }

    pub fn short(self) -> (r: &'static str)
        ensures
            r@ == level_letter(self),
    {
        match self {
            Level::Verbose => "V",
            Level::Debug => "D",
            Level::Info => "I",
            Level::Warn => "W",
            Level::Error => "E",
            Level::Fatal => "F",
        }
    }

    pub fn color(self, dark: bool) -> (r: Rgb)
        ensures
            r == level_color(self, dark),
    {
        let (red, green, blue): (u8, u8, u8) = match (self, dark) {
            (Level::Verbose, true) => (142, 151, 166),
            (Level::Debug, true) => (112, 161, 255),
            (Level::Info, true) => (101, 203, 152),
            (Level::Warn, true) => (239, 190, 82),
            (Level::Error, true) | (Level::Fatal, true) => (255, 111, 118),
            (Level::Verbose, false) => (91, 100, 114),
            (Level::Debug, false) => (45, 103, 196),
            (Level::Info, false) => (28, 130, 79),
            (Level::Warn, false) => (166, 102, 0),
            (Level::Error, false) | (Level::Fatal, false) => (194, 48, 55),
        };
        Rgb { red, green, blue }
    }

    /// The place of the level in the order of severity.
    fn rank(self) -> (r: u8)
        ensures
            r == severity(self),
    {
        match self {
            Level::Verbose => 0,
            Level::Debug => 1,
            Level::Info => 2,
            Level::Warn => 3,
            Level::Error => 4,
            Level::Fatal => 5,
        }
    }

    /// Whether the level is at least as severe as another.
    pub fn at_least(self, minimum: Level) -> (r: bool)
        ensures
            r == (severity(self) >= severity(minimum)),
    {
        self.rank() >= minimum.rank()
    }
}

/// The letter that is printed for a level is read back as that level.
pub proof fn lemma_level_letter_round_trip(level: Level)
    ensures
        level_letter(level).len() == 1,
        level_of(level_letter(level)[0]) == Some(level),
{
    reveal_strlit("V");
    reveal_strlit("D");
    reveal_strlit("I");
    reveal_strlit("W");
    reveal_strlit("E");
    reveal_strlit("F");
}

// ---------------------------------------------------------------------------
// Entries
// ---------------------------------------------------------------------------

/// `Arc<str>` made from a `String` shares the same text.
pub assume_specification[ <Arc<str> as From<String>>::from ](v: String) -> (r: Arc<str>)
    ensures
        r@ == v@,
;

/// `Arc<str>` made from a string slice shares a copy of the same text.
pub assume_specification<'a>[ <Arc<str> as From<&'a str>>::from ](v: &str) -> (r: Arc<str>)
    ensures
        r@ == v@,
;

/// One line of the log.
#[derive(Debug)]
pub struct LogEntry {
    pub time: Arc<str>,
    pub pid: u32,
    pub tid: u32,
    pub process: Option<Arc<str>>,
    pub tag: Arc<str>,
    pub level: Level,
    pub message: Arc<str>,
}

impl Clone for LogEntry {
    fn clone(&self) -> (r: LogEntry)
        ensures
            r == *self,
    {
        LogEntry {
            time: self.time.clone(),
            pid: self.pid,
            tid: self.tid,
            process: match &self.process {
                Some(process) => Some(process.clone()),
                None => None,
            },
            tag: self.tag.clone(),
            level: self.level,
            message: self.message.clone(),
        }
    }
}

/// The number of bytes of a text in UTF-8.
pub open spec fn byte_len(s: Seq<char>) -> nat {
    utf8::encode_utf8(s).len()
}

/// The accounting cost of an entry besides its texts.
pub const ENTRY_OVERHEAD: usize = 192;

impl LogEntry {
    /// The bytes of the process name, where it is known.
    pub open spec fn process_bytes(self) -> nat {
        match self.process {
            Some(process) => byte_len(process@),
            None => 0,
        }
    }

    /// The texts of an entry in bytes, with its share of the indexes.
    pub open spec fn payload(self) -> nat {
        byte_len(self.time@) + byte_len(self.tag@) + byte_len(self.message@) + self.process_bytes()
            + ENTRY_OVERHEAD as nat
    }

    /// The same entry with the process named.
    pub open spec fn with_process(self, process: Arc<str>) -> LogEntry {
        LogEntry { process: Some(process), ..self }
    }

    /// The process name that is shown.
    pub open spec fn shown_process(self) -> Seq<char> {
        match self.process {
            Some(process) => process@,
            None => "—"@,
        }
    }

    /// Whether the entry comes from a package: any entry where none is named, and
    /// else one of the package's main process or of one of its sub-processes.
    pub open spec fn of_package(self, package: Seq<char>) -> bool {
        package.len() == 0 || match self.process {
            Some(process) => process@ == package || crate::text::begins_with(
                process@,
                package + seq![':'],
            ),
            None => false,
        }
    }

    /// The whole entry as one text.
    pub open spec fn full_text(self) -> Seq<char> {
        self.time@ + seq![' '] + crate::render::right_aligned(
            crate::render::digits(self.pid as nat),
            5,
        ) + seq![' '] + crate::render::right_aligned(crate::render::digits(self.tid as nat), 5)
            + seq![' '] + level_letter(self.level) + seq![' '] + crate::render::left_aligned(
            self.shown_process(),
            24,
        ) + seq![' '] + self.tag@ + seq![':', ' '] + self.message@
    }

    /// The texts in bytes and the cost of the row. The store accounts for the
    /// capacity of its chunks by itself.
    pub fn payload_bytes(&self) -> (r: usize)
        requires
            self.payload() <= usize::MAX,
        ensures
            r == self.payload(),
    {
        let process: usize = match &self.process {
            Some(process) => process.as_bytes().len(),
            None => 0,
        };
        self.time.as_bytes().len() + self.tag.as_bytes().len() + self.message.as_bytes().len()
            + process + ENTRY_OVERHEAD
    }

    pub fn new<T: Into<Arc<str>>, G: Into<Arc<str>>, M: Into<Arc<str>>>(
        time: T,
        pid: u32,
        tid: u32,
        tag: G,
        level: Level,
        message: M,
    ) -> (r: LogEntry)
        ensures
            call_ensures(<T as Into<Arc<str>>>::into, (time,), r.time),
            r.pid == pid,
            r.tid == tid,
            r.process is None,
            call_ensures(<G as Into<Arc<str>>>::into, (tag,), r.tag),
            r.level == level,
            call_ensures(<M as Into<Arc<str>>>::into, (message,), r.message),
    {
        LogEntry {
            time: time.into(),
            pid,
            tid,
            process: None,
            tag: tag.into(),
            level,
            message: message.into(),
        }
    }

    /// A line that is not a structured entry.
    pub fn marker<M: Into<Arc<str>>>(message: M) -> (r: LogEntry)
        ensures
            r.time@ == ""@,
            r.pid == 0,
            r.tid == 0,
            r.process is None,
            r.tag@ == "logcat"@,
            r.level == Level::Info,
            call_ensures(<M as Into<Arc<str>>>::into, (message,), r.message),
    {
        LogEntry::new("", 0, 0, "logcat", Level::Info, message)
    }

    pub fn process_name(&self) -> (r: &str)
        ensures
            r@ == self.shown_process(),
    {
        match &self.process {
            Some(process) => &**process,
            None => "—",
        }
    }

    pub fn first_line(&self) -> (r: &str)
        ensures
            r@ == crate::text::head_line(self.message@),
    {
        first_line(&*self.message)
    }

    pub fn matches_package(&self, package: &str) -> (r: bool)
        ensures
            r == self.of_package(package@),
    {
        if is_empty(package) {
            return true;
        }
        match &self.process {
            None => false,
            Some(process) => {
                if equal(&**process, package) {
                    return true;
                }
                let ghost name = process@;
                let ghost longer = package@ + seq![':'];
                match strip_prefix(&**process, package) {
                    None => {
                        proof {
                            if crate::text::begins_with(name, longer) {
                                assert(name.take(package@.len() as int) =~= longer.take(
                                    package@.len() as int,
                                ));
                                assert(longer.take(package@.len() as int) =~= package@);
                            }
                        }
                        false
                    },
                    Some(suffix) => {
                        let separated = match first_char(suffix) {
                            Some(c) => c == ':',
                            None => false,
                        };
                        proof {
                            let n = package@.len() as int;
                            if separated {
                                assert(name[n] == suffix@[0]);
                                assert(name.take(n + 1) =~= longer) by {
                                    assert(name.take(n) == package@);
                                    assert forall|i: int| 0 <= i < n implies name[i] == package@[i] by {
                                        assert(name.take(n)[i] == package@[i]);
                                    }
                                }
                            } else if crate::text::begins_with(name, longer) {
                                assert(name.take(n + 1)[n] == ':');
                                assert(suffix@[0] == ':');
                            }
                        }
                        separated
                    },
                }
            },
        }
    }

    pub fn copy_text(&self) -> (r: String)
        ensures
            r@ == self.full_text(),
    {
        let mut text = String::new();
        text.append(&*self.time);
        text.push(' ');
        push_right(&mut text, decimal(self.pid as u64).as_str(), 5);
        text.push(' ');
        push_right(&mut text, decimal(self.tid as u64).as_str(), 5);
        text.push(' ');
        text.append(self.level.short());
        text.push(' ');
        push_left(&mut text, self.process_name(), 24);
        text.push(' ');
        text.append(&*self.tag);
        text.push(':');
        text.push(' ');
        text.append(&*self.message);
        assert(text@ =~= self.full_text());
        text
    }
}

/// A package filter takes in the package's main process and the sub-processes
/// whose names go on with a colon, and no other process.
pub proof fn lemma_package_and_sub_processes(entry: LogEntry, package: Seq<char>)
    requires
        package.len() > 0,
    ensures
        entry.of_package(package) <==> (entry.process matches Some(process) && (process@ == package
            || exists|rest: Seq<char>| process@ == #[trigger] (package + seq![':'] + rest))),
{
    if let Some(process) = entry.process {
        let name = process@;
        let n = package.len() as int + 1;
        if crate::text::begins_with(name, package + seq![':']) {
            assert(name =~= name.take(n) + name.skip(n));
            assert(name == package + seq![':'] + name.skip(n));
        }
        if exists|rest: Seq<char>| name == #[trigger] (package + seq![':'] + rest) {
            assert(name.take(n) =~= package + seq![':']);
        }
    }
}

/// Copying an entry keeps the complete message at its end.
pub proof fn lemma_copy_ends_with_message(entry: LogEntry)
    ensures
        entry.full_text().len() >= entry.message@.len(),
        entry.full_text().skip(entry.full_text().len() - entry.message@.len()) == entry.message@,
{
    let text = entry.full_text();
    assert(text.skip(text.len() - entry.message@.len()) =~= entry.message@);
}

/// A named combination of filter settings.
#[derive(Debug, PartialEq)]
pub struct SavedFilter {
    pub name: String,
    pub package: String,
    pub min_level: Level,
    pub query: String,
    pub regex: bool,
    pub case_sensitive: bool,
}

impl Clone for SavedFilter {
    fn clone(&self) -> (r: SavedFilter)
        ensures
            r == *self,
    {
        SavedFilter {
            name: self.name.clone(),
            package: self.package.clone(),
            min_level: self.min_level,
            query: self.query.clone(),
            regex: self.regex,
            case_sensitive: self.case_sensitive,
        }
    }
}

/// The levels from the least to the most severe.
pub proof fn lemma_levels_in_order()
    ensures
        severity(Level::Verbose) < severity(Level::Debug) < severity(Level::Info) < severity(
            Level::Warn,
        ) < severity(Level::Error) < severity(Level::Fatal),
{
}

/// Only the letters of the levels and that of an assertion, which counts as fatal, stand
/// for a level.
pub proof fn lemma_letters_of_levels(letter: char, level: Level)
    ensures
        level_of(letter) == Some(level) <==> (seq![letter] == level_letter(level) || (letter == 'A'
            && level == Level::Fatal)),
{
    reveal_strlit("V");
    reveal_strlit("D");
    reveal_strlit("I");
    reveal_strlit("W");
    reveal_strlit("E");
    reveal_strlit("F");
    assert(seq![letter][0] == letter);
    lemma_level_letter_round_trip(level);
    assert(seq![letter] =~= level_letter(level) <==> letter == level_letter(level)[0]);
}

/// The place of a buffer among those that can be chosen.
pub open spec fn buffer_place(buffer: LogBuffer) -> int {
    match buffer {
        LogBuffer::Main => 0,
        LogBuffer::System => 1,
        LogBuffer::Crash => 2,
        LogBuffer::Events => 3,
        LogBuffer::Radio => 4,
        LogBuffer::All => 5,
    }
}

/// A normalized choice names its buffers in their order and each once, and where nothing
/// was chosen it is the main, the system and the crash buffer.
pub proof fn lemma_normalized_in_order(buffers: Seq<LogBuffer>, b: LogBuffer)
    ensures
        forall|i: int, j: int|
            0 <= i < j < normalized(buffers).len() ==> buffer_place(normalized(buffers)[i])
                < buffer_place(normalized(buffers)[j]),
        buffers.len() == 0 ==> (normalized(buffers).contains(b) <==> b == LogBuffer::Main || b
            == LogBuffer::System || b == LogBuffer::Crash),
{
    let chosen = normalized(buffers);
    if !buffers.contains(LogBuffer::All) && buffers.len() > 0 {
        lemma_filter_ordered(single_buffers(), |b: LogBuffer| buffers.contains(b), 5);
        assert(single_buffers().take(5) =~= single_buffers());
    }
    if buffers.len() == 0 {
        assert(chosen[0] == LogBuffer::Main && chosen[1] == LogBuffer::System && chosen[2]
            == LogBuffer::Crash);
    }
}

/// What is left of buffers in their order is in their order.
proof fn lemma_filter_ordered(s: Seq<LogBuffer>, keep: spec_fn(LogBuffer) -> bool, n: int)
    requires
        0 <= n <= s.len(),
        forall|i: int, j: int| 0 <= i < j < s.len() ==> buffer_place(s[i]) < buffer_place(s[j]),
    ensures
        ({
            let f = s.take(n).filter(keep);
            &&& forall|i: int, j: int|
                0 <= i < j < f.len() ==> buffer_place(f[i]) < buffer_place(f[j])
            &&& forall|i: int|
                0 <= i < f.len() && n < s.len() ==> buffer_place(#[trigger] f[i]) < buffer_place(
                    s[n],
                )
        }),
    decreases n,
{
    if n == 0 {
        assert(s.take(0).filter(keep) =~= seq![]) by {
            reveal(Seq::filter);
        }
    } else {
        lemma_filter_ordered(s, keep, n - 1);
        lemma_filter_step(s, keep, n - 1);
    }
}

/// What an entry accounts for: the bytes of its texts, and 192 for its row. Naming its
/// process adds the bytes of the name.
pub proof fn lemma_payload_of_an_entry(entry: LogEntry, process: Arc<str>)
    ensures
        entry.process is None ==> entry.payload() == utf8::encode_utf8(entry.time@).len()
            + utf8::encode_utf8(entry.tag@).len() + utf8::encode_utf8(entry.message@).len() + 192,
        entry.process is None ==> entry.with_process(process).payload() == entry.payload()
            + utf8::encode_utf8(process@).len(),
{
}

/// The columns of a copied entry: after the time stand the process and the thread, each
/// in five places or more, the letter of the level, the name of the process in twenty-four
/// places or more, the tag with a colon, and the message.
pub proof fn lemma_columns_of_a_copy(entry: LogEntry)
    ensures
        ({
            let text = entry.full_text();
            let pid = crate::render::digits(entry.pid as nat);
            let tid = crate::render::digits(entry.tid as nat);
            let name = match entry.process {
                Some(process) => process@,
                None => "—"@,
            };
            let a = entry.time@.len() as int;
            let b = a + 1 + (if pid.len() > 5 {
                pid.len() as int
            } else {
                5
            });
            let c = b + 1 + (if tid.len() > 5 {
                tid.len() as int
            } else {
                5
            });
            let d = c + 3;
            let e = d + (if name.len() > 24 {
                name.len() as int
            } else {
                24
            });
            &&& e < text.len()
            &&& text.take(a) == entry.time@
            &&& text[a] == ' ' && text[b] == ' ' && text[c] == ' ' && text[c + 2] == ' '
                && text[e] == ' '
            &&& text.subrange(b - pid.len(), b) == pid
            &&& forall|i: int| a < i < b - pid.len() ==> #[trigger] text[i] == ' '
            &&& text.subrange(c - tid.len(), c) == tid
            &&& forall|i: int| b < i < c - tid.len() ==> #[trigger] text[i] == ' '
            &&& level_of(text[c + 1]) == Some(entry.level)
            &&& text.subrange(d, d + name.len()) == name
            &&& forall|i: int| d + name.len() <= i < e ==> #[trigger] text[i] == ' '
            &&& text.skip(e + 1) == entry.tag@ + seq![':', ' '] + entry.message@
        }),
{
    let text = entry.full_text();
    let pid = crate::render::digits(entry.pid as nat);
    let tid = crate::render::digits(entry.tid as nat);
    let name = entry.shown_process();
    let pids = crate::render::right_aligned(pid, 5);
    let tids = crate::render::right_aligned(tid, 5);
    let names = crate::render::left_aligned(name, 24);
    let letter = level_letter(entry.level);
    crate::render::lemma_fields(pid, 5);
    crate::render::lemma_fields(tid, 5);
    crate::render::lemma_fields(name, 24);
    lemma_level_letter_round_trip(entry.level);
    let a = entry.time@.len() as int;
    let b = a + 1 + pids.len();
    let c = b + 1 + tids.len();
    let d = c + 3;
    let e = d + names.len();
    assert(text.take(a) =~= entry.time@);
    assert(text.subrange(b - pid.len(), b) =~= pid) by {
        assert(text.subrange(a + 1, b) =~= pids);
        assert(text.subrange(b - pid.len(), b) =~= pids.skip(pids.len() - pid.len()));
    }
    assert(text.subrange(c - tid.len(), c) =~= tid) by {
        assert(text.subrange(b + 1, c) =~= tids);
        assert(text.subrange(c - tid.len(), c) =~= tids.skip(tids.len() - tid.len()));
    }
    assert(text.subrange(d, d + name.len()) =~= name) by {
        assert(text.subrange(d, e) =~= names);
        assert(text.subrange(d, d + name.len()) =~= names.take(name.len() as int));
    }
    assert forall|i: int| a < i < b - pid.len() implies #[trigger] text[i] == ' ' by {
        assert(text[i] == pids[i - a - 1]);
    }
    assert forall|i: int| b < i < c - tid.len() implies #[trigger] text[i] == ' ' by {
        assert(text[i] == tids[i - b - 1]);
    }
    assert forall|i: int| d + name.len() <= i < e implies #[trigger] text[i] == ' ' by {
        assert(text[i] == names[i - d]);
    }
    assert(text[c + 1] == letter[0]);
    assert(text.skip(e + 1) =~= entry.tag@ + seq![':', ' '] + entry.message@);
}

/// No two buffers have the same name.
pub proof fn lemma_buffer_names_differ(a: LogBuffer, b: LogBuffer)
    ensures
        buffer_name(a) == buffer_name(b) <==> a == b,
{
    reveal_strlit("main");
    reveal_strlit("system");
    reveal_strlit("crash");
    reveal_strlit("events");
    reveal_strlit("radio");
    reveal_strlit("all");
    let x = buffer_name(a);
    let y = buffer_name(b);
    if a != b && x == y {
        assert(x.len() == y.len());
        assert(x[0] == y[0]);
    }
}

/// On either background the levels have colors of their own, but errors and fatal ones
/// look alike.
pub proof fn lemma_level_colors_differ(a: Level, b: Level, dark: bool)
    ensures
        level_color(a, dark) == level_color(b, dark) <==> a == b || (severity(a) >= severity(
            Level::Error,
        ) && severity(b) >= severity(Level::Error)),
        level_color(a, true) != level_color(a, false),
{
}

} // verus!
