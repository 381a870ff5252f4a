//! Filtering: what passes a filter, the requests to the filter worker and its
//! answers.

use std::sync::Arc;
use std::time::Duration;

use regex::Regex;

use vstd::prelude::*;

use crate::log_store::LogStore;
use crate::model::{Level, LogEntry};
use crate::pattern::{compile, PatternFault};
use crate::text::{is_empty, trim};
use crate::{model, pattern, selection, text};

verus! {

/// The settings of a filter.
pub struct FilterSpec {
    pub package: String,
    pub min_level: Level,
    pub query: String,
    pub regex: bool,
    pub case_sensitive: bool,
}

impl Clone for FilterSpec {
    fn clone(&self) -> (r: FilterSpec)
        ensures
            r == *self,
    {
        FilterSpec {
            package: self.package.clone(),
            min_level: self.min_level,
            query: self.query.clone(),
            regex: self.regex,
            case_sensitive: self.case_sensitive,
        }
    }
}

// ---------------------------------------------------------------------------
// The matcher of a query
// ---------------------------------------------------------------------------

/// The pattern of a query: plain text stands for itself.
pub open spec fn search_pattern(query: Seq<char>, regex: bool) -> Seq<char> {
    if regex {
        query
    } else {
        pattern::escaped(query)
    }
}

/// What the matcher of a filter may be: none without a query, and else the one
/// of its pattern. Exactly a pattern with a fault in its syntax gives the message
/// about that fault; a sound one can only be too large. The matcher of plain text finds
/// that text.
pub open spec fn matcher_outcome(spec: FilterSpec, r: Result<Option<Regex>, String>) -> bool {
    let built = pattern::built_regex(search_pattern(spec.query@, spec.regex), !spec.case_sensitive);
    if spec.query@.len() == 0 {
        r == Ok::<Option<Regex>, String>(None)
    } else {
        match r {
            Ok(matcher) => {
                &&& matcher matches Some(m)
                &&& built == Ok::<Regex, Seq<char>>(m)
                &&& !spec.regex ==> finds_plain_text(m, spec.query@, spec.case_sensitive)
            },
            Err(message) => match built {
                Ok(_) => text::begins_with(message@, "Invalid regex: "@),
                Err(fault) => message@ == "Invalid regex: "@ + fault,
            },
        }
    }
}

/// The matcher, or the message for the user, from what compiling gave.
pub fn matcher_from(built: Result<Regex, PatternFault>) -> (r: Result<Option<Regex>, String>)
    ensures
        match built {
            Ok(matcher) => r == Ok::<Option<Regex>, String>(Some(matcher)),
            Err(fault) => r matches Err(message) && message@ == "Invalid regex: "@ + fault.text@,
        },
{
    match built {
        Ok(matcher) => Ok(Some(matcher)),
        Err(fault) => {
            let mut message = "Invalid regex: ".to_owned();
            message.append(fault.text.as_str());
            Err(message)
        },
    }
}

/// A query of plain text is never taken for a regular expression: where the case
/// counts its matcher finds exactly the texts that hold it, and else those and only
/// such as agree with it somewhere at each character of ASCII that is no letter.
pub open spec fn finds_plain_text(matcher: Regex, query: Seq<char>, case_sensitive: bool) -> bool {
    &&& forall|text: Seq<char>|
        (#[trigger] pattern::contains_run(text, query)) ==> pattern::regex_found(matcher, text)
    &&& forall|text: Seq<char>| #[trigger]
        pattern::regex_found(matcher, text) ==> if case_sensitive {
            pattern::contains_run(text, query)
        } else {
            pattern::contains_similar_run(text, query)
        }
}

/// A regular expression is compiled as it was typed, with the case as it was chosen:
/// nothing is added to it, so it is searched for anywhere in a text.
pub proof fn lemma_regex_query_is_the_pattern(
    spec: FilterSpec,
    r: Result<Option<Regex>, String>,
    matcher: Regex,
)
    requires
        matcher_outcome(spec, r),
        r == Ok::<Option<Regex>, String>(Some(matcher)),
        spec.regex,
    ensures
        spec.query@.len() > 0,
        pattern::built_regex(spec.query@, !spec.case_sensitive) == Ok::<Regex, Seq<char>>(matcher),
{
}

/// What a plain query finds is at least as long as the query and holds each of its
/// characters of ASCII that is no letter, whether the case counts or not.
pub proof fn lemma_plain_query_stands_for_itself(
    matcher: Regex,
    query: Seq<char>,
    case_sensitive: bool,
    text: Seq<char>,
)
    requires
        finds_plain_text(matcher, query, case_sensitive),
        pattern::regex_found(matcher, text),
    ensures
        text.len() >= query.len(),
        forall|k: int|
            0 <= k < query.len() && pattern::caseless(#[trigger] query[k]) ==> text.contains(
                query[k],
            ),
{
    if case_sensitive {
        let i = choose|i: int|
            0 <= i && i + query.len() <= text.len() && #[trigger] text.subrange(
                i,
                i + query.len(),
            ) == query;
        assert forall|k: int|
            0 <= k < query.len() && pattern::caseless(#[trigger] query[k]) implies text.contains(
            query[k],
        ) by {
            assert(text.subrange(i, i + query.len())[k] == text[i + k]);
        }
    } else {
        let i = choose|i: int| #[trigger] pattern::similar_at(text, query, i);
        assert forall|k: int|
            0 <= k < query.len() && pattern::caseless(#[trigger] query[k]) implies text.contains(
            query[k],
        ) by {
            assert(text[i + k] == query[k]);
        }
    }
}

/// Compiles the query of a filter.
pub fn compile_matcher(spec: &FilterSpec) -> (r: Result<Option<Regex>, String>)
    ensures
        matcher_outcome(*spec, r),
        spec.regex ==> (r matches Ok(Some(matcher)) ==> pattern::built_regex(
            spec.query@,
            !spec.case_sensitive,
        ) == Ok::<Regex, Seq<char>>(matcher)),
        !spec.regex ==> pattern::built_regex(
            pattern::escaped(spec.query@),
            !spec.case_sensitive,
        ) is Ok || spec.query@.len() == 0,
        !spec.regex ==> (r matches Ok(Some(matcher)) ==> finds_plain_text(
            matcher,
            spec.query@,
            spec.case_sensitive,
        )),
{
    if is_empty(spec.query.as_str()) {
        return Ok(None);
    }
    let pattern = if spec.regex {
        spec.query.clone()
    } else {
        regex::escape(spec.query.as_str())
    };
    let built = compile(pattern.as_str(), !spec.case_sensitive);
    let r = matcher_from(built);
    proof {
        if let Err(ref message) = r {
            let prefix = "Invalid regex: "@;
            assert(message@.take(prefix.len() as int) =~= prefix);
        }
        if let Ok(Some(ref matcher)) = r {
            assert(pattern::built_regex(pattern@, !spec.case_sensitive)->Ok_0 == *matcher);
        }
    }
    r
}

// ---------------------------------------------------------------------------
// Passing a filter
// ---------------------------------------------------------------------------

/// Whether an entry passes a filter.
pub open spec fn passes(entry: LogEntry, spec: FilterSpec, matcher: Option<Regex>) -> bool {
    &&& entry.of_package(text::trimmed(spec.package@))
    &&& model::severity(entry.level) >= model::severity(spec.min_level)
    &&& matcher matches Some(m) ==> pattern::regex_found(m, entry.message@)
}

/// The rows among the first `n` that pass a filter, in order.
pub open spec fn passing(
    entries: Seq<LogEntry>,
    spec: FilterSpec,
    matcher: Option<Regex>,
    n: int,
) -> Seq<usize>
    decreases n,
{
    if n <= 0 {
        seq![]
    } else if passes(entries[n - 1], spec, matcher) {
        passing(entries, spec, matcher, n - 1).push((n - 1) as usize)
    } else {
        passing(entries, spec, matcher, n - 1)
    }
}

/// Whether an entry passes a filter with its matcher.
pub fn entry_matches(entry: &LogEntry, spec: &FilterSpec, matcher: Option<&Regex>) -> (r: bool)
    ensures
        r == passes(
            *entry,
            *spec,
            match matcher {
                Some(m) => Some(*m),
                None => None::<Regex>,
            },
        ),
{
    entry.matches_package(trim(spec.package.as_str())) && entry.level.at_least(spec.min_level)
        && match matcher {
        Some(m) => m.is_match(&*entry.message),
        None => true,
    }
}

/// The rows that pass a filter are in range, in increasing order, and exactly
/// those that pass it.
pub proof fn lemma_passing(
    entries: Seq<LogEntry>,
    spec: FilterSpec,
    matcher: Option<Regex>,
    n: int,
)
    requires
        0 <= n <= entries.len() <= usize::MAX,
    ensures
        selection::increasing(passing(entries, spec, matcher, n)),
        forall|i: int|
            0 <= i < passing(entries, spec, matcher, n).len() ==> (#[trigger] passing(
                entries,
                spec,
                matcher,
                n,
            )[i]) < n,
        forall|row: usize|
            row < n ==> (#[trigger] passing(entries, spec, matcher, n).contains(row) <==> passes(
                entries[row as int],
                spec,
                matcher,
            )),
    decreases n,
{
    if n > 0 {
        lemma_passing(entries, spec, matcher, n - 1);
        let before = passing(entries, spec, matcher, n - 1);
        let after = passing(entries, spec, matcher, n);
        assert forall|row: usize| row < n implies (#[trigger] after.contains(row) <==> passes(
            entries[row as int],
            spec,
            matcher,
        )) by {
            if after.contains(row) {
                let i = choose|i: int| 0 <= i < after.len() && after[i] == row;
                if i < before.len() {
                    assert(before[i] == row);
                    assert(before.contains(row));
                }
            }
            if passes(entries[row as int], spec, matcher) {
                if row < n - 1 {
                    assert(before.contains(row));
                    let i = choose|i: int| 0 <= i < before.len() && before[i] == row;
                    assert(after[i] == row);
                } else {
                    assert(after[after.len() - 1] == row);
                }
            }
        }
    }
}

/// What passes among the first rows depends on those rows alone.
pub proof fn lemma_passing_prefix(
    a: Seq<LogEntry>,
    b: Seq<LogEntry>,
    spec: FilterSpec,
    matcher: Option<Regex>,
    n: int,
)
    requires
        0 <= n <= a.len(),
        n <= b.len(),
        forall|i: int|
            0 <= i < n ==> passes(#[trigger] a[i], spec, matcher) == passes(b[i], spec, matcher),
    ensures
        passing(a, spec, matcher, n) == passing(b, spec, matcher, n),
    decreases n,
{
    if n > 0 {
        lemma_passing_prefix(a, b, spec, matcher, n - 1);
        assert(passes(a[n - 1], spec, matcher) == passes(b[n - 1], spec, matcher));
    }
}

/// The rows that pass among the first are the first of those that pass, and the
/// others come after them.
pub proof fn lemma_passing_extends(
    entries: Seq<LogEntry>,
    spec: FilterSpec,
    matcher: Option<Regex>,
    from: int,
    n: int,
)
    requires
        0 <= from <= n <= entries.len() <= usize::MAX,
    ensures
        passing(entries, spec, matcher, from).len() <= passing(entries, spec, matcher, n).len(),
        passing(entries, spec, matcher, n).take(
            passing(entries, spec, matcher, from).len() as int,
        ) == passing(entries, spec, matcher, from),
        forall|i: int|
            passing(entries, spec, matcher, from).len() <= i < passing(
                entries,
                spec,
                matcher,
                n,
            ).len() ==> from <= (#[trigger] passing(entries, spec, matcher, n)[i]) < n,
    decreases n - from,
{
    let head = passing(entries, spec, matcher, from);
    if from == n {
        assert(head.take(head.len() as int) =~= head);
    } else {
        lemma_passing_extends(entries, spec, matcher, from, n - 1);
        let before = passing(entries, spec, matcher, n - 1);
        assert(before.push((n - 1) as usize).take(head.len() as int) =~= before.take(
            head.len() as int,
        ));
    }
}

/// Naming processes changes nothing for a filter without a package.
pub proof fn lemma_process_matters_to_packages(
    entry: LogEntry,
    process: Arc<str>,
    spec: FilterSpec,
    matcher: Option<Regex>,
)
    requires
        text::blank(spec.package@),
    ensures
        passes(entry.with_process(process), spec, matcher) == passes(entry, spec, matcher),
{
    text::lemma_trimmed(spec.package@);
}

/// A borrowed matcher.
pub fn as_matcher(matcher: &Option<Regex>) -> (r: Option<&Regex>)
    ensures
        match r {
            Some(m) => *matcher == Some(*m),
            None => *matcher is None,
        },
{
    match matcher {
        Some(m) => Some(m),
        None => None,
    }
}

/// Extends rows that pass a filter over the entries that follow.
pub fn extend_matches(
    matches: &mut Vec<usize>,
    entries: &LogStore,
    spec: &FilterSpec,
    matcher: &Option<Regex>,
    from: usize,
)
    requires
        entries.wf(),
        from <= entries@.len(),
    ensures
        final(matches)@ == old(matches)@ + passing(
            entries@,
            *spec,
            *matcher,
            entries@.len() as int,
        ).skip(passing(entries@, *spec, *matcher, from as int).len() as int),
        old(matches)@ == passing(entries@, *spec, *matcher, from as int) ==> final(matches)@
            == passing(entries@, *spec, *matcher, entries@.len() as int),
{
    let ghost start = matches@;
    let ghost head = passing(entries@, *spec, *matcher, from as int);
    let ghost mut more: Seq<usize> = seq![];
    let mut i: usize = from;
    proof {
        assert(start + more =~= start);
        assert(head + more =~= head);
    }
    while i < entries.len()
        invariant
            from <= i <= entries@.len(),
            entries.wf(),
            matches@ == start + more,
            head == passing(entries@, *spec, *matcher, from as int),
            head + more == passing(entries@, *spec, *matcher, i as int),
        decreases entries@.len() - i,
    {
        if entry_matches(entries.get(i), spec, as_matcher(matcher)) {
            matches.push(i);
            proof {
                assert(start + more.push(i) =~= (start + more).push(i));
                assert(head + more.push(i) =~= (head + more).push(i));
                more = more.push(i);
            }
        }
        i += 1;
    }
    proof {
        assert((head + more).skip(head.len() as int) =~= more);
    }
}

// ---------------------------------------------------------------------------
// Requests and answers
// ---------------------------------------------------------------------------

/// A snapshot of the log that is to be filtered.
pub struct FilterRequest {
    pub generation: u64,
    pub entries: Arc<LogStore>,
    pub spec: FilterSpec,
}

impl Clone for FilterRequest {
    fn clone(&self) -> (r: FilterRequest)
        ensures
            r == *self,
    {
        FilterRequest {
            generation: self.generation,
            entries: self.entries.clone(),
            spec: self.spec.clone(),
        }
    }
}

/// The rows of a snapshot that pass, or why it could not be filtered.
pub struct FilterResult {
    pub generation: u64,
    pub processed_len: usize,
    pub matches: Vec<usize>,
    pub elapsed: Duration,
    pub error: Option<String>,
}

/// Whether a result answers for a log of which at least the snapshot is left.
pub open spec fn fits_log(result: FilterResult, len: int) -> bool {
    &&& result.processed_len <= len
    &&& increasing_below(result.matches@, result.processed_len as int)
}

/// Increasing rows below a bound.
pub open spec fn increasing_below(rows: Seq<usize>, bound: int) -> bool {
    &&& selection::increasing(rows)
    &&& forall|i: int| 0 <= i < rows.len() ==> (#[trigger] rows[i]) < bound
}

impl FilterResult {
    /// Whether the result answers for a log of which at least the snapshot is left.
    pub fn fits(&self, len: usize) -> (r: bool)
        ensures
            r == fits_log(*self, len as int),
    {
        if self.processed_len > len {
            return false;
        }
        let mut i: usize = 0;
        while i < self.matches.len()
            invariant
                i <= self.matches@.len(),
                forall|j: int, k: int|
                    0 <= j < k < i ==> self.matches@[j] < self.matches@[k],
                forall|j: int|
                    0 <= j < i ==> (#[trigger] self.matches@[j]) < self.processed_len,
            decreases self.matches@.len() - i,
        {
            if self.matches[i] >= self.processed_len {
                return false;
            }
            if i > 0 && self.matches[i - 1] >= self.matches[i] {
                return false;
            }
            i += 1;
        }
        true
    }
}

/// What the worker found: the rows that pass, or the message about the query.
pub struct Evaluation {
    pub matches: Vec<usize>,
    pub error: Option<String>,
}

/// What filtering a snapshot with what compiling its query gave comes to.
pub open spec fn evaluated_with(
    request: FilterRequest,
    compiled: Result<Option<Regex>, String>,
    r: Evaluation,
) -> bool {
    match compiled {
        Ok(matcher) => r.error is None && r.matches@ == passing(
            request.entries@,
            request.spec,
            matcher,
            request.entries@.len() as int,
        ),
        Err(message) => r.error == Some(message) && r.matches@.len() == 0,
    }
}

/// What filtering a snapshot comes to.
pub open spec fn evaluated(request: FilterRequest, r: Evaluation) -> bool {
    exists|compiled: Result<Option<Regex>, String>| #[trigger]
        matcher_outcome(request.spec, compiled) && evaluated_with(request, compiled, r)
}

/// Whether a result answers a request.
pub open spec fn answers(request: FilterRequest, result: FilterResult) -> bool {
    &&& result.generation == request.generation
    &&& result.processed_len == request.entries@.len()
    &&& evaluated(request, Evaluation { matches: result.matches, error: result.error })
}

/// Filters a snapshot with what compiling its query gave.
pub fn evaluate_with(
    request: &FilterRequest,
    compiled: Result<Option<Regex>, String>,
) -> (r: Evaluation)
    requires
        request.entries.wf(),
    ensures
        evaluated_with(*request, compiled, r),
{
    match compiled {
        Err(error) => Evaluation { matches: Vec::new(), error: Some(error) },
        Ok(matcher) => {
            let mut matches: Vec<usize> = Vec::new();
            assert(matches@ =~= passing(request.entries@, request.spec, matcher, 0));
            extend_matches(&mut matches, &*request.entries, &request.spec, &matcher, 0);
            Evaluation { matches, error: None }
        },
    }
}

/// Filters a snapshot.
pub fn evaluate(request: &FilterRequest) -> (r: Evaluation)
    requires
        request.entries.wf(),
    ensures
        evaluated(*request, r),
{
    let compiled = compile_matcher(&request.spec);
    let ghost outcome = compiled;
    let r = evaluate_with(request, compiled);
    assert(matcher_outcome(request.spec, outcome));
    r
}

/// The answer to a request.
pub fn answer(request: &FilterRequest, evaluation: Evaluation, elapsed: Duration) -> (r:
    FilterResult)
    requires
        request.entries.wf(),
    ensures
        r == (FilterResult {
            generation: request.generation,
            processed_len: request.entries@.len() as usize,
            matches: evaluation.matches,
            elapsed,
            error: evaluation.error,
        }),
        evaluated(*request, evaluation) ==> answers(*request, r),
{
    FilterResult {
        generation: request.generation,
        processed_len: request.entries.len(),
        matches: evaluation.matches,
        elapsed,
        error: evaluation.error,
    }
}

/// What the filter worker does next.
pub enum FilterTask {
    Wait,
    Stop,
    Run(FilterRequest),
}

/// The mailbox of the filter worker: only the latest request waits in it, and
/// closing it drops that request.
pub struct FilterSender {
    pub request: Option<FilterRequest>,
    pub closed: bool,
}

impl Default for FilterSender {
    fn default() -> (r: FilterSender)
        ensures
            r.request is None,
            !r.closed,
    {
        FilterSender { request: None, closed: false }
    }
}

impl FilterSender {
    /// Puts a request in the place of the one that waits.
    pub fn send(&mut self, request: FilterRequest)
        ensures
            final(self).request == Some(request),
            final(self).closed == old(self).closed,
    {
        self.request = Some(request);
    }

    /// Tells the worker to stop.
    pub fn close(&mut self)
        ensures
            final(self).request is None,
            final(self).closed,
    {
        self.closed = true;
        self.request = None;
    }

    /// Takes the worker's next task.
    pub fn next(&mut self) -> (r: FilterTask)
        ensures
            r == (if old(self).closed {
                FilterTask::Stop
            } else {
                match old(self).request {
                    Some(request) => FilterTask::Run(request),
                    None => FilterTask::Wait,
                }
            }),
            final(self).closed == old(self).closed,
            final(self).request == (if old(self).closed {
                old(self).request
            } else {
                None
            }),
    {
        if self.closed {
            return FilterTask::Stop;
        }
        match self.request.take() {
            Some(request) => FilterTask::Run(request),
            None => FilterTask::Wait,
        }
    }
}

// ---------------------------------------------------------------------------
// What a filter lets through
// ---------------------------------------------------------------------------

/// Whether an entry is what the settings ask for: one of the package or of its
/// sub-processes, of the level or a more severe one, with the query in its message.
pub open spec fn asked_for(
    entry: LogEntry,
    package: Seq<char>,
    min_level: Level,
    query: Seq<char>,
    regex: bool,
    case_sensitive: bool,
) -> bool {
    &&& package.len() == 0 || (entry.process matches Some(process) && (process@ == package || (
    process@.len() > package.len() && process@.take(package.len() as int) == package
        && process@[package.len() as int] == ':')))
    &&& model::severity(entry.level) >= model::severity(min_level)
    &&& query.len() > 0 ==> pattern::regex_found(
        pattern::built_regex(
            if regex {
                query
            } else {
                pattern::escaped(query)
            },
            !case_sensitive,
        )->Ok_0,
        entry.message@,
    )
}

/// With the matcher of its query, a filter lets an entry through exactly where it is what
/// the settings ask for.
pub proof fn lemma_filter_lets_through(
    entry: LogEntry,
    spec: FilterSpec,
    compiled: Result<Option<Regex>, String>,
)
    requires
        matcher_outcome(spec, compiled),
        compiled is Ok,
    ensures
        passes(entry, spec, compiled->Ok_0) <==> asked_for(
            entry,
            text::trimmed(spec.package@),
            spec.min_level,
            spec.query@,
            spec.regex,
            spec.case_sensitive,
        ),
{
    let package = text::trimmed(spec.package@);
    if package.len() > 0 && entry.process is Some {
        let name = entry.process->0@;
        let n = package.len() as int;
        let longer = package + seq![':'];
        if text::begins_with(name, longer) {
            assert(name.take(n + 1)[n] == longer[n]);
            assert(name.take(n) =~= name.take(n + 1).take(n));
            assert(longer.take(n) =~= package);
        }
        if name.len() > n && name.take(n) == package && name[n] == ':' {
            assert(name.take(n + 1) =~= name.take(n).push(name[n]));
            assert(longer =~= package.push(':'));
        }
    }
}

/// The answer to a request: exactly the rows of its snapshot that are what its settings
/// ask for, in order. Where the query is faulty it holds no row but the message.
pub proof fn lemma_answer_is_the_filter(request: FilterRequest, result: FilterResult, row: usize)
    requires
        request.entries.wf(),
        answers(request, result),
        row < request.entries@.len(),
    ensures
        result.generation == request.generation,
        result.processed_len == request.entries@.len(),
        selection::increasing(result.matches@),
        result.error is None ==> (result.matches@.contains(row) <==> asked_for(
            request.entries@[row as int],
            text::trimmed(request.spec.package@),
            request.spec.min_level,
            request.spec.query@,
            request.spec.regex,
            request.spec.case_sensitive,
        )),
        result.error matches Some(message) ==> request.spec.query@.len() > 0
            && result.matches@.len() == 0 && text::begins_with(message@, "Invalid regex: "@),
{
    request.entries.lemma_accounting();
    let found = Evaluation { matches: result.matches, error: result.error };
    let compiled = choose|compiled: Result<Option<Regex>, String>| #[trigger]
        matcher_outcome(request.spec, compiled) && evaluated_with(request, compiled, found);
    let entry = request.entries@[row as int];
    match compiled {
        Ok(matcher) => {
            lemma_passing(request.entries@, request.spec, matcher, request.entries@.len() as int);
            lemma_filter_lets_through(entry, request.spec, compiled);
        },
        Err(message) => {
            let prefix = "Invalid regex: "@;
            let built = pattern::built_regex(
                search_pattern(request.spec.query@, request.spec.regex),
                !request.spec.case_sensitive,
            );
            if let Err(fault) = built {
                assert((prefix + fault).take(prefix.len() as int) =~= prefix);
            }
        },
    }
}

} // verus!
