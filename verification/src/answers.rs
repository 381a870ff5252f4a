//! The filter works beside the log, which goes on meanwhile. Here stands why its
//! answers still fit when they come.

use regex::Regex;

use vstd::prelude::*;

use crate::filter::{FilterRequest, FilterResult};
use crate::logs::LogView;
use crate::model::LogEntry;
use crate::session::{BackendEvent, Effects, LogcatEvent, Session};
use crate::{filter, naming, text};

verus! {

/// Whether a snapshot and the beginning of a log agree on what passes a filter.
pub open spec fn agree(
    snapshot: Seq<LogEntry>,
    entries: Seq<LogEntry>,
    spec: filter::FilterSpec,
) -> bool {
    forall|i: int, matcher: Option<Regex>|
        0 <= i < snapshot.len() ==> #[trigger] filter::passes(snapshot[i], spec, matcher)
            == filter::passes(entries[i], spec, matcher)
}

/// What holds of every request since it was made: either a later one has taken its
/// place, or it holds the filter in use, the log still begins with its snapshot,
/// and until the settings are changed the same of these entries pass.
pub open spec fn stands(request: FilterRequest, view: LogView) -> bool {
    &&& request.entries.wf()
    &&& request.generation <= view.filter_generation
    &&& request.generation == view.filter_generation ==> {
        &&& request.spec == view.active_filter
        &&& request.entries@.len() <= view.entries@.len()
        &&& !view.filter_dirty ==> agree(request.entries@, view.entries@, view.active_filter)
    }
}

/// Starting the filter anew: the new request stands, and so does every older one.
pub proof fn lemma_new_request_stands(
    before: LogView,
    after: LogView,
    new: FilterRequest,
    request: FilterRequest,
)
    requires
        before.filter_generation < after.filter_generation,
        after.scheduled(after.filter_generation, new),
        stands(request, before),
    ensures
        stands(new, after),
        stands(request, after),
{
}

/// Emptying the log: every request stands, though none of them counts any more.
pub proof fn lemma_clearing_keeps_requests(before: LogView, after: LogView, request: FilterRequest)
    requires
        before.filter_generation < after.filter_generation,
        stands(request, before),
    ensures
        stands(request, after),
        request.generation != after.filter_generation,
{
}

/// What leaves the log and the filter in use alone keeps every request standing.
pub proof fn lemma_settings_keep_requests(before: LogView, after: LogView, request: FilterRequest)
    requires
        after.entries == before.entries,
        after.active_filter == before.active_filter,
        after.filter_generation == before.filter_generation,
        before.filter_dirty ==> after.filter_dirty,
        stands(request, before),
    ensures
        stands(request, after),
{
}

/// Appending an entry, and the trim that may follow, keep every request standing.
pub proof fn lemma_append_keeps_requests(
    before: LogView,
    after: LogView,
    entry: LogEntry,
    r: Option<FilterRequest>,
    request: FilterRequest,
)
    requires
        before.counters_fit(),
        after.appended_to(before, entry, r),
        stands(request, before),
    ensures
        stands(request, after),
        r matches Some(new) ==> stands(new, after),
{
}

/// Naming processes, the filter that may be started for it and the trim that may
/// follow keep every request standing.
pub proof fn lemma_naming_keeps_requests(
    before: LogView,
    after: LogView,
    table: Map<u32, String>,
    r: Option<FilterRequest>,
    request: FilterRequest,
)
    requires
        before.wf(),
        before.counters_fit(),
        after.named_from(before, table, r),
        stands(request, before),
    ensures
        stands(request, after),
        r matches Some(new) ==> stands(new, after),
{
    let spec = before.active_filter;
    if request.generation == after.filter_generation && !after.filter_dirty {
        assert(agree(request.entries@, after.entries@, spec)) by {
            if naming::any_named(before.unresolved@, table.dom()) {
                text::lemma_trimmed(before.package@);
                text::lemma_trimmed(spec.package@);
                assert forall|i: int, matcher: Option<Regex>|
                    0 <= i < request.entries@.len() implies #[trigger] filter::passes(
                    request.entries@[i],
                    spec,
                    matcher,
                ) == filter::passes(after.entries@[i], spec, matcher) by {
                    let old_entry = before.entries@[i];
                    if naming::can_be_named(
                        before.entries@,
                        before.unresolved@,
                        after.processes@,
                        i,
                    ) {
                        filter::lemma_process_matters_to_packages(
                            old_entry,
                            after.processes@[old_entry.pid],
                            spec,
                            matcher,
                        );
                    }
                }
            } else {
                naming::lemma_nothing_named(
                    before.entries@,
                    before.unresolved@,
                    after.processes@,
                );
            }
        }
    }
}

/// Whatever comes in from outside keeps every request standing.
pub proof fn lemma_events_keep_requests(
    before: Session,
    after: Session,
    event: BackendEvent,
    used: usize,
    r: Effects,
    request: FilterRequest,
)
    requires
        before.wf(),
        before.accepts(event, used),
        after.stepped(before, event, r),
        stands(request, before.logs),
    ensures
        stands(request, after.logs),
        r.filter matches Some(new) ==> stands(new, after.logs),
{
    match event {
        BackendEvent::Processes { serial, result: Ok(table) } => {
            if before.capture.model().selected == Some(serial@) {
                lemma_naming_keeps_requests(before.logs, after.logs, table@, r.filter, request);
            }
        },
        BackendEvent::Logcat { session_id, event: LogcatEvent::Entry(queued) } => {
            if session_id == before.capture.session_id {
                lemma_append_keeps_requests(
                    before.logs,
                    after.logs,
                    queued.entry,
                    r.filter,
                    request,
                );
            }
        },
        _ => {},
    }
}

/// The answer to a request that stands can be taken in.
pub proof fn lemma_answer_fits(view: LogView, request: FilterRequest, result: FilterResult)
    requires
        stands(request, view),
        filter::answers(request, result),
        result.generation == view.filter_generation,
    ensures
        filter::fits_log(result, view.entries@.len() as int),
{
    request.entries.lemma_accounting();
    let found = filter::Evaluation { matches: result.matches, error: result.error };
    let compiled = choose|compiled: Result<Option<Regex>, String>| #[trigger]
        filter::matcher_outcome(request.spec, compiled) && filter::evaluated_with(
            request,
            compiled,
            found,
        );
    if let Ok(matcher) = compiled {
        filter::lemma_passing(
            request.entries@,
            request.spec,
            matcher,
            request.entries@.len() as int,
        );
    }
}

/// What filtering beside the capture promises: the answer to a request, whenever it
/// comes and whatever was appended, named, trimmed or cleared meanwhile, leaves the
/// shown rows in step with the filter.
pub proof fn lemma_answer_keeps_in_step(
    before: LogView,
    after: LogView,
    request: FilterRequest,
    result: FilterResult,
)
    requires
        before.wf(),
        before.in_sync(),
        stands(request, before),
        filter::answers(request, result),
        after.absorbed(before, result),
    ensures
        after.in_sync(),
        stands(request, after),
{
    if result.generation == before.filter_generation && result.error is None
        && !before.filter_dirty && before.incremental_matcher is Ok {
        let matcher = before.incremental_matcher->Ok_0;
        let spec = before.active_filter;
        let total = before.entries@.len() as int;
        let snapshot = request.entries@.len() as int;
        let found = filter::Evaluation { matches: result.matches, error: result.error };
        let compiled = choose|compiled: Result<Option<Regex>, String>| #[trigger]
            filter::matcher_outcome(request.spec, compiled) && filter::evaluated_with(
                request,
                compiled,
                found,
            );
        assert(compiled == Ok::<Option<Regex>, String>(matcher));
        before.entries.lemma_accounting();
        filter::lemma_passing_prefix(request.entries@, before.entries@, spec, matcher, snapshot);
        filter::lemma_passing_extends(before.entries@, spec, matcher, snapshot, total);
        let all = filter::passing(before.entries@, spec, matcher, total);
        let head = filter::passing(before.entries@, spec, matcher, snapshot);
        assert(result.matches@ == head);
        assert(all =~= head + all.skip(head.len() as int)) by {
            assert(all.take(head.len() as int) + all.skip(head.len() as int) =~= all);
        }
    }
}

} // verus!
